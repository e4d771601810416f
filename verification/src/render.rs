//! The history-replay renderer: reconstructs from the finished history
//! which cells the agent ever occupied, and packs that footprint into a
//! 1-bit-per-pixel raster, encoded as a PNG image.

use vstd::prelude::*;
use crate::ant::{Ant, Coords, footprint_on_grid, replay_dir, replay_pos};
use crate::direction::Direction;

verus! {

/// Whether one of the first `n` steps of `history` starts with the walker
/// standing on `(row, col)`.
pub open spec fn visited_before(
    size: usize,
    history: Seq<bool>,
    n: int,
    row: usize,
    col: usize,
) -> bool {
    exists|k: int| 0 <= k < n && #[trigger] replay_pos(size, history, k) == (row, col)
}

/// Whether the agent's path ever passes through `(row, col)`: some step of
/// `history` starts there.  This is the footprint, not the parity-derived
/// color: a cell stays visited however often the path crosses it again.
pub open spec fn visited(size: usize, history: Seq<bool>, row: usize, col: usize) -> bool {
    visited_before(size, history, history.len() as int, row, col)
}

/// Extending the replay by one step adds exactly that step's starting
/// position to the visited cells.
proof fn lemma_visited_before_step(size: usize, h: Seq<bool>, n: int, row: usize, col: usize)
    requires
        0 <= n,
    ensures
        visited_before(size, h, n + 1, row, col) == (visited_before(size, h, n, row, col)
            || replay_pos(size, h, n) == (row, col)),
{
    if visited_before(size, h, n + 1, row, col) {
        let k = choose|k: int| 0 <= k < n + 1 && #[trigger] replay_pos(size, h, k) == (row, col);
        if k < n {
            assert(visited_before(size, h, n, row, col));
        }
    }
    if visited_before(size, h, n, row, col) {
        let k = choose|k: int| 0 <= k < n && #[trigger] replay_pos(size, h, k) == (row, col);
        assert(0 <= k < n + 1 && replay_pos(size, h, k) == (row, col));
    }
    if replay_pos(size, h, n) == (row, col) {
        assert(0 <= n < n + 1 && replay_pos(size, h, n) == (row, col));
    }
}

/// The bit for column `col` in a packed row: bit `7 - col % 8` of byte
/// `col / 8`, most significant bit first; 1 encodes white (never visited).
pub open spec fn bit_at(bytes: Seq<u8>, col: int) -> bool {
    (bytes[col / 8] >> ((7 - col % 8) as u8)) & 1u8 == 1u8
}

/// Every bit of a fully set byte is 1.
proof fn lemma_full_byte_bit(k: u8)
    by (bit_vector)
    requires
        k < 8,
    ensures
        (255u8 >> k) & 1u8 == 1u8,
{
}

/// Clearing bit `j` of a byte zeroes that bit and leaves the others as
/// they were.
proof fn lemma_clear_bit(b: u8, j: u8, k: u8)
    by (bit_vector)
    requires
        j < 8,
        k < 8,
    ensures
        ((b & !(1u8 << j)) >> k) & 1u8 == (if k == j {
            0u8
        } else {
            (b >> k) & 1u8
        }),
{
}

impl Ant {
    /// For one grid row, which columns the agent's path ever touched: entry
    /// `col` is true exactly when some step of the history starts at
    /// `(row_n, col)`.
    pub fn visited_pixels(&self, row_n: usize) -> (r: Vec<bool>)
        requires
            footprint_on_grid(self.size, self.path@),
        ensures
            r@.len() == self.size,
            forall|col: usize|
                col < self.size ==> r@[col as int] == visited(self.size, self.path@, row_n, col),
    {
        let mut fake_position: Coords = (self.size / 2, self.size / 2);
        let mut fake_direction = Direction::Up;
        let mut result: Vec<bool> = Vec::new();
        let mut j: usize = 0;
        while j < self.size
            invariant
                j <= self.size,
                result@.len() == j,
                forall|c: int| 0 <= c < j ==> result@[c] == false,
            decreases self.size - j,
        {
            result.push(false);
            j = j + 1;
        }
        let mut i: usize = 0;
        while i < self.path.len()
            invariant
                0 <= i <= self.path@.len(),
                footprint_on_grid(self.size, self.path@),
                result@.len() == self.size,
                fake_position == replay_pos(self.size, self.path@, i as int),
                fake_direction == replay_dir(self.path@, i as int),
                forall|col: usize|
                    col < self.size ==> result@[col as int] == visited_before(
                        self.size,
                        self.path@,
                        i as int,
                        row_n,
                        col,
                    ),
            decreases self.path@.len() - i,
        {
            let ghost h = self.path@;
            if fake_position.0 == row_n {
                result[fake_position.1] = true;
            }
            proof {
                assert forall|col: usize| col < self.size implies result@[col as int]
                    == visited_before(self.size, h, i + 1, row_n, col) by {
                    lemma_visited_before_step(self.size, h, i as int, row_n, col);
                }
            }
            let color = self.path[i];
            fake_direction.turn(color);
            Self::one_step(self.size, &mut fake_position, &fake_direction);
            i = i + 1;
        }
        result
    }

    /// One grid row of the raster: `size / 8` bytes whose bits are all 1
    /// (white) except the columns the agent ever visited, whose bits are
    /// cleared (black), most significant bit first.
    pub fn row_bytes(&self, row_n: usize) -> (r: Vec<u8>)
        requires
            footprint_on_grid(self.size, self.path@),
            self.size % 8 == 0,
        ensures
            r@.len() == self.size / 8,
            forall|col: usize|
                col < self.size ==> bit_at(r@, col as int) == !visited(
                    self.size,
                    self.path@,
                    row_n,
                    col,
                ),
    {
        let visited_row = self.visited_pixels(row_n);
        let mut data: Vec<u8> = Vec::new();
        let mut j: usize = 0;
        while j < self.size / 8
            invariant
                j <= self.size / 8,
                data@.len() == j,
                forall|t: int| 0 <= t < j ==> data@[t] == 255u8,
            decreases self.size / 8 - j,
        {
            data.push(255u8);
            j = j + 1;
        }
        proof {
            assert forall|col: usize| col < self.size implies bit_at(data@, col as int)
                == true by {
                assert(col / 8 < self.size / 8);
                lemma_full_byte_bit((7 - col % 8) as u8);
            }
        }
        let mut i: usize = 0;
        while i < self.size
            invariant
                i <= self.size,
                self.size % 8 == 0,
                data@.len() == self.size / 8,
                visited_row@.len() == self.size,
                forall|col: usize|
                    col < self.size ==> visited_row@[col as int] == visited(
                        self.size,
                        self.path@,
                        row_n,
                        col,
                    ),
                forall|col: usize|
                    col < i ==> bit_at(data@, col as int) == !visited_row@[col as int],
                forall|col: usize| i <= col < self.size ==> bit_at(data@, col as int) == true,
            decreases self.size - i,
        {
            let ghost prev = data@;
            if visited_row[i] {
                let idx = i / 8;
                let sh = (7 - i % 8) as u8;
                let b = data[idx];
                data[idx] = b & !(1u8 << sh);
                proof {
                    assert forall|col: usize| col < self.size implies bit_at(data@, col as int)
                        == (if col == i {
                        false
                    } else {
                        bit_at(prev, col as int)
                    }) by {
                        if col / 8 == i / 8 {
                            lemma_clear_bit(b, sh, (7 - col % 8) as u8);
                        }
                    }
                }
            }
            i = i + 1;
        }
        data
    }
}

/// 1 when `(row, col)` was never visited (rendered white), 0 when it was
/// (rendered black).
pub open spec fn white_bit(size: usize, history: Seq<bool>, row: int, col: int) -> u8 {
    if visited(size, history, row as usize, col as usize) {
        0u8
    } else {
        1u8
    }
}

/// Byte `j` of one raster row: the bits of columns `8 * j` through
/// `8 * j + 7`, most significant bit first.
pub open spec fn row_byte(size: usize, history: Seq<bool>, row: int, j: int) -> u8 {
    (128 * white_bit(size, history, row, 8 * j) + 64 * white_bit(size, history, row, 8 * j + 1)
        + 32 * white_bit(size, history, row, 8 * j + 2) + 16 * white_bit(
        size,
        history,
        row,
        8 * j + 3,
    ) + 8 * white_bit(size, history, row, 8 * j + 4) + 4 * white_bit(
        size,
        history,
        row,
        8 * j + 5,
    ) + 2 * white_bit(size, history, row, 8 * j + 6) + white_bit(
        size,
        history,
        row,
        8 * j + 7,
    )) as u8
}

/// One raster row as a byte sequence.
pub open spec fn row_spec(size: usize, history: Seq<bool>, row: int) -> Seq<u8> {
    Seq::new((size / 8) as nat, |j: int| row_byte(size, history, row, j))
}

/// The first `n` raster rows, concatenated top to bottom.
pub open spec fn raster_rows(size: usize, history: Seq<bool>, n: int) -> Seq<u8>
    decreases n,
{
    if n <= 0 {
        Seq::empty()
    } else {
        raster_rows(size, history, n - 1) + row_spec(size, history, n - 1)
    }
}

/// The whole packed raster of `history`: `size` rows of `size / 8` bytes,
/// rows top to bottom, bits most significant first, 1 = white (never
/// visited), 0 = black (visited).
pub open spec fn raster_spec(size: usize, history: Seq<bool>) -> Seq<u8> {
    raster_rows(size, history, size as int)
}

/// A byte is the weighted sum of its eight bits.
proof fn lemma_byte_from_bits(b: u8, x7: u8, x6: u8, x5: u8, x4: u8, x3: u8, x2: u8, x1: u8, x0: u8)
    by (bit_vector)
    requires
        (b >> 7u8) & 1u8 == x7,
        (b >> 6u8) & 1u8 == x6,
        (b >> 5u8) & 1u8 == x5,
        (b >> 4u8) & 1u8 == x4,
        (b >> 3u8) & 1u8 == x3,
        (b >> 2u8) & 1u8 == x2,
        (b >> 1u8) & 1u8 == x1,
        (b >> 0u8) & 1u8 == x0,
    ensures
        b == 128 * x7 + 64 * x6 + 32 * x5 + 16 * x4 + 8 * x3 + 4 * x2 + 2 * x1 + x0,
{
}

/// A masked single bit is 0 or 1.
proof fn lemma_bit_is_binary(b: u8, k: u8)
    by (bit_vector)
    ensures
        (b >> k) & 1u8 <= 1,
{
}

/// Each raster row has `size / 8` bytes, so `n` rows have `n * (size / 8)`.
proof fn lemma_raster_rows_len(size: usize, history: Seq<bool>, n: int)
    requires
        0 <= n,
    ensures
        raster_rows(size, history, n).len() == n * (size as int / 8),
    decreases n,
{
    if n > 0 {
        lemma_raster_rows_len(size, history, n - 1);
        assert((n - 1) * (size as int / 8) + (size as int / 8) == n * (size as int / 8))
            by (nonlinear_arith);
    } else {
        assert(n * (size as int / 8) == 0) by (nonlinear_arith)
            requires
                n == 0,
        ;
    }
}

/// One bit of a packed row, read back: bit `7 - t` of byte `j` encodes the
/// visitation of column `8 * j + t`.
proof fn lemma_one_bit(size: usize, history: Seq<bool>, row: usize, bytes: Seq<u8>, j: int, t: int)
    requires
        size % 8 == 0,
        bytes.len() == size / 8,
        0 <= j < bytes.len(),
        0 <= t < 8,
        forall|col: usize|
            col < size ==> #[trigger] bit_at(bytes, col as int) == !visited(
                size,
                history,
                row,
                col,
            ),
    ensures
        (bytes[j] >> ((7 - t) as u8)) & 1u8 == white_bit(size, history, row as int, 8 * j + t),
{
    let col = (8 * j + t) as usize;
    assert(col < size);
    assert(col as int / 8 == j && col as int % 8 == t);
    assert(bit_at(bytes, col as int) == !visited(size, history, row, col));
    lemma_bit_is_binary(bytes[j], (7 - t) as u8);
}

/// A row of bytes whose bits all match the visitation predicate is that
/// row of the raster.
proof fn lemma_row_determined(size: usize, history: Seq<bool>, row: usize, bytes: Seq<u8>)
    requires
        size % 8 == 0,
        bytes.len() == size / 8,
        forall|col: usize|
            col < size ==> #[trigger] bit_at(bytes, col as int) == !visited(
                size,
                history,
                row,
                col,
            ),
    ensures
        bytes == row_spec(size, history, row as int),
{
    assert forall|j: int| 0 <= j < bytes.len() implies bytes[j] == row_byte(
        size,
        history,
        row as int,
        j,
    ) by {
        let b = bytes[j];
        lemma_one_bit(size, history, row, bytes, j, 0);
        lemma_one_bit(size, history, row, bytes, j, 1);
        lemma_one_bit(size, history, row, bytes, j, 2);
        lemma_one_bit(size, history, row, bytes, j, 3);
        lemma_one_bit(size, history, row, bytes, j, 4);
        lemma_one_bit(size, history, row, bytes, j, 5);
        lemma_one_bit(size, history, row, bytes, j, 6);
        lemma_one_bit(size, history, row, bytes, j, 7);
        lemma_byte_from_bits(
            b,
            (b >> 7u8) & 1u8,
            (b >> 6u8) & 1u8,
            (b >> 5u8) & 1u8,
            (b >> 4u8) & 1u8,
            (b >> 3u8) & 1u8,
            (b >> 2u8) & 1u8,
            (b >> 1u8) & 1u8,
            (b >> 0u8) & 1u8,
        );
    }
    assert(bytes =~= row_spec(size, history, row as int));
}

/// What the png crate's encoder produces for a packed 1-bit grayscale
/// raster of a square image: a pure function of the raster bytes and the
/// side length.
pub uninterp spec fn png_bytes_of(data: Seq<u8>, size: int) -> Seq<u8>;

/// Relies on png::Encoder with bit depth One and its default grayscale
/// color type: writing the header and one image's worth of packed raster
/// rows into an in-memory sink cannot fail when the dimensions are nonzero
/// and the data length matches, and the bytes produced depend on the
/// raster and the dimensions alone.
#[verifier::external_body]
fn encode_png(data: &Vec<u8>, size: usize) -> (r: Vec<u8>)
    requires
        0 < size,
        size as int <= u32::MAX as int,
        size % 8 == 0,
        data@.len() == size * (size / 8),
    ensures
        r@ == png_bytes_of(data@, size as int),
{
    let mut out: Vec<u8> = Vec::new();
    let mut encoder = png::Encoder::new(&mut out, size as u32, size as u32);
    encoder.set_depth(png::BitDepth::One);
    let mut writer = encoder.write_header().unwrap();
    writer.write_image_data(data).unwrap();
    writer.finish().unwrap();
    out
}

impl Ant {
    /// The finished footprint as a complete PNG image: `size` x `size`
    /// pixels, 1-bit grayscale, rows streamed top to bottom, bit value 1 =
    /// white (never visited), 0 = black (visited).
    pub fn to_png_bytes(&self) -> (r: Vec<u8>)
        requires
            footprint_on_grid(self.size, self.path@),
            self.size % 8 == 0,
            0 < self.size,
            self.size as int <= u32::MAX as int,
        ensures
            r@ == png_bytes_of(raster_spec(self.size, self.path@), self.size as int),
    {
        let mut data: Vec<u8> = Vec::new();
        let mut row: usize = 0;
        while row < self.size
            invariant
                row <= self.size,
                self.size % 8 == 0,
                footprint_on_grid(self.size, self.path@),
                data@ == raster_rows(self.size, self.path@, row as int),
            decreases self.size - row,
        {
            let mut rb = self.row_bytes(row);
            proof {
                lemma_row_determined(self.size, self.path@, row, rb@);
            }
            data.append(&mut rb);
            row = row + 1;
        }
        proof {
            lemma_raster_rows_len(self.size, self.path@, self.size as int);
        }
        encode_png(&data, self.size)
    }
}

} // verus!
