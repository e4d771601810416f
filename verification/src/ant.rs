//! The simulation engine: the agent's state, the step/turn/flip loop, and
//! the replay model that derives cell colors from the recorded history
//! instead of a stored grid.

use vstd::prelude::*;
use crate::direction::{Direction, turn_spec};

verus! {

/// A grid coordinate: (row, column).
pub type Coords = (usize, usize);

/// Side length of the default grid.
pub const SIZE: usize = 1024;

/// Whether `pos` lies inside the `size` x `size` grid.
pub open spec fn in_grid(size: usize, pos: Coords) -> bool {
    pos.0 < size && pos.1 < size
}

/// The fixed start coordinate: the center of the grid.
pub open spec fn start_pos(size: usize) -> Coords {
    (size / 2, size / 2)
}

/// One cell of movement in direction `d`, with the same wraparound the
/// executable step uses: decrementing 0 gives `usize::MAX` and incrementing
/// `usize::MAX` gives 0, values that lie outside every grid.
pub open spec fn step_pos(pos: Coords, d: Direction) -> Coords {
    match d {
        Direction::Up => (if pos.0 == 0 { usize::MAX } else { (pos.0 - 1) as usize }, pos.1),
        Direction::Left => (pos.0, if pos.1 == 0 { usize::MAX } else { (pos.1 - 1) as usize }),
        Direction::Down => (if pos.0 == usize::MAX { 0usize } else { (pos.0 + 1) as usize }, pos.1),
        Direction::Right => (pos.0, if pos.1 == usize::MAX { 0usize } else { (pos.1 + 1) as usize }),
    }
}

/// The walker's direction after replaying the first `k` records of
/// `history`, starting from the fixed start orientation.
pub open spec fn replay_dir(history: Seq<bool>, k: int) -> Direction
    decreases k,
{
    if k <= 0 {
        Direction::Up
    } else {
        turn_spec(replay_dir(history, k - 1), history[k - 1])
    }
}

/// The walker's position after replaying the first `k` records of `history`
/// on a `size` x `size` grid: each record first turns the walker, then moves
/// it one cell.
pub open spec fn replay_pos(size: usize, history: Seq<bool>, k: int) -> Coords
    decreases k,
{
    if k <= 0 {
        start_pos(size)
    } else {
        step_pos(replay_pos(size, history, k - 1), replay_dir(history, k))
    }
}

/// Whether replaying `history` leaves the cell at `pixel` black: every cell
/// starts white and is flipped once for each step that starts on it.
pub open spec fn cell_black(size: usize, history: Seq<bool>, pixel: Coords) -> bool
    decreases history.len(),
{
    if history.len() == 0 {
        false
    } else {
        cell_black(size, history.drop_last(), pixel)
            != (replay_pos(size, history, history.len() - 1) == pixel)
    }
}

/// The answer the replay-based color query gives for `pixel`: a running
/// boolean seeded with "the pixel is the start cell", toggled every time the
/// replayed walker's position equals `pixel` after a step.  At the walker's
/// own final position this equals "the cell is not black"; elsewhere it
/// differs from the cell's color by the missing final toggle.
pub open spec fn is_white_spec(size: usize, history: Seq<bool>, pixel: Coords) -> bool {
    cell_black(size, history, pixel)
        != (replay_pos(size, history, history.len() as int) == pixel)
}

/// The set of cells that replaying `history` leaves black.
pub open spec fn black_cells(size: usize, history: Seq<bool>) -> Set<Coords> {
    Set::new(|c: Coords| cell_black(size, history, c))
}

/// How many cells replaying `history` leaves black.
pub open spec fn black_count(size: usize, history: Seq<bool>) -> nat {
    black_cells(size, history).len()
}

/// The positions the walker occupies while replaying `history`: one for
/// each record, taken before that record's turn and move are applied.
pub open spec fn footprint(size: usize, history: Seq<bool>) -> Seq<Coords> {
    Seq::new(history.len(), |k: int| replay_pos(size, history, k))
}

/// Replays of histories that agree on their first `k` records agree on the
/// walker's direction and position after `k` records.
pub proof fn lemma_replay_agree(size: usize, h1: Seq<bool>, h2: Seq<bool>, k: int)
    requires
        0 <= k <= h1.len(),
        k <= h2.len(),
        forall|j: int| 0 <= j < k ==> h1[j] == h2[j],
    ensures
        replay_dir(h1, k) == replay_dir(h2, k),
        replay_pos(size, h1, k) == replay_pos(size, h2, k),
    decreases k,
{
    if k > 0 {
        lemma_replay_agree(size, h1, h2, k - 1);
    }
}

/// Appending one record flips exactly the cell the walker stood on before
/// the appended step.
pub proof fn lemma_cell_black_push(size: usize, h: Seq<bool>, b: bool, pixel: Coords)
    ensures
        cell_black(size, h.push(b), pixel)
            == (cell_black(size, h, pixel) != (replay_pos(size, h, h.len() as int) == pixel)),
{
    let hb = h.push(b);
    assert(hb.drop_last() =~= h);
    lemma_replay_agree(size, hb, h, h.len() as int);
}

/// A black cell is always one of the positions the walker stepped on.
pub proof fn lemma_black_cell_is_visited(size: usize, h: Seq<bool>, pixel: Coords)
    requires
        cell_black(size, h, pixel),
    ensures
        exists|k: int| 0 <= k < h.len() && replay_pos(size, h, k) == pixel,
    decreases h.len(),
{
    let last = h.len() - 1;
    if replay_pos(size, h, last) == pixel {
        assert(0 <= last < h.len() && replay_pos(size, h, last) == pixel);
    } else {
        lemma_black_cell_is_visited(size, h.drop_last(), pixel);
        let k = choose|k: int|
            0 <= k < h.drop_last().len() && replay_pos(size, h.drop_last(), k) == pixel;
        lemma_replay_agree(size, h.drop_last(), h, k);
        assert(0 <= k < h.len() && replay_pos(size, h, k) == pixel);
    }
}

/// The black cells form a finite set no larger than the history itself.
pub proof fn lemma_black_cells_bound(size: usize, h: Seq<bool>)
    ensures
        black_cells(size, h).finite(),
        black_cells(size, h).len() <= h.len(),
{
    let fp = footprint(size, h);
    assert(black_cells(size, h) <= fp.to_set()) by {
        assert forall|c: Coords| black_cells(size, h).contains(c) implies fp.to_set().contains(
            c,
        ) by {
            lemma_black_cell_is_visited(size, h, c);
            let k = choose|k: int| 0 <= k < h.len() && replay_pos(size, h, k) == c;
            assert(fp[k] == c);
        }
    }
    vstd::seq_lib::seq_to_set_is_finite(fp);
    fp.lemma_cardinality_of_set();
    vstd::set_lib::lemma_len_subset(black_cells(size, h), fp.to_set());
}

/// Parity consistency of the counter: the black cells are exactly the
/// cells ever visited whose replay-derived color is black, so the running
/// count equals the tally obtained by independently deriving the color of
/// every visited cell.
pub proof fn lemma_black_cells_are_visited_black(size: usize, h: Seq<bool>)
    ensures
        black_cells(size, h) == footprint(size, h).to_set().filter(
            |c: Coords| cell_black(size, h, c),
        ),
{
    let tallied = footprint(size, h).to_set().filter(|c: Coords| cell_black(size, h, c));
    assert forall|c: Coords| black_cells(size, h).contains(c) implies tallied.contains(c) by {
        lemma_black_cell_is_visited(size, h, c);
        let k = choose|k: int| 0 <= k < h.len() && replay_pos(size, h, k) == c;
        assert(footprint(size, h)[k] == c);
    }
    assert(black_cells(size, h) =~= tallied);
}

/// Parity consistency of one step: appending the record observed at the
/// walker's position adds that cell to the black set when it was white and
/// removes it when it was black, so the count moves by exactly one.
pub proof fn lemma_black_cells_step(size: usize, h: Seq<bool>)
    ensures
        ({
            let p = replay_pos(size, h, h.len() as int);
            let b = is_white_spec(size, h, p);
            &&& b == !black_cells(size, h).contains(p)
            &&& b ==> black_cells(size, h.push(b)) == black_cells(size, h).insert(p)
                && black_count(size, h.push(b)) == black_count(size, h) + 1
            &&& !b ==> black_cells(size, h.push(b)) == black_cells(size, h).remove(p)
                && black_count(size, h.push(b)) == black_count(size, h) - 1
        }),
{
    let p = replay_pos(size, h, h.len() as int);
    let b = is_white_spec(size, h, p);
    lemma_black_cells_bound(size, h);
    assert forall|c: Coords| #[trigger] cell_black(size, h.push(b), c)
        == (cell_black(size, h, c) != (p == c)) by {
        lemma_cell_black_push(size, h, b, c);
    }
    if b {
        assert(black_cells(size, h.push(b)) =~= black_cells(size, h).insert(p));
    } else {
        assert(black_cells(size, h.push(b)) =~= black_cells(size, h).remove(p));
    }
}

/// The record at index `k` of `history` is exactly what the automaton
/// observes at that step: the replay-derived color of the position the
/// walker holds after the `k` records before it.
pub open spec fn record_ok(size: usize, history: Seq<bool>, k: int) -> bool {
    history[k] == is_white_spec(size, history.take(k), replay_pos(size, history, k))
}

/// Every record of `history` is the observation the automaton makes at
/// that step.
pub open spec fn valid_history(size: usize, history: Seq<bool>) -> bool {
    forall|k: int| 0 <= k < history.len() ==> #[trigger] record_ok(size, history, k)
}

/// Every step of `history` starts on the grid: all positions the walker
/// holds while a replay consumes a record lie inside it.
pub open spec fn footprint_on_grid(size: usize, history: Seq<bool>) -> bool {
    forall|k: int|
        0 <= k < history.len() ==> in_grid(size, #[trigger] replay_pos(size, history, k))
}

/// `history` is the complete record of a run on a `size` x `size` grid:
/// every step starts on the grid, every record is the observation made at
/// that step, and the final move is the first to leave the grid.
pub open spec fn complete_run(size: usize, history: Seq<bool>) -> bool {
    &&& valid_history(size, history)
    &&& history.len() > 0
    &&& footprint_on_grid(size, history)
    &&& !in_grid(size, replay_pos(size, history, history.len() as int))
}

/// A correct record stays correct when the history is extended: it speaks
/// only of the records before it.
pub proof fn lemma_record_ok_push(size: usize, h: Seq<bool>, b: bool, k: int)
    requires
        0 <= k < h.len(),
        record_ok(size, h, k),
    ensures
        record_ok(size, h.push(b), k),
{
    assert(h.push(b).take(k) =~= h.take(k));
    lemma_replay_agree(size, h.push(b), h, k);
}

/// Parity consistency of the observation: at the walker's own position the
/// replay-based color query answers "white" exactly when the cell is not
/// among the currently black cells.
pub proof fn lemma_observation_matches_color(size: usize, history: Seq<bool>, pixel: Coords)
    requires
        pixel == replay_pos(size, history, history.len() as int),
    ensures
        is_white_spec(size, history, pixel) == !black_cells(size, history).contains(pixel),
{
}

/// Two valid histories agree record by record as far as both reach: each
/// record is determined by the ones before it.
proof fn lemma_valid_prefixes_agree(size: usize, h1: Seq<bool>, h2: Seq<bool>, k: int)
    requires
        valid_history(size, h1),
        valid_history(size, h2),
        0 <= k <= h1.len(),
        k <= h2.len(),
    ensures
        forall|j: int| 0 <= j < k ==> h1[j] == h2[j],
    decreases k,
{
    if k > 0 {
        lemma_valid_prefixes_agree(size, h1, h2, k - 1);
        assert(record_ok(size, h1, k - 1));
        assert(record_ok(size, h2, k - 1));
        assert(h1.take(k - 1) =~= h2.take(k - 1));
        lemma_replay_agree(size, h1, h2, k - 1);
        assert forall|j: int| 0 <= j < k implies h1[j] == h2[j] by {
            if j == k - 1 {
                assert(h1[j] == h2[j]);
            }
        }
    }
}

/// Of two complete runs on the same grid, neither can be the shorter: the
/// first off-grid move ends both at the same step.
proof fn lemma_complete_run_unique_ordered(size: usize, h1: Seq<bool>, h2: Seq<bool>)
    requires
        complete_run(size, h1),
        complete_run(size, h2),
        h1.len() <= h2.len(),
    ensures
        h1 == h2,
{
    let l1 = h1.len() as int;
    lemma_valid_prefixes_agree(size, h1, h2, l1);
    lemma_replay_agree(size, h1, h2, l1);
    if l1 < h2.len() {
        assert(in_grid(size, replay_pos(size, h2, l1)));
        assert(!in_grid(size, replay_pos(size, h1, l1)));
        assert(false);
    }
    assert(h1 =~= h2);
}

/// The simulation is fully deterministic: a complete run on a given grid
/// size is unique, so re-running with identical constants reproduces the
/// history — and with it the counter, the footprint, and the image — bit
/// for bit.
pub proof fn lemma_complete_run_unique(size: usize, h1: Seq<bool>, h2: Seq<bool>)
    requires
        complete_run(size, h1),
        complete_run(size, h2),
    ensures
        h1 == h2,
{
    if h1.len() <= h2.len() {
        lemma_complete_run_unique_ordered(size, h1, h2);
    } else {
        lemma_complete_run_unique_ordered(size, h2, h1);
    }
}

/// The simulation agent: its recorded history, current coordinate and
/// facing, the running black-cell counter, and the grid's side length.
pub struct Ant {
    /// Ordered per-step records: `path[i]` is the observed pre-flip color of
    /// the cell the agent stood on at step `i` (true = white).
    pub path: Vec<bool>,
    /// Current coordinate.
    pub position: Coords,
    /// Current facing.
    pub direction: Direction,
    /// Running count of currently-black cells.
    pub black_pixel_num: usize,
    /// Side length of the grid.
    pub size: usize,
}

impl Ant {
    /// The agent's state is exactly what replaying its history produces:
    /// position and facing are the replay's, and the counter equals the
    /// number of cells the replay leaves black.
    pub open spec fn wf(self) -> bool {
        &&& self.position == replay_pos(self.size, self.path@, self.path@.len() as int)
        &&& self.direction == replay_dir(self.path@, self.path@.len() as int)
        &&& self.black_pixel_num == black_count(self.size, self.path@)
    }

    /// A fresh agent at the center of a `size` x `size` grid, facing up,
    /// with an empty history and no black cells.
    pub fn with_size(size: usize) -> (r: Ant)
        requires
            0 < size,
        ensures
            r.wf(),
            r.size == size,
            r.path@ == Seq::<bool>::empty(),
            r.position == start_pos(size),
            r.direction == Direction::Up,
            r.black_pixel_num == 0,
            in_grid(size, r.position),
    {
        proof {
            assert(black_cells(size, Seq::<bool>::empty()) =~= Set::<Coords>::empty());
        }
        Ant {
            path: Vec::new(),
            position: (size / 2, size / 2),
            direction: Direction::Up,
            black_pixel_num: 0,
            size,
        }
    }

    /// A fresh agent on the default grid.
    pub fn new() -> (r: Ant)
        ensures
            r.wf(),
            r.size == SIZE,
            r.path@ == Seq::<bool>::empty(),
            r.position == start_pos(SIZE),
            r.direction == Direction::Up,
            r.black_pixel_num == 0,
            in_grid(SIZE, r.position),
    {
        Self::with_size(SIZE)
    }

    /// The replay-derived color of `pixel`, computed by walking the whole
    /// history once; no per-cell grid is consulted.
    pub fn is_white(&self, pixel: &Coords) -> (r: bool)
        ensures
            r == is_white_spec(self.size, self.path@, *pixel),
    {
        let mut fake_position: Coords = (self.size / 2, self.size / 2);
        let mut fake_direction = Direction::Up;
        let mut result: bool = pixel.0 == fake_position.0 && pixel.1 == fake_position.1;
        let mut i: usize = 0;
        while i < self.path.len()
            invariant
                0 <= i <= self.path@.len(),
                fake_position == replay_pos(self.size, self.path@, i as int),
                fake_direction == replay_dir(self.path@, i as int),
                result == is_white_spec(self.size, self.path@.take(i as int), *pixel),
            decreases self.path@.len() - i,
        {
            let ghost h = self.path@;
            let color = self.path[i];
            fake_direction.turn(color);
            Self::one_step(self.size, &mut fake_position, &fake_direction);
            proof {
                lemma_replay_agree(self.size, h.take(i as int), h, i as int);
                lemma_cell_black_push(self.size, h.take(i as int), color, *pixel);
                assert(h.take(i as int).push(color) =~= h.take(i + 1));
                lemma_replay_agree(self.size, h.take(i + 1), h, i + 1);
            }
            if pixel.0 == fake_position.0 && pixel.1 == fake_position.1 {
                result = !result;
            }
            i = i + 1;
        }
        proof {
            assert(self.path@.take(self.path@.len() as int) =~= self.path@);
        }
        result
    }

    /// One full automaton step: observe the color under the agent, record
    /// the observation, update the counter, turn (clockwise on white,
    /// counter-clockwise on black), and advance one cell; report whether
    /// the agent is still on the grid.
    pub fn step(&mut self) -> (r: bool)
        requires
            old(self).wf(),
        ensures
            final(self).wf(),
            final(self).size == old(self).size,
            final(self).path@ == old(self).path@.push(
                is_white_spec(old(self).size, old(self).path@, old(self).position),
            ),
            r == in_grid(final(self).size, final(self).position),
    {
        let ghost h = self.path@;
        let observed = self.is_white(&self.position);
        proof {
            lemma_black_cells_bound(self.size, h);
            lemma_black_cells_step(self.size, h);
        }
        self.path.push(observed);
        proof {
            vstd::std_specs::vec::axiom_spec_len(&self.path);
            assert(black_count(self.size, h) + 1 <= self.path@.len() <= usize::MAX);
        }
        if observed {
            self.black_pixel_num = self.black_pixel_num + 1;
        } else {
            self.black_pixel_num = self.black_pixel_num - 1;
        }
        self.direction.turn(observed);
        proof {
            lemma_replay_agree(self.size, h, self.path@, h.len() as int);
        }
        Self::one_step(self.size, &mut self.position, &self.direction)
    }

    /// Execute the automaton until the agent's move leaves the grid.  Each
    /// iteration appends one correct record taken from an on-grid position;
    /// the run ends with the first move that steps off.  Started on a fresh
    /// agent, the finished history is a complete run.
    pub fn run(&mut self)
        requires
            old(self).wf(),
            in_grid(old(self).size, old(self).position),
        ensures
            final(self).wf(),
            final(self).size == old(self).size,
            final(self).path@.len() > old(self).path@.len(),
            final(self).path@.take(old(self).path@.len() as int) == old(self).path@,
            forall|k: int|
                old(self).path@.len() <= k < final(self).path@.len()
                    ==> #[trigger] record_ok(final(self).size, final(self).path@, k),
            forall|k: int|
                old(self).path@.len() <= k < final(self).path@.len()
                    ==> in_grid(
                        final(self).size,
                        #[trigger] replay_pos(final(self).size, final(self).path@, k),
                    ),
            !in_grid(final(self).size, final(self).position),
            old(self).path@.len() == 0 ==> complete_run(final(self).size, final(self).path@),
    {
        let ghost first = *old(self);
        proof {
            vstd::std_specs::vec::axiom_spec_len(&self.path);
        }
        loop
            invariant_except_break
                in_grid(self.size, self.position),
            invariant
                self.wf(),
                self.size == first.size,
                self.path@.len() >= first.path@.len(),
                self.path@.len() <= usize::MAX,
                self.path@.take(first.path@.len() as int) == first.path@,
                forall|k: int|
                    first.path@.len() <= k < self.path@.len()
                        ==> #[trigger] record_ok(self.size, self.path@, k),
                forall|k: int|
                    first.path@.len() <= k < self.path@.len()
                        ==> in_grid(self.size, #[trigger] replay_pos(self.size, self.path@, k)),
            ensures
                self.wf(),
                self.size == first.size,
                self.path@.len() > first.path@.len(),
                self.path@.take(first.path@.len() as int) == first.path@,
                forall|k: int|
                    first.path@.len() <= k < self.path@.len()
                        ==> #[trigger] record_ok(self.size, self.path@, k),
                forall|k: int|
                    first.path@.len() <= k < self.path@.len()
                        ==> in_grid(self.size, #[trigger] replay_pos(self.size, self.path@, k)),
                !in_grid(self.size, self.position),
            decreases usize::MAX - self.path@.len(),
        {
            let ghost pre = *self;
            let on_grid = self.step();
            proof {
                vstd::std_specs::vec::axiom_spec_len(&self.path);
                let h = pre.path@;
                assert forall|k: int|
                    first.path@.len() <= k < self.path@.len() implies #[trigger] record_ok(
                    self.size,
                    self.path@,
                    k,
                ) by {
                    let w = is_white_spec(pre.size, h, pre.position);
                    assert(self.path@ == h.push(w));
                    assert(forall|j: int| 0 <= j < h.len() ==> h[j] == #[trigger] self.path@[j]);
                    if k < h.len() {
                        assert(record_ok(self.size, h, k));
                        lemma_record_ok_push(self.size, h, w, k);
                    } else {
                        assert(k == h.len());
                        assert(self.path@.take(k) =~= h);
                        lemma_replay_agree(self.size, h, self.path@, k);
                        assert(replay_pos(self.size, self.path@, k) == pre.position);
                        assert(self.path@[k] == w);
                        assert(record_ok(self.size, self.path@, k));
                    }
                }
                assert forall|k: int|
                    first.path@.len() <= k < self.path@.len() implies in_grid(
                    self.size,
                    #[trigger] replay_pos(self.size, self.path@, k),
                ) by {
                    let w = is_white_spec(pre.size, h, pre.position);
                    assert(self.path@ == h.push(w));
                    assert(forall|j: int| 0 <= j < h.len() ==> h[j] == #[trigger] self.path@[j]);
                    lemma_replay_agree(self.size, h, self.path@, k);
                    if k < h.len() {
                        assert(in_grid(self.size, replay_pos(self.size, h, k)));
                    } else {
                        assert(k == h.len());
                        assert(replay_pos(self.size, self.path@, k) == pre.position);
                    }
                }
                assert(self.path@.take(first.path@.len() as int) =~= first.path@);
            }
            if !on_grid {
                break;
            }
        }
        proof {
            if first.path@.len() == 0 {
                assert(complete_run(self.size, self.path@));
            }
        }
    }

    /// Advance `coords` one cell in direction `dir`, with wraparound at the
    /// ends of the coordinate range, and report whether the new coordinate
    /// is still on the `size` x `size` grid.
    pub fn one_step(size: usize, coords: &mut Coords, dir: &Direction) -> (r: bool)
        ensures
            *final(coords) == step_pos(*old(coords), *dir),
            r == in_grid(size, *final(coords)),
    {
        match dir {
            Direction::Up => coords.0 = coords.0.wrapping_sub(1),
            Direction::Left => coords.1 = coords.1.wrapping_sub(1),
            Direction::Down => coords.0 = coords.0.wrapping_add(1),
            Direction::Right => coords.1 = coords.1.wrapping_add(1),
        }
        coords.0 < size && coords.1 < size
    }
}

} // verus!
