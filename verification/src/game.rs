use rand::Rng;
use vstd::prelude::*;

verus! {

/// Grid width in cells.
pub const GRID_W: usize = 20;
/// Grid height in cells.
pub const GRID_H: usize = 20;
/// Length of one simulation tick, in microseconds (15 ticks per second).
pub const TICK_PERIOD_MICROS: u64 = 66_666;

/// Occupancy classification of a grid cell.
#[derive(Copy, Clone, Debug, PartialEq, Eq, Structural)]
pub enum Cell {
    Head,
    Tail,
    Apple,
}

/// An in-grid coordinate pair.
#[derive(Copy, Clone, Debug, PartialEq, Eq, Structural)]
pub struct Pos {
    pub x: usize,
    pub y: usize,
}

/// A heading: a unit direction vector, or the zero vector for "not yet moving".
#[derive(Copy, Clone, Debug, PartialEq, Eq, Structural)]
pub struct Dir {
    pub dx: i8,
    pub dy: i8,
}

/// A recognized directional key press.
#[derive(Copy, Clone, Debug, PartialEq, Eq, Structural)]
pub enum Key {
    Up,
    Down,
    Left,
    Right,
}

/// Flat board index of a position: the board is stored column-major,
/// cell (x, y) at index x * GRID_H + y.
pub open spec fn idx(p: Pos) -> int {
    p.x * GRID_H + p.y
}

pub open spec fn in_bounds(p: Pos) -> bool {
    p.x < GRID_W && p.y < GRID_H
}

pub open spec fn in_tail(tail: Seq<Pos>, p: Pos) -> bool {
    exists|j: int| 0 <= j < tail.len() && tail[j] == p
}

/// Some tail segment occupies flat board index i.
pub open spec fn tail_covers(tail: Seq<Pos>, i: int) -> bool {
    exists|j: int| 0 <= j < tail.len() && idx(tail[j]) == i
}

pub open spec fn tail_distinct(tail: Seq<Pos>) -> bool {
    forall|i: int, j: int| 0 <= i < j < tail.len() ==> tail[i] != tail[j]
}

pub open spec fn dir_ok(d: Dir) -> bool {
    (d.dx == 0 && d.dy == 0) || (d.dx == 0 && d.dy == 1) || (d.dx == 0 && d.dy == -1)
        || (d.dx == 1 && d.dy == 0) || (d.dx == -1 && d.dy == 0)
}

/// What the board must hold at flat index i, given the head position, the
/// apple position (if any is placed yet) and the tail segments.
pub open spec fn cell_spec(head: Pos, apple: Option<Pos>, tail: Seq<Pos>, i: int) -> Option<Cell> {
    if i == idx(head) {
        Some(Cell::Head)
    } else if apple is Some && i == idx(apple->0) {
        Some(Cell::Apple)
    } else if tail_covers(tail, i) {
        Some(Cell::Tail)
    } else {
        None
    }
}

/// The snake's cells and the apple form a valid layout: everything in bounds,
/// the apple and the head off the tail, and the tail free of duplicates.
pub open spec fn valid_layout(head: Pos, apple: Pos, tail: Seq<Pos>) -> bool {
    &&& in_bounds(head)
    &&& in_bounds(apple)
    &&& apple != head
    &&& forall|j: int|
        0 <= j < tail.len() ==> in_bounds(#[trigger] tail[j]) && tail[j] != head && tail[j]
            != apple
    &&& tail_distinct(tail)
}

/// Well-formedness of a game state: a valid layout, unit (or zero) headings,
/// and a board that mirrors the layout cell for cell.
pub open spec fn wf(s: GameState) -> bool {
    &&& valid_layout(s.snake_pos, s.apple_pos, s.tail@)
    &&& dir_ok(s.dir)
    &&& dir_ok(s.input_dir)
    &&& s.board@.len() == GRID_W * GRID_H
    &&& forall|i: int|
        0 <= i < s.board@.len() ==> s.board@[i] == cell_spec(
            s.snake_pos,
            Some(s.apple_pos),
            s.tail@,
            i,
        )
}

/// The simulation state: the grid, the snake, the apple, the committed and
/// buffered headings, and the tick accumulator in microseconds.
pub struct GameState {
    pub board: Vec<Option<Cell>>,
    pub snake_pos: Pos,
    pub apple_pos: Pos,
    pub tail: Vec<Pos>,
    pub dir: Dir,
    pub input_dir: Dir,
    pub tick: u64,
}

/// Two positions with the same flat index are the same position.
pub proof fn lemma_idx_injective(p: Pos, q: Pos)
    requires
        in_bounds(p),
        in_bounds(q),
    ensures
        idx(p) == idx(q) <==> p == q,
{
    if idx(p) == idx(q) {
        assert(p.x == q.x && p.y == q.y) by (nonlinear_arith)
            requires
                p.x < GRID_W,
                q.x < GRID_W,
                p.y < GRID_H,
                q.y < GRID_H,
                p.x * GRID_H + p.y == q.x * GRID_H + q.y,
        ;
    }
}

/// Flat index of an in-bounds position.
pub fn pos_index(p: Pos) -> (i: usize)
    requires
        in_bounds(p),
    ensures
        i == idx(p),
        i < GRID_W * GRID_H,
{
    p.x * GRID_H + p.y
}

/// Relies on rand::Rng::gen_range on rand::thread_rng: the sample lies in
/// [0, bound); the call panics on an empty range, so the bound must be positive.
#[verifier::external_body]
fn random_below(bound: usize) -> (r: usize)
    requires
        bound > 0,
    ensures
        r < bound,
{
    rand::thread_rng().gen_range(0..bound)
}

/// Build a fresh board that mirrors the given layout. The apple is optional so
/// that a board can be laid out first and the apple placed afterwards.
fn board_for(head: Pos, apple: Option<Pos>, tail: &Vec<Pos>) -> (b: Vec<Option<Cell>>)
    requires
        in_bounds(head),
        match apple {
            Some(a) => in_bounds(a) && a != head && !in_tail(tail@, a),
            None => true,
        },
        forall|j: int| 0 <= j < tail@.len() ==> in_bounds(#[trigger] tail@[j]) && tail@[j] != head,
        tail_distinct(tail@),
    ensures
        b@.len() == GRID_W * GRID_H,
        forall|i: int| 0 <= i < b@.len() ==> b@[i] == cell_spec(head, apple, tail@, i),
{
    let mut b: Vec<Option<Cell>> = vec![None;GRID_W * GRID_H];
    let hi = pos_index(head);
    b[hi] = Some(Cell::Head);
    match apple {
        Some(a) => {
            let ai = pos_index(a);
            proof {
                lemma_idx_injective(a, head);
            }
            b[ai] = Some(Cell::Apple);
        },
        None => {},
    }
    assert forall|i: int| 0 <= i < b@.len() implies b@[i] == cell_spec(
        head,
        apple,
        tail@.take(0),
        i,
    ) by {}
    let mut k: usize = 0;
    while k < tail.len()
        invariant
            b@.len() == GRID_W * GRID_H,
            k <= tail@.len(),
            in_bounds(head),
            match apple {
                Some(a) => in_bounds(a) && a != head && !in_tail(tail@, a),
                None => true,
            },
            forall|j: int|
                0 <= j < tail@.len() ==> in_bounds(#[trigger] tail@[j]) && tail@[j] != head,
            tail_distinct(tail@),
            forall|i: int|
                0 <= i < b@.len() ==> b@[i] == cell_spec(head, apple, tail@.take(k as int), i),
        decreases tail@.len() - k,
    {
        let p = tail[k];
        let pi = pos_index(p);
        proof {
            lemma_idx_injective(p, head);
            if apple is Some {
                if p == apple->0 {
                    assert(in_tail(tail@, apple->0));
                }
                lemma_idx_injective(p, apple->0);
            }
        }
        b[pi] = Some(Cell::Tail);
        k = k + 1;
        assert forall|i: int| 0 <= i < b@.len() implies b@[i] == cell_spec(
            head,
            apple,
            tail@.take(k as int),
            i,
        ) by {
            let t1 = tail@.take(k as int);
            let t0 = tail@.take(k as int - 1);
            if i == idx(p) {
                assert(t1[k as int - 1] == p);
                assert(tail_covers(t1, i));
            } else {
                if tail_covers(t1, i) {
                    let j = choose|j: int| 0 <= j < t1.len() && idx(t1[j]) == i;
                    assert(j < k as int - 1);
                    assert(t0[j] == tail@[j]);
                    assert(tail_covers(t0, i));
                }
                if tail_covers(t0, i) {
                    let j = choose|j: int| 0 <= j < t0.len() && idx(t0[j]) == i;
                    assert(t1[j] == tail@[j]);
                    assert(tail_covers(t1, i));
                }
            }
        }
    }
    proof {
        assert(tail@.take(tail@.len() as int) =~= tail@);
    }
    b
}

pub open spec fn zero_dir(d: Dir) -> bool {
    d.dx == 0 && d.dy == 0
}

pub open spec fn is_opposite(d: Dir, e: Dir) -> bool {
    d.dx == -e.dx && d.dy == -e.dy && !zero_dir(d)
}

/// The heading a directional key asks for. The grid's y axis points up, so
/// the down key asks for (0, -1).
pub open spec fn key_dir(k: Key) -> Dir {
    match k {
        Key::Up => Dir { dx: 0, dy: 1 },
        Key::Down => Dir { dx: 0, dy: -1i8 },
        Key::Left => Dir { dx: -1i8, dy: 0 },
        Key::Right => Dir { dx: 1, dy: 0 },
    }
}

/// x of the cell the head would step onto.
pub open spec fn cand_x(s: GameState) -> int {
    s.snake_pos.x + s.input_dir.dx
}

/// y of the cell the head would step onto.
pub open spec fn cand_y(s: GameState) -> int {
    s.snake_pos.y + s.input_dir.dy
}

/// The candidate cell lies off the grid.
pub open spec fn cand_oob(s: GameState) -> bool {
    cand_x(s) < 0 || cand_x(s) >= GRID_W || cand_y(s) < 0 || cand_y(s) >= GRID_H
}

/// The candidate cell as a position (meaningful only when it is in bounds).
pub open spec fn cand_pos(s: GameState) -> Pos {
    Pos { x: cand_x(s) as usize, y: cand_y(s) as usize }
}

/// The grid, the snake, the apple and both headings are unchanged; only the
/// tick accumulator may differ.
pub open spec fn unchanged_core(o: GameState, n: GameState) -> bool {
    &&& n.board@ == o.board@
    &&& n.snake_pos == o.snake_pos
    &&& n.apple_pos == o.apple_pos
    &&& n.tail@ == o.tail@
    &&& n.dir == o.dir
    &&& n.input_dir == o.input_dir
}

/// A full reset took place: the tail is cleared, the committed heading is
/// zeroed, and the buffered heading survives. The fresh head and apple are
/// random; well-formedness pins them in bounds and distinct.
pub open spec fn resets(o: GameState, n: GameState) -> bool {
    &&& n.tail@.len() == 0
    &&& zero_dir(n.dir)
    &&& n.input_dir == o.input_dir
}

/// The head stepped onto the apple: the vacated head cell becomes the newest
/// tail segment, nothing is dropped, and a fresh apple lands on a cell
/// disjoint from every snake cell.
pub open spec fn grows(o: GameState, n: GameState) -> bool {
    &&& n.snake_pos == cand_pos(o)
    &&& n.tail@ == seq![o.snake_pos] + o.tail@
    &&& n.dir == o.input_dir
    &&& n.input_dir == o.input_dir
    &&& in_bounds(n.apple_pos)
    &&& n.apple_pos != n.snake_pos
    &&& !in_tail(n.tail@, n.apple_pos)
}

/// A plain move: the vacated head cell becomes the newest tail segment, the
/// last segment is dropped, and the apple stays put.
pub open spec fn slides(o: GameState, n: GameState) -> bool {
    &&& n.snake_pos == cand_pos(o)
    &&& n.apple_pos == o.apple_pos
    &&& n.tail@ == (seq![o.snake_pos] + o.tail@).drop_last()
    &&& n.dir == o.input_dir
    &&& n.input_dir == o.input_dir
}

/// The per-tick transition relation: skip while the buffered heading is zero;
/// reset on a wall exit or a self-collision, reporting the run's score; grow
/// on the apple's cell (unless the snake would fill the whole grid, where the
/// run ends in a reset); otherwise slide.
pub open spec fn steps(o: GameState, n: GameState, score: Option<usize>) -> bool {
    if zero_dir(o.input_dir) {
        unchanged_core(o, n) && score is None
    } else if cand_oob(o) {
        resets(o, n) && score == Some(o.tail@.len() as usize)
    } else if cand_pos(o) == o.apple_pos {
        if o.tail@.len() + 2 < GRID_W * GRID_H {
            grows(o, n) && score is None
        } else {
            resets(o, n) && score == Some(o.tail@.len() as usize)
        }
    } else if in_tail(o.tail@, cand_pos(o)) {
        resets(o, n) && score == Some(o.tail@.len() as usize)
    } else {
        slides(o, n) && score is None
    }
}

/// The tick accumulator after elapsed time is added, saturating at the top of
/// the counter so that an absurdly long stall cannot wrap it around.
pub open spec fn accum(t: u64, e: u64) -> u64 {
    if t + e > u64::MAX {
        u64::MAX
    } else {
        (t + e) as u64
    }
}

/// Number of occupied cells among the first n board cells.
pub open spec fn occupied(b: Seq<Option<Cell>>, n: int) -> int
    decreases n,
{
    if n <= 0 {
        0
    } else {
        occupied(b, n - 1) + if b[n - 1] is Some {
            1int
        } else {
            0int
        }
    }
}

/// At most n of the first n cells are occupied.
pub proof fn lemma_occupied_le(b: Seq<Option<Cell>>, n: int)
    requires
        0 <= n,
    ensures
        0 <= occupied(b, n) <= n,
    decreases n,
{
    if n > 0 {
        lemma_occupied_le(b, n - 1);
    }
}

/// Number of cells holding kind c among the first n board cells.
pub open spec fn count_kind(b: Seq<Option<Cell>>, c: Cell, n: int) -> int
    decreases n,
{
    if n <= 0 {
        0
    } else {
        count_kind(b, c, n - 1) + if b[n - 1] == Some(c) {
            1int
        } else {
            0int
        }
    }
}

/// Occupied cells split exactly into the three kinds.
pub proof fn lemma_count_split(b: Seq<Option<Cell>>, n: int)
    requires
        0 <= n <= b.len(),
    ensures
        occupied(b, n) == count_kind(b, Cell::Head, n) + count_kind(b, Cell::Tail, n) + count_kind(
            b,
            Cell::Apple,
            n,
        ),
    decreases n,
{
    if n > 0 {
        lemma_count_split(b, n - 1);
        match b[n - 1] {
            Some(c) => {
                assert(c == Cell::Head || c == Cell::Tail || c == Cell::Apple);
            },
            None => {},
        }
    }
}

/// A kind held at exactly one index is counted exactly once.
proof fn lemma_count_single(b: Seq<Option<Cell>>, c: Cell, target: int, n: int)
    requires
        0 <= n <= b.len(),
        forall|i: int| 0 <= i < b.len() ==> (b[i] == Some(c) <==> i == target),
    ensures
        count_kind(b, c, n) == if 0 <= target < n {
            1int
        } else {
            0int
        },
    decreases n,
{
    if n > 0 {
        lemma_count_single(b, c, target, n - 1);
    }
}

/// A kind held nowhere is counted zero times.
proof fn lemma_count_none(b: Seq<Option<Cell>>, c: Cell, n: int)
    requires
        0 <= n <= b.len(),
        forall|i: int| 0 <= i < b.len() ==> b[i] != Some(c),
    ensures
        count_kind(b, c, n) == 0,
    decreases n,
{
    if n > 0 {
        lemma_count_none(b, c, n - 1);
    }
}

/// How updating one cell changes a kind's count.
proof fn lemma_count_update(b: Seq<Option<Cell>>, c: Cell, i: int, v: Option<Cell>, n: int)
    requires
        0 <= i < b.len(),
        0 <= n <= b.len(),
    ensures
        count_kind(b.update(i, v), c, n) == count_kind(b, c, n) + if i < n {
            (if v == Some(c) {
                1int
            } else {
                0int
            }) - (if b[i] == Some(c) {
                1int
            } else {
                0int
            })
        } else {
            0int
        },
    decreases n,
{
    if n > 0 {
        lemma_count_update(b, c, i, v, n - 1);
    }
}

/// A board whose Tail cells are exactly the cells some tail segment covers
/// holds exactly one Tail cell per segment.
proof fn lemma_count_tail_cells(b: Seq<Option<Cell>>, t: Seq<Pos>)
    requires
        b.len() == GRID_W * GRID_H,
        forall|j: int| 0 <= j < t.len() ==> in_bounds(#[trigger] t[j]),
        tail_distinct(t),
        forall|i: int| 0 <= i < b.len() ==> (b[i] == Some(Cell::Tail) <==> tail_covers(t, i)),
    ensures
        count_kind(b, Cell::Tail, b.len() as int) == t.len(),
    decreases t.len(),
{
    if t.len() == 0 {
        assert forall|i: int| 0 <= i < b.len() implies b[i] != Some(Cell::Tail) by {
            if b[i] == Some(Cell::Tail) {
                let j = choose|j: int| 0 <= j < t.len() && idx(t[j]) == i;
            }
        }
        lemma_count_none(b, Cell::Tail, b.len() as int);
    } else {
        let p = t.last();
        let i0 = idx(p);
        assert(0 <= i0 < b.len());
        assert(tail_covers(t, i0)) by {
            assert(idx(t[t.len() - 1]) == i0);
        }
        let b2 = b.update(i0, None);
        let t2 = t.drop_last();
        assert forall|i: int| 0 <= i < b2.len() implies (b2[i] == Some(Cell::Tail) <==> tail_covers(
            t2,
            i,
        )) by {
            if i == i0 {
                if tail_covers(t2, i0) {
                    let j = choose|j: int| 0 <= j < t2.len() && idx(t2[j]) == i0;
                    assert(t2[j] == t[j]);
                    lemma_idx_injective(t[j], p);
                    assert(t[j] == t[t.len() - 1]);
                }
            } else {
                if tail_covers(t, i) {
                    let j = choose|j: int| 0 <= j < t.len() && idx(t[j]) == i;
                    assert(j != t.len() - 1);
                    assert(t2[j] == t[j]);
                    assert(tail_covers(t2, i));
                }
                if tail_covers(t2, i) {
                    let j = choose|j: int| 0 <= j < t2.len() && idx(t2[j]) == i;
                    assert(t[j] == t2[j]);
                    assert(tail_covers(t, i));
                }
            }
        }
        lemma_count_tail_cells(b2, t2);
        lemma_count_update(b, Cell::Tail, i0, None, b.len() as int);
    }
}

/// Grid invariant: in a well-formed state the board holds exactly one Head
/// cell, exactly one Apple cell, and exactly as many Tail cells as there are
/// tail segments.
pub proof fn lemma_grid_counts(s: GameState)
    requires
        wf(s),
    ensures
        count_kind(s.board@, Cell::Head, s.board@.len() as int) == 1,
        count_kind(s.board@, Cell::Apple, s.board@.len() as int) == 1,
        count_kind(s.board@, Cell::Tail, s.board@.len() as int) == s.tail@.len(),
{
    let b = s.board@;
    let t = s.tail@;
    assert forall|i: int| 0 <= i < b.len() implies (b[i] == Some(Cell::Head) <==> i == idx(
        s.snake_pos,
    )) by {}
    lemma_count_single(b, Cell::Head, idx(s.snake_pos), b.len() as int);
    assert forall|i: int| 0 <= i < b.len() implies (b[i] == Some(Cell::Apple) <==> i == idx(
        s.apple_pos,
    )) by {
        lemma_idx_injective(s.apple_pos, s.snake_pos);
    }
    lemma_count_single(b, Cell::Apple, idx(s.apple_pos), b.len() as int);
    assert forall|i: int| 0 <= i < b.len() implies (b[i] == Some(Cell::Tail) <==> tail_covers(
        t,
        i,
    )) by {
        if tail_covers(t, i) {
            let j = choose|j: int| 0 <= j < t.len() && idx(t[j]) == i;
            lemma_idx_injective(t[j], s.snake_pos);
            lemma_idx_injective(t[j], s.apple_pos);
        }
    }
    lemma_count_tail_cells(b, t);
}

/// Growth law: when the head steps onto the apple's cell and the snake is
/// not about to fill the grid, the tail gains exactly one segment, the
/// vacated head cell becomes the newest segment, and the fresh apple lands
/// on a cell disjoint from every snake cell. Stepping onto the apple never
/// counts as a self-collision, whether or not a tail segment also lies next
/// to it.
pub proof fn lemma_growth(o: GameState, n: GameState, score: Option<usize>)
    requires
        wf(o),
        steps(o, n, score),
        !zero_dir(o.input_dir),
        !cand_oob(o),
        cand_pos(o) == o.apple_pos,
        o.tail@.len() + 2 < GRID_W * GRID_H,
    ensures
        n.tail@.len() == o.tail@.len() + 1,
        n.tail@ == seq![o.snake_pos] + o.tail@,
        in_bounds(n.apple_pos),
        n.apple_pos != n.snake_pos,
        !in_tail(n.tail@, n.apple_pos),
        score is None,
{
}

/// Bounds law: a candidate cell off the grid triggers a full reset, and the
/// reported score is the prior tail length.
pub proof fn lemma_bounds_reset(o: GameState, n: GameState, score: Option<usize>)
    requires
        wf(o),
        steps(o, n, score),
        !zero_dir(o.input_dir),
        cand_oob(o),
    ensures
        resets(o, n),
        score == Some(o.tail@.len() as usize),
{
}

/// Self-collision law: a candidate cell that lies on a current tail segment
/// and is not the apple's cell triggers a full reset, with the prior tail
/// length reported as the score.
pub proof fn lemma_self_collision(o: GameState, n: GameState, score: Option<usize>)
    requires
        wf(o),
        steps(o, n, score),
        !zero_dir(o.input_dir),
        !cand_oob(o),
        in_tail(o.tail@, cand_pos(o)),
        cand_pos(o) != o.apple_pos,
    ensures
        resets(o, n),
        score == Some(o.tail@.len() as usize),
{
}

/// A uniformly random in-bounds position distinct from the given one: one
/// sample over the other GRID_W * GRID_H - 1 cells, mapped around the
/// excluded cell's index.
fn random_position_excluding(h: Pos) -> (p: Pos)
    requires
        in_bounds(h),
    ensures
        in_bounds(p),
        p != h,
{
    let r = random_below(GRID_W * GRID_H - 1);
    let hi = pos_index(h);
    let ai = if r >= hi {
        r + 1
    } else {
        r
    };
    let p = Pos { x: ai / GRID_H, y: ai % GRID_H };
    proof {
        assert(idx(p) == ai);
        assert(ai != idx(h));
    }
    p
}

impl GameState {
    /// Whether position p is one of the tail segments.
    fn tail_contains(&self, p: Pos) -> (r: bool)
        ensures
            r == in_tail(self.tail@, p),
    {
        let mut k: usize = 0;
        while k < self.tail.len()
            invariant
                k <= self.tail@.len(),
                forall|j: int| 0 <= j < k ==> self.tail@[j] != p,
            decreases self.tail@.len() - k,
        {
            if self.tail[k] == p {
                proof {
                    assert(self.tail@[k as int] == p);
                }
                return true;
            }
            k = k + 1;
        }
        false
    }

    /// A uniformly random in-bounds position.
    fn random_position() -> (p: Pos)
        ensures
            in_bounds(p),
    {
        Pos { x: random_below(GRID_W), y: random_below(GRID_H) }
    }

    /// A fresh game: random head and apple on distinct cells, an empty tail,
    /// zero headings, and an empty tick accumulator.
    pub fn new() -> (s: GameState)
        ensures
            wf(s),
            s.tail@.len() == 0,
            zero_dir(s.dir),
            zero_dir(s.input_dir),
            s.tick == 0,
    {
        let h = GameState::random_position();
        let a = random_position_excluding(h);
        let tail: Vec<Pos> = Vec::new();
        let board = board_for(h, Some(a), &tail);
        GameState {
            board,
            snake_pos: h,
            apple_pos: a,
            tail,
            dir: Dir { dx: 0, dy: 0 },
            input_dir: Dir { dx: 0, dy: 0 },
            tick: 0,
        }
    }

    /// A game laid out explicitly, for deterministic construction: the given
    /// head, apple and tail if they form a valid layout, and None otherwise.
    pub fn from_parts(snake_pos: Pos, apple_pos: Pos, tail: Vec<Pos>) -> (r: Option<GameState>)
        ensures
            match r {
                Some(s) => {
                    &&& valid_layout(snake_pos, apple_pos, tail@)
                    &&& wf(s)
                    &&& s.snake_pos == snake_pos
                    &&& s.apple_pos == apple_pos
                    &&& s.tail@ == tail@
                    &&& zero_dir(s.dir)
                    &&& zero_dir(s.input_dir)
                    &&& s.tick == 0
                },
                None => !valid_layout(snake_pos, apple_pos, tail@),
            },
    {
        if !(snake_pos.x < GRID_W && snake_pos.y < GRID_H) {
            return None;
        }
        if !(apple_pos.x < GRID_W && apple_pos.y < GRID_H) {
            return None;
        }
        if apple_pos == snake_pos {
            return None;
        }
        let mut j: usize = 0;
        while j < tail.len()
            invariant
                j <= tail@.len(),
                forall|t: int|
                    0 <= t < j ==> in_bounds(#[trigger] tail@[t]) && tail@[t] != snake_pos
                        && tail@[t] != apple_pos,
                forall|u: int, t: int| 0 <= u < t < j ==> tail@[u] != tail@[t],
            decreases tail@.len() - j,
        {
            let p = tail[j];
            if !(p.x < GRID_W && p.y < GRID_H) || p == snake_pos || p == apple_pos {
                return None;
            }
            let mut u: usize = 0;
            while u < j
                invariant
                    u <= j,
                    j < tail@.len(),
                    p == tail@[j as int],
                    forall|w: int| 0 <= w < u ==> tail@[w] != p,
                decreases j - u,
            {
                if tail[u] == p {
                    proof {
                        assert(tail@[u as int] == tail@[j as int]);
                    }
                    return None;
                }
                u = u + 1;
            }
            j = j + 1;
        }
        proof {
            if in_tail(tail@, apple_pos) {
                let w = choose|w: int| 0 <= w < tail@.len() && tail@[w] == apple_pos;
                assert(tail@[w] != apple_pos);
            }
        }
        let board = board_for(snake_pos, Some(apple_pos), &tail);
        Some(
            GameState {
                board,
                snake_pos,
                apple_pos,
                tail,
                dir: Dir { dx: 0, dy: 0 },
                input_dir: Dir { dx: 0, dy: 0 },
                tick: 0,
            },
        )
    }

    /// Relocate the apple onto a cell disjoint from every snake cell, chosen
    /// uniformly at random among the free cells. Called with the apple
    /// removed from the board (its old cell just became the head).
    fn random_apple(&mut self)
        requires
            in_bounds(old(self).snake_pos),
            forall|j: int|
                0 <= j < old(self).tail@.len() ==> in_bounds(#[trigger] old(self).tail@[j]) && old(
                    self,
                ).tail@[j] != old(self).snake_pos,
            tail_distinct(old(self).tail@),
            old(self).tail@.len() + 2 <= GRID_W * GRID_H,
            old(self).board@.len() == GRID_W * GRID_H,
            forall|i: int|
                0 <= i < old(self).board@.len() ==> old(self).board@[i] == cell_spec(
                    old(self).snake_pos,
                    None,
                    old(self).tail@,
                    i,
                ),
        ensures
            final(self).snake_pos == old(self).snake_pos,
            final(self).tail@ == old(self).tail@,
            final(self).dir == old(self).dir,
            final(self).input_dir == old(self).input_dir,
            final(self).tick == old(self).tick,
            in_bounds(final(self).apple_pos),
            final(self).apple_pos != final(self).snake_pos,
            !in_tail(final(self).tail@, final(self).apple_pos),
            final(self).board@.len() == GRID_W * GRID_H,
            forall|i: int|
                0 <= i < final(self).board@.len() ==> final(self).board@[i] == cell_spec(
                    final(self).snake_pos,
                    Some(final(self).apple_pos),
                    final(self).tail@,
                    i,
                ),
    {
        let mut free: Vec<Pos> = Vec::new();
        let mut i: usize = 0;
        while i < GRID_W * GRID_H
            invariant
                i <= GRID_W * GRID_H,
                *self == *old(self),
                self.board@.len() == GRID_W * GRID_H,
                free@.len() == i - occupied(self.board@, i as int),
                forall|j: int|
                    0 <= j < free@.len() ==> in_bounds(#[trigger] free@[j]) && 0 <= idx(free@[j])
                        < self.board@.len() && self.board@[idx(free@[j])] is None,
            decreases GRID_W * GRID_H - i,
        {
            proof {
                lemma_occupied_le(self.board@, i as int);
            }
            if self.board[i].is_none() {
                let x = i / GRID_H;
                let y = i % GRID_H;
                let p = Pos { x, y };
                proof {
                    assert(idx(p) == i);
                }
                free.push(p);
            }
            i = i + 1;
        }
        proof {
            let b = self.board@;
            let t = self.tail@;
            let n = b.len() as int;
            assert forall|q: int| 0 <= q < b.len() implies (b[q] == Some(Cell::Head) <==> q == idx(
                self.snake_pos,
            )) by {}
            lemma_count_single(b, Cell::Head, idx(self.snake_pos), n);
            assert forall|q: int| 0 <= q < b.len() implies b[q] != Some(Cell::Apple) by {}
            lemma_count_none(b, Cell::Apple, n);
            assert forall|q: int| 0 <= q < b.len() implies (b[q] == Some(Cell::Tail)
                <==> tail_covers(t, q)) by {
                if tail_covers(t, q) {
                    let j = choose|j: int| 0 <= j < t.len() && idx(t[j]) == q;
                    lemma_idx_injective(t[j], self.snake_pos);
                }
            }
            lemma_count_tail_cells(b, t);
            lemma_count_split(b, n);
            assert(free@.len() == GRID_W * GRID_H - 1 - t.len());
        }
        let r = random_below(free.len());
        let p = free[r];
        let ai = pos_index(p);
        proof {
            assert(self.board@[idx(p)] is None);
            assert(p != self.snake_pos);
            if in_tail(self.tail@, p) {
                let j = choose|j: int| 0 <= j < self.tail@.len() && self.tail@[j] == p;
                assert(tail_covers(self.tail@, idx(p)));
            }
        }
        self.board[ai] = Some(Cell::Apple);
        self.apple_pos = p;
        assert forall|q: int| 0 <= q < self.board@.len() implies self.board@[q] == cell_spec(
            self.snake_pos,
            Some(self.apple_pos),
            self.tail@,
            q,
        ) by {
            lemma_idx_injective(p, self.snake_pos);
        }
    }

    /// Full reset after a wall exit or a self-collision: clear the grid and
    /// the tail, zero the committed heading, and place a fresh random head
    /// and apple on distinct cells. The buffered heading and the tick
    /// accumulator survive.
    fn reset_game(&mut self)
        requires
            dir_ok(old(self).input_dir),
        ensures
            wf(*final(self)),
            resets(*old(self), *final(self)),
            final(self).tick == old(self).tick,
    {
        self.dir = Dir { dx: 0, dy: 0 };
        let h = GameState::random_position();
        let a = random_position_excluding(h);
        self.snake_pos = h;
        self.apple_pos = a;
        self.tail = Vec::new();
        self.board = board_for(h, Some(a), &self.tail);
    }

    /// One discrete simulation step, following the per-tick transition
    /// relation. Returns the terminated run's score when the step ended the
    /// run, and None otherwise.
    fn move_snake(&mut self) -> (score: Option<usize>)
        requires
            wf(*old(self)),
        ensures
            wf(*final(self)),
            final(self).tick == old(self).tick,
            steps(*old(self), *final(self), score),
    {
        let ghost o = *self;
        if self.input_dir.dx == 0 && self.input_dir.dy == 0 {
            return None;
        }
        let cx: i64 = self.snake_pos.x as i64 + self.input_dir.dx as i64;
        let cy: i64 = self.snake_pos.y as i64 + self.input_dir.dy as i64;
        if cx < 0 || cx >= GRID_W as i64 || cy < 0 || cy >= GRID_H as i64 {
            let score = self.tail.len();
            self.reset_game();
            return Some(score);
        }
        let cand = Pos { x: cx as usize, y: cy as usize };
        proof {
            assert(cand == cand_pos(o));
            assert(!cand_oob(o));
            assert(in_bounds(cand));
            if o.input_dir.dx != 0 {
                assert(cand.x != o.snake_pos.x);
            } else {
                assert(cand.y != o.snake_pos.y);
            }
            assert(cand != o.snake_pos);
        }
        if cand == self.apple_pos {
            if self.tail.len() >= GRID_W * GRID_H - 2 {
                let score = self.tail.len();
                self.reset_game();
                return Some(score);
            }
            let mut new_tail: Vec<Pos> = Vec::new();
            new_tail.push(self.snake_pos);
            let mut k: usize = 0;
            while k < self.tail.len()
                invariant
                    k <= self.tail@.len(),
                    self.tail@ == o.tail@,
                    self.snake_pos == o.snake_pos,
                    new_tail@ == seq![o.snake_pos] + o.tail@.take(k as int),
                decreases self.tail@.len() - k,
            {
                new_tail.push(self.tail[k]);
                k = k + 1;
                proof {
                    assert(new_tail@ =~= seq![o.snake_pos] + o.tail@.take(k as int));
                }
            }
            proof {
                assert(o.tail@.take(o.tail@.len() as int) =~= o.tail@);
            }
            self.tail = new_tail;
            self.snake_pos = cand;
            self.dir = self.input_dir;
            proof {
                assert(self.tail@ == seq![o.snake_pos] + o.tail@);
                assert forall|j: int| 0 <= j < self.tail@.len() implies in_bounds(
                    #[trigger] self.tail@[j],
                ) && self.tail@[j] != cand by {
                    if j == 0 {
                        assert(self.tail@[0] == o.snake_pos);
                    } else {
                        assert(self.tail@[j] == o.tail@[j - 1]);
                    }
                }
                assert(tail_distinct(self.tail@)) by {
                    assert forall|u: int, w: int| 0 <= u < w < self.tail@.len() implies self.tail@[u]
                        != self.tail@[w] by {
                        if u == 0 {
                            assert(self.tail@[u] == o.snake_pos);
                            assert(self.tail@[w] == o.tail@[w - 1]);
                        } else {
                            assert(self.tail@[u] == o.tail@[u - 1]);
                            assert(self.tail@[w] == o.tail@[w - 1]);
                        }
                    }
                }
            }
            self.board = board_for(self.snake_pos, None, &self.tail);
            self.random_apple();
            proof {
                assert(grows(o, *self));
                assert(wf(*self));
            }
            return None;
        }
        if self.tail_contains(cand) {
            let score = self.tail.len();
            self.reset_game();
            return Some(score);
        }
        let mut new_tail: Vec<Pos> = Vec::new();
        if self.tail.len() > 0 {
            new_tail.push(self.snake_pos);
            let mut k: usize = 0;
            while k < self.tail.len() - 1
                invariant
                    o.tail@.len() > 0,
                    k <= o.tail@.len() - 1,
                    self.tail@ == o.tail@,
                    self.snake_pos == o.snake_pos,
                    new_tail@ == seq![o.snake_pos] + o.tail@.take(k as int),
                decreases self.tail@.len() - 1 - k,
            {
                new_tail.push(self.tail[k]);
                k = k + 1;
                proof {
                    assert(new_tail@ =~= seq![o.snake_pos] + o.tail@.take(k as int));
                }
            }
        }
        proof {
            assert(new_tail@ =~= (seq![o.snake_pos] + o.tail@).drop_last());
        }
        self.tail = new_tail;
        self.snake_pos = cand;
        self.dir = self.input_dir;
        proof {
            let full = seq![o.snake_pos] + o.tail@;
            assert forall|j: int| 0 <= j < self.tail@.len() implies in_bounds(
                #[trigger] self.tail@[j],
            ) && self.tail@[j] != cand && self.tail@[j] != o.apple_pos by {
                if j == 0 {
                    assert(self.tail@[0] == o.snake_pos);
                } else {
                    assert(self.tail@[j] == o.tail@[j - 1]);
                    if o.tail@[j - 1] == cand {
                        assert(in_tail(o.tail@, cand));
                    }
                }
            }
            assert(tail_distinct(self.tail@)) by {
                assert forall|u: int, w: int| 0 <= u < w < self.tail@.len() implies self.tail@[u]
                    != self.tail@[w] by {
                    if u == 0 {
                        assert(self.tail@[u] == o.snake_pos);
                        assert(self.tail@[w] == o.tail@[w - 1]);
                    } else {
                        assert(self.tail@[u] == o.tail@[u - 1]);
                        assert(self.tail@[w] == o.tail@[w - 1]);
                    }
                }
            }
            if in_tail(self.tail@, o.apple_pos) {
                let j = choose|j: int| 0 <= j < self.tail@.len() && self.tail@[j] == o.apple_pos;
            }
        }
        self.board = board_for(self.snake_pos, Some(self.apple_pos), &self.tail);
        proof {
            assert(slides(o, *self));
            assert(wf(*self));
        }
        None
    }

    /// Advance the accumulated time and perform one discrete tick when a full
    /// tick period has accumulated, carrying surplus time forward. Returns
    /// the terminated run's score when the tick ended the run.
    pub fn update(&mut self, elapsed_micros: u64) -> (score: Option<usize>)
        requires
            wf(*old(self)),
        ensures
            wf(*final(self)),
            ({
                let acc = accum(old(self).tick, elapsed_micros);
                if acc > TICK_PERIOD_MICROS {
                    &&& final(self).tick == acc - TICK_PERIOD_MICROS
                    &&& steps(*old(self), *final(self), score)
                } else {
                    &&& final(self).tick == acc
                    &&& unchanged_core(*old(self), *final(self))
                    &&& score is None
                }
            }),
    {
        if elapsed_micros > u64::MAX - self.tick {
            self.tick = u64::MAX;
        } else {
            self.tick = self.tick + elapsed_micros;
        }
        if self.tick > TICK_PERIOD_MICROS {
            let score = self.move_snake();
            self.tick = self.tick - TICK_PERIOD_MICROS;
            return score;
        }
        None
    }

    /// Consume one directional key press: buffer the requested heading unless
    /// it is the exact opposite of the committed heading (the reversal
    /// guard), in which case it is silently ignored. Returns whether the
    /// event was consumed.
    pub fn input(&mut self, key: Key) -> (handled: bool)
        requires
            wf(*old(self)),
        ensures
            wf(*final(self)),
            handled,
            final(self).board@ == old(self).board@,
            final(self).snake_pos == old(self).snake_pos,
            final(self).apple_pos == old(self).apple_pos,
            final(self).tail@ == old(self).tail@,
            final(self).dir == old(self).dir,
            final(self).tick == old(self).tick,
            final(self).input_dir == if is_opposite(old(self).dir, key_dir(key)) {
                old(self).input_dir
            } else {
                key_dir(key)
            },
    {
        match key {
            Key::Down => {
                if !(self.dir.dx == 0 && self.dir.dy == 1) {
                    self.input_dir = Dir { dx: 0, dy: -1 };
                }
            },
            Key::Up => {
                if !(self.dir.dx == 0 && self.dir.dy == -1) {
                    self.input_dir = Dir { dx: 0, dy: 1 };
                }
            },
            Key::Left => {
                if !(self.dir.dx == 1 && self.dir.dy == 0) {
                    self.input_dir = Dir { dx: -1, dy: 0 };
                }
            },
            Key::Right => {
                if !(self.dir.dx == -1 && self.dir.dy == 0) {
                    self.input_dir = Dir { dx: 1, dy: 0 };
                }
            },
        }
        true
    }
}

} // verus!
