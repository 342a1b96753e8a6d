use vstd::prelude::*;

use crate::intel::{InformationPiece, IntelQuestion, Quadrant};

verus! {

/// Longest trace the engine accepts: keeps every relative offset well inside `i32`.
pub const MAX_TRACE_LEN: usize = 1_000_000;

/// An absolute grid cell.
#[derive(Debug, Clone, Copy, PartialEq, Eq, Structural, Hash)]
pub struct Coordinate {
    pub x: u32,
    pub y: u32,
}

impl Coordinate {
    pub fn new(x: u32, y: u32) -> (r: Self)
        ensures
            r.x == x,
            r.y == y,
    {
        Self { x, y }
    }
}

/// A signed displacement from the unknown origin.
#[derive(Debug, Clone, Copy, PartialEq, Eq, Structural, Hash)]
pub struct Offset {
    pub x: i32,
    pub y: i32,
}

/// The mathematical position an offset stands for.
pub open spec fn pos_of(o: Offset) -> (int, int) {
    (o.x as int, o.y as int)
}

impl Offset {
    pub fn new(x: i32, y: i32) -> (r: Self)
        ensures
            r.x == x,
            r.y == y,
    {
        Self { x, y }
    }

    /// Component-wise sum.
    pub fn add(self, rhs: Offset) -> (r: Offset)
        requires
            i32::MIN <= self.x + rhs.x <= i32::MAX,
            i32::MIN <= self.y + rhs.y <= i32::MAX,
        ensures
            r.x == self.x + rhs.x,
            r.y == self.y + rhs.y,
    {
        Offset { x: self.x + rhs.x, y: self.y + rhs.y }
    }
}

/// The cell reached from `origin` by `offset`, if both components stay non-negative.
pub open spec fn translate_spec(origin: Coordinate, offset: (int, int)) -> Option<(int, int)> {
    let x = origin.x + offset.0;
    let y = origin.y + offset.1;
    if x < 0 || y < 0 {
        None
    } else {
        Some((x, y))
    }
}

/// Whether a translated cell exists and both of its components fit in `u32`.
pub open spec fn fits_u32(p: Option<(int, int)>) -> bool {
    match p {
        Some(q) => q.0 <= u32::MAX && q.1 <= u32::MAX,
        None => false,
    }
}

/// The mathematical position of a cell.
pub open spec fn cell_pos(c: Coordinate) -> (int, int) {
    (c.x as int, c.y as int)
}

/// Moves `origin` by `offset`; `None` where a component would be negative or
/// leave the range of `u32`.
pub fn translate(origin: Coordinate, offset: Offset) -> (r: Option<Coordinate>)
    ensures
        r is Some <==> fits_u32(translate_spec(origin, pos_of(offset))),
        r is Some ==> translate_spec(origin, pos_of(offset)) == Some(cell_pos(r->0)),
{
    let x: i64 = origin.x as i64 + offset.x as i64;
    let y: i64 = origin.y as i64 + offset.y as i64;
    if x < 0 || y < 0 || x > u32::MAX as i64 || y > u32::MAX as i64 {
        None
    } else {
        Some(Coordinate { x: x as u32, y: y as u32 })
    }
}

/// A cardinal direction of movement.
#[derive(Debug, Clone, Copy, PartialEq, Eq, Structural)]
pub enum Direction {
    North,
    East,
    South,
    West,
}

/// The unit displacement of a direction; north decreases `y`.
pub open spec fn delta_spec(d: Direction) -> (int, int) {
    match d {
        Direction::North => (0, -1),
        Direction::East => (1, 0),
        Direction::South => (0, 1),
        Direction::West => (-1, 0),
    }
}

impl Direction {
    pub fn delta(&self) -> (r: Offset)
        ensures
            pos_of(r) == delta_spec(*self),
    {
        match self {
            Direction::North => Offset::new(0, -1),
            Direction::East => Offset::new(1, 0),
            Direction::South => Offset::new(0, 1),
            Direction::West => Offset::new(-1, 0),
        }
    }
}

/// Error of `GameMap::new`.
#[derive(Debug, Clone, Copy, PartialEq, Eq, Structural)]
pub enum MapError {
    /// An obstacle lies outside the grid.
    ObstacleOutOfBounds,
}

/// A square grid with obstacles, all of them inside the grid.
#[derive(Debug)]
pub struct GameMap {
    size: u32,
    obstacles: Vec<Coordinate>,
}

/// Whether `c` lies on a grid of side `size`.
pub open spec fn in_grid(size: int, c: Coordinate) -> bool {
    c.x < size && c.y < size
}

/// The quadrant of `c` on a grid of side `size`; an odd size puts the middle
/// row and column on the high side.
pub open spec fn quadrant_spec(size: int, c: Coordinate) -> Option<Quadrant> {
    if !in_grid(size, c) {
        None
    } else {
        let low_x = c.x < size / 2;
        let low_y = c.y < size / 2;
        Some(
            if low_x && low_y {
                Quadrant::One
            } else if !low_x && low_y {
                Quadrant::Two
            } else if low_x {
                Quadrant::Three
            } else {
                Quadrant::Four
            },
        )
    }
}

impl GameMap {
    /// Side length of the grid.
    pub closed spec fn side(&self) -> int {
        self.size as int
    }

    /// The obstacle cells.
    pub closed spec fn obstacle_set(&self) -> Set<Coordinate> {
        self.obstacles@.to_set()
    }

    pub open spec fn wf(&self) -> bool {
        &&& 0 <= self.side() <= u32::MAX
        &&& forall|c: Coordinate| self.obstacle_set().contains(c) ==> in_grid(self.side(), c)
    }

    /// A cell the tracked mover may stand on.
    pub open spec fn is_free(&self, c: Coordinate) -> bool {
        in_grid(self.side(), c) && !self.obstacle_set().contains(c)
    }

    /// Builds a map; fails when an obstacle lies outside the grid.
    pub fn new(size: u32, obstacles: Vec<Coordinate>) -> (r: Result<GameMap, MapError>)
        ensures
            r is Ok <==> (forall|i: int|
                0 <= i < obstacles@.len() ==> in_grid(size as int, #[trigger] obstacles@[i])),
            r is Ok ==> r->Ok_0.side() == size && r->Ok_0.obstacle_set() == obstacles@.to_set()
                && r->Ok_0.wf(),
            r is Err ==> r->Err_0 == MapError::ObstacleOutOfBounds,
    {
        let mut i: usize = 0;
        while i < obstacles.len()
            invariant
                0 <= i <= obstacles@.len(),
                forall|j: int| 0 <= j < i ==> in_grid(size as int, #[trigger] obstacles@[j]),
            decreases obstacles@.len() - i,
        {
            let c = obstacles[i];
            if c.x >= size || c.y >= size {
                return Err(MapError::ObstacleOutOfBounds);
            }
            i = i + 1;
        }
        let r = GameMap { size, obstacles };
        assert forall|c: Coordinate| r.obstacle_set().contains(c) implies in_grid(r.side(), c) by {
            let j = choose|j: int| 0 <= j < r.obstacles@.len() && r.obstacles@[j] == c;
        }
        Ok(r)
    }

    pub fn contains(&self, coord: Coordinate) -> (r: bool)
        ensures
            r == in_grid(self.side(), coord),
    {
        coord.x < self.size && coord.y < self.size
    }

    /// The quadrant of `coord`, `None` when it lies outside the grid.
    pub fn quadrant_of(&self, coord: Coordinate) -> (r: Option<Quadrant>)
        ensures
            r == quadrant_spec(self.side(), coord),
    {
        if !self.contains(coord) {
            return None;
        }
        let half = self.size / 2;
        let low_x = coord.x < half;
        let low_y = coord.y < half;
        Some(
            if low_x && low_y {
                Quadrant::One
            } else if !low_x && low_y {
                Quadrant::Two
            } else if low_x {
                Quadrant::Three
            } else {
                Quadrant::Four
            },
        )
    }

    pub fn size(&self) -> (r: u32)
        ensures
            r == self.side(),
    {
        self.size
    }

    pub fn obstacles(&self) -> (r: &Vec<Coordinate>)
        ensures
            r@.to_set() == self.obstacle_set(),
    {
        &self.obstacles
    }

    /// Whether `coord` is one of the obstacles.
    pub fn is_obstacle(&self, coord: Coordinate) -> (r: bool)
        ensures
            r == self.obstacle_set().contains(coord),
    {
        let mut i: usize = 0;
        while i < self.obstacles.len()
            invariant
                0 <= i <= self.obstacles@.len(),
                forall|j: int| 0 <= j < i ==> #[trigger] self.obstacles@[j] != coord,
            decreases self.obstacles@.len() - i,
        {
            if self.obstacles[i] == coord {
                assert(self.obstacles@.contains(coord));
                return true;
            }
            i = i + 1;
        }
        assert(!self.obstacles@.contains(coord));
        false
    }
}


/// Whether the fact `piece` is true of `c` on a grid of side `size`.
pub open spec fn piece_holds(size: int, piece: InformationPiece, c: Coordinate) -> bool {
    match piece {
        InformationPiece::Quadrant(q) => quadrant_spec(size, c) == Some(q),
        InformationPiece::Row(r) => c.y == r,
        InformationPiece::Column(col) => c.x == col,
    }
}

/// Whether the clue `q` is true of `c` on a grid of side `size`.
pub open spec fn clue_holds(size: int, q: IntelQuestion, c: Coordinate) -> bool {
    match q {
        IntelQuestion::InQuadrant { quadrant, answer } => (quadrant_spec(size, c) == Some(
            quadrant,
        )) == answer,
        IntelQuestion::TruthLie { info1, info2 } => piece_holds(size, info1, c) != piece_holds(
            size,
            info2,
            c,
        ),
    }
}

impl GameMap {
    /// Whether the fact `piece` is true of `coord`.
    pub fn piece_holds(&self, piece: InformationPiece, coord: Coordinate) -> (r: bool)
        ensures
            r == piece_holds(self.side(), piece, coord),
    {
        match piece {
            InformationPiece::Quadrant(q) => match self.quadrant_of(coord) {
                Some(found) => found == q,
                None => false,
            },
            InformationPiece::Row(row) => coord.y == row,
            InformationPiece::Column(col) => coord.x == col,
        }
    }

    /// Whether the clue `intel` is true of `coord`.
    pub fn satisfies(&self, intel: IntelQuestion, coord: Coordinate) -> (r: bool)
        ensures
            r == clue_holds(self.side(), intel, coord),
    {
        match intel {
            IntelQuestion::InQuadrant { quadrant, answer } => {
                let inside = match self.quadrant_of(coord) {
                    Some(found) => found == quadrant,
                    None => false,
                };
                inside == answer
            },
            IntelQuestion::TruthLie { info1, info2 } => {
                self.piece_holds(info1, coord) != self.piece_holds(info2, coord)
            },
        }
    }
}


/// A reported move.
#[derive(Debug, Clone, Copy, PartialEq, Eq, Structural)]
pub enum Move {
    /// One cell in a known direction.
    Directed(Direction),
    /// One to four cells in an unknown direction.
    Dash,
}

/// An entry of the log: a move or a clue.
#[derive(Debug, Clone, Copy, PartialEq, Eq, Structural)]
pub enum TraceElement {
    Move(Move),
    Intel(IntelQuestion),
}

/// Error of a rejected move.
#[derive(Debug, Clone, Copy, PartialEq, Eq, Structural)]
pub enum TraceMoveError {
    /// The move would revisit a cell on every live branch.
    SelfIntersect,
}

/// A node of a branch: an offset from the origin and the clues given there.
#[derive(Debug)]
pub struct OffsetWithIntel {
    pub offset: Offset,
    pub intel: Vec<IntelQuestion>,
}

/// The mathematical content of a branch node.
pub struct Node {
    pub pos: (int, int),
    pub intel: Seq<IntelQuestion>,
}

impl View for OffsetWithIntel {
    type V = Node;

    open spec fn view(&self) -> Node {
        Node { pos: pos_of(self.offset), intel: self.intel@ }
    }
}

pub open spec fn branch_view(b: Seq<OffsetWithIntel>) -> Seq<Node> {
    b.map_values(|n: OffsetWithIntel| n@)
}

pub open spec fn paths_view(ps: Seq<Vec<OffsetWithIntel>>) -> Seq<Seq<Node>> {
    ps.map_values(|b: Vec<OffsetWithIntel>| branch_view(b@))
}

pub open spec fn step_pos(p: (int, int), d: Direction) -> (int, int) {
    (p.0 + delta_spec(d).0, p.1 + delta_spec(d).1)
}

/// Whether branch `b` already passes through `p`.
pub open spec fn visits(b: Seq<Node>, p: (int, int)) -> bool {
    exists|i: int| 0 <= i < b.len() && #[trigger] b[i].pos == p
}

/// The position one step from the end of `b`.
pub open spec fn next_pos(b: Seq<Node>, d: Direction) -> (int, int) {
    step_pos(b.last().pos, d)
}

/// Whether a step from the end of `b` would revisit one of its cells.
pub open spec fn blocked(b: Seq<Node>, d: Direction) -> bool {
    visits(b, next_pos(b, d))
}

/// `b` with one more node, one step in direction `d`.
pub open spec fn extend(b: Seq<Node>, d: Direction) -> Seq<Node> {
    b.push(Node { pos: next_pos(b, d), intel: seq![] })
}

/// The branches after a directed move: each one advanced, the blocked ones dropped.
pub open spec fn directed_step(bs: Seq<Seq<Node>>, d: Direction) -> Seq<Seq<Node>>
    decreases bs.len(),
{
    if bs.len() == 0 {
        seq![]
    } else {
        let rest = directed_step(bs.drop_last(), d);
        if blocked(bs.last(), d) {
            rest
        } else {
            rest.push(extend(bs.last(), d))
        }
    }
}

/// The extensions of `b` by 1 up to `n` cells in direction `d`, shortest first,
/// stopping before the first cell that `b` already visits.
pub open spec fn dash_run(b: Seq<Node>, d: Direction, n: nat) -> Seq<Seq<Node>>
    decreases n,
{
    if n == 0 || blocked(b, d) {
        seq![]
    } else {
        seq![extend(b, d)] + dash_run(extend(b, d), d, (n - 1) as nat)
    }
}

/// Every branch a dash can derive from `b`: north, east, south, west, up to four cells each.
pub open spec fn dash_branch(b: Seq<Node>) -> Seq<Seq<Node>> {
    dash_run(b, Direction::North, 4) + dash_run(b, Direction::East, 4) + dash_run(
        b,
        Direction::South,
        4,
    ) + dash_run(b, Direction::West, 4)
}

/// The branches after a dash: each branch replaced by all its dash extensions.
pub open spec fn dash_step(bs: Seq<Seq<Node>>) -> Seq<Seq<Node>>
    decreases bs.len(),
{
    if bs.len() == 0 {
        seq![]
    } else {
        dash_step(bs.drop_last()) + dash_branch(bs.last())
    }
}

/// `b` with clue `q` attached to its last node.
pub open spec fn attach(b: Seq<Node>, q: IntelQuestion) -> Seq<Node> {
    b.update(b.len() - 1, Node { pos: b.last().pos, intel: b.last().intel.push(q) })
}

pub open spec fn intel_step(bs: Seq<Seq<Node>>, q: IntelQuestion) -> Seq<Seq<Node>> {
    bs.map_values(|b: Seq<Node>| attach(b, q))
}

/// The branches after one log entry.
pub open spec fn apply(bs: Seq<Seq<Node>>, e: TraceElement) -> Seq<Seq<Node>> {
    match e {
        TraceElement::Move(Move::Directed(d)) => directed_step(bs, d),
        TraceElement::Move(Move::Dash) => dash_step(bs),
        TraceElement::Intel(q) => intel_step(bs, q),
    }
}

/// The single branch of an empty log: the origin, with no clues.
pub open spec fn initial_branches() -> Seq<Seq<Node>> {
    seq![seq![Node { pos: (0, 0), intel: seq![] }]]
}

/// Every branch consistent with the log `t`, obtained by replaying it.
pub open spec fn branches(t: Seq<TraceElement>) -> Seq<Seq<Node>>
    decreases t.len(),
{
    if t.len() == 0 {
        initial_branches()
    } else {
        apply(branches(t.drop_last()), t.last())
    }
}

/// A non-empty branch whose positions lie within `m` of the origin on both axes.
pub open spec fn within(b: Seq<Node>, m: int) -> bool {
    &&& b.len() >= 1
    &&& forall|k: int|
        0 <= k < b.len() ==> -m <= (#[trigger] b[k]).pos.0 <= m && -m <= b[k].pos.1 <= m
}

pub open spec fn all_within(bs: Seq<Seq<Node>>, m: int) -> bool {
    forall|j: int| 0 <= j < bs.len() ==> within(#[trigger] bs[j], m)
}

/// A branch that never visits a cell twice.
pub open spec fn self_avoiding(b: Seq<Node>) -> bool {
    forall|i: int, j: int| 0 <= i < j < b.len() ==> (#[trigger] b[i]).pos != (#[trigger] b[j]).pos
}

pub open spec fn all_self_avoiding(bs: Seq<Seq<Node>>) -> bool {
    forall|j: int| 0 <= j < bs.len() ==> self_avoiding(#[trigger] bs[j])
}

proof fn lemma_extend_within(b: Seq<Node>, d: Direction, m: int)
    requires
        within(b, m),
    ensures
        within(extend(b, d), m + 1),
{
    let e = extend(b, d);
    assert forall|k: int| 0 <= k < e.len() implies -(m + 1) <= (#[trigger] e[k]).pos.0 <= m + 1
        && -(m + 1) <= e[k].pos.1 <= m + 1 by {
        if k < b.len() {
            assert(e[k] == b[k]);
        } else {
            assert(b[b.len() - 1] == b.last());
        }
    }
}

proof fn lemma_extend_self_avoiding(b: Seq<Node>, d: Direction)
    requires
        self_avoiding(b),
        !blocked(b, d),
    ensures
        self_avoiding(extend(b, d)),
{
    let e = extend(b, d);
    assert forall|i: int, j: int| 0 <= i < j < e.len() implies (#[trigger] e[i]).pos != (
    #[trigger] e[j]).pos by {
        if j == b.len() {
            assert(e[i] == b[i]);
            if e[i].pos == e[j].pos {
                assert(visits(b, next_pos(b, d)));
            }
        } else {
            assert(e[i] == b[i] && e[j] == b[j]);
        }
    }
}

proof fn lemma_dash_run(b: Seq<Node>, d: Direction, n: nat, m: int)
    requires
        within(b, m),
        self_avoiding(b),
    ensures
        dash_run(b, d, n).len() <= n,
        forall|j: int|
            0 <= j < dash_run(b, d, n).len() ==> within(#[trigger] dash_run(b, d, n)[j], m + n)
                && self_avoiding(dash_run(b, d, n)[j]) && dash_run(b, d, n)[j].len() == b.len()
                + j + 1 && dash_run(b, d, n)[j].subrange(0, b.len() as int) == b,
    decreases n,
{
    if n == 0 || blocked(b, d) {
    } else {
        let e = extend(b, d);
        lemma_extend_within(b, d, m);
        lemma_extend_self_avoiding(b, d);
        lemma_dash_run(e, d, (n - 1) as nat, m + 1);
        let r = dash_run(b, d, n);
        let tail = dash_run(e, d, (n - 1) as nat);
        assert(r == seq![e] + tail);
        assert forall|j: int| 0 <= j < r.len() implies within(#[trigger] r[j], m + n)
            && self_avoiding(r[j]) && r[j].len() == b.len() + j + 1 && r[j].subrange(
            0,
            b.len() as int,
        ) == b by {
            if j == 0 {
                assert(r[0] == e);
                assert(within(e, m + 1));
                assert forall|k: int| 0 <= k < e.len() implies -(m + n) <= (#[trigger] e[k]).pos.0
                    <= m + n && -(m + n) <= e[k].pos.1 <= m + n by {}
                assert(e.subrange(0, b.len() as int) =~= b);
            } else {
                assert(r[j] == tail[j - 1]);
                assert(tail[j - 1].subrange(0, e.len() as int) == e);
                assert(r[j].subrange(0, b.len() as int) =~= e.subrange(0, e.len() as int).subrange(
                    0,
                    b.len() as int,
                ));
                assert(e.subrange(0, b.len() as int) =~= b);
            }
        }
    }
}


proof fn lemma_dash_branch(b: Seq<Node>, m: int)
    requires
        within(b, m),
        self_avoiding(b),
    ensures
        dash_branch(b).len() <= 16,
        forall|j: int|
            0 <= j < dash_branch(b).len() ==> within(#[trigger] dash_branch(b)[j], m + 4)
                && self_avoiding(dash_branch(b)[j]) && b.len() + 1 <= dash_branch(b)[j].len()
                <= b.len() + 4 && dash_branch(b)[j].subrange(0, b.len() as int) == b,
{
    let rn = dash_run(b, Direction::North, 4);
    let re = dash_run(b, Direction::East, 4);
    let rs = dash_run(b, Direction::South, 4);
    let rw = dash_run(b, Direction::West, 4);
    lemma_dash_run(b, Direction::North, 4, m);
    lemma_dash_run(b, Direction::East, 4, m);
    lemma_dash_run(b, Direction::South, 4, m);
    lemma_dash_run(b, Direction::West, 4, m);
    let all = dash_branch(b);
    assert forall|j: int| 0 <= j < all.len() implies within(#[trigger] all[j], m + 4)
        && self_avoiding(all[j]) && b.len() + 1 <= all[j].len() <= b.len() + 4 && all[j].subrange(
        0,
        b.len() as int,
    ) == b by {
        if j < rn.len() {
            assert(all[j] == rn[j]);
        } else if j < rn.len() + re.len() {
            assert(all[j] == re[j - rn.len()]);
        } else if j < rn.len() + re.len() + rs.len() {
            assert(all[j] == rs[j - rn.len() - re.len()]);
        } else {
            assert(all[j] == rw[j - rn.len() - re.len() - rs.len()]);
        }
    }
}

proof fn lemma_directed_step(bs: Seq<Seq<Node>>, d: Direction, m: int)
    requires
        all_within(bs, m),
        all_self_avoiding(bs),
    ensures
        all_within(directed_step(bs, d), m + 1),
        all_self_avoiding(directed_step(bs, d)),
        directed_step(bs, d).len() <= bs.len(),
    decreases bs.len(),
{
    if bs.len() > 0 {
        let init = bs.drop_last();
        assert forall|j: int| 0 <= j < init.len() implies within(#[trigger] init[j], m)
            && self_avoiding(init[j]) by {
            assert(init[j] == bs[j]);
        }
        lemma_directed_step(init, d, m);
        let b = bs.last();
        assert(within(bs[bs.len() - 1], m) && self_avoiding(bs[bs.len() - 1]));
        if !blocked(b, d) {
            lemma_extend_within(b, d, m);
            lemma_extend_self_avoiding(b, d);
            let rest = directed_step(init, d);
            let r = rest.push(extend(b, d));
            assert forall|j: int| 0 <= j < r.len() implies within(#[trigger] r[j], m + 1)
                && self_avoiding(r[j]) by {
                if j < rest.len() {
                    assert(r[j] == rest[j]);
                }
            }
        }
    }
}

proof fn lemma_dash_step(bs: Seq<Seq<Node>>, m: int)
    requires
        all_within(bs, m),
        all_self_avoiding(bs),
    ensures
        all_within(dash_step(bs), m + 4),
        all_self_avoiding(dash_step(bs)),
    decreases bs.len(),
{
    if bs.len() > 0 {
        let init = bs.drop_last();
        assert forall|j: int| 0 <= j < init.len() implies within(#[trigger] init[j], m)
            && self_avoiding(init[j]) by {
            assert(init[j] == bs[j]);
        }
        lemma_dash_step(init, m);
        let b = bs.last();
        assert(within(bs[bs.len() - 1], m) && self_avoiding(bs[bs.len() - 1]));
        lemma_dash_branch(b, m);
        let rest = dash_step(init);
        let r = dash_step(bs);
        assert forall|j: int| 0 <= j < r.len() implies within(#[trigger] r[j], m + 4)
            && self_avoiding(r[j]) by {
            if j < rest.len() {
                assert(r[j] == rest[j]);
            } else {
                assert(r[j] == dash_branch(b)[j - rest.len()]);
            }
        }
    }
}

proof fn lemma_attach(b: Seq<Node>, q: IntelQuestion, m: int)
    requires
        within(b, m),
    ensures
        within(attach(b, q), m),
        attach(b, q).len() == b.len(),
        forall|k: int| 0 <= k < b.len() ==> (#[trigger] attach(b, q)[k]).pos == b[k].pos,
        self_avoiding(b) ==> self_avoiding(attach(b, q)),
{
    let a = attach(b, q);
    assert forall|k: int| 0 <= k < b.len() implies (#[trigger] a[k]).pos == b[k].pos by {}
    assert forall|k: int| 0 <= k < a.len() implies -m <= (#[trigger] a[k]).pos.0 <= m && -m
        <= a[k].pos.1 <= m by {
        assert(a[k].pos == b[k].pos);
    }
    if self_avoiding(b) {
        assert forall|i: int, j: int| 0 <= i < j < a.len() implies (#[trigger] a[i]).pos != (
        #[trigger] a[j]).pos by {
            assert(a[i].pos == b[i].pos && a[j].pos == b[j].pos);
        }
    }
}

proof fn lemma_intel_step(bs: Seq<Seq<Node>>, q: IntelQuestion, m: int)
    requires
        all_within(bs, m),
        all_self_avoiding(bs),
    ensures
        all_within(intel_step(bs, q), m),
        all_self_avoiding(intel_step(bs, q)),
        intel_step(bs, q).len() == bs.len(),
{
    let r = intel_step(bs, q);
    assert forall|j: int| 0 <= j < r.len() implies within(#[trigger] r[j], m) && self_avoiding(
        r[j],
    ) by {
        lemma_attach(bs[j], q, m);
    }
}

/// Every branch of a replayed log is non-empty, never visits a cell twice, and
/// stays within four cells per log entry of the origin.
pub proof fn lemma_branches_shape(t: Seq<TraceElement>)
    ensures
        all_within(branches(t), 4 * (t.len() as int)),
        all_self_avoiding(branches(t)),
    decreases t.len(),
{
    if t.len() == 0 {
        let b0 = initial_branches();
        assert(b0[0] == seq![Node { pos: (0, 0), intel: seq![] }]);
    } else {
        let init = t.drop_last();
        lemma_branches_shape(init);
        let bs = branches(init);
        let m: int = 4 * (init.len() as int);
        let top: int = 4 * (t.len() as int);
        match t.last() {
            TraceElement::Move(Move::Directed(d)) => {
                lemma_directed_step(bs, d, m);
                assert forall|j: int| 0 <= j < directed_step(bs, d).len() implies within(
                    #[trigger] directed_step(bs, d)[j],
                    top,
                ) by {
                    let b = directed_step(bs, d)[j];
                    assert(within(b, m + 1));
                    assert forall|k: int| 0 <= k < b.len() implies -(top) <= (
                    #[trigger] b[k]).pos.0 <= top && -(top) <= b[k].pos.1 <= top by {}
                }
            },
            TraceElement::Move(Move::Dash) => {
                lemma_dash_step(bs, m);
            },
            TraceElement::Intel(q) => {
                lemma_intel_step(bs, q, m);
                assert forall|j: int| 0 <= j < intel_step(bs, q).len() implies within(
                    #[trigger] intel_step(bs, q)[j],
                    top,
                ) by {
                    let b = intel_step(bs, q)[j];
                    assert(within(b, m));
                    assert forall|k: int| 0 <= k < b.len() implies -(top) <= (
                    #[trigger] b[k]).pos.0 <= top && -(top) <= b[k].pos.1 <= top by {}
                }
            },
        }
    }
}


proof fn lemma_within_one(b: Seq<Node>, m1: int, m2: int)
    requires
        within(b, m1),
        m1 <= m2,
    ensures
        within(b, m2),
{
    assert forall|k: int| 0 <= k < b.len() implies -m2 <= (#[trigger] b[k]).pos.0 <= m2 && -m2
        <= b[k].pos.1 <= m2 by {}
}

proof fn lemma_within_mono(bs: Seq<Seq<Node>>, m1: int, m2: int)
    requires
        all_within(bs, m1),
        m1 <= m2,
    ensures
        all_within(bs, m2),
{
    assert forall|j: int| 0 <= j < bs.len() implies within(#[trigger] bs[j], m2) by {
        let b = bs[j];
        assert(within(b, m1));
        assert forall|k: int| 0 <= k < b.len() implies -m2 <= (#[trigger] b[k]).pos.0 <= m2 && -m2
            <= b[k].pos.1 <= m2 by {}
    }
}

/// Bound on positions while replaying a log of admissible length.
pub open spec fn replay_bound() -> int {
    4 * MAX_TRACE_LEN
}

fn copy_node(n: &OffsetWithIntel) -> (r: OffsetWithIntel)
    ensures
        r@ == n@,
{
    let mut intel: Vec<IntelQuestion> = Vec::new();
    let mut i: usize = 0;
    while i < n.intel.len()
        invariant
            0 <= i <= n.intel@.len(),
            intel@ == n.intel@.take(i as int),
        decreases n.intel@.len() - i,
    {
        intel.push(n.intel[i]);
        assert(n.intel@.take(i + 1) =~= n.intel@.take(i as int).push(n.intel@[i as int]));
        i = i + 1;
    }
    assert(n.intel@.take(n.intel@.len() as int) =~= n.intel@);
    OffsetWithIntel { offset: n.offset, intel }
}

fn copy_branch(b: &Vec<OffsetWithIntel>) -> (r: Vec<OffsetWithIntel>)
    ensures
        branch_view(r@) == branch_view(b@),
{
    let mut out: Vec<OffsetWithIntel> = Vec::new();
    let mut i: usize = 0;
    while i < b.len()
        invariant
            0 <= i <= b@.len(),
            branch_view(out@) == branch_view(b@).take(i as int),
        decreases b@.len() - i,
    {
        let n = copy_node(&b[i]);
        let ghost before = out@;
        out.push(n);
        assert(out@ == before.push(n));
        assert(n@ == branch_view(b@)[i as int]);
        assert(branch_view(before.push(n)) =~= branch_view(before).push(n@));
        assert(branch_view(out@) =~= branch_view(b@).take(i + 1));
        i = i + 1;
    }
    assert(branch_view(b@).take(b@.len() as int) =~= branch_view(b@));
    out
}

fn branch_visits(b: &Vec<OffsetWithIntel>, p: Offset) -> (r: bool)
    ensures
        r == visits(branch_view(b@), pos_of(p)),
{
    let ghost bv = branch_view(b@);
    let mut i: usize = 0;
    while i < b.len()
        invariant
            0 <= i <= b@.len(),
            bv == branch_view(b@),
            forall|k: int| 0 <= k < i ==> (#[trigger] bv[k]).pos != pos_of(p),
        decreases b@.len() - i,
    {
        if b[i].offset == p {
            assert(bv[i as int].pos == pos_of(p));
            return true;
        }
        i = i + 1;
    }
    false
}

/// The offset one step from the end of a non-empty branch.
fn step_from_last(b: &Vec<OffsetWithIntel>, d: Direction) -> (r: Offset)
    requires
        within(branch_view(b@), replay_bound() + 4),
    ensures
        pos_of(r) == next_pos(branch_view(b@), d),
{
    let ghost bv = branch_view(b@);
    assert(bv[bv.len() - 1] == bv.last());
    let last = b[b.len() - 1].offset;
    last.add(d.delta())
}

fn directed_paths(ps: &Vec<Vec<OffsetWithIntel>>, d: Direction) -> (r: Vec<Vec<OffsetWithIntel>>)
    requires
        all_within(paths_view(ps@), replay_bound()),
    ensures
        paths_view(r@) == directed_step(paths_view(ps@), d),
{
    let ghost pv = paths_view(ps@);
    let mut out: Vec<Vec<OffsetWithIntel>> = Vec::new();
    let mut i: usize = 0;
    while i < ps.len()
        invariant
            0 <= i <= ps@.len(),
            pv == paths_view(ps@),
            all_within(pv, replay_bound()),
            paths_view(out@) == directed_step(pv.take(i as int), d),
        decreases ps@.len() - i,
    {
        let path = &ps[i];
        assert(pv[i as int] == branch_view(path@));
        assert(within(pv[i as int], replay_bound()));
        proof {
            lemma_within_one(pv[i as int], replay_bound(), replay_bound() + 4);
        }
        let next = step_from_last(path, d);
        assert(pv.take(i + 1).drop_last() =~= pv.take(i as int));
        assert(pv.take(i + 1).last() == pv[i as int]);
        if !branch_visits(path, next) {
            let mut nb = copy_branch(path);
            nb.push(OffsetWithIntel { offset: next, intel: Vec::new() });
            assert(branch_view(nb@) =~= extend(pv[i as int], d));
            let ghost before = out@;
            out.push(nb);
            assert(paths_view(out@) =~= paths_view(before).push(branch_view(nb@)));
        }
        i = i + 1;
    }
    assert(pv.take(ps@.len() as int) =~= pv);
    out
}


/// Appends to `out` every extension of `b` by 1 up to 4 cells in direction `d`.
fn push_dash_run(b: &Vec<OffsetWithIntel>, d: Direction, out: &mut Vec<Vec<OffsetWithIntel>>)
    requires
        within(branch_view(b@), replay_bound()),
    ensures
        paths_view(final(out)@) == paths_view(old(out)@) + dash_run(branch_view(b@), d, 4),
{
    let ghost target = paths_view(old(out)@) + dash_run(branch_view(b@), d, 4);
    let mut cur = copy_branch(b);
    let mut k: usize = 0;
    let mut done = false;
    proof {
        assert(paths_view(out@) + dash_run(branch_view(cur@), d, 4) == target);
    }
    while k < 4 && !done
        invariant
            k <= 4,
            within(branch_view(cur@), replay_bound() + k),
            paths_view(out@) + dash_run(branch_view(cur@), d, (4 - k) as nat) == target,
            done ==> blocked(branch_view(cur@), d),
        decreases 4 - k + (if done { 0int } else { 1int }),
    {
        proof {
            lemma_within_one(branch_view(cur@), replay_bound() + k, replay_bound() + 4);
        }
        let next = step_from_last(&cur, d);
        if branch_visits(&cur, next) {
            done = true;
        } else {
            let ghost cv = branch_view(cur@);
            let ghost pv = paths_view(out@);
            cur.push(OffsetWithIntel { offset: next, intel: Vec::new() });
            assert(branch_view(cur@) =~= extend(cv, d));
            proof {
                lemma_extend_within(cv, d, replay_bound() + k);
            }
            let copy = copy_branch(&cur);
            out.push(copy);
            assert(paths_view(out@) =~= pv.push(extend(cv, d)));
            let ghost rest = dash_run(extend(cv, d), d, (4 - k - 1) as nat);
            assert(dash_run(cv, d, (4 - k) as nat) == seq![extend(cv, d)] + rest);
            assert(pv + (seq![extend(cv, d)] + rest) =~= pv.push(extend(cv, d)) + rest);
            k = k + 1;
        }
    }
    assert(dash_run(branch_view(cur@), d, (4 - k) as nat) =~= Seq::<Seq<Node>>::empty());
    assert(paths_view(out@) + Seq::<Seq<Node>>::empty() =~= paths_view(out@));
}

fn dash_paths(ps: &Vec<Vec<OffsetWithIntel>>) -> (r: Vec<Vec<OffsetWithIntel>>)
    requires
        all_within(paths_view(ps@), replay_bound()),
    ensures
        paths_view(r@) == dash_step(paths_view(ps@)),
{
    let ghost pv = paths_view(ps@);
    let mut out: Vec<Vec<OffsetWithIntel>> = Vec::new();
    let mut i: usize = 0;
    while i < ps.len()
        invariant
            0 <= i <= ps@.len(),
            pv == paths_view(ps@),
            all_within(pv, replay_bound()),
            paths_view(out@) == dash_step(pv.take(i as int)),
        decreases ps@.len() - i,
    {
        let path = &ps[i];
        let ghost b = pv[i as int];
        assert(b == branch_view(path@));
        assert(within(b, replay_bound()));
        let ghost before = paths_view(out@);
        push_dash_run(path, Direction::North, &mut out);
        push_dash_run(path, Direction::East, &mut out);
        push_dash_run(path, Direction::South, &mut out);
        push_dash_run(path, Direction::West, &mut out);
        assert(pv.take(i + 1).drop_last() =~= pv.take(i as int));
        assert(pv.take(i + 1).last() == b);
        assert(paths_view(out@) =~= before + dash_branch(b));
        i = i + 1;
    }
    assert(pv.take(ps@.len() as int) =~= pv);
    out
}

fn attach_all(ps: &Vec<Vec<OffsetWithIntel>>, q: IntelQuestion) -> (r: Vec<
    Vec<OffsetWithIntel>,
>)
    requires
        all_within(paths_view(ps@), replay_bound()),
    ensures
        paths_view(r@) == intel_step(paths_view(ps@), q),
{
    let ghost pv = paths_view(ps@);
    let mut out: Vec<Vec<OffsetWithIntel>> = Vec::new();
    let mut i: usize = 0;
    while i < ps.len()
        invariant
            0 <= i <= ps@.len(),
            pv == paths_view(ps@),
            all_within(pv, replay_bound()),
            paths_view(out@) == intel_step(pv, q).take(i as int),
        decreases ps@.len() - i,
    {
        let ghost b = pv[i as int];
        assert(b == branch_view(ps@[i as int]@));
        assert(within(b, replay_bound()));
        let mut nb = copy_branch(&ps[i]);
        let last = nb.len() - 1;
        let mut node = copy_node(&nb[last]);
        node.intel.push(q);
        nb.set(last, node);
        assert(b[b.len() - 1] == b.last());
        assert(branch_view(nb@) =~= attach(b, q));
        let ghost before = out@;
        out.push(nb);
        assert(paths_view(out@) =~= paths_view(before).push(attach(b, q)));
        assert(intel_step(pv, q).take(i + 1) =~= intel_step(pv, q).take(i as int).push(
            attach(b, q),
        ));
        i = i + 1;
    }
    assert(intel_step(pv, q).take(ps@.len() as int) =~= intel_step(pv, q));
    out
}


/// The chronological log of moves and clues.
#[derive(Debug)]
pub struct Trace {
    trace: Vec<TraceElement>,
}

impl Trace {
    /// The entries of the log, oldest first.
    pub closed spec fn elements(&self) -> Seq<TraceElement> {
        self.trace@
    }

    pub fn new() -> (r: Trace)
        ensures
            r.elements() == Seq::<TraceElement>::empty(),
    {
        Trace { trace: Vec::new() }
    }

    /// Logs a move. A directed move is refused when it would revisit a cell on
    /// every live branch; a dash is always logged.
    pub fn make_move(&mut self, m: Move) -> (r: Result<(), TraceMoveError>)
        requires
            old(self).elements().len() < MAX_TRACE_LEN,
        ensures
            match m {
                Move::Directed(d) => r is Err <==> (forall|j: int|
                    0 <= j < branches(old(self).elements()).len() ==> blocked(
                        #[trigger] branches(old(self).elements())[j],
                        d,
                    )),
                Move::Dash => r is Ok,
            },
            r is Ok ==> final(self).elements() == old(self).elements().push(TraceElement::Move(m)),
            r is Err ==> final(self).elements() == old(self).elements() && r
                == Err::<(), TraceMoveError>(TraceMoveError::SelfIntersect),
    {
        match m {
            Move::Directed(d) => {
                let paths = self.paths();
                let ghost pv = paths_view(paths@);
                proof {
                    lemma_branches_shape(self.elements());
                    lemma_within_mono(pv, 4 * (self.elements().len() as int), replay_bound() + 4);
                }
                let mut all_blocked = true;
                let mut j: usize = 0;
                while j < paths.len()
                    invariant
                        0 <= j <= paths@.len(),
                        pv == paths_view(paths@),
                        all_within(pv, replay_bound() + 4),
                        all_blocked <==> (forall|k: int| 0 <= k < j ==> blocked(#[trigger] pv[k], d)),
                    decreases paths@.len() - j,
                {
                    let path = &paths[j];
                    assert(pv[j as int] == branch_view(path@));
                    let next = step_from_last(path, d);
                    if !branch_visits(path, next) {
                        all_blocked = false;
                    }
                    j = j + 1;
                }
                if all_blocked {
                    return Err(TraceMoveError::SelfIntersect);
                }
                self.trace.push(TraceElement::Move(Move::Directed(d)));
                Ok(())
            },
            Move::Dash => {
                self.trace.push(TraceElement::Move(Move::Dash));
                Ok(())
            },
        }
    }

    /// Number of entries in the log.
    pub fn len(&self) -> (r: usize)
        ensures
            r == self.elements().len(),
    {
        self.trace.len()
    }

    /// Removes the newest entry; `false` when the log is empty.
    pub fn undo_trace(&mut self) -> (r: bool)
        ensures
            r == (old(self).elements().len() > 0),
            final(self).elements() == if r {
                old(self).elements().drop_last()
            } else {
                old(self).elements()
            },
    {
        let popped = self.trace.pop();
        popped.is_some()
    }

    /// Logs a clue about the current position.
    pub fn add_intel(&mut self, intel: IntelQuestion)
        requires
            old(self).elements().len() < MAX_TRACE_LEN,
        ensures
            final(self).elements() == old(self).elements().push(TraceElement::Intel(intel)),
    {
        self.trace.push(TraceElement::Intel(intel));
    }

    /// Replays the log into every branch it allows.
    pub fn paths(&self) -> (r: Vec<Vec<OffsetWithIntel>>)
        requires
            self.elements().len() <= MAX_TRACE_LEN,
        ensures
            paths_view(r@) == branches(self.elements()),
    {
        let mut first: Vec<OffsetWithIntel> = Vec::new();
        first.push(OffsetWithIntel { offset: Offset::new(0, 0), intel: Vec::new() });
        let mut paths: Vec<Vec<OffsetWithIntel>> = Vec::new();
        paths.push(first);
        assert(branch_view(first@) =~= seq![Node { pos: (0, 0), intel: seq![] }]);
        assert(paths_view(paths@) =~= initial_branches());
        let ghost t = self.trace@;
        let mut i: usize = 0;
        while i < self.trace.len()
            invariant
                0 <= i <= t.len(),
                t == self.trace@,
                t.len() <= MAX_TRACE_LEN,
                paths_view(paths@) == branches(t.take(i as int)),
            decreases t.len() - i,
        {
            proof {
                lemma_branches_shape(t.take(i as int));
                lemma_within_mono(paths_view(paths@), 4 * (i as int), replay_bound());
            }
            let e = self.trace[i];
            assert(t.take(i + 1).drop_last() =~= t.take(i as int));
            assert(t.take(i + 1).last() == e);
            paths = match e {
                TraceElement::Move(Move::Directed(d)) => directed_paths(&paths, d),
                TraceElement::Move(Move::Dash) => dash_paths(&paths),
                TraceElement::Intel(q) => attach_all(&paths, q),
            };
            i = i + 1;
        }
        assert(t.take(t.len() as int) =~= t);
        paths
    }
}


/// The cell at position `p` relative to `origin` (meaningful where `placed` holds).
pub open spec fn cell_at(origin: Coordinate, p: (int, int)) -> Coordinate {
    Coordinate { x: (origin.x + p.0) as u32, y: (origin.y + p.1) as u32 }
}

/// Whether position `p` relative to `origin` is a cell with `u32` components.
pub open spec fn placed(origin: Coordinate, p: (int, int)) -> bool {
    fits_u32(translate_spec(origin, p))
}

/// Whether node `n`, placed at `origin`, lands on a free cell where all its clues hold.
pub open spec fn node_fits(map: GameMap, n: Node, origin: Coordinate) -> bool {
    &&& placed(origin, n.pos)
    &&& map.is_free(cell_at(origin, n.pos))
    &&& forall|k: int|
        0 <= k < n.intel.len() ==> clue_holds(map.side(), #[trigger] n.intel[k], cell_at(origin, n.pos))
}

/// Whether every node of `b`, placed at `origin`, fits the map.
pub open spec fn branch_fits(map: GameMap, b: Seq<Node>, origin: Coordinate) -> bool {
    forall|k: int| 0 <= k < b.len() ==> node_fits(map, #[trigger] b[k], origin)
}

/// The cells of `b` placed at `origin`.
pub open spec fn realize(b: Seq<Node>, origin: Coordinate) -> Seq<Coordinate> {
    b.map_values(|n: Node| cell_at(origin, n.pos))
}

/// The realizations at `origin` of the branches of `bs` that fit, in order.
pub open spec fn cands_at(map: GameMap, bs: Seq<Seq<Node>>, origin: Coordinate) -> Seq<
    Seq<Coordinate>,
>
    decreases bs.len(),
{
    if bs.len() == 0 {
        seq![]
    } else {
        let rest = cands_at(map, bs.drop_last(), origin);
        if branch_fits(map, bs.last(), origin) {
            rest.push(realize(bs.last(), origin))
        } else {
            rest
        }
    }
}

/// The candidates from one origin: none from an obstacle.
pub open spec fn origin_cands(map: GameMap, bs: Seq<Seq<Node>>, origin: Coordinate) -> Seq<
    Seq<Coordinate>,
> {
    if map.obstacle_set().contains(origin) {
        seq![]
    } else {
        cands_at(map, bs, origin)
    }
}

/// The candidates from origins `(x, 0)` up to `(x, n - 1)`.
pub open spec fn cands_column(map: GameMap, bs: Seq<Seq<Node>>, x: u32, n: nat) -> Seq<
    Seq<Coordinate>,
>
    decreases n,
{
    if n == 0 {
        seq![]
    } else {
        cands_column(map, bs, x, (n - 1) as nat) + origin_cands(
            map,
            bs,
            Coordinate { x, y: (n - 1) as u32 },
        )
    }
}

/// The candidates from every origin whose `x` is below `n`, column by column.
pub open spec fn cands_upto(map: GameMap, bs: Seq<Seq<Node>>, n: nat) -> Seq<Seq<Coordinate>>
    decreases n,
{
    if n == 0 {
        seq![]
    } else {
        cands_upto(map, bs, (n - 1) as nat) + cands_column(
            map,
            bs,
            (n - 1) as u32,
            map.side() as nat,
        )
    }
}

/// Every candidate path of the log `t` on `map`.
pub open spec fn candidates(map: GameMap, t: Seq<TraceElement>) -> Seq<Seq<Coordinate>> {
    cands_upto(map, branches(t), map.side() as nat)
}

pub open spec fn cands_view(cs: Seq<Vec<Coordinate>>) -> Seq<Seq<Coordinate>> {
    cs.map_values(|c: Vec<Coordinate>| c@)
}

/// Places `b` at `origin`; `None` when some node misses the map or one of its clues.
fn realize_branch(map: &GameMap, b: &Vec<OffsetWithIntel>, origin: Coordinate) -> (r: Option<
    Vec<Coordinate>,
>)
    ensures
        r is Some <==> branch_fits(*map, branch_view(b@), origin),
        r is Some ==> r->0@ == realize(branch_view(b@), origin),
{
    let ghost bv = branch_view(b@);
    let mut out: Vec<Coordinate> = Vec::new();
    let mut i: usize = 0;
    while i < b.len()
        invariant
            0 <= i <= b@.len(),
            bv == branch_view(b@),
            forall|k: int| 0 <= k < i ==> node_fits(*map, #[trigger] bv[k], origin),
            out@ == realize(bv, origin).take(i as int),
        decreases b@.len() - i,
    {
        let node = &b[i];
        assert(bv[i as int] == node@);
        let c = match translate(origin, node.offset) {
            Some(c) => c,
            None => {
                return None;
            },
        };
        assert(c == cell_at(origin, node@.pos));
        if !map.contains(c) || map.is_obstacle(c) {
            assert(!node_fits(*map, bv[i as int], origin));
            return None;
        }
        let mut j: usize = 0;
        while j < node.intel.len()
            invariant
                0 <= j <= node.intel@.len(),
                0 <= i < b@.len(),
                bv == branch_view(b@),
                bv[i as int] == node@,
                c == cell_at(origin, node@.pos),
                placed(origin, node@.pos),
                map.is_free(c),
                forall|k: int| 0 <= k < i ==> node_fits(*map, #[trigger] bv[k], origin),
                out@ == realize(bv, origin).take(i as int),
                forall|k: int|
                    0 <= k < j ==> clue_holds(map.side(), #[trigger] node.intel@[k], c),
            decreases node.intel@.len() - j,
        {
            if !map.satisfies(node.intel[j], c) {
                assert(!clue_holds(map.side(), node@.intel[j as int], cell_at(origin, node@.pos)));
                assert(!node_fits(*map, bv[i as int], origin));
                return None;
            }
            j = j + 1;
        }
        assert(node_fits(*map, bv[i as int], origin));
        out.push(c);
        assert(out@ =~= realize(bv, origin).take(i + 1));
        i = i + 1;
    }
    assert(realize(bv, origin).take(b@.len() as int) =~= realize(bv, origin));
    Some(out)
}


/// A map together with the log of what was observed on it.
#[derive(Debug)]
pub struct Radar {
    map: GameMap,
    trace: Trace,
}

impl Radar {
    /// The map.
    pub closed spec fn board(&self) -> GameMap {
        self.map
    }

    /// The entries of the log, oldest first.
    pub closed spec fn log(&self) -> Seq<TraceElement> {
        self.trace.elements()
    }

    pub fn new(map: GameMap) -> (r: Radar)
        ensures
            r.board() == map,
            r.log() == Seq::<TraceElement>::empty(),
    {
        Radar { map, trace: Trace::new() }
    }

    /// Logs a move; a directed move is refused when it would revisit a cell on
    /// every live branch.
    pub fn register_move(&mut self, m: Move) -> (r: Result<(), TraceMoveError>)
        requires
            old(self).log().len() < MAX_TRACE_LEN,
        ensures
            final(self).board() == old(self).board(),
            match m {
                Move::Directed(d) => r is Err <==> (forall|j: int|
                    0 <= j < branches(old(self).log()).len() ==> blocked(
                        #[trigger] branches(old(self).log())[j],
                        d,
                    )),
                Move::Dash => r is Ok,
            },
            r is Ok ==> final(self).log() == old(self).log().push(TraceElement::Move(m)),
            r is Err ==> final(self).log() == old(self).log() && r == Err::<(), TraceMoveError>(
                TraceMoveError::SelfIntersect,
            ),
    {
        self.trace.make_move(m)
    }

    /// Removes the newest log entry; `false` when the log is empty.
    pub fn undo_trace(&mut self) -> (r: bool)
        ensures
            final(self).board() == old(self).board(),
            r == (old(self).log().len() > 0),
            final(self).log() == if r {
                old(self).log().drop_last()
            } else {
                old(self).log()
            },
    {
        self.trace.undo_trace()
    }

    /// Every candidate path: for each free origin, column by column, each branch
    /// of the log placed there, kept when all its cells are free and all its
    /// clues hold. Equal paths from different branches are all listed.
    pub fn get_possible_paths(&self) -> (r: Vec<Vec<Coordinate>>)
        requires
            self.log().len() <= MAX_TRACE_LEN,
        ensures
            cands_view(r@) == candidates(self.board(), self.log()),
            forall|j: int| 0 <= j < r@.len() ==> all_free(self.board(), #[trigger] r@[j]@),
    {
        let paths = self.trace.paths();
        let ghost bv = paths_view(paths@);
        let ghost map = self.map;
        let size = self.map.size();
        let mut out: Vec<Vec<Coordinate>> = Vec::new();
        let mut x: u32 = 0;
        while x < size
            invariant
                x <= size,
                size == map.side(),
                map == self.map,
                bv == paths_view(paths@),
                cands_view(out@) == cands_upto(map, bv, x as nat),
            decreases size - x,
        {
            let ghost col_base = cands_view(out@);
            let mut y: u32 = 0;
            while y < size
                invariant
                    x < size,
                    y <= size,
                    size == map.side(),
                    map == self.map,
                    bv == paths_view(paths@),
                    cands_view(out@) == col_base + cands_column(map, bv, x, y as nat),
                decreases size - y,
            {
                let origin = Coordinate { x, y };
                let ghost base = cands_view(out@);
                if !self.map.is_obstacle(origin) {
                    let mut i: usize = 0;
                    while i < paths.len()
                        invariant
                            0 <= i <= paths@.len(),
                            map == self.map,
                            bv == paths_view(paths@),
                            cands_view(out@) == base + cands_at(map, bv.take(i as int), origin),
                        decreases paths@.len() - i,
                    {
                        assert(bv[i as int] == branch_view(paths@[i as int]@));
                        assert(bv.take(i + 1).drop_last() =~= bv.take(i as int));
                        assert(bv.take(i + 1).last() == bv[i as int]);
                        match realize_branch(&self.map, &paths[i], origin) {
                            Some(c) => {
                                let ghost before = cands_view(out@);
                                out.push(c);
                                assert(cands_view(out@) =~= before.push(c@));
                                assert(cands_view(out@) =~= base + cands_at(
                                    map,
                                    bv.take(i + 1),
                                    origin,
                                ));
                            },
                            None => {},
                        }
                        i = i + 1;
                    }
                    assert(bv.take(paths@.len() as int) =~= bv);
                }
                assert(origin_cands(map, bv, origin) == cands_at(map, bv, origin)
                    || origin_cands(map, bv, origin) == Seq::<Seq<Coordinate>>::empty());
                assert(cands_column(map, bv, x, (y + 1) as nat) == cands_column(map, bv, x, y as nat)
                    + origin_cands(map, bv, origin));
                assert(cands_view(out@) =~= col_base + cands_column(map, bv, x, (y + 1) as nat));
                y = y + 1;
            }
            assert(cands_view(out@) =~= cands_upto(map, bv, (x + 1) as nat));
            x = x + 1;
        }
        proof {
            lemma_candidates_free(map, self.log());
            assert forall|j: int| 0 <= j < out@.len() implies all_free(map, #[trigger] out@[j]@) by {
                assert(cands_view(out@)[j] == out@[j]@);
                assert(all_free(map, candidates(map, self.log())[j]));
            }
        }
        out
    }

    /// Logs a clue about the current position.
    pub fn add_intel(&mut self, intel: IntelQuestion)
        requires
            old(self).log().len() < MAX_TRACE_LEN,
        ensures
            final(self).board() == old(self).board(),
            final(self).log() == old(self).log().push(TraceElement::Intel(intel)),
    {
        self.trace.add_intel(intel);
    }

    pub fn map(&self) -> (r: &GameMap)
        ensures
            *r == self.board(),
    {
        &self.map
    }

    pub fn trace(&self) -> (r: &Trace)
        ensures
            r.elements() == self.log(),
    {
        &self.trace
    }
}


/// Whether every candidate in `cs` has property `p`.
pub open spec fn every_cand(cs: Seq<Seq<Coordinate>>, p: spec_fn(Seq<Coordinate>) -> bool) -> bool {
    forall|j: int| 0 <= j < cs.len() ==> p(#[trigger] cs[j])
}

/// Whether every branch of `bs` that fits at some origin realizes to a path with property `p`.
pub open spec fn fitting_realizations_have(
    map: GameMap,
    bs: Seq<Seq<Node>>,
    p: spec_fn(Seq<Coordinate>) -> bool,
) -> bool {
    forall|o: Coordinate, i: int|
        0 <= i < bs.len() && #[trigger] branch_fits(map, bs[i], o) ==> p(realize(bs[i], o))
}

proof fn lemma_cands_at_every(
    map: GameMap,
    bs: Seq<Seq<Node>>,
    o: Coordinate,
    p: spec_fn(Seq<Coordinate>) -> bool,
)
    requires
        fitting_realizations_have(map, bs, p),
    ensures
        every_cand(cands_at(map, bs, o), p),
    decreases bs.len(),
{
    if bs.len() > 0 {
        let init = bs.drop_last();
        assert forall|o2: Coordinate, i: int|
            0 <= i < init.len() && #[trigger] branch_fits(map, init[i], o2) implies p(
            realize(init[i], o2),
        ) by {
            assert(init[i] == bs[i]);
        }
        lemma_cands_at_every(map, init, o, p);
        assert(bs.last() == bs[bs.len() - 1]);
        let rest = cands_at(map, init, o);
        let r = cands_at(map, bs, o);
        assert forall|j: int| 0 <= j < r.len() implies p(#[trigger] r[j]) by {
            if j < rest.len() {
                assert(r[j] == rest[j]);
            }
        }
    }
}

proof fn lemma_column_every(
    map: GameMap,
    bs: Seq<Seq<Node>>,
    x: u32,
    n: nat,
    p: spec_fn(Seq<Coordinate>) -> bool,
)
    requires
        fitting_realizations_have(map, bs, p),
    ensures
        every_cand(cands_column(map, bs, x, n), p),
    decreases n,
{
    if n > 0 {
        let o = Coordinate { x, y: (n - 1) as u32 };
        lemma_column_every(map, bs, x, (n - 1) as nat, p);
        lemma_cands_at_every(map, bs, o, p);
        let a = cands_column(map, bs, x, (n - 1) as nat);
        let b = origin_cands(map, bs, o);
        let r = cands_column(map, bs, x, n);
        assert forall|j: int| 0 <= j < r.len() implies p(#[trigger] r[j]) by {
            if j < a.len() {
                assert(r[j] == a[j]);
            } else {
                assert(r[j] == b[j - a.len()]);
            }
        }
    }
}

/// Every candidate has any property that all fitting realizations of the branches have.
proof fn lemma_candidates_every(
    map: GameMap,
    bs: Seq<Seq<Node>>,
    n: nat,
    p: spec_fn(Seq<Coordinate>) -> bool,
)
    requires
        fitting_realizations_have(map, bs, p),
    ensures
        every_cand(cands_upto(map, bs, n), p),
    decreases n,
{
    if n > 0 {
        lemma_candidates_every(map, bs, (n - 1) as nat, p);
        lemma_column_every(map, bs, (n - 1) as u32, map.side() as nat, p);
        let a = cands_upto(map, bs, (n - 1) as nat);
        let b = cands_column(map, bs, (n - 1) as u32, map.side() as nat);
        let r = cands_upto(map, bs, n);
        assert forall|j: int| 0 <= j < r.len() implies p(#[trigger] r[j]) by {
            if j < a.len() {
                assert(r[j] == a[j]);
            } else {
                assert(r[j] == b[j - a.len()]);
            }
        }
    }
}

/// Whether every cell of path `c` is free on `map`.
pub open spec fn all_free(map: GameMap, c: Seq<Coordinate>) -> bool {
    forall|k: int| 0 <= k < c.len() ==> map.is_free(#[trigger] c[k])
}

/// No candidate path ever passes through a cell outside the grid or an obstacle.
pub proof fn lemma_candidates_free(map: GameMap, t: Seq<TraceElement>)
    ensures
        forall|j: int|
            0 <= j < candidates(map, t).len() ==> all_free(map, #[trigger] candidates(map, t)[j]),
{
    let bs = branches(t);
    let p = |c: Seq<Coordinate>| all_free(map, c);
    assert forall|o: Coordinate, i: int|
        0 <= i < bs.len() && #[trigger] branch_fits(map, bs[i], o) implies p(realize(bs[i], o)) by {
        let c = realize(bs[i], o);
        assert forall|k: int| 0 <= k < c.len() implies map.is_free(#[trigger] c[k]) by {
            assert(node_fits(map, bs[i][k], o));
        }
    }
    lemma_candidates_every(map, bs, map.side() as nat, p);
    assert forall|j: int| 0 <= j < candidates(map, t).len() implies all_free(
        map,
        #[trigger] candidates(map, t)[j],
    ) by {
        assert(p(candidates(map, t)[j]));
    }
}

/// Right after a clue is logged, the last cell of every candidate satisfies it.
pub proof fn lemma_newest_clue_holds(map: GameMap, t: Seq<TraceElement>, q: IntelQuestion)
    ensures
        forall|j: int|
            0 <= j < candidates(map, t.push(TraceElement::Intel(q))).len() ==> {
                let c = #[trigger] candidates(map, t.push(TraceElement::Intel(q)))[j];
                c.len() > 0 && clue_holds(map.side(), q, c.last())
            },
{
    let t2 = t.push(TraceElement::Intel(q));
    assert(t2.drop_last() =~= t);
    let before = branches(t);
    let bs = branches(t2);
    assert(bs == intel_step(before, q));
    lemma_branches_shape(t);
    let p = |c: Seq<Coordinate>| c.len() > 0 && clue_holds(map.side(), q, c.last());
    assert forall|o: Coordinate, i: int|
        0 <= i < bs.len() && #[trigger] branch_fits(map, bs[i], o) implies p(realize(bs[i], o)) by {
        let b = before[i];
        assert(within(b, 4 * (t.len() as int)));
        let a = bs[i];
        assert(a == attach(b, q));
        let last = a.len() - 1;
        assert(a[last].intel == b.last().intel.push(q));
        assert(node_fits(map, a[last], o));
        assert(a[last].intel[a[last].intel.len() - 1] == q);
        let c = realize(a, o);
        assert(c.last() == c[last]);
    }
    lemma_candidates_every(map, bs, map.side() as nat, p);
    assert forall|j: int| 0 <= j < candidates(map, t2).len() implies {
        let c = #[trigger] candidates(map, t2)[j];
        c.len() > 0 && clue_holds(map.side(), q, c.last())
    } by {
        assert(p(candidates(map, t2)[j]));
    }
}

/// After a quadrant clue, every candidate ends in that quadrant when the answer
/// was yes, and outside it when the answer was no.
pub proof fn lemma_quadrant_clue(
    map: GameMap,
    t: Seq<TraceElement>,
    quadrant: Quadrant,
    answer: bool,
)
    ensures
        forall|j: int|
            0 <= j < candidates(
                map,
                t.push(TraceElement::Intel(IntelQuestion::InQuadrant { quadrant, answer })),
            ).len() ==> {
                let c = #[trigger] candidates(
                    map,
                    t.push(TraceElement::Intel(IntelQuestion::InQuadrant { quadrant, answer })),
                )[j];
                c.len() > 0 && (quadrant_spec(map.side(), c.last()) == Some(quadrant)) == answer
            },
{
    lemma_newest_clue_holds(map, t, IntelQuestion::InQuadrant { quadrant, answer });
}


/// Number of moves in the log `t`.
pub open spec fn move_count(t: Seq<TraceElement>) -> nat
    decreases t.len(),
{
    if t.len() == 0 {
        0
    } else {
        move_count(t.drop_last()) + if t.last() is Move {
            1nat
        } else {
            0nat
        }
    }
}

/// Whether the entry at `i`, if a directed move, left some branch of the log
/// before it unblocked.
pub open spec fn accepted_at(t: Seq<TraceElement>, i: int) -> bool {
    match t[i] {
        TraceElement::Move(Move::Directed(d)) => exists|j: int|
            0 <= j < branches(t.take(i)).len() && !blocked(#[trigger] branches(t.take(i))[j], d),
        _ => true,
    }
}

/// Whether every directed move of `t` was admissible when it was logged.
pub open spec fn directed_moves_accepted(t: Seq<TraceElement>) -> bool {
    forall|i: int| 0 <= i < t.len() ==> #[trigger] accepted_at(t, i)
}

/// A directed move is refused exactly when no branch would survive it.
pub proof fn lemma_refusal_iff_no_survivor(t: Seq<TraceElement>, d: Direction)
    ensures
        (forall|j: int| 0 <= j < branches(t).len() ==> blocked(#[trigger] branches(t)[j], d))
            <==> branches(t.push(TraceElement::Move(Move::Directed(d)))).len() == 0,
{
    let t2 = t.push(TraceElement::Move(Move::Directed(d)));
    assert(t2.drop_last() =~= t);
    lemma_directed_step_empty(branches(t), d);
}

proof fn lemma_directed_step_empty(bs: Seq<Seq<Node>>, d: Direction)
    ensures
        (forall|j: int| 0 <= j < bs.len() ==> blocked(#[trigger] bs[j], d)) <==> directed_step(
            bs,
            d,
        ).len() == 0,
    decreases bs.len(),
{
    if bs.len() > 0 {
        let init = bs.drop_last();
        lemma_directed_step_empty(init, d);
        assert(bs.last() == bs[bs.len() - 1]);
        if forall|j: int| 0 <= j < bs.len() ==> blocked(#[trigger] bs[j], d) {
            assert forall|j: int| 0 <= j < init.len() implies blocked(#[trigger] init[j], d) by {
                assert(init[j] == bs[j]);
            }
        } else if directed_step(init, d).len() == 0 && blocked(bs.last(), d) {
            assert forall|j: int| 0 <= j < bs.len() implies blocked(#[trigger] bs[j], d) by {
                if j < init.len() {
                    assert(init[j] == bs[j]);
                }
            }
        }
    }
}

/// A log without dashes whose directed moves were all accepted has exactly one
/// branch, one node longer than its number of moves.
pub proof fn lemma_no_dash_single_branch(t: Seq<TraceElement>)
    requires
        forall|i: int| 0 <= i < t.len() ==> #[trigger] t[i] != TraceElement::Move(Move::Dash),
        directed_moves_accepted(t),
    ensures
        branches(t).len() == 1,
        branches(t)[0].len() == move_count(t) + 1,
    decreases t.len(),
{
    if t.len() > 0 {
        let init = t.drop_last();
        assert forall|i: int| 0 <= i < init.len() implies #[trigger] init[i] != TraceElement::Move(
            Move::Dash,
        ) by {
            assert(init[i] == t[i]);
        }
        assert forall|i: int| 0 <= i < init.len() implies #[trigger] accepted_at(init, i) by {
            assert(init.take(i) =~= t.take(i));
            assert(t[i] == init[i]);
            assert(accepted_at(t, i));
        }
        lemma_no_dash_single_branch(init);
        let bs = branches(init);
        let b = bs[0];
        assert(t.last() == t[t.len() - 1]);
        match t.last() {
            TraceElement::Move(Move::Directed(d)) => {
                assert(t.take(t.len() - 1) =~= init);
                assert(accepted_at(t, t.len() - 1));
                let j = choose|j: int| 0 <= j < bs.len() && !blocked(#[trigger] bs[j], d);
                assert(bs.drop_last() =~= Seq::<Seq<Node>>::empty());
                assert(bs.last() == b);
                assert(j == 0);
                assert(directed_step(bs.drop_last(), d) =~= Seq::<Seq<Node>>::empty());
                assert(directed_step(bs, d) =~= seq![extend(b, d)]);
            },
            TraceElement::Move(Move::Dash) => {},
            TraceElement::Intel(q) => {
                lemma_branches_shape(init);
                assert(within(bs[0], 4 * (init.len() as int)));
            },
        }
    }
}

/// Logging an entry and then undoing it gives back exactly the earlier candidates.
pub proof fn lemma_undo_restores(map: GameMap, t: Seq<TraceElement>, e: TraceElement)
    ensures
        candidates(map, t.push(e).drop_last()) == candidates(map, t),
        branches(t.push(e).drop_last()) == branches(t),
{
    assert(t.push(e).drop_last() =~= t);
}

/// A dash from any branch of a log gives at most 16 branches; each one extends
/// that branch by 1 to 4 cells, never visits a cell twice, and within one
/// direction the extensions have distinct lengths, shortest first.
pub proof fn lemma_dash_extensions(t: Seq<TraceElement>, i: int)
    requires
        0 <= i < branches(t).len(),
    ensures
        dash_branch(branches(t)[i]).len() <= 16,
        forall|j: int|
            0 <= j < dash_branch(branches(t)[i]).len() ==> {
                let e = #[trigger] dash_branch(branches(t)[i])[j];
                let b = branches(t)[i];
                &&& self_avoiding(e)
                &&& b.len() + 1 <= e.len() <= b.len() + 4
                &&& e.subrange(0, b.len() as int) == b
            },
        forall|d: Direction, j: int|
            0 <= j < dash_run(branches(t)[i], d, 4).len() ==> (#[trigger] dash_run(
                branches(t)[i],
                d,
                4,
            )[j]).len() == branches(t)[i].len() + j + 1,
{
    let b = branches(t)[i];
    lemma_branches_shape(t);
    let m = 4 * (t.len() as int);
    assert(within(b, m) && self_avoiding(b));
    lemma_dash_branch(b, m);
    assert forall|d: Direction, j: int| 0 <= j < dash_run(b, d, 4).len() implies (
    #[trigger] dash_run(b, d, 4)[j]).len() == b.len() + j + 1 by {
        lemma_dash_run(b, d, 4, m);
    }
}


/// Whether `b` runs straight from the origin in direction `d`, one cell per node.
pub open spec fn straight(b: Seq<Node>, d: Direction) -> bool {
    &&& b.len() >= 1
    &&& forall|k: int| 0 <= k < b.len() ==> (#[trigger] b[k]).pos == (k * delta_spec(d).0, k * delta_spec(d).1)
}

proof fn lemma_straight_run(b: Seq<Node>, d: Direction, n: nat)
    requires
        straight(b, d),
    ensures
        dash_run(b, d, n).len() == n,
    decreases n,
{
    if n > 0 {
        let len = b.len() as int;
        assert(b.last() == b[len - 1]);
        let p = next_pos(b, d);
        match d {
            Direction::North => assert(p == (0int, -len)),
            Direction::East => assert(p == (len, 0int)),
            Direction::South => assert(p == (0int, len)),
            Direction::West => assert(p == (-len, 0int)),
        }
        if visits(b, p) {
            let k = choose|k: int| 0 <= k < b.len() && #[trigger] b[k].pos == p;
            assert(b[k].pos == (k * delta_spec(d).0, k * delta_spec(d).1));
        }
        let e = extend(b, d);
        assert forall|k: int| 0 <= k < e.len() implies (#[trigger] e[k]).pos == (k * delta_spec(
            d,
        ).0, k * delta_spec(d).1) by {
            if k < len {
                assert(e[k] == b[k]);
            }
        }
        lemma_straight_run(e, d, (n - 1) as nat);
    }
}

/// On an empty log a dash yields all 16 branches: four directions, one to four cells each.
pub proof fn lemma_first_dash_sixteen()
    ensures
        branches(seq![TraceElement::Move(Move::Dash)]).len() == 16,
{
    let t = seq![TraceElement::Move(Move::Dash)];
    assert(t.drop_last() =~= Seq::<TraceElement>::empty());
    let bs = initial_branches();
    let b = bs[0];
    assert(bs.drop_last() =~= Seq::<Seq<Node>>::empty());
    assert(bs.last() == b);
    assert(dash_step(bs.drop_last()) =~= Seq::<Seq<Node>>::empty());
    assert(dash_step(bs) =~= dash_branch(b));
    assert(branches(t.drop_last()) == bs);
    assert(branches(t) == dash_step(bs));
    assert(b.len() == 1 && b[0].pos == (0int, 0int));
    assert forall|d: Direction| straight(b, d) by {
        assert forall|k: int| 0 <= k < b.len() implies (#[trigger] b[k]).pos == (k * delta_spec(
            d,
        ).0, k * delta_spec(d).1) by {
            assert(k == 0);
        }
    }
    lemma_straight_run(b, Direction::North, 4);
    lemma_straight_run(b, Direction::East, 4);
    lemma_straight_run(b, Direction::South, 4);
    lemma_straight_run(b, Direction::West, 4);
}

} // verus!
