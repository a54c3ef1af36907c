//! Hex geometry: axial coordinates, the six directions, cell validity on the
//! radius-4 board, distances, rays, and knight leap targets.

use vstd::prelude::*;

verus! {

/// Axial coordinates for the hex grid. The third coordinate s = -q - r is
/// implicit.
#[derive(Debug, Clone, Copy, PartialEq, Eq, Hash, Structural)]
pub struct HexCoord {
    pub q: i32,
    pub r: i32,
}

/// The board radius: cells satisfy max(|q|, |r|, |q + r|) <= 4.
pub const BOARD_RADIUS: i32 = 4;

/// Number of valid cells on a radius-4 hex board.
pub const TOTAL_CELLS: usize = 61;

/// Coordinates whose components are small enough that adding a handful of
/// unit steps can never overflow `i32`.
pub open spec fn coord_in_range(c: HexCoord) -> bool {
    -1000000 <= c.q <= 1000000 && -1000000 <= c.r <= 1000000
}

/// Absolute value over mathematical integers.
pub open spec fn abs_int(i: int) -> int {
    if i < 0 {
        -i
    } else {
        i
    }
}

/// Maximum of two mathematical integers.
pub open spec fn max_int(a: int, b: int) -> int {
    if a < b {
        b
    } else {
        a
    }
}

/// A coordinate inside the 9 x 9 box that the board stores; hex-invalid
/// corner cells of the box can hold pieces but are not part of the playing
/// area.
pub open spec fn cell_in_box(c: HexCoord) -> bool {
    -4 <= c.q <= 4 && -4 <= c.r <= 4
}

/// A cell is on the board iff all three hex coordinates have magnitude at
/// most 4.
pub open spec fn spec_valid_cell(q: int, r: int) -> bool {
    -4 <= q <= 4 && -4 <= r <= 4 && -4 <= q + r <= 4
}

impl HexCoord {
    pub fn new(q: i32, r: i32) -> (c: Self)
        ensures
            c.q == q,
            c.r == r,
    {
        Self { q, r }
    }

    /// The implicit third coordinate, s = -q - r.
    pub fn s(&self) -> (s: i32)
        requires
            coord_in_range(*self),
        ensures
            s == -self.q - self.r,
    {
        -self.q - self.r
    }
}

/// Six cardinal directions on the hex grid.
#[derive(Debug, Clone, Copy, PartialEq, Eq, Hash, Structural)]
pub enum Direction {
    N,
    S,
    NE,
    SW,
    NW,
    SE,
}

/// Change in q when stepping one cell in direction `d`.
pub open spec fn dir_dq(d: Direction) -> int {
    match d {
        Direction::N => 0,
        Direction::S => 0,
        Direction::NE => 1,
        Direction::SW => -1,
        Direction::NW => -1,
        Direction::SE => 1,
    }
}

/// Change in r when stepping one cell in direction `d`.
pub open spec fn dir_dr(d: Direction) -> int {
    match d {
        Direction::N => -1,
        Direction::S => 1,
        Direction::NE => -1,
        Direction::SW => 1,
        Direction::NW => 0,
        Direction::SE => 0,
    }
}

/// The direction pointing the opposite way.
pub open spec fn spec_opposite(d: Direction) -> Direction {
    match d {
        Direction::N => Direction::S,
        Direction::S => Direction::N,
        Direction::NE => Direction::SW,
        Direction::SW => Direction::NE,
        Direction::NW => Direction::SE,
        Direction::SE => Direction::NW,
    }
}

/// The fixed listing order of the six directions.
pub open spec fn spec_all_directions() -> Seq<Direction> {
    seq![
        Direction::N,
        Direction::S,
        Direction::NE,
        Direction::SW,
        Direction::NW,
        Direction::SE,
    ]
}

/// The four diagonal directions, used by the chariot.
pub open spec fn spec_diagonals() -> Seq<Direction> {
    seq![Direction::NE, Direction::NW, Direction::SE, Direction::SW]
}

/// The four directions of an A-variant lance.
pub open spec fn spec_lance_a_directions() -> Seq<Direction> {
    seq![Direction::N, Direction::S, Direction::NW, Direction::SE]
}

/// The four directions of a B-variant lance.
pub open spec fn spec_lance_b_directions() -> Seq<Direction> {
    seq![Direction::N, Direction::S, Direction::NE, Direction::SW]
}

impl Direction {
    /// The (dq, dr) delta for this direction.
    pub fn delta(&self) -> (d: (i32, i32))
        ensures
            d.0 == dir_dq(*self),
            d.1 == dir_dr(*self),
    {
        match self {
            Direction::N => (0, -1),
            Direction::S => (0, 1),
            Direction::NE => (1, -1),
            Direction::SW => (-1, 1),
            Direction::NW => (-1, 0),
            Direction::SE => (1, 0),
        }
    }

    /// The opposite direction.
    pub fn opposite(&self) -> (o: Direction)
        ensures
            o == spec_opposite(*self),
    {
        match self {
            Direction::N => Direction::S,
            Direction::S => Direction::N,
            Direction::NE => Direction::SW,
            Direction::SW => Direction::NE,
            Direction::NW => Direction::SE,
            Direction::SE => Direction::NW,
        }
    }

    /// All six directions, in the fixed listing order.
    pub fn all() -> (v: Vec<Direction>)
        ensures
            v@ == spec_all_directions(),
    {
        let v = vec![
            Direction::N,
            Direction::S,
            Direction::NE,
            Direction::SW,
            Direction::NW,
            Direction::SE,
        ];
        assert(v@ =~= spec_all_directions());
        v
    }

    /// Diagonal directions (NE, NW, SE, SW), used by the chariot.
    pub fn diagonals() -> (v: Vec<Direction>)
        ensures
            v@ == spec_diagonals(),
    {
        let v = vec![Direction::NE, Direction::NW, Direction::SE, Direction::SW];
        assert(v@ =~= spec_diagonals());
        v
    }

    /// Lance A directions (N, S, NW, SE).
    pub fn lance_a() -> (v: Vec<Direction>)
        ensures
            v@ == spec_lance_a_directions(),
    {
        let v = vec![Direction::N, Direction::S, Direction::NW, Direction::SE];
        assert(v@ =~= spec_lance_a_directions());
        v
    }

    /// Lance B directions (N, S, NE, SW).
    pub fn lance_b() -> (v: Vec<Direction>)
        ensures
            v@ == spec_lance_b_directions(),
    {
        let v = vec![Direction::N, Direction::S, Direction::NE, Direction::SW];
        assert(v@ =~= spec_lance_b_directions());
        v
    }
}

/// The cell one step from `c` in direction `d`, as a spec value.
pub open spec fn coord_step(c: HexCoord, d: Direction) -> HexCoord {
    HexCoord { q: (c.q + dir_dq(d)) as i32, r: (c.r + dir_dr(d)) as i32 }
}

/// Check whether a coordinate lies on the 61-cell board.
pub fn is_valid_cell(coord: HexCoord) -> (valid: bool)
    ensures
        valid == spec_valid_cell(coord.q as int, coord.r as int),
{
    if coord.q < -4 || coord.q > 4 || coord.r < -4 || coord.r > 4 {
        false
    } else {
        let s: i32 = coord.q + coord.r;
        -4 <= s && s <= 4
    }
}

/// Add a direction vector to a coordinate.
pub fn add_direction(coord: HexCoord, direction: Direction) -> (c: HexCoord)
    requires
        coord_in_range(coord),
    ensures
        c == coord_step(coord, direction),
        c.q == coord.q + dir_dq(direction),
        c.r == coord.r + dir_dr(direction),
{
    let d: (i32, i32) = direction.delta();
    HexCoord { q: coord.q + d.0, r: coord.r + d.1 }
}

/// The neighbor of `coord` in direction `direction`, or None if the step
/// leaves the board.
pub fn get_neighbor(coord: HexCoord, direction: Direction) -> (n: Option<HexCoord>)
    requires
        coord_in_range(coord),
    ensures
        n == spec_neighbor(coord, direction),
{
    let neighbor = add_direction(coord, direction);
    if is_valid_cell(neighbor) {
        Some(neighbor)
    } else {
        None
    }
}

/// The on-board neighbor in a direction, if any.
pub open spec fn spec_neighbor(c: HexCoord, d: Direction) -> Option<HexCoord> {
    let n = coord_step(c, d);
    if spec_valid_cell(c.q + dir_dq(d), c.r + dir_dr(d)) {
        Some(n)
    } else {
        None
    }
}

/// The valid neighbors of `c`, in direction listing order.
pub open spec fn spec_neighbors(c: HexCoord) -> Seq<HexCoord> {
    spec_all_directions().map_values(|d: Direction| spec_neighbor(c, d)).filter(
        |o: Option<HexCoord>| o is Some,
    ).map_values(|o: Option<HexCoord>| o->Some_0)
}

/// All valid neighbors of a cell.
pub fn get_neighbors(coord: HexCoord) -> (v: Vec<HexCoord>)
    requires
        coord_in_range(coord),
    ensures
        v@ == spec_neighbors(coord),
{
    let dirs = Direction::all();
    let mut v: Vec<HexCoord> = Vec::new();
    let mut i: usize = 0;
    while i < dirs.len()
        invariant
            coord_in_range(coord),
            dirs@ == spec_all_directions(),
            i <= dirs.len(),
            v@ == dirs@.subrange(0, i as int).map_values(
                |d: Direction| spec_neighbor(coord, d),
            ).filter(|o: Option<HexCoord>| o is Some).map_values(
                |o: Option<HexCoord>| o->Some_0,
            ),
        decreases dirs.len() - i,
    {
        let ghost prefix = dirs@.subrange(0, i as int).map_values(
            |d: Direction| spec_neighbor(coord, d),
        );
        if let Some(n) = get_neighbor(coord, dirs[i]) {
            v.push(n);
        }
        proof {
            let next = dirs@.subrange(0, i + 1 as int).map_values(
                |d: Direction| spec_neighbor(coord, d),
            );
            assert(dirs@.subrange(0, i + 1 as int).drop_last() =~= dirs@.subrange(0, i as int));
            assert(next.drop_last() =~= prefix);
            reveal_with_fuel(Seq::filter, 2);
            assert(next =~= prefix.push(spec_neighbor(coord, dirs@[i as int])));
        }
        i = i + 1;
    }
    proof {
        assert(dirs@.subrange(0, dirs@.len() as int) =~= dirs@);
    }
    v
}

/// Hex distance: the largest componentwise difference of the three hex
/// coordinates.
pub open spec fn spec_hex_distance(a: HexCoord, b: HexCoord) -> int {
    max_int(
        max_int(abs_int(a.q - b.q), abs_int(a.r - b.r)),
        abs_int((a.q + a.r) - (b.q + b.r)),
    )
}

/// Calculate the hex distance between two coordinates.
pub fn hex_distance(a: HexCoord, b: HexCoord) -> (d: i32)
    requires
        coord_in_range(a),
        coord_in_range(b),
    ensures
        d == spec_hex_distance(a, b),
{
    let dq: i32 = a.q - b.q;
    let dr: i32 = a.r - b.r;
    let ds: i32 = (-a.q - a.r) - (-b.q - b.r);
    let adq: i32 = if dq < 0 { -dq } else { dq };
    let adr: i32 = if dr < 0 { -dr } else { dr };
    let ads: i32 = if ds < 0 { -ds } else { ds };
    let m: i32 = if adq < adr { adr } else { adq };
    if m < ads { ads } else { m }
}

/// The unique direction `d` with `to == from + k * delta(d)` for some k > 0,
/// if the two cells are aligned; None otherwise (including from == to).
pub open spec fn spec_get_direction(from: HexCoord, to: HexCoord) -> Option<Direction> {
    let dq = to.q - from.q;
    let dr = to.r - from.r;
    if dq == 0 && dr == 0 {
        None
    } else if dq == 0 {
        if dr < 0 {
            Some(Direction::N)
        } else {
            Some(Direction::S)
        }
    } else if dr == 0 {
        if dq > 0 {
            Some(Direction::SE)
        } else {
            Some(Direction::NW)
        }
    } else if dq == -dr {
        if dq > 0 {
            Some(Direction::NE)
        } else {
            Some(Direction::SW)
        }
    } else {
        None
    }
}

/// Direction from one cell to another, when they lie on a common hex line.
pub fn get_direction(from: HexCoord, to: HexCoord) -> (d: Option<Direction>)
    requires
        coord_in_range(from),
        coord_in_range(to),
    ensures
        d == spec_get_direction(from, to),
{
    let dq: i32 = to.q - from.q;
    let dr: i32 = to.r - from.r;
    if dq == 0 && dr == 0 {
        None
    } else if dq == 0 {
        if dr < 0 {
            Some(Direction::N)
        } else {
            Some(Direction::S)
        }
    } else if dr == 0 {
        if dq > 0 {
            Some(Direction::SE)
        } else {
            Some(Direction::NW)
        }
    } else if dq == -dr {
        if dq > 0 {
            Some(Direction::NE)
        } else {
            Some(Direction::SW)
        }
    } else {
        None
    }
}

/// Coordinate that strictly increases by 1 with each step in direction `d`.
pub open spec fn dir_proj(c: HexCoord, d: Direction) -> int {
    match d {
        Direction::N => -c.r as int,
        Direction::S => c.r as int,
        Direction::NE => c.q as int,
        Direction::SW => -c.q as int,
        Direction::NW => -c.q as int,
        Direction::SE => c.q as int,
    }
}

/// The ordered cells reached from `c` by repeated unit steps in direction
/// `d`, stopping at the first off-board step; `c` itself is excluded.
pub open spec fn spec_ray(c: HexCoord, d: Direction) -> Seq<HexCoord>
    decreases 5 - dir_proj(c, d),
{
    let n = coord_step(c, d);
    if !spec_valid_cell(c.q + dir_dq(d), c.r + dir_dr(d)) {
        Seq::empty()
    } else {
        seq![n] + spec_ray(n, d)
    }
}

/// All cells along a direction from a starting point, exclusive of the start.
pub fn get_ray(start: HexCoord, direction: Direction) -> (cells: Vec<HexCoord>)
    requires
        coord_in_range(start),
    ensures
        cells@ == spec_ray(start, direction),
{
    let mut cells: Vec<HexCoord> = Vec::new();
    let mut current = start;
    #[verifier::loop_isolation(true)]
    loop
        invariant
            coord_in_range(current),
            spec_ray(start, direction) == cells@ + spec_ray(current, direction),
        ensures
            cells@ == spec_ray(start, direction),
        decreases 5 - dir_proj(current, direction),
    {
        let next = add_direction(current, direction);
        if !is_valid_cell(next) {
            proof {
                assert(spec_ray(current, direction) =~= Seq::<HexCoord>::empty());
                assert(cells@ + Seq::<HexCoord>::empty() =~= cells@);
            }
            break;
        }
        proof {
            assert(spec_ray(current, direction) =~= seq![next] + spec_ray(next, direction));
            assert(cells@ + (seq![next] + spec_ray(next, direction)) =~= cells@.push(next)
                + spec_ray(next, direction));
        }
        cells.push(next);
        current = next;
    }
    cells
}

/// Every cell of a ray is on the board, and the i-th cell is exactly
/// `c + (i + 1) * delta(d)`: the ray and its start lie on one hex line.
pub proof fn lemma_ray_on_line(c: HexCoord, d: Direction)
    ensures
        forall|i: int|
            0 <= i < spec_ray(c, d).len() ==> {
                let cell = #[trigger] spec_ray(c, d)[i];
                &&& spec_valid_cell(cell.q as int, cell.r as int)
                &&& cell.q == c.q + (i + 1) * dir_dq(d)
                &&& cell.r == c.r + (i + 1) * dir_dr(d)
            },
    decreases 5 - dir_proj(c, d),
{
    let n = coord_step(c, d);
    if spec_valid_cell(c.q + dir_dq(d), c.r + dir_dr(d)) {
        lemma_ray_on_line(n, d);
        assert forall|i: int| 0 <= i < spec_ray(c, d).len() implies {
            let cell = #[trigger] spec_ray(c, d)[i];
            &&& spec_valid_cell(cell.q as int, cell.r as int)
            &&& cell.q == c.q + (i + 1) * dir_dq(d)
            &&& cell.r == c.r + (i + 1) * dir_dr(d)
        } by {
            if i == 0 {
                assert(spec_ray(c, d)[0] == n);
                assert(n.q == c.q + dir_dq(d));
                assert(n.r == c.r + dir_dr(d));
                assert(c.q + 1 * dir_dq(d) == c.q + dir_dq(d));
                assert(c.r + 1 * dir_dr(d) == c.r + dir_dr(d));
            } else {
                let cell = spec_ray(c, d)[i];
                assert(cell == spec_ray(n, d)[i - 1]);
                assert(cell.q == n.q + i * dir_dq(d));
                assert(cell.r == n.r + i * dir_dr(d));
                assert(n.q + i * dir_dq(d) == c.q + (i + 1) * dir_dq(d)) by (nonlinear_arith)
                    requires
                        n.q == c.q + dir_dq(d),
                {}
                assert(n.r + i * dir_dr(d) == c.r + (i + 1) * dir_dr(d)) by (nonlinear_arith)
                    requires
                        n.r == c.r + dir_dr(d),
                {}
            }
        }
    }
}

/// Hex distance from a cell to itself is zero.
pub proof fn lemma_hex_distance_self(a: HexCoord)
    ensures
        spec_hex_distance(a, a) == 0,
{
}

/// Hex distance is symmetric.
pub proof fn lemma_hex_distance_symmetric(a: HexCoord, b: HexCoord)
    ensures
        spec_hex_distance(a, b) == spec_hex_distance(b, a),
{
}

/// One unit step in any direction moves hex distance exactly 1.
pub proof fn lemma_hex_distance_step(a: HexCoord, d: Direction)
    requires
        coord_in_range(a),
    ensures
        spec_hex_distance(a, coord_step(a, d)) == 1,
{
}

/// First compact index of the row with the given q, for q in -4..=5; row q
/// holds the cells ordered before row q + 1.
pub open spec fn row_offset(q: int) -> int {
    if q <= -4 {
        0
    } else if q == -3 {
        5
    } else if q == -2 {
        11
    } else if q == -1 {
        18
    } else if q == 0 {
        26
    } else if q == 1 {
        35
    } else if q == 2 {
        43
    } else if q == 3 {
        50
    } else if q == 4 {
        56
    } else {
        61
    }
}

/// Smallest valid r in the row with the given q.
pub open spec fn row_lo(q: int) -> int {
    if q < 0 {
        -4 - q
    } else {
        -4
    }
}

/// Largest valid r in the row with the given q.
pub open spec fn row_hi(q: int) -> int {
    if q > 0 {
        4 - q
    } else {
        4
    }
}

/// Position of a valid cell in the canonical (q ascending, r ascending)
/// ordering of the 61 cells.
pub open spec fn cell_ord(c: HexCoord) -> int {
    row_offset(c.q as int) + c.r - row_lo(c.q as int)
}

/// The valid cell at a given position of the canonical ordering.
pub open spec fn cell_at_ord(i: int) -> HexCoord {
    let q: int = if i < 5 {
        -4
    } else if i < 11 {
        -3
    } else if i < 18 {
        -2
    } else if i < 26 {
        -1
    } else if i < 35 {
        0
    } else if i < 43 {
        1
    } else if i < 50 {
        2
    } else if i < 56 {
        3
    } else {
        4
    };
    HexCoord { q: q as i32, r: (row_lo(q) + i - row_offset(q)) as i32 }
}

/// The canonical ordering is a bijection between the valid cells and
/// 0..61.
pub proof fn lemma_cell_ord_bijection()
    ensures
        forall|c: HexCoord|
            spec_valid_cell(c.q as int, c.r as int) ==> 0 <= #[trigger] cell_ord(c) < 61,
        forall|c: HexCoord|
            spec_valid_cell(c.q as int, c.r as int) ==> cell_at_ord(#[trigger] cell_ord(c)) == c,
        forall|i: int|
            0 <= i < 61 ==> spec_valid_cell(
                #[trigger] cell_at_ord(i).q as int,
                cell_at_ord(i).r as int,
            ) && cell_ord(cell_at_ord(i)) == i,
{
}

/// All 61 valid cells, in canonical (q ascending, r ascending) order. Exactly
/// the coordinates accepted by `is_valid_cell` appear, each once.
pub fn get_all_cells() -> (cells: Vec<HexCoord>)
    ensures
        cells@.len() == 61,
        forall|i: int|
            0 <= i < 61 ==> spec_valid_cell(
                (#[trigger] cells@[i]).q as int,
                cells@[i].r as int,
            ) && cell_ord(cells@[i]) == i,
        forall|c: HexCoord|
            spec_valid_cell(c.q as int, c.r as int) ==> cells@[cell_ord(c)] == c,
{
    let mut cells: Vec<HexCoord> = Vec::new();
    let mut q: i32 = -4;
    while q <= 4
        invariant
            -4 <= q <= 5,
            cells@.len() == row_offset(q as int),
            forall|i: int|
                0 <= i < cells@.len() ==> spec_valid_cell(
                    (#[trigger] cells@[i]).q as int,
                    cells@[i].r as int,
                ) && cell_ord(cells@[i]) == i,
        decreases 5 - q,
    {
        let mut r: i32 = -4;
        while r <= 4
            invariant
                -4 <= q <= 4,
                -4 <= r <= 5,
                cells@.len() == row_offset(q as int) + (if r > row_lo(q as int) {
                    (if r as int <= row_hi(q as int) + 1 {
                        r - row_lo(q as int)
                    } else {
                        row_hi(q as int) + 1 - row_lo(q as int)
                    })
                } else {
                    0
                }),
                forall|i: int|
                    0 <= i < cells@.len() ==> spec_valid_cell(
                        (#[trigger] cells@[i]).q as int,
                        cells@[i].r as int,
                    ) && cell_ord(cells@[i]) == i,
            decreases 5 - r,
        {
            let coord = HexCoord { q, r };
            if is_valid_cell(coord) {
                cells.push(coord);
            }
            r = r + 1;
        }
        q = q + 1;
    }
    proof {
        lemma_cell_ord_bijection();
        assert forall|c: HexCoord| spec_valid_cell(c.q as int, c.r as int) implies cells@[cell_ord(
            c,
        )] == c by {
            assert(cells@[cell_ord(c)] == cell_at_ord(cell_ord(cells@[cell_ord(c)])));
        }
    }
    cells
}


/// Cells strictly between `cur` and `to` walking direction `d`, None when
/// the walk leaves the board or cannot reach `to`.
pub open spec fn between_walk(cur: HexCoord, to: HexCoord, d: Direction) -> Option<Seq<HexCoord>>
    decreases dir_proj(to, d) - dir_proj(cur, d),
{
    if dir_proj(to, d) - dir_proj(cur, d) <= 0 {
        None
    } else {
        let n = coord_step(cur, d);
        if n == to {
            Some(Seq::empty())
        } else if !spec_valid_cell(cur.q + dir_dq(d), cur.r + dir_dr(d)) {
            None
        } else {
            match between_walk(n, to, d) {
                Some(s) => Some(seq![n] + s),
                None => None,
            }
        }
    }
}

/// The cells strictly between two aligned cells, in walking order; None for
/// unaligned cells and for walks that leave the board.
pub open spec fn spec_cells_between(from: HexCoord, to: HexCoord) -> Option<Seq<HexCoord>> {
    match spec_get_direction(from, to) {
        Some(d) => between_walk(from, to, d),
        None => None,
    }
}

/// Aligned cells lie a positive number of steps apart along their
/// direction.
proof fn lemma_direction_aligned(from: HexCoord, to: HexCoord)
    requires
        coord_in_range(from),
        coord_in_range(to),
        spec_get_direction(from, to) is Some,
    ensures
        ({
            let d = spec_get_direction(from, to)->Some_0;
            let k = dir_proj(to, d) - dir_proj(from, d);
            &&& k >= 1
            &&& to.q == from.q + k * dir_dq(d)
            &&& to.r == from.r + k * dir_dr(d)
        }),
{
    let d = spec_get_direction(from, to)->Some_0;
    let k = dir_proj(to, d) - dir_proj(from, d);
    let dq = to.q - from.q;
    let dr = to.r - from.r;
    assert(to.q == from.q + k * dir_dq(d) && to.r == from.r + k * dir_dr(d) && k >= 1)
        by (nonlinear_arith)
        requires
            ({
                let dq = to.q - from.q;
                let dr = to.r - from.r;
                &&& k == dir_proj(to, d) - dir_proj(from, d)
                &&& (dir_dq(d) == 0 || dir_dq(d) == 1 || dir_dq(d) == -1)
                &&& (dir_dr(d) == 0 || dir_dr(d) == 1 || dir_dr(d) == -1)
                &&& !(dir_dq(d) == 0 && dir_dr(d) == 0)
                &&& (if dq == 0 && dr == 0 {
                    false
                } else if dq == 0 {
                    dir_dq(d) == 0 && (if dr < 0 {
                        dir_dr(d) == -1 && k == -dr && dir_proj(to, d) == -to.r as int
                            && dir_proj(from, d) == -from.r as int
                    } else {
                        dir_dr(d) == 1 && k == dr && dir_proj(to, d) == to.r as int
                            && dir_proj(from, d) == from.r as int
                    })
                } else if dr == 0 {
                    dir_dr(d) == 0 && (if dq > 0 {
                        dir_dq(d) == 1 && k == dq && dir_proj(to, d) == to.q as int
                            && dir_proj(from, d) == from.q as int
                    } else {
                        dir_dq(d) == -1 && k == -dq && dir_proj(to, d) == -to.q as int
                            && dir_proj(from, d) == -from.q as int
                    })
                } else if dq == -dr {
                    (if dq > 0 {
                        dir_dq(d) == 1 && dir_dr(d) == -1 && k == dq && dir_proj(to, d)
                            == to.q as int && dir_proj(from, d) == from.q as int
                    } else {
                        dir_dq(d) == -1 && dir_dr(d) == 1 && k == -dq && dir_proj(to, d)
                            == -to.q as int && dir_proj(from, d) == -from.q as int
                    })
                } else {
                    false
                })
            }),
    {}
}

/// All cells between two aligned points, exclusive of both endpoints.
pub fn get_cells_between(from: HexCoord, to: HexCoord) -> (r: Option<Vec<HexCoord>>)
    requires
        coord_in_range(from),
        coord_in_range(to),
    ensures
        match (r, spec_cells_between(from, to)) {
            (Some(v), Some(s)) => v@ == s,
            (None, None) => true,
            _ => false,
        },
{
    let direction = match get_direction(from, to) {
        Some(d) => d,
        None => {
            return None;
        },
    };
    proof {
        lemma_direction_aligned(from, to);
    }
    let ghost k = dir_proj(to, direction) - dir_proj(from, direction);
    let mut cells: Vec<HexCoord> = Vec::new();
    let mut current = from;
    let ghost mut j: int = 0;
    #[verifier::loop_isolation(true)]
    loop
        invariant_except_break
            coord_in_range(from),
            coord_in_range(to),
            spec_get_direction(from, to) == Some(direction),
            k == dir_proj(to, direction) - dir_proj(from, direction),
            k >= 1,
            to.q == from.q + k * dir_dq(direction),
            to.r == from.r + k * dir_dr(direction),
            0 <= j < k,
            current.q == from.q + j * dir_dq(direction),
            current.r == from.r + j * dir_dr(direction),
            coord_in_range(current),
            spec_cells_between(from, to) == (match between_walk(current, to, direction) {
                Some(s) => Some(cells@ + s),
                None => None::<Seq<HexCoord>>,
            }),
        ensures
            spec_cells_between(from, to) == Some(cells@),
        decreases k - j,
    {
        proof {
            assert(dir_proj(to, direction) - dir_proj(current, direction) == k - j)
                by (nonlinear_arith)
                requires
                    current.q == from.q + j * dir_dq(direction),
                    current.r == from.r + j * dir_dr(direction),
                    to.q == from.q + k * dir_dq(direction),
                    to.r == from.r + k * dir_dr(direction),
                    dir_proj(to, direction) - dir_proj(from, direction) == k,
                    (dir_dq(direction) == 0 || dir_dq(direction) == 1 || dir_dq(direction)
                        == -1),
                    (dir_dr(direction) == 0 || dir_dr(direction) == 1 || dir_dr(direction)
                        == -1),
                    dir_proj(current, direction) == (match direction {
                        Direction::N => -current.r as int,
                        Direction::S => current.r as int,
                        Direction::NE => current.q as int,
                        Direction::SW => -current.q as int,
                        Direction::NW => -current.q as int,
                        Direction::SE => current.q as int,
                    }),
                    dir_proj(to, direction) == (match direction {
                        Direction::N => -to.r as int,
                        Direction::S => to.r as int,
                        Direction::NE => to.q as int,
                        Direction::SW => -to.q as int,
                        Direction::NW => -to.q as int,
                        Direction::SE => to.q as int,
                    }),
                    dir_proj(from, direction) == (match direction {
                        Direction::N => -from.r as int,
                        Direction::S => from.r as int,
                        Direction::NE => from.q as int,
                        Direction::SW => -from.q as int,
                        Direction::NW => -from.q as int,
                        Direction::SE => from.q as int,
                    }),
            {}
        }
        let next = add_direction(current, direction);
        proof {
            assert(next.q == from.q + (j + 1) * dir_dq(direction) && next.r == from.r + (j + 1)
                * dir_dr(direction)) by (nonlinear_arith)
                requires
                    next.q == current.q + dir_dq(direction),
                    next.r == current.r + dir_dr(direction),
                    current.q == from.q + j * dir_dq(direction),
                    current.r == from.r + j * dir_dr(direction),
            {}
            if j + 1 == k {
                assert(next == to);
            } else {
                assert(next != to) by (nonlinear_arith)
                    requires
                        next.q == from.q + (j + 1) * dir_dq(direction),
                        next.r == from.r + (j + 1) * dir_dr(direction),
                        to.q == from.q + k * dir_dq(direction),
                        to.r == from.r + k * dir_dr(direction),
                        j + 1 < k,
                        (dir_dq(direction) == 0 || dir_dq(direction) == 1 || dir_dq(direction)
                            == -1),
                        (dir_dr(direction) == 0 || dir_dr(direction) == 1 || dir_dr(direction)
                            == -1),
                        !(dir_dq(direction) == 0 && dir_dr(direction) == 0),
                {}
            }
        }
        if next.q == to.q && next.r == to.r {
            proof {
                assert(between_walk(current, to, direction) == Some(Seq::<HexCoord>::empty()));
                assert(cells@ + Seq::<HexCoord>::empty() =~= cells@);
            }
            current = next;
            break;
        }
        if !is_valid_cell(next) {
            proof {
                assert(between_walk(current, to, direction) is None);
            }
            return None;
        }
        proof {
            assert(between_walk(current, to, direction) == (match between_walk(
                next,
                to,
                direction,
            ) {
                Some(s) => Some(seq![next] + s),
                None => None::<Seq<HexCoord>>,
            }));
            match between_walk(next, to, direction) {
                Some(s) => {
                    assert(cells@ + (seq![next] + s) =~= cells@.push(next) + s);
                },
                None => {},
            }
        }
        cells.push(next);
        current = next;
        proof {
            j = j + 1;
        }
    }
    Some(cells)
}

/// Knight leap offsets: one step in a direction followed by one step in an
/// adjacent, non-opposite direction.
pub open spec fn knight_offsets() -> Seq<(int, int)> {
    seq![(1, -2), (-1, -1), (2, -1), (1, 1), (-1, 2), (-2, 1)]
}

/// The on-board knight leap targets from `from`, in offset listing order.
pub open spec fn spec_knight_targets(from: HexCoord) -> Seq<HexCoord> {
    knight_offsets().map_values(
        |o: (int, int)| HexCoord { q: (from.q + o.0) as i32, r: (from.r + o.1) as i32 },
    ).filter(|c: HexCoord| spec_valid_cell(c.q as int, c.r as int))
}

/// All valid knight leap targets from a position.
pub fn get_knight_targets(from: HexCoord) -> (v: Vec<HexCoord>)
    requires
        coord_in_range(from),
    ensures
        v@ == spec_knight_targets(from),
{
    let offsets: Vec<(i32, i32)> = vec![(1, -2), (-1, -1), (2, -1), (1, 1), (-1, 2), (-2, 1)];
    let ghost mapped = knight_offsets().map_values(
        |o: (int, int)| HexCoord { q: (from.q + o.0) as i32, r: (from.r + o.1) as i32 },
    );
    let mut v: Vec<HexCoord> = Vec::new();
    let mut i: usize = 0;
    while i < offsets.len()
        invariant
            coord_in_range(from),
            offsets@.len() == 6,
            offsets@.map_values(|o: (i32, i32)| (o.0 as int, o.1 as int)) =~= knight_offsets(),
            mapped == knight_offsets().map_values(
                |o: (int, int)| HexCoord { q: (from.q + o.0) as i32, r: (from.r + o.1) as i32 },
            ),
            i <= 6,
            v@ == mapped.subrange(0, i as int).filter(
                |c: HexCoord| spec_valid_cell(c.q as int, c.r as int),
            ),
        decreases offsets.len() - i,
    {
        let off: (i32, i32) = offsets[i];
        let coord = HexCoord { q: from.q + off.0, r: from.r + off.1 };
        proof {
            assert(knight_offsets()[i as int] == (off.0 as int, off.1 as int));
            assert(mapped[i as int] == coord);
            assert(mapped.subrange(0, i + 1 as int).drop_last() =~= mapped.subrange(0, i as int));
            reveal_with_fuel(Seq::filter, 2);
            assert(mapped.subrange(0, i + 1 as int) =~= mapped.subrange(0, i as int).push(coord));
        }
        if is_valid_cell(coord) {
            v.push(coord);
        }
        i = i + 1;
    }
    proof {
        assert(mapped.subrange(0, 6) =~= mapped);
    }
    v
}

} // verus!
