use vstd::prelude::*;
use crate::rules::{
    GameView, adjacent, after_move, captured, captures_at, closed_under, colored, count_of, grants,
    group_has_liberty, in_bounds, in_group, is_legal, is_liberty, lemma_captured_on_board,
    lemma_group_step, lemma_group_within, placeable, stone_at, stones_in_bounds,
};
use crate::stone::{Coordinate, Size, Stone, extent_of, is_legal_extent, lemma_extent_legal, opponent};

verus! {

broadcast use vstd::map_lib::group_map_properties;

/// A coordinate as a point of the model.
pub open spec fn point(c: Coordinate) -> (int, int) {
    (c.0 as int, c.1 as int)
}

/// Row-major position of `p` in a grid of the given extent.
pub open spec fn cell_index(extent: int, p: (int, int)) -> int {
    p.1 * extent + p.0
}

/// The stones held in a row-major grid of cells.
pub open spec fn stones_of(extent: int, cells: Seq<Option<Stone>>) -> Map<(int, int), Stone> {
    Map::new(
        |p: (int, int)| in_bounds(extent, p) && cells[cell_index(extent, p)] is Some,
        |p: (int, int)| cells[cell_index(extent, p)]->Some_0,
    )
}

/// A point of the board has a cell inside the grid, and no other point
/// shares it.
pub proof fn lemma_cell_index(extent: int, p: (int, int), q: (int, int))
    requires
        in_bounds(extent, p),
        in_bounds(extent, q),
    ensures
        0 <= cell_index(extent, p) < extent * extent,
        cell_index(extent, p) == cell_index(extent, q) ==> p == q,
{
    assert(0 <= p.1 * extent + p.0 < extent * extent) by (nonlinear_arith)
        requires
            0 <= p.0 < extent,
            0 <= p.1 < extent,
    ;
    if cell_index(extent, p) == cell_index(extent, q) {
        assert(p.1 == q.1) by (nonlinear_arith)
            requires
                0 <= p.0 < extent,
                0 <= q.0 < extent,
                p.1 * extent + p.0 == q.1 * extent + q.0,
        ;
    }
}

/// Writing `v` into the cell of `p` changes the stones at `p` alone.
proof fn lemma_stones_of_update(extent: int, cells: Seq<Option<Stone>>, p: (int, int), v: Option<Stone>)
    requires
        cells.len() == extent * extent,
        in_bounds(extent, p),
    ensures
        stones_of(extent, cells.update(cell_index(extent, p), v)) == (match v {
            Some(s) => stones_of(extent, cells).insert(p, s),
            None => stones_of(extent, cells).remove(p),
        }),
{
    lemma_cell_index(extent, p, p);
    let c2 = cells.update(cell_index(extent, p), v);
    let a = stones_of(extent, c2);
    let m = stones_of(extent, cells);
    let b = match v {
        Some(s) => m.insert(p, s),
        None => m.remove(p),
    };
    assert forall|q: (int, int)| #[trigger] a.contains_key(q) <==> b.contains_key(q) by {
        if in_bounds(extent, q) {
            lemma_cell_index(extent, p, q);
            lemma_cell_index(extent, q, q);
            if q != p {
                assert(c2[cell_index(extent, q)] == cells[cell_index(extent, q)]);
            }
        }
    }
    assert forall|q: (int, int)| a.contains_key(q) implies #[trigger] a[q] == b[q] by {
        lemma_cell_index(extent, p, q);
        lemma_cell_index(extent, q, q);
        if q != p {
            assert(c2[cell_index(extent, q)] == cells[cell_index(extent, q)]);
        }
    }
    assert(a =~= b);
}

/// `[q]` when `q` lies on the board, and nothing otherwise.
pub open spec fn on_board(extent: int, q: Coordinate) -> Seq<Coordinate> {
    if in_bounds(extent, point(q)) {
        seq![q]
    } else {
        Seq::empty()
    }
}

/// The orthogonal neighbours of `c` that lie on the board, in the order
/// north, east, south, west.
pub open spec fn neighbours(extent: int, c: Coordinate) -> Seq<Coordinate> {
    on_board(extent, (c.0, (c.1 - 1) as i8)) + on_board(extent, ((c.0 + 1) as i8, c.1)) + on_board(
        extent,
        (c.0, (c.1 + 1) as i8),
    ) + on_board(extent, ((c.0 - 1) as i8, c.1))
}

/// The number of marked entries.
pub open spec fn count_marked(s: Seq<bool>) -> nat
    decreases s.len(),
{
    if s.len() == 0 {
        0
    } else {
        count_marked(s.drop_last()) + if s.last() {
            1nat
        } else {
            0nat
        }
    }
}

/// No more entries are marked than there are.
proof fn lemma_count_marked_bound(s: Seq<bool>)
    ensures
        count_marked(s) <= s.len(),
    decreases s.len(),
{
    if s.len() > 0 {
        lemma_count_marked_bound(s.drop_last());
    }
}

/// Marking an unmarked entry raises the count by one.
proof fn lemma_count_marked_set(s: Seq<bool>, k: int)
    requires
        0 <= k < s.len(),
        !s[k],
    ensures
        count_marked(s.update(k, true)) == count_marked(s) + 1,
    decreases s.len(),
{
    let t = s.update(k, true);
    if k == s.len() - 1 {
        assert(t.drop_last() =~= s.drop_last());
    } else {
        assert(t.drop_last() =~= s.drop_last().update(k, true));
        lemma_count_marked_set(s.drop_last(), k);
    }
}

/// Every neighbour of `m` on the board other than `placed` holds a stone,
/// and each one of colour `color` is in `seen`.
pub open spec fn settled(g: GameView, color: Stone, placed: (int, int), seen: Set<(int, int)>, m: (int, int)) -> bool {
    forall|q: (int, int)|
        #![trigger adjacent(m, q)]
        adjacent(m, q) && in_bounds(g.extent, q) && q != placed ==> g.stones.contains_key(q) && (
        g.stones[q] == color ==> seen.contains(q))
}

/// The coordinates of `chain` are exactly the members of the group of
/// colour `color` grown from `start`.
pub open spec fn lists_group(stones: Map<(int, int), Stone>, color: Stone, start: (int, int), chain: Seq<Coordinate>) -> bool {
    forall|m: (int, int)|
        in_group(stones, color, start, m) <==> exists|i: int| 0 <= i < chain.len() && point(#[trigger] chain[i]) == m
}

/// The stones captured through the first `i` neighbours in `nbrs`.
pub open spec fn captured_through(
    g: GameView,
    placed: (int, int),
    stone: Stone,
    nbrs: Seq<Coordinate>,
    i: int,
) -> Set<(int, int)> {
    Set::new(
        |m: (int, int)|
            exists|j: int|
                0 <= j < i && captures_at(g, placed, stone, point(#[trigger] nbrs[j])) && in_group(
                    g.stones,
                    opponent(stone),
                    point(nbrs[j]),
                    m,
                ),
    )
}

/// The points named in `v`.
pub open spec fn points_of(v: Seq<Coordinate>) -> Set<(int, int)> {
    Set::new(|m: (int, int)| exists|t: int| 0 <= t < v.len() && point(#[trigger] v[t]) == m)
}

proof fn lemma_settled_grows(
    g: GameView,
    color: Stone,
    placed: (int, int),
    seen: Set<(int, int)>,
    more: Set<(int, int)>,
    m: (int, int),
)
    requires
        settled(g, color, placed, seen, m),
        seen.subset_of(more),
    ensures
        settled(g, color, placed, more, m),
{
}

fn unmarked(n: usize) -> (r: Vec<bool>)
    ensures
        r.len() == n,
        forall|k: int| 0 <= k < n ==> !r@[k],
        count_marked(r@) == 0,
{
    let mut r: Vec<bool> = Vec::new();
    while r.len() < n
        invariant
            r.len() <= n,
            forall|k: int| 0 <= k < r.len() ==> !r@[k],
            count_marked(r@) == 0,
        decreases n - r.len(),
    {
        proof {
            assert(r@.push(false).drop_last() =~= r@);
        }
        r.push(false);
    }
    r
}

/// The points on the board whose cell index is below `k` and whose cell
/// holds a stone of colour `color` (any colour when `color` is `None`).
pub open spec fn tallied(extent: int, cells: Seq<Option<Stone>>, color: Option<Stone>, k: int) -> Set<(int, int)> {
    Set::new(
        |p: (int, int)|
            in_bounds(extent, p) && cell_index(extent, p) < k && cells[cell_index(extent, p)] is Some
                && (color is None || cells[cell_index(extent, p)] == color),
    )
}

/// The points of the board whose cell index is below `k`.
pub open spec fn indexed_below(extent: int, k: int) -> Set<(int, int)> {
    Set::new(|p: (int, int)| in_bounds(extent, p) && cell_index(extent, p) < k)
}

/// Only finitely many points have a cell index below `k`.
proof fn lemma_indexed_finite(extent: int, k: int)
    requires
        extent > 0,
    ensures
        indexed_below(extent, k).finite(),
    decreases k,
{
    let t = indexed_below(extent, k);
    if k <= 0 {
        assert forall|p: (int, int)| !#[trigger] t.contains(p) by {
            if in_bounds(extent, p) {
                lemma_cell_index(extent, p, p);
            }
        }
        assert(t =~= Set::<(int, int)>::empty());
    } else {
        lemma_indexed_finite(extent, k - 1);
        let x = (((k - 1) % extent), ((k - 1) / extent));
        let bigger = indexed_below(extent, k - 1).insert(x);
        assert forall|p: (int, int)| t.contains(p) implies bigger.contains(p) by {
            if cell_index(extent, p) == k - 1 {
                vstd::arithmetic::div_mod::lemma_fundamental_div_mod_converse(k - 1, extent, p.1, p.0);
            }
        }
        vstd::set_lib::lemma_set_subset_finite(bigger, t);
    }
}

/// The point whose row-major cell index is `k`.
pub open spec fn point_of_index(extent: int, k: int) -> (int, int) {
    (k % extent, k / extent)
}

/// Every cell index of the grid belongs to a point of the board.
proof fn lemma_point_of_index(extent: int, k: int)
    requires
        0 <= k < extent * extent,
        extent > 0,
    ensures
        in_bounds(extent, point_of_index(extent, k)),
        cell_index(extent, point_of_index(extent, k)) == k,
{
    vstd::arithmetic::div_mod::lemma_fundamental_div_mod(k, extent);
    vstd::arithmetic::div_mod::lemma_mod_pos_bound(k, extent);
    vstd::arithmetic::div_mod::lemma_div_pos_is_pos(k, extent);
    let q = k / extent;
    let r = k % extent;
    assert(q < extent && q * extent + r == k) by (nonlinear_arith)
        requires
            k == extent * q + r,
            0 <= r,
            k < extent * extent,
            extent > 0,
    ;
}

/// A Go board with its stones, size and the colour to move.
pub struct Game {
    id: u64,
    cells: Vec<Option<Stone>>,
    size: Size,
    turn: Stone,
}

impl View for Game {
    type V = GameView;

    closed spec fn view(&self) -> GameView {
        GameView {
            id: self.id,
            stones: stones_of(extent_of(self.size), self.cells@),
            extent: extent_of(self.size),
            turn: self.turn,
        }
    }
}

/// A fresh game: an empty board of the given size, Black to move.
pub fn new(size: Size) -> (r: Game)
    ensures
        r@.id == 0,
        r@.stones == Map::<(int, int), Stone>::empty(),
        r@.extent == extent_of(size),
        r@.turn == Stone::Black,
{
    let cells = Game::empty_cells(size);
    let r = Game { id: 0, cells, size, turn: Stone::Black };
    assert forall|p: (int, int)| !#[trigger] r@.stones.contains_key(p) by {
        if in_bounds(extent_of(size), p) {
            lemma_cell_index(extent_of(size), p, p);
        }
    }
    assert(r@.stones =~= Map::<(int, int), Stone>::empty());
    r
}

impl Game {
    #[verifier::type_invariant]
    closed spec fn well_formed(self) -> bool {
        self.cells.len() == extent_of(self.size) * extent_of(self.size)
    }

    /// Every stone of a game lies on its board, whose extent is a legal one.
    pub proof fn lemma_view_well_formed(&self)
        ensures
            stones_in_bounds(self@),
            is_legal_extent(self@.extent),
            self@.stones.dom().finite(),
    {
        let e = self@.extent;
        let grid = indexed_below(e, e * e);
        lemma_indexed_finite(e, e * e);
        assert forall|p: (int, int)| self@.stones.dom().contains(p) implies grid.contains(p) by {
            lemma_cell_index(e, p, p);
        }
        vstd::set_lib::lemma_set_subset_finite(grid, self@.stones.dom());
    }

    fn empty_cells(size: Size) -> (r: Vec<Option<Stone>>)
        ensures
            r.len() == extent_of(size) * extent_of(size),
            forall|k: int| 0 <= k < r.len() ==> r@[k] is None,
    {
        let e = size.extent() as usize;
        let n = e * e;
        let mut cells: Vec<Option<Stone>> = Vec::new();
        while cells.len() < n
            invariant
                n == extent_of(size) * extent_of(size),
                cells.len() <= n,
                forall|k: int| 0 <= k < cells.len() ==> cells@[k] is None,
            decreases n - cells.len(),
        {
            cells.push(None);
        }
        cells
    }

    /// The colour to move.
    pub fn turn(&self) -> (r: Stone)
        ensures
            r == self@.turn,
    {
        self.turn
    }

    /// The identifier the game was made with.
    pub fn id(&self) -> (r: u64)
        ensures
            r == self@.id,
    {
        self.id
    }

    /// The board's size.
    pub fn size(&self) -> (r: Size)
        ensures
            extent_of(r) == self@.extent,
    {
        self.size
    }

    /// Whether `c` lies on the board.
    fn valid_coordinate(&self, c: Coordinate) -> (r: bool)
        ensures
            r == in_bounds(self@.extent, point(c)),
    {
        let e = self.size.extent() as i8;
        c.0 >= 0 && c.0 < e && c.1 >= 0 && c.1 < e
    }

    fn index(&self, c: Coordinate) -> (r: usize)
        requires
            in_bounds(self@.extent, point(c)),
        ensures
            r as int == cell_index(self@.extent, point(c)),
            r < self.cells.len(),
    {
        proof {
            use_type_invariant(self);
            lemma_cell_index(self@.extent, point(c), point(c));
        }
        let e = self.size.extent() as usize;
        (c.1 as usize) * e + (c.0 as usize)
    }

    /// The game whose row-major grid of cells is `cells`.
    pub(crate) fn from_cells(cells: Vec<Option<Stone>>, size: Size, turn: Stone) -> (r: Game)
        requires
            cells.len() == extent_of(size) * extent_of(size),
        ensures
            r@ == (GameView {
                id: 0,
                stones: stones_of(extent_of(size), cells@),
                extent: extent_of(size),
                turn,
            }),
    {
        Game { id: 0, cells, size, turn }
    }

    /// The stone at `c`, which lies on the board.
    pub(crate) fn at(&self, c: Coordinate) -> (r: Option<Stone>)
        requires
            in_bounds(self@.extent, point(c)),
        ensures
            r == stone_at(self@.stones, point(c)),
    {
        let k = self.index(c);
        self.cells[k]
    }

    /// The orthogonal neighbours of `c` that lie on the board, in the order
    /// north, east, south, west.
    fn adjacent_positions(&self, c: Coordinate) -> (r: Vec<Coordinate>)
        requires
            -128 < c.0 < 127,
            -128 < c.1 < 127,
        ensures
            r@ == neighbours(self@.extent, c),
            forall|i: int|
                0 <= i < r.len() ==> in_bounds(self@.extent, point(#[trigger] r@[i]))
                    && adjacent(point(c), point(r@[i])),
            forall|q: (int, int)|
                in_bounds(self@.extent, q) && adjacent(point(c), q) ==> exists|i: int|
                    0 <= i < r.len() && point(#[trigger] r@[i]) == q,
    {
        let ghost e = self@.extent;
        let x = c.0;
        let y = c.1;
        let mut r: Vec<Coordinate> = Vec::new();
        let north = (x, y - 1);
        let east = (x + 1, y);
        let south = (x, y + 1);
        let west = (x - 1, y);
        if self.valid_coordinate(north) {
            r.push(north);
        }
        assert(r@ =~= on_board(e, north));
        let ghost k_east = r.len();
        if self.valid_coordinate(east) {
            r.push(east);
        }
        assert(r@ =~= on_board(e, north) + on_board(e, east));
        let ghost k_south = r.len();
        if self.valid_coordinate(south) {
            r.push(south);
        }
        assert(r@ =~= on_board(e, north) + on_board(e, east) + on_board(e, south));
        let ghost k_west = r.len();
        if self.valid_coordinate(west) {
            r.push(west);
        }
        assert(r@ =~= neighbours(e, c));
        proof {
            assert forall|q: (int, int)|
                in_bounds(self@.extent, q) && adjacent(point(c), q) implies exists|i: int|
                    0 <= i < r.len() && point(#[trigger] r@[i]) == q by {
                if q == point(north) {
                    assert(point(r@[0]) == q);
                } else if q == point(east) {
                    assert(point(r@[k_east as int]) == q);
                } else if q == point(south) {
                    assert(point(r@[k_south as int]) == q);
                } else {
                    assert(point(r@[k_west as int]) == q);
                }
            }
        }
        r
    }

    /// Explores the group of the stone at `start` with `placed` taken as
    /// occupied: `None` when the group has a liberty, otherwise its stones.
    fn surrounded_chain(&self, placed: Coordinate, start: Coordinate) -> (r: Option<Vec<Coordinate>>)
        requires
            !self@.stones.contains_key(point(placed)),
            in_bounds(self@.extent, point(start)),
            self@.stones.contains_key(point(start)),
        ensures
            r is None <==> group_has_liberty(
                self@,
                self@.stones[point(start)],
                point(placed),
                point(start),
            ),
            r matches Some(chain) ==> lists_group(
                self@.stones,
                self@.stones[point(start)],
                point(start),
                chain@,
            ),
            r matches Some(chain) ==> chain.len() >= 1 && chain@[0] == start && chain@.no_duplicates(),
    {
        proof {
            use_type_invariant(self);
        }
        let ghost g = self@;
        let ghost e = g.extent;
        let ghost pl = point(placed);
        let ghost st = point(start);
        let color = match self.at(start) {
            Some(t) => t,
            None => Stone::Black,
        };
        let n = self.cells.len();
        let mut visited = unmarked(n);
        let k0 = self.index(start);
        proof {
            lemma_count_marked_set(visited@, k0 as int);
        }
        visited.set(k0, true);
        let ghost mut seen: Set<(int, int)> = set![st];
        proof {
            assert forall|p: (int, int)| in_bounds(e, p) implies (visited@[cell_index(e, p)] <==> seen.contains(p)) by {
                lemma_cell_index(e, p, st);
            }
        }
        let mut stack: Vec<Coordinate> = Vec::new();
        stack.push(start);
        let mut chain: Vec<Coordinate> = Vec::new();
        chain.push(start);
        assert(point(chain@[0]) == st);
        while stack.len() > 0
            invariant
                g == self@,
                e == g.extent,
                n == e * e,
                n == self.cells.len(),
                pl == point(placed),
                st == point(start),
                color == g.stones[st],
                !g.stones.contains_key(pl),
                chain.len() >= 1,
                chain@[0] == start,
                chain@.no_duplicates(),
                visited.len() == n,
                forall|p: (int, int)| #[trigger]
                    in_bounds(e, p) ==> (visited@[cell_index(e, p)] <==> seen.contains(p)),
                forall|p: (int, int)| #[trigger]
                    seen.contains(p) ==> in_bounds(e, p) && stone_at(g.stones, p) == Some(color)
                        && in_group(g.stones, color, st, p),
                seen.contains(st),
                forall|i: int| 0 <= i < stack.len() ==> seen.contains(point(#[trigger] stack@[i])),
                forall|i: int| 0 <= i < chain.len() ==> seen.contains(point(#[trigger] chain@[i])),
                forall|m: (int, int)|
                    seen.contains(m) ==> exists|i: int| 0 <= i < chain.len() && point(#[trigger] chain@[i]) == m,
                forall|m: (int, int)|
                    seen.contains(m) ==> settled(g, color, pl, seen, m) || exists|i: int|
                        0 <= i < stack.len() && point(#[trigger] stack@[i]) == m,
                count_marked(visited@) <= n,
            decreases 2 * (n - count_marked(visited@)) + stack.len(),
        {
            let ghost pre = stack@;
            let p = stack.pop().unwrap();
            let ghost old_stack = stack@;
            let ghost c0 = count_marked(visited@);
            assert(pre[pre.len() - 1] == p);
            assert(seen.contains(point(p)));
            assert forall|m: (int, int)|
                seen.contains(m) implies m == point(p) || settled(g, color, pl, seen, m) || exists|i: int|
                    0 <= i < stack.len() && point(#[trigger] stack@[i]) == m by {
                if m != point(p) && !settled(g, color, pl, seen, m) {
                    let i = choose|i: int| 0 <= i < pre.len() && point(#[trigger] pre[i]) == m;
                    assert(stack@[i] == pre[i]);
                }
            }
            let nbrs = self.adjacent_positions(p);
            let mut j: usize = 0;
            while j < nbrs.len()
                invariant
                    g == self@,
                    e == g.extent,
                    n == e * e,
                    n == self.cells.len(),
                    pl == point(placed),
                    st == point(start),
                    color == g.stones[st],
                    !g.stones.contains_key(pl),
                    chain.len() >= 1,
                    chain@[0] == start,
                    chain@.no_duplicates(),
                    visited.len() == n,
                    seen.contains(point(p)),
                    0 <= j <= nbrs.len(),
                    forall|i: int|
                        0 <= i < nbrs.len() ==> in_bounds(e, point(#[trigger] nbrs@[i]))
                            && adjacent(point(p), point(nbrs@[i])),
                    forall|i: int|
                        0 <= i < j ==> point(#[trigger] nbrs@[i]) == pl || (g.stones.contains_key(
                            point(nbrs@[i]),
                        ) && (g.stones[point(nbrs@[i])] == color ==> seen.contains(point(nbrs@[i])))),
                    forall|p: (int, int)| #[trigger]
                        in_bounds(e, p) ==> (visited@[cell_index(e, p)] <==> seen.contains(p)),
                    forall|p: (int, int)| #[trigger]
                        seen.contains(p) ==> in_bounds(e, p) && stone_at(g.stones, p) == Some(color)
                            && in_group(g.stones, color, st, p),
                    seen.contains(st),
                    forall|i: int| 0 <= i < stack.len() ==> seen.contains(point(#[trigger] stack@[i])),
                    forall|i: int| 0 <= i < chain.len() ==> seen.contains(point(#[trigger] chain@[i])),
                    forall|m: (int, int)|
                        seen.contains(m) ==> exists|i: int| 0 <= i < chain.len() && point(#[trigger] chain@[i]) == m,
                    forall|m: (int, int)|
                        seen.contains(m) ==> m == point(p) || settled(g, color, pl, seen, m) || exists|i: int|
                            0 <= i < stack.len() && point(#[trigger] stack@[i]) == m,
                    stack.len() >= old_stack.len(),
                    stack@.subrange(0, old_stack.len() as int) == old_stack,
                    count_marked(visited@) == c0 + stack.len() - old_stack.len(),
                    count_marked(visited@) <= n,
                decreases nbrs.len() - j,
            {
                let q = nbrs[j];
                if q.0 != placed.0 || q.1 != placed.1 {
                    match self.at(q) {
                        None => {
                            assert(is_liberty(g, pl, point(p), point(q)));
                            return None;
                        },
                        Some(t) => {
                            let k = self.index(q);
                            if t == color && !visited[k] {
                                proof {
                                    lemma_count_marked_set(visited@, k as int);
                                    lemma_count_marked_bound(visited@.update(k as int, true));
                                    lemma_group_step(g.stones, color, st, point(p), point(q));
                                }
                                let ghost sb = stack@;
                                let ghost cb = chain@;
                                visited.set(k, true);
                                stack.push(q);
                                chain.push(q);
                                proof {
                                    let old_seen = seen;
                                    seen = seen.insert(point(q));
                                    assert forall|x: (int, int)| #[trigger]
                                        in_bounds(e, x) implies (visited@[cell_index(e, x)] <==> seen.contains(x)) by {
                                        lemma_cell_index(e, x, point(q));
                                    }
                                    assert(point(chain@[chain.len() - 1]) == point(q));
                                    assert(point(stack@[stack.len() - 1]) == point(q));
                                    assert forall|m: (int, int)|
                                        seen.contains(m) implies m == point(p) || settled(g, color, pl, seen, m) || exists|i: int|
                                            0 <= i < stack.len() && point(#[trigger] stack@[i]) == m by {
                                        if m == point(q) {
                                            assert(point(stack@[stack.len() - 1]) == m);
                                        } else if m != point(p) {
                                            if settled(g, color, pl, old_seen, m) {
                                                lemma_settled_grows(g, color, pl, old_seen, seen, m);
                                            } else {
                                                let i = choose|i: int| 0 <= i < sb.len() && point(#[trigger] sb[i]) == m;
                                                assert(stack@[i] == sb[i]);
                                            }
                                        }
                                    }
                                    assert forall|m: (int, int)|
                                        seen.contains(m) implies exists|i: int| 0 <= i < chain.len() && point(#[trigger] chain@[i]) == m by {
                                        if m != point(q) {
                                            let i = choose|i: int| 0 <= i < cb.len() && point(#[trigger] cb[i]) == m;
                                            assert(chain@[i] == cb[i]);
                                        }
                                    }
                                }
                            }
                        },
                    }
                }
                j += 1;
            }
            proof {
                assert forall|q: (int, int)|
                    #![trigger adjacent(point(p), q)]
                    adjacent(point(p), q) && in_bounds(e, q) && q != pl implies g.stones.contains_key(q) && (
                    g.stones[q] == color ==> seen.contains(q)) by {
                    let i = choose|i: int| 0 <= i < nbrs.len() && point(#[trigger] nbrs@[i]) == q;
                }
                assert(settled(g, color, pl, seen, point(p)));
                assert forall|m: (int, int)|
                    seen.contains(m) implies settled(g, color, pl, seen, m) || exists|i: int|
                        0 <= i < stack.len() && point(#[trigger] stack@[i]) == m by {
                    if m != point(p) && !settled(g, color, pl, seen, m) {
                        let i = choose|i: int| 0 <= i < stack.len() && point(#[trigger] stack@[i]) == m;
                        assert(point(stack@[i]) == m);
                    }
                }
            }
        }
        proof {
            assert(closed_under(g.stones, color, seen)) by {
                assert forall|p: (int, int), q: (int, int)|
                    #![trigger seen.contains(p), adjacent(p, q)]
                    seen.contains(p) && adjacent(p, q) && stone_at(g.stones, q) == Some(color) implies seen.contains(q) by {
                    assert(settled(g, color, pl, seen, p));
                    assert(in_bounds(e, q));
                }
            }
            assert forall|m: (int, int)|
                in_group(g.stones, color, st, m) <==> exists|i: int|
                    0 <= i < chain.len() && point(#[trigger] chain@[i]) == m by {
                if in_group(g.stones, color, st, m) {
                    lemma_group_within(g.stones, color, st, seen, m);
                }
            }
            assert(!group_has_liberty(g, color, pl, st)) by {
                if group_has_liberty(g, color, pl, st) {
                    let (m, q) = choose|m: (int, int), q: (int, int)|
                        in_group(g.stones, color, st, m) && #[trigger] is_liberty(g, pl, m, q);
                    lemma_group_within(g.stones, color, st, seen, m);
                    assert(settled(g, color, pl, seen, m));
                }
            }
            assert(lists_group(g.stones, color, st, chain@));
        }
        Some(chain)
    }

    fn copy_cells(&self) -> (r: Vec<Option<Stone>>)
        ensures
            r@ == self.cells@,
    {
        let mut r: Vec<Option<Stone>> = Vec::new();
        let mut k: usize = 0;
        while k < self.cells.len()
            invariant
                0 <= k <= self.cells.len(),
                r@ == self.cells@.subrange(0, k as int),
            decreases self.cells.len() - k,
        {
            r.push(self.cells[k]);
            k += 1;
        }
        assert(r@ =~= self.cells@);
        r
    }

    /// Whether `stone` may be considered at `position` at all: it is that
    /// colour's turn and `position` is an empty point of the board.
    fn can_play(&self, position: Coordinate, stone: Stone) -> (r: bool)
        ensures
            r == placeable(self@, point(position), stone),
    {
        self.turn == stone && self.valid_coordinate(position) && !self.has_stone(position)
    }

    /// Plays `stone` at `position`: when the move is legal, removes every
    /// captured enemy group, puts the stone down, passes the turn and
    /// returns true; otherwise leaves the game unchanged and returns false.
    pub fn play_stone(&mut self, position: Coordinate, stone: Stone) -> (r: bool)
        ensures
            r == is_legal(old(self)@, point(position), stone),
            r ==> final(self)@ == after_move(old(self)@, point(position), stone),
            !r ==> final(self)@ == old(self)@,
    {
        if !self.can_play(position, stone) {
            return false;
        }
        proof {
            use_type_invariant(&*self);
        }
        let ghost g = self@;
        let ghost pl = point(position);
        let nbrs = self.adjacent_positions(position);
        let mut safe = false;
        let mut doomed: Vec<Coordinate> = Vec::new();
        let mut i: usize = 0;
        while i < nbrs.len()
            invariant
                g == self@,
                placeable(g, pl, stone),
                pl == point(position),
                0 <= i <= nbrs.len(),
                forall|j: int|
                    0 <= j < nbrs.len() ==> in_bounds(g.extent, point(#[trigger] nbrs@[j]))
                        && adjacent(pl, point(nbrs@[j])),
                safe == exists|j: int| 0 <= j < i && grants(g, pl, stone, point(#[trigger] nbrs@[j])),
                points_of(doomed@) == captured_through(g, pl, stone, nbrs@, i as int),
            decreases nbrs.len() - i,
        {
            let q = nbrs[i];
            let ghost qp = point(q);
            let ghost before = doomed@;
            let ghost safe0 = safe;
            assert(nbrs@[i as int] == q);
            match self.at(q) {
                None => {
                    safe = true;
                },
                Some(t) => {
                    if t == stone {
                        if !safe {
                            safe = self.surrounded_chain(position, q).is_none();
                        }
                    } else {
                        assert(t == opponent(stone));
                        match self.surrounded_chain(position, q) {
                            Some(mut chain) => {
                                let ghost cs = chain@;
                                doomed.append(&mut chain);
                                proof {
                                    assert(captures_at(g, pl, stone, qp));
                                    assert forall|m: (int, int)|
                                        points_of(doomed@).contains(m) <==> points_of(before).contains(m)
                                            || in_group(g.stones, opponent(stone), qp, m) by {
                                        if points_of(doomed@).contains(m) {
                                            let x = choose|x: int| 0 <= x < doomed@.len() && point(#[trigger] doomed@[x]) == m;
                                            if x < before.len() {
                                                assert(before[x] == doomed@[x]);
                                            } else {
                                                assert(cs[x - before.len()] == doomed@[x]);
                                            }
                                        }
                                        if points_of(before).contains(m) {
                                            let x = choose|x: int| 0 <= x < before.len() && point(#[trigger] before[x]) == m;
                                            assert(before[x] == doomed@[x]);
                                        }
                                        if in_group(g.stones, opponent(stone), qp, m) {
                                            let x = choose|x: int| 0 <= x < cs.len() && point(#[trigger] cs[x]) == m;
                                            assert(cs[x] == doomed@[before.len() + x]);
                                        }
                                    }
                                }
                                safe = true;
                            },
                            None => {},
                        }
                    }
                },
            }
            proof {
                let cur = captured_through(g, pl, stone, nbrs@, i as int);
                let next = captured_through(g, pl, stone, nbrs@, i + 1);
                assert(safe == (safe0 || grants(g, pl, stone, qp)));
                assert(safe == exists|j: int| 0 <= j < i + 1 && grants(g, pl, stone, point(#[trigger] nbrs@[j])));
                assert forall|m: (int, int)|
                    next.contains(m) <==> cur.contains(m) || (captures_at(g, pl, stone, qp) && in_group(
                        g.stones,
                        opponent(stone),
                        qp,
                        m,
                    )) by {
                    if next.contains(m) && !cur.contains(m) {
                        let j = choose|j: int|
                            0 <= j < i + 1 && captures_at(g, pl, stone, point(#[trigger] nbrs@[j])) && in_group(
                                g.stones,
                                opponent(stone),
                                point(nbrs@[j]),
                                m,
                            );
                        assert(j == i);
                    }
                }
                assert(points_of(doomed@) =~= next);
            }
            i += 1;
        }
        proof {
            assert(safe == is_legal(g, pl, stone)) by {
                if is_legal(g, pl, stone) {
                    let q = choose|q: (int, int)| #[trigger] grants(g, pl, stone, q);
                    let j = choose|j: int| 0 <= j < nbrs.len() && point(#[trigger] nbrs@[j]) == q;
                }
            }
            assert forall|m: (int, int)|
                captured(g, pl, stone).contains(m) implies captured_through(g, pl, stone, nbrs@, nbrs.len() as int).contains(m) by {
                let q = choose|q: (int, int)|
                    #[trigger] captures_at(g, pl, stone, q) && in_group(g.stones, opponent(stone), q, m);
                let j = choose|j: int| 0 <= j < nbrs.len() && point(#[trigger] nbrs@[j]) == q;
            }
            assert(points_of(doomed@) =~= captured(g, pl, stone));
        }
        if !safe {
            return false;
        }
        let mut cells = self.copy_cells();
        let mut t: usize = 0;
        while t < doomed.len()
            invariant
                0 <= t <= doomed.len(),
                placeable(g, pl, stone),
                pl == point(position),
                stones_in_bounds(g),
                points_of(doomed@) == captured(g, pl, stone),
                self@ == g,
                cells.len() == g.extent * g.extent,
                self.cells.len() == g.extent * g.extent,
                stones_of(g.extent, cells@) == g.stones.remove_keys(points_of(doomed@.subrange(0, t as int))),
            decreases doomed.len() - t,
        {
            let d = doomed[t];
            let ghost removed = points_of(doomed@.subrange(0, t as int));
            proof {
                assert(points_of(doomed@).contains(point(d))) by {
                    assert(doomed@[t as int] == d);
                }
                lemma_captured_on_board(g, pl, stone, point(d));
                lemma_stones_of_update(g.extent, cells@, point(d), None);
            }
            let k = self.index(d);
            cells.set(k, None);
            proof {
                let grown = points_of(doomed@.subrange(0, t + 1));
                assert forall|m: (int, int)| grown.contains(m) <==> removed.contains(m) || m == point(d) by {
                    if grown.contains(m) {
                        let x = choose|x: int| 0 <= x < t + 1 && point(#[trigger] doomed@.subrange(0, t + 1)[x]) == m;
                        if x < t {
                            assert(doomed@.subrange(0, t as int)[x] == doomed@.subrange(0, t + 1)[x]);
                        }
                    }
                    if removed.contains(m) {
                        let x = choose|x: int| 0 <= x < t && point(#[trigger] doomed@.subrange(0, t as int)[x]) == m;
                        assert(doomed@.subrange(0, t as int)[x] == doomed@.subrange(0, t + 1)[x]);
                    }
                    if m == point(d) {
                        assert(doomed@.subrange(0, t + 1)[t as int] == d);
                    }
                }
                assert(stones_of(g.extent, cells@) =~= g.stones.remove_keys(grown));
            }
            t += 1;
        }
        proof {
            assert(doomed@.subrange(0, doomed.len() as int) == doomed@);
            lemma_stones_of_update(g.extent, cells@, pl, Some(stone));
        }
        let k = self.index(position);
        cells.set(k, Some(stone));
        self.cells = cells;
        self.turn = stone.foe();
        true
    }

    /// The number of stones of colour `color`, or of all stones when
    /// `color` is `None`.
    fn tally(&self, color: Option<Stone>) -> (r: usize)
        ensures
            r == tallied(self@.extent, self.cells@, color, self@.extent * self@.extent).len(),
            tallied(self@.extent, self.cells@, color, self@.extent * self@.extent).finite(),
    {
        proof {
            use_type_invariant(self);
            lemma_extent_legal(self.size);
        }
        let ghost e = self@.extent;
        let n = self.cells.len();
        let mut count: usize = 0;
        let mut k: usize = 0;
        assert(tallied(e, self.cells@, color, 0) =~= Set::<(int, int)>::empty());
        while k < n
            invariant
                n == self.cells.len(),
                n == e * e,
                e == self@.extent,
                9 <= e <= 19,
                0 <= k <= n,
                count <= k,
                tallied(e, self.cells@, color, k as int).finite(),
                count == tallied(e, self.cells@, color, k as int).len(),
            decreases n - k,
        {
            let ghost before = tallied(e, self.cells@, color, k as int);
            let ghost after = tallied(e, self.cells@, color, k + 1);
            let ghost x = point_of_index(e, k as int);
            proof {
                lemma_point_of_index(e, k as int);
            }
            let hit = match self.cells[k] {
                Some(t) => match color {
                    Some(c) => t == c,
                    None => true,
                },
                None => false,
            };
            proof {
                assert forall|p: (int, int)| #[trigger] after.contains(p) <==> before.contains(p) || (hit && p == x) by {
                    if in_bounds(e, p) {
                        lemma_cell_index(e, p, x);
                    }
                }
                if hit {
                    assert(after =~= before.insert(x));
                } else {
                    assert(after =~= before);
                }
            }
            if hit {
                count += 1;
            }
            k += 1;
        }
        count
    }

    /// The number of stones on the board.
    pub fn stones(&self) -> (r: usize)
        ensures
            r == self@.stones.len(),
    {
        let r = self.tally(None);
        assert(tallied(self@.extent, self.cells@, None, self@.extent * self@.extent) =~= self@.stones.dom()) by {
            assert forall|p: (int, int)| in_bounds(self@.extent, p) implies cell_index(self@.extent, p) < self@.extent * self@.extent by {
                lemma_cell_index(self@.extent, p, p);
            }
        }
        r
    }

    /// The number of stones of colour `stone` on the board.
    pub fn player_stones(&self, stone: Stone) -> (r: usize)
        ensures
            r == count_of(self@.stones, stone),
    {
        let r = self.tally(Some(stone));
        let ghost st = self@.stones;
        assert(tallied(self@.extent, self.cells@, Some(stone), self@.extent * self@.extent) =~= colored(st, stone)) by {
            assert forall|p: (int, int)| in_bounds(self@.extent, p) implies cell_index(self@.extent, p) < self@.extent * self@.extent by {
                lemma_cell_index(self@.extent, p, p);
            }
        }
        r
    }

    /// The winner: Black, as no end of game is detected.
    pub fn winner(&self) -> (r: Stone)
        ensures
            r == Stone::Black,
    {
        Stone::Black
    }

    /// Whether a stone stands at `c`.
    pub fn has_stone(&self, c: Coordinate) -> (r: bool)
        ensures
            r == self@.stones.contains_key(point(c)),
    {
        if self.valid_coordinate(c) {
            self.at(c).is_some()
        } else {
            false
        }
    }
}

} // verus!
