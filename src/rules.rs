use vstd::prelude::*;
use crate::stone::{Stone, opponent};

verus! {

/// The mathematical model of a game: where the stones are, the board's
/// extent, and whose turn it is.
pub ghost struct GameView {
    pub id: u64,
    pub stones: Map<(int, int), Stone>,
    pub extent: int,
    pub turn: Stone,
}

/// Both axes of `p` lie in `[0, extent)`.
pub open spec fn in_bounds(extent: int, p: (int, int)) -> bool {
    0 <= p.0 < extent && 0 <= p.1 < extent
}

/// `p` and `q` are orthogonal neighbours.
pub open spec fn adjacent(p: (int, int), q: (int, int)) -> bool {
    ||| (p.0 == q.0 && (p.1 == q.1 + 1 || q.1 == p.1 + 1))
    ||| (p.1 == q.1 && (p.0 == q.0 + 1 || q.0 == p.0 + 1))
}

/// Every stone of the view lies on the board.
pub open spec fn stones_in_bounds(g: GameView) -> bool {
    forall|p: (int, int)| #[trigger] g.stones.contains_key(p) ==> in_bounds(g.extent, p)
}

/// The stone at `p`, if any.
pub open spec fn stone_at(stones: Map<(int, int), Stone>, p: (int, int)) -> Option<Stone> {
    if stones.contains_key(p) {
        Some(stones[p])
    } else {
        None
    }
}

/// `s` is closed under stepping to an orthogonal neighbour that holds a
/// stone of colour `color`.
pub open spec fn closed_under(stones: Map<(int, int), Stone>, color: Stone, s: Set<(int, int)>) -> bool {
    forall|p: (int, int), q: (int, int)|
        #![trigger s.contains(p), adjacent(p, q)]
        s.contains(p) && adjacent(p, q) && stone_at(stones, q) == Some(color) ==> s.contains(q)
}

/// `m` belongs to the group of colour `color` grown from `start`: it lies in
/// every set that contains `start` and is closed under same-colour adjacency.
pub open spec fn in_group(stones: Map<(int, int), Stone>, color: Stone, start: (int, int), m: (int, int)) -> bool {
    forall|s: Set<(int, int)>|
        #[trigger] closed_under(stones, color, s) && s.contains(start) ==> s.contains(m)
}

/// `q` is an empty point of the board next to `m`, other than `placed`
/// (the point where a stone is being put).
pub open spec fn is_liberty(g: GameView, placed: (int, int), m: (int, int), q: (int, int)) -> bool {
    adjacent(m, q) && in_bounds(g.extent, q) && !g.stones.contains_key(q) && q != placed
}

/// The group of colour `color` grown from `start` has a liberty once
/// `placed` is taken.
pub open spec fn group_has_liberty(g: GameView, color: Stone, placed: (int, int), start: (int, int)) -> bool {
    exists|m: (int, int), q: (int, int)|
        in_group(g.stones, color, start, m) && #[trigger] is_liberty(g, placed, m, q)
}

/// The checks made before any legality analysis: the right player, on the
/// board, on an empty point.
pub open spec fn placeable(g: GameView, placed: (int, int), stone: Stone) -> bool {
    g.turn == stone && in_bounds(g.extent, placed) && !g.stones.contains_key(placed)
}

/// Putting `stone` at `placed` leaves the enemy group at neighbour `q`
/// without a liberty.
pub open spec fn captures_at(g: GameView, placed: (int, int), stone: Stone, q: (int, int)) -> bool {
    &&& adjacent(placed, q)
    &&& in_bounds(g.extent, q)
    &&& stone_at(g.stones, q) == Some(opponent(stone))
    &&& !group_has_liberty(g, opponent(stone), placed, q)
}

/// Neighbour `q` of `placed` makes the move legal: it is empty, or its
/// group is of the mover's colour and keeps a liberty, or it is captured.
pub open spec fn grants(g: GameView, placed: (int, int), stone: Stone, q: (int, int)) -> bool {
    &&& adjacent(placed, q)
    &&& in_bounds(g.extent, q)
    &&& {
        ||| !g.stones.contains_key(q)
        ||| (g.stones[q] == stone && group_has_liberty(g, stone, placed, q))
        ||| captures_at(g, placed, stone, q)
    }
}

/// Putting `stone` at `placed` is a legal move.
pub open spec fn is_legal(g: GameView, placed: (int, int), stone: Stone) -> bool {
    placeable(g, placed, stone) && exists|q: (int, int)| #[trigger] grants(g, placed, stone, q)
}

/// The stones removed by putting `stone` at `placed`: every enemy group
/// next to `placed` that is left without a liberty, in its entirety.
pub open spec fn captured(g: GameView, placed: (int, int), stone: Stone) -> Set<(int, int)> {
    Set::new(
        |m: (int, int)|
            exists|q: (int, int)|
                #[trigger] captures_at(g, placed, stone, q) && in_group(g.stones, opponent(stone), q, m),
    )
}

/// The game after the legal move of `stone` at `placed`.
pub open spec fn after_move(g: GameView, placed: (int, int), stone: Stone) -> GameView {
    GameView {
        id: g.id,
        stones: g.stones.remove_keys(captured(g, placed, stone)).insert(placed, stone),
        extent: g.extent,
        turn: opponent(stone),
    }
}

/// A same-colour neighbour of a member of a group is a member too.
pub proof fn lemma_group_step(
    stones: Map<(int, int), Stone>,
    color: Stone,
    start: (int, int),
    p: (int, int),
    q: (int, int),
)
    requires
        in_group(stones, color, start, p),
        adjacent(p, q),
        stone_at(stones, q) == Some(color),
    ensures
        in_group(stones, color, start, q),
{
    assert forall|s: Set<(int, int)>|
        #[trigger] closed_under(stones, color, s) && s.contains(start) implies s.contains(q) by {
        assert(s.contains(p));
    }
}

/// The start of a group is a member of it.
pub proof fn lemma_group_start(stones: Map<(int, int), Stone>, color: Stone, start: (int, int))
    ensures
        in_group(stones, color, start, start),
{
}

/// A closed set that holds the start holds the whole group.
pub proof fn lemma_group_within(
    stones: Map<(int, int), Stone>,
    color: Stone,
    start: (int, int),
    s: Set<(int, int)>,
    m: (int, int),
)
    requires
        closed_under(stones, color, s),
        s.contains(start),
        in_group(stones, color, start, m),
    ensures
        s.contains(m),
{
}

/// A member of a group is its start or a stone of the group's colour.
pub proof fn lemma_group_member(stones: Map<(int, int), Stone>, color: Stone, start: (int, int), m: (int, int))
    requires
        in_group(stones, color, start, m),
    ensures
        m == start || stone_at(stones, m) == Some(color),
{
    let s = Set::new(|x: (int, int)| x == start || stone_at(stones, x) == Some(color));
    assert(closed_under(stones, color, s));
    assert(s.contains(m));
}

/// Every captured point is a stone of the board.
pub proof fn lemma_captured_on_board(g: GameView, placed: (int, int), stone: Stone, m: (int, int))
    requires
        stones_in_bounds(g),
        captured(g, placed, stone).contains(m),
    ensures
        stone_at(g.stones, m) == Some(opponent(stone)),
        in_bounds(g.extent, m),
{
    let q = choose|q: (int, int)|
        #[trigger] captures_at(g, placed, stone, q) && in_group(g.stones, opponent(stone), q, m);
    lemma_group_member(g.stones, opponent(stone), q, m);
}

/// A move onto an occupied point or off the board is not legal.
pub proof fn lemma_blocked_move_rejected(g: GameView, placed: (int, int), stone: Stone)
    requires
        !in_bounds(g.extent, placed) || g.stones.contains_key(placed),
    ensures
        !is_legal(g, placed, stone),
{
}

/// A legal move passes the turn to the other colour.
pub proof fn lemma_turn_alternates(g: GameView, placed: (int, int), stone: Stone)
    requires
        is_legal(g, placed, stone),
    ensures
        after_move(g, placed, stone).turn == opponent(g.turn),
        after_move(g, placed, stone).turn != g.turn,
{
}

/// The game after trying each move of `moves` in turn: a legal move is
/// played, any other leaves the game as it was.
pub open spec fn play_all(g: GameView, moves: Seq<((int, int), Stone)>) -> GameView
    decreases moves.len(),
{
    if moves.len() == 0 {
        g
    } else {
        let h = play_all(g, moves.drop_last());
        let m = moves.last();
        if is_legal(h, m.0, m.1) {
            after_move(h, m.0, m.1)
        } else {
            h
        }
    }
}

/// How many of the moves of `moves`, tried in turn, were legal.
pub open spec fn successes(g: GameView, moves: Seq<((int, int), Stone)>) -> nat
    decreases moves.len(),
{
    if moves.len() == 0 {
        0
    } else {
        let h = play_all(g, moves.drop_last());
        let m = moves.last();
        successes(g, moves.drop_last()) + if is_legal(h, m.0, m.1) {
            1nat
        } else {
            0nat
        }
    }
}

/// Whatever moves are tried, the turn has changed hands once per legal move:
/// it is back with the first player after an even number of them.
pub proof fn lemma_turn_parity(g: GameView, moves: Seq<((int, int), Stone)>)
    ensures
        play_all(g, moves).turn == if successes(g, moves) % 2 == 0 {
            g.turn
        } else {
            opponent(g.turn)
        },
    decreases moves.len(),
{
    if moves.len() > 0 {
        lemma_turn_parity(g, moves.drop_last());
    }
}

/// A stone put next to an empty point of the board is always legal,
/// whatever stands elsewhere.
pub proof fn lemma_liberty_makes_legal(g: GameView, placed: (int, int), stone: Stone, q: (int, int))
    requires
        placeable(g, placed, stone),
        adjacent(placed, q),
        in_bounds(g.extent, q),
        !g.stones.contains_key(q),
    ensures
        is_legal(g, placed, stone),
{
    assert(grants(g, placed, stone, q));
}

/// An enemy stone next to `placed` with no same-colour neighbour and every
/// other neighbour held by the mover is captured: the move is legal, the
/// enemy stone goes and the new stone stays.
pub proof fn lemma_lone_stone_captured(g: GameView, placed: (int, int), stone: Stone, q: (int, int))
    requires
        stones_in_bounds(g),
        placeable(g, placed, stone),
        adjacent(placed, q),
        stone_at(g.stones, q) == Some(opponent(stone)),
        forall|r: (int, int)|
            adjacent(q, r) && in_bounds(g.extent, r) && r != placed ==> #[trigger] stone_at(g.stones, r)
                == Some(stone),
    ensures
        is_legal(g, placed, stone),
        captured(g, placed, stone).contains(q),
        !after_move(g, placed, stone).stones.contains_key(q),
        after_move(g, placed, stone).stones[placed] == stone,
{
    let foe = opponent(stone);
    let alone = set![q];
    assert forall|p: (int, int), r: (int, int)|
        #![trigger alone.contains(p), adjacent(p, r)]
        alone.contains(p) && adjacent(p, r) && stone_at(g.stones, r) == Some(foe) implies alone.contains(r) by {
        if r != placed && in_bounds(g.extent, r) {
            assert(stone_at(g.stones, r) == Some(stone));
        }
    }
    assert(closed_under(g.stones, foe, alone));
    assert(!group_has_liberty(g, foe, placed, q)) by {
        if group_has_liberty(g, foe, placed, q) {
            let (m, l) = choose|m: (int, int), l: (int, int)|
                in_group(g.stones, foe, q, m) && #[trigger] is_liberty(g, placed, m, l);
            lemma_group_within(g.stones, foe, q, alone, m);
            assert(stone_at(g.stones, l) == Some(stone));
        }
    }
    assert(captures_at(g, placed, stone, q));
    assert(grants(g, placed, stone, q));
    lemma_group_start(g.stones, foe, q);
    assert(captured(g, placed, stone).contains(q));
}

/// Once a stone of colour `stone` stands at `placed`, every member of the
/// group grown from an allied neighbour `q` belongs to the group of
/// `placed`.
proof fn lemma_ally_group_joins(g: GameView, placed: (int, int), stone: Stone, q: (int, int), m: (int, int))
    requires
        !g.stones.contains_key(placed),
        adjacent(placed, q),
        stone_at(g.stones, q) == Some(stone),
        in_group(g.stones, stone, q, m),
    ensures
        in_group(g.stones.insert(placed, stone), stone, placed, m),
{
    let after = g.stones.insert(placed, stone);
    assert forall|s: Set<(int, int)>| #[trigger]
        closed_under(after, stone, s) && s.contains(placed) implies s.contains(m) by {
        assert(stone_at(after, q) == Some(stone));
        assert(s.contains(q));
        assert forall|p: (int, int), r: (int, int)|
            #![trigger s.contains(p), adjacent(p, r)]
            s.contains(p) && adjacent(p, r) && stone_at(g.stones, r) == Some(stone) implies s.contains(r) by {
            assert(stone_at(after, r) == Some(stone));
        }
        assert(closed_under(g.stones, stone, s));
    }
}

/// A move that captures nothing and leaves the group of the new stone
/// without a liberty is suicide, and is rejected.
pub proof fn lemma_suicide_rejected(g: GameView, placed: (int, int), stone: Stone)
    requires
        captured(g, placed, stone) == Set::<(int, int)>::empty(),
        !group_has_liberty(
            GameView { stones: g.stones.insert(placed, stone), ..g },
            stone,
            placed,
            placed,
        ),
    ensures
        !is_legal(g, placed, stone),
{
    let after = GameView { stones: g.stones.insert(placed, stone), ..g };
    if is_legal(g, placed, stone) {
        let q = choose|q: (int, int)| #[trigger] grants(g, placed, stone, q);
        lemma_group_start(after.stones, stone, placed);
        if !g.stones.contains_key(q) {
            assert(is_liberty(after, placed, placed, q));
        } else if g.stones[q] == stone && group_has_liberty(g, stone, placed, q) {
            let (m, l) = choose|m: (int, int), l: (int, int)|
                in_group(g.stones, stone, q, m) && #[trigger] is_liberty(g, placed, m, l);
            lemma_ally_group_joins(g, placed, stone, q, m);
            assert(is_liberty(after, placed, m, l));
        } else {
            assert(captures_at(g, placed, stone, q));
            lemma_group_start(g.stones, opponent(stone), q);
            assert(captured(g, placed, stone).contains(q));
        }
    }
}

/// The points that hold a stone of colour `color`.
pub open spec fn colored(stones: Map<(int, int), Stone>, color: Stone) -> Set<(int, int)> {
    Set::new(|p: (int, int)| stones.contains_key(p) && stones[p] == color)
}

/// The number of stones of colour `color`.
pub open spec fn count_of(stones: Map<(int, int), Stone>, color: Stone) -> nat {
    colored(stones, color).len()
}

} // verus!
