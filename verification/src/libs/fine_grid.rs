//! A quadtree over a square grid of tiles: each tree node covers a square
//! and counts the closed tiles in it, so that fully open squares can be
//! found without looking at their tiles.
use crate::libs::fixed_point::div_trunc;
use vstd::arithmetic::div_mod::lemma_fundamental_div_mod_converse;
use vstd::prelude::*;

verus! {

/// An axis-aligned square: lower-left corner `(x, y)` and side `r`.
#[derive(Clone, Copy, Debug, PartialEq, Eq, Structural)]
pub struct Square {
    x: i16,
    y: i16,
    r: i16,
}

/// One of the four quarters of a square.
#[derive(Clone, Copy, Debug, PartialEq, Eq, Structural)]
pub enum Quadrant {
    NW,
    NE,
    SW,
    SE,
}

impl Square {
    /// The left edge.
    pub closed spec fn sx(self) -> int {
        self.x as int
    }

    /// The bottom edge.
    pub closed spec fn sy(self) -> int {
        self.y as int
    }

    /// The side.
    pub closed spec fn sr(self) -> int {
        self.r as int
    }

    /// The square with corner `(x, y)` and side `r`.
    pub fn new(x: i16, y: i16, r: i16) -> (s: Square)
        ensures
            s.sx() == x,
            s.sy() == y,
            s.sr() == r,
    {
        Square { x, y, r }
    }

    /// The south-west quarter.
    pub fn sw(self) -> (s: Square)
        ensures
            s.sx() == self.sx(),
            s.sy() == self.sy(),
            s.sr() == half(self.sr()),
    {
        let hr = self.r / 2;
        Square { x: self.x, y: self.y, r: hr }
    }

    /// The south-east quarter.
    pub fn se(self) -> (s: Square)
        requires
            i16::MIN <= self.sx() + half(self.sr()) <= i16::MAX,
        ensures
            s.sx() == self.sx() + half(self.sr()),
            s.sy() == self.sy(),
            s.sr() == half(self.sr()),
    {
        let hr = self.r / 2;
        let mx = self.x + hr;
        Square { x: mx, y: self.y, r: hr }
    }

    /// The north-west quarter.
    pub fn nw(self) -> (s: Square)
        requires
            i16::MIN <= self.sy() + half(self.sr()) <= i16::MAX,
        ensures
            s.sx() == self.sx(),
            s.sy() == self.sy() + half(self.sr()),
            s.sr() == half(self.sr()),
    {
        let hr = self.r / 2;
        let my = self.y + hr;
        Square { x: self.x, y: my, r: hr }
    }

    /// The north-east quarter.
    pub fn ne(self) -> (s: Square)
        requires
            i16::MIN <= self.sx() + half(self.sr()) <= i16::MAX,
            i16::MIN <= self.sy() + half(self.sr()) <= i16::MAX,
        ensures
            s.sx() == self.sx() + half(self.sr()),
            s.sy() == self.sy() + half(self.sr()),
            s.sr() == half(self.sr()),
    {
        let hr = self.r / 2;
        let mx = self.x + hr;
        let my = self.y + hr;
        Square { x: mx, y: my, r: hr }
    }

    /// Which quarter of the square `(x, y)` falls in, by comparing with its
    /// centre; points on a centre line go north or east.
    pub fn quadrant(self, x: i16, y: i16) -> (q: Quadrant)
        requires
            i16::MIN <= self.sx() + half(self.sr()) <= i16::MAX,
            i16::MIN <= self.sy() + half(self.sr()) <= i16::MAX,
        ensures
            q == quadrant_spec(self, x as int, y as int),
    {
        let cx = self.x + self.r / 2;
        let cy = self.y + self.r / 2;
        if x >= cx {
            if y >= cy {
                Quadrant::NE
            } else {
                Quadrant::SE
            }
        } else if y >= cy {
            Quadrant::NW
        } else {
            Quadrant::SW
        }
    }
}

/// Half of `r`, rounded toward zero as integer division does.
pub open spec fn half(r: int) -> int {
    div_trunc(r, 2)
}

/// The quarter of `s` that `(x, y)` falls in.
pub open spec fn quadrant_spec(s: Square, x: int, y: int) -> Quadrant {
    let cx = s.sx() + half(s.sr());
    let cy = s.sy() + half(s.sr());
    if x >= cx {
        if y >= cy {
            Quadrant::NE
        } else {
            Quadrant::SE
        }
    } else if y >= cy {
        Quadrant::NW
    } else {
        Quadrant::SW
    }
}

/// The side of the whole grid, in tiles.
pub const SIDE: i16 = 16384;

/// The position of tile `(x, y)` in the row-by-row tile vector.
pub open spec fn tile_ix(x: int, y: int) -> int {
    y * 16384 + x
}

/// Whether `r` is a power of two.
pub open spec fn is_pow2(r: int) -> bool
    decreases r,
{
    if r <= 1 {
        r == 1
    } else {
        r % 2 == 0 && is_pow2(r / 2)
    }
}

/// The number of tree nodes over a square of side `r`: one for each square
/// of side two or more in its quarterings.
pub open spec fn tree_size(r: int) -> nat
    decreases r,
{
    if r > 1 {
        1 + 4 * tree_size(r / 2)
    } else {
        0
    }
}

/// The whole grid, as a square.
pub closed spec fn root() -> Square {
    Square { x: 0, y: 0, r: 16384 }
}

/// A square of the quadtree: a power-of-two side, inside the grid.
pub closed spec fn sq_ok(s: Square) -> bool {
    &&& is_pow2(s.r as int)
    &&& 0 <= s.x
    &&& 0 <= s.y
    &&& s.x + s.r <= 16384
    &&& s.y + s.r <= 16384
}

/// Whether tile `(x, y)` lies in `s`.
pub closed spec fn in_sq(s: Square, x: int, y: int) -> bool {
    &&& s.x <= x < s.x + s.r
    &&& s.y <= y < s.y + s.r
}

/// The north-west quarter of `s`.
pub closed spec fn q_nw(s: Square) -> Square {
    Square { x: s.x, y: (s.y + s.r / 2) as i16, r: (s.r / 2) as i16 }
}

/// The north-east quarter of `s`.
pub closed spec fn q_ne(s: Square) -> Square {
    Square { x: (s.x + s.r / 2) as i16, y: (s.y + s.r / 2) as i16, r: (s.r / 2) as i16 }
}

/// The south-west quarter of `s`.
pub closed spec fn q_sw(s: Square) -> Square {
    Square { x: s.x, y: s.y, r: (s.r / 2) as i16 }
}

/// The south-east quarter of `s`.
pub closed spec fn q_se(s: Square) -> Square {
    Square { x: (s.x + s.r / 2) as i16, y: s.y, r: (s.r / 2) as i16 }
}

/// The quarter of `s` named `q`.
pub closed spec fn quarter(s: Square, q: Quadrant) -> Square {
    match q {
        Quadrant::NW => q_nw(s),
        Quadrant::NE => q_ne(s),
        Quadrant::SW => q_sw(s),
        Quadrant::SE => q_se(s),
    }
}

/// The number of closed tiles in `s`, counted quarter by quarter; `open`
/// says, for each position of the tile vector, whether that tile is open.
spec fn closed_count(open: Seq<bool>, s: Square) -> nat
    decreases s.r,
{
    if s.r <= 1 {
        if s.r == 1 && !open[tile_ix(s.x as int, s.y as int)] {
            1
        } else {
            0
        }
    } else {
        closed_count(open, quarter(s, Quadrant::NW)) + closed_count(open, quarter(s, Quadrant::NE)) + closed_count(open, quarter(s, Quadrant::SW))
            + closed_count(open, quarter(s, Quadrant::SE))
    }
}

/// The quarters of a quadtree square are quadtree squares of half the
/// side; together they hold exactly its tiles, and `quadrant_spec` names
/// the one a tile is in.
proof fn lemma_quarters(s: Square)
    requires
        sq_ok(s),
        s.r > 1,
    ensures
        sq_ok(q_nw(s)) && sq_ok(q_ne(s)) && sq_ok(q_sw(s)) && sq_ok(q_se(s)),
        q_nw(s).r == s.r / 2 && q_ne(s).r == s.r / 2 && q_sw(s).r == s.r / 2 && q_se(s).r == s.r / 2,
        s.r / 2 * 2 == s.r,
        half(s.r as int) == s.r / 2,
        s.x + half(s.r as int) <= i16::MAX,
        s.y + half(s.r as int) <= i16::MAX,
        forall|q: Quadrant| #[trigger] quarter(s, q).r == s.r / 2 && sq_ok(quarter(s, q)),
        forall|q: Quadrant, x: int, y: int| #[trigger] in_sq(quarter(s, q), x, y) ==> in_sq(s, x, y),
        forall|x: int, y: int|
            in_sq(s, x, y) ==> #[trigger] in_sq(quarter(s, quadrant_spec(s, x, y)), x, y),
        forall|q: Quadrant, x: int, y: int|
            in_sq(s, x, y) && q != quadrant_spec(s, x, y) ==> !#[trigger] in_sq(quarter(s, q), x, y),
{
    assert(is_pow2(s.r / 2));
    assert forall|q: Quadrant| #[trigger] quarter(s, q).r == s.r / 2 && sq_ok(quarter(s, q)) by {
    }
}

/// A quadtree square holds at most `r * r` closed tiles.
proof fn lemma_count_bound(open: Seq<bool>, s: Square)
    requires
        sq_ok(s),
    ensures
        closed_count(open, s) <= s.r * s.r,
    decreases s.r,
{
    if s.r > 1 {
        lemma_quarters(s);
        let h = s.r / 2;
        assert forall|q: Quadrant| closed_count(open, #[trigger] quarter(s, q)) <= h * h by {
            lemma_count_bound(open, quarter(s, q));
        }
        assert(closed_count(open, quarter(s, Quadrant::NW)) <= h * h);
        assert(closed_count(open, quarter(s, Quadrant::NE)) <= h * h);
        assert(closed_count(open, quarter(s, Quadrant::SW)) <= h * h);
        assert(closed_count(open, quarter(s, Quadrant::SE)) <= h * h);
        assert(4 * (h * h) == s.r * s.r) by (nonlinear_arith)
            requires
                h * 2 == s.r,
        ;
    } else {
        assert(s.r == 1);
    }
}

/// The count of a square depends only on its own tiles.
proof fn lemma_count_frame(a: Seq<bool>, b: Seq<bool>, s: Square)
    requires
        sq_ok(s),
        forall|x: int, y: int| in_sq(s, x, y) ==> a[tile_ix(x, y)] == b[tile_ix(x, y)],
    ensures
        closed_count(a, s) == closed_count(b, s),
    decreases s.r,
{
    if s.r > 1 {
        lemma_quarters(s);
        lemma_count_frame(a, b, quarter(s, Quadrant::NW));
        lemma_count_frame(a, b, quarter(s, Quadrant::NE));
        lemma_count_frame(a, b, quarter(s, Quadrant::SW));
        lemma_count_frame(a, b, quarter(s, Quadrant::SE));
    } else {
        assert(in_sq(s, s.x as int, s.y as int));
    }
}

/// A square with no closed tile counts none.
proof fn lemma_count_open(open: Seq<bool>, s: Square)
    requires
        sq_ok(s),
        forall|x: int, y: int| in_sq(s, x, y) ==> open[tile_ix(x, y)],
    ensures
        closed_count(open, s) == 0,
    decreases s.r,
{
    if s.r > 1 {
        lemma_quarters(s);
        lemma_count_open(open, quarter(s, Quadrant::NW));
        lemma_count_open(open, quarter(s, Quadrant::NE));
        lemma_count_open(open, quarter(s, Quadrant::SW));
        lemma_count_open(open, quarter(s, Quadrant::SE));
    } else {
        assert(in_sq(s, s.x as int, s.y as int));
    }
}

/// Opening or closing one tile changes by one the count of each square
/// that holds it, when its state changes, and no other count.
proof fn lemma_count_update(open: Seq<bool>, s: Square, ox: int, oy: int, b: bool)
    requires
        sq_ok(s),
        0 <= ox < 16384,
        0 <= oy < 16384,
        open.len() == 16384 * 16384,
    ensures
        closed_count(open.update(tile_ix(ox, oy), b), s) + (if in_sq(s, ox, oy) && !open[tile_ix(
            ox,
            oy,
        )] {
            1int
        } else {
            0
        }) == closed_count(open, s) + (if in_sq(s, ox, oy) && !b {
            1int
        } else {
            0
        }),
    decreases s.r,
{
    if s.r > 1 {
        lemma_quarters(s);
        lemma_count_update(open, quarter(s, Quadrant::NW), ox, oy, b);
        lemma_count_update(open, quarter(s, Quadrant::NE), ox, oy, b);
        lemma_count_update(open, quarter(s, Quadrant::SW), ox, oy, b);
        lemma_count_update(open, quarter(s, Quadrant::SE), ox, oy, b);
        if in_sq(s, ox, oy) {
            assert(in_sq(quarter(s, quadrant_spec(s, ox, oy)), ox, oy));
        }
    }
}

/// A tile: whether it is open, and the tree node recorded for it.
#[derive(Clone, Copy, Debug, PartialEq, Eq)]
struct Tile {
    parent: u32,
    status: bool,
}

/// A tree node: the square it covers, how many of its tiles are closed,
/// and the nodes of its quarters.
#[derive(Clone, Copy, Debug, PartialEq, Eq)]
struct Tree {
    num_closed: u32,
    nw: u32,
    ne: u32,
    sw: u32,
    se: u32,
    sqr: Square,
}

/// For each tile, whether it is open.
spec fn statuses(tiles: Seq<Tile>) -> Seq<bool> {
    tiles.map_values(|t: Tile| t.status)
}

/// The node of quarter `q`.
spec fn child(n: Tree, q: Quadrant) -> int {
    match q {
        Quadrant::NW => n.nw as int,
        Quadrant::NE => n.ne as int,
        Quadrant::SW => n.sw as int,
        Quadrant::SE => n.se as int,
    }
}

/// Where the node of quarter `q` sits after node `t`: the nodes of a square
/// come in the order north-west, north-east, south-west, south-east, each
/// followed by its own quarters.
spec fn child_pos(t: int, r: int, q: Quadrant) -> int {
    let c = tree_size(r / 2) as int;
    match q {
        Quadrant::NW => t + 1,
        Quadrant::NE => t + 1 + c,
        Quadrant::SW => t + 1 + 2 * c,
        Quadrant::SE => t + 1 + 3 * c,
    }
}

/// Node `t` covers square `s`, counts its closed tiles right, and so do the
/// nodes of its quarters, laid out after it; a node of side two names the
/// positions of its four tiles as its quarters.
spec fn node_ok(trees: Seq<Tree>, open: Seq<bool>, t: int, s: Square) -> bool
    decreases s.r,
{
    if s.r <= 1 {
        true
    } else {
        &&& 0 <= t
        &&& t + tree_size(s.r as int) <= trees.len()
        &&& trees[t].sqr == s
        &&& trees[t].num_closed == closed_count(open, s)
        &&& (s.r / 2 > 1 ==> forall|q: Quadrant|
            #![trigger child(trees[t], q)]
            child(trees[t], q) == child_pos(t, s.r as int, q))
        &&& (s.r / 2 <= 1 ==> forall|q: Quadrant|
            #![trigger child(trees[t], q)]
            child(trees[t], q) == tile_ix(quarter(s, q).x as int, quarter(s, q).y as int))
        &&& node_ok(trees, open, child(trees[t], Quadrant::NW), quarter(s, Quadrant::NW))
        &&& node_ok(trees, open, child(trees[t], Quadrant::NE), quarter(s, Quadrant::NE))
        &&& node_ok(trees, open, child(trees[t], Quadrant::SW), quarter(s, Quadrant::SW))
        &&& node_ok(trees, open, child(trees[t], Quadrant::SE), quarter(s, Quadrant::SE))
    }
}

/// The subtree of a square takes one node and four subtrees of half the side.
proof fn lemma_tree_size(r: int)
    requires
        r > 1,
    ensures
        tree_size(r) == 1 + 4 * tree_size(r / 2),
{
}

/// A node's subtree depends only on its own stretch of nodes and on its own
/// tiles.
proof fn lemma_node_frame(
    trees: Seq<Tree>,
    trees2: Seq<Tree>,
    open: Seq<bool>,
    open2: Seq<bool>,
    t: int,
    s: Square,
)
    requires
        sq_ok(s),
        node_ok(trees, open, t, s),
        s.r > 1 ==> t + tree_size(s.r as int) <= trees2.len(),
        forall|i: int| t <= i < t + tree_size(s.r as int) ==> trees2[i] == trees[i],
        forall|x: int, y: int| in_sq(s, x, y) ==> open2[tile_ix(x, y)] == open[tile_ix(x, y)],
    ensures
        node_ok(trees2, open2, t, s),
    decreases s.r,
{
    if s.r > 1 {
        lemma_quarters(s);
        lemma_count_frame(open, open2, s);
        let h = s.r / 2;
        assert(trees2[t] == trees[t]);
        assert forall|q: Quadrant|
            node_ok(trees2, open2, child(trees[t], q), #[trigger] quarter(s, q)) by {
            if h > 1 {
                let c = child(trees[t], q);
                assert(c == child_pos(t, s.r as int, q));
                assert forall|i: int| c <= i < c + tree_size(h) implies trees2[i] == trees[i] by {
                }
            }
            lemma_node_frame(trees, trees2, open, open2, child(trees[t], q), quarter(s, q));
        }
    }
}

/// A tile's position in the vector gives back its column and row.
proof fn lemma_tile_ix(x: int, y: int)
    requires
        0 <= x < 16384,
    ensures
        tile_ix(x, y) % 16384 == x,
        tile_ix(x, y) / 16384 == y,
{
    lemma_fundamental_div_mod_converse(tile_ix(x, y), 16384, y, x);
}

/// Whether the tile at position `i` of the vector lies in `s`.
spec fn ix_in_sq(s: Square, i: int) -> bool {
    in_sq(s, i % 16384, i / 16384)
}

/// Every node of a well-formed subtree covers a quadtree square.
proof fn lemma_node_squares(trees: Seq<Tree>, open: Seq<bool>, t: int, s: Square, i: int)
    requires
        sq_ok(s),
        node_ok(trees, open, t, s),
        t <= i < t + tree_size(s.r as int),
    ensures
        sq_ok(trees[i].sqr),
    decreases s.r,
{
    if s.r > 1 && i != t {
        lemma_quarters(s);
        lemma_tree_size(s.r as int);
        let h = s.r / 2;
        let c = tree_size(h as int) as int;
        let q = if i < t + 1 + c {
            Quadrant::NW
        } else if i < t + 1 + 2 * c {
            Quadrant::NE
        } else if i < t + 1 + 3 * c {
            Quadrant::SW
        } else {
            Quadrant::SE
        };
        assert(child(trees[t], q) == child_pos(t, s.r as int, q));
        lemma_node_squares(trees, open, child(trees[t], q), quarter(s, q), i);
    }
}

/// The subtree of a square is the same in any two node vectors that are
/// well formed for the same tiles.
proof fn lemma_nodes_determined(a: Seq<Tree>, b: Seq<Tree>, open: Seq<bool>, t: int, s: Square, i: int)
    requires
        sq_ok(s),
        node_ok(a, open, t, s),
        node_ok(b, open, t, s),
        t <= i < t + tree_size(s.r as int),
    ensures
        a[i] == b[i],
    decreases s.r,
{
    if s.r > 1 {
        lemma_quarters(s);
        lemma_tree_size(s.r as int);
        if i == t {
            assert(child(a[t], Quadrant::NW) == child(b[t], Quadrant::NW));
            assert(child(a[t], Quadrant::NE) == child(b[t], Quadrant::NE));
            assert(child(a[t], Quadrant::SW) == child(b[t], Quadrant::SW));
            assert(child(a[t], Quadrant::SE) == child(b[t], Quadrant::SE));
        } else {
            let h = s.r / 2;
            let c = tree_size(h as int) as int;
            let q = if i < t + 1 + c {
                Quadrant::NW
            } else if i < t + 1 + 2 * c {
                Quadrant::NE
            } else if i < t + 1 + 3 * c {
                Quadrant::SW
            } else {
                Quadrant::SE
            };
            assert(child(a[t], q) == child_pos(t, s.r as int, q));
            assert(child(b[t], q) == child_pos(t, s.r as int, q));
            lemma_nodes_determined(a, b, open, child(a[t], q), quarter(s, q), i);
        }
    }
}

/// The node of the largest square of side two or more, among node `t`'s
/// square `s` and the squares of its quarterings, that holds tile `(x, y)`
/// and no closed tile; `None` when every such square holds a closed tile.
spec fn open_node(open: Seq<bool>, t: int, s: Square, x: int, y: int) -> Option<int>
    decreases s.r,
{
    if s.r <= 1 {
        None
    } else if closed_count(open, s) == 0 {
        Some(t)
    } else {
        let q = quadrant_spec(s, x, y);
        open_node(open, child_pos(t, s.r as int, q), quarter(s, q), x, y)
    }
}

/// The largest square of side two or more, among `s` and the squares of
/// its quarterings, that holds tile `(x, y)` and no closed tile; `None`
/// when every such square holds a closed tile.
spec fn open_square(open: Seq<bool>, s: Square, x: int, y: int) -> Option<Square>
    decreases s.r,
{
    if s.r <= 1 {
        None
    } else if closed_count(open, s) == 0 {
        Some(s)
    } else {
        let q = quadrant_spec(s, x, y);
        open_square(open, quarter(s, q), x, y)
    }
}

/// A square that counts no closed tile holds only open tiles.
proof fn lemma_count_zero_all_open(open: Seq<bool>, s: Square, x: int, y: int)
    requires
        sq_ok(s),
        closed_count(open, s) == 0,
        in_sq(s, x, y),
    ensures
        open[tile_ix(x, y)],
    decreases s.r,
{
    if s.r > 1 {
        lemma_quarters(s);
        let q = quadrant_spec(s, x, y);
        assert(in_sq(quarter(s, q), x, y));
        lemma_count_zero_all_open(open, quarter(s, q), x, y);
    } else {
        assert(x == s.x && y == s.y);
    }
}

/// `open_node` names the node of the square that `open_square` finds, and
/// that square holds the tile, has side two or more and no closed tile.
proof fn lemma_open_node_square(trees: Seq<Tree>, open: Seq<bool>, t: int, s: Square, x: int, y: int)
    requires
        sq_ok(s),
        node_ok(trees, open, t, s),
        in_sq(s, x, y),
    ensures
        (open_node(open, t, s, x, y) is Some) == (open_square(open, s, x, y) is Some),
        open_node(open, t, s, x, y) matches Some(u) ==> trees[u].sqr == open_square(open, s, x, y).unwrap()
            && trees[u].num_closed == 0,
        open_square(open, s, x, y) matches Some(q) ==> sq_ok(q) && q.r >= 2 && in_sq(q, x, y)
            && closed_count(open, q) == 0,
    decreases s.r,
{
    if s.r > 1 && closed_count(open, s) != 0 {
        lemma_quarters(s);
        let q = quadrant_spec(s, x, y);
        assert(in_sq(quarter(s, q), x, y));
        if s.r / 2 > 1 {
            assert(child(trees[t], q) == child_pos(t, s.r as int, q));
        }
        assert(node_ok(trees, open, child(trees[t], q), quarter(s, q)));
        if s.r / 2 > 1 {
            lemma_open_node_square(trees, open, child_pos(t, s.r as int, q), quarter(s, q), x, y);
        } else {
            assert(quarter(s, q).r <= 1);
            assert(open_node(open, child_pos(t, s.r as int, q), quarter(s, q), x, y) is None);
            assert(open_square(open, quarter(s, q), x, y) is None);
        }
        assert(open_node(open, t, s, x, y) == open_node(open, child_pos(t, s.r as int, q), quarter(s, q), x, y));
        assert(open_square(open, s, x, y) == open_square(open, quarter(s, q), x, y));
    } else if s.r > 1 {
        assert(open_node(open, t, s, x, y) == Some(t));
        assert(trees[t].sqr == s);
    }
}

/// Every open tile of `s` that lies in a fully open square of side two or
/// more records, in `tiles`, the node of the largest such square.
#[verifier::opaque]
spec fn parents_fit(open: Seq<bool>, tiles: Seq<Tile>, t: int, s: Square) -> bool {
    forall|x: int, y: int|
        #![trigger open_node(open, t, s, x, y)]
        in_sq(s, x, y) && open[tile_ix(x, y)] && open_node(open, t, s, x, y) is Some ==> tiles[tile_ix(
            x,
            y,
        )].parent as int == open_node(open, t, s, x, y).unwrap()
}

/// What `open_node` finds depends only on the tiles of the square.
proof fn lemma_open_node_frame(a: Seq<bool>, b: Seq<bool>, t: int, s: Square, x: int, y: int)
    requires
        sq_ok(s),
        in_sq(s, x, y),
        forall|i: int, j: int| in_sq(s, i, j) ==> a[tile_ix(i, j)] == b[tile_ix(i, j)],
    ensures
        open_node(a, t, s, x, y) == open_node(b, t, s, x, y),
    decreases s.r,
{
    if s.r > 1 {
        lemma_quarters(s);
        lemma_count_frame(a, b, s);
        let q = quadrant_spec(s, x, y);
        assert(in_sq(quarter(s, q), x, y));
        lemma_open_node_frame(a, b, child_pos(t, s.r as int, q), quarter(s, q), x, y);
    }
}

/// Below a square that holds a closed tile, the quarter holding a tile
/// gives the same node as the square.
proof fn lemma_open_node_descends(open: Seq<bool>, t: int, s: Square, x: int, y: int)
    requires
        sq_ok(s),
        s.r > 1,
        in_sq(s, x, y),
        closed_count(open, s) != 0,
    ensures
        open_node(open, t, s, x, y) == open_node(
            open,
            child_pos(t, s.r as int, quadrant_spec(s, x, y)),
            quarter(s, quadrant_spec(s, x, y)),
            x,
            y,
        ),
{
}

/// A square with a closed tile passes what its tiles record on to the
/// quarter `q`.
proof fn lemma_fit_quarter(open: Seq<bool>, tiles: Seq<Tile>, t: int, s: Square, q: Quadrant)
    requires
        sq_ok(s),
        s.r > 1,
        closed_count(open, s) != 0,
        parents_fit(open, tiles, t, s),
    ensures
        parents_fit(open, tiles, child_pos(t, s.r as int, q), quarter(s, q)),
{
    reveal(parents_fit);
    lemma_quarters(s);
    assert forall|x: int, y: int|
        #![trigger open_node(open, child_pos(t, s.r as int, q), quarter(s, q), x, y)]
        in_sq(quarter(s, q), x, y) && open[tile_ix(x, y)] && open_node(
            open,
            child_pos(t, s.r as int, q),
            quarter(s, q),
            x,
            y,
        ) is Some implies tiles[tile_ix(x, y)].parent as int == open_node(
            open,
            child_pos(t, s.r as int, q),
            quarter(s, q),
            x,
            y,
        ).unwrap() by {
        assert(in_sq(s, x, y));
        if quadrant_spec(s, x, y) != q {
            assert(!in_sq(quarter(s, q), x, y));
        }
        lemma_open_node_descends(open, t, s, x, y);
        assert(open_node(open, t, s, x, y) is Some);
    }
}

/// After a tile of `s` closes: the square now holds a closed tile, so each
/// tile's node is found in its quarter; the quarters without the closed
/// tile either were fully open and now record their own nodes, or kept
/// their tiles and what they record.
proof fn lemma_close_fit(
    open0: Seq<bool>,
    open1: Seq<bool>,
    tiles0: Seq<Tile>,
    tiles1: Seq<Tile>,
    tiles2: Seq<Tile>,
    t: int,
    s: Square,
    ox: int,
    oy: int,
)
    requires
        sq_ok(s),
        s.r > 1,
        in_sq(s, ox, oy),
        open0.len() == 16384 * 16384,
        open0[tile_ix(ox, oy)],
        open1 == open0.update(tile_ix(ox, oy), false),
        tiles2.len() == 16384 * 16384,
        tiles1.len() == 16384 * 16384,
        closed_count(open0, s) == 0 ==> forall|p: Quadrant, i: int|
            p != quadrant_spec(s, ox, oy) && s.r / 2 > 1 && 0 <= i < tiles1.len() && ix_in_sq(
                #[trigger] quarter(s, p),
                i,
            ) ==> #[trigger] tiles1[i].parent as int == child_pos(t, s.r as int, p),
        closed_count(open0, s) != 0 ==> tiles1 == tiles0 && parents_fit(open0, tiles0, t, s),
        forall|i: int|
            0 <= i < tiles2.len() && !ix_in_sq(quarter(s, quadrant_spec(s, ox, oy)), i)
                ==> #[trigger] tiles2[i].parent == tiles1[i].parent,
        s.r / 2 > 1 ==> parents_fit(
            open1,
            tiles2,
            child_pos(t, s.r as int, quadrant_spec(s, ox, oy)),
            quarter(s, quadrant_spec(s, ox, oy)),
        ),
    ensures
        parents_fit(open1, tiles2, t, s),
{
    reveal(parents_fit);
    lemma_quarters(s);
    let q = quadrant_spec(s, ox, oy);
    lemma_count_update(open0, s, ox, oy, false);
    assert(closed_count(open1, s) != 0);
    assert forall|x: int, y: int|
        #![trigger open_node(open1, t, s, x, y)]
        in_sq(s, x, y) && open1[tile_ix(x, y)] && open_node(open1, t, s, x, y) is Some implies tiles2[tile_ix(
            x,
            y,
        )].parent as int == open_node(open1, t, s, x, y).unwrap() by {
        let p = quadrant_spec(s, x, y);
        let qs = quarter(s, p);
        lemma_open_node_descends(open1, t, s, x, y);
        assert(in_sq(qs, x, y));
        assert(0 <= x < 16384 && 0 <= y < 16384);
        lemma_tile_ix(x, y);
        assert(ix_in_sq(qs, tile_ix(x, y)));
        if p == q {
        } else {
            assert(!in_sq(quarter(s, q), x, y));
            assert(!ix_in_sq(quarter(s, q), tile_ix(x, y)));
            assert(tiles2[tile_ix(x, y)].parent == tiles1[tile_ix(x, y)].parent);
            assert(!in_sq(qs, ox, oy));
            assert forall|i: int, j: int| in_sq(qs, i, j) implies open0[tile_ix(i, j)] == open1[tile_ix(i, j)] by {
                assert(in_sq(s, i, j));
                if i == ox && j == oy {
                    assert(in_sq(qs, ox, oy));
                }
                lemma_tile_ix(i, j);
                lemma_tile_ix(ox, oy);
            }
            lemma_count_frame(open0, open1, qs);
            lemma_open_node_frame(open0, open1, child_pos(t, s.r as int, p), qs, x, y);
            if closed_count(open0, s) == 0 {
                if s.r / 2 > 1 {
                    assert(closed_count(open0, qs) == 0);
                    assert(tiles1[tile_ix(x, y)].parent as int == child_pos(t, s.r as int, p));
                }
            } else {
                lemma_open_node_descends(open0, t, s, x, y);
                assert(x != ox || y != oy);
                lemma_tile_ix(ox, oy);
                assert(open0[tile_ix(x, y)]);
                assert(open_node(open0, t, s, x, y) is Some);
            }
        }
    }
}

/// `parents_fit` reads only the nodes the tiles record.
proof fn lemma_fit_same_parents(open: Seq<bool>, a: Seq<Tile>, b: Seq<Tile>, t: int, s: Square)
    requires
        a.len() == b.len(),
        a.len() == 16384 * 16384,
        sq_ok(s),
        forall|i: int| 0 <= i < a.len() ==> #[trigger] a[i].parent == b[i].parent,
        parents_fit(open, a, t, s),
    ensures
        parents_fit(open, b, t, s),
{
    reveal(parents_fit);
    assert forall|x: int, y: int|
        #![trigger open_node(open, t, s, x, y)]
        in_sq(s, x, y) && open[tile_ix(x, y)] && open_node(open, t, s, x, y) is Some implies b[tile_ix(
            x,
            y,
        )].parent as int == open_node(open, t, s, x, y).unwrap() by {
        assert(0 <= tile_ix(x, y) < 16384 * 16384);
        assert(a[tile_ix(x, y)].parent == b[tile_ix(x, y)].parent);
    }
}

/// The square that matches no square of the grid.
pub closed spec fn no_square() -> Square {
    Square { x: -1i16, y: -1i16, r: -1i16 }
}

/// The squares left after dropping each one equal to the one before it,
/// starting from `prev`; and the last square kept.
pub open spec fn dedup_state(s: Seq<Square>, prev: Square) -> (Seq<Square>, Square)
    decreases s.len(),
{
    if s.len() == 0 {
        (seq![], prev)
    } else {
        let (o, p) = dedup_state(s.drop_last(), prev);
        if s.last() != p {
            (o.push(s.last()), s.last())
        } else {
            (o, p)
        }
    }
}

/// A quadtree over a `SIDE` by `SIDE` grid of tiles, all open at first.
pub struct FineGrid {
    r: i16,
    trees: Vec<Tree>,
    tiles: Vec<Tile>,
}

impl FineGrid {
    /// Whether each tile is open, row by row.
    pub closed spec fn open_tiles(&self) -> Seq<bool> {
        statuses(self.tiles@)
    }

    /// The nodes cover the grid's quartering with right counts, and every
    /// tile's recorded node exists.
    pub closed spec fn wf(&self) -> bool {
        &&& self.r == 16384
        &&& self.tiles@.len() == 16384 * 16384
        &&& self.trees@.len() == tree_size(16384)
        &&& node_ok(self.trees@, statuses(self.tiles@), 0, root())
        &&& forall|i: int| 0 <= i < self.tiles@.len() ==> #[trigger] self.tiles@[i].parent < self.trees@.len()
        &&& self.parents_ok()
    }

    /// Every open tile that lies in a fully open square of side two or more
    /// records the node of the largest such square.
    pub closed spec fn parents_ok(&self) -> bool {
        parents_fit(statuses(self.tiles@), self.tiles@, 0, root())
    }

    /// The two grids are the same: the same side, the same tiles with the
    /// same states and recorded nodes, and the same tree nodes.
    pub closed spec fn same_state(&self, other: FineGrid) -> bool {
        &&& self.r == other.r
        &&& self.tiles@ == other.tiles@
        &&& self.trees@ == other.trees@
    }

    /// A grid whose tiles are all open again is the same as a new grid:
    /// whatever was closed and opened before, any two well-formed grids with
    /// every tile open hold the same tiles, recorded nodes and tree nodes.
    pub proof fn lemma_all_open_grids_agree(a: FineGrid, b: FineGrid)
        requires
            a.wf(),
            b.wf(),
            a.open_tiles() == Seq::new(16384 * 16384, |i: int| true),
            b.open_tiles() == Seq::new(16384 * 16384, |i: int| true),
        ensures
            a.same_state(b),
    {
        let open = statuses(a.tiles@);
        assert(statuses(b.tiles@) == open);
        reveal_with_fuel(tree_size, 15);
        assert(sq_ok(root())) by {
            reveal_with_fuel(is_pow2, 16);
        }
        assert forall|i: int| 0 <= i < a.trees@.len() implies a.trees@[i] == b.trees@[i] by {
            lemma_nodes_determined(a.trees@, b.trees@, open, 0, root(), i);
        }
        assert(a.trees@ == b.trees@);
        lemma_count_open(open, root());
        reveal(parents_fit);
        assert forall|i: int| 0 <= i < a.tiles@.len() implies a.tiles@[i] == b.tiles@[i] by {
            let x = i % 16384;
            let y = i / 16384;
            assert(tile_ix(x, y) == i);
            assert(in_sq(root(), x, y));
            assert(open[i]);
            assert(open_node(open, 0, root(), x, y) == Some(0int));
            assert(a.tiles@[i].status == open[i]);
            assert(b.tiles@[i].status == open[i]);
        }
        assert(a.tiles@ == b.tiles@);
    }

    /// A grid of `SIDE` by `SIDE` open tiles.
    pub fn new() -> (g: FineGrid)
        ensures
            g.wf(),
            g.parents_ok(),
            g.open_tiles() == Seq::new(16384 * 16384, |i: int| true),
    {
        let r: usize = 16384;
        let trees: Vec<Tree> = Vec::with_capacity((r * r * 4 - 1) / 3 - (r * r));
        let mut tiles: Vec<Tile> = Vec::with_capacity(r * r);
        let mut k: usize = 0;
        while k < r * r
            invariant
                r == 16384,
                k <= r * r,
                tiles@.len() == k,
                forall|i: int| 0 <= i < k ==> #[trigger] tiles@[i] == (Tile { parent: 0, status: true }),
            decreases r * r - k,
        {
            tiles.push(Tile { parent: 0, status: true });
            k = k + 1;
        }
        let mut fg = FineGrid { r: 16384, trees, tiles };
        proof {
            reveal_with_fuel(is_pow2, 16);
            reveal_with_fuel(tree_size, 15);
            assert(tree_size(16384) == 89478485);
            assert(sq_ok(root()));
            assert forall|x: int, y: int| in_sq(root(), x, y) implies statuses(fg.tiles@)[
                #[trigger] tile_ix(x, y)] by {
            }
        }
        let ghost tiles0 = fg.tiles@;
        fg.construct(Square::new(0, 0, 16384));
        proof {
            assert(statuses(fg.tiles@) == Seq::new(16384 * 16384, |i: int| true));
            lemma_count_open(statuses(fg.tiles@), root());
            assert forall|i: int| 0 <= i < fg.tiles@.len() && ix_in_sq(root(), i) implies #[trigger] fg.tiles@[i].parent as int == 0 by {
            }
            Self::lemma_open_all_fit(statuses(fg.tiles@), fg.tiles@, 0, root());
        }
        fg
    }

    /// Records `parent` as the node of every tile of `sqr`, for a square of
    /// side two or more.
    fn set_parents(&mut self, parent: usize, sqr: Square)
        requires
            old(self).r == 16384,
            old(self).tiles@.len() == 16384 * 16384,
            sq_ok(sqr),
            parent <= u32::MAX,
        ensures
            final(self).r == old(self).r,
            final(self).trees == old(self).trees,
            final(self).tiles@.len() == old(self).tiles@.len(),
            statuses(final(self).tiles@) == statuses(old(self).tiles@),
            forall|i: int|
                0 <= i < old(self).tiles@.len() ==> #[trigger] final(self).tiles@[i].parent == if sqr.r > 1
                    && ix_in_sq(sqr, i) {
                    parent as u32
                } else {
                    old(self).tiles@[i].parent
                },
    {
        if sqr.r > 1 {
            let y0 = sqr.y as usize;
            let y1 = y0 + sqr.r as usize;
            let x0 = sqr.x as usize;
            let x1 = x0 + sqr.r as usize;
            let mut y = y0;
            while y < y1
                invariant
                    self.r == old(self).r,
                    self.trees == old(self).trees,
                    self.tiles@.len() == old(self).tiles@.len(),
                    self.tiles@.len() == 16384 * 16384,
                    sq_ok(sqr),
                    sqr.r > 1,
                    y0 == sqr.y,
                    y1 == sqr.y + sqr.r,
                    x0 == sqr.x,
                    x1 == sqr.x + sqr.r,
                    y0 <= y <= y1,
                    parent <= u32::MAX,
                    forall|i: int|
                        0 <= i < self.tiles@.len() ==> #[trigger] self.tiles@[i].status
                            == old(self).tiles@[i].status,
                    forall|i: int|
                        0 <= i < self.tiles@.len() ==> #[trigger] self.tiles@[i].parent == if ix_in_sq(
                            sqr,
                            i,
                        ) && i / 16384 < y {
                            parent as u32
                        } else {
                            old(self).tiles@[i].parent
                        },
                decreases y1 - y,
            {
                let mut x = x0;
                while x < x1
                    invariant
                        self.r == old(self).r,
                        self.trees == old(self).trees,
                        self.tiles@.len() == 16384 * 16384,
                        sq_ok(sqr),
                        y0 == sqr.y,
                        y1 == sqr.y + sqr.r,
                        x0 == sqr.x,
                        x1 == sqr.x + sqr.r,
                        y0 <= y < y1,
                        x0 <= x <= x1,
                        parent <= u32::MAX,
                        forall|i: int|
                            0 <= i < self.tiles@.len() ==> #[trigger] self.tiles@[i].status
                                == old(self).tiles@[i].status,
                        forall|i: int|
                            0 <= i < self.tiles@.len() ==> #[trigger] self.tiles@[i].parent == if ix_in_sq(
                                sqr,
                                i,
                            ) && (i / 16384 < y || (i / 16384 == y && i % 16384 < x)) {
                                parent as u32
                            } else {
                                old(self).tiles@[i].parent
                            },
                    decreases x1 - x,
                {
                    let ix = y * 16384 + x;
                    proof {
                        lemma_tile_ix(x as int, y as int);
                    }
                    let mut tile = self.tiles[ix];
                    tile.parent = parent as u32;
                    self.tiles.set(ix, tile);
                    x = x + 1;
                }
                y = y + 1;
            }
            proof {
                assert(statuses(self.tiles@) == statuses(old(self).tiles@));
            }
        }
    }

    /// The node of quarter `q` of node `tree`, and that quarter.
    fn child_of(&self, tree: usize, sqr: Square, q: Quadrant) -> (r: (usize, Square))
        requires
            tree < self.trees@.len(),
            sq_ok(sqr),
            sqr.r > 1,
        ensures
            r.0 == child(self.trees@[tree as int], q),
            r.1 == quarter(sqr, q),
    {
        proof {
            lemma_quarters(sqr);
        }
        let node = self.trees[tree];
        match q {
            Quadrant::NW => (node.nw as usize, sqr.nw()),
            Quadrant::NE => (node.ne as usize, sqr.ne()),
            Quadrant::SW => (node.sw as usize, sqr.sw()),
            Quadrant::SE => (node.se as usize, sqr.se()),
        }
    }

    /// Records, for each quarter of `sqr` but `q`, that quarter's node as
    /// the node of its tiles (for quarters of side two or more).
    fn set_sibling_parents(&mut self, tree: usize, sqr: Square, q: Quadrant)
        requires
            old(self).r == 16384,
            old(self).tiles@.len() == 16384 * 16384,
            tree < old(self).trees@.len(),
            sq_ok(sqr),
            sqr.r > 1,
            forall|p: Quadrant| sqr.r / 2 > 1 ==> #[trigger] child(old(self).trees@[tree as int], p) < old(self).trees@.len(),
            forall|i: int| 0 <= i < old(self).tiles@.len() ==> #[trigger] old(self).tiles@[i].parent < old(self).trees@.len(),
        ensures
            forall|i: int| 0 <= i < final(self).tiles@.len() ==> #[trigger] final(self).tiles@[i].parent < final(self).trees@.len(),
            final(self).r == old(self).r,
            final(self).trees == old(self).trees,
            final(self).tiles@.len() == old(self).tiles@.len(),
            statuses(final(self).tiles@) == statuses(old(self).tiles@),
            forall|p: Quadrant, i: int|
                p != q && sqr.r / 2 > 1 && 0 <= i < old(self).tiles@.len() && ix_in_sq(#[trigger] quarter(sqr, p), i)
                    ==> #[trigger] final(self).tiles@[i].parent as int == child(old(self).trees@[tree as int], p),
            forall|i: int|
                0 <= i < old(self).tiles@.len() && (!ix_in_sq(sqr, i) || ix_in_sq(quarter(sqr, q), i))
                    ==> #[trigger] final(self).tiles@[i].parent == old(self).tiles@[i].parent,
    {
        proof {
            lemma_quarters(sqr);
        }
        let ghost n = self.trees@[tree as int];
        let ghost t0 = self.tiles@;
        if q != Quadrant::NW {
            let (c, csq) = self.child_of(tree, sqr, Quadrant::NW);
            self.set_parents(c, csq);
        }
        let ghost t1 = self.tiles@;
        if q != Quadrant::NE {
            let (c, csq) = self.child_of(tree, sqr, Quadrant::NE);
            self.set_parents(c, csq);
        }
        let ghost t2 = self.tiles@;
        if q != Quadrant::SW {
            let (c, csq) = self.child_of(tree, sqr, Quadrant::SW);
            self.set_parents(c, csq);
        }
        let ghost t3 = self.tiles@;
        if q != Quadrant::SE {
            let (c, csq) = self.child_of(tree, sqr, Quadrant::SE);
            self.set_parents(c, csq);
        }
        proof {
            assert forall|p: Quadrant, i: int|
                p != q && sqr.r / 2 > 1 && 0 <= i < t0.len() && ix_in_sq(#[trigger] quarter(sqr, p), i)
                    implies #[trigger] self.tiles@[i].parent as int == child(n, p) by {
                let x = i % 16384;
                let y = i / 16384;
                assert(in_sq(quarter(sqr, p), x, y));
                assert(in_sq(sqr, x, y));
                assert forall|p2: Quadrant| p2 != p implies !#[trigger] in_sq(quarter(sqr, p2), x, y) by {
                    if quadrant_spec(sqr, x, y) != p {
                        assert(!in_sq(quarter(sqr, p), x, y));
                    }
                }
            }
            assert forall|i: int|
                0 <= i < t0.len() && (!ix_in_sq(sqr, i) || ix_in_sq(quarter(sqr, q), i))
                    implies #[trigger] self.tiles@[i].parent == t0[i].parent by {
                let x = i % 16384;
                let y = i / 16384;
                assert forall|p2: Quadrant| p2 != q implies !#[trigger] in_sq(quarter(sqr, p2), x, y) by {
                    if in_sq(sqr, x, y) {
                        if quadrant_spec(sqr, x, y) != p2 {
                            assert(!in_sq(quarter(sqr, p2), x, y));
                        } else {
                            assert(!in_sq(quarter(sqr, q), x, y));
                        }
                    }
                }
            }
        }
    }

    /// Brings the counts of `tree` and the nodes below it up to date after
    /// the tile `(ox, oy)` of `sqr` was closed; where a fully open square
    /// gets its first closed tile, its other quarters become the recorded
    /// node of their tiles.
    #[verifier::rlimit(100)]
    fn traverse_closed(&mut self, tree: usize, ox: i16, oy: i16, sqr: Square)
        requires
            old(self).r == 16384,
            old(self).tiles@.len() == 16384 * 16384,
            old(self).trees@.len() == tree_size(16384),
            sq_ok(sqr),
            in_sq(sqr, ox as int, oy as int),
            !statuses(old(self).tiles@)[tile_ix(ox as int, oy as int)],
            node_ok(
                old(self).trees@,
                statuses(old(self).tiles@).update(tile_ix(ox as int, oy as int), true),
                tree as int,
                sqr,
            ),
            forall|i: int|
                0 <= i < old(self).tiles@.len() ==> #[trigger] old(self).tiles@[i].parent
                    < old(self).trees@.len(),
            closed_count(statuses(old(self).tiles@).update(tile_ix(ox as int, oy as int), true), sqr) == 0
                || parents_fit(
                statuses(old(self).tiles@).update(tile_ix(ox as int, oy as int), true),
                old(self).tiles@,
                tree as int,
                sqr,
            ),
        ensures
            final(self).r == old(self).r,
            final(self).tiles@.len() == old(self).tiles@.len(),
            final(self).trees@.len() == old(self).trees@.len(),
            statuses(final(self).tiles@) == statuses(old(self).tiles@),
            node_ok(final(self).trees@, statuses(final(self).tiles@), tree as int, sqr),
            forall|i: int|
                0 <= i < old(self).trees@.len() && !(tree <= i < tree + tree_size(sqr.r as int))
                    ==> #[trigger] final(self).trees@[i] == old(self).trees@[i],
            forall|i: int|
                0 <= i < final(self).tiles@.len() ==> #[trigger] final(self).tiles@[i].parent
                    < final(self).trees@.len(),
            parents_fit(statuses(final(self).tiles@), final(self).tiles@, tree as int, sqr),
            forall|i: int|
                0 <= i < old(self).tiles@.len() && !ix_in_sq(sqr, i) ==> #[trigger] final(self).tiles@[i].parent
                    == old(self).tiles@[i].parent,
        decreases sqr.r,
    {
        if sqr.r > 1 {
            let ghost open = statuses(self.tiles@);
            let ghost open0 = open.update(tile_ix(ox as int, oy as int), true);
            let ghost trees0 = self.trees@;
            let ghost tiles0 = self.tiles@;
            proof {
                lemma_quarters(sqr);
                lemma_tree_size(sqr.r as int);
                lemma_count_update(open0, sqr, ox as int, oy as int, false);
                assert(open0.update(tile_ix(ox as int, oy as int), false) == open);
                lemma_count_bound(open, sqr);
                assert(sqr.r * sqr.r <= 16384 * 16384) by (nonlinear_arith)
                    requires
                        0 < sqr.r <= 16384,
                ;
                assert(trees0[tree as int].num_closed == closed_count(open0, sqr));
            }
            let node = self.trees[tree];
            let num_closed = node.num_closed;
            let mut counted = node;
            counted.num_closed = num_closed + 1;
            self.trees.set(tree, counted);
            let q = sqr.quadrant(ox, oy);
            if num_closed == 0 {
                proof {
                    if sqr.r / 2 > 1 {
                        assert forall|p: Quadrant| #[trigger] child(self.trees@[tree as int], p) < self.trees@.len() by {
                            assert(child(trees0[tree as int], p) == child_pos(tree as int, sqr.r as int, p));
                        }
                    }
                }
                self.set_sibling_parents(tree, sqr, q);
            }
            let ghost tiles1 = self.tiles@;
            let ghost trees1 = self.trees@;
            let (c, csq) = self.child_of(tree, sqr, q);
            proof {
                let h = sqr.r / 2;
                assert(trees1 == trees0.update(tree as int, counted));
                if h > 1 {
                    assert(c == child_pos(tree as int, sqr.r as int, q));
                }
                assert(node_ok(trees0, open0, c as int, csq));
                lemma_node_frame(trees0, trees1, open0, open0, c as int, csq);
                Self::lemma_close_prepares(open0, tiles0, tiles1, tree as int, sqr, q, c as int, num_closed == 0);
            }
            self.traverse_closed(c, ox, oy, csq);
            proof {
                let h = sqr.r / 2;
                let trees2 = self.trees@;
                assert(trees2[tree as int] == counted);
                assert forall|p: Quadrant|
                    node_ok(trees2, open, child(trees2[tree as int], p), #[trigger] quarter(sqr, p)) by {
                    if p != q {
                        let cp = child(trees0[tree as int], p);
                        if h > 1 {
                            assert(cp == child_pos(tree as int, sqr.r as int, p));
                        }
                        assert forall|x: int, y: int| in_sq(quarter(sqr, p), x, y) implies open[
                            tile_ix(x, y)] == open0[tile_ix(x, y)] by {
                            assert(!in_sq(quarter(sqr, p), ox as int, oy as int));
                        }
                        lemma_node_frame(trees0, trees2, open0, open, cp, quarter(sqr, p));
                    }
                }
                Self::lemma_close_finishes(
                    open0,
                    open,
                    tiles0,
                    tiles1,
                    self.tiles@,
                    trees0,
                    tree as int,
                    sqr,
                    ox as int,
                    oy as int,
                    c as int,
                );
            }
        } else {
            proof {
                reveal(parents_fit);
            }
        }
    }

    /// Before the walk goes down into quarter `q` after a tile of `sqr`
    /// closed: the quarter was fully open, or its tiles record what
    /// `parents_fit` asks.
    proof fn lemma_close_prepares(
        open0: Seq<bool>,
        tiles0: Seq<Tile>,
        tiles1: Seq<Tile>,
        t: int,
        sqr: Square,
        q: Quadrant,
        c: int,
        was_open: bool,
    )
        requires
            sq_ok(sqr),
            sqr.r > 1,
            was_open == (closed_count(open0, sqr) == 0),
            !was_open ==> tiles1 == tiles0,
            closed_count(open0, sqr) == 0 || parents_fit(open0, tiles0, t, sqr),
            sqr.r / 2 > 1 ==> c == child_pos(t, sqr.r as int, q),
        ensures
            closed_count(open0, quarter(sqr, q)) == 0 || parents_fit(open0, tiles1, c, quarter(sqr, q)),
    {
        reveal(parents_fit);
        lemma_quarters(sqr);
        if !was_open {
            lemma_fit_quarter(open0, tiles0, t, sqr, q);
            if sqr.r / 2 <= 1 {
                assert forall|x: int, y: int|
                    #![trigger open_node(open0, c, quarter(sqr, q), x, y)]
                    in_sq(quarter(sqr, q), x, y) && open0[tile_ix(x, y)] && open_node(
                        open0,
                        c,
                        quarter(sqr, q),
                        x,
                        y,
                    ) is Some implies tiles1[tile_ix(x, y)].parent as int == open_node(
                        open0,
                        c,
                        quarter(sqr, q),
                        x,
                        y,
                    ).unwrap() by {
                }
            }
        } else {
            assert(closed_count(open0, quarter(sqr, q)) == 0);
        }
    }

    /// After the walk came back from quarter `q`: `parents_fit` holds of
    /// `sqr` (see `lemma_close_fit`), and the tiles outside `sqr` kept their
    /// nodes.
    proof fn lemma_close_finishes(
        open0: Seq<bool>,
        open1: Seq<bool>,
        tiles0: Seq<Tile>,
        tiles1: Seq<Tile>,
        tiles2: Seq<Tile>,
        trees0: Seq<Tree>,
        t: int,
        sqr: Square,
        ox: int,
        oy: int,
        c: int,
    )
        requires
            sq_ok(sqr),
            sqr.r > 1,
            in_sq(sqr, ox, oy),
            open0.len() == 16384 * 16384,
            tiles0.len() == 16384 * 16384,
            tiles1.len() == 16384 * 16384,
            tiles2.len() == 16384 * 16384,
            open1 == open0.update(tile_ix(ox, oy), false),
            open0[tile_ix(ox, oy)],
            node_ok(trees0, open0, t, sqr),
            closed_count(open0, sqr) == 0 || parents_fit(open0, tiles0, t, sqr),
            c == child(trees0[t], quadrant_spec(sqr, ox, oy)),
            closed_count(open0, sqr) == 0 ==> forall|p: Quadrant, i: int|
                p != quadrant_spec(sqr, ox, oy) && sqr.r / 2 > 1 && 0 <= i < tiles0.len() && ix_in_sq(
                    #[trigger] quarter(sqr, p),
                    i,
                ) ==> #[trigger] tiles1[i].parent as int == child(trees0[t], p),
            closed_count(open0, sqr) == 0 ==> forall|i: int|
                0 <= i < tiles0.len() && (!ix_in_sq(sqr, i) || ix_in_sq(quarter(sqr, quadrant_spec(sqr, ox, oy)), i))
                    ==> #[trigger] tiles1[i].parent == tiles0[i].parent,
            closed_count(open0, sqr) != 0 ==> tiles1 == tiles0,
            parents_fit(open1, tiles2, c, quarter(sqr, quadrant_spec(sqr, ox, oy))),
            forall|i: int|
                0 <= i < tiles1.len() && !ix_in_sq(quarter(sqr, quadrant_spec(sqr, ox, oy)), i)
                    ==> #[trigger] tiles2[i].parent == tiles1[i].parent,
        ensures
            parents_fit(open1, tiles2, t, sqr),
            forall|i: int| 0 <= i < tiles0.len() && !ix_in_sq(sqr, i) ==> #[trigger] tiles2[i].parent == tiles0[i].parent,
    {
        lemma_quarters(sqr);
        let q = quadrant_spec(sqr, ox, oy);
        let h = sqr.r / 2;
        if h > 1 {
            assert forall|p: Quadrant| #[trigger] child(trees0[t], p) == child_pos(t, sqr.r as int, p) by {
            }
        }
        if closed_count(open0, sqr) == 0 {
            assert forall|p: Quadrant, i: int|
                p != q && h > 1 && 0 <= i < tiles1.len() && ix_in_sq(#[trigger] quarter(sqr, p), i)
                    implies #[trigger] tiles1[i].parent as int == child_pos(t, sqr.r as int, p) by {
                assert(child(trees0[t], p) == child_pos(t, sqr.r as int, p));
            }
        }
        lemma_close_fit(open0, open1, tiles0, tiles1, tiles2, t, sqr, ox, oy);
        assert forall|i: int| 0 <= i < tiles0.len() && !ix_in_sq(sqr, i) implies #[trigger] tiles2[i].parent
            == tiles0[i].parent by {
            assert(!ix_in_sq(quarter(sqr, q), i));
        }
    }

    /// Closes the tile `(x, y)`; nothing happens outside the grid or for a
    /// tile already closed.
    pub fn close(&mut self, x: i16, y: i16)
        requires
            old(self).wf(),
        ensures
            final(self).wf(),
            final(self).parents_ok(),
            final(self).open_tiles() == if 0 <= x < 16384 && 0 <= y < 16384 {
                old(self).open_tiles().update(tile_ix(x as int, y as int), false)
            } else {
                old(self).open_tiles()
            },
    {
        let r = self.r;
        assert(r == 16384);
        if x >= 0 && y >= 0 && x < r && y < r {
            let ix = (y as usize) * 16384 + (x as usize);
            proof {
                lemma_tile_ix(x as int, y as int);
            }
            let status = self.tiles[ix].status;
            if !status {
                proof {
                    assert(old(self).open_tiles().update(tile_ix(x as int, y as int), false)
                        == old(self).open_tiles());
                }
                return;
            }
            let mut tile = self.tiles[ix];
            tile.status = false;
            self.tiles.set(ix, tile);
            proof {
                reveal_with_fuel(is_pow2, 16);
                assert(sq_ok(root()));
                assert(in_sq(root(), x as int, y as int));
                assert(statuses(self.tiles@) == statuses(old(self).tiles@).update(ix as int, false));
                assert(statuses(self.tiles@).update(ix as int, true) == statuses(old(self).tiles@));
                assert forall|i: int| 0 <= i < old(self).tiles@.len() implies #[trigger] old(self).tiles@[i].parent
                    == self.tiles@[i].parent by {
                }
                lemma_fit_same_parents(statuses(old(self).tiles@), old(self).tiles@, self.tiles@, 0, root());
            }
            self.traverse_closed(0, x, y, Square::new(0, 0, r));
        }
    }

    /// Takes one closed tile off the count of `tree` and of each node below
    /// it down to the tile `(ox, oy)` of `sqr`, which was just opened.
    #[verifier::rlimit(100)]
    fn traverse_reduce_num_closed(&mut self, tree: usize, ox: i16, oy: i16, sqr: Square)
        requires
            old(self).r == 16384,
            old(self).tiles@.len() == 16384 * 16384,
            old(self).trees@.len() == tree_size(16384),
            sq_ok(sqr),
            in_sq(sqr, ox as int, oy as int),
            statuses(old(self).tiles@)[tile_ix(ox as int, oy as int)],
            node_ok(
                old(self).trees@,
                statuses(old(self).tiles@).update(tile_ix(ox as int, oy as int), false),
                tree as int,
                sqr,
            ),
            forall|i: int|
                0 <= i < old(self).tiles@.len() ==> #[trigger] old(self).tiles@[i].parent
                    < old(self).trees@.len(),
        ensures
            final(self).tiles == old(self).tiles,
            final(self).r == old(self).r,
            final(self).tiles@.len() == old(self).tiles@.len(),
            final(self).trees@.len() == old(self).trees@.len(),
            statuses(final(self).tiles@) == statuses(old(self).tiles@),
            node_ok(final(self).trees@, statuses(final(self).tiles@), tree as int, sqr),
            forall|i: int|
                0 <= i < old(self).trees@.len() && !(tree <= i < tree + tree_size(sqr.r as int))
                    ==> #[trigger] final(self).trees@[i] == old(self).trees@[i],
            forall|i: int|
                0 <= i < final(self).tiles@.len() ==> #[trigger] final(self).tiles@[i].parent
                    < final(self).trees@.len(),
        decreases sqr.r,
    {
        if sqr.r > 1 {
            let ghost open = statuses(self.tiles@);
            let ghost open0 = open.update(tile_ix(ox as int, oy as int), false);
            let ghost trees0 = self.trees@;
            proof {
                lemma_quarters(sqr);
                lemma_tree_size(sqr.r as int);
                lemma_count_update(open0, sqr, ox as int, oy as int, true);
                assert(open0.update(tile_ix(ox as int, oy as int), true) == open);
                assert(trees0[tree as int].num_closed == closed_count(open0, sqr));
            }
            let node = self.trees[tree];
            let mut counted = node;
            counted.num_closed = node.num_closed - 1;
            self.trees.set(tree, counted);
            let q = sqr.quadrant(ox, oy);
            let ghost trees1 = self.trees@;
            let (c, csq) = self.child_of(tree, sqr, q);
            proof {
                let h = sqr.r / 2;
                assert(trees1 == trees0.update(tree as int, counted));
                if h > 1 {
                    assert(c == child_pos(tree as int, sqr.r as int, q));
                }
                assert(node_ok(trees0, open0, c as int, csq));
                lemma_node_frame(trees0, trees1, open0, open0, c as int, csq);
            }
            self.traverse_reduce_num_closed(c, ox, oy, csq);
            proof {
                let h = sqr.r / 2;
                let trees2 = self.trees@;
                assert(trees2[tree as int] == counted);
                assert forall|p: Quadrant|
                    node_ok(trees2, open, child(trees2[tree as int], p), #[trigger] quarter(sqr, p)) by {
                    if p != q {
                        let cp = child(trees0[tree as int], p);
                        if h > 1 {
                            assert(cp == child_pos(tree as int, sqr.r as int, p));
                        }
                        assert forall|x: int, y: int| in_sq(quarter(sqr, p), x, y) implies open[
                            tile_ix(x, y)] == open0[tile_ix(x, y)] by {
                            assert(!in_sq(quarter(sqr, p), ox as int, oy as int));
                        }
                        lemma_node_frame(trees0, trees2, open0, open, cp, quarter(sqr, p));
                    }
                }
            }
        }
    }

    /// Brings the counts of `tree` and the nodes below it up to date after
    /// the tile `(ox, oy)` of `sqr` was opened; the highest node whose
    /// square becomes fully open becomes the recorded node of all its tiles.
    #[verifier::rlimit(100)]
    fn traverse_open(&mut self, tree: usize, ox: i16, oy: i16, sqr: Square)
        requires
            old(self).r == 16384,
            old(self).tiles@.len() == 16384 * 16384,
            old(self).trees@.len() == tree_size(16384),
            sq_ok(sqr),
            in_sq(sqr, ox as int, oy as int),
            statuses(old(self).tiles@)[tile_ix(ox as int, oy as int)],
            node_ok(
                old(self).trees@,
                statuses(old(self).tiles@).update(tile_ix(ox as int, oy as int), false),
                tree as int,
                sqr,
            ),
            forall|i: int|
                0 <= i < old(self).tiles@.len() ==> #[trigger] old(self).tiles@[i].parent
                    < old(self).trees@.len(),
            parents_fit(
                statuses(old(self).tiles@).update(tile_ix(ox as int, oy as int), false),
                old(self).tiles@,
                tree as int,
                sqr,
            ),
        ensures
            final(self).r == old(self).r,
            final(self).tiles@.len() == old(self).tiles@.len(),
            final(self).trees@.len() == old(self).trees@.len(),
            statuses(final(self).tiles@) == statuses(old(self).tiles@),
            node_ok(final(self).trees@, statuses(final(self).tiles@), tree as int, sqr),
            forall|i: int|
                0 <= i < old(self).trees@.len() && !(tree <= i < tree + tree_size(sqr.r as int))
                    ==> #[trigger] final(self).trees@[i] == old(self).trees@[i],
            forall|i: int|
                0 <= i < final(self).tiles@.len() ==> #[trigger] final(self).tiles@[i].parent
                    < final(self).trees@.len(),
            parents_fit(statuses(final(self).tiles@), final(self).tiles@, tree as int, sqr),
            forall|i: int|
                0 <= i < old(self).tiles@.len() && !ix_in_sq(sqr, i) ==> #[trigger] final(self).tiles@[i].parent
                    == old(self).tiles@[i].parent,
        decreases sqr.r,
    {
        if sqr.r > 1 {
            let num_closed = self.trees[tree].num_closed;
            if num_closed == 1 {
                proof {
                    reveal_with_fuel(tree_size, 15);
                    assert(tree_size(16384) == 89478485);
                }
                let ghost open = statuses(self.tiles@);
                let ghost open0 = open.update(tile_ix(ox as int, oy as int), false);
                self.set_parents(tree, sqr);
                let ghost tiles1 = self.tiles@;
                self.traverse_reduce_num_closed(tree, ox, oy, sqr);
                proof {
                    lemma_count_update(open0, sqr, ox as int, oy as int, true);
                    assert(open0.update(tile_ix(ox as int, oy as int), true) == open);
                    Self::lemma_open_all_fit(open, self.tiles@, tree as int, sqr);
                }
            } else {
                let ghost open = statuses(self.tiles@);
                let ghost open0 = open.update(tile_ix(ox as int, oy as int), false);
                let ghost trees0 = self.trees@;
                let ghost tiles0 = self.tiles@;
                proof {
                    lemma_quarters(sqr);
                    lemma_tree_size(sqr.r as int);
                    lemma_count_update(open0, sqr, ox as int, oy as int, true);
                    assert(open0.update(tile_ix(ox as int, oy as int), true) == open);
                    assert(trees0[tree as int].num_closed == closed_count(open0, sqr));
                }
                let node = self.trees[tree];
                let mut counted = node;
                counted.num_closed = num_closed - 1;
                self.trees.set(tree, counted);
                let q = sqr.quadrant(ox, oy);
                let ghost trees1 = self.trees@;
                let (c, csq) = self.child_of(tree, sqr, q);
                proof {
                    let h = sqr.r / 2;
                    assert(trees1 == trees0.update(tree as int, counted));
                    if h > 1 {
                        assert(c == child_pos(tree as int, sqr.r as int, q));
                    }
                    assert(node_ok(trees0, open0, c as int, csq));
                    lemma_node_frame(trees0, trees1, open0, open0, c as int, csq);
                    Self::lemma_close_prepares(open0, tiles0, tiles0, tree as int, sqr, q, c as int, false);
                    lemma_count_update(open0, csq, ox as int, oy as int, true);
                }
                self.traverse_open(c, ox, oy, csq);
                proof {
                    let h = sqr.r / 2;
                    let trees2 = self.trees@;
                    assert(trees2[tree as int] == counted);
                    assert forall|p: Quadrant|
                        node_ok(trees2, open, child(trees2[tree as int], p), #[trigger] quarter(sqr, p)) by {
                        if p != q {
                            let cp = child(trees0[tree as int], p);
                            if h > 1 {
                                assert(cp == child_pos(tree as int, sqr.r as int, p));
                            }
                            assert forall|x: int, y: int| in_sq(quarter(sqr, p), x, y) implies open[
                                tile_ix(x, y)] == open0[tile_ix(x, y)] by {
                                assert(!in_sq(quarter(sqr, p), ox as int, oy as int));
                            }
                            lemma_node_frame(trees0, trees2, open0, open, cp, quarter(sqr, p));
                        }
                    }
                    Self::lemma_open_finishes(
                        open0,
                        open,
                        tiles0,
                        self.tiles@,
                        trees0,
                        tree as int,
                        sqr,
                        ox as int,
                        oy as int,
                        c as int,
                    );
                }
            }
        } else {
            proof {
                reveal(parents_fit);
            }
        }
    }

    /// A fully open square whose tiles all record its node fits.
    proof fn lemma_open_all_fit(open: Seq<bool>, tiles: Seq<Tile>, t: int, s: Square)
        requires
            sq_ok(s),
            s.r > 1,
            closed_count(open, s) == 0,
            tiles.len() == 16384 * 16384,
            forall|i: int| 0 <= i < tiles.len() && ix_in_sq(s, i) ==> #[trigger] tiles[i].parent as int == t,
        ensures
            parents_fit(open, tiles, t, s),
    {
        reveal(parents_fit);
        assert forall|x: int, y: int|
            #![trigger open_node(open, t, s, x, y)]
            in_sq(s, x, y) && open[tile_ix(x, y)] && open_node(open, t, s, x, y) is Some implies tiles[tile_ix(
                x,
                y,
            )].parent as int == open_node(open, t, s, x, y).unwrap() by {
            assert(0 <= x < 16384 && 0 <= y < 16384) by {
                assert(sq_ok(s));
            }
            lemma_tile_ix(x, y);
            assert(ix_in_sq(s, tile_ix(x, y)));
        }
    }

    /// After the walk came back from quarter `q` of a square that still
    /// holds a closed tile: `parents_fit` holds of `sqr`, and the tiles
    /// outside `sqr` kept their nodes.
    proof fn lemma_open_finishes(
        open0: Seq<bool>,
        open1: Seq<bool>,
        tiles0: Seq<Tile>,
        tiles2: Seq<Tile>,
        trees0: Seq<Tree>,
        t: int,
        sqr: Square,
        ox: int,
        oy: int,
        c: int,
    )
        requires
            sq_ok(sqr),
            sqr.r > 1,
            in_sq(sqr, ox, oy),
            open0.len() == 16384 * 16384,
            tiles0.len() == 16384 * 16384,
            tiles2.len() == 16384 * 16384,
            open1 == open0.update(tile_ix(ox, oy), true),
            !open0[tile_ix(ox, oy)],
            closed_count(open0, sqr) > 1,
            node_ok(trees0, open0, t, sqr),
            parents_fit(open0, tiles0, t, sqr),
            c == child(trees0[t], quadrant_spec(sqr, ox, oy)),
            parents_fit(open1, tiles2, c, quarter(sqr, quadrant_spec(sqr, ox, oy))),
            forall|i: int|
                0 <= i < tiles0.len() && !ix_in_sq(quarter(sqr, quadrant_spec(sqr, ox, oy)), i)
                    ==> #[trigger] tiles2[i].parent == tiles0[i].parent,
        ensures
            parents_fit(open1, tiles2, t, sqr),
            forall|i: int| 0 <= i < tiles0.len() && !ix_in_sq(sqr, i) ==> #[trigger] tiles2[i].parent == tiles0[i].parent,
    {
        reveal(parents_fit);
        lemma_quarters(sqr);
        let q = quadrant_spec(sqr, ox, oy);
        let h = sqr.r / 2;
        lemma_count_update(open0, sqr, ox, oy, true);
        assert(closed_count(open1, sqr) != 0);
        if h > 1 {
            assert(c == child_pos(t, sqr.r as int, q));
        }
        assert forall|x: int, y: int|
            #![trigger open_node(open1, t, sqr, x, y)]
            in_sq(sqr, x, y) && open1[tile_ix(x, y)] && open_node(open1, t, sqr, x, y) is Some implies tiles2[tile_ix(
                x,
                y,
            )].parent as int == open_node(open1, t, sqr, x, y).unwrap() by {
            let p = quadrant_spec(sqr, x, y);
            let qs = quarter(sqr, p);
            lemma_open_node_descends(open1, t, sqr, x, y);
            assert(in_sq(qs, x, y));
            assert(0 <= x < 16384 && 0 <= y < 16384);
            lemma_tile_ix(x, y);
            if p == q {
                assert(open_node(open1, child_pos(t, sqr.r as int, q), qs, x, y) is Some);
            } else {
                assert(!in_sq(quarter(sqr, q), x, y));
                assert(!ix_in_sq(quarter(sqr, q), tile_ix(x, y)));
                assert(!in_sq(qs, ox, oy));
                assert forall|i: int, j: int| in_sq(qs, i, j) implies open0[tile_ix(i, j)] == open1[tile_ix(i, j)] by {
                    assert(in_sq(sqr, i, j));
                    lemma_tile_ix(i, j);
                    lemma_tile_ix(ox, oy);
                }
                lemma_open_node_frame(open0, open1, child_pos(t, sqr.r as int, p), qs, x, y);
                lemma_open_node_descends(open0, t, sqr, x, y);
                lemma_tile_ix(ox, oy);
                assert(open0[tile_ix(x, y)]);
                assert(open_node(open0, t, sqr, x, y) is Some);
            }
        }
        assert forall|i: int| 0 <= i < tiles0.len() && !ix_in_sq(sqr, i) implies #[trigger] tiles2[i].parent
            == tiles0[i].parent by {
            assert(!ix_in_sq(quarter(sqr, q), i));
        }
    }

    /// Opens the tile `(x, y)`; nothing happens outside the grid or for a
    /// tile already open.
    pub fn open(&mut self, x: i16, y: i16)
        requires
            old(self).wf(),
        ensures
            final(self).wf(),
            final(self).parents_ok(),
            final(self).open_tiles() == if 0 <= x < 16384 && 0 <= y < 16384 {
                old(self).open_tiles().update(tile_ix(x as int, y as int), true)
            } else {
                old(self).open_tiles()
            },
    {
        let r = self.r;
        if x >= 0 && y >= 0 && x < r && y < r {
            let ix = (y as usize) * 16384 + (x as usize);
            proof {
                lemma_tile_ix(x as int, y as int);
            }
            if self.tiles[ix].status {
                proof {
                    assert(old(self).open_tiles().update(tile_ix(x as int, y as int), true)
                        == old(self).open_tiles());
                }
                return;
            }
            let mut tile = self.tiles[ix];
            tile.status = true;
            self.tiles.set(ix, tile);
            proof {
                reveal_with_fuel(is_pow2, 16);
                assert(sq_ok(root()));
                assert(in_sq(root(), x as int, y as int));
                assert(statuses(self.tiles@) == statuses(old(self).tiles@).update(ix as int, true));
                assert(statuses(self.tiles@).update(ix as int, false) == statuses(old(self).tiles@));
                assert forall|i: int| 0 <= i < old(self).tiles@.len() implies #[trigger] old(self).tiles@[i].parent
                    == self.tiles@[i].parent by {
                }
                lemma_fit_same_parents(statuses(old(self).tiles@), old(self).tiles@, self.tiles@, 0, root());
            }
            self.traverse_open(0, x, y, Square::new(0, 0, r));
        }
    }

    /// The square of the node recorded for tile `(x, y)`.
    pub closed spec fn parent_sq(&self, x: int, y: int) -> Square {
        self.trees@[self.tiles@[tile_ix(x, y)].parent as int].sqr
    }

    /// The square around `(ox, oy)` that `neighbors` looks around: the
    /// recorded node's square when that one is fully open, else the tile.
    pub closed spec fn home_sq(&self, ox: int, oy: int) -> Square {
        let p = self.trees@[self.tiles@[tile_ix(ox, oy)].parent as int];
        if p.num_closed > 0 {
            Square { x: ox as i16, y: oy as i16, r: 1 }
        } else {
            p.sqr
        }
    }

    /// The largest square of the quadtree, of side two or more, that holds
    /// tile `(ox, oy)` and only open tiles; `None` when there is none.
    pub closed spec fn open_home(&self, ox: int, oy: int) -> Option<Square> {
        open_square(statuses(self.tiles@), root(), ox, oy)
    }

    /// Around a home square `c` that keeps one tile from every edge of the
    /// grid, `neighbors` reads the recorded squares of the row just above
    /// `c`, from the column left of it to the column of its east edge, then
    /// of the column just left of `c`, from the row below it to the row of
    /// its top edge: `side + 1` tiles each, all outside `c` and touching it.
    pub proof fn lemma_scan_ring(g: FineGrid, ox: int, oy: int)
        requires
            g.home_sq(ox, oy).sx() >= 1,
            g.home_sq(ox, oy).sy() >= 1,
            g.home_sq(ox, oy).sr() >= 1,
            g.home_sq(ox, oy).sx() + g.home_sq(ox, oy).sr() <= 16383,
            g.home_sq(ox, oy).sy() + g.home_sq(ox, oy).sr() <= 16383,
        ensures
            ({
                let c = g.home_sq(ox, oy);
                let r = c.sr() + 1;
                &&& g.scan_spec(ox, oy).len() == 2 * r
                &&& forall|k: int|
                    0 <= k < r ==> #[trigger] g.scan_spec(ox, oy)[k] == g.parent_sq(c.sx() - 1 + k, c.sy() + c.sr())
                        && !in_sq(c, c.sx() - 1 + k, c.sy() + c.sr())
                &&& forall|k: int|
                    r <= k < 2 * r ==> #[trigger] g.scan_spec(ox, oy)[k] == g.parent_sq(c.sx() - 1, c.sy() - 1 + k - r)
                        && !in_sq(c, c.sx() - 1, c.sy() - 1 + k - r)
            }),
    {
        let c = g.home_sq(ox, oy);
        let sc = g.scan_spec(ox, oy);
        let n = c.y + c.r;
        let e = c.x + c.r;
        let s = c.y - 1;
        let w = c.x - 1;
        let top = Seq::new((e - w) as nat, |k: int| g.parent_sq(w + k, n));
        let left = Seq::new((n - s) as nat, |k: int| g.parent_sq(w, s + k));
        assert(sc =~= top + left);
    }

    /// An open tile that lies in a fully open square of the quadtree has
    /// the largest such square as its home square, the square whose ring
    /// `neighbors` scans: a square of side two or more that holds the tile
    /// and only open tiles.
    pub proof fn lemma_home_square(g: FineGrid, ox: int, oy: int)
        requires
            g.wf(),
            0 <= ox < 16384,
            0 <= oy < 16384,
            g.open_tiles()[tile_ix(ox, oy)],
            g.open_home(ox, oy) is Some,
        ensures
            g.home_sq(ox, oy) == g.open_home(ox, oy).unwrap(),
            g.home_sq(ox, oy).sr() >= 2,
            in_sq(g.home_sq(ox, oy), ox, oy),
            forall|x: int, y: int|
                in_sq(g.home_sq(ox, oy), x, y) ==> 0 <= x < 16384 && 0 <= y < 16384 && #[trigger] g.open_tiles()[tile_ix(
                    x,
                    y,
                )],
    {
        let open = statuses(g.tiles@);
        reveal_with_fuel(is_pow2, 16);
        assert(sq_ok(root()));
        assert(in_sq(root(), ox, oy));
        lemma_open_node_square(g.trees@, open, 0, root(), ox, oy);
        reveal(parents_fit);
        assert(g.parents_ok());
        assert(open[tile_ix(ox, oy)]);
        let u = open_node(open, 0, root(), ox, oy).unwrap();
        assert(g.tiles@[tile_ix(ox, oy)].parent as int == u);
        let q = g.open_home(ox, oy).unwrap();
        assert forall|x: int, y: int| in_sq(q, x, y) implies 0 <= x < 16384 && 0 <= y < 16384
            && #[trigger] g.open_tiles()[tile_ix(x, y)] by {
            lemma_count_zero_all_open(open, q, x, y);
        }
    }

    /// The squares that `neighbors` reads, in order: along the row above
    /// the home square from its west edge, then down its east side, back
    /// along the row below it, and up its west side (the middle two are
    /// empty for a home square inside the grid).
    pub closed spec fn scan_spec(&self, ox: int, oy: int) -> Seq<Square> {
        let c = self.home_sq(ox, oy);
        let n = if 16383 < c.y + c.r { 16383 } else { c.y + c.r };
        let e = if 16383 < c.x + c.r { 16383 } else { c.x + c.r };
        let s = if 0 > c.y - 1 { 0 } else { c.y - 1 };
        let w = if 0 > c.x - 1 { 0 } else { c.x - 1 };
        Seq::new(if e > w { (e - w) as nat } else { 0 }, |k: int| self.parent_sq(w + k, n))
            + Seq::new(if s > n { (s - n) as nat } else { 0 }, |k: int| self.parent_sq(e, n + k))
            + Seq::new(if w > e { (w - e) as nat } else { 0 }, |k: int| self.parent_sq(e + k, s))
            + Seq::new(if n > s { (n - s) as nat } else { 0 }, |k: int| self.parent_sq(w, s + k))
    }

    /// The node recorded for tile `(ox, oy)`.
    fn get_parent(&self, ox: i16, oy: i16) -> (t: Tree)
        requires
            self.wf(),
            0 <= ox,
            0 <= oy,
            tile_ix(ox as int, oy as int) < 16384 * 16384,
        ensures
            t == self.trees@[self.tiles@[tile_ix(ox as int, oy as int)].parent as int],
            sq_ok(t.sqr),
    {
        let ix = (oy as usize) * (self.r as usize) + (ox as usize);
        let parent_ix = self.tiles[ix].parent as usize;
        proof {
            reveal_with_fuel(is_pow2, 16);
            assert(sq_ok(root()));
            lemma_node_squares(self.trees@, statuses(self.tiles@), 0, root(), parent_ix as int);
        }
        self.trees[parent_ix]
    }

    /// The squares of the recorded nodes of the tiles around the home square
    /// of `(ox, oy)`, dropping each one equal to the one before it. Nothing
    /// for a point left of or below the grid, or past `SIDE`.
    #[verifier::rlimit(50)]
    pub fn neighbors(&mut self, ox: i16, oy: i16) -> (r: Vec<Square>)
        requires
            old(self).wf(),
            0 <= ox <= 16384 && 0 <= oy <= 16384 ==> tile_ix(ox as int, oy as int) < 16384 * 16384,
        ensures
            *final(self) == *old(self),
            r@ == if ox < 0 || oy < 0 || ox > 16384 || oy > 16384 {
                Seq::<Square>::empty()
            } else {
                dedup_state(old(self).scan_spec(ox as int, oy as int), no_square()).0
            },
    {
        let mut vec: Vec<Square> = Vec::new();
        if ox < 0 || oy < 0 || ox > self.r || oy > self.r {
            return vec;
        }
        let sqr = {
            let parent = self.get_parent(ox, oy);
            if parent.num_closed > 0 {
                Square::new(ox, oy, 1)
            } else {
                parent.sqr
            }
        };
        let n = min_i16(self.r - 1, sqr.y + sqr.r);
        let e = min_i16(self.r - 1, sqr.x + sqr.r);
        let s = max_i16(0, sqr.y - 1);
        let w = max_i16(0, sqr.x - 1);
        let start = Square::new(-1, -1, -1);
        let mut prev = start;
        let ghost mut done: Seq<Square> = seq![];
        let ghost scan = self.scan_spec(ox as int, oy as int);
        let ghost l1 = if e > w { (e - w) as int } else { 0 };
        let ghost l2 = if s > n { (s - n) as int } else { 0 };
        let ghost l3 = if w > e { (w - e) as int } else { 0 };
        assert(sqr == self.home_sq(ox as int, oy as int));

        // North row (west to east)
        let mut x = w;
        while x < e
            invariant
                self.wf(),
                *self == *old(self),
                0 <= w <= x,
                x <= e || e <= w,
                e <= w ==> x == w,
                0 <= n <= 16383,
                0 <= e <= 16383,
                scan == self.scan_spec(ox as int, oy as int),
                sqr == self.home_sq(ox as int, oy as int),
                n == (if 16383 < sqr.y + sqr.r { 16383 } else { sqr.y + sqr.r }),
                e == (if 16383 < sqr.x + sqr.r { 16383 } else { sqr.x + sqr.r }),
                s == (if 0 > sqr.y - 1 { 0 } else { sqr.y - 1 }),
                w == (if 0 > sqr.x - 1 { 0 } else { sqr.x - 1 }),
                l1 == (if e > w { (e - w) as int } else { 0 }),
                done == scan.take(if x > w { x - w } else { 0 }),
                (vec@, prev) == dedup_state(done, start),
            decreases e - x,
        {
            let parent = self.get_parent(x, n);
            proof {
                let old_done = done;
                done = done.push(parent.sqr);
                assert(done.drop_last() == old_done);
            }
            if parent.sqr != prev {
                vec.push(parent.sqr);
                prev = parent.sqr;
            }
            x = x + 1;
            assert(done == scan.take(x - w));
        }
        assert(done == scan.take(l1));

        // East column (north to south)
        let mut y = n;
        while y < s
            invariant
                self.wf(),
                *self == *old(self),
                0 <= n <= y,
                y <= s || s <= n,
                s <= n ==> y == n,
                0 <= e <= 16383,
                s <= 16383,
                scan == self.scan_spec(ox as int, oy as int),
                sqr == self.home_sq(ox as int, oy as int),
                n == (if 16383 < sqr.y + sqr.r { 16383 } else { sqr.y + sqr.r }),
                e == (if 16383 < sqr.x + sqr.r { 16383 } else { sqr.x + sqr.r }),
                s == (if 0 > sqr.y - 1 { 0 } else { sqr.y - 1 }),
                w == (if 0 > sqr.x - 1 { 0 } else { sqr.x - 1 }),
                l1 == (if e > w { (e - w) as int } else { 0 }),
                done == scan.take(l1 + (y - n)),
                (vec@, prev) == dedup_state(done, start),
            decreases s - y,
        {
            let parent = self.get_parent(e, y);
            proof {
                let old_done = done;
                done = done.push(parent.sqr);
                assert(done.drop_last() == old_done);
            }
            if parent.sqr != prev {
                vec.push(parent.sqr);
                prev = parent.sqr;
            }
            y = y + 1;
            assert(done == scan.take(l1 + (y - n)));
        }
        assert(done == scan.take(l1 + l2));

        // South row (east to west)
        let mut x = e;
        while x < w
            invariant
                self.wf(),
                *self == *old(self),
                0 <= e <= x,
                x <= w || w <= e,
                w <= e ==> x == e,
                0 <= s <= 16383,
                w <= 16383,
                scan == self.scan_spec(ox as int, oy as int),
                sqr == self.home_sq(ox as int, oy as int),
                n == (if 16383 < sqr.y + sqr.r { 16383 } else { sqr.y + sqr.r }),
                e == (if 16383 < sqr.x + sqr.r { 16383 } else { sqr.x + sqr.r }),
                s == (if 0 > sqr.y - 1 { 0 } else { sqr.y - 1 }),
                w == (if 0 > sqr.x - 1 { 0 } else { sqr.x - 1 }),
                l1 == (if e > w { (e - w) as int } else { 0 }),
                l2 == (if s > n { (s - n) as int } else { 0 }),
                done == scan.take(l1 + l2 + (x - e)),
                (vec@, prev) == dedup_state(done, start),
            decreases w - x,
        {
            let parent = self.get_parent(x, s);
            proof {
                let old_done = done;
                done = done.push(parent.sqr);
                assert(done.drop_last() == old_done);
            }
            if parent.sqr != prev {
                vec.push(parent.sqr);
                prev = parent.sqr;
            }
            x = x + 1;
            assert(done == scan.take(l1 + l2 + (x - e)));
        }
        assert(done == scan.take(l1 + l2 + l3));

        // West column (south to north)
        let mut y = s;
        while y < n
            invariant
                self.wf(),
                *self == *old(self),
                0 <= s <= y,
                y <= n || n <= s,
                n <= s ==> y == s,
                0 <= w <= 16383,
                n <= 16383,
                scan == self.scan_spec(ox as int, oy as int),
                sqr == self.home_sq(ox as int, oy as int),
                n == (if 16383 < sqr.y + sqr.r { 16383 } else { sqr.y + sqr.r }),
                e == (if 16383 < sqr.x + sqr.r { 16383 } else { sqr.x + sqr.r }),
                s == (if 0 > sqr.y - 1 { 0 } else { sqr.y - 1 }),
                w == (if 0 > sqr.x - 1 { 0 } else { sqr.x - 1 }),
                l1 == (if e > w { (e - w) as int } else { 0 }),
                l2 == (if s > n { (s - n) as int } else { 0 }),
                l3 == (if w > e { (w - e) as int } else { 0 }),
                done == scan.take(l1 + l2 + l3 + (y - s)),
                (vec@, prev) == dedup_state(done, start),
            decreases n - y,
        {
            let parent = self.get_parent(w, y);
            proof {
                let old_done = done;
                done = done.push(parent.sqr);
                assert(done.drop_last() == old_done);
            }
            if parent.sqr != prev {
                vec.push(parent.sqr);
                prev = parent.sqr;
            }
            y = y + 1;
            assert(done == scan.take(l1 + l2 + l3 + (y - s)));
        }
        assert(done == scan);
        vec
    }

    /// Builds the nodes of `sqr` and its quarters at the end of the node
    /// vector; answers the first one, or for a single tile its position.
    fn construct(&mut self, sqr: Square) -> (ix: usize)
        requires
            old(self).r == 16384,
            sq_ok(sqr),
            old(self).trees@.len() + tree_size(sqr.r as int) <= tree_size(16384),
            forall|x: int, y: int|
                in_sq(sqr, x, y) ==> statuses(old(self).tiles@)[#[trigger] tile_ix(x, y)],
        ensures
            final(self).r == old(self).r,
            final(self).tiles == old(self).tiles,
            final(self).trees@.len() == old(self).trees@.len() + tree_size(sqr.r as int),
            forall|i: int| 0 <= i < old(self).trees@.len() ==> final(self).trees@[i] == old(self).trees@[i],
            node_ok(final(self).trees@, statuses(final(self).tiles@), old(self).trees@.len() as int, sqr),
            sqr.r > 1 ==> ix == old(self).trees@.len(),
            sqr.r <= 1 ==> ix == tile_ix(sqr.x as int, sqr.y as int),
        decreases sqr.r,
    {
        proof {
            reveal_with_fuel(tree_size, 15);
            assert(tree_size(16384) == 89478485);
        }
        if sqr.r > 1 {
            proof {
                lemma_quarters(sqr);
            }
            let ix = self.trees.len();
            self.trees.push(Tree { num_closed: 0, nw: 0, ne: 0, sw: 0, se: 0, sqr: sqr });
            let ghost t0 = self.trees@;
            let nw = self.construct(sqr.nw());
            let ghost t1 = self.trees@;
            let ne = self.construct(sqr.ne());
            let ghost t2 = self.trees@;
            let sw = self.construct(sqr.sw());
            let ghost t3 = self.trees@;
            let se = self.construct(sqr.se());
            let ghost t4 = self.trees@;
            let mut node = self.trees[ix];
            node.nw = nw as u32;
            node.ne = ne as u32;
            node.sw = sw as u32;
            node.se = se as u32;
            self.trees.set(ix, node);
            proof {
                let open = statuses(self.tiles@);
                let h = sqr.r / 2;
                let c = tree_size(h as int);
                lemma_tree_size(sqr.r as int);
                lemma_count_open(open, sqr);
                assert(self.trees@[ix as int].sqr == sqr);
                assert forall|q: Quadrant|
                    node_ok(self.trees@, open, child(self.trees@[ix as int], q), #[trigger] quarter(sqr, q)) by {
                    let cq = child(self.trees@[ix as int], q);
                    if h > 1 {
                        assert(cq == child_pos(ix as int, sqr.r as int, q));
                    }
                    let tq = if q == Quadrant::NW { t1 } else if q == Quadrant::NE { t2 } else if q == Quadrant::SW { t3 } else { t4 };
                    assert(node_ok(tq, open, cq, quarter(sqr, q)));
                    lemma_node_frame(tq, self.trees@, open, open, cq, quarter(sqr, q));
                }
            }
            ix
        } else {
            (sqr.y as usize) * (self.r as usize) + (sqr.x as usize)
        }
    }
}

/// The smaller of two numbers.
pub fn min_i16(a: i16, b: i16) -> (r: i16)
    ensures
        r == if a < b {
            a
        } else {
            b
        },
{
    if a < b {
        a
    } else {
        b
    }
}

/// The larger of two numbers.
pub fn max_i16(a: i16, b: i16) -> (r: i16)
    ensures
        r == if a > b {
            a
        } else {
            b
        },
{
    if a > b {
        a
    } else {
        b
    }
}

} // verus!
