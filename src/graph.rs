//! The patch graph: nodes and the hole pairs that connect them.
//!
//! Nodes and holes live in arenas and are addressed by their index there,
//! which is never reused: a deleted node or hole keeps its slot, marked dead.
//! A connection is a black hole on the source node and a white hole on the
//! destination node, created and removed together. The white hole carries a
//! pair of link-type codes `(producer, consumer)`.
//!
//! Order ranks are raised as connections are made and never lowered by a
//! removal. There is no cycle detection: a cycle of connections can only
//! raise ranks, and a rank saturates at `u64::MAX` rather than overflow.
use vstd::prelude::*;

use crate::compiler::{compile, compile_chars, sized, unit_inputs, unit_outputs, Unit, UnitModel};
use crate::text::chars_of;

verus! {

/// One endpoint of a connection.
#[derive(Clone, Copy, PartialEq, Eq, Structural, Debug)]
pub struct Hole {
    /// False once the connection has been removed.
    pub alive: bool,
    /// A black hole sits on the source node, a white hole on the destination.
    pub black: bool,
    /// The node that owns this hole.
    pub parent: usize,
    /// The other hole of the connection.
    pub partner: usize,
    /// The node that owns the other hole.
    pub partner_parent: usize,
    /// The producer's link-type code; meaningful on a white hole.
    pub producer: i8,
    /// The consumer's link-type code; meaningful on a white hole.
    pub consumer: i8,
    /// Whether the connection's detail panel is expanded; on a white hole.
    pub open: bool,
    /// Whether a value is waiting to be taken along the connection; on a
    /// white hole.
    pub changed: bool,
}

/// A node of the patch.
#[derive(Debug)]
pub struct Node {
    pub alive: bool,
    pub op: Vec<char>,
    pub order: u64,
    pub holes: Vec<usize>,
    pub targets: Vec<usize>,
    pub unit: Unit,
    pub op_changed: bool,
    pub lost_input: bool,
    pub gained_input: bool,
}

/// A node as a mathematical value.
pub ghost struct NodeModel {
    pub alive: bool,
    pub op: Seq<char>,
    pub order: u64,
    pub holes: Seq<usize>,
    pub targets: Seq<usize>,
    pub unit: UnitModel,
    pub op_changed: bool,
    pub lost_input: bool,
    pub gained_input: bool,
}

impl View for Node {
    type V = NodeModel;

    open spec fn view(&self) -> NodeModel {
        NodeModel {
            alive: self.alive,
            op: self.op@,
            order: self.order,
            holes: self.holes@,
            targets: self.targets@,
            unit: self.unit@,
            op_changed: self.op_changed,
            lost_input: self.lost_input,
            gained_input: self.gained_input,
        }
    }
}

/// The patch graph.
pub struct Graph {
    nodes: Vec<Node>,
    holes: Vec<Hole>,
    order_changed: bool,
    dropped: Vec<usize>,
}

/// The patch graph as a mathematical value.
pub ghost struct GraphModel {
    pub nodes: Seq<NodeModel>,
    pub holes: Seq<Hole>,
    /// Raised when an order rank changed or a node was deleted.
    pub order_changed: bool,
    /// White holes of removed connections whose arrows are still to be taken down.
    pub dropped: Seq<usize>,
}

impl View for Graph {
    type V = GraphModel;

    closed spec fn view(&self) -> GraphModel {
        GraphModel {
            nodes: self.nodes@.map_values(|n: Node| n@),
            holes: self.holes@,
            order_changed: self.order_changed,
            dropped: self.dropped@,
        }
    }
}

/// Whether `id` names a live node of `g`.
pub open spec fn live_node(g: GraphModel, id: usize) -> bool {
    id < g.nodes.len() && g.nodes[id as int].alive
}

/// Whether `h` names a live hole of `g`.
pub open spec fn live_hole(g: GraphModel, h: usize) -> bool {
    h < g.holes.len() && g.holes[h as int].alive
}

/// The well-formedness of a patch graph: every hole that a live node lists is
/// a live hole that it owns, and every live hole belongs to a live node that
/// lists it and is paired with a live hole of the other colour that points back.
pub open spec fn wf(g: GraphModel) -> bool {
    &&& forall|n: int, j: int|
        0 <= n < g.nodes.len() && g.nodes[n].alive && 0 <= j < g.nodes[n].holes.len() ==> {
            let h = #[trigger] g.nodes[n].holes[j];
            &&& live_hole(g, h)
            &&& g.holes[h as int].parent == n
        }
    &&& forall|n: int| 0 <= n < g.nodes.len() && !(#[trigger] g.nodes[n]).alive ==> g.nodes[n].holes.len() == 0
    &&& forall|h: int| 0 <= h < g.holes.len() && (#[trigger] g.holes[h]).alive ==> {
        let x = g.holes[h];
        &&& live_node(g, x.parent)
        &&& g.nodes[x.parent as int].holes.contains(h as usize)
        &&& live_hole(g, x.partner)
        &&& g.holes[x.partner as int].partner == h
        &&& g.holes[x.partner as int].parent == x.partner_parent
        &&& g.holes[x.partner as int].black != x.black
        &&& x.partner != h
        &&& x.partner_parent != x.parent
    }
}

/// `s` without any occurrence of `x`.
pub open spec fn without(s: Seq<usize>, x: usize) -> Seq<usize>
    decreases s.len(),
{
    if s.len() == 0 {
        s
    } else {
        let r = without(s.drop_last(), x);
        if s.last() == x { r } else { r.push(s.last()) }
    }
}

proof fn lemma_without_absent(s: Seq<usize>, x: usize)
    requires
        !s.contains(x),
    ensures
        without(s, x) == s,
    decreases s.len(),
{
    if s.len() > 0 {
        assert(!s.drop_last().contains(x)) by {
            if s.drop_last().contains(x) {
                let j = choose|j: int| 0 <= j < s.drop_last().len() && s.drop_last()[j] == x;
                assert(s[j] == x);
            }
        }
        lemma_without_absent(s.drop_last(), x);
        assert(s.last() != x) by {
            assert(s[s.len() - 1] == s.last());
        }
        assert(s.drop_last().push(s.last()) =~= s);
    }
}

proof fn lemma_contains_split(s: Seq<usize>, y: usize)
    requires
        s.len() > 0,
    ensures
        s.contains(y) <==> (s.drop_last().contains(y) || s.last() == y),
{
    if s.contains(y) {
        let j = choose|j: int| 0 <= j < s.len() && s[j] == y;
        if j < s.len() - 1 {
            assert(s.drop_last()[j] == y);
        }
    }
    if s.drop_last().contains(y) {
        let j = choose|j: int| 0 <= j < s.drop_last().len() && s.drop_last()[j] == y;
        assert(s[j] == y);
    }
    if s.last() == y {
        assert(s[s.len() - 1] == y);
    }
}

proof fn lemma_contains_split_i8(s: Seq<i8>, y: i8)
    requires
        s.len() > 0,
    ensures
        s.contains(y) <==> (s.drop_last().contains(y) || s.last() == y),
{
    if s.contains(y) {
        let j = choose|j: int| 0 <= j < s.len() && s[j] == y;
        if j < s.len() - 1 {
            assert(s.drop_last()[j] == y);
        }
    }
    if s.drop_last().contains(y) {
        let j = choose|j: int| 0 <= j < s.drop_last().len() && s.drop_last()[j] == y;
        assert(s[j] == y);
    }
    if s.last() == y {
        assert(s[s.len() - 1] == y);
    }
}

proof fn lemma_without_contains(s: Seq<usize>, x: usize, y: usize)
    ensures
        without(s, x).contains(y) <==> (s.contains(y) && y != x),
        without(s, x).len() <= s.len(),
        s.contains(x) ==> without(s, x).len() < s.len(),
    decreases s.len(),
{
    if s.len() > 0 {
        lemma_without_contains(s.drop_last(), x, y);
        lemma_without_contains(s.drop_last(), x, x);
        lemma_contains_split(s, y);
        lemma_contains_split(s, x);
        let r = without(s.drop_last(), x);
        if s.last() != x {
            assert(r.push(s.last()).drop_last() =~= r);
            assert(r.push(s.last()).last() == s.last());
            lemma_contains_split(r.push(s.last()), y);
        }
    }
}

fn remove_id(v: &Vec<usize>, x: usize) -> (r: Vec<usize>)
    ensures
        r@ == without(v@, x),
{
    let mut r: Vec<usize> = Vec::new();
    let mut i: usize = 0;
    while i < v.len()
        invariant
            i <= v@.len(),
            r@ == without(v@.take(i as int), x),
        decreases v@.len() - i,
    {
        assert(v@.take(i + 1 as int).drop_last() =~= v@.take(i as int));
        if v[i] != x {
            r.push(v[i]);
        }
        i += 1;
    }
    assert(v@.take(i as int) =~= v@);
    r
}

/// The order rank of a destination after a connection from a source of rank
/// `src`: at least one above the source's, saturating at the largest rank.
pub open spec fn raised(src: u64, dst: u64) -> u64 {
    if dst > src {
        dst
    } else if src < u64::MAX {
        (src + 1) as u64
    } else {
        u64::MAX
    }
}

/// `n` with its hole list replaced.
pub open spec fn with_holes(n: NodeModel, holes: Seq<usize>) -> NodeModel {
    NodeModel { holes, ..n }
}

/// The effect of `connect(src, dst, link_types)` that returned `r`.
pub open spec fn connected(
    g: GraphModel,
    g2: GraphModel,
    src: usize,
    dst: usize,
    link_types: (i8, i8),
    r: Option<(usize, usize)>,
) -> bool {
    if src == dst || !live_node(g, src) || !live_node(g, dst) {
        r.is_none() && g2 == g
    } else {
        let bh = g.holes.len() as usize;
        let wh = (g.holes.len() + 1) as usize;
        let s = g.nodes[src as int];
        let d = g.nodes[dst as int];
        let rank = raised(s.order, d.order);
        &&& r == Some((bh, wh))
        &&& g2.holes == g.holes.push(
            Hole {
                alive: true,
                black: true,
                parent: src,
                partner: wh,
                partner_parent: dst,
                producer: 0,
                consumer: 0,
                open: false,
                changed: false,
            },
        ).push(
            Hole {
                alive: true,
                black: false,
                parent: dst,
                partner: bh,
                partner_parent: src,
                producer: link_types.0,
                consumer: link_types.1,
                open: true,
                changed: true,
            },
        )
        &&& g2.nodes.len() == g.nodes.len()
        &&& g2.nodes[src as int] == with_holes(s, s.holes.push(bh))
        &&& g2.nodes[dst as int] == (NodeModel {
            holes: d.holes.push(wh),
            order: rank,
            gained_input: true,
            ..d
        })
        &&& forall|n: int| 0 <= n < g.nodes.len() && n != src && n != dst ==> g2.nodes[n] == g.nodes[n]
        &&& g2.order_changed == (g.order_changed || rank != d.order)
        &&& g2.dropped == g.dropped
    }
}

/// The effect of `remove_connection(hole)`.
pub open spec fn disconnected(g: GraphModel, g2: GraphModel, hole: usize) -> bool {
    if !live_hole(g, hole) {
        g2 == g
    } else {
        let x = g.holes[hole as int];
        let (bh, wh) = if x.black { (hole, x.partner) } else { (x.partner, hole) };
        let b = g.holes[bh as int];
        let w = g.holes[wh as int];
        let bp = g.nodes[b.parent as int];
        let wp = g.nodes[w.parent as int];
        &&& g2.holes == g.holes.update(bh as int, Hole { alive: false, ..b }).update(
            wh as int,
            Hole { alive: false, ..w },
        )
        &&& g2.nodes.len() == g.nodes.len()
        &&& g2.nodes[b.parent as int] == with_holes(bp, without(bp.holes, bh))
        &&& g2.nodes[w.parent as int] == (NodeModel {
            holes: without(wp.holes, wh),
            lost_input: true,
            ..wp
        })
        &&& forall|n: int|
            0 <= n < g.nodes.len() && n != b.parent && n != w.parent ==> g2.nodes[n] == g.nodes[n]
        &&& g2.order_changed == g.order_changed
        &&& g2.dropped == g.dropped.push(wh)
    }
}

/// Whether the hole `h` of `g` belongs to a connection that touches node `id`.
pub open spec fn touches(g: GraphModel, h: int, id: usize) -> bool {
    g.holes[h].parent == id || g.holes[h].partner_parent == id
}

/// Whether the live hole `h` of `g` goes when the nodes `nodes` and the
/// holes `holes` are deleted: it belongs to a connection that touches a
/// deleted node, or whose black or white hole is deleted.
pub open spec fn removed(g: GraphModel, nodes: Seq<usize>, holes: Seq<usize>, h: int) -> bool {
    let x = g.holes[h];
    &&& x.alive
    &&& (nodes.contains(x.parent) || nodes.contains(x.partner_parent) || holes.contains(h as usize)
        || holes.contains(x.partner))
}

/// The white holes among the first `n` holes of `g` that go, in index order.
pub open spec fn removed_whites(g: GraphModel, nodes: Seq<usize>, holes: Seq<usize>, n: nat) -> Seq<usize>
    decreases n,
{
    if n == 0 {
        Seq::<usize>::empty()
    } else {
        let r = removed_whites(g, nodes, holes, (n - 1) as nat);
        let h = (n - 1) as int;
        if removed(g, nodes, holes, h) && !g.holes[h].black { r.push(h as usize) } else { r }
    }
}

/// The holes of `s` that are live in `hs`, in order.
pub open spec fn pruned(hs: Seq<Hole>, s: Seq<usize>) -> Seq<usize>
    decreases s.len(),
{
    if s.len() == 0 {
        s
    } else {
        let r = pruned(hs, s.drop_last());
        let h = s.last();
        if h < hs.len() && hs[h as int].alive { r.push(h) } else { r }
    }
}

/// Whether `s` lists a white hole that is dead in `hs`.
pub open spec fn lost_white(hs: Seq<Hole>, s: Seq<usize>) -> bool
    decreases s.len(),
{
    if s.len() == 0 {
        false
    } else {
        let h = s.last();
        lost_white(hs, s.drop_last()) || (h < hs.len() && !hs[h as int].alive && !hs[h as int].black)
    }
}

/// The effect of deleting the nodes `nodes` and the holes `holes` of `g`.
/// Every connection that touches a deleted node, or one of whose holes is
/// deleted, goes; its white hole is queued for its arrow to be taken down.
/// A surviving node keeps its hole list less the holes that went, in order,
/// and has lost an input when one of them was white. The order-changed event
/// is raised when a live node is deleted.
pub open spec fn deleted(g: GraphModel, g2: GraphModel, nodes: Seq<usize>, holes: Seq<usize>) -> bool {
    &&& g2.holes.len() == g.holes.len()
    &&& forall|h: int| 0 <= h < g.holes.len() ==> #[trigger] g2.holes[h] == if removed(g, nodes, holes, h) {
        Hole { alive: false, ..g.holes[h] }
    } else {
        g.holes[h]
    }
    &&& g2.nodes.len() == g.nodes.len()
    &&& forall|n: int| 0 <= n < g.nodes.len() ==> #[trigger] g2.nodes[n] == if nodes.contains(n as usize) {
        NodeModel { alive: false, holes: Seq::empty(), ..g.nodes[n] }
    } else {
        NodeModel {
            holes: pruned(g2.holes, g.nodes[n].holes),
            lost_input: g.nodes[n].lost_input || lost_white(g2.holes, g.nodes[n].holes),
            ..g.nodes[n]
        }
    }
    &&& g2.order_changed == (g.order_changed || exists|i: int| 0 <= i < nodes.len() && live_node(g, #[trigger] nodes[i]))
    &&& g2.dropped == g.dropped + removed_whites(g, nodes, holes, g.holes.len() as nat)
}

/// Connecting A to B when A's rank is not below B's leaves B exactly one
/// rank above A, and changes the rank of no other node.
pub proof fn law_connect_raises_order(
    g: GraphModel,
    g2: GraphModel,
    a: usize,
    b: usize,
    link_types: (i8, i8),
    r: Option<(usize, usize)>,
)
    requires
        connected(g, g2, a, b, link_types, r),
        a != b,
        live_node(g, a),
        live_node(g, b),
        g.nodes[a as int].order >= g.nodes[b as int].order,
        g.nodes[a as int].order < u64::MAX,
    ensures
        g2.nodes[b as int].order == g.nodes[a as int].order + 1,
        g2.nodes.len() == g.nodes.len(),
        forall|n: int| 0 <= n < g.nodes.len() && n != b ==> #[trigger] g2.nodes[n].order == g.nodes[n].order,
{
}

/// Creating a connection and then removing it, through either of its holes,
/// gives both endpoints back the hole lists they had before, and lowers no
/// order rank that the creation raised.
pub proof fn law_connect_then_remove(
    g0: GraphModel,
    g1: GraphModel,
    g2: GraphModel,
    src: usize,
    dst: usize,
    link_types: (i8, i8),
    r: Option<(usize, usize)>,
    hole: usize,
)
    requires
        wf(g0),
        g0.holes.len() + 2 <= usize::MAX,
        connected(g0, g1, src, dst, link_types, r),
        r.is_some(),
        hole == r.unwrap().0 || hole == r.unwrap().1,
        disconnected(g1, g2, hole),
    ensures
        g2.nodes[src as int].holes == g0.nodes[src as int].holes,
        g2.nodes[dst as int].holes == g0.nodes[dst as int].holes,
        g2.nodes.len() == g1.nodes.len(),
        forall|n: int| 0 <= n < g1.nodes.len() ==> #[trigger] g2.nodes[n].order == g1.nodes[n].order,
        g2.nodes[dst as int].order >= g0.nodes[dst as int].order,
{
    let bh = g0.holes.len() as usize;
    let wh = (g0.holes.len() + 1) as usize;
    let sl = g0.nodes[src as int].holes;
    let dl = g0.nodes[dst as int].holes;
    assert(live_node(g0, src) && live_node(g0, dst) && src != dst);
    assert(!sl.contains(bh)) by {
        if sl.contains(bh) {
            let j = choose|j: int| 0 <= j < sl.len() && sl[j] == bh;
            assert(live_hole(g0, sl[j]));
        }
    }
    assert(!dl.contains(wh)) by {
        if dl.contains(wh) {
            let j = choose|j: int| 0 <= j < dl.len() && dl[j] == wh;
            assert(live_hole(g0, dl[j]));
        }
    }
    assert(g1.holes[bh as int].parent == src);
    assert(g1.holes[wh as int].parent == dst);
    assert(sl.push(bh).drop_last() =~= sl);
    assert(dl.push(wh).drop_last() =~= dl);
    lemma_without_absent(sl, bh);
    lemma_without_absent(dl, wh);
}

/// Deleting a node takes it out together with every connection that touches
/// it: afterwards every hole that a surviving node lists is live and belongs
/// to no connection with the deleted node, and the white hole of each
/// connection that went is queued for its arrow to be taken down.
#[verifier::rlimit(60)]
pub proof fn law_delete_leaves_no_dangling(g: GraphModel, g2: GraphModel, id: usize)
    requires
        wf(g),
        wf(g2),
        g.holes.len() <= usize::MAX,
        live_node(g, id),
        deleted(g, g2, seq![id], Seq::empty()),
    ensures
        !live_node(g2, id),
        forall|h: int| 0 <= h < g.holes.len() && g.holes[h].alive && touches(g, h, id) ==> !(#[trigger] g2.holes[h]).alive,
        forall|n: int, j: int|
            0 <= n < g2.nodes.len() && g2.nodes[n].alive && 0 <= j < g2.nodes[n].holes.len() ==> {
                let h = #[trigger] g2.nodes[n].holes[j];
                &&& live_hole(g2, h)
                &&& g2.holes[h as int].parent != id
                &&& g2.holes[h as int].partner_parent != id
            },
        forall|h: usize| #[trigger] g2.dropped.contains(h) <==> (g.dropped.contains(h) || (
            h < g.holes.len() && g.holes[h as int].alive && !g.holes[h as int].black && touches(g, h as int, id))),
{
    let nodes = seq![id];
    let holes = Seq::<usize>::empty();
    assert(nodes[0] == id);
    assert(nodes.contains(id));
    assert(!g2.nodes[id as int].alive);
    assert forall|h: int| 0 <= h < g.holes.len() && g.holes[h].alive && touches(g, h, id) implies !(#[trigger] g2.holes[h]).alive by {
        assert(removed(g, nodes, holes, h));
    }
    lemma_no_dangling(g2, id);
    lemma_deleted_queue(g, g2, id);
}

proof fn lemma_no_dangling(g2: GraphModel, id: usize)
    requires
        wf(g2),
        !live_node(g2, id),
    ensures
        forall|n: int, j: int|
            0 <= n < g2.nodes.len() && g2.nodes[n].alive && 0 <= j < g2.nodes[n].holes.len() ==> {
                let h = #[trigger] g2.nodes[n].holes[j];
                &&& live_hole(g2, h)
                &&& g2.holes[h as int].parent != id
                &&& g2.holes[h as int].partner_parent != id
            },
{
    assert forall|n: int, j: int|
        0 <= n < g2.nodes.len() && g2.nodes[n].alive && 0 <= j < g2.nodes[n].holes.len() implies {
            let h = #[trigger] g2.nodes[n].holes[j];
            &&& live_hole(g2, h)
            &&& g2.holes[h as int].parent != id
            &&& g2.holes[h as int].partner_parent != id
        } by {
        let h = g2.nodes[n].holes[j];
        let x = g2.holes[h as int];
        assert(live_hole(g2, x.partner));
        assert(live_node(g2, g2.holes[x.partner as int].parent));
    }
}

proof fn lemma_deleted_queue(g: GraphModel, g2: GraphModel, id: usize)
    requires
        g.holes.len() <= usize::MAX,
        deleted(g, g2, seq![id], Seq::empty()),
    ensures
        forall|h: usize| #[trigger] g2.dropped.contains(h) <==> (g.dropped.contains(h) || (
            h < g.holes.len() && g.holes[h as int].alive && !g.holes[h as int].black && touches(g, h as int, id))),
{
    let nodes = seq![id];
    let holes = Seq::<usize>::empty();
    let rw = removed_whites(g, nodes, holes, g.holes.len() as nat);
    lemma_removed_whites(g, nodes, holes, g.holes.len() as nat);
    assert forall|h: usize| #[trigger] g2.dropped.contains(h) <==> (g.dropped.contains(h) || (
        h < g.holes.len() && g.holes[h as int].alive && !g.holes[h as int].black && touches(g, h as int, id))) by {
        lemma_concat_contains(g.dropped, rw, h);
        if h < g.holes.len() {
            let x = g.holes[h as int];
            assert(nodes.contains(x.parent) <==> x.parent == id) by {
                if x.parent == id { assert(nodes[0] == id); }
            }
            assert(nodes.contains(x.partner_parent) <==> x.partner_parent == id) by {
                if x.partner_parent == id { assert(nodes[0] == id); }
            }
            assert(!holes.contains(h));
            assert(!holes.contains(x.partner));
        }
    }
}

proof fn lemma_concat_contains(a: Seq<usize>, b: Seq<usize>, x: usize)
    ensures
        (a + b).contains(x) <==> (a.contains(x) || b.contains(x)),
{
    if (a + b).contains(x) {
        let j = choose|j: int| 0 <= j < (a + b).len() && (a + b)[j] == x;
        if j >= a.len() {
            assert(b[j - a.len()] == x);
        }
    }
    if a.contains(x) {
        let j = choose|j: int| 0 <= j < a.len() && a[j] == x;
        assert((a + b)[j] == x);
    }
    if b.contains(x) {
        let j = choose|j: int| 0 <= j < b.len() && b[j] == x;
        assert((a + b)[a.len() + j] == x);
    }
}

proof fn lemma_removed_whites(g: GraphModel, nodes: Seq<usize>, holes: Seq<usize>, n: nat)
    requires
        n <= usize::MAX,
    ensures
        forall|h: usize| #[trigger] removed_whites(g, nodes, holes, n).contains(h) <==> (
            h < n && removed(g, nodes, holes, h as int) && !g.holes[h as int].black),
        removed_whites(g, nodes, holes, n).no_duplicates(),
    decreases n,
{
    if n > 0 {
        lemma_removed_whites(g, nodes, holes, (n - 1) as nat);
        let r = removed_whites(g, nodes, holes, (n - 1) as nat);
        let k = (n - 1) as int;
        let cur = removed_whites(g, nodes, holes, n);
        if removed(g, nodes, holes, k) && !g.holes[k].black {
            assert(cur == r.push(k as usize));
            assert(r.push(k as usize).drop_last() =~= r);
            assert(!r.contains(k as usize));
            assert forall|h: usize| #[trigger] cur.contains(h) <==> (
                h < n && removed(g, nodes, holes, h as int) && !g.holes[h as int].black) by {
                lemma_contains_split(r.push(k as usize), h);
                assert(r.contains(h) <==> (h < n - 1 && removed(g, nodes, holes, h as int) && !g.holes[h as int].black));
            }
            assert forall|i: int, j: int| 0 <= i < cur.len() && 0 <= j < cur.len() && i != j implies cur[i] != cur[j] by {
                if i == r.len() {
                    assert(r.contains(cur[j]) ==> cur[j] != cur[i]);
                    assert(r[j] == cur[j]);
                } else if j == r.len() {
                    assert(r[i] == cur[i]);
                } else {
                    assert(r[i] == cur[i] && r[j] == cur[j]);
                }
            }
        } else {
            assert(cur == r);
            assert forall|h: usize| #[trigger] cur.contains(h) <==> (
                h < n && removed(g, nodes, holes, h as int) && !g.holes[h as int].black) by {
                assert(r.contains(h) <==> (h < n - 1 && removed(g, nodes, holes, h as int) && !g.holes[h as int].black));
            }
        }
    }
}

proof fn lemma_pruned(hs: Seq<Hole>, s: Seq<usize>)
    ensures
        forall|h: usize| #[trigger] pruned(hs, s).contains(h) <==> (s.contains(h) && h < hs.len() && hs[h as int].alive),
        lost_white(hs, s) <==> exists|h: usize| s.contains(h) && h < hs.len() && !hs[h as int].alive && !hs[h as int].black,
    decreases s.len(),
{
    if s.len() > 0 {
        lemma_pruned(hs, s.drop_last());
        let r = pruned(hs, s.drop_last());
        let h0 = s.last();
        assert forall|h: usize| #[trigger] pruned(hs, s).contains(h) <==> (s.contains(h) && h < hs.len() && hs[h as int].alive) by {
            lemma_contains_split(s, h);
            if h0 < hs.len() && hs[h0 as int].alive {
                assert(r.push(h0).drop_last() =~= r);
                lemma_contains_split(r.push(h0), h);
            }
        }
        if lost_white(hs, s) {
            if lost_white(hs, s.drop_last()) {
                let w = choose|w: usize| s.drop_last().contains(w) && w < hs.len() && !hs[w as int].alive && !hs[w as int].black;
                lemma_contains_split(s, w);
            } else {
                lemma_contains_split(s, h0);
            }
        }
        if exists|h: usize| s.contains(h) && h < hs.len() && !hs[h as int].alive && !hs[h as int].black {
            let w = choose|w: usize| s.contains(w) && w < hs.len() && !hs[w as int].alive && !hs[w as int].black;
            lemma_contains_split(s, w);
        }
    }
}

/// `n` after a tick: its unit recompiled when its operator changed, and its
/// change flags cleared.
pub open spec fn ticked(n: NodeModel) -> NodeModel {
    NodeModel {
        unit: if n.op_changed { compile(n.op) } else { n.unit },
        op_changed: false,
        lost_input: false,
        gained_input: false,
        ..n
    }
}

/// Whether `s` lists each live node of `g` once, and nothing else, in
/// ascending order rank.
pub open spec fn rank_order(g: GraphModel, s: Seq<usize>) -> bool {
    &&& s.no_duplicates()
    &&& forall|i: int| 0 <= i < s.len() ==> live_node(g, #[trigger] s[i])
    &&& forall|n: usize| live_node(g, n) ==> s.contains(n)
    &&& forall|i: int, j: int|
        0 <= i < j < s.len() ==> g.nodes[s[i] as int].order <= g.nodes[s[j] as int].order
}

/// An incoming connection of a node.
#[derive(Clone, Copy, PartialEq, Eq, Structural, Debug)]
pub struct Wire {
    /// The connection's white hole.
    pub hole: usize,
    /// The source node.
    pub from: usize,
    pub producer: i8,
    pub consumer: i8,
}

/// The incoming connections among the holes `hs`, in list order.
pub open spec fn wires(g: GraphModel, hs: Seq<usize>) -> Seq<Wire>
    decreases hs.len(),
{
    if hs.len() == 0 {
        Seq::<Wire>::empty()
    } else {
        let r = wires(g, hs.drop_last());
        let h = hs.last();
        if h < g.holes.len() && !g.holes[h as int].black {
            let x = g.holes[h as int];
            r.push(Wire { hole: h, from: x.partner_parent, producer: x.producer, consumer: x.consumer })
        } else {
            r
        }
    }
}

/// What one node went through in a tick.
#[derive(Clone, Copy, PartialEq, Eq, Structural, Debug)]
pub struct Step {
    pub node: usize,
    /// Its operator changed, and its unit was compiled anew.
    pub recompiled: bool,
    /// It gained or lost an input, and its input wiring is to be rebuilt.
    pub rewired: bool,
}

/// Whether opening the outgoing connections of `id` whose producer code is
/// among `codes` opens the white hole `h`.
pub open spec fn opens(g: GraphModel, id: usize, codes: Seq<i8>, h: int) -> bool {
    &&& live_node(g, id)
    &&& g.holes[h].alive
    &&& !g.holes[h].black
    &&& g.holes[h].partner_parent == id
    &&& codes.contains(g.holes[h].producer)
}

/// A link-type code one step up or down, held within the range of `i8`.
pub open spec fn stepped(code: i8, up: bool) -> i8 {
    if up {
        if code < 127 { (code + 1) as i8 } else { code }
    } else {
        if code > -128 { (code - 1) as i8 } else { code }
    }
}

/// The wires of `ws` that carry audio: both codes name numbered ports.
pub open spec fn audio_wires(ws: Seq<Wire>) -> Seq<Wire>
    decreases ws.len(),
{
    if ws.len() == 0 {
        ws
    } else {
        let r = audio_wires(ws.drop_last());
        let w = ws.last();
        if w.producer >= 0 && w.consumer >= 0 { r.push(w) } else { r }
    }
}

/// The wires of `ws` that carry a value from one symbolic channel of the
/// source to one of the destination: both codes are negative.
pub open spec fn value_wires(ws: Seq<Wire>) -> Seq<Wire>
    decreases ws.len(),
{
    if ws.len() == 0 {
        ws
    } else {
        let r = value_wires(ws.drop_last());
        let w = ws.last();
        if w.producer < 0 && w.consumer < 0 { r.push(w) } else { r }
    }
}

/// Whether the white hole `h` of `g`, owned by `id`, delivers a value: it is
/// marked changed and links a symbolic channel of the source to the same
/// channel of `id`.
pub open spec fn delivers(g: GraphModel, h: usize) -> bool {
    let x = g.holes[h as int];
    h < g.holes.len() && !x.black && x.changed && x.producer < 0 && x.producer == x.consumer
}

/// The wires among the holes `hs` that deliver a value, in list order.
pub open spec fn transfers(g: GraphModel, hs: Seq<usize>) -> Seq<Wire>
    decreases hs.len(),
{
    if hs.len() == 0 {
        Seq::<Wire>::empty()
    } else {
        let r = transfers(g, hs.drop_last());
        let h = hs.last();
        if delivers(g, h) {
            let x = g.holes[h as int];
            r.push(Wire { hole: h, from: x.partner_parent, producer: x.producer, consumer: x.consumer })
        } else {
            r
        }
    }
}

/// The wires along which node `id` takes a value in `g`.
pub open spec fn value_transfers(g: GraphModel, id: usize) -> Seq<Wire> {
    transfers(g, g.nodes[id as int].holes)
}

/// `g` after node `id` took its values: its live white holes are no longer
/// marked changed, and the live white holes that it feeds on a channel that
/// it took a value on are marked changed.
pub open spec fn after_propagation(g: GraphModel, id: usize) -> GraphModel {
    let channels = value_transfers(g, id).map_values(|w: Wire| w.consumer);
    GraphModel {
        holes: Seq::new(g.holes.len(), |h: int| {
            let x = g.holes[h];
            if x.alive && !x.black && x.parent == id {
                Hole { changed: false, ..x }
            } else if x.alive && !x.black && x.partner_parent == id && channels.contains(x.producer) {
                Hole { changed: true, ..x }
            } else {
                x
            }
        }),
        ..g
    }
}

/// The audio links into node `to` among the wires `ws`, as
/// `(from, output port, to, input port)`: those whose ports exist on the
/// two units.
pub open spec fn kept_links(g: GraphModel, to: usize, ws: Seq<Wire>) -> Seq<(usize, usize, usize, usize)>
    decreases ws.len(),
{
    if ws.len() == 0 {
        Seq::empty()
    } else {
        let r = kept_links(g, to, ws.drop_last());
        let w = ws.last();
        if w.from < g.nodes.len() && (w.producer as int) < unit_outputs(g.nodes[w.from as int].unit)
            && (w.consumer as int) < unit_inputs(g.nodes[to as int].unit) {
            r.push((w.from, w.producer as usize, to, w.consumer as usize))
        } else {
            r
        }
    }
}

/// The audio links of the composite network, node by node in `order`.
pub open spec fn plan(g: GraphModel, order: Seq<usize>) -> Seq<(usize, usize, usize, usize)>
    decreases order.len(),
{
    if order.len() == 0 {
        Seq::empty()
    } else {
        let to = order.last();
        plan(g, order.drop_last()) + kept_links(g, to, audio_wires(wires(g, g.nodes[to as int].holes)))
    }
}

/// The last node of `order` whose unit has an output.
pub open spec fn last_sounding(g: GraphModel, order: Seq<usize>) -> Option<usize>
    decreases order.len(),
{
    if order.len() == 0 {
        None
    } else if unit_outputs(g.nodes[order.last() as int].unit) > 0 {
        Some(order.last())
    } else {
        last_sounding(g, order.drop_last())
    }
}

proof fn lemma_audio_wires_signs(ws: Seq<Wire>)
    ensures
        forall|w: Wire| #[trigger] audio_wires(ws).contains(w) ==> w.producer >= 0 && w.consumer >= 0,
    decreases ws.len(),
{
    if ws.len() > 0 {
        lemma_audio_wires_signs(ws.drop_last());
        let r = audio_wires(ws.drop_last());
        let w0 = ws.last();
        assert forall|w: Wire| #[trigger] audio_wires(ws).contains(w) implies w.producer >= 0 && w.consumer >= 0 by {
            if w0.producer >= 0 && w0.consumer >= 0 {
                let j = choose|j: int| 0 <= j < r.len() + 1 && r.push(w0)[j] == w;
                if j < r.len() {
                    assert(r[j] == w);
                    assert(r.contains(w));
                }
            } else {
                assert(audio_wires(ws) == r);
                assert(r.contains(w));
            }
        }
    }
}

proof fn lemma_last_sounding_skip(g: GraphModel, order: Seq<usize>)
    requires
        order.len() > 0,
        unit_outputs(g.nodes[order.last() as int].unit) == 0,
    ensures
        last_sounding(g, order) == last_sounding(g, order.drop_last()),
{
}

proof fn lemma_pruned_all_alive(hs: Seq<Hole>, s: Seq<usize>)
    requires
        forall|j: int| 0 <= j < s.len() ==> #[trigger] s[j] < hs.len() && hs[s[j] as int].alive,
    ensures
        pruned(hs, s) == s,
    decreases s.len(),
{
    if s.len() > 0 {
        lemma_pruned_all_alive(hs, s.drop_last());
        assert(s[s.len() - 1] == s.last());
        assert(s.drop_last().push(s.last()) =~= s);
    }
}

/// Creating a connection and then deleting one of its holes as a selection
/// gives both endpoints back the hole lists they had before, and lowers no
/// order rank that the creation raised.
pub proof fn law_connect_then_delete_hole(
    g0: GraphModel,
    g1: GraphModel,
    g2: GraphModel,
    src: usize,
    dst: usize,
    link_types: (i8, i8),
    r: Option<(usize, usize)>,
    hole: usize,
)
    requires
        wf(g0),
        g0.holes.len() + 2 <= usize::MAX,
        connected(g0, g1, src, dst, link_types, r),
        r.is_some(),
        hole == r.unwrap().0 || hole == r.unwrap().1,
        deleted(g1, g2, Seq::empty(), seq![hole]),
    ensures
        g2.nodes[src as int].holes == g0.nodes[src as int].holes,
        g2.nodes[dst as int].holes == g0.nodes[dst as int].holes,
        g2.nodes.len() == g1.nodes.len(),
        forall|n: int| 0 <= n < g1.nodes.len() ==> #[trigger] g2.nodes[n].order == g1.nodes[n].order,
        g2.nodes[dst as int].order >= g0.nodes[dst as int].order,
{
    let bh = g0.holes.len() as usize;
    let wh = (g0.holes.len() + 1) as usize;
    let nodes = Seq::<usize>::empty();
    let holes = seq![hole];
    assert(live_node(g0, src) && live_node(g0, dst) && src != dst);
    assert(holes[0] == hole);
    assert(!nodes.contains(src) && !nodes.contains(dst));
    assert forall|n: int| 0 <= n < g1.nodes.len() implies #[trigger] g2.nodes[n].order == g1.nodes[n].order by {
        assert(!nodes.contains(n as usize));
    }
    assert(removed(g1, nodes, holes, bh as int));
    assert(removed(g1, nodes, holes, wh as int));
    let sl = g0.nodes[src as int].holes;
    let dl = g0.nodes[dst as int].holes;
    assert(g1.nodes[src as int].holes == sl.push(bh));
    assert(g1.nodes[dst as int].holes == dl.push(wh));
    assert(sl.push(bh).drop_last() =~= sl);
    assert(dl.push(wh).drop_last() =~= dl);
    assert(pruned(g2.holes, sl.push(bh)) == pruned(g2.holes, sl));
    assert(pruned(g2.holes, dl.push(wh)) == pruned(g2.holes, dl));
    assert forall|j: int| 0 <= j < sl.len() implies #[trigger] sl[j] < g2.holes.len() && g2.holes[sl[j] as int].alive by {
        let h = sl[j];
        assert(live_hole(g0, h));
        assert(live_hole(g0, g0.holes[h as int].partner));
        assert(g1.holes[h as int] == g0.holes[h as int]);
        assert(!holes.contains(h)) by { if holes.contains(h) { assert(holes[0] == h); } }
        assert(!holes.contains(g0.holes[h as int].partner)) by {
            if holes.contains(g0.holes[h as int].partner) { assert(holes[0] == g0.holes[h as int].partner); }
        }
        assert(!removed(g1, nodes, holes, h as int));
    }
    assert forall|j: int| 0 <= j < dl.len() implies #[trigger] dl[j] < g2.holes.len() && g2.holes[dl[j] as int].alive by {
        let h = dl[j];
        assert(live_hole(g0, h));
        assert(live_hole(g0, g0.holes[h as int].partner));
        assert(g1.holes[h as int] == g0.holes[h as int]);
        assert(!holes.contains(h)) by { if holes.contains(h) { assert(holes[0] == h); } }
        assert(!holes.contains(g0.holes[h as int].partner)) by {
            if holes.contains(g0.holes[h as int].partner) { assert(holes[0] == g0.holes[h as int].partner); }
        }
        assert(!removed(g1, nodes, holes, h as int));
    }
    lemma_pruned_all_alive(g2.holes, sl);
    lemma_pruned_all_alive(g2.holes, dl);
}

fn contains_id(v: &Vec<usize>, x: usize) -> (r: bool)
    ensures
        r == v@.contains(x),
{
    let mut i: usize = 0;
    while i < v.len()
        invariant
            i <= v@.len(),
            forall|j: int| 0 <= j < i ==> v@[j] != x,
        decreases v@.len() - i,
    {
        if v[i] == x {
            assert(v@[i as int] == x);
            return true;
        }
        i += 1;
    }
    false
}

fn prune(s: &Vec<usize>, hs: &Vec<Hole>) -> (r: (Vec<usize>, bool))
    ensures
        r.0@ == pruned(hs@, s@),
        r.1 == lost_white(hs@, s@),
{
    let mut out: Vec<usize> = Vec::new();
    let mut lost = false;
    let mut i: usize = 0;
    while i < s.len()
        invariant
            i <= s@.len(),
            out@ == pruned(hs@, s@.take(i as int)),
            lost == lost_white(hs@, s@.take(i as int)),
        decreases s@.len() - i,
    {
        assert(s@.take(i + 1 as int).drop_last() =~= s@.take(i as int));
        let h = s[i];
        if h < hs.len() {
            if hs[h].alive {
                out.push(h);
            } else if !hs[h].black {
                lost = true;
            }
        }
        i += 1;
    }
    assert(s@.take(i as int) =~= s@);
    (out, lost)
}

impl Graph {
    /// An empty patch.
    pub fn new() -> (r: Graph)
        ensures
            wf(r@),
            r@.nodes.len() == 0,
            r@.holes.len() == 0,
            !r@.order_changed,
            r@.dropped.len() == 0,
    {
        Graph { nodes: Vec::new(), holes: Vec::new(), order_changed: false, dropped: Vec::new() }
    }

    /// The number of node slots, live or dead.
    pub fn node_slots(&self) -> (r: usize)
        ensures
            r == self@.nodes.len(),
    {
        self.nodes.len()
    }

    /// The number of hole slots, live or dead.
    pub fn hole_slots(&self) -> (r: usize)
        ensures
            r == self@.holes.len(),
    {
        self.holes.len()
    }

    /// Whether `id` names a live node.
    pub fn is_node(&self, id: usize) -> (r: bool)
        ensures
            r == live_node(self@, id),
    {
        id < self.nodes.len() && self.nodes[id].alive
    }

    /// The node in slot `id`.
    pub fn node(&self, id: usize) -> (r: &Node)
        requires
            id < self@.nodes.len(),
        ensures
            r@ == self@.nodes[id as int],
    {
        &self.nodes[id]
    }

    /// The hole in slot `h`.
    pub fn hole(&self, h: usize) -> (r: Hole)
        requires
            h < self@.holes.len(),
        ensures
            r == self@.holes[h as int],
    {
        self.holes[h]
    }

    /// Creates a node with the operator string `empty`, order 0, no holes and
    /// the empty unit.
    pub fn add_node(&mut self) -> (id: usize)
        requires
            wf(old(self)@),
        ensures
            wf(final(self)@),
            id == old(self)@.nodes.len(),
            final(self)@.nodes == old(self)@.nodes.push(
                NodeModel {
                    alive: true,
                    op: "empty"@,
                    order: 0,
                    holes: Seq::empty(),
                    targets: Seq::empty(),
                    unit: UnitModel::Empty,
                    op_changed: false,
                    lost_input: false,
                    gained_input: false,
                },
            ),
            final(self)@.holes == old(self)@.holes,
            final(self)@.order_changed == old(self)@.order_changed,
            final(self)@.dropped == old(self)@.dropped,
    {
        let id = self.nodes.len();
        let node = Node {
            alive: true,
            op: chars_of("empty"),
            order: 0,
            holes: Vec::new(),
            targets: Vec::new(),
            unit: Unit::Empty,
            op_changed: false,
            lost_input: false,
            gained_input: false,
        };
        self.nodes.push(node);
        assert(self@.nodes =~= old(self)@.nodes.push(node@));
        assert forall|h: int| 0 <= h < self@.holes.len() && (#[trigger] self@.holes[h]).alive implies
            self@.nodes[self@.holes[h].parent as int].holes.contains(h as usize) by {
            assert(self@.nodes[self@.holes[h].parent as int] == old(self)@.nodes[self@.holes[h].parent as int]);
        }
        id
    }

    /// Connects `src` to `dst`: a black hole on `src` and a white hole on
    /// `dst` carrying `link_types`. The destination gains an input, and its
    /// order rank is raised above the source's when it is not already. The
    /// new white hole is open and marked changed, so that a value waiting on
    /// its channel is delivered at the next propagation. Refused
    /// (no change, `None`) when `src == dst` or either is not a live node.
    pub fn connect(&mut self, src: usize, dst: usize, link_types: (i8, i8)) -> (r: Option<(usize, usize)>)
        requires
            wf(old(self)@),
            old(self)@.holes.len() + 2 <= usize::MAX,
        ensures
            wf(final(self)@),
            connected(old(self)@, final(self)@, src, dst, link_types, r),
    {
        if src == dst || !self.is_node(src) || !self.is_node(dst) {
            return None;
        }
        let ghost g = self@;
        let bh = self.holes.len();
        let wh = bh + 1;
        self.holes.push(
            Hole {
                alive: true,
                black: true,
                parent: src,
                partner: wh,
                partner_parent: dst,
                producer: 0,
                consumer: 0,
                open: false,
                changed: false,
            },
        );
        self.holes.push(
            Hole {
                alive: true,
                black: false,
                parent: dst,
                partner: bh,
                partner_parent: src,
                producer: link_types.0,
                consumer: link_types.1,
                open: true,
                changed: true,
            },
        );
        self.nodes[src].holes.push(bh);
        self.nodes[dst].holes.push(wh);
        self.nodes[dst].gained_input = true;
        let s_order = self.nodes[src].order;
        let d_order = self.nodes[dst].order;
        if d_order <= s_order {
            let rank = if s_order < u64::MAX { s_order + 1 } else { u64::MAX };
            self.nodes[dst].order = rank;
            if rank != d_order {
                self.order_changed = true;
            }
        }
        proof {
            let g2 = self@;
            assert(g2.nodes[src as int] =~= with_holes(g.nodes[src as int], g.nodes[src as int].holes.push(bh)));
            assert forall|n: int, j: int|
                0 <= n < g2.nodes.len() && g2.nodes[n].alive && 0 <= j < g2.nodes[n].holes.len() implies {
                    let h = #[trigger] g2.nodes[n].holes[j];
                    &&& live_hole(g2, h)
                    &&& g2.holes[h as int].parent == n
                } by {
                if n != src && n != dst {
                    assert(g2.nodes[n] == g.nodes[n]);
                } else if j < g.nodes[n].holes.len() {
                    assert(g2.nodes[n].holes[j] == g.nodes[n].holes[j]);
                }
            }
            assert forall|h: int| 0 <= h < g2.holes.len() && (#[trigger] g2.holes[h]).alive implies {
                let x = g2.holes[h];
                &&& live_node(g2, x.parent)
                &&& g2.nodes[x.parent as int].holes.contains(h as usize)
                &&& live_hole(g2, x.partner)
                &&& g2.holes[x.partner as int].partner == h
                &&& g2.holes[x.partner as int].parent == x.partner_parent
                &&& g2.holes[x.partner as int].black != x.black
                &&& x.partner != h
                &&& x.partner_parent != x.parent
            } by {
                if h < g.holes.len() {
                    assert(g2.holes[h] == g.holes[h]);
                    let p = g.holes[h].parent;
                    let k = choose|k: int| 0 <= k < g.nodes[p as int].holes.len() && g.nodes[p as int].holes[k] == h as usize;
                    assert(g2.nodes[p as int].holes[k] == h as usize);
                } else if h == bh {
                    assert(g2.nodes[src as int].holes[g.nodes[src as int].holes.len() as int] == bh);
                } else {
                    assert(g2.nodes[dst as int].holes[g.nodes[dst as int].holes.len() as int] == wh);
                }
            }
            assert forall|n: int| 0 <= n < g2.nodes.len() && !(#[trigger] g2.nodes[n]).alive implies
                g2.nodes[n].holes.len() == 0 by {
                assert(g2.nodes[n].alive == g.nodes[n].alive);
            }
        }
        Some((bh, wh))
    }

    /// Removes the connection that the hole `hole` belongs to: both holes are
    /// taken off their owners' lists, the destination has lost an input, and
    /// the connection's arrow is queued for removal. A hole that is not live
    /// is ignored.
    #[verifier::rlimit(80)]
    pub fn remove_connection(&mut self, hole: usize)
        requires
            wf(old(self)@),
        ensures
            wf(final(self)@),
            disconnected(old(self)@, final(self)@, hole),
    {
        if hole >= self.holes.len() || !self.holes[hole].alive {
            return;
        }
        let ghost g = self@;
        let x = self.holes[hole];
        let (bh, wh) = if x.black { (hole, x.partner) } else { (x.partner, hole) };
        let b = self.holes[bh];
        let w = self.holes[wh];
        proof {
            let p = g.holes[hole as int].parent;
            assert(g.nodes[p as int].holes.contains(hole));
        }
        let bl = remove_id(&self.nodes[b.parent].holes, bh);
        self.nodes[b.parent].holes = bl;
        let wl = remove_id(&self.nodes[w.parent].holes, wh);
        self.nodes[w.parent].holes = wl;
        self.nodes[w.parent].lost_input = true;
        self.holes.set(bh, Hole { alive: false, ..b });
        self.holes.set(wh, Hole { alive: false, ..w });
        self.dropped.push(wh);
        proof {
            let g2 = self@;
            assert(b.black != w.black);
            assert(b.parent != w.parent);
            assert(g2.nodes[b.parent as int] =~= with_holes(g.nodes[b.parent as int], without(g.nodes[b.parent as int].holes, bh)));
            assert(g2.nodes[w.parent as int] =~= (NodeModel {
                holes: without(g.nodes[w.parent as int].holes, wh),
                lost_input: true,
                ..g.nodes[w.parent as int]
            }));
            assert forall|n: int, j: int|
                0 <= n < g2.nodes.len() && g2.nodes[n].alive && 0 <= j < g2.nodes[n].holes.len() implies {
                    let h = #[trigger] g2.nodes[n].holes[j];
                    &&& live_hole(g2, h)
                    &&& g2.holes[h as int].parent == n
                } by {
                let h = g2.nodes[n].holes[j];
                if n == b.parent || n == w.parent {
                    lemma_without_contains(g.nodes[b.parent as int].holes, bh, h);
                    lemma_without_contains(g.nodes[w.parent as int].holes, wh, h);
                    lemma_without_contains(without(g.nodes[b.parent as int].holes, bh), wh, h);
                    assert(g2.nodes[n].holes.contains(h));
                    assert(g.nodes[n].holes.contains(h));
                    let k = choose|k: int| 0 <= k < g.nodes[n].holes.len() && g.nodes[n].holes[k] == h;
                    assert(g.holes[h as int].parent == n);
                    assert(h != bh && h != wh);
                } else {
                    assert(g2.nodes[n] == g.nodes[n]);
                    assert(g.holes[h as int].parent == n);
                    assert(h != bh && h != wh);
                }
            }
            assert forall|h: int| 0 <= h < g2.holes.len() && (#[trigger] g2.holes[h]).alive implies {
                let y = g2.holes[h];
                &&& live_node(g2, y.parent)
                &&& g2.nodes[y.parent as int].holes.contains(h as usize)
                &&& live_hole(g2, y.partner)
                &&& g2.holes[y.partner as int].partner == h
                &&& g2.holes[y.partner as int].parent == y.partner_parent
                &&& g2.holes[y.partner as int].black != y.black
                &&& y.partner != h
                &&& y.partner_parent != y.parent
            } by {
                assert(h != bh && h != wh);
                assert(g2.holes[h] == g.holes[h]);
                let y = g.holes[h];
                assert(y.partner != bh && y.partner != wh);
                lemma_without_contains(g.nodes[b.parent as int].holes, bh, h as usize);
                lemma_without_contains(g.nodes[w.parent as int].holes, wh, h as usize);
                lemma_without_contains(without(g.nodes[b.parent as int].holes, bh), wh, h as usize);
            }
            assert forall|n: int| 0 <= n < g2.nodes.len() && !(#[trigger] g2.nodes[n]).alive implies
                g2.nodes[n].holes.len() == 0 by {
                assert(g2.nodes[n].alive == g.nodes[n].alive);
            }
        }
    }

    /// Deletes the node `id` with every connection that touches it; see
    /// `delete_selected`. A node that is not live is left as it is.
    pub fn delete_node(&mut self, id: usize)
        requires
            wf(old(self)@),
        ensures
            wf(final(self)@),
            deleted(old(self)@, final(self)@, seq![id], Seq::empty()),
    {
        let mut nodes: Vec<usize> = Vec::new();
        nodes.push(id);
        let holes: Vec<usize> = Vec::new();
        assert(nodes@ =~= seq![id]);
        assert(holes@ =~= Seq::<usize>::empty());
        self.delete_selected(&nodes, &holes);
    }

    /// Deletes the selected nodes `nodes` and the selected holes `holes`:
    /// every connection that touches a selected node, or one of whose holes
    /// is selected, is removed, and the selected nodes go. Each surviving
    /// node keeps the rest of its hole list in order, and has lost an input
    /// when one of its white holes went. The white hole of every connection
    /// removed is queued for its arrow to be taken down, and the
    /// order-changed event is raised when a live node goes. Ids that name
    /// nothing live are ignored.
    pub fn delete_selected(&mut self, nodes: &Vec<usize>, holes: &Vec<usize>)
        requires
            wf(old(self)@),
        ensures
            wf(final(self)@),
            deleted(old(self)@, final(self)@, nodes@, holes@),
    {
        let ghost g = self@;
        // the order-changed event
        let mut k: usize = 0;
        while k < nodes.len()
            invariant
                k <= nodes@.len(),
                self@.nodes == g.nodes,
                self@.holes == g.holes,
                self@.dropped == g.dropped,
                self@.order_changed == (g.order_changed || exists|i: int| 0 <= i < k && live_node(g, #[trigger] nodes@[i])),
            decreases nodes@.len() - k,
        {
            if self.is_node(nodes[k]) {
                self.order_changed = true;
            }
            proof {
                if !live_node(g, nodes@[k as int]) && self@.order_changed && !g.order_changed {
                    let i = choose|i: int| 0 <= i < k && live_node(g, #[trigger] nodes@[i]);
                    assert(0 <= i < k + 1);
                }
                if live_node(g, nodes@[k as int]) {
                    assert(0 <= k < k + 1 && live_node(g, nodes@[k as int]));
                }
            }
            k += 1;
        }
        // the holes that go
        let n = self.holes.len();
        let mut h: usize = 0;
        while h < n
            invariant
                h <= n,
                n == g.holes.len(),
                self@.holes.len() == n,
                self@.nodes == g.nodes,
                self@.order_changed == (g.order_changed || exists|i: int| 0 <= i < nodes@.len() && live_node(g, #[trigger] nodes@[i])),
                forall|j: int| 0 <= j < h ==> #[trigger] self@.holes[j] == if removed(g, nodes@, holes@, j) {
                    Hole { alive: false, ..g.holes[j] }
                } else {
                    g.holes[j]
                },
                forall|j: int| h <= j < n ==> #[trigger] self@.holes[j] == g.holes[j],
                self@.dropped == g.dropped + removed_whites(g, nodes@, holes@, h as nat),
            decreases n - h,
        {
            let x = self.holes[h];
            let gone = x.alive && (contains_id(nodes, x.parent) || contains_id(nodes, x.partner_parent)
                || contains_id(holes, h) || contains_id(holes, x.partner));
            let ghost before = self@;
            if gone {
                self.holes.set(h, Hole { alive: false, ..x });
                if !x.black {
                    self.dropped.push(h);
                }
            }
            proof {
                assert(gone == removed(g, nodes@, holes@, h as int));
                let d = g.dropped + removed_whites(g, nodes@, holes@, h as nat);
                if gone && !x.black {
                    assert(self@.dropped =~= g.dropped + removed_whites(g, nodes@, holes@, (h + 1) as nat));
                } else {
                    assert(removed_whites(g, nodes@, holes@, (h + 1) as nat) == removed_whites(g, nodes@, holes@, h as nat));
                }
            }
            h += 1;
        }
        let ghost ga = self@;
        // the nodes
        let m = self.nodes.len();
        let mut i: usize = 0;
        while i < m
            invariant
                i <= m,
                m == g.nodes.len(),
                self@.nodes.len() == m,
                self@.holes == ga.holes,
                self@.holes.len() == self.holes@.len(),
                self@.dropped == ga.dropped,
                self@.order_changed == ga.order_changed,
                forall|j: int| 0 <= j < i ==> #[trigger] self@.nodes[j] == if nodes@.contains(j as usize) {
                    NodeModel { alive: false, holes: Seq::empty(), ..g.nodes[j] }
                } else {
                    NodeModel {
                        holes: pruned(ga.holes, g.nodes[j].holes),
                        lost_input: g.nodes[j].lost_input || lost_white(ga.holes, g.nodes[j].holes),
                        ..g.nodes[j]
                    }
                },
                forall|j: int| i <= j < m ==> #[trigger] self@.nodes[j] == g.nodes[j],
            decreases m - i,
        {
            let ghost before = self@;
            if contains_id(nodes, i) {
                assert(before.nodes[i as int] == g.nodes[i as int]);
                self.nodes[i].alive = false;
                self.nodes[i].holes = Vec::new();
                proof {
                    assert(self@.nodes[i as int].holes =~= Seq::<usize>::empty());
                    assert(self@.nodes[i as int] == NodeModel { alive: false, holes: Seq::empty(), ..g.nodes[i as int] });
                }
            } else {
                assert(before.nodes[i as int] == g.nodes[i as int]);
                let (list, lost) = prune(&self.nodes[i].holes, &self.holes);
                self.nodes[i].holes = list;
                if lost {
                    self.nodes[i].lost_input = true;
                }
                proof {
                    assert(self@.nodes[i as int] == NodeModel {
                        holes: pruned(ga.holes, g.nodes[i as int].holes),
                        lost_input: g.nodes[i as int].lost_input || lost_white(ga.holes, g.nodes[i as int].holes),
                        ..g.nodes[i as int]
                    });
                }
            }
            proof {
                assert forall|j: int| 0 <= j < m && j != i implies #[trigger] self@.nodes[j] == before.nodes[j] by {}
            }
            i += 1;
        }
        proof {
            let g2 = self@;
            assert forall|q: int, j: int|
                0 <= q < g2.nodes.len() && g2.nodes[q].alive && 0 <= j < g2.nodes[q].holes.len() implies {
                    let y = #[trigger] g2.nodes[q].holes[j];
                    &&& live_hole(g2, y)
                    &&& g2.holes[y as int].parent == q
                } by {
                let y = g2.nodes[q].holes[j];
                let l = g.nodes[q].holes;
                lemma_pruned(g2.holes, l);
                assert(g2.nodes[q].holes.contains(y));
                let k2 = choose|k2: int| 0 <= k2 < l.len() && l[k2] == y;
                assert(g.holes[l[k2] as int].parent == q);
            }
            assert forall|q: int| 0 <= q < g2.nodes.len() && !(#[trigger] g2.nodes[q]).alive implies
                g2.nodes[q].holes.len() == 0 by {
                if !nodes@.contains(q as usize) {
                    assert(g.nodes[q].holes.len() == 0);
                    assert(g.nodes[q].holes =~= Seq::<usize>::empty());
                }
            }
            assert forall|y: int| 0 <= y < g2.holes.len() && (#[trigger] g2.holes[y]).alive implies {
                let z = g2.holes[y];
                &&& live_node(g2, z.parent)
                &&& g2.nodes[z.parent as int].holes.contains(y as usize)
                &&& live_hole(g2, z.partner)
                &&& g2.holes[z.partner as int].partner == y
                &&& g2.holes[z.partner as int].parent == z.partner_parent
                &&& g2.holes[z.partner as int].black != z.black
                &&& z.partner != y
                &&& z.partner_parent != z.parent
            } by {
                let x = g.holes[y];
                assert(!removed(g, nodes@, holes@, y));
                assert(g2.holes[y] == x);
                let q = x.partner;
                assert(g.holes[q as int].alive);
                assert(g.holes[q as int].partner_parent == x.parent) by {
                    assert(g.holes[g.holes[q as int].partner as int].parent == g.holes[q as int].partner_parent);
                }
                assert(!removed(g, nodes@, holes@, q as int));
                assert(g2.holes[q as int] == g.holes[q as int]);
                let p = x.parent;
                lemma_pruned(g2.holes, g.nodes[p as int].holes);
                assert(!nodes@.contains(p));
            }
        }
    }

    /// Sets the link-type pair of a connection, given either of its holes,
    /// and opens its detail panel. A hole that is not live is ignored.
    pub fn set_link_types(&mut self, hole: usize, producer: i8, consumer: i8)
        requires
            wf(old(self)@),
        ensures
            wf(final(self)@),
            !live_hole(old(self)@, hole) ==> final(self)@ == old(self)@,
            live_hole(old(self)@, hole) ==> {
                let x = old(self)@.holes[hole as int];
                let wh = if x.black { x.partner } else { hole };
                let w = old(self)@.holes[wh as int];
                &&& final(self)@.holes == old(self)@.holes.update(
                    wh as int,
                    Hole { producer, consumer, open: true, ..w },
                )
                &&& final(self)@.nodes == old(self)@.nodes
                &&& final(self)@.order_changed == old(self)@.order_changed
                &&& final(self)@.dropped == old(self)@.dropped
            },
    {
        if hole >= self.holes.len() || !self.holes[hole].alive {
            return;
        }
        let ghost g = self@;
        let x = self.holes[hole];
        let wh = if x.black { x.partner } else { hole };
        let w = self.holes[wh];
        self.holes.set(wh, Hole { producer, consumer, open: true, ..w });
        proof {
            let g2 = self@;
            assert(g2.nodes =~= g.nodes);
            assert forall|h: int| 0 <= h < g2.holes.len() && (#[trigger] g2.holes[h]).alive implies {
                let y = g2.holes[h];
                &&& live_node(g2, y.parent)
                &&& g2.nodes[y.parent as int].holes.contains(h as usize)
                &&& live_hole(g2, y.partner)
                &&& g2.holes[y.partner as int].partner == h
                &&& g2.holes[y.partner as int].parent == y.partner_parent
                &&& g2.holes[y.partner as int].black != y.black
                &&& y.partner != h
                &&& y.partner_parent != y.parent
            } by {
                assert(g.holes[h].alive);
            }
        }
    }

    /// Opens or closes the detail panel of a connection, given either of its
    /// holes. A hole that is not live is ignored.
    pub fn set_open(&mut self, hole: usize, open: bool)
        requires
            wf(old(self)@),
        ensures
            wf(final(self)@),
            !live_hole(old(self)@, hole) ==> final(self)@ == old(self)@,
            live_hole(old(self)@, hole) ==> {
                let x = old(self)@.holes[hole as int];
                let wh = if x.black { x.partner } else { hole };
                let w = old(self)@.holes[wh as int];
                &&& final(self)@.holes == old(self)@.holes.update(wh as int, Hole { open, ..w })
                &&& final(self)@.nodes == old(self)@.nodes
                &&& final(self)@.order_changed == old(self)@.order_changed
                &&& final(self)@.dropped == old(self)@.dropped
            },
    {
        if hole >= self.holes.len() || !self.holes[hole].alive {
            return;
        }
        let ghost g = self@;
        let x = self.holes[hole];
        let wh = if x.black { x.partner } else { hole };
        let w = self.holes[wh];
        self.holes.set(wh, Hole { open, ..w });
        proof {
            let g2 = self@;
            assert(g2.nodes =~= g.nodes);
            assert forall|h: int| 0 <= h < g2.holes.len() && (#[trigger] g2.holes[h]).alive implies {
                let y = g2.holes[h];
                &&& live_node(g2, y.parent)
                &&& g2.nodes[y.parent as int].holes.contains(h as usize)
                &&& live_hole(g2, y.partner)
                &&& g2.holes[y.partner as int].partner == h
                &&& g2.holes[y.partner as int].parent == y.partner_parent
                &&& g2.holes[y.partner as int].black != y.black
                &&& y.partner != h
                &&& y.partner_parent != y.parent
            } by {
                assert(g.holes[h].alive);
            }
        }
    }

    /// Sets the operator string of node `id` and marks it changed, so that
    /// the next tick compiles it. A node that is not live is ignored.
    pub fn set_op(&mut self, id: usize, op: &str)
        requires
            wf(old(self)@),
        ensures
            wf(final(self)@),
            !live_node(old(self)@, id) ==> final(self)@ == old(self)@,
            live_node(old(self)@, id) ==> {
                &&& final(self)@.nodes == old(self)@.nodes.update(
                    id as int,
                    NodeModel { op: op@, op_changed: true, ..old(self)@.nodes[id as int] },
                )
                &&& final(self)@.holes == old(self)@.holes
                &&& final(self)@.order_changed == old(self)@.order_changed
                &&& final(self)@.dropped == old(self)@.dropped
            },
    {
        if !self.is_node(id) {
            return;
        }
        let ghost g = self@;
        let text = chars_of(op);
        self.nodes[id].op = text;
        self.nodes[id].op_changed = true;
        proof {
            let g2 = self@;
            assert(g2.nodes =~= g.nodes.update(
                id as int,
                NodeModel { op: op@, op_changed: true, ..g.nodes[id as int] },
            ));
        }
    }

    /// Adds `dst` to the targets of `src`. Ignored when `src == dst` or
    /// either is not a live node.
    pub fn target(&mut self, src: usize, dst: usize)
        requires
            wf(old(self)@),
        ensures
            wf(final(self)@),
            (src == dst || !live_node(old(self)@, src) || !live_node(old(self)@, dst)) ==> final(self)@ == old(self)@,
            (src != dst && live_node(old(self)@, src) && live_node(old(self)@, dst)) ==> {
                &&& final(self)@.nodes == old(self)@.nodes.update(
                    src as int,
                    NodeModel { targets: old(self)@.nodes[src as int].targets.push(dst), ..old(self)@.nodes[src as int] },
                )
                &&& final(self)@.holes == old(self)@.holes
                &&& final(self)@.order_changed == old(self)@.order_changed
                &&& final(self)@.dropped == old(self)@.dropped
            },
    {
        if src == dst || !self.is_node(src) || !self.is_node(dst) {
            return;
        }
        let ghost g = self@;
        self.nodes[src].targets.push(dst);
        proof {
            let g2 = self@;
            assert(g2.nodes =~= g.nodes.update(
                src as int,
                NodeModel { targets: g.nodes[src as int].targets.push(dst), ..g.nodes[src as int] },
            ));
        }
    }

    /// Reads and clears the order-changed event.
    pub fn take_order_changed(&mut self) -> (r: bool)
        requires
            wf(old(self)@),
        ensures
            wf(final(self)@),
            r == old(self)@.order_changed,
            final(self)@ == (GraphModel { order_changed: false, ..old(self)@ }),
    {
        let r = self.order_changed;
        self.order_changed = false;
        r
    }

    /// Hands out, and clears, the white holes of the connections removed
    /// since the last call, whose arrows are to be taken down.
    pub fn take_dropped(&mut self) -> (r: Vec<usize>)
        requires
            wf(old(self)@),
        ensures
            wf(final(self)@),
            r@ == old(self)@.dropped,
            final(self)@ == (GraphModel { dropped: Seq::empty(), ..old(self)@ }),
    {
        let mut r: Vec<usize> = Vec::new();
        std::mem::swap(&mut r, &mut self.dropped);
        r
    }

    /// The incoming connections of node `id`, in the order of its hole list.
    pub fn inputs_of(&self, id: usize) -> (r: Vec<Wire>)
        requires
            id < self@.nodes.len(),
        ensures
            r@ == wires(self@, self@.nodes[id as int].holes),
    {
        let hs = &self.nodes[id].holes;
        let mut r: Vec<Wire> = Vec::new();
        let mut i: usize = 0;
        while i < hs.len()
            invariant
                i <= hs@.len(),
                hs@ == self@.nodes[id as int].holes,
                r@ == wires(self@, hs@.take(i as int)),
            decreases hs@.len() - i,
        {
            assert(hs@.take(i + 1 as int).drop_last() =~= hs@.take(i as int));
            let h = hs[i];
            if h < self.holes.len() && !self.holes[h].black {
                let x = self.holes[h];
                r.push(Wire { hole: h, from: x.partner_parent, producer: x.producer, consumer: x.consumer });
            }
            i += 1;
        }
        assert(hs@.take(i as int) =~= hs@);
        r
    }

    /// The live nodes in ascending order rank; of equal rank, by index.
    #[verifier::rlimit(60)]
    pub fn eval_order(&self) -> (r: Vec<usize>)
        ensures
            rank_order(self@, r@),
    {
        let ghost g = self@;
        let mut out: Vec<usize> = Vec::new();
        let mut id: usize = 0;
        while id < self.nodes.len()
            invariant
                g == self@,
                id <= g.nodes.len(),
                out@.no_duplicates(),
                forall|i: int| 0 <= i < out@.len() ==> live_node(g, #[trigger] out@[i]) && out@[i] < id,
                forall|n: usize| n < id && live_node(g, n) ==> out@.contains(n),
                forall|i: int, j: int|
                    0 <= i < j < out@.len() ==> g.nodes[out@[i] as int].order <= g.nodes[out@[j] as int].order,
            decreases g.nodes.len() - id,
        {
            if self.nodes[id].alive {
                let rank = self.nodes[id].order;
                let mut pos: usize = 0;
                while pos < out.len() && self.nodes[out[pos]].order <= rank
                    invariant
                        g == self@,
                        pos <= out@.len(),
                        forall|i: int| 0 <= i < out@.len() ==> live_node(g, #[trigger] out@[i]),
                        forall|i: int| 0 <= i < pos ==> g.nodes[#[trigger] out@[i] as int].order <= rank,
                    decreases out@.len() - pos,
                {
                    pos += 1;
                }
                let ghost before = out@;
                out.insert(pos, id);
                proof {
                    before.insert_ensures(pos as int, id);
                    let s = out@;
                    assert forall|i: int, j: int| 0 <= i < j < s.len() implies
                        g.nodes[s[i] as int].order <= g.nodes[s[j] as int].order by {
                        if pos < before.len() {
                            assert(g.nodes[before[pos as int] as int].order > rank);
                        }
                        if j > pos as int && i < pos as int {
                            assert(s[i] == before[i]);
                            assert(s[j] == before[j - 1]);
                        } else if j > pos as int && i == pos as int {
                            assert(s[j] == before[j - 1]);
                            assert(g.nodes[before[pos as int] as int].order <= g.nodes[before[j - 1] as int].order || j - 1 == pos);
                        } else if j > pos as int {
                            assert(s[i] == before[i - 1]);
                            assert(s[j] == before[j - 1]);
                        } else if j == pos as int {
                            assert(s[i] == before[i]);
                        } else {
                            assert(s[i] == before[i]);
                            assert(s[j] == before[j]);
                        }
                    }
                    assert forall|i: int| 0 <= i < s.len() implies live_node(g, #[trigger] s[i]) && s[i] < id + 1 by {
                        if i < pos {
                            assert(s[i] == before[i]);
                        } else if i > pos {
                            assert(s[i] == before[i - 1]);
                        }
                    }
                    assert forall|i: int, j: int| 0 <= i < s.len() && 0 <= j < s.len() && i != j implies s[i] != s[j] by {
                        if i != pos && j != pos {
                            let bi = if i < pos { i } else { i - 1 };
                            let bj = if j < pos { j } else { j - 1 };
                            assert(s[i] == before[bi]);
                            assert(s[j] == before[bj]);
                        } else if i == pos {
                            let bj = if j < pos { j } else { j - 1 };
                            assert(s[j] == before[bj]);
                        } else {
                            let bi = if i < pos { i } else { i - 1 };
                            assert(s[i] == before[bi]);
                        }
                    }
                    assert forall|n: usize| n < id + 1 && live_node(g, n) implies s.contains(n) by {
                        if n == id {
                            assert(s[pos as int] == id);
                        } else {
                            let k = choose|k: int| 0 <= k < before.len() && before[k] == n;
                            if k < pos {
                                assert(s[k] == n);
                            } else {
                                assert(s[k + 1] == n);
                            }
                        }
                    }
                }
            }
            id += 1;
        }
        out
    }

    /// Runs one tick: visits the live nodes in ascending order rank,
    /// compiles anew the unit of each whose operator changed, and clears the
    /// change flags. Reports, for each node visited, whether its unit was
    /// compiled and whether its input wiring is to be rebuilt. Connections,
    /// hole lists and ranks are left as they are.
    pub fn tick(&mut self) -> (r: Vec<Step>)
        requires
            wf(old(self)@),
        ensures
            wf(final(self)@),
            rank_order(old(self)@, r@.map_values(|s: Step| s.node)),
            forall|i: int| 0 <= i < r@.len() ==> {
                let n = old(self)@.nodes[(#[trigger] r@[i]).node as int];
                &&& r@[i].recompiled == n.op_changed
                &&& r@[i].rewired == (n.gained_input || n.lost_input)
            },
            final(self)@.nodes.len() == old(self)@.nodes.len(),
            forall|n: int| 0 <= n < old(self)@.nodes.len() ==> #[trigger] final(self)@.nodes[n] == if old(self)@.nodes[n].alive {
                ticked(old(self)@.nodes[n])
            } else {
                old(self)@.nodes[n]
            },
            final(self)@.holes == old(self)@.holes,
            final(self)@.order_changed == old(self)@.order_changed,
            final(self)@.dropped == old(self)@.dropped,
    {
        let ghost g = self@;
        let total = self.nodes.len();
        let order = self.eval_order();
        let mut steps: Vec<Step> = Vec::new();
        let mut k: usize = 0;
        while k < order.len()
            invariant
                k <= order@.len(),
                rank_order(g, order@),
                self@.nodes.len() == g.nodes.len(),
                total == g.nodes.len(),
                self@.holes == g.holes,
                self@.order_changed == g.order_changed,
                self@.dropped == g.dropped,
                steps@.len() == k,
                forall|i: int| 0 <= i < k ==> {
                    let n = g.nodes[(#[trigger] steps@[i]).node as int];
                    &&& steps@[i].node == order@[i]
                    &&& steps@[i].recompiled == n.op_changed
                    &&& steps@[i].rewired == (n.gained_input || n.lost_input)
                },
                forall|n: int| 0 <= n < g.nodes.len() ==> #[trigger] self@.nodes[n] == if order@.take(k as int).contains(n as usize) {
                    ticked(g.nodes[n])
                } else {
                    g.nodes[n]
                },
            decreases order@.len() - k,
        {
            let id = order[k];
            proof {
                assert(live_node(g, order@[k as int]));
                assert(!order@.take(k as int).contains(id)) by {
                    if order@.take(k as int).contains(id) {
                        let j = choose|j: int| 0 <= j < k && order@.take(k as int)[j] == id;
                        assert(order@[j] == order@[k as int]);
                    }
                }
            }
            let ghost before = self@;
            let ghost old_steps = steps@;
            assert(before.nodes[id as int] == g.nodes[id as int]);
            let recompiled = self.nodes[id].op_changed;
            let rewired = self.nodes[id].gained_input || self.nodes[id].lost_input;
            if recompiled {
                let u = compile_chars(&self.nodes[id].op);
                self.nodes[id].unit = u;
            }
            self.nodes[id].op_changed = false;
            self.nodes[id].lost_input = false;
            self.nodes[id].gained_input = false;
            steps.push(Step { node: id, recompiled, rewired });
            proof {
                let s = self@;
                assert forall|i: int| 0 <= i < k implies steps@[i] == old_steps[i] by {}
                assert(s.nodes[id as int] == ticked(g.nodes[id as int]));
                assert forall|n: int| 0 <= n < g.nodes.len() implies #[trigger] s.nodes[n] == if order@.take(k + 1 as int).contains(n as usize) {
                    ticked(g.nodes[n])
                } else {
                    g.nodes[n]
                } by {
                    assert(order@.take(k + 1 as int) =~= order@.take(k as int).push(id));
                    lemma_contains_split(order@.take(k + 1 as int), n as usize);
                    if n != id {
                        assert(s.nodes[n] == before.nodes[n]);
                    }
                }
            }
            k += 1;
        }
        proof {
            let s = self@;
            assert(order@.take(k as int) =~= order@);
            assert(steps@.map_values(|st: Step| st.node) =~= order@);
            assert forall|n: int| 0 <= n < g.nodes.len() implies #[trigger] s.nodes[n] == if g.nodes[n].alive {
                ticked(g.nodes[n])
            } else {
                g.nodes[n]
            } by {
                if g.nodes[n].alive {
                    assert(n < total);
                    assert(live_node(g, n as usize));
                } else if order@.contains(n as usize) {
                    let j = choose|j: int| 0 <= j < order@.len() && order@[j] == n as usize;
                    assert(live_node(g, order@[j]));
                }
            }
            assert forall|n: int, j: int|
                0 <= n < s.nodes.len() && s.nodes[n].alive && 0 <= j < s.nodes[n].holes.len() implies {
                    let h = #[trigger] s.nodes[n].holes[j];
                    &&& live_hole(s, h)
                    &&& s.holes[h as int].parent == n
                } by {
                assert(s.nodes[n].holes == g.nodes[n].holes);
            }
            assert forall|h: int| 0 <= h < s.holes.len() && (#[trigger] s.holes[h]).alive implies {
                let y = s.holes[h];
                &&& live_node(s, y.parent)
                &&& s.nodes[y.parent as int].holes.contains(h as usize)
                &&& live_hole(s, y.partner)
                &&& s.holes[y.partner as int].partner == h
                &&& s.holes[y.partner as int].parent == y.partner_parent
                &&& s.holes[y.partner as int].black != y.black
                &&& y.partner != h
                &&& y.partner_parent != y.parent
            } by {
                assert(s.nodes[s.holes[h].parent as int].holes == g.nodes[s.holes[h].parent as int].holes);
            }
            assert forall|n: int| 0 <= n < s.nodes.len() && !(#[trigger] s.nodes[n]).alive implies
                s.nodes[n].holes.len() == 0 by {
            }
        }
        steps
    }

    /// Opens the detail panels of the outgoing connections of node `id`
    /// whose producer code is among `codes`.
    pub fn open_after_drag(&mut self, id: usize, codes: &Vec<i8>)
        requires
            wf(old(self)@),
        ensures
            wf(final(self)@),
            final(self)@.nodes == old(self)@.nodes,
            final(self)@.holes.len() == old(self)@.holes.len(),
            forall|h: int| 0 <= h < old(self)@.holes.len() ==> #[trigger] final(self)@.holes[h] == if opens(old(self)@, id, codes@, h) {
                Hole { open: true, ..old(self)@.holes[h] }
            } else {
                old(self)@.holes[h]
            },
            final(self)@.order_changed == old(self)@.order_changed,
            final(self)@.dropped == old(self)@.dropped,
    {
        if !self.is_node(id) {
            return;
        }
        let ghost g = self@;
        let n = self.nodes[id].holes.len();
        let mut i: usize = 0;
        while i < n
            invariant
                wf(g),
                live_node(g, id),
                i <= n,
                n == g.nodes[id as int].holes.len(),
                self@.nodes == g.nodes,
                self@.holes.len() == g.holes.len(),
                self@.order_changed == g.order_changed,
                self@.dropped == g.dropped,
                forall|h: int| 0 <= h < g.holes.len() ==> #[trigger] self@.holes[h] == if opens(g, id, codes@, h)
                    && g.nodes[id as int].holes.take(i as int).contains(g.holes[h].partner) {
                    Hole { open: true, ..g.holes[h] }
                } else {
                    g.holes[h]
                },
            decreases n - i,
        {
            let b = self.nodes[id].holes[i];
            let ghost before = self@;
            proof {
                assert(g.nodes[id as int].holes[i as int] == b);
                assert(live_hole(g, b));
                assert(self@.holes[b as int] == g.holes[b as int]) by {
                    if opens(g, id, codes@, b as int) {
                        assert(g.holes[b as int].black == false);
                        assert(g.holes[b as int].parent == id);
                    }
                }
            }
            let x = self.holes[b];
            if x.black {
                let wh = x.partner;
                let w = self.holes[wh];
                let mut hit = false;
                let mut k: usize = 0;
                while k < codes.len()
                    invariant
                        k <= codes@.len(),
                        hit == codes@.take(k as int).contains(w.producer),
                    decreases codes@.len() - k,
                {
                    proof {
                        assert(codes@.take(k + 1 as int).drop_last() =~= codes@.take(k as int));
                        lemma_contains_split_i8(codes@.take(k + 1 as int), w.producer);
                    }
                    if codes[k] == w.producer {
                        hit = true;
                    }
                    k += 1;
                }
                assert(codes@.take(k as int) =~= codes@);
                if hit {
                    self.holes.set(wh, Hole { open: true, ..w });
                }
            }
            proof {
                let list = g.nodes[id as int].holes;
                assert(list.take(i + 1 as int) =~= list.take(i as int).push(b));
                assert forall|h: int| 0 <= h < g.holes.len() implies #[trigger] self@.holes[h] == if opens(g, id, codes@, h)
                    && list.take(i + 1 as int).contains(g.holes[h].partner) {
                    Hole { open: true, ..g.holes[h] }
                } else {
                    g.holes[h]
                } by {
                    lemma_contains_split(list.take(i + 1 as int), g.holes[h].partner);
                    let y = g.holes[h];
                    if y.alive && y.partner == b {
                        assert(g.holes[b as int].partner == h);
                    }
                    if x.black && h == x.partner as int {
                        assert(g.holes[h].partner == b);
                        assert(g.holes[h].partner_parent == id);
                        assert(!g.holes[h].black);
                    }
                }
            }
            i += 1;
        }
        proof {
            let list = g.nodes[id as int].holes;
            assert(list.take(n as int) =~= list);
            assert forall|h: int| 0 <= h < g.holes.len() && opens(g, id, codes@, h) implies list.contains(#[trigger] g.holes[h].partner) by {
                let q = g.holes[h].partner;
                assert(live_hole(g, q));
                assert(g.holes[q as int].parent == id);
            }
            let s2 = self@;
            assert forall|h: int| 0 <= h < s2.holes.len() && (#[trigger] s2.holes[h]).alive implies {
                let y = s2.holes[h];
                &&& live_node(s2, y.parent)
                &&& s2.nodes[y.parent as int].holes.contains(h as usize)
                &&& live_hole(s2, y.partner)
                &&& s2.holes[y.partner as int].partner == h
                &&& s2.holes[y.partner as int].parent == y.partner_parent
                &&& s2.holes[y.partner as int].black != y.black
                &&& y.partner != h
                &&& y.partner_parent != y.parent
            } by {
                assert(g.holes[h].alive);
            }
        }
    }

    /// Steps the link type of a connection by one, given either of its holes:
    /// through the white hole its consumer code, through the black hole its
    /// producer code, held within the range of `i8`. Opens its detail panel.
    /// A hole that is not live is ignored.
    pub fn step_link_type(&mut self, hole: usize, up: bool)
        requires
            wf(old(self)@),
        ensures
            wf(final(self)@),
            !live_hole(old(self)@, hole) ==> final(self)@ == old(self)@,
            live_hole(old(self)@, hole) ==> {
                let x = old(self)@.holes[hole as int];
                let wh = if x.black { x.partner } else { hole };
                let w = old(self)@.holes[wh as int];
                let (producer, consumer) = if x.black {
                    (stepped(w.producer, up), w.consumer)
                } else {
                    (w.producer, stepped(w.consumer, up))
                };
                &&& final(self)@.holes == old(self)@.holes.update(
                    wh as int,
                    Hole { producer, consumer, open: true, ..w },
                )
                &&& final(self)@.nodes == old(self)@.nodes
                &&& final(self)@.order_changed == old(self)@.order_changed
                &&& final(self)@.dropped == old(self)@.dropped
            },
    {
        if hole >= self.holes.len() || !self.holes[hole].alive {
            return;
        }
        let x = self.holes[hole];
        let wh = if x.black { x.partner } else { hole };
        let w = self.holes[wh];
        let step = |c: i8| -> (r: i8)
            ensures
                r == stepped(c, up),
        {
            if up {
                if c < 127 { c + 1 } else { c }
            } else {
                if c > -128 { c - 1 } else { c }
            }
        };
        let (producer, consumer) = if x.black {
            (step(w.producer), w.consumer)
        } else {
            (w.producer, step(w.consumer))
        };
        self.set_link_types(hole, producer, consumer);
    }

    /// Sets the order rank of node `id` and raises the order-changed event.
    /// A node that is not live is ignored.
    pub fn set_order(&mut self, id: usize, order: u64)
        requires
            wf(old(self)@),
        ensures
            wf(final(self)@),
            !live_node(old(self)@, id) ==> final(self)@ == old(self)@,
            live_node(old(self)@, id) ==> {
                &&& final(self)@.nodes == old(self)@.nodes.update(
                    id as int,
                    NodeModel { order, ..old(self)@.nodes[id as int] },
                )
                &&& final(self)@.holes == old(self)@.holes
                &&& final(self)@.order_changed
                &&& final(self)@.dropped == old(self)@.dropped
            },
    {
        if !self.is_node(id) {
            return;
        }
        let ghost g = self@;
        self.nodes[id].order = order;
        self.order_changed = true;
        proof {
            let g2 = self@;
            assert(g2.nodes =~= g.nodes.update(id as int, NodeModel { order, ..g.nodes[id as int] }));
        }
    }

    /// Raises the order rank of node `id` by one (held at the largest rank),
    /// or lowers it by one unless it is 0, and raises the order-changed
    /// event. A node that is not live is ignored.
    pub fn step_order(&mut self, id: usize, up: bool)
        requires
            wf(old(self)@),
        ensures
            wf(final(self)@),
            !live_node(old(self)@, id) ==> final(self)@ == old(self)@,
            live_node(old(self)@, id) ==> {
                let o = old(self)@.nodes[id as int].order;
                let order = if up {
                    if o < u64::MAX { (o + 1) as u64 } else { o }
                } else {
                    if o > 0 { (o - 1) as u64 } else { o }
                };
                &&& final(self)@.nodes == old(self)@.nodes.update(
                    id as int,
                    NodeModel { order, ..old(self)@.nodes[id as int] },
                )
                &&& final(self)@.holes == old(self)@.holes
                &&& final(self)@.order_changed
                &&& final(self)@.dropped == old(self)@.dropped
            },
    {
        if !self.is_node(id) {
            return;
        }
        let o = self.nodes[id].order;
        let order = if up {
            if o < u64::MAX { o + 1 } else { o }
        } else {
            if o > 0 { o - 1 } else { o }
        };
        self.set_order(id, order);
    }

    /// The incoming connections of node `id` that carry audio, from a
    /// numbered output port of the source to a numbered input port.
    pub fn audio_inputs(&self, id: usize) -> (r: Vec<Wire>)
        requires
            id < self@.nodes.len(),
        ensures
            r@ == audio_wires(wires(self@, self@.nodes[id as int].holes)),
    {
        let all = self.inputs_of(id);
        let mut r: Vec<Wire> = Vec::new();
        let mut i: usize = 0;
        while i < all.len()
            invariant
                i <= all@.len(),
                r@ == audio_wires(all@.take(i as int)),
            decreases all@.len() - i,
        {
            assert(all@.take(i + 1 as int).drop_last() =~= all@.take(i as int));
            let w = all[i];
            if w.producer >= 0 && w.consumer >= 0 {
                r.push(w);
            }
            i += 1;
        }
        assert(all@.take(i as int) =~= all@);
        r
    }

    /// The incoming connections of node `id` along which a value of a
    /// symbolic channel of the source is delivered to one of node `id`.
    pub fn value_inputs(&self, id: usize) -> (r: Vec<Wire>)
        requires
            id < self@.nodes.len(),
        ensures
            r@ == value_wires(wires(self@, self@.nodes[id as int].holes)),
    {
        let all = self.inputs_of(id);
        let mut r: Vec<Wire> = Vec::new();
        let mut i: usize = 0;
        while i < all.len()
            invariant
                i <= all@.len(),
                r@ == value_wires(all@.take(i as int)),
            decreases all@.len() - i,
        {
            assert(all@.take(i + 1 as int).drop_last() =~= all@.take(i as int));
            let w = all[i];
            if w.producer < 0 && w.consumer < 0 {
                r.push(w);
            }
            i += 1;
        }
        assert(all@.take(i as int) =~= all@);
        r
    }

    /// Gives the routing unit of node `id` its channel count `n`, the value
    /// of its parameter cast to an integer; see `compiler::sized`. A node
    /// that is not live is ignored.
    pub fn size_routing(&mut self, id: usize, n: usize)
        requires
            wf(old(self)@),
        ensures
            wf(final(self)@),
            !live_node(old(self)@, id) ==> final(self)@ == old(self)@,
            live_node(old(self)@, id) ==> final(self)@ == (GraphModel {
                nodes: old(self)@.nodes.update(
                    id as int,
                    NodeModel { unit: sized(old(self)@.nodes[id as int].unit, n), ..old(self)@.nodes[id as int] },
                ),
                ..old(self)@
            }),
    {
        if !self.is_node(id) {
            return;
        }
        let ghost g = self@;
        let mut u = Unit::Empty;
        std::mem::swap(&mut u, &mut self.nodes[id].unit);
        self.nodes[id].unit = u.sized(n);
        proof {
            assert(self@.nodes =~= g.nodes.update(
                id as int,
                NodeModel { unit: sized(g.nodes[id as int].unit, n), ..g.nodes[id as int] },
            ));
        }
    }

    /// Takes the values waiting for node `id`: returns the wires along which
    /// it takes a value (a symbolic channel of the source to the same channel
    /// of `id`, marked changed), clears the mark on its white holes, and marks
    /// the white holes that it feeds on those channels.
    pub fn propagate_values(&mut self, id: usize) -> (r: Vec<Wire>)
        requires
            wf(old(self)@),
            id < old(self)@.nodes.len(),
        ensures
            wf(final(self)@),
            r@ == value_transfers(old(self)@, id),
            final(self)@ == after_propagation(old(self)@, id),
    {
        let ghost g = self@;
        let hs = &self.nodes[id].holes;
        let mut r: Vec<Wire> = Vec::new();
        let mut i: usize = 0;
        while i < hs.len()
            invariant
                i <= hs@.len(),
                hs@ == g.nodes[id as int].holes,
                g == self@,
                r@ == transfers(g, hs@.take(i as int)),
            decreases hs@.len() - i,
        {
            assert(hs@.take(i + 1 as int).drop_last() =~= hs@.take(i as int));
            let h = hs[i];
            if h < self.holes.len() {
                let x = self.holes[h];
                if !x.black && x.changed && x.producer < 0 && x.producer == x.consumer {
                    r.push(Wire { hole: h, from: x.partner_parent, producer: x.producer, consumer: x.consumer });
                }
            }
            i += 1;
        }
        assert(hs@.take(i as int) =~= hs@);
        let ghost channels = r@.map_values(|w: Wire| w.consumer);
        let n = self.holes.len();
        let mut k: usize = 0;
        while k < n
            invariant
                k <= n,
                n == g.holes.len(),
                self@.holes.len() == n,
                self@.nodes == g.nodes,
                self@.order_changed == g.order_changed,
                self@.dropped == g.dropped,
                channels == r@.map_values(|w: Wire| w.consumer),
                r@ == value_transfers(g, id),
                forall|j: int| 0 <= j < k ==> #[trigger] self@.holes[j] == after_propagation(g, id).holes[j],
                forall|j: int| k <= j < n ==> #[trigger] self@.holes[j] == g.holes[j],
            decreases n - k,
        {
            let x = self.holes[k];
            let ghost before = self@;
            proof {
                let a = after_propagation(g, id);
                assert(a.holes.len() == n);
                assert(x == g.holes[k as int]);
            }
            if x.alive && !x.black && x.parent == id {
                self.holes.set(k, Hole { changed: false, ..x });
            } else if x.alive && !x.black && x.partner_parent == id {
                let mut hit = false;
                let mut j: usize = 0;
                while j < r.len()
                    invariant
                        j <= r@.len(),
                        channels == r@.map_values(|w: Wire| w.consumer),
                        hit == channels.take(j as int).contains(x.producer),
                    decreases r@.len() - j,
                {
                    proof {
                        assert(channels.take(j + 1 as int).drop_last() =~= channels.take(j as int));
                        lemma_contains_split_i8(channels.take(j + 1 as int), x.producer);
                    }
                    if r[j].consumer == x.producer {
                        hit = true;
                    }
                    j += 1;
                }
                assert(channels.take(j as int) =~= channels);
                if hit {
                    self.holes.set(k, Hole { changed: true, ..x });
                }
            }
            proof {
                assert forall|j: int| 0 <= j < n && j != k implies #[trigger] self@.holes[j] == before.holes[j] by {}
            }
            k += 1;
        }
        proof {
            let g2 = self@;
            let a = after_propagation(g, id);
            assert(g2.holes =~= a.holes);
            assert(g2 == a);
            assert forall|h: int| 0 <= h < g2.holes.len() && (#[trigger] g2.holes[h]).alive implies {
                let y = g2.holes[h];
                &&& live_node(g2, y.parent)
                &&& g2.nodes[y.parent as int].holes.contains(h as usize)
                &&& live_hole(g2, y.partner)
                &&& g2.holes[y.partner as int].partner == h
                &&& g2.holes[y.partner as int].parent == y.partner_parent
                &&& g2.holes[y.partner as int].black != y.black
                &&& y.partner != h
                &&& y.partner_parent != y.parent
            } by {
                assert(g.holes[h].alive);
                assert(g.holes[g.holes[h].partner as int].alive);
            }
        }
        r
    }

    /// The audio links of the composite network for the nodes `order`: for
    /// each node in turn, its incoming audio connections whose ports exist
    /// on the source's and its own unit, as `(from, output port, to, input port)`.
    pub fn audio_plan(&self, order: &Vec<usize>) -> (r: Vec<(usize, usize, usize, usize)>)
        requires
            forall|i: int| 0 <= i < order@.len() ==> #[trigger] order@[i] < self@.nodes.len(),
        ensures
            r@ == plan(self@, order@),
    {
        let mut r: Vec<(usize, usize, usize, usize)> = Vec::new();
        let mut i: usize = 0;
        while i < order.len()
            invariant
                i <= order@.len(),
                forall|k: int| 0 <= k < order@.len() ==> #[trigger] order@[k] < self@.nodes.len(),
                r@ == plan(self@, order@.take(i as int)),
            decreases order@.len() - i,
        {
            let to = order[i];
            assert(order@.take(i + 1 as int).drop_last() =~= order@.take(i as int));
            let ws = self.audio_inputs(to);
            let ins = self.nodes[to].unit.inputs();
            let ghost before = r@;
            let mut j: usize = 0;
            while j < ws.len()
                invariant
                    j <= ws@.len(),
                    to < self@.nodes.len(),
                    ws@ == audio_wires(wires(self@, self@.nodes[to as int].holes)),
                    ins == unit_inputs(self@.nodes[to as int].unit),
                    r@ == before + kept_links(self@, to, ws@.take(j as int)),
                decreases ws@.len() - j,
            {
                assert(ws@.take(j + 1 as int).drop_last() =~= ws@.take(j as int));
                let w = ws[j];
                if w.from < self.nodes.len() && w.producer >= 0 && w.consumer >= 0 {
                    let outs = self.nodes[w.from].unit.outputs();
                    if (w.producer as usize) < outs && (w.consumer as usize) < ins {
                        r.push((w.from, w.producer as usize, to, w.consumer as usize));
                    }
                }
                proof {
                    lemma_audio_wires_signs(wires(self@, self@.nodes[to as int].holes));
                    assert(ws@.contains(w)) by { assert(ws@[j as int] == w); }
                }
                assert(r@ =~= before + kept_links(self@, to, ws@.take(j + 1 as int)));
                j += 1;
            }
            assert(ws@.take(j as int) =~= ws@);
            i += 1;
        }
        assert(order@.take(i as int) =~= order@);
        r
    }

    /// The last node of `order` whose unit has an output: the one that the
    /// composite network sends to its output.
    pub fn output_node(&self, order: &Vec<usize>) -> (r: Option<usize>)
        requires
            forall|i: int| 0 <= i < order@.len() ==> #[trigger] order@[i] < self@.nodes.len(),
        ensures
            r == last_sounding(self@, order@),
    {
        let mut r: Option<usize> = None;
        let mut i: usize = 0;
        while i < order.len()
            invariant
                i <= order@.len(),
                forall|k: int| 0 <= k < order@.len() ==> #[trigger] order@[k] < self@.nodes.len(),
                r == last_sounding(self@, order@.take(i as int)),
            decreases order@.len() - i,
        {
            assert(order@.take(i + 1 as int).drop_last() =~= order@.take(i as int));
            if self.nodes[order[i]].unit.outputs() > 0 {
                r = Some(order[i]);
            } else {
                proof {
                    lemma_last_sounding_skip(self@, order@.take(i + 1 as int));
                }
            }
            i += 1;
        }
        assert(order@.take(i as int) =~= order@);
        r
    }
}

} // verus!
