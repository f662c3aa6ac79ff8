//! Control-flow graphs of single functions and their compilation to regular
//! expressions by GNFA state elimination.

use crate::re::RegExp;
use vstd::prelude::*;

verus! {

/// Tag of a CFG node: an ordinary basic block, a call into the function
/// with the given identifier, or an opaque external call carrying a marker
/// block identifier.
#[derive(Debug, Clone, Copy, PartialEq, Eq, Structural)]
pub enum Node {
    Literal(i32),
    Var(i32),
    Extern(i32),
}

impl Node {
    /// The block identifier the node stands for in a path.
    pub fn to_block_id(&self) -> (r: i32)
        ensures
            r == spec_block_id(*self),
    {
        match self {
            Node::Literal(b) => *b,
            Node::Var(f) => *f,
            Node::Extern(m) => *m,
        }
    }
}

pub open spec fn spec_block_id(n: Node) -> i32 {
    match n {
        Node::Literal(b) => b,
        Node::Var(f) => f,
        Node::Extern(m) => m,
    }
}

/// Control-flow graph of one function: tagged nodes, adjacency lists of
/// successor node indices, and distinguished entry and exit nodes.
#[derive(Debug)]
pub struct Cfg {
    pub nodes: Vec<Node>,
    pub succs: Vec<Vec<usize>>,
    pub entry: usize,
    pub exit: usize,
}

impl Cfg {
    pub open spec fn wf(&self) -> bool {
        &&& self.succs@.len() == self.nodes@.len()
        &&& self.entry < self.nodes@.len()
        &&& self.exit < self.nodes@.len()
        &&& forall|u: int, j: int|
            0 <= u < self.succs@.len() && 0 <= j < self.succs@[u]@.len() ==> (#[trigger] self.succs@[u]@[j])
                < self.nodes@.len()
    }
}

/// The total number of edges of a CFG: the summed lengths of its
/// adjacency lists.
pub open spec fn succs_total(s: Seq<Vec<usize>>) -> nat
    decreases s,
{
    if s.len() == 0 {
        0
    } else {
        succs_total(s.drop_last()) + s.last()@.len()
    }
}

/// The regex labelling a GNFA arrow into a node: the block identifier of an
/// ordinary or external block, a variable reference for a call block.
pub open spec fn spec_lift(n: Node) -> RegExp {
    match n {
        Node::Literal(b) => RegExp::Literal(b),
        Node::Var(f) => RegExp::Var(f),
        Node::Extern(m) => RegExp::Literal(m),
    }
}

fn lift(n: &Node) -> (r: RegExp)
    ensures
        r == spec_lift(*n),
{
    match n {
        Node::Literal(b) => RegExp::Literal(*b),
        Node::Var(f) => RegExp::Var(*f),
        Node::Extern(m) => RegExp::Literal(*m),
    }
}

/// One GNFA arrow: a regex labelling the transition from `src` to `dst`.
#[derive(Debug)]
pub struct Arrow {
    pub src: usize,
    pub dst: usize,
    pub label: RegExp,
}

/// Whether an arrow from `s` to `t` is present.
pub open spec fn has_edge(edges: Seq<Arrow>, s: int, t: int) -> bool {
    exists|i: int| 0 <= i < edges.len() && edges[i].src == s && edges[i].dst == t
}

/// The label of the arrow from `s` to `t`; meaningful when the arrow exists
/// and arrows are unique per node pair.
pub open spec fn edge_label(edges: Seq<Arrow>, s: int, t: int) -> RegExp {
    let i = choose|i: int| 0 <= i < edges.len() && edges[i].src == s && edges[i].dst == t;
    edges[i].label
}

/// The label that eliminating state `s` writes onto the bridge from `a`
/// to `b`: the in-label, then the starred self-loop when `s` has one, then
/// the out-label.
pub open spec fn bridge_label(edges: Seq<Arrow>, s: int, a: int, b: int) -> RegExp {
    let alpha = edge_label(edges, a, s);
    let gamma = edge_label(edges, s, b);
    if has_edge(edges, s, s) {
        RegExp::Concat(
            Box::new(alpha),
            Box::new(
                RegExp::Concat(
                    Box::new(RegExp::Star(Box::new(edge_label(edges, s, s)))),
                    Box::new(gamma),
                ),
            ),
        )
    } else {
        RegExp::Concat(Box::new(alpha), Box::new(gamma))
    }
}

/// The label of the arrow from `a` to `b` after state `s` is eliminated
/// from the given arrows: the bridge label, merged by alternation onto the
/// previous label when the arrow already existed.
pub open spec fn ripped_label(edges: Seq<Arrow>, s: int, a: int, b: int) -> RegExp {
    let bridged = has_edge(edges, a, s) && has_edge(edges, s, b);
    if bridged && has_edge(edges, a, b) {
        RegExp::Alter(Box::new(edge_label(edges, a, b)), Box::new(bridge_label(edges, s, a, b)))
    } else if bridged {
        bridge_label(edges, s, a, b)
    } else {
        edge_label(edges, a, b)
    }
}

/// Number of states still alive.
pub open spec fn num_alive(alive: Seq<bool>) -> nat
    decreases alive,
{
    if alive.len() == 0 {
        0
    } else {
        num_alive(alive.drop_last()) + if alive.last() {
            1nat
        } else {
            0nat
        }
    }
}

/// The arrows as a map from ordered state pairs to labels.
pub open spec fn edges_map(edges: Seq<Arrow>) -> Map<(int, int), RegExp> {
    Map::new(
        |p: (int, int)| has_edge(edges, p.0, p.1),
        |p: (int, int)| edge_label(edges, p.0, p.1),
    )
}

/// The bridge label at the map level; see `bridge_label`.
pub open spec fn bridge_map_label(m: Map<(int, int), RegExp>, s: int, a: int, b: int) -> RegExp {
    let alpha = m[(a, s)];
    let gamma = m[(s, b)];
    if m.dom().contains((s, s)) {
        RegExp::Concat(
            Box::new(alpha),
            Box::new(
                RegExp::Concat(Box::new(RegExp::Star(Box::new(m[(s, s)]))), Box::new(gamma)),
            ),
        )
    } else {
        RegExp::Concat(Box::new(alpha), Box::new(gamma))
    }
}

/// The label after eliminating `s`, at the map level; see `ripped_label`.
pub open spec fn rip_map_label(m: Map<(int, int), RegExp>, s: int, a: int, b: int) -> RegExp {
    let bridged = m.dom().contains((a, s)) && m.dom().contains((s, b));
    if bridged && m.dom().contains((a, b)) {
        RegExp::Alter(Box::new(m[(a, b)]), Box::new(bridge_map_label(m, s, a, b)))
    } else if bridged {
        bridge_map_label(m, s, a, b)
    } else {
        m[(a, b)]
    }
}

/// One state-elimination step at the map level: pairs avoiding `s` keep or
/// gain their arrow by the bridge formula; everything touching `s` is gone.
pub open spec fn rip_map(m: Map<(int, int), RegExp>, s: int) -> Map<(int, int), RegExp> {
    Map::new(
        |p: (int, int)| p.0 != s && p.1 != s && (m.dom().contains(p) || (m.dom().contains(
            (p.0, s),
        ) && m.dom().contains((s, p.1)))),
        |p: (int, int)| rip_map_label(m, s, p.0, p.1),
    )
}

/// The first alive state at or after `i` that is neither `start` nor
/// `accept`; the state count when there is none.
pub open spec fn first_internal(alive: Seq<bool>, start: int, accept: int, i: int) -> int
    decreases alive.len() - i,
    when 0 <= i <= alive.len()
{
    if i >= alive.len() {
        alive.len() as int
    } else if alive[i] && i != start && i != accept {
        i
    } else {
        first_internal(alive, start, accept, i + 1)
    }
}

/// The first internal state is alive and internal, and nothing before it is.
pub proof fn lemma_first_internal(alive: Seq<bool>, start: int, accept: int, i: int)
    requires
        0 <= i <= alive.len(),
    ensures
        ({
            let r = first_internal(alive, start, accept, i);
            &&& i <= r <= alive.len()
            &&& r < alive.len() ==> alive[r] && r != start && r != accept
            &&& forall|j: int| i <= j < r ==> !(alive[j] && j != start && j != accept)
        }),
    decreases alive.len() - i,
{
    if i < alive.len() && !(alive[i] && i != start && i != accept) {
        lemma_first_internal(alive, start, accept, i + 1);
    }
}

#[via_fn]
proof fn eliminate_decreases(m: Map<(int, int), RegExp>, alive: Seq<bool>, start: int, accept: int) {
    lemma_first_internal(alive, start, accept, 0);
    let s = first_internal(alive, start, accept, 0);
    if !(num_alive(alive) <= 2 || s >= alive.len()) {
        lemma_num_alive_update(alive, s);
    }
}

/// Full state elimination at the map level: repeatedly eliminates the first
/// alive internal state until at most two states remain.
pub open spec fn eliminate(
    m: Map<(int, int), RegExp>,
    alive: Seq<bool>,
    start: int,
    accept: int,
) -> Map<(int, int), RegExp>
    decreases num_alive(alive),
    via eliminate_decreases
{
    let s = first_internal(alive, start, accept, 0);
    if num_alive(alive) <= 2 || s >= alive.len() {
        m
    } else {
        eliminate(rip_map(m, s), alive.update(s, false), start, accept)
    }
}

/// Generalized NFA over block identifiers: states with a liveness mask,
/// at most one regex-labelled arrow per ordered state pair, a start state
/// and a single accepting state.
#[derive(Debug)]
pub struct GNFA {
    pub start_state: usize,
    pub accepting_state: usize,
    pub alive: Vec<bool>,
    pub edges: Vec<Arrow>,
}

impl GNFA {
    pub open spec fn wf(&self) -> bool {
        &&& self.start_state < self.alive@.len()
        &&& self.accepting_state < self.alive@.len()
        &&& self.alive@[self.start_state as int]
        &&& self.alive@[self.accepting_state as int]
        &&& self.start_state != self.accepting_state
        &&& forall|i: int|
            0 <= i < self.edges@.len() ==> (#[trigger] self.edges@[i]).src < self.alive@.len()
                && self.edges@[i].dst < self.alive@.len() && self.alive@[self.edges@[i].src as int]
                && self.alive@[self.edges@[i].dst as int]
        &&& forall|i: int, j: int|
            0 <= i < self.edges@.len() && 0 <= j < self.edges@.len() && i != j ==> !((
            #[trigger] self.edges@[i]).src == (#[trigger] self.edges@[j]).src && self.edges@[i].dst
                == self.edges@[j].dst)
    }

    /// Number of states of the GNFA.
    pub fn num_states(&self) -> (r: usize)
        ensures
            r == num_alive(self.alive@),
    {
        let mut count: usize = 0;
        let mut i: usize = 0;
        proof {
            assert(self.alive@.take(0) =~= Seq::<bool>::empty());
        }
        while i < self.alive.len()
            invariant
                i <= self.alive@.len(),
                count == num_alive(self.alive@.take(i as int)),
                count <= i,
            decreases self.alive@.len() - i,
        {
            proof {
                assert(self.alive@.take(i + 1).drop_last() =~= self.alive@.take(i as int));
            }
            if self.alive[i] {
                count = count + 1;
            }
            i = i + 1;
        }
        proof {
            assert(self.alive@.take(self.alive@.len() as int) =~= self.alive@);
        }
        count
    }
}

/// Killing one alive state lowers the state count by one.
proof fn lemma_num_alive_update(s: Seq<bool>, i: int)
    requires
        0 <= i < s.len(),
        s[i],
    ensures
        num_alive(s.update(i, false)) == num_alive(s) - 1,
    decreases s,
{
    if i == s.len() - 1 {
        assert(s.update(i, false).drop_last() =~= s.drop_last());
    } else {
        assert(s.update(i, false).drop_last() =~= s.drop_last().update(i, false));
        lemma_num_alive_update(s.drop_last(), i);
    }
}

/// No more states are alive than there are states.
pub proof fn lemma_num_alive_le(s: Seq<bool>)
    ensures
        num_alive(s) <= s.len(),
    decreases s,
{
    if s.len() > 0 {
        lemma_num_alive_le(s.drop_last());
    }
}

/// A dead state keeps the count strictly below the number of states.
pub proof fn lemma_num_alive_lt(s: Seq<bool>, i: int)
    requires
        0 <= i < s.len(),
        !s[i],
    ensures
        num_alive(s) < s.len(),
    decreases s,
{
    if i == s.len() - 1 {
        lemma_num_alive_le(s.drop_last());
    } else {
        lemma_num_alive_lt(s.drop_last(), i);
    }
}

/// Reviving one dead state raises the state count by one.
pub proof fn lemma_num_alive_set(s: Seq<bool>, i: int)
    requires
        0 <= i < s.len(),
        !s[i],
    ensures
        num_alive(s.update(i, true)) == num_alive(s) + 1,
    decreases s,
{
    if i == s.len() - 1 {
        assert(s.update(i, true).drop_last() =~= s.drop_last());
    } else {
        assert(s.update(i, true).drop_last() =~= s.drop_last().update(i, true));
        lemma_num_alive_set(s.drop_last(), i);
    }
}

/// With every alive state among two given ones, at most two are alive.
proof fn lemma_alive_le_two(s: Seq<bool>, a: int, b: int)
    requires
        forall|i: int| 0 <= i < s.len() && s[i] ==> i == a || i == b,
        a != b,
    ensures
        num_alive(s) <= 2,
        num_alive(s) <= (if 0 <= a < s.len() && s[a] {
            1int
        } else {
            0int
        }) + (if 0 <= b < s.len() && s[b] {
            1int
        } else {
            0int
        }),
    decreases s,
{
    if s.len() > 0 {
        lemma_alive_le_two(s.drop_last(), a, b);
    }
}

/// Two distinct alive states give a state count of at least two.
proof fn lemma_alive_ge_two(s: Seq<bool>, a: int, b: int)
    requires
        0 <= a < s.len(),
        0 <= b < s.len(),
        a < b,
        s[a],
        s[b],
    ensures
        num_alive(s) >= 2,
    decreases s,
{
    if b == s.len() - 1 {
        lemma_alive_ge_one(s.drop_last(), a);
    } else {
        lemma_alive_ge_two(s.drop_last(), a, b);
    }
}

/// One alive state gives a state count of at least one.
proof fn lemma_alive_ge_one(s: Seq<bool>, a: int)
    requires
        0 <= a < s.len(),
        s[a],
    ensures
        num_alive(s) >= 1,
    decreases s,
{
    if a < s.len() - 1 {
        lemma_alive_ge_one(s.drop_last(), a);
    }
}

/// The label of a present arrow is the label at its index.
proof fn lemma_edge_label(edges: Seq<Arrow>, i: int)
    requires
        0 <= i < edges.len(),
        forall|a: int, b: int|
            0 <= a < edges.len() && 0 <= b < edges.len() && a != b ==> !((#[trigger] edges[a]).src
                == (#[trigger] edges[b]).src && edges[a].dst == edges[b].dst),
    ensures
        has_edge(edges, edges[i].src as int, edges[i].dst as int),
        edge_label(edges, edges[i].src as int, edges[i].dst as int) == edges[i].label,
{
    let s = edges[i].src as int;
    let t = edges[i].dst as int;
    assert(has_edge(edges, s, t));
    let j = choose|j: int| 0 <= j < edges.len() && edges[j].src == s && edges[j].dst == t;
    assert(j == i);
}

impl GNFA {
    /// Index of the arrow from `s` to `t`, if one is present.
    fn find_edge(&self, s: usize, t: usize) -> (r: Option<usize>)
        ensures
            match r {
                Some(i) => i < self.edges@.len() && self.edges@[i as int].src == s
                    && self.edges@[i as int].dst == t,
                None => !has_edge(self.edges@, s as int, t as int),
            },
    {
        let mut i: usize = 0;
        while i < self.edges.len()
            invariant
                i <= self.edges@.len(),
                forall|j: int|
                    0 <= j < i ==> !((#[trigger] self.edges@[j]).src == s && self.edges@[j].dst
                        == t),
            decreases self.edges@.len() - i,
        {
            if self.edges[i].src == s && self.edges[i].dst == t {
                return Some(i);
            }
            i = i + 1;
        }
        None
    }

    /// Adds an arrow from `s` to `t`. If one is already present, its label
    /// becomes the alternation of the old label and the new one; otherwise
    /// the arrow is inserted.
    fn add_arrow(&mut self, s: usize, t: usize, arrow: RegExp)
        requires
            old(self).wf(),
            s < old(self).alive@.len(),
            t < old(self).alive@.len(),
            old(self).alive@[s as int],
            old(self).alive@[t as int],
        ensures
            final(self).wf(),
            final(self).start_state == old(self).start_state,
            final(self).accepting_state == old(self).accepting_state,
            final(self).alive@ == old(self).alive@,
            forall|a: int, b: int|
                has_edge(final(self).edges@, a, b) <==> has_edge(old(self).edges@, a, b) || (a == s
                    && b == t),
            has_edge(old(self).edges@, s as int, t as int) ==> edge_label(
                final(self).edges@,
                s as int,
                t as int,
            ) == RegExp::Alter(
                Box::new(edge_label(old(self).edges@, s as int, t as int)),
                Box::new(arrow),
            ),
            !has_edge(old(self).edges@, s as int, t as int) ==> edge_label(
                final(self).edges@,
                s as int,
                t as int,
            ) == arrow,
            forall|a: int, b: int|
                has_edge(old(self).edges@, a, b) && !(a == s && b == t) ==> edge_label(
                    final(self).edges@,
                    a,
                    b,
                ) == edge_label(old(self).edges@, a, b),
    {
        match self.find_edge(s, t) {
            Some(i) => {
                proof {
                    lemma_edge_label(self.edges@, i as int);
                }
                let old_label = self.edges[i].label.dup();
                self.edges[i] = Arrow {
                    src: s,
                    dst: t,
                    label: RegExp::Alter(Box::new(old_label), Box::new(arrow)),
                };
                proof {
                    lemma_edge_label(self.edges@, i as int);
                    assert forall|a: int, b: int|
                        has_edge(old(self).edges@, a, b) && !(a == s && b == t) implies edge_label(
                        self.edges@,
                        a,
                        b,
                    ) == edge_label(old(self).edges@, a, b) by {
                        let j = choose|j: int|
                            0 <= j < old(self).edges@.len() && old(self).edges@[j].src == a && old(
                                self,
                            ).edges@[j].dst == b;
                        lemma_edge_label(old(self).edges@, j);
                        lemma_edge_label(self.edges@, j);
                    }
                    assert forall|a: int, b: int| has_edge(self.edges@, a, b) implies has_edge(
                        old(self).edges@,
                        a,
                        b,
                    ) || (a == s && b == t) by {
                        let j = choose|j: int|
                            0 <= j < self.edges@.len() && self.edges@[j].src == a
                                && self.edges@[j].dst == b;
                        if j != i {
                            assert(old(self).edges@[j].src == a && old(self).edges@[j].dst == b);
                        }
                    }
                    assert forall|a: int, b: int| has_edge(old(self).edges@, a, b) implies has_edge(
                        self.edges@,
                        a,
                        b,
                    ) by {
                        let j = choose|j: int|
                            0 <= j < old(self).edges@.len() && old(self).edges@[j].src == a && old(
                                self,
                            ).edges@[j].dst == b;
                        if j != i {
                            assert(self.edges@[j].src == a && self.edges@[j].dst == b);
                        }
                    }
                }
            },
            None => {
                self.edges.push(Arrow { src: s, dst: t, label: arrow });
                proof {
                    let n = self.edges@.len() - 1;
                    lemma_edge_label(self.edges@, n);
                    assert forall|a: int, b: int|
                        has_edge(old(self).edges@, a, b) && !(a == s && b == t) implies edge_label(
                        self.edges@,
                        a,
                        b,
                    ) == edge_label(old(self).edges@, a, b) by {
                        let j = choose|j: int|
                            0 <= j < old(self).edges@.len() && old(self).edges@[j].src == a && old(
                                self,
                            ).edges@[j].dst == b;
                        lemma_edge_label(old(self).edges@, j);
                        lemma_edge_label(self.edges@, j);
                    }
                    assert forall|a: int, b: int| has_edge(self.edges@, a, b) implies has_edge(
                        old(self).edges@,
                        a,
                        b,
                    ) || (a == s && b == t) by {
                        let j = choose|j: int|
                            0 <= j < self.edges@.len() && self.edges@[j].src == a
                                && self.edges@[j].dst == b;
                        if j != n {
                            assert(old(self).edges@[j].src == a && old(self).edges@[j].dst == b);
                        }
                    }
                    assert forall|a: int, b: int| has_edge(old(self).edges@, a, b) implies has_edge(
                        self.edges@,
                        a,
                        b,
                    ) by {
                        let j = choose|j: int|
                            0 <= j < old(self).edges@.len() && old(self).edges@[j].src == a && old(
                                self,
                            ).edges@[j].dst == b;
                        assert(self.edges@[j].src == a && self.edges@[j].dst == b);
                    }
                }
            },
        }
    }
}

impl GNFA {
    /// Builds the GNFA of a control-flow graph: one state per CFG node plus
    /// a fresh start state, one arrow per distinct CFG edge labelled with
    /// the lifted tag of its destination (repeated successor entries would
    /// repeat the same label and collapse to one arrow), and a start arrow
    /// to the entry node labelled with the lifted tag of the entry. The
    /// accepting state is the exit node. The language accepted is the set
    /// of execution paths of the function, entry block included.
    pub fn from_cfg(g: &Cfg) -> (r: GNFA)
        requires
            g.wf(),
            g.nodes@.len() < usize::MAX,
        ensures
            r.wf(),
            r.start_state == g.nodes@.len(),
            r.accepting_state == g.exit,
            r.alive@.len() == g.nodes@.len() + 1,
            forall|i: int| 0 <= i < r.alive@.len() ==> r.alive@[i],
            forall|a: int, b: int|
                has_edge(r.edges@, a, b) <==> (cfg_step(*g, a, b) || (a == g.nodes@.len() && b
                    == g.entry)),
            forall|a: int, b: int|
                has_edge(r.edges@, a, b) ==> 0 <= b < g.nodes@.len() && edge_label(r.edges@, a, b)
                    == spec_lift(g.nodes@[b]),
    {
        let n = g.nodes.len();
        let alive: Vec<bool> = vec![true; n + 1];
        let mut gnfa = GNFA {
            start_state: n,
            accepting_state: g.exit,
            alive,
            edges: Vec::new(),
        };
        let mut u: usize = 0;
        while u < n
            invariant
                g.wf(),
                n == g.nodes@.len(),
                u <= n,
                gnfa.wf(),
                gnfa.start_state == n,
                gnfa.accepting_state == g.exit,
                gnfa.alive@.len() == n + 1,
                forall|i: int| 0 <= i < gnfa.alive@.len() ==> gnfa.alive@[i],
                forall|a: int, b: int| has_edge(gnfa.edges@, a, b) ==> cfg_step(*g, a, b),
                forall|a: int, b: int|
                    0 <= a < u && cfg_step(*g, a, b) ==> has_edge(gnfa.edges@, a, b),
                forall|a: int, b: int|
                    has_edge(gnfa.edges@, a, b) ==> 0 <= b < n && edge_label(gnfa.edges@, a, b)
                        == spec_lift(g.nodes@[b]),
            decreases n - u,
        {
            let mut j: usize = 0;
            let succs_len = g.succs[u].len();
            while j < succs_len
                invariant
                    g.wf(),
                    n == g.nodes@.len(),
                    u < n,
                    succs_len == g.succs@[u as int]@.len(),
                    j <= succs_len,
                    gnfa.wf(),
                    gnfa.start_state == n,
                    gnfa.accepting_state == g.exit,
                    gnfa.alive@.len() == n + 1,
                    forall|i: int| 0 <= i < gnfa.alive@.len() ==> gnfa.alive@[i],
                    forall|a: int, b: int| has_edge(gnfa.edges@, a, b) ==> cfg_step(*g, a, b),
                    forall|a: int, b: int|
                        0 <= a < u && cfg_step(*g, a, b) ==> has_edge(gnfa.edges@, a, b),
                    forall|jj: int|
                        0 <= jj < j ==> has_edge(
                            gnfa.edges@,
                            u as int,
                            (#[trigger] g.succs@[u as int]@[jj]) as int,
                        ),
                    forall|a: int, b: int|
                        has_edge(gnfa.edges@, a, b) ==> 0 <= b < n && edge_label(gnfa.edges@, a, b)
                            == spec_lift(g.nodes@[b]),
                decreases succs_len - j,
            {
                let v = g.succs[u][j];
                proof {
                    assert(cfg_step(*g, u as int, v as int)) by {
                        assert(g.succs@[u as int]@[j as int] == v);
                    }
                }
                // parallel edges would carry the same label; keep one arrow
                match gnfa.find_edge(u, v) {
                    Some(_) => {},
                    None => {
                        let ghost pre = gnfa.edges@;
                        gnfa.add_arrow(u, v, lift(&g.nodes[v]));
                        proof {
                            assert forall|a: int, b: int|
                                has_edge(gnfa.edges@, a, b) implies 0 <= b < n && edge_label(
                                gnfa.edges@,
                                a,
                                b,
                            ) == spec_lift(g.nodes@[b]) by {
                                if has_edge(pre, a, b) {
                                    assert(edge_label(gnfa.edges@, a, b) == edge_label(pre, a, b));
                                } else {
                                    assert(a == u as int && b == v as int);
                                }
                            }
                        }
                    },
                }
                j = j + 1;
            }
            proof {
                assert forall|a: int, b: int|
                    0 <= a < u + 1 && cfg_step(*g, a, b) implies has_edge(gnfa.edges@, a, b) by {
                    if a == u as int {
                        let jj = choose|jj: int|
                            0 <= jj < g.succs@[a]@.len() && g.succs@[a]@[jj] == b;
                        assert(has_edge(gnfa.edges@, u as int, g.succs@[u as int]@[jj] as int));
                    }
                }
            }
            u = u + 1;
        }
        let ghost pre = gnfa.edges@;
        gnfa.add_arrow(n, g.entry, lift(&g.nodes[g.entry]));
        proof {
            // the start arrow is the only arrow out of the fresh state
            assert(forall|a: int, b: int| cfg_step(*g, a, b) ==> a < n);
            assert(!has_edge(pre, n as int, g.entry as int)) by {
                assert(!cfg_step(*g, n as int, g.entry as int));
            }
            assert forall|a: int, b: int| has_edge(gnfa.edges@, a, b) implies 0 <= b < n
                && edge_label(gnfa.edges@, a, b) == spec_lift(g.nodes@[b]) by {
                if has_edge(pre, a, b) {
                    assert(edge_label(gnfa.edges@, a, b) == edge_label(pre, a, b));
                } else {
                    assert(a == n as int && b == g.entry as int);
                }
            }
        }
        gnfa
    }

    /// The next internal state to eliminate: any alive state that is
    /// neither the start nor the accepting state.
    fn next_to_rip(&self) -> (r: usize)
        requires
            self.wf(),
            num_alive(self.alive@) > 2,
        ensures
            r < self.alive@.len(),
            self.alive@[r as int],
            r != self.start_state,
            r != self.accepting_state,
            r as int == first_internal(
                self.alive@,
                self.start_state as int,
                self.accepting_state as int,
                0,
            ),
    {
        let mut i: usize = 0;
        while i < self.alive.len()
            invariant
                i <= self.alive@.len(),
                forall|j: int|
                    0 <= j < i ==> !(self.alive@[j] && j != self.start_state
                        && j != self.accepting_state),
            decreases self.alive@.len() - i,
        {
            if self.alive[i] && i != self.start_state && i != self.accepting_state {
                proof {
                    lemma_first_internal(
                        self.alive@,
                        self.start_state as int,
                        self.accepting_state as int,
                        0,
                    );
                    let f = first_internal(
                        self.alive@,
                        self.start_state as int,
                        self.accepting_state as int,
                        0,
                    );
                    assert(f == i as int) by {
                        if f < i as int {
                            assert(!(self.alive@[f] && f != self.start_state
                                && f != self.accepting_state));
                        }
                    }
                }
                return i;
            }
            i = i + 1;
        }
        proof {
            lemma_alive_le_two(
                self.alive@,
                self.start_state as int,
                self.accepting_state as int,
            );
        }
        vstd::pervasive::unreached()
    }

    /// Eliminates state `s`: for every predecessor arrow labelled a and
    /// every successor arrow labelled c, adds an arrow labelled a(self)*c,
    /// or ac when `s` has no self-loop; then removes `s` and its arrows.
    /// The arrows into and out of state `s`, with their labels; the self
    /// loop is excluded from both lists.
    #[verifier::rlimit(100)]
    fn collect_incident(&self, s: usize) -> (r: (Vec<(usize, RegExp)>, Vec<(usize, RegExp)>))
        requires
            self.wf(),
            s < self.alive@.len(),
        ensures
            ({
                let (ins, outs) = r;
                &&& forall|x: int|
                    0 <= x < ins@.len() ==> (#[trigger] ins@[x]).0 < self.alive@.len()
                        && self.alive@[ins@[x].0 as int] && ins@[x].0 != s && has_edge(
                        self.edges@,
                        ins@[x].0 as int,
                        s as int,
                    ) && ins@[x].1 == edge_label(self.edges@, ins@[x].0 as int, s as int)
                &&& forall|x: int|
                    0 <= x < outs@.len() ==> (#[trigger] outs@[x]).0 < self.alive@.len()
                        && self.alive@[outs@[x].0 as int] && outs@[x].0 != s && has_edge(
                        self.edges@,
                        s as int,
                        outs@[x].0 as int,
                    ) && outs@[x].1 == edge_label(self.edges@, s as int, outs@[x].0 as int)
                &&& forall|x1: int, x2: int|
                    0 <= x1 < ins@.len() && 0 <= x2 < ins@.len() && x1 != x2 ==> (
                    #[trigger] ins@[x1]).0 != (#[trigger] ins@[x2]).0
                &&& forall|x1: int, x2: int|
                    0 <= x1 < outs@.len() && 0 <= x2 < outs@.len() && x1 != x2 ==> (
                    #[trigger] outs@[x1]).0 != (#[trigger] outs@[x2]).0
                &&& forall|j: int|
                    0 <= j < self.edges@.len() && (#[trigger] self.edges@[j]).dst == s
                        && self.edges@[j].src != s ==> exists|x: int|
                        0 <= x < ins@.len() && (#[trigger] ins@[x]).0 == self.edges@[j].src
                &&& forall|j: int|
                    0 <= j < self.edges@.len() && (#[trigger] self.edges@[j]).src == s
                        && self.edges@[j].dst != s ==> exists|x: int|
                        0 <= x < outs@.len() && (#[trigger] outs@[x]).0 == self.edges@[j].dst
            }),
    {
        let len = self.alive.len();
        let mut ins: Vec<(usize, RegExp)> = Vec::new();
        let mut outs: Vec<(usize, RegExp)> = Vec::new();
        let mut idx: usize = 0;
        while idx < self.edges.len()
            invariant
                self.wf(),
                idx <= self.edges@.len(),
                len == self.alive@.len(),
                s < len,
                forall|x: int|
                    0 <= x < ins@.len() ==> (#[trigger] ins@[x]).0 < len && self.alive@[ins@[x].0 as int]
                        && ins@[x].0 != s && has_edge(self.edges@, ins@[x].0 as int, s as int)
                        && ins@[x].1 == edge_label(self.edges@, ins@[x].0 as int, s as int),
                forall|x: int|
                    0 <= x < outs@.len() ==> (#[trigger] outs@[x]).0 < len && self.alive@[outs@[x].0 as int]
                        && outs@[x].0 != s && has_edge(self.edges@, s as int, outs@[x].0 as int)
                        && outs@[x].1 == edge_label(self.edges@, s as int, outs@[x].0 as int),
                forall|x: int|
                    0 <= x < ins@.len() ==> exists|j: int|
                        0 <= j < idx && (#[trigger] self.edges@[j]).src == (#[trigger] ins@[x]).0
                            && self.edges@[j].dst == s,
                forall|x: int|
                    0 <= x < outs@.len() ==> exists|j: int|
                        0 <= j < idx && (#[trigger] self.edges@[j]).dst == (#[trigger] outs@[x]).0
                            && self.edges@[j].src == s,
                forall|x1: int, x2: int|
                    0 <= x1 < ins@.len() && 0 <= x2 < ins@.len() && x1 != x2 ==> (
                    #[trigger] ins@[x1]).0 != (#[trigger] ins@[x2]).0,
                forall|x1: int, x2: int|
                    0 <= x1 < outs@.len() && 0 <= x2 < outs@.len() && x1 != x2 ==> (
                    #[trigger] outs@[x1]).0 != (#[trigger] outs@[x2]).0,
                forall|j: int|
                    0 <= j < idx && (#[trigger] self.edges@[j]).dst == s && self.edges@[j].src != s
                        ==> exists|x: int|
                        0 <= x < ins@.len() && (#[trigger] ins@[x]).0 == self.edges@[j].src,
                forall|j: int|
                    0 <= j < idx && (#[trigger] self.edges@[j]).src == s && self.edges@[j].dst != s
                        ==> exists|x: int|
                        0 <= x < outs@.len() && (#[trigger] outs@[x]).0 == self.edges@[j].dst,
            decreases self.edges@.len() - idx,
        {
            let src = self.edges[idx].src;
            let dst = self.edges[idx].dst;
            if dst == s && src != s {
                let ghost ins_prev = ins@;
                let lbl = self.edges[idx].label.dup();
                ins.push((src, lbl));
                proof {
                    lemma_edge_label(self.edges@, idx as int);
                    assert(ins@[ins@.len() - 1].0 == src && ins@[ins@.len() - 1].1
                        == self.edges@[idx as int].label);
                    assert(exists|j: int|
                        0 <= j < idx + 1 && (#[trigger] self.edges@[j]).src == src
                            && self.edges@[j].dst == s) by {
                        assert(self.edges@[idx as int].src == src && self.edges@[idx as int].dst
                            == s);
                    }
                    assert forall|x1: int, x2: int|
                        0 <= x1 < ins@.len() && 0 <= x2 < ins@.len() && x1 != x2 implies (
                    #[trigger] ins@[x1]).0 != (#[trigger] ins@[x2]).0 by {
                        if x2 == ins@.len() - 1 && ins@[x1].0 == src {
                            let j = choose|j: int|
                                0 <= j < idx && (#[trigger] self.edges@[j]).src == ins_prev[x1].0
                                    && self.edges@[j].dst == s;
                            assert(self.edges@[j].src == self.edges@[idx as int].src
                                && self.edges@[j].dst == self.edges@[idx as int].dst);
                        } else if x1 == ins@.len() - 1 && ins@[x2].0 == src {
                            let j = choose|j: int|
                                0 <= j < idx && (#[trigger] self.edges@[j]).src == ins_prev[x2].0
                                    && self.edges@[j].dst == s;
                            assert(self.edges@[j].src == self.edges@[idx as int].src
                                && self.edges@[j].dst == self.edges@[idx as int].dst);
                        }
                    }
                    assert forall|j: int|
                        0 <= j < idx + 1 && (#[trigger] self.edges@[j]).dst == s
                            && self.edges@[j].src != s implies exists|x: int|
                        0 <= x < ins@.len() && (#[trigger] ins@[x]).0 == self.edges@[j].src by {
                        if j < idx {
                            let x = choose|x: int|
                                0 <= x < ins_prev.len() && (#[trigger] ins_prev[x]).0
                                    == self.edges@[j].src;
                            assert(ins@[x].0 == self.edges@[j].src);
                        } else {
                            assert(ins@[ins@.len() - 1].0 == self.edges@[j].src);
                        }
                    }
                }
            } else if src == s && dst != s {
                let ghost outs_prev = outs@;
                let lbl = self.edges[idx].label.dup();
                outs.push((dst, lbl));
                proof {
                    lemma_edge_label(self.edges@, idx as int);
                    assert(outs@[outs@.len() - 1].0 == dst && outs@[outs@.len() - 1].1
                        == self.edges@[idx as int].label);
                    assert(exists|j: int|
                        0 <= j < idx + 1 && (#[trigger] self.edges@[j]).dst == dst
                            && self.edges@[j].src == s) by {
                        assert(self.edges@[idx as int].src == s && self.edges@[idx as int].dst
                            == dst);
                    }
                    assert forall|x1: int, x2: int|
                        0 <= x1 < outs@.len() && 0 <= x2 < outs@.len() && x1 != x2 implies (
                    #[trigger] outs@[x1]).0 != (#[trigger] outs@[x2]).0 by {
                        if x2 == outs@.len() - 1 && outs@[x1].0 == dst {
                            let j = choose|j: int|
                                0 <= j < idx && (#[trigger] self.edges@[j]).dst == outs_prev[x1].0
                                    && self.edges@[j].src == s;
                            assert(self.edges@[j].src == self.edges@[idx as int].src
                                && self.edges@[j].dst == self.edges@[idx as int].dst);
                        } else if x1 == outs@.len() - 1 && outs@[x2].0 == dst {
                            let j = choose|j: int|
                                0 <= j < idx && (#[trigger] self.edges@[j]).dst == outs_prev[x2].0
                                    && self.edges@[j].src == s;
                            assert(self.edges@[j].src == self.edges@[idx as int].src
                                && self.edges@[j].dst == self.edges@[idx as int].dst);
                        }
                    }
                    assert forall|j: int|
                        0 <= j < idx + 1 && (#[trigger] self.edges@[j]).src == s
                            && self.edges@[j].dst != s implies exists|x: int|
                        0 <= x < outs@.len() && (#[trigger] outs@[x]).0 == self.edges@[j].dst by {
                        if j < idx {
                            let x = choose|x: int|
                                0 <= x < outs_prev.len() && (#[trigger] outs_prev[x]).0
                                    == self.edges@[j].dst;
                            assert(outs@[x].0 == self.edges@[j].dst);
                        } else {
                            assert(outs@[outs@.len() - 1].0 == self.edges@[j].dst);
                        }
                    }
                }
            }
            idx = idx + 1;
        }
        (ins, outs)
    }

    #[verifier::rlimit(100)]
    fn rip_state(&mut self, s: usize)
        requires
            old(self).wf(),
            s < old(self).alive@.len(),
            old(self).alive@[s as int],
            s != old(self).start_state,
            s != old(self).accepting_state,
        ensures
            final(self).wf(),
            final(self).start_state == old(self).start_state,
            final(self).accepting_state == old(self).accepting_state,
            final(self).alive@ == old(self).alive@.update(s as int, false),
            forall|a: int, b: int|
                has_edge(final(self).edges@, a, b) <==> (a != s && b != s && (has_edge(
                    old(self).edges@,
                    a,
                    b,
                ) || (has_edge(old(self).edges@, a, s as int) && has_edge(
                    old(self).edges@,
                    s as int,
                    b,
                )))),
            forall|a: int, b: int|
                has_edge(final(self).edges@, a, b) ==> edge_label(final(self).edges@, a, b)
                    == ripped_label(old(self).edges@, s as int, a, b),
    {
        let ghost old_edges = self.edges@;
        let self_label: Option<RegExp> = match self.find_edge(s, s) {
            Some(i) => {
                proof {
                    lemma_edge_label(self.edges@, i as int);
                }
                Some(self.edges[i].label.dup())
            },
            None => None,
        };
        proof {
            assert(self_label is Some <==> has_edge(old_edges, s as int, s as int));
            assert(self_label is Some ==> self_label->0 == edge_label(
                old_edges,
                s as int,
                s as int,
            ));
        }
        let ghost len = self.alive@.len();
        let pair = self.collect_incident(s);
        let ins = pair.0;
        let outs = pair.1;
        let mut a: usize = 0;
        while a < ins.len()
            invariant
                self.wf(),
                a <= ins@.len(),
                len == self.alive@.len(),
                s < len,
                self.alive@ == old(self).alive@,
                self.start_state == old(self).start_state,
                self.accepting_state == old(self).accepting_state,
                old_edges == old(self).edges@,
                self_label is Some <==> has_edge(old_edges, s as int, s as int),
                self_label is Some ==> self_label->0 == edge_label(old_edges, s as int, s as int),
                forall|x: int|
                    0 <= x < ins@.len() ==> (#[trigger] ins@[x]).0 < len && self.alive@[ins@[x].0 as int]
                        && ins@[x].0 != s && has_edge(old_edges, ins@[x].0 as int, s as int)
                        && ins@[x].1 == edge_label(old_edges, ins@[x].0 as int, s as int),
                forall|x: int|
                    0 <= x < outs@.len() ==> (#[trigger] outs@[x]).0 < len && self.alive@[outs@[x].0 as int]
                        && outs@[x].0 != s && has_edge(old_edges, s as int, outs@[x].0 as int)
                        && outs@[x].1 == edge_label(old_edges, s as int, outs@[x].0 as int),
                forall|x1: int, x2: int|
                    0 <= x1 < ins@.len() && 0 <= x2 < ins@.len() && x1 != x2 ==> (
                    #[trigger] ins@[x1]).0 != (#[trigger] ins@[x2]).0,
                forall|x1: int, x2: int|
                    0 <= x1 < outs@.len() && 0 <= x2 < outs@.len() && x1 != x2 ==> (
                    #[trigger] outs@[x1]).0 != (#[trigger] outs@[x2]).0,
                forall|j: int|
                    0 <= j < old_edges.len() && (#[trigger] old_edges[j]).dst == s
                        && old_edges[j].src != s ==> exists|x: int|
                        0 <= x < ins@.len() && (#[trigger] ins@[x]).0 == old_edges[j].src,
                forall|j: int|
                    0 <= j < old_edges.len() && (#[trigger] old_edges[j]).src == s
                        && old_edges[j].dst != s ==> exists|x: int|
                        0 <= x < outs@.len() && (#[trigger] outs@[x]).0 == old_edges[j].dst,
                forall|aa: int, bb: int|
                    #[trigger] has_edge(self.edges@, aa, bb) ==> (has_edge(old_edges, aa, bb) || (
                    exists|x: int, y: int|
                        0 <= x < a && 0 <= y < outs@.len() && (#[trigger] ins@[x]).0 == aa && (
                        #[trigger] outs@[y]).0 == bb)),
                forall|aa: int, bb: int|
                    (has_edge(old_edges, aa, bb) || (exists|x: int, y: int|
                        0 <= x < a && 0 <= y < outs@.len() && (#[trigger] ins@[x]).0 == aa && (
                        #[trigger] outs@[y]).0 == bb)) ==> #[trigger] has_edge(
                        self.edges@,
                        aa,
                        bb,
                    ),
                forall|aa: int, bb: int|
                    #[trigger] has_edge(self.edges@, aa, bb) ==> edge_label(self.edges@, aa, bb)
                        == (if exists|x: int, y: int|
                        0 <= x < a && 0 <= y < outs@.len() && (#[trigger] ins@[x]).0 == aa && (
                        #[trigger] outs@[y]).0 == bb {
                        ripped_label(old_edges, s as int, aa, bb)
                    } else {
                        edge_label(old_edges, aa, bb)
                    }),
            decreases ins@.len() - a,
        {
            let mut b: usize = 0;
            while b < outs.len()
                invariant
                    self.wf(),
                    a < ins@.len(),
                    b <= outs@.len(),
                    len == self.alive@.len(),
                    s < len,
                    self.alive@ == old(self).alive@,
                    self.start_state == old(self).start_state,
                    self.accepting_state == old(self).accepting_state,
                    old_edges == old(self).edges@,
                    self_label is Some <==> has_edge(old_edges, s as int, s as int),
                    self_label is Some ==> self_label->0 == edge_label(
                        old_edges,
                        s as int,
                        s as int,
                    ),
                    forall|x: int|
                        0 <= x < ins@.len() ==> (#[trigger] ins@[x]).0 < len && self.alive@[ins@[x].0 as int]
                            && ins@[x].0 != s && has_edge(old_edges, ins@[x].0 as int, s as int)
                            && ins@[x].1 == edge_label(old_edges, ins@[x].0 as int, s as int),
                    forall|x: int|
                        0 <= x < outs@.len() ==> (#[trigger] outs@[x]).0 < len && self.alive@[outs@[x].0 as int]
                            && outs@[x].0 != s && has_edge(old_edges, s as int, outs@[x].0 as int)
                            && outs@[x].1 == edge_label(old_edges, s as int, outs@[x].0 as int),
                    forall|x1: int, x2: int|
                        0 <= x1 < ins@.len() && 0 <= x2 < ins@.len() && x1 != x2 ==> (
                        #[trigger] ins@[x1]).0 != (#[trigger] ins@[x2]).0,
                    forall|x1: int, x2: int|
                        0 <= x1 < outs@.len() && 0 <= x2 < outs@.len() && x1 != x2 ==> (
                        #[trigger] outs@[x1]).0 != (#[trigger] outs@[x2]).0,
                    forall|aa: int, bb: int|
                        #[trigger] has_edge(self.edges@, aa, bb) ==> (has_edge(old_edges, aa, bb)
                            || (exists|x: int, y: int|
                            0 <= x < ins@.len() && 0 <= y < outs@.len() && (x < a || (x == a && y
                                < b)) && (#[trigger] ins@[x]).0 == aa && (#[trigger] outs@[y]).0
                                == bb)),
                    forall|aa: int, bb: int|
                        (has_edge(old_edges, aa, bb) || (exists|x: int, y: int|
                            0 <= x < ins@.len() && 0 <= y < outs@.len() && (x < a || (x == a && y
                                < b)) && (#[trigger] ins@[x]).0 == aa && (#[trigger] outs@[y]).0
                                == bb)) ==> #[trigger] has_edge(self.edges@, aa, bb),
                    forall|aa: int, bb: int|
                        #[trigger] has_edge(self.edges@, aa, bb) ==> edge_label(
                            self.edges@,
                            aa,
                            bb,
                        ) == (if exists|x: int, y: int|
                            0 <= x < ins@.len() && 0 <= y < outs@.len() && (x < a || (x == a && y
                                < b)) && (#[trigger] ins@[x]).0 == aa && (#[trigger] outs@[y]).0
                                == bb {
                            ripped_label(old_edges, s as int, aa, bb)
                        } else {
                            edge_label(old_edges, aa, bb)
                        }),
                decreases outs@.len() - b,
            {
                let u = ins[a].0;
                let w = outs[b].0;
                let alpha = ins[a].1.dup();
                let gamma = outs[b].1.dup();
                let label = match &self_label {
                    Some(sl) => RegExp::Concat(
                        Box::new(alpha),
                        Box::new(
                            RegExp::Concat(
                                Box::new(RegExp::Star(Box::new(sl.dup()))),
                                Box::new(gamma),
                            ),
                        ),
                    ),
                    None => RegExp::Concat(Box::new(alpha), Box::new(gamma)),
                };
                proof {
                    assert(label == bridge_label(old_edges, s as int, u as int, w as int));
                    // this pair has not been bridged before
                    assert(!(exists|x: int, y: int|
                        0 <= x < ins@.len() && 0 <= y < outs@.len() && (x < a || (x == a && y < b))
                            && (#[trigger] ins@[x]).0 == u && (#[trigger] outs@[y]).0 == w)) by {
                        if exists|x: int, y: int|
                            0 <= x < ins@.len() && 0 <= y < outs@.len() && (x < a || (x == a && y
                                < b)) && (#[trigger] ins@[x]).0 == u && (#[trigger] outs@[y]).0
                                == w {
                            let (x, y) = choose|x: int, y: int|
                                0 <= x < ins@.len() && 0 <= y < outs@.len() && (x < a || (x == a
                                    && y < b)) && (#[trigger] ins@[x]).0 == u && (
                                #[trigger] outs@[y]).0 == w;
                            assert(x == a && y == b);
                        }
                    }
                }
                let ghost pre = self.edges@;
                self.add_arrow(u, w, label);
                proof {
                    assert forall|aa: int, bb: int| has_edge(self.edges@, aa, bb) implies (
                    has_edge(old_edges, aa, bb) || (exists|x: int, y: int|
                        0 <= x < ins@.len() && 0 <= y < outs@.len() && (x < a || (x == a && y < b
                            + 1)) && (#[trigger] ins@[x]).0 == aa && (#[trigger] outs@[y]).0
                            == bb)) by {
                        if has_edge(pre, aa, bb) {
                            if !has_edge(old_edges, aa, bb) {
                                let (x, y) = choose|x: int, y: int|
                                    0 <= x < ins@.len() && 0 <= y < outs@.len() && (x < a || (x
                                        == a && y < b)) && (#[trigger] ins@[x]).0 == aa && (
                                    #[trigger] outs@[y]).0 == bb;
                                assert(0 <= x < ins@.len() && 0 <= y < outs@.len() && (x < a || (x
                                    == a && y < b + 1)) && ins@[x].0 == aa && outs@[y].0 == bb);
                            }
                        } else {
                            assert(aa == u as int && bb == w as int);
                            assert(0 <= a < ins@.len() && 0 <= b < outs@.len() && ins@[a as int].0
                                == aa && outs@[b as int].0 == bb);
                        }
                    }
                    assert forall|aa: int, bb: int| (has_edge(old_edges, aa, bb) || (exists|
                    x: int,
                    y: int,
                |
                        0 <= x < ins@.len() && 0 <= y < outs@.len() && (x < a || (x == a && y < b
                            + 1)) && (#[trigger] ins@[x]).0 == aa && (#[trigger] outs@[y]).0
                            == bb)) implies has_edge(self.edges@, aa, bb) by {
                        if has_edge(old_edges, aa, bb) {
                            assert(has_edge(pre, aa, bb));
                        } else {
                            let (x, y) = choose|x: int, y: int|
                                0 <= x < ins@.len() && 0 <= y < outs@.len() && (x < a || (x == a
                                    && y < b + 1)) && (#[trigger] ins@[x]).0 == aa && (
                                #[trigger] outs@[y]).0 == bb;
                            if x < a || (x == a && y < b) {
                                assert(has_edge(pre, aa, bb));
                            } else {
                                assert(aa == u as int && bb == w as int);
                            }
                        }
                    }
                    assert forall|aa: int, bb: int| #[trigger] has_edge(self.edges@, aa, bb) implies edge_label(
                        self.edges@,
                        aa,
                        bb,
                    ) == (if exists|x: int, y: int|
                        0 <= x < ins@.len() && 0 <= y < outs@.len() && (x < a || (x == a && y < b
                            + 1)) && (#[trigger] ins@[x]).0 == aa && (#[trigger] outs@[y]).0
                            == bb {
                        ripped_label(old_edges, s as int, aa, bb)
                    } else {
                        edge_label(old_edges, aa, bb)
                    }) by {
                        if aa == u as int && bb == w as int {
                            assert(0 <= a < ins@.len() && 0 <= b < outs@.len() && ins@[a as int].0
                                == aa && outs@[b as int].0 == bb);
                            if has_edge(pre, aa, bb) {
                                assert(has_edge(old_edges, aa, bb));
                                assert(edge_label(pre, aa, bb) == edge_label(old_edges, aa, bb));
                                assert(edge_label(self.edges@, aa, bb) == RegExp::Alter(
                                    Box::new(edge_label(old_edges, aa, bb)),
                                    Box::new(label),
                                ));
                            } else {
                                assert(!has_edge(old_edges, aa, bb));
                                assert(edge_label(self.edges@, aa, bb) == label);
                            }
                        } else {
                            assert(has_edge(pre, aa, bb));
                            assert(edge_label(self.edges@, aa, bb) == edge_label(pre, aa, bb));
                            assert((exists|x: int, y: int|
                                0 <= x < ins@.len() && 0 <= y < outs@.len() && (x < a || (x == a
                                    && y < b + 1)) && (#[trigger] ins@[x]).0 == aa && (
                                #[trigger] outs@[y]).0 == bb) == (exists|x: int, y: int|
                                0 <= x < ins@.len() && 0 <= y < outs@.len() && (x < a || (x == a
                                    && y < b)) && (#[trigger] ins@[x]).0 == aa && (
                                #[trigger] outs@[y]).0 == bb)) by {
                                if exists|x: int, y: int|
                                    0 <= x < ins@.len() && 0 <= y < outs@.len() && (x < a || (x
                                        == a && y < b + 1)) && (#[trigger] ins@[x]).0 == aa && (
                                    #[trigger] outs@[y]).0 == bb {
                                    let (x, y) = choose|x: int, y: int|
                                        0 <= x < ins@.len() && 0 <= y < outs@.len() && (x < a || (
                                        x == a && y < b + 1)) && (#[trigger] ins@[x]).0 == aa && (
                                        #[trigger] outs@[y]).0 == bb;
                                    assert(!(x == a && y == b));
                                    assert(0 <= x < ins@.len() && 0 <= y < outs@.len() && (x < a
                                        || (x == a && y < b)) && ins@[x].0 == aa && outs@[y].0
                                        == bb);
                                }
                            }
                        }
                    }
                }
                b = b + 1;
            }
            proof {
                assert forall|aa: int, bb: int|
                    has_edge(self.edges@, aa, bb) implies (has_edge(old_edges, aa, bb) || (exists|
                x: int,
                y: int,
            |
                    0 <= x < a + 1 && 0 <= y < outs@.len() && (#[trigger] ins@[x]).0 == aa && (
                    #[trigger] outs@[y]).0 == bb)) by {
                    if !has_edge(old_edges, aa, bb) {
                        let (x, y) = choose|x: int, y: int|
                            0 <= x < ins@.len() && 0 <= y < outs@.len() && (x < a || (x == a && y
                                < outs@.len())) && (#[trigger] ins@[x]).0 == aa && (
                            #[trigger] outs@[y]).0 == bb;
                        assert(0 <= x < a + 1 && 0 <= y < outs@.len() && ins@[x].0 == aa
                            && outs@[y].0 == bb);
                    }
                }
                assert forall|aa: int, bb: int| (has_edge(old_edges, aa, bb) || (exists|
                x: int,
                y: int,
            |
                    0 <= x < a + 1 && 0 <= y < outs@.len() && (#[trigger] ins@[x]).0 == aa && (
                    #[trigger] outs@[y]).0 == bb)) implies has_edge(self.edges@, aa, bb) by {
                    if !has_edge(old_edges, aa, bb) {
                        let (x, y) = choose|x: int, y: int|
                            0 <= x < a + 1 && 0 <= y < outs@.len() && (#[trigger] ins@[x]).0 == aa
                                && (#[trigger] outs@[y]).0 == bb;
                        assert(0 <= x < ins@.len() && 0 <= y < outs@.len() && (x < a || (x == a
                            && y < outs@.len())) && ins@[x].0 == aa && outs@[y].0 == bb);
                    }
                }
            }
            a = a + 1;
        }
        // remove the arrows incident to s
        let ghost mid = self.edges@;
        let mut i: usize = 0;
        while i < self.edges.len()
            invariant
                self.wf(),
                len == self.alive@.len(),
                s < len,
                self.alive@ == old(self).alive@,
                self.start_state == old(self).start_state,
                self.accepting_state == old(self).accepting_state,
                i <= self.edges@.len(),
                forall|j: int|
                    0 <= j < i ==> (#[trigger] self.edges@[j]).src != s && self.edges@[j].dst != s,
                forall|aa: int, bb: int| has_edge(self.edges@, aa, bb) ==> has_edge(mid, aa, bb),
                forall|aa: int, bb: int|
                    aa != s && bb != s && has_edge(mid, aa, bb) ==> has_edge(self.edges@, aa, bb),
                forall|aa: int, bb: int|
                    #[trigger] has_edge(self.edges@, aa, bb) ==> edge_label(self.edges@, aa, bb)
                        == edge_label(mid, aa, bb),
            decreases self.edges@.len() - i,
        {
            if self.edges[i].src == s || self.edges[i].dst == s {
                let ghost cur = self.edges@;
                self.edges.swap_remove(i);
                proof {
                    let n = cur.len();
                    assert(self.edges@ =~= cur.update(i as int, cur.last()).drop_last());
                    assert forall|aa: int, bb: int| has_edge(self.edges@, aa, bb) implies has_edge(
                        mid,
                        aa,
                        bb,
                    ) && edge_label(self.edges@, aa, bb) == edge_label(mid, aa, bb) by {
                        let j = choose|j: int|
                            0 <= j < self.edges@.len() && self.edges@[j].src == aa
                                && self.edges@[j].dst == bb;
                        let ghost jc: int = if j == i as int && i as int != n - 1 {
                            n - 1
                        } else {
                            j
                        };
                        assert(cur[jc].src == aa && cur[jc].dst == bb && cur[jc]
                            == self.edges@[j]);
                        assert(has_edge(cur, aa, bb));
                        lemma_edge_label(self.edges@, j);
                        lemma_edge_label(cur, jc);
                        assert(edge_label(cur, aa, bb) == edge_label(mid, aa, bb));
                    }
                    assert forall|aa: int, bb: int|
                        aa != s && bb != s && has_edge(mid, aa, bb) implies has_edge(
                        self.edges@,
                        aa,
                        bb,
                    ) by {
                        assert(has_edge(cur, aa, bb));
                        let j = choose|j: int| 0 <= j < n && cur[j].src == aa && cur[j].dst == bb;
                        assert(j != i as int);
                        if j == n - 1 {
                            assert(self.edges@[i as int].src == aa && self.edges@[i as int].dst
                                == bb);
                        } else {
                            assert(self.edges@[j].src == aa && self.edges@[j].dst == bb);
                        }
                    }
                }
            } else {
                i = i + 1;
            }
        }
        self.alive[s] = false;
        proof {
            assert forall|aa: int, bb: int| has_edge(self.edges@, aa, bb) implies (aa != s && bb
                != s && (has_edge(old_edges, aa, bb) || (has_edge(old_edges, aa, s as int)
                && has_edge(old_edges, s as int, bb)))) by {
                let j = choose|j: int|
                    0 <= j < self.edges@.len() && self.edges@[j].src == aa && self.edges@[j].dst
                        == bb;
                assert(aa != s && bb != s);
                assert(has_edge(mid, aa, bb));
                if !has_edge(old_edges, aa, bb) {
                    let (x, y) = choose|x: int, y: int|
                        0 <= x < ins@.len() && 0 <= y < outs@.len() && (#[trigger] ins@[x]).0 == aa
                            && (#[trigger] outs@[y]).0 == bb;
                    assert(has_edge(old_edges, aa, s as int));
                    assert(has_edge(old_edges, s as int, bb));
                }
            }
            assert forall|aa: int, bb: int| (aa != s && bb != s && (has_edge(old_edges, aa, bb)
                || (has_edge(old_edges, aa, s as int) && has_edge(
                old_edges,
                s as int,
                bb,
            )))) implies has_edge(self.edges@, aa, bb) by {
                if has_edge(old_edges, aa, bb) {
                    assert(has_edge(mid, aa, bb));
                } else {
                    let j1 = choose|j: int|
                        0 <= j < old_edges.len() && old_edges[j].src == aa && old_edges[j].dst
                            == s as int;
                    let j2 = choose|j: int|
                        0 <= j < old_edges.len() && old_edges[j].src == s as int && old_edges[j].dst
                            == bb;
                    let x = choose|x: int|
                        0 <= x < ins@.len() && (#[trigger] ins@[x]).0 == old_edges[j1].src;
                    let y = choose|y: int|
                        0 <= y < outs@.len() && (#[trigger] outs@[y]).0 == old_edges[j2].dst;
                    assert(ins@[x].0 == aa && outs@[y].0 == bb);
                    assert(has_edge(mid, aa, bb));
                }
            }
            assert forall|aa: int, bb: int| has_edge(self.edges@, aa, bb) implies edge_label(
                self.edges@,
                aa,
                bb,
            ) == ripped_label(old_edges, s as int, aa, bb) by {
                assert(has_edge(mid, aa, bb));
                assert(edge_label(self.edges@, aa, bb) == edge_label(mid, aa, bb));
                if has_edge(old_edges, aa, s as int) && has_edge(old_edges, s as int, bb) {
                    let j1 = choose|j: int|
                        0 <= j < old_edges.len() && old_edges[j].src == aa && old_edges[j].dst
                            == s as int;
                    let j2 = choose|j: int|
                        0 <= j < old_edges.len() && old_edges[j].src == s as int && old_edges[j].dst
                            == bb;
                    let x = choose|x: int|
                        0 <= x < ins@.len() && (#[trigger] ins@[x]).0 == old_edges[j1].src;
                    let y = choose|y: int|
                        0 <= y < outs@.len() && (#[trigger] outs@[y]).0 == old_edges[j2].dst;
                    assert(ins@[x].0 == aa && outs@[y].0 == bb);
                    assert(exists|x: int, y: int|
                        0 <= x < ins@.len() && 0 <= y < outs@.len() && (#[trigger] ins@[x]).0 == aa
                            && (#[trigger] outs@[y]).0 == bb);
                } else {
                    assert(!(exists|x: int, y: int|
                        0 <= x < ins@.len() && 0 <= y < outs@.len() && (#[trigger] ins@[x]).0 == aa
                            && (#[trigger] outs@[y]).0 == bb)) by {
                        if exists|x: int, y: int|
                            0 <= x < ins@.len() && 0 <= y < outs@.len() && (#[trigger] ins@[x]).0
                                == aa && (#[trigger] outs@[y]).0 == bb {
                            let (x, y) = choose|x: int, y: int|
                                0 <= x < ins@.len() && 0 <= y < outs@.len() && (
                                #[trigger] ins@[x]).0 == aa && (#[trigger] outs@[y]).0 == bb;
                        }
                    }
                }
            }
        }
    }

    /// Eliminates internal states until only the start and the accepting
    /// state remain. The language accepted does not change; which state is
    /// eliminated first is unspecified, so the concrete regex tree is not
    /// pinned here.
    pub fn reduce(&mut self)
        requires
            old(self).wf(),
        ensures
            final(self).wf(),
            final(self).start_state == old(self).start_state,
            final(self).accepting_state == old(self).accepting_state,
            num_alive(final(self).alive@) == 2,
            forall|i: int|
                0 <= i < final(self).alive@.len() && final(self).alive@[i] ==> i
                    == final(self).start_state || i == final(self).accepting_state,
            edges_map(final(self).edges@) == eliminate(
                edges_map(old(self).edges@),
                old(self).alive@,
                old(self).start_state as int,
                old(self).accepting_state as int,
            ),
    {
        loop
            invariant
                self.wf(),
                self.start_state == old(self).start_state,
                self.accepting_state == old(self).accepting_state,
                eliminate(
                    edges_map(self.edges@),
                    self.alive@,
                    self.start_state as int,
                    self.accepting_state as int,
                ) == eliminate(
                    edges_map(old(self).edges@),
                    old(self).alive@,
                    old(self).start_state as int,
                    old(self).accepting_state as int,
                ),
            ensures
                self.wf(),
                self.start_state == old(self).start_state,
                self.accepting_state == old(self).accepting_state,
                num_alive(self.alive@) <= 2,
                eliminate(
                    edges_map(self.edges@),
                    self.alive@,
                    self.start_state as int,
                    self.accepting_state as int,
                ) == eliminate(
                    edges_map(old(self).edges@),
                    old(self).alive@,
                    old(self).start_state as int,
                    old(self).accepting_state as int,
                ),
            decreases num_alive(self.alive@),
        {
            if !(self.num_states() > 2) {
                break;
            }
            let s = self.next_to_rip();
            let ghost edges_prev = self.edges@;
            let ghost m_prev = edges_map(self.edges@);
            let ghost alive_prev = self.alive@;
            proof {
                lemma_num_alive_update(self.alive@, s as int);
            }
            self.rip_state(s);
            proof {
                assert(edges_map(self.edges@) =~= rip_map(m_prev, s as int)) by {
                    assert forall|p: (int, int)|
                        edges_map(self.edges@).dom().contains(p) <==> rip_map(
                            m_prev,
                            s as int,
                        ).dom().contains(p) by {}
                    assert forall|p: (int, int)|
                        #[trigger] rip_map(m_prev, s as int).dom().contains(p) implies edges_map(
                        self.edges@,
                    )[p] == rip_map(m_prev, s as int)[p] by {
                        let (a, b) = p;
                        assert(has_edge(self.edges@, a, b));
                        assert(edge_label(self.edges@, a, b) == ripped_label(
                            edges_prev,
                            s as int,
                            a,
                            b,
                        ));
                        assert(ripped_label(edges_prev, s as int, a, b) == rip_map_label(
                            m_prev,
                            s as int,
                            a,
                            b,
                        )) by {
                            if has_edge(edges_prev, a, s as int) && has_edge(
                                edges_prev,
                                s as int,
                                b,
                            ) {
                                assert(m_prev[(a, s as int)] == edge_label(
                                    edges_prev,
                                    a,
                                    s as int,
                                ));
                                assert(m_prev[(s as int, b)] == edge_label(
                                    edges_prev,
                                    s as int,
                                    b,
                                ));
                                if has_edge(edges_prev, s as int, s as int) {
                                    assert(m_prev[(s as int, s as int)] == edge_label(
                                        edges_prev,
                                        s as int,
                                        s as int,
                                    ));
                                }
                                if has_edge(edges_prev, a, b) {
                                    assert(m_prev[(a, b)] == edge_label(edges_prev, a, b));
                                }
                            } else {
                                if has_edge(edges_prev, a, b) {
                                    assert(m_prev[(a, b)] == edge_label(edges_prev, a, b));
                                }
                            }
                        }
                    }
                }
                assert(self.alive@ == alive_prev.update(s as int, false));
            }
        }
        proof {
            let a = self.start_state as int;
            let b = self.accepting_state as int;
            if a < b {
                lemma_alive_ge_two(self.alive@, a, b);
            } else {
                lemma_alive_ge_two(self.alive@, b, a);
            }
            assert forall|i: int|
                0 <= i < self.alive@.len() && self.alive@[i] implies i == self.start_state as int
                || i == self.accepting_state as int by {
                if i != a && i != b {
                    if a < b {
                        lemma_alive_ge_two(self.alive@, a, b);
                    }
                    lemma_three_alive(self.alive@, a, b, i);
                }
            }
        }
    }

    /// The regex labelling the arrow from the start state to the accepting
    /// state, if that arrow is present. After `reduce` on a CFG whose exit
    /// is reachable from its entry, it is the regex of the function.
    pub fn start_to_end(&self) -> (r: Option<RegExp>)
        requires
            self.wf(),
        ensures
            match r {
                Some(re) => has_edge(
                    self.edges@,
                    self.start_state as int,
                    self.accepting_state as int,
                ) && re == edge_label(
                    self.edges@,
                    self.start_state as int,
                    self.accepting_state as int,
                ),
                None => !has_edge(
                    self.edges@,
                    self.start_state as int,
                    self.accepting_state as int,
                ),
            },
    {
        match self.find_edge(self.start_state, self.accepting_state) {
            Some(i) => {
                proof {
                    lemma_edge_label(self.edges@, i as int);
                }
                Some(self.edges[i].label.dup())
            },
            None => None,
        }
    }
}

/// Three distinct alive states give a state count of at least three.
proof fn lemma_three_alive(s: Seq<bool>, a: int, b: int, c: int)
    requires
        0 <= a < s.len(),
        0 <= b < s.len(),
        0 <= c < s.len(),
        a != b && a != c && b != c,
        s[a],
        s[b],
        s[c],
    ensures
        num_alive(s) >= 3,
    decreases s,
{
    if a == s.len() - 1 {
        if b < c {
            lemma_alive_ge_two(s.drop_last(), b, c);
        } else {
            lemma_alive_ge_two(s.drop_last(), c, b);
        }
    } else if b == s.len() - 1 {
        if a < c {
            lemma_alive_ge_two(s.drop_last(), a, c);
        } else {
            lemma_alive_ge_two(s.drop_last(), c, a);
        }
    } else if c == s.len() - 1 {
        if a < b {
            lemma_alive_ge_two(s.drop_last(), a, b);
        } else {
            lemma_alive_ge_two(s.drop_last(), b, a);
        }
    } else {
        lemma_three_alive(s.drop_last(), a, b, c);
    }
}

/// Whether the CFG has an edge from node `a` to node `b`.
pub open spec fn cfg_step(g: Cfg, a: int, b: int) -> bool {
    &&& 0 <= a < g.succs@.len()
    &&& exists|j: int| 0 <= j < g.succs@[a]@.len() && g.succs@[a]@[j] == b
}

/// Whether `p` is a walk from `a` to `b` along the CFG's edges.
pub open spec fn cfg_is_walk(g: Cfg, p: Seq<int>, a: int, b: int) -> bool {
    &&& p.len() >= 1
    &&& p[0] == a
    &&& p.last() == b
    &&& forall|i: int| 0 <= i < p.len() - 1 ==> cfg_step(g, #[trigger] p[i], p[i + 1])
}

/// Whether node `b` is reachable from node `a` in the CFG; every node
/// reaches itself by the one-node walk.
pub open spec fn cfg_reaches(g: Cfg, a: int, b: int) -> bool {
    exists|p: Seq<int>| cfg_is_walk(g, p, a, b)
}

/// Whether `b` is a loop head of the CFG: the block identifier of an
/// ordinary node that lies on a cycle through at least one other node.
pub open spec fn is_loop_head(g: Cfg, b: i32) -> bool {
    exists|v: int|
        0 <= v < g.nodes@.len() && g.nodes@[v] == Node::Literal(b) && (exists|w: int|
            0 <= w < g.nodes@.len() && w != v && cfg_reaches(g, v, w) && cfg_reaches(g, w, v))
}

impl Cfg {
    /// Runtime test of well-formedness.
    pub fn check(&self) -> (r: bool)
        ensures
            r == self.wf(),
    {
        if self.succs.len() != self.nodes.len() {
            return false;
        }
        if self.entry >= self.nodes.len() || self.exit >= self.nodes.len() {
            return false;
        }
        let mut u: usize = 0;
        while u < self.succs.len()
            invariant
                self.succs@.len() == self.nodes@.len(),
                u <= self.succs@.len(),
                forall|a: int, j: int|
                    0 <= a < u && 0 <= j < self.succs@[a]@.len() ==> (#[trigger] self.succs@[a]@[j])
                        < self.nodes@.len(),
            decreases self.succs@.len() - u,
        {
            let mut j: usize = 0;
            let row_len = self.succs[u].len();
            while j < row_len
                invariant
                    self.succs@.len() == self.nodes@.len(),
                    u < self.succs@.len(),
                    row_len == self.succs@[u as int]@.len(),
                    j <= row_len,
                    forall|jj: int|
                        0 <= jj < j ==> (#[trigger] self.succs@[u as int]@[jj])
                            < self.nodes@.len(),
                decreases row_len - j,
            {
                if self.succs[u][j] >= self.nodes.len() {
                    return false;
                }
                j = j + 1;
            }
            u = u + 1;
        }
        true
    }

    /// The block identifiers of the nodes with no successors.
    pub fn exit_blocks(&self) -> (r: Vec<i32>)
        requires
            self.wf(),
        ensures
            forall|b: i32|
                #[trigger] r@.contains(b) <==> exists|i: int|
                    0 <= i < self.nodes@.len() && (#[trigger] self.succs@[i])@.len() == 0
                        && spec_block_id(self.nodes@[i]) == b,
    {
        let mut r: Vec<i32> = Vec::new();
        let mut i: usize = 0;
        while i < self.nodes.len()
            invariant
                self.wf(),
                i <= self.nodes@.len(),
                forall|b: i32|
                    #[trigger] r@.contains(b) <==> exists|ii: int|
                        0 <= ii < i && (#[trigger] self.succs@[ii])@.len() == 0 && spec_block_id(
                            self.nodes@[ii],
                        ) == b,
            decreases self.nodes@.len() - i,
        {
            let ghost r_prev = r@;
            if self.succs[i].is_empty() {
                let b = self.nodes[i].to_block_id();
                r.push(b);
                proof {
                    assert forall|bb: i32| #[trigger] r@.contains(bb) implies exists|ii: int|
                        0 <= ii < i + 1 && (#[trigger] self.succs@[ii])@.len() == 0 && spec_block_id(
                            self.nodes@[ii],
                        ) == bb by {
                        let w = choose|wj: int| 0 <= wj < r@.len() && r@[wj] == bb;
                        if w < r_prev.len() {
                            assert(r_prev[w] == bb);
                            assert(r_prev.contains(bb));
                        } else {
                            assert(self.succs@[i as int]@.len() == 0 && spec_block_id(
                                self.nodes@[i as int],
                            ) == bb);
                        }
                    }
                    assert forall|bb: i32|
                        exists|ii: int|
                            0 <= ii < i + 1 && (#[trigger] self.succs@[ii])@.len() == 0
                                && spec_block_id(self.nodes@[ii]) == bb implies #[trigger] r@.contains(
                        bb,
                    ) by {
                        let ii = choose|ii: int|
                            0 <= ii < i + 1 && (#[trigger] self.succs@[ii])@.len() == 0
                                && spec_block_id(self.nodes@[ii]) == bb;
                        if ii < i {
                            assert(r_prev.contains(bb));
                            let w = choose|wj: int| 0 <= wj < r_prev.len() && r_prev[wj] == bb;
                            assert(r@[w] == bb);
                        } else {
                            assert(r@[r@.len() - 1] == bb);
                        }
                    }
                }
            } else {
                proof {
                    assert forall|bb: i32|
                        exists|ii: int|
                            0 <= ii < i + 1 && (#[trigger] self.succs@[ii])@.len() == 0
                                && spec_block_id(self.nodes@[ii]) == bb implies #[trigger] r@.contains(
                        bb,
                    ) by {
                        let ii = choose|ii: int|
                            0 <= ii < i + 1 && (#[trigger] self.succs@[ii])@.len() == 0
                                && spec_block_id(self.nodes@[ii]) == bb;
                        assert(ii < i);
                    }
                }
            }
            i = i + 1;
        }
        r
    }

    /// The CFG's edges as a list of node-index pairs.
    fn edge_list(&self) -> (r: Vec<(usize, usize)>)
        requires
            self.wf(),
        ensures
            r@.len() == succs_total(self.succs@),
            forall|i: int|
                0 <= i < r@.len() ==> (#[trigger] r@[i]).0 < self.nodes@.len() && r@[i].1
                    < self.nodes@.len(),
            forall|a: int, b: int| crate::scc::edge_step(r@, a, b) <==> cfg_step(*self, a, b),
    {
        let mut r: Vec<(usize, usize)> = Vec::new();
        let mut u: usize = 0;
        proof {
            assert(self.succs@.take(0) =~= Seq::<Vec<usize>>::empty());
        }
        while u < self.succs.len()
            invariant
                self.wf(),
                u <= self.succs@.len(),
                r@.len() == succs_total(self.succs@.take(u as int)),
                forall|i: int|
                    0 <= i < r@.len() ==> (#[trigger] r@[i]).0 < self.nodes@.len() && r@[i].1
                        < self.nodes@.len(),
                forall|i: int|
                    0 <= i < r@.len() ==> cfg_step(*self, (#[trigger] r@[i]).0 as int, r@[i].1 as int),
                forall|a: int, b: int|
                    (0 <= a < u && cfg_step(*self, a, b)) ==> crate::scc::edge_step(r@, a, b),
            decreases self.succs@.len() - u,
        {
            let mut j: usize = 0;
            let row_len = self.succs[u].len();
            while j < row_len
                invariant
                    self.wf(),
                    u < self.succs@.len(),
                    row_len == self.succs@[u as int]@.len(),
                    j <= row_len,
                    r@.len() == succs_total(self.succs@.take(u as int)) + j,
                    forall|i: int|
                        0 <= i < r@.len() ==> (#[trigger] r@[i]).0 < self.nodes@.len() && r@[i].1
                            < self.nodes@.len(),
                    forall|i: int|
                        0 <= i < r@.len() ==> cfg_step(*self, (#[trigger] r@[i]).0 as int, r@[i].1 as int),
                    forall|a: int, b: int|
                        (0 <= a < u && cfg_step(*self, a, b)) ==> crate::scc::edge_step(r@, a, b),
                    forall|jj: int|
                        0 <= jj < j ==> crate::scc::edge_step(
                            r@,
                            u as int,
                            (#[trigger] self.succs@[u as int]@[jj]) as int,
                        ),
                decreases row_len - j,
            {
                let v = self.succs[u][j];
                let ghost r_prev = r@;
                r.push((u, v));
                proof {
                    assert(r@[r@.len() - 1] == (u, v));
                    assert forall|i: int|
                        0 <= i < r@.len() implies cfg_step(
                        *self,
                        (#[trigger] r@[i]).0 as int,
                        r@[i].1 as int,
                    ) by {
                        if i < r_prev.len() {
                            assert(r@[i] == r_prev[i]);
                        } else {
                            assert(r@[i] == (u, v));
                            assert(self.succs@[u as int]@[j as int] == v);
                        }
                    }
                    assert forall|a: int, b: int|
                        (0 <= a < u && cfg_step(*self, a, b)) implies crate::scc::edge_step(
                        r@,
                        a,
                        b,
                    ) by {
                        let i = choose|i: int|
                            0 <= i < r_prev.len() && r_prev[i].0 == a && r_prev[i].1 == b;
                        assert(r@[i].0 == a && r@[i].1 == b);
                    }
                    assert forall|jj: int| 0 <= jj < j + 1 implies crate::scc::edge_step(
                        r@,
                        u as int,
                        (#[trigger] self.succs@[u as int]@[jj]) as int,
                    ) by {
                        if jj < j {
                            let i = choose|i: int|
                                0 <= i < r_prev.len() && r_prev[i].0 == u as int && r_prev[i].1
                                    == self.succs@[u as int]@[jj] as int;
                            assert(r@[i].0 == u as int && r@[i].1 == self.succs@[u as int]@[jj] as int);
                        } else {
                            assert(r@[r@.len() - 1].0 == u as int && r@[r@.len() - 1].1
                                == self.succs@[u as int]@[jj] as int);
                        }
                    }
                }
                j = j + 1;
            }
            proof {
                assert(self.succs@.take(u + 1).drop_last() =~= self.succs@.take(u as int));
                assert(self.succs@.take(u + 1).last() == self.succs@[u as int]);
                assert forall|a: int, b: int|
                    (0 <= a < u + 1 && cfg_step(*self, a, b)) implies crate::scc::edge_step(
                    r@,
                    a,
                    b,
                ) by {
                    if a == u as int {
                        let jj = choose|jj: int|
                            0 <= jj < self.succs@[a]@.len() && self.succs@[a]@[jj] == b;
                        assert(crate::scc::edge_step(r@, u as int, self.succs@[u as int]@[jj] as int));
                    }
                }
            }
            u = u + 1;
        }
        proof {
            assert(self.succs@.take(self.succs@.len() as int) =~= self.succs@);
        }
        r
    }
}

/// Walks along an edge list and along the CFG agree when the two step
/// relations agree.
proof fn lemma_reaches_bridge(edges: Seq<(usize, usize)>, g: Cfg)
    requires
        forall|a: int, b: int| crate::scc::edge_step(edges, a, b) <==> cfg_step(g, a, b),
    ensures
        forall|a: int, b: int| crate::scc::reaches(edges, a, b) <==> cfg_reaches(g, a, b),
{
    assert forall|a: int, b: int| crate::scc::reaches(edges, a, b) implies cfg_reaches(
        g,
        a,
        b,
    ) by {
        let p = choose|p: Seq<int>| crate::scc::is_walk(edges, p, a, b);
        assert(cfg_is_walk(g, p, a, b));
    }
    assert forall|a: int, b: int| cfg_reaches(g, a, b) implies crate::scc::reaches(
        edges,
        a,
        b,
    ) by {
        let p = choose|p: Seq<int>| cfg_is_walk(g, p, a, b);
        assert(crate::scc::is_walk(edges, p, a, b));
    }
}

impl Cfg {
    /// The loop heads of the CFG: the block identifiers of the ordinary
    /// nodes that lie in a strongly connected component of more than one
    /// node.
    pub fn loop_head_blocks(&self) -> (r: Option<Vec<i32>>)
        requires
            self.wf(),
            self.nodes@.len() < u32::MAX as usize,
        ensures
            r is Some <==> succs_total(self.succs@) < u32::MAX as usize,
            match r {
                Some(heads) => forall|b: i32|
                    #[trigger] heads@.contains(b) <==> is_loop_head(*self, b),
                None => true,
            },
    {
        let n = self.nodes.len();
        let edges = self.edge_list();
        if edges.len() >= u32::MAX as usize {
            return None;
        }
        let comps = crate::scc::tarjan_components(n, &edges);
        proof {
            lemma_reaches_bridge(edges@, *self);
        }
        let mut r: Vec<i32> = Vec::new();
        let mut ci: usize = 0;
        while ci < comps.len()
            invariant
                self.wf(),
                n == self.nodes@.len(),
                forall|i: int, j: int|
                    0 <= i < comps@.len() && 0 <= j < comps@[i]@.len() ==> (#[trigger] comps@[i]@[j]) < n,
                forall|i: int, j1: int, j2: int|
                    0 <= i < comps@.len() && 0 <= j1 < comps@[i]@.len() && 0 <= j2 < comps@[i]@.len()
                        && j1 != j2 ==> (#[trigger] comps@[i]@[j1]) != (#[trigger] comps@[i]@[j2]),
                forall|u: usize| u < n ==> crate::scc::in_same_component(comps@, u as int, u as int),
                forall|u: int, v: int|
                    0 <= u < n && 0 <= v < n ==> (crate::scc::in_same_component(comps@, u, v) <==> (
                    cfg_reaches(*self, u, v) && cfg_reaches(*self, v, u))),
                ci <= comps@.len(),
                forall|b: i32| #[trigger] r@.contains(b) ==> is_loop_head(*self, b),
                forall|i: int, j: int|
                    0 <= i < ci && comps@[i]@.len() > 1 && 0 <= j < comps@[i]@.len()
                        && (#[trigger] self.nodes@[comps@[i]@[j] as int]) is Literal
                        ==> r@.contains(self.nodes@[comps@[i]@[j] as int]->Literal_0),
            decreases comps@.len() - ci,
        {
            let clen = comps[ci].len();
            if clen > 1 {
                let mut j: usize = 0;
                while j < clen
                    invariant
                        self.wf(),
                        n == self.nodes@.len(),
                        ci < comps@.len(),
                        clen == comps@[ci as int]@.len(),
                        clen > 1,
                        j <= clen,
                        forall|i: int, jj: int|
                            0 <= i < comps@.len() && 0 <= jj < comps@[i]@.len() ==> (#[trigger] comps@[i]@[jj]) < n,
                        forall|i: int, j1: int, j2: int|
                            0 <= i < comps@.len() && 0 <= j1 < comps@[i]@.len() && 0 <= j2 < comps@[i]@.len()
                                && j1 != j2 ==> (#[trigger] comps@[i]@[j1]) != (#[trigger] comps@[i]@[j2]),
                        forall|u: int, v: int|
                            0 <= u < n && 0 <= v < n ==> (crate::scc::in_same_component(comps@, u, v)
                                <==> (cfg_reaches(*self, u, v) && cfg_reaches(*self, v, u))),
                        forall|b: i32| #[trigger] r@.contains(b) ==> is_loop_head(*self, b),
                        forall|i: int, jj: int|
                            0 <= i < ci && comps@[i]@.len() > 1 && 0 <= jj < comps@[i]@.len()
                                && (#[trigger] self.nodes@[comps@[i]@[jj] as int]) is Literal
                                ==> r@.contains(self.nodes@[comps@[i]@[jj] as int]->Literal_0),
                        forall|jj: int|
                            0 <= jj < j && (#[trigger] self.nodes@[comps@[ci as int]@[jj] as int]) is Literal
                                ==> r@.contains(self.nodes@[comps@[ci as int]@[jj] as int]->Literal_0),
                    decreases clen - j,
                {
                    let v = comps[ci][j];
                    let ghost r_prev = r@;
                    match self.nodes[v] {
                        Node::Literal(b) => {
                            r.push(b);
                            proof {
                                // v lies in a component with another node
                                let j2: int = if j == 0 {
                                    1
                                } else {
                                    0
                                };
                                let w = comps@[ci as int]@[j2];
                                assert(comps@[ci as int]@.contains(v));
                                assert(comps@[ci as int]@.contains(w));
                                assert(crate::scc::in_same_component(comps@, v as int, w as int));
                                assert(w != v);
                                assert(is_loop_head(*self, b)) by {
                                    assert(self.nodes@[v as int] == Node::Literal(b));
                                    assert(0 <= w < self.nodes@.len() && w as int != v as int
                                        && cfg_reaches(*self, v as int, w as int) && cfg_reaches(
                                        *self,
                                        w as int,
                                        v as int,
                                    ));
                                }
                                assert(r@[r@.len() - 1] == b);
                                assert forall|bb: i32| r_prev.contains(bb) implies #[trigger] r@.contains(
                                    bb,
                                ) by {
                                    let wj = choose|wj: int|
                                        0 <= wj < r_prev.len() && r_prev[wj] == bb;
                                    assert(r@[wj] == bb);
                                }
                                assert forall|bb: i32| #[trigger] r@.contains(bb) implies is_loop_head(
                                    *self,
                                    bb,
                                ) by {
                                    let wj = choose|wj: int| 0 <= wj < r@.len() && r@[wj] == bb;
                                    if wj < r_prev.len() {
                                        assert(r_prev[wj] == bb);
                                        assert(r_prev.contains(bb));
                                    }
                                }
                                assert forall|jj: int|
                                    0 <= jj < j + 1 && (#[trigger] self.nodes@[comps@[ci as int]@[jj] as int]) is Literal implies r@.contains(
                                    self.nodes@[comps@[ci as int]@[jj] as int]->Literal_0,
                                ) by {
                                    if jj < j {
                                        let bb = self.nodes@[comps@[ci as int]@[jj] as int]->Literal_0;
                                        assert(r_prev.contains(bb));
                                        let wj = choose|wj: int|
                                            0 <= wj < r_prev.len() && r_prev[wj] == bb;
                                        assert(r@[wj] == bb);
                                    } else {
                                        assert(r@[r@.len() - 1] == b);
                                    }
                                }
                            }
                        },
                        Node::Var(_) => {
                            proof {
                                assert forall|jj: int|
                                    0 <= jj < j + 1 && (#[trigger] self.nodes@[comps@[ci as int]@[jj] as int]) is Literal implies r@.contains(
                                    self.nodes@[comps@[ci as int]@[jj] as int]->Literal_0,
                                ) by {
                                    assert(jj != j);
                                }
                            }
                        },
                        Node::Extern(_) => {
                            proof {
                                assert forall|jj: int|
                                    0 <= jj < j + 1 && (#[trigger] self.nodes@[comps@[ci as int]@[jj] as int]) is Literal implies r@.contains(
                                    self.nodes@[comps@[ci as int]@[jj] as int]->Literal_0,
                                ) by {
                                    assert(jj != j);
                                }
                            }
                        },
                    }
                    j = j + 1;
                }
            }
            ci = ci + 1;
        }
        proof {
            assert forall|b: i32| is_loop_head(*self, b) implies #[trigger] r@.contains(b) by {
                let v = choose|v: int|
                    0 <= v < self.nodes@.len() && self.nodes@[v] == Node::Literal(b) && (exists|w: int|
                        0 <= w < self.nodes@.len() && w != v && cfg_reaches(*self, v, w)
                            && cfg_reaches(*self, w, v));
                let w = choose|w: int|
                    0 <= w < self.nodes@.len() && w != v && cfg_reaches(*self, v, w) && cfg_reaches(
                        *self,
                        w,
                        v,
                    );
                assert(crate::scc::in_same_component(comps@, v, w));
                let i = choose|i: int|
                    0 <= i < comps@.len() && (#[trigger] comps@[i])@.contains(v as usize)
                        && comps@[i]@.contains(w as usize);
                let j1 = choose|j1: int| 0 <= j1 < comps@[i]@.len() && comps@[i]@[j1] == v as usize;
                let j2 = choose|j2: int| 0 <= j2 < comps@[i]@.len() && comps@[i]@[j2] == w as usize;
                assert(j1 != j2);
                assert(comps@[i]@.len() > 1);
                assert(self.nodes@[comps@[i]@[j1] as int] is Literal);
            }
        }
        Some(r)
    }
}

/// The arrows of the GNFA a control-flow graph compiles to, before any
/// elimination: the CFG's edges plus the start arrow, each labelled with
/// the lifted tag of its destination.
pub open spec fn init_map(g: Cfg) -> Map<(int, int), RegExp> {
    Map::new(
        |p: (int, int)| cfg_step(g, p.0, p.1) || (p.0 == g.nodes@.len() && p.1 == g.entry),
        |p: (int, int)| spec_lift(g.nodes@[p.1]),
    )
}

/// The regex a control-flow graph compiles to: the label of the arrow from
/// the start state to the exit after full state elimination, or nothing
/// when the exit ends up unconnected.
pub open spec fn spec_compile(g: Cfg) -> Option<RegExp> {
    let n = g.nodes@.len() as int;
    let m = eliminate(
        init_map(g),
        Seq::new((g.nodes@.len() + 1) as nat, |i: int| true),
        n,
        g.exit as int,
    );
    if m.dom().contains((n, g.exit as int)) {
        Some(m[(n, g.exit as int)])
    } else {
        None
    }
}

} // verus!
