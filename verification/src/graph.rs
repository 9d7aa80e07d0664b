use vstd::prelude::*;

use vstd::set_lib::lemma_len_subset;

use crate::keymap::{edge_set, KeyMap};
use crate::keyset::KeySet;

verus! {

/// The adjacency model of a reference graph.
pub type Graph = Map<Seq<char>, Set<Seq<char>>>;

/// `g` has an edge from `a` to `b`.
pub open spec fn graph_edge(g: Graph, a: Seq<char>, b: Seq<char>) -> bool {
    g.dom().contains(a) && g[a].contains(b)
}

/// `a` and `b` are joined by an edge of `m` declared in either direction.
pub open spec fn sym_edge(m: Graph, a: Seq<char>, b: Seq<char>) -> bool {
    graph_edge(m, a, b) || graph_edge(m, b, a)
}

/// `m` with every declared edge present in both directions, and every
/// endpoint of an edge present as a node.
pub open spec fn sym_of(m: Graph) -> Graph {
    Map::new(
        |a: Seq<char>| exists|b: Seq<char>| sym_edge(m, a, b),
        |a: Seq<char>| Set::new(|b: Seq<char>| sym_edge(m, a, b)),
    )
}

/// Every edge of `g` has its reverse edge.
pub open spec fn is_symmetric(g: Graph) -> bool {
    forall|a: Seq<char>, b: Seq<char>| #[trigger] graph_edge(g, a, b) ==> graph_edge(g, b, a)
}

/// Consecutive entries of `p` are edges of `g`, `p` starts at `a` and
/// ends at `b`.
pub open spec fn connects(g: Graph, p: Seq<Seq<char>>, a: Seq<char>, b: Seq<char>) -> bool {
    &&& p.len() >= 1
    &&& p[0] == a
    &&& p[p.len() - 1] == b
    &&& forall|i: int| 0 <= i < p.len() - 1 ==> graph_edge(g, #[trigger] p[i], p[i + 1])
}

/// `b` can be reached from `a` along edges of `g` (in zero or more steps).
pub open spec fn reach(g: Graph, a: Seq<char>, b: Seq<char>) -> bool {
    exists|p: Seq<Seq<char>>| connects(g, p, a, b)
}

/// The connected component of `a` in `g` (including `a` itself).
pub open spec fn comp_of(g: Graph, a: Seq<char>) -> Set<Seq<char>> {
    Set::new(|b: Seq<char>| reach(g, a, b))
}

/// The connected component of `a` in `g`, without `a` itself.
pub open spec fn comp_minus(g: Graph, a: Seq<char>) -> Set<Seq<char>> {
    Set::new(|b: Seq<char>| b != a && reach(g, a, b))
}

/// The closure of `g`: every key that is connected to some other key is
/// mapped to all other keys of its connected component.
pub open spec fn closed_of(g: Graph) -> Graph {
    Map::new(
        |a: Seq<char>| exists|b: Seq<char>| b != a && reach(g, a, b),
        |a: Seq<char>| comp_minus(g, a),
    )
}

/// What the complementary-graph expansion produces, as a function of the
/// input map.
pub open spec fn spec_expand(m: Graph) -> Graph {
    closed_of(sym_of(m))
}

pub proof fn lemma_reach_refl(g: Graph, a: Seq<char>)
    ensures
        reach(g, a, a),
{
    let p = seq![a];
    assert(connects(g, p, a, a));
}

pub proof fn lemma_edge_reach(g: Graph, a: Seq<char>, b: Seq<char>)
    requires
        graph_edge(g, a, b),
    ensures
        reach(g, a, b),
{
    let p = seq![a, b];
    assert(p[0] == a && p[p.len() - 1] == b);
    assert(connects(g, p, a, b));
}

pub proof fn lemma_reach_trans(g: Graph, a: Seq<char>, b: Seq<char>, c: Seq<char>)
    requires
        reach(g, a, b),
        reach(g, b, c),
    ensures
        reach(g, a, c),
{
    let p1 = choose|p: Seq<Seq<char>>| connects(g, p, a, b);
    let p2 = choose|p: Seq<Seq<char>>| connects(g, p, b, c);
    let p = p1 + p2.subrange(1, p2.len() as int);
    assert(p[0] == a);
    assert(p[p.len() - 1] == c);
    assert forall|i: int| 0 <= i < p.len() - 1 implies graph_edge(g, #[trigger] p[i], p[i + 1]) by {
        if i < p1.len() - 1 {
            assert(p[i] == p1[i] && p[i + 1] == p1[i + 1]);
        } else if i == p1.len() - 1 {
            if p2.len() == 1 {
                assert(false);
            } else {
                assert(p[i] == b || p1[i] == b);
                assert(p[i + 1] == p2[1]);
                assert(graph_edge(g, p2[0], p2[1]));
            }
        } else {
            let j = i - p1.len() + 1;
            assert(p[i] == p2[j] && p[i + 1] == p2[j + 1]);
            assert(graph_edge(g, p2[j], p2[j + 1]));
        }
    }
    assert(connects(g, p, a, c));
}

pub proof fn lemma_reach_sym(g: Graph, a: Seq<char>, b: Seq<char>)
    requires
        is_symmetric(g),
        reach(g, a, b),
    ensures
        reach(g, b, a),
{
    let p = choose|p: Seq<Seq<char>>| connects(g, p, a, b);
    let q = Seq::new(p.len(), |i: int| p[p.len() - 1 - i]);
    assert(q[0] == b);
    assert(q[q.len() - 1] == a);
    assert forall|i: int| 0 <= i < q.len() - 1 implies graph_edge(g, #[trigger] q[i], q[i + 1]) by {
        let j = p.len() - 2 - i;
        assert(graph_edge(g, p[j], p[j + 1]));
        assert(q[i] == p[j + 1] && q[i + 1] == p[j]);
    }
    assert(connects(g, q, b, a));
}

/// A key that reaches some other key is a node of the graph.
pub proof fn lemma_reach_nontrivial_in_dom(g: Graph, a: Seq<char>, b: Seq<char>)
    requires
        reach(g, a, b),
        a != b,
    ensures
        g.dom().contains(a),
{
    let p = choose|p: Seq<Seq<char>>| connects(g, p, a, b);
    assert(p.len() >= 2);
    assert(graph_edge(g, p[0], p[1]));
}

/// The symmetric graph of any map has every edge in both directions.
pub proof fn lemma_sym_of_symmetric(m: Graph)
    ensures
        is_symmetric(sym_of(m)),
{
    assert forall|a: Seq<char>, b: Seq<char>| #[trigger] graph_edge(sym_of(m), a, b) implies
        graph_edge(sym_of(m), b, a) by {
        assert(sym_edge(m, a, b));
        assert(sym_edge(m, b, a));
        assert(sym_of(m).dom().contains(b));
    }
}

/// Symmetry of the closed complementary relation: when `b` stands in the
/// closed set of `a`, `a` stands in the closed set of `b`.
pub proof fn lemma_closure_symmetric(m: Graph, a: Seq<char>, b: Seq<char>)
    requires
        spec_expand(m).dom().contains(a),
        spec_expand(m)[a].contains(b),
    ensures
        spec_expand(m).dom().contains(b),
        spec_expand(m)[b].contains(a),
{
    let g = sym_of(m);
    lemma_sym_of_symmetric(m);
    assert(b != a && reach(g, a, b));
    lemma_reach_sym(g, a, b);
}

/// The clique shape of a closed component: the closed set of any member
/// `b` of `a`'s closed set is the component of `a` with `b` alone taken
/// out, so all members of one component have closed sets of one size.
pub proof fn lemma_closure_clique(m: Graph, a: Seq<char>, b: Seq<char>)
    requires
        spec_expand(m).dom().contains(a),
        spec_expand(m)[a].contains(b),
    ensures
        spec_expand(m).dom().contains(b),
        spec_expand(m)[b] == spec_expand(m)[a].insert(a).remove(b),
        spec_expand(m)[a].finite() ==> spec_expand(m)[b].len() == spec_expand(m)[a].len(),
{
    let g = sym_of(m);
    lemma_sym_of_symmetric(m);
    assert(b != a && reach(g, a, b));
    lemma_reach_sym(g, a, b);
    assert forall|c: Seq<char>| #[trigger] reach(g, b, c) implies reach(g, a, c) by {
        lemma_reach_trans(g, a, b, c);
    }
    assert forall|c: Seq<char>| #[trigger] reach(g, a, c) implies reach(g, b, c) by {
        lemma_reach_trans(g, b, a, c);
    }
    lemma_reach_refl(g, a);
    assert(spec_expand(m).dom().contains(b));
    assert(comp_minus(g, b) =~= comp_minus(g, a).insert(a).remove(b));
    assert(spec_expand(m)[b] == comp_minus(g, b));
    assert(spec_expand(m)[a] == comp_minus(g, a));
    if comp_minus(g, a).finite() {
        assert(!comp_minus(g, a).contains(a));
        assert(comp_minus(g, a).insert(a).len() == comp_minus(g, a).len() + 1);
        assert(comp_minus(g, a).insert(a).contains(b));
        assert(comp_minus(g, a).insert(a).remove(b).len() == comp_minus(g, a).insert(a).len() - 1);
    }
}

proof fn lemma_path_in_closed(m: Graph, p: Seq<Seq<char>>, a: Seq<char>, b: Seq<char>)
    requires
        connects(sym_of(closed_of(sym_of(m))), p, a, b),
    ensures
        a == b || reach(sym_of(m), a, b),
    decreases p.len(),
{
    let g = sym_of(m);
    let c = closed_of(g);
    let g2 = sym_of(c);
    lemma_sym_of_symmetric(m);
    if p.len() > 1 {
        assert(graph_edge(g2, p[0], p[1]));
        assert(sym_edge(c, a, p[1]));
        if graph_edge(c, a, p[1]) {
            assert(p[1] != a && reach(g, a, p[1]));
        } else {
            assert(graph_edge(c, p[1], a));
            assert(a != p[1] && reach(g, p[1], a));
            lemma_reach_sym(g, p[1], a);
        }
        let q = p.subrange(1, p.len() as int);
        assert(q[0] == p[1]);
        assert(q[q.len() - 1] == b);
        assert forall|i: int| 0 <= i < q.len() - 1 implies graph_edge(g2, #[trigger] q[i], q[i + 1])
            by {
            assert(graph_edge(g2, p[i + 1], p[i + 2]));
        }
        assert(connects(g2, q, p[1], b));
        lemma_path_in_closed(m, q, p[1], b);
        if p[1] == b {
            assert(reach(g, a, b));
        } else {
            lemma_reach_trans(g, a, p[1], b);
        }
    }
}

/// Idempotence of the closure: expanding an already-expanded map changes
/// nothing.
pub proof fn lemma_closure_idempotent(m: Graph)
    ensures
        spec_expand(spec_expand(m)) == spec_expand(m),
{
    let g = sym_of(m);
    let c = closed_of(g);
    let g2 = sym_of(c);
    lemma_sym_of_symmetric(m);
    assert forall|a: Seq<char>, b: Seq<char>| b != a && #[trigger] reach(g, a, b) implies reach(
        g2,
        a,
        b,
    ) by {
        assert(graph_edge(c, a, b));
        assert(sym_edge(c, a, b));
        assert(g2.dom().contains(a));
        assert(graph_edge(g2, a, b));
        lemma_edge_reach(g2, a, b);
    }
    assert forall|a: Seq<char>, b: Seq<char>| b != a && #[trigger] reach(g2, a, b) implies reach(
        g,
        a,
        b,
    ) by {
        let p = choose|p: Seq<Seq<char>>| connects(g2, p, a, b);
        lemma_path_in_closed(m, p, a, b);
    }
    assert forall|a: Seq<char>| #[trigger] closed_of(g2).dom().contains(a) <==> c.dom().contains(
        a,
    ) by {
        if exists|b: Seq<char>| b != a && reach(g2, a, b) {
            let b = choose|b: Seq<char>| b != a && reach(g2, a, b);
            assert(reach(g, a, b));
        }
        if exists|b: Seq<char>| b != a && reach(g, a, b) {
            let b = choose|b: Seq<char>| b != a && reach(g, a, b);
            assert(reach(g2, a, b));
        }
    }
    assert forall|a: Seq<char>| closed_of(g2).dom().contains(a) implies closed_of(g2)[a] =~= c[a]
        by {
        assert forall|b: Seq<char>| #[trigger] comp_minus(g2, a).contains(b) implies comp_minus(
            g,
            a,
        ).contains(b) by {}
        assert forall|b: Seq<char>| #[trigger] comp_minus(g, a).contains(b) implies comp_minus(
            g2,
            a,
        ).contains(b) by {}
    }
    assert(closed_of(g2) =~~= c);
}

/// One endpoint of the undirected edge between `a` and `b` is `u`, and
/// `u`'s entry in `m` declares the other.
pub open spec fn pair_edge(m: Graph, u: Seq<char>, a: Seq<char>, b: Seq<char>) -> bool {
    m.dom().contains(u) && ((a == u && m[u].contains(b)) || (b == u && m[u].contains(a)))
}

pub proof fn lemma_insert_edge_rel(m0: Graph, m1: Graph, u: Seq<char>, v: Seq<char>)
    requires
        m1 == m0.insert(u, edge_set(m0, u).insert(v)),
    ensures
        forall|a: Seq<char>, b: Seq<char>|
            #[trigger] graph_edge(m1, a, b) <==> (graph_edge(m0, a, b) || (a == u && b == v)),
        forall|a: Seq<char>|
            #[trigger] m1.dom().contains(a) <==> (m0.dom().contains(a) || a == u),
{
}

/// The symmetric adjacency graph of `m`: every declared edge, in both
/// directions.
#[verifier::loop_isolation(false)]
fn symmetrize(m: &KeyMap) -> (g: KeyMap)
    requires
        m.wf(),
    ensures
        g.wf(),
        g@ == sym_of(m@),
{
    let mut g = KeyMap::new();
    let keys = m.key_list();
    let ghost ks = m.key_seq();
    proof {
        m.keys_match_dom();
    }
    let mut i: usize = 0;
    while i < keys.len()
        invariant
            g.wf(),
            0 <= i <= ks.len(),
            forall|a: Seq<char>, b: Seq<char>|
                #[trigger] graph_edge(g@, a, b) <==> exists|k: int|
                    0 <= k < i && pair_edge(m@, ks[k], a, b),
            forall|a: Seq<char>|
                #[trigger] g@.dom().contains(a) ==> exists|b: Seq<char>| graph_edge(g@, a, b),
        decreases ks.len() - i,
    {
        let u = &keys[i];
        proof {
            assert(ks.to_set().contains(ks[i as int]));
        }
        if let Some(vs) = m.get(u.as_str()) {
            let vlist = vs.as_vec();
            let mut j: usize = 0;
            while j < vlist.len()
                invariant
                    g.wf(),
                    0 <= j <= vs.list().len(),
                    vlist.deep_view() == vs.list(),
                    vs@ == m@[ks[i as int]],
                    u@ == ks[i as int],
                    forall|a: Seq<char>, b: Seq<char>|
                        #[trigger] graph_edge(g@, a, b) <==> ((exists|k: int|
                            0 <= k < i && pair_edge(m@, ks[k], a, b)) || (exists|t: int|
                            0 <= t < j && ((a == u@ && b == vs.list()[t]) || (b == u@ && a
                                == vs.list()[t])))),
                    forall|a: Seq<char>|
                        #[trigger] g@.dom().contains(a) ==> exists|b: Seq<char>|
                            graph_edge(g@, a, b),
                decreases vs.list().len() - j,
            {
                let v = &vlist[j];
                let ghost g0 = g@;
                g.add_edge(u.as_str(), v.as_str());
                let ghost g1 = g@;
                g.add_edge(v.as_str(), u.as_str());
                proof {
                    lemma_insert_edge_rel(g0, g1, u@, v@);
                    lemma_insert_edge_rel(g1, g@, v@, u@);
                    assert(v@ == vs.list()[j as int]);
                    assert forall|a: Seq<char>| #[trigger] g@.dom().contains(a) implies exists|
                        b: Seq<char>,
                    | graph_edge(g@, a, b) by {
                        if a == u@ {
                            assert(graph_edge(g1, u@, v@));
                            assert(graph_edge(g@, u@, v@));
                        } else if a == v@ {
                            assert(graph_edge(g@, v@, u@));
                        } else {
                            assert(g0.dom().contains(a));
                            let b = choose|b: Seq<char>| graph_edge(g0, a, b);
                            assert(graph_edge(g1, a, b));
                            assert(graph_edge(g@, a, b));
                        }
                    }
                    assert forall|a: Seq<char>, b: Seq<char>|
                        #[trigger] graph_edge(g@, a, b) implies ((exists|k: int|
                        0 <= k < i && pair_edge(m@, ks[k], a, b)) || (exists|t: int|
                        0 <= t < j + 1 && ((a == u@ && b == vs.list()[t]) || (b == u@ && a
                            == vs.list()[t])))) by {
                        if graph_edge(g0, a, b) {
                        } else {
                            assert((a == u@ && b == v@) || (a == v@ && b == u@));
                            assert(0 <= j < j + 1 && ((a == u@ && b == vs.list()[j as int]) || (b
                                == u@ && a == vs.list()[j as int])));
                        }
                    }
                    assert forall|a: Seq<char>, b: Seq<char>|
                        ((exists|k: int| 0 <= k < i && pair_edge(m@, ks[k], a, b)) || (exists|t: int|
                            0 <= t < j + 1 && ((a == u@ && b == vs.list()[t]) || (b == u@ && a
                                == vs.list()[t])))) implies #[trigger] graph_edge(g@, a, b) by {
                        if exists|k: int| 0 <= k < i && pair_edge(m@, ks[k], a, b) {
                            assert(graph_edge(g0, a, b));
                        } else {
                            let t = choose|t: int|
                                0 <= t < j + 1 && ((a == u@ && b == vs.list()[t]) || (b == u@ && a
                                    == vs.list()[t]));
                            if t < j {
                                assert(graph_edge(g0, a, b));
                            }
                        }
                    }
                }
                j = j + 1;
            }
            proof {
                vs.list().unique_seq_to_set();
                assert forall|a: Seq<char>, b: Seq<char>|
                    #[trigger] graph_edge(g@, a, b) implies exists|k: int|
                    0 <= k < i + 1 && pair_edge(m@, ks[k], a, b) by {
                    if exists|k: int| 0 <= k < i && pair_edge(m@, ks[k], a, b) {
                        let k = choose|k: int| 0 <= k < i && pair_edge(m@, ks[k], a, b);
                        assert(0 <= k < i + 1 && pair_edge(m@, ks[k], a, b));
                    } else {
                        let t = choose|t: int|
                            0 <= t < vs.list().len() && ((a == u@ && b == vs.list()[t]) || (b == u@
                                && a == vs.list()[t]));
                        assert(vs.list().to_set().contains(vs.list()[t]));
                        assert(m@[u@].contains(vs.list()[t]));
                        assert(pair_edge(m@, ks[i as int], a, b));
                    }
                }
                assert forall|a: Seq<char>, b: Seq<char>|
                    (exists|k: int| 0 <= k < i + 1 && pair_edge(m@, ks[k], a, b)) implies #[trigger]
                    graph_edge(g@, a, b) by {
                    let k = choose|k: int| 0 <= k < i + 1 && pair_edge(m@, ks[k], a, b);
                    if k < i {
                    } else {
                        assert(ks[k] == u@);
                        if a == u@ {
                            let t = choose|t: int|
                                0 <= t < vs.list().len() && vs.list()[t] == b;
                            assert(0 <= t < vs.list().len() && ((a == u@ && b == vs.list()[t]) || (
                            b == u@ && a == vs.list()[t])));
                        } else {
                            let t = choose|t: int|
                                0 <= t < vs.list().len() && vs.list()[t] == a;
                            assert(0 <= t < vs.list().len() && ((a == u@ && b == vs.list()[t]) || (
                            b == u@ && a == vs.list()[t])));
                        }
                    }
                }
            }
        } else {
            proof {
                assert(false);
            }
        }
        i = i + 1;
    }
    proof {
        assert forall|a: Seq<char>, b: Seq<char>|
            #[trigger] graph_edge(g@, a, b) implies sym_edge(m@, a, b) by {
            let k = choose|k: int| 0 <= k < ks.len() && pair_edge(m@, ks[k], a, b);
        }
        assert forall|a: Seq<char>, b: Seq<char>| sym_edge(m@, a, b) implies #[trigger] graph_edge(
            g@,
            a,
            b,
        ) by {
            if graph_edge(m@, a, b) {
                assert(ks.to_set().contains(a));
                let k = choose|k: int| 0 <= k < ks.len() && ks[k] == a;
                assert(pair_edge(m@, ks[k], a, b));
            } else {
                assert(ks.to_set().contains(b));
                let k = choose|k: int| 0 <= k < ks.len() && ks[k] == b;
                assert(pair_edge(m@, ks[k], a, b));
            }
        }
        assert forall|a: Seq<char>| #[trigger] g@.dom().contains(a) implies sym_of(m@).dom(
        ).contains(a) by {
            let b = choose|b: Seq<char>| graph_edge(g@, a, b);
            assert(sym_edge(m@, a, b));
        }
        assert forall|a: Seq<char>| #[trigger] sym_of(m@).dom().contains(a) implies g@.dom(
        ).contains(a) by {
            let b = choose|b: Seq<char>| sym_edge(m@, a, b);
            assert(graph_edge(g@, a, b));
        }
        assert forall|a: Seq<char>| g@.dom().contains(a) implies g@[a] =~= sym_of(m@)[a] by {
            assert forall|b: Seq<char>| g@[a].contains(b) implies sym_of(m@)[a].contains(b) by {
                assert(graph_edge(g@, a, b));
            }
            assert forall|b: Seq<char>| sym_of(m@)[a].contains(b) implies g@[a].contains(b) by {
                assert(sym_edge(m@, a, b));
                assert(graph_edge(g@, a, b));
            }
        }
        assert(g@ =~~= sym_of(m@));
    }
    g
}

/// A set that contains `a` and is closed under the edges of `g` contains
/// everything reachable from `a`.
pub proof fn lemma_closed_set_reach(
    g: Graph,
    s: Set<Seq<char>>,
    p: Seq<Seq<char>>,
    a: Seq<char>,
    b: Seq<char>,
)
    requires
        s.contains(a),
        forall|x: Seq<char>, y: Seq<char>|
            s.contains(x) && #[trigger] graph_edge(g, x, y) ==> s.contains(y),
        connects(g, p, a, b),
    ensures
        s.contains(b),
    decreases p.len(),
{
    if p.len() == 1 {
    } else {
        assert(graph_edge(g, p[0], p[1]));
        let q = p.subrange(1, p.len() as int);
        assert(q[0] == p[1]);
        assert(q[q.len() - 1] == b);
        assert forall|i: int| 0 <= i < q.len() - 1 implies graph_edge(g, #[trigger] q[i], q[i + 1])
            by {
            assert(graph_edge(g, p[i + 1], p[i + 2]));
        }
        assert(connects(g, q, p[1], b));
        lemma_closed_set_reach(g, s, q, p[1], b);
    }
}

/// The inverse of a reference graph: `n` is mapped to every key whose
/// entry lists `n`.
pub open spec fn inverted_of(m: Graph) -> Graph {
    Map::new(
        |n: Seq<char>| exists|c: Seq<char>| graph_edge(m, c, n),
        |n: Seq<char>| Set::new(|c: Seq<char>| graph_edge(m, c, n)),
    )
}

/// Build the inverse graph: for every cargo note, the set of transport
/// documents that carry it.
#[verifier::loop_isolation(false)]
pub fn get_nfe_ctes(cte_nfes: &KeyMap) -> (r: KeyMap)
    requires
        cte_nfes.wf(),
    ensures
        r.wf(),
        r@ == inverted_of(cte_nfes@),
{
    let mut r = KeyMap::new();
    let keys = cte_nfes.key_list();
    let ghost ks = cte_nfes.key_seq();
    let ghost m = cte_nfes@;
    proof {
        cte_nfes.keys_match_dom();
    }
    let mut i: usize = 0;
    while i < keys.len()
        invariant
            r.wf(),
            0 <= i <= ks.len(),
            forall|a: Seq<char>, b: Seq<char>|
                #[trigger] graph_edge(r@, a, b) <==> exists|k: int|
                    0 <= k < i && ks[k] == b && graph_edge(m, b, a),
            forall|a: Seq<char>|
                #[trigger] r@.dom().contains(a) ==> exists|b: Seq<char>| graph_edge(r@, a, b),
        decreases ks.len() - i,
    {
        let u = &keys[i];
        proof {
            assert(ks.to_set().contains(ks[i as int]));
        }
        if let Some(vs) = cte_nfes.get(u.as_str()) {
            let vlist = vs.as_vec();
            let mut j: usize = 0;
            while j < vlist.len()
                invariant
                    r.wf(),
                    0 <= j <= vs.list().len(),
                    forall|a: Seq<char>, b: Seq<char>|
                        #[trigger] graph_edge(r@, a, b) <==> ((exists|k: int|
                            0 <= k < i && ks[k] == b && graph_edge(m, b, a)) || (exists|t: int|
                            0 <= t < j && b == u@ && a == vs.list()[t])),
                    forall|a: Seq<char>|
                        #[trigger] r@.dom().contains(a) ==> exists|b: Seq<char>|
                            graph_edge(r@, a, b),
                decreases vs.list().len() - j,
            {
                let v = &vlist[j];
                let ghost r0 = r@;
                r.add_edge(v.as_str(), u.as_str());
                proof {
                    lemma_insert_edge_rel(r0, r@, v@, u@);
                    assert(v@ == vs.list()[j as int]);
                    assert forall|a: Seq<char>| #[trigger] r@.dom().contains(a) implies exists|
                        b: Seq<char>,
                    | graph_edge(r@, a, b) by {
                        if a == v@ {
                            assert(graph_edge(r@, v@, u@));
                        } else {
                            assert(r0.dom().contains(a));
                            let b = choose|b: Seq<char>| graph_edge(r0, a, b);
                            assert(graph_edge(r@, a, b));
                        }
                    }
                    assert forall|a: Seq<char>, b: Seq<char>|
                        #[trigger] graph_edge(r@, a, b) implies ((exists|k: int|
                        0 <= k < i && ks[k] == b && graph_edge(m, b, a)) || (exists|t: int|
                        0 <= t < j + 1 && b == u@ && a == vs.list()[t])) by {
                        if !graph_edge(r0, a, b) {
                            assert(a == v@ && b == u@);
                            assert(0 <= j < j + 1 && b == u@ && a == vs.list()[j as int]);
                        }
                    }
                    assert forall|a: Seq<char>, b: Seq<char>|
                        ((exists|k: int| 0 <= k < i && ks[k] == b && graph_edge(m, b, a)) || (
                        exists|t: int|
                            0 <= t < j + 1 && b == u@ && a == vs.list()[t])) implies #[trigger]
                        graph_edge(r@, a, b) by {
                        if exists|k: int| 0 <= k < i && ks[k] == b && graph_edge(m, b, a) {
                            assert(graph_edge(r0, a, b));
                        } else {
                            let t = choose|t: int|
                                0 <= t < j + 1 && b == u@ && a == vs.list()[t];
                            if t < j {
                                assert(graph_edge(r0, a, b));
                            }
                        }
                    }
                }
                j = j + 1;
            }
            proof {
                vs.list().unique_seq_to_set();
                assert forall|a: Seq<char>, b: Seq<char>|
                    #[trigger] graph_edge(r@, a, b) implies exists|k: int|
                    0 <= k < i + 1 && ks[k] == b && graph_edge(m, b, a) by {
                    if exists|k: int| 0 <= k < i && ks[k] == b && graph_edge(m, b, a) {
                        let k = choose|k: int| 0 <= k < i && ks[k] == b && graph_edge(m, b, a);
                        assert(0 <= k < i + 1 && ks[k] == b && graph_edge(m, b, a));
                    } else {
                        let t = choose|t: int|
                            0 <= t < vs.list().len() && b == u@ && a == vs.list()[t];
                        assert(vs.list().to_set().contains(vs.list()[t]));
                        assert(ks[i as int] == b && graph_edge(m, b, a));
                    }
                }
                assert forall|a: Seq<char>, b: Seq<char>|
                    (exists|k: int| 0 <= k < i + 1 && ks[k] == b && graph_edge(m, b, a)) implies
                    #[trigger] graph_edge(r@, a, b) by {
                    let k = choose|k: int| 0 <= k < i + 1 && ks[k] == b && graph_edge(m, b, a);
                    if k < i {
                    } else {
                        assert(ks[k] == u@);
                        assert(vs@.contains(a));
                        assert(vs.list().to_set().contains(a));
                        let t = choose|t: int| 0 <= t < vs.list().len() && vs.list()[t] == a;
                        assert(0 <= t < vs.list().len() && b == u@ && a == vs.list()[t]);
                    }
                }
            }
        } else {
            proof {
                assert(false);
            }
        }
        i = i + 1;
    }
    proof {
        assert forall|a: Seq<char>, b: Seq<char>| #[trigger] graph_edge(r@, a, b) <==> graph_edge(
            m,
            b,
            a,
        ) by {
            if graph_edge(m, b, a) {
                assert(ks.to_set().contains(b));
                let k = choose|k: int| 0 <= k < ks.len() && ks[k] == b;
                assert(0 <= k < ks.len() && ks[k] == b && graph_edge(m, b, a));
            }
        }
        assert forall|a: Seq<char>| #[trigger] r@.dom().contains(a) implies inverted_of(m).dom(
        ).contains(a) by {
            let b = choose|b: Seq<char>| graph_edge(r@, a, b);
            assert(graph_edge(m, b, a));
        }
        assert forall|a: Seq<char>| #[trigger] inverted_of(m).dom().contains(a) implies r@.dom(
        ).contains(a) by {
            let c = choose|c: Seq<char>| graph_edge(m, c, a);
            assert(graph_edge(r@, a, c));
        }
        assert forall|a: Seq<char>| r@.dom().contains(a) implies r@[a] =~= inverted_of(m)[a] by {
            assert forall|c: Seq<char>| r@[a].contains(c) implies inverted_of(m)[a].contains(c) by {
                assert(graph_edge(r@, a, c));
            }
            assert forall|c: Seq<char>| inverted_of(m)[a].contains(c) implies r@[a].contains(c) by {
                assert(graph_edge(m, c, a));
                assert(graph_edge(r@, a, c));
            }
        }
        assert(r@ =~~= inverted_of(m));
    }
    r
}

/// Expand the complementary-document relation to its transitive closure:
/// after the call, every key that is connected to some other key (along
/// declared edges, read in either direction) is mapped to all other
/// members of its connected component.
#[verifier::loop_isolation(false)]
#[verifier::rlimit(60)]
pub fn expand_cte_complementar(map: &mut KeyMap)
    requires
        old(map).wf(),
    ensures
        final(map).wf(),
        final(map)@ == spec_expand(old(map)@),
{
    let g = symmetrize(map);
    let ghost gm = g@;
    proof {
        g.keys_match_dom();
        assert forall|a: Seq<char>, b: Seq<char>| #[trigger] graph_edge(gm, a, b) implies graph_edge(
            gm,
            b,
            a,
        ) by {
            assert(sym_edge(map@, a, b));
            assert(sym_edge(map@, b, a));
            assert(sym_of(map@).dom().contains(b));
        }
        assert(is_symmetric(gm));
    }
    let keys = g.key_list();
    let mut visited = KeySet::new();
    let mut result = KeyMap::new();
    let mut i: usize = 0;
    while i < keys.len()
        invariant
            visited.wf(),
            result.wf(),
            0 <= i <= g.key_seq().len(),
            visited@.finite(),
            forall|x: Seq<char>| #[trigger] visited@.contains(x) ==> gm.dom().contains(x),
            forall|x: Seq<char>, y: Seq<char>|
                visited@.contains(x) && #[trigger] graph_edge(gm, x, y) ==> visited@.contains(y),
            forall|j: int| 0 <= j < i ==> visited@.contains(#[trigger] g.key_seq()[j]),
            forall|a: Seq<char>|
                #[trigger] result@.dom().contains(a) <==> (visited@.contains(a) && exists|
                    b: Seq<char>,
                | b != a && reach(gm, a, b)),
            forall|a: Seq<char>|
                #[trigger] result@.dom().contains(a) ==> result@[a] == comp_minus(gm, a),
        decreases g.key_seq().len() - i,
    {
        let node = &keys[i];
        proof {
            assert(g.key_seq().to_set().contains(g.key_seq()[i as int]));
            assert(gm.dom().contains(node@));
        }
        if !visited.contains(node.as_str()) {
            let ghost visited0 = visited@;
            let ghost start = node@;
            let mut stack: Vec<String> = Vec::new();
            stack.push(node.clone());
            let mut group = KeySet::new();
            proof {
                lemma_reach_refl(gm, start);
                assert(stack.deep_view() =~~= seq![start]);
                assert(stack.deep_view()[0] == start);
            }
            while stack.len() > 0
                invariant
                    group.wf(),
                    visited.wf(),
                    visited@.finite(),
                    visited@ == visited0.union(group@),
                    !visited0.contains(start),
                    forall|x: Seq<char>|
                        #[trigger] group@.contains(x) ==> reach(gm, start, x) && gm.dom().contains(
                            x,
                        ) && !visited0.contains(x),
                    forall|t: int|
                        0 <= t < stack.deep_view().len() ==> reach(
                            gm,
                            start,
                            #[trigger] stack.deep_view()[t],
                        ) && gm.dom().contains(stack.deep_view()[t]) && !visited0.contains(
                            stack.deep_view()[t],
                        ),
                    group@.contains(start) || stack.deep_view().contains(start),
                    forall|x: Seq<char>, y: Seq<char>|
                        group@.contains(x) && #[trigger] graph_edge(gm, x, y) ==> (group@.contains(
                            y,
                        ) || stack.deep_view().contains(y)),
                decreases gm.dom().len() - visited@.len(), stack@.len(),
            {
                let ghost stack0 = stack.deep_view();
                let current = match stack.pop() {
                    Some(c) => c,
                    None => {
                        proof {
                            assert(false);
                        }
                        String::new()
                    },
                };
                proof {
                    assert(current@ == stack0[stack0.len() - 1]);
                    assert(stack.deep_view() =~~= stack0.subrange(0, stack0.len() - 1));
                    assert forall|y: Seq<char>|
                        #[trigger] stack0.contains(y) && y != current@ implies stack.deep_view(
                    ).contains(y) by {
                        let t = choose|t: int| 0 <= t < stack0.len() && stack0[t] == y;
                        assert(t < stack0.len() - 1);
                        assert(stack.deep_view()[t] == y);
                    }
                    lemma_len_subset(visited@, gm.dom());
                }
                if !visited.contains(current.as_str()) {
                    visited.insert(current.clone());
                    group.insert(current.clone());
                    proof {
                        assert(visited@ =~= visited0.union(group@));
                        lemma_len_subset(visited@, gm.dom());
                    }
                    if let Some(nbrs) = g.get(current.as_str()) {
                        let ns = nbrs.as_vec();
                        let mut t: usize = 0;
                        while t < ns.len()
                            invariant
                                0 <= t <= nbrs.list().len(),
                                forall|tt: int|
                                    0 <= tt < stack.deep_view().len() ==> reach(
                                        gm,
                                        start,
                                        #[trigger] stack.deep_view()[tt],
                                    ) && gm.dom().contains(stack.deep_view()[tt])
                                        && !visited0.contains(stack.deep_view()[tt]),
                                group@.contains(start) || stack.deep_view().contains(start),
                                forall|x: Seq<char>, y: Seq<char>|
                                    group@.contains(x) && x != current@ && #[trigger] graph_edge(
                                        gm,
                                        x,
                                        y,
                                    ) ==> (group@.contains(y) || stack.deep_view().contains(y)),
                                forall|s: int|
                                    0 <= s < t ==> (group@.contains(#[trigger] nbrs.list()[s])
                                        || stack.deep_view().contains(nbrs.list()[s])),
                            decreases nbrs.list().len() - t,
                        {
                            let ghost stackb = stack.deep_view();
                            stack.push(ns[t].clone());
                            proof {
                                assert(stack.deep_view() =~~= stackb.push(nbrs.list()[t as int]));
                                assert(nbrs.list().to_set().contains(nbrs.list()[t as int]));
                                assert(graph_edge(gm, current@, nbrs.list()[t as int]));
                                lemma_edge_reach(gm, current@, nbrs.list()[t as int]);
                                lemma_reach_trans(gm, start, current@, nbrs.list()[t as int]);
                                assert(graph_edge(gm, nbrs.list()[t as int], current@));
                                if visited0.contains(nbrs.list()[t as int]) {
                                    assert(visited0.contains(current@));
                                    assert(false);
                                }
                                assert forall|y: Seq<char>| #[trigger] stackb.contains(y) implies
                                    stack.deep_view().contains(y) by {
                                    let s = choose|s: int| 0 <= s < stackb.len() && stackb[s] == y;
                                    assert(stack.deep_view()[s] == y);
                                }
                                assert(stack.deep_view()[stackb.len() as int] == nbrs.list()[
                                    t as int]);
                            }
                            t = t + 1;
                        }
                        proof {
                            nbrs.list().unique_seq_to_set();
                            assert forall|x: Seq<char>, y: Seq<char>|
                                group@.contains(x) && #[trigger] graph_edge(gm, x, y) implies (
                            group@.contains(y) || stack.deep_view().contains(y)) by {
                                if x == current@ {
                                    assert(nbrs@.contains(y));
                                    assert(nbrs.list().to_set().contains(y));
                                    let s = choose|s: int|
                                        0 <= s < nbrs.list().len() && nbrs.list()[s] == y;
                                }
                            }
                        }
                    } else {
                        proof {
                            assert(false);
                        }
                    }
                } else {
                    proof {
                        assert(visited@.contains(current@));
                        assert(group@.contains(current@));
                        if !group@.contains(start) {
                            assert(stack0.contains(start));
                            let t = choose|t: int| 0 <= t < stack0.len() && stack0[t] == start;
                            if t == stack0.len() - 1 {
                                assert(current@ == start);
                                assert(false);
                            }
                            assert(stack.deep_view()[t] == start);
                        }
                        assert forall|x: Seq<char>, y: Seq<char>|
                            group@.contains(x) && #[trigger] graph_edge(gm, x, y) implies (
                        group@.contains(y) || stack.deep_view().contains(y)) by {
                            if stack0.contains(y) && y != current@ {
                                assert(stack.deep_view().contains(y));
                            }
                        }
                    }
                }
            }
            proof {
                assert(stack.deep_view().len() == 0);
                assert(group@.contains(start));
                assert forall|x: Seq<char>, y: Seq<char>|
                    group@.contains(x) && #[trigger] graph_edge(gm, x, y) implies group@.contains(
                    y,
                ) by {}
                assert forall|b: Seq<char>| reach(gm, start, b) implies group@.contains(b) by {
                    let p = choose|p: Seq<Seq<char>>| connects(gm, p, start, b);
                    lemma_closed_set_reach(gm, group@, p, start, b);
                }
                assert(group@ =~= comp_of(gm, start));
            }
            // Every member of the group is mapped to all the other members.
            let members = group.as_vec();
            let ghost res0 = result@;
            let mut t: usize = 0;
            while t < members.len()
                invariant
                    result.wf(),
                    0 <= t <= group.list().len(),
                    forall|a: Seq<char>|
                        #[trigger] result@.dom().contains(a) <==> ((visited0.contains(a) || exists|
                            s: int,
                        | 0 <= s < t && group.list()[s] == a) && exists|b: Seq<char>|
                            b != a && reach(gm, a, b)),
                    forall|a: Seq<char>|
                        #[trigger] result@.dom().contains(a) ==> result@[a] == comp_minus(gm, a),
                decreases group.list().len() - t,
            {
                let member = &members[t];
                let ghost x = member@;
                proof {
                    assert(group.list()[t as int] == x);
                    assert(group.list().to_set().contains(x));
                    assert(reach(gm, start, x));
                    lemma_reach_sym(gm, start, x);
                    assert forall|b: Seq<char>| #[trigger] reach(gm, x, b) implies reach(
                        gm,
                        start,
                        b,
                    ) by {
                        lemma_reach_trans(gm, start, x, b);
                    }
                    assert forall|b: Seq<char>| #[trigger] reach(gm, start, b) implies reach(
                        gm,
                        x,
                        b,
                    ) by {
                        lemma_reach_trans(gm, x, start, b);
                    }
                    assert(group@.remove(x) =~= comp_minus(gm, x));
                }
                let others = group.duplicate_without(member.as_str());
                if !others.is_empty() {
                    result.insert_set(member.clone(), others);
                    proof {
                        assert(comp_minus(gm, x).contains(choose|b: Seq<char>|
                            comp_minus(gm, x).contains(b)));
                    }
                } else {
                    proof {
                        assert(comp_minus(gm, x) =~= Set::empty());
                        if exists|b: Seq<char>| b != x && reach(gm, x, b) {
                            let b = choose|b: Seq<char>| b != x && reach(gm, x, b);
                            assert(comp_minus(gm, x).contains(b));
                            assert(false);
                        }
                    }
                }
                proof {
                    assert forall|a: Seq<char>|
                        #[trigger] result@.dom().contains(a) implies ((visited0.contains(a)
                        || exists|s: int| 0 <= s < t + 1 && group.list()[s] == a) && exists|
                        b: Seq<char>,
                    | b != a && reach(gm, a, b)) by {
                        if a == x {
                            assert(group.list()[t as int] == a);
                        }
                    }
                    assert forall|a: Seq<char>|
                        ((visited0.contains(a) || exists|s: int|
                            0 <= s < t + 1 && group.list()[s] == a) && exists|b: Seq<char>|
                            b != a && reach(gm, a, b)) implies #[trigger] result@.dom().contains(
                        a,
                    ) by {
                        if !visited0.contains(a) {
                            let s = choose|s: int| 0 <= s < t + 1 && group.list()[s] == a;
                            if s < t {
                            } else {
                                assert(a == x);
                                let b = choose|b: Seq<char>| b != a && reach(gm, a, b);
                                assert(comp_minus(gm, x).contains(b));
                                assert(!others@.is_empty());
                            }
                        }
                    }
                }
                t = t + 1;
            }
            proof {
                group.list().unique_seq_to_set();
                assert forall|a: Seq<char>|
                    #[trigger] result@.dom().contains(a) <==> (visited@.contains(a) && exists|
                        b: Seq<char>,
                    | b != a && reach(gm, a, b)) by {
                    if result@.dom().contains(a) && !visited0.contains(a) {
                        let s = choose|s: int|
                            0 <= s < group.list().len() && group.list()[s] == a;
                        assert(group@.contains(a));
                    }
                    if visited@.contains(a) && !visited0.contains(a) {
                        assert(group@.contains(a));
                        let s = choose|s: int|
                            0 <= s < group.list().len() && group.list()[s] == a;
                    }
                }
                assert(visited@.contains(g.key_seq()[i as int]));
            }
        }
        i = i + 1;
    }
    proof {
        assert forall|x: Seq<char>| gm.dom().contains(x) implies visited@.contains(x) by {
            assert(g.key_seq().to_set().contains(x));
            let j = choose|j: int| 0 <= j < g.key_seq().len() && g.key_seq()[j] == x;
        }
        assert forall|a: Seq<char>| #[trigger] result@.dom().contains(a) <==> closed_of(gm).dom(
        ).contains(a) by {
            if exists|b: Seq<char>| b != a && reach(gm, a, b) {
                let b = choose|b: Seq<char>| b != a && reach(gm, a, b);
                lemma_reach_nontrivial_in_dom(gm, a, b);
            }
        }
        assert(result@ =~~= closed_of(gm));
    }
    *map = result;
}

/// The cargo notes that flow into `t` when every key propagates its
/// notes to its complementary partners.
pub open spec fn incoming_notes(cn: Graph, cc: Graph, t: Seq<char>) -> Set<Seq<char>> {
    Set::new(
        |n: Seq<char>|
            exists|k: Seq<char>|
                cn.dom().contains(k) && #[trigger] graph_edge(cc, k, t) && cn[k].contains(n),
    )
}

/// Some key that owns cargo notes lists `t` as a complementary partner.
pub open spec fn is_target(cn: Graph, cc: Graph, t: Seq<char>) -> bool {
    exists|k: Seq<char>| cn.dom().contains(k) && #[trigger] graph_edge(cc, k, t)
}

/// What propagating cargo notes across the complementary relation
/// produces: every entry keeps its own notes, and every complementary
/// partner of a note-owning key receives that key's notes as well.
pub open spec fn spec_propagate(cn: Graph, cc: Graph) -> Graph {
    Map::new(
        |t: Seq<char>| cn.dom().contains(t) || is_target(cn, cc, t),
        |t: Seq<char>| edge_set(cn, t).union(incoming_notes(cn, cc, t)),
    )
}

/// Cargo-note propagation reaches every complementary partner: when `a`
/// owns note `n` and lists `b` as complementary, `b`'s notes afterwards
/// include all of `a`'s.
pub proof fn lemma_cargo_note_propagation(
    cn: Graph,
    cc: Graph,
    a: Seq<char>,
    b: Seq<char>,
    n: Seq<char>,
)
    requires
        graph_edge(cn, a, n),
        graph_edge(cc, a, b),
    ensures
        spec_propagate(cn, cc).dom().contains(b),
        spec_propagate(cn, cc)[b].contains(n),
        edge_set(cn, a).subset_of(spec_propagate(cn, cc)[b]),
{
    assert(is_target(cn, cc, b));
    assert(incoming_notes(cn, cc, b).contains(n));
    assert forall|x: Seq<char>|
        edge_set(cn, a).contains(x) implies spec_propagate(cn, cc)[b].contains(x) by {
        assert(incoming_notes(cn, cc, b).contains(x));
    }
}

spec fn inc_pre(cn: Graph, cc: Graph, ks: Seq<Seq<char>>, i: int, t: Seq<char>) -> Set<Seq<char>> {
    Set::new(
        |n: Seq<char>|
            exists|kk: int|
                0 <= kk < i && #[trigger] graph_edge(cc, ks[kk], t) && edge_set(cn, ks[kk]).contains(
                    n,
                ),
    )
}

/// Propagate cargo notes across the complementary relation: additions are
/// staged in a side map and merged once, so the map is never changed
/// while it is walked.
#[verifier::loop_isolation(false)]
#[verifier::rlimit(60)]
pub fn expand_cte_nfes(cte_nfes: &mut KeyMap, cte_complementar: &KeyMap)
    requires
        old(cte_nfes).wf(),
        cte_complementar.wf(),
    ensures
        final(cte_nfes).wf(),
        final(cte_nfes)@ == spec_propagate(old(cte_nfes)@, cte_complementar@),
{
    let ghost cn0 = cte_nfes@;
    let ghost cc = cte_complementar@;
    let mut updates = KeyMap::new();
    let keys = cte_nfes.key_list();
    let ghost ks = cte_nfes.key_seq();
    proof {
        cte_nfes.keys_match_dom();
    }
    let mut i: usize = 0;
    while i < keys.len()
        invariant
            updates.wf(),
            0 <= i <= ks.len(),
            forall|t: Seq<char>|
                #[trigger] updates@.dom().contains(t) <==> exists|kk: int|
                    0 <= kk < i && graph_edge(cc, ks[kk], t),
            forall|t: Seq<char>|
                #[trigger] updates@.dom().contains(t) ==> updates@[t] == inc_pre(cn0, cc, ks, i as int, t),
        decreases ks.len() - i,
    {
        let u = &keys[i];
        proof {
            assert(ks.to_set().contains(ks[i as int]));
        }
        if let Some(notes) = cte_nfes.get(u.as_str()) {
            if let Some(comps) = cte_complementar.get(u.as_str()) {
                let clist = comps.as_vec();
                let mut j: usize = 0;
                while j < clist.len()
                    invariant
                        updates.wf(),
                        0 <= j <= comps.list().len(),
                        forall|t: Seq<char>|
                            #[trigger] updates@.dom().contains(t) <==> ((exists|kk: int|
                                0 <= kk < i && graph_edge(cc, ks[kk], t)) || (exists|s: int|
                                0 <= s < j && comps.list()[s] == t)),
                        forall|t: Seq<char>|
                            #[trigger] updates@.dom().contains(t) ==> updates@[t] == if exists|
                                s: int,
                            | 0 <= s < j && comps.list()[s] == t {
                                inc_pre(cn0, cc, ks, i as int, t).union(notes@)
                            } else {
                                inc_pre(cn0, cc, ks, i as int, t)
                            },
                    decreases comps.list().len() - j,
                {
                    let tkey = &clist[j];
                    let ghost up0 = updates@;
                    updates.extend_entry(tkey.as_str(), notes);
                    proof {
                        let t0 = tkey@;
                        assert(t0 == comps.list()[j as int]);
                        assert(comps.list().to_set().contains(t0));
                        if !up0.dom().contains(t0) {
                            assert(inc_pre(cn0, cc, ks, i as int, t0) =~= Set::empty());
                            assert(edge_set(up0, t0) =~= Set::empty());
                        }
                        assert(updates@[t0] =~= inc_pre(cn0, cc, ks, i as int, t0).union(notes@));
                        assert forall|t: Seq<char>|
                            #[trigger] updates@.dom().contains(t) implies ((exists|kk: int|
                            0 <= kk < i && graph_edge(cc, ks[kk], t)) || (exists|s: int|
                            0 <= s < j + 1 && comps.list()[s] == t)) by {
                            if t == t0 {
                                assert(comps.list()[j as int] == t);
                            }
                        }
                        assert forall|t: Seq<char>|
                            updates@.dom().contains(t) && t != t0 implies updates@[t] == up0[t] by {}
                        assert forall|t: Seq<char>|
                            #[trigger] updates@.dom().contains(t) implies updates@[t] == if exists|
                                s: int,
                            | 0 <= s < j + 1 && comps.list()[s] == t {
                                inc_pre(cn0, cc, ks, i as int, t).union(notes@)
                            } else {
                                inc_pre(cn0, cc, ks, i as int, t)
                            } by {
                            if t == t0 {
                            } else {
                                if exists|s: int| 0 <= s < j + 1 && comps.list()[s] == t {
                                    let s = choose|s: int|
                                        0 <= s < j + 1 && comps.list()[s] == t;
                                    assert(s < j);
                                }
                            }
                        }
                    }
                    j = j + 1;
                }
                proof {
                    comps.list().unique_seq_to_set();
                    assert(cc[u@] == comps@);
                    assert forall|t: Seq<char>|
                        #[trigger] updates@.dom().contains(t) <==> exists|kk: int|
                        0 <= kk < i + 1 && graph_edge(cc, ks[kk], t) by {
                        if updates@.dom().contains(t) {
                            if exists|kk: int| 0 <= kk < i && graph_edge(cc, ks[kk], t) {
                                let kk = choose|kk: int|
                                    0 <= kk < i && graph_edge(cc, ks[kk], t);
                                assert(0 <= kk < i + 1 && graph_edge(cc, ks[kk], t));
                            } else {
                                let s = choose|s: int|
                                    0 <= s < comps.list().len() && comps.list()[s] == t;
                                assert(comps.list().to_set().contains(t));
                                assert(graph_edge(cc, ks[i as int], t));
                            }
                        }
                        if exists|kk: int| 0 <= kk < i + 1 && graph_edge(cc, ks[kk], t) {
                            let kk = choose|kk: int|
                                0 <= kk < i + 1 && graph_edge(cc, ks[kk], t);
                            if kk < i {
                            } else {
                                assert(comps@.contains(t));
                                assert(comps.list().to_set().contains(t));
                                let s = choose|s: int|
                                    0 <= s < comps.list().len() && comps.list()[s] == t;
                            }
                        }
                    }
                    assert forall|t: Seq<char>|
                        #[trigger] updates@.dom().contains(t) implies updates@[t] == inc_pre(
                        cn0,
                        cc,
                        ks,
                        i + 1,
                        t,
                    ) by {
                        let inc_old = inc_pre(cn0, cc, ks, i as int, t);
                        let inc_new = inc_pre(cn0, cc, ks, i + 1, t);
                        if comps@.contains(t) {
                            assert(comps.list().to_set().contains(t));
                            assert(graph_edge(cc, ks[i as int], t));
                            assert(notes@ == cn0[ks[i as int]]);
                            assert forall|n: Seq<char>|
                                inc_old.union(notes@).contains(n) implies inc_new.contains(n) by {
                                if notes@.contains(n) {
                                    assert(edge_set(cn0, ks[i as int]).contains(n));
                                    assert(0 <= i < i + 1 && graph_edge(cc, ks[i as int], t)
                                        && edge_set(cn0, ks[i as int]).contains(n));
                                }
                            }
                            assert forall|n: Seq<char>| inc_new.contains(n) implies inc_old.union(
                                notes@,
                            ).contains(n) by {
                                let kk = choose|kk: int|
                                    0 <= kk < i + 1 && graph_edge(cc, ks[kk], t) && edge_set(
                                        cn0,
                                        ks[kk],
                                    ).contains(n);
                                if kk == i {
                                    assert(notes@.contains(n));
                                }
                            }
                            assert(updates@[t] =~= inc_new);
                        } else {
                            assert forall|n: Seq<char>| inc_new.contains(n) implies inc_old.contains(
                                n,
                            ) by {
                                let kk = choose|kk: int|
                                    0 <= kk < i + 1 && graph_edge(cc, ks[kk], t) && edge_set(
                                        cn0,
                                        ks[kk],
                                    ).contains(n);
                                if kk == i {
                                    assert(cc[ks[i as int]].contains(t));
                                    assert(false);
                                }
                            }
                            assert(updates@[t] =~= inc_new);
                        }
                    }
                }
            } else {
                proof {
                    assert forall|t: Seq<char>|
                        #[trigger] updates@.dom().contains(t) <==> exists|kk: int|
                        0 <= kk < i + 1 && graph_edge(cc, ks[kk], t) by {
                        if exists|kk: int| 0 <= kk < i + 1 && graph_edge(cc, ks[kk], t) {
                            let kk = choose|kk: int|
                                0 <= kk < i + 1 && graph_edge(cc, ks[kk], t);
                            if kk == i {
                                assert(cc.dom().contains(ks[i as int]));
                                assert(false);
                            }
                        }
                    }
                    assert forall|t: Seq<char>|
                        #[trigger] updates@.dom().contains(t) implies updates@[t] == inc_pre(
                        cn0,
                        cc,
                        ks,
                        i + 1,
                        t,
                    ) by {
                        assert forall|n: Seq<char>|
                            inc_pre(cn0, cc, ks, i + 1, t).contains(n) implies inc_pre(
                            cn0,
                            cc,
                            ks,
                            i as int,
                            t,
                        ).contains(n) by {
                            let kk = choose|kk: int|
                                0 <= kk < i + 1 && graph_edge(cc, ks[kk], t) && edge_set(
                                    cn0,
                                    ks[kk],
                                ).contains(n);
                            if kk == i {
                                assert(cc.dom().contains(ks[i as int]));
                                assert(false);
                            }
                        }
                        assert(updates@[t] =~= inc_pre(cn0, cc, ks, i + 1, t));
                    }
                }
            }
        } else {
            proof {
                assert(false);
            }
        }
        i = i + 1;
    }
    proof {
        assert forall|t: Seq<char>|
            #[trigger] updates@.dom().contains(t) <==> is_target(cn0, cc, t) by {
            if updates@.dom().contains(t) {
                let kk = choose|kk: int| 0 <= kk < ks.len() && graph_edge(cc, ks[kk], t);
                assert(ks.to_set().contains(ks[kk]));
                assert(cn0.dom().contains(ks[kk]) && graph_edge(cc, ks[kk], t));
            }
            if is_target(cn0, cc, t) {
                let k = choose|k: Seq<char>|
                    cn0.dom().contains(k) && #[trigger] graph_edge(cc, k, t);
                assert(ks.to_set().contains(k));
                let kk = choose|kk: int| 0 <= kk < ks.len() && ks[kk] == k;
            }
        }
        assert forall|t: Seq<char>|
            #[trigger] updates@.dom().contains(t) implies updates@[t] == incoming_notes(
            cn0,
            cc,
            t,
        ) by {
            assert forall|n: Seq<char>|
                inc_pre(cn0, cc, ks, ks.len() as int, t).contains(n) implies incoming_notes(
                cn0,
                cc,
                t,
            ).contains(n) by {
                let kk = choose|kk: int|
                    0 <= kk < ks.len() && graph_edge(cc, ks[kk], t) && edge_set(cn0, ks[kk]).contains(
                        n,
                    );
                assert(ks.to_set().contains(ks[kk]));
                assert(cn0.dom().contains(ks[kk]) && graph_edge(cc, ks[kk], t)
                    && cn0[ks[kk]].contains(n));
            }
            assert forall|n: Seq<char>|
                incoming_notes(cn0, cc, t).contains(n) implies inc_pre(
                cn0,
                cc,
                ks,
                ks.len() as int,
                t,
            ).contains(n) by {
                let k = choose|k: Seq<char>|
                    cn0.dom().contains(k) && #[trigger] graph_edge(cc, k, t) && cn0[k].contains(n);
                assert(ks.to_set().contains(k));
                let kk = choose|kk: int| 0 <= kk < ks.len() && ks[kk] == k;
                assert(0 <= kk < ks.len() && graph_edge(cc, ks[kk], t) && edge_set(
                    cn0,
                    ks[kk],
                ).contains(n));
            }
            assert(updates@[t] =~= incoming_notes(cn0, cc, t));
        }
    }
    // Merge the staged additions back into the map.
    let ukeys = updates.key_list();
    let ghost uks = updates.key_seq();
    proof {
        updates.keys_match_dom();
    }
    let mut p: usize = 0;
    while p < ukeys.len()
        invariant
            cte_nfes.wf(),
            0 <= p <= uks.len(),
            forall|t: Seq<char>|
                #[trigger] cte_nfes@.dom().contains(t) <==> (cn0.dom().contains(t) || exists|
                    s: int,
                | 0 <= s < p && uks[s] == t),
            forall|t: Seq<char>|
                #[trigger] cte_nfes@.dom().contains(t) ==> cte_nfes@[t] == if exists|s: int|
                    0 <= s < p && uks[s] == t {
                    edge_set(cn0, t).union(updates@[t])
                } else {
                    edge_set(cn0, t)
                },
        decreases uks.len() - p,
    {
        let tkey = &ukeys[p];
        proof {
            assert(uks.to_set().contains(uks[p as int]));
        }
        if let Some(extra) = updates.get(tkey.as_str()) {
            let ghost c0 = cte_nfes@;
            cte_nfes.extend_entry(tkey.as_str(), extra);
            proof {
                let t0 = tkey@;
                if !c0.dom().contains(t0) {
                    assert(edge_set(c0, t0) =~= Set::empty());
                    assert(edge_set(cn0, t0) =~= Set::empty());
                }
                assert(edge_set(c0, t0) =~= edge_set(cn0, t0));
                assert(cte_nfes@[t0] =~= edge_set(cn0, t0).union(updates@[t0]));
                assert forall|t: Seq<char>|
                    #[trigger] cte_nfes@.dom().contains(t) implies (cn0.dom().contains(t) || exists|
                    s: int,
                | 0 <= s < p + 1 && uks[s] == t) by {
                    if t == t0 {
                        assert(uks[p as int] == t);
                    }
                }
                assert forall|t: Seq<char>|
                    #[trigger] cte_nfes@.dom().contains(t) implies cte_nfes@[t] == if exists|s: int|
                        0 <= s < p + 1 && uks[s] == t {
                        edge_set(cn0, t).union(updates@[t])
                    } else {
                        edge_set(cn0, t)
                    } by {
                    if t == t0 {
                    } else {
                        if exists|s: int| 0 <= s < p + 1 && uks[s] == t {
                            let s = choose|s: int| 0 <= s < p + 1 && uks[s] == t;
                            assert(s < p);
                        }
                    }
                }
            }
        } else {
            proof {
                assert(false);
            }
        }
        p = p + 1;
    }
    proof {
        let cn1 = cte_nfes@;
        let out = spec_propagate(cn0, cc);
        assert forall|t: Seq<char>| #[trigger] cn1.dom().contains(t) <==> out.dom().contains(t) by {
            if cn1.dom().contains(t) && !cn0.dom().contains(t) {
                let s = choose|s: int| 0 <= s < uks.len() && uks[s] == t;
                assert(uks.to_set().contains(t));
                assert(updates@.dom().contains(t));
            }
            if is_target(cn0, cc, t) {
                assert(updates@.dom().contains(t));
                assert(uks.to_set().contains(t));
                let s = choose|s: int| 0 <= s < uks.len() && uks[s] == t;
            }
        }
        assert forall|t: Seq<char>| cn1.dom().contains(t) implies cn1[t] =~= out[t] by {
            if exists|s: int| 0 <= s < uks.len() && uks[s] == t {
                let s = choose|s: int| 0 <= s < uks.len() && uks[s] == t;
                assert(uks.to_set().contains(t));
                assert(updates@.dom().contains(t));
                assert(cn1[t] == edge_set(cn0, t).union(updates@[t]));
                assert(updates@[t] == incoming_notes(cn0, cc, t));
            } else {
                assert(!updates@.dom().contains(t));
                assert(!is_target(cn0, cc, t));
                assert forall|n: Seq<char>|
                    incoming_notes(cn0, cc, t).contains(n) implies false by {
                    let k = choose|k: Seq<char>|
                        cn0.dom().contains(k) && #[trigger] graph_edge(cc, k, t) && cn0[k].contains(
                            n,
                        );
                }
                assert(incoming_notes(cn0, cc, t) =~= Set::empty());
                assert(cn1[t] == edge_set(cn0, t));
            }
        }
        assert(cn1 =~~= out);
    }
}

} // verus!
