use vstd::prelude::*;

use crate::graph::{graph_edge, Graph};
use crate::keymap::KeyMap;
use crate::keys::{extract_keys44, keys44_of, spec_eh_modelo, eh_modelo};
use crate::trusted::par_map;

verus! {

/// The model code of an electronic invoice (NF-e).
pub open spec fn model_nfe() -> Seq<char> {
    seq!['5', '5']
}

/// The model code of an electronic transport bill (CT-e).
pub open spec fn model_cte() -> Seq<char> {
    seq!['5', '7']
}

/// A cargo-note line: its first 44-digit token is a transport document,
/// and at least one later token is an invoice.
pub open spec fn line_is_cargo(line: Seq<char>) -> bool {
    let toks = keys44_of(line);
    &&& toks.len() >= 1
    &&& spec_eh_modelo(toks[0], model_cte())
    &&& line_nfes(line).len() > 0
}

/// The transport document of a cargo-note line.
pub open spec fn line_cte(line: Seq<char>) -> Seq<char> {
    keys44_of(line)[0]
}

/// The invoice tokens of a cargo-note line, in order.
pub open spec fn line_nfes(line: Seq<char>) -> Seq<Seq<char>> {
    keys44_of(line).drop_first().filter(|t: Seq<char>| spec_eh_modelo(t, model_nfe()))
}

/// A complementary line: its first two tokens are distinct transport
/// documents.
pub open spec fn line_is_comp(line: Seq<char>) -> bool {
    let toks = keys44_of(line);
    &&& toks.len() >= 2
    &&& spec_eh_modelo(toks[0], model_cte())
    &&& spec_eh_modelo(toks[1], model_cte())
    &&& toks[0] != toks[1]
}

pub open spec fn line_comp_a(line: Seq<char>) -> Seq<char> {
    keys44_of(line)[0]
}

pub open spec fn line_comp_b(line: Seq<char>) -> Seq<char> {
    keys44_of(line)[1]
}

/// The cargo-note graph a set of lines describes: each accepted line's
/// transport document is mapped to the union of its invoice tokens over
/// all lines, so the outcome does not depend on the order of the lines.
pub open spec fn cargo_map_of(lines: Seq<Seq<char>>) -> Graph {
    Map::new(
        |c: Seq<char>|
            exists|i: int|
                0 <= i < lines.len() && #[trigger] line_is_cargo(lines[i]) && line_cte(lines[i])
                    == c,
        |c: Seq<char>|
            Set::new(
                |n: Seq<char>|
                    exists|i: int|
                        0 <= i < lines.len() && #[trigger] line_is_cargo(lines[i]) && line_cte(
                            lines[i],
                        ) == c && line_nfes(lines[i]).contains(n),
            ),
    )
}

/// The complementary graph a set of lines describes: each accepted line
/// records its edge in both directions.
pub open spec fn comp_map_of(lines: Seq<Seq<char>>) -> Graph {
    Map::new(
        |c: Seq<char>|
            exists|i: int|
                0 <= i < lines.len() && #[trigger] line_is_comp(lines[i]) && (line_comp_a(lines[i])
                    == c || line_comp_b(lines[i]) == c),
        |c: Seq<char>|
            Set::new(
                |d: Seq<char>|
                    exists|i: int|
                        0 <= i < lines.len() && #[trigger] line_is_comp(lines[i]) && ((line_comp_a(
                            lines[i],
                        ) == c && line_comp_b(lines[i]) == d) || (line_comp_b(lines[i]) == c
                            && line_comp_a(lines[i]) == d)),
            ),
    )
}

/// The lines of the reference sources may be read in any order: the
/// graphs they describe depend only on which lines there are.
pub proof fn lemma_loader_order_independent(l1: Seq<Seq<char>>, l2: Seq<Seq<char>>)
    requires
        l1.to_multiset() == l2.to_multiset(),
    ensures
        cargo_map_of(l1) == cargo_map_of(l2),
        comp_map_of(l1) == comp_map_of(l2),
{
    l1.to_multiset_ensures();
    l2.to_multiset_ensures();
    assert forall|line: Seq<char>| #[trigger] l1.contains(line) implies l2.contains(line) by {
        assert(l1.to_multiset().count(line) > 0);
    }
    assert forall|line: Seq<char>| #[trigger] l2.contains(line) implies l1.contains(line) by {
        assert(l2.to_multiset().count(line) > 0);
    }
    assert(cargo_map_of(l1) =~~= cargo_map_of(l2)) by {
        lemma_cargo_map_swap(l1, l2);
        lemma_cargo_map_swap(l2, l1);
    }
    assert(comp_map_of(l1) =~~= comp_map_of(l2)) by {
        lemma_comp_map_swap(l1, l2);
        lemma_comp_map_swap(l2, l1);
    }
}

proof fn lemma_cargo_map_swap(l1: Seq<Seq<char>>, l2: Seq<Seq<char>>)
    requires
        forall|line: Seq<char>| #[trigger] l1.contains(line) ==> l2.contains(line),
    ensures
        forall|c: Seq<char>|
            #[trigger] cargo_map_of(l1).dom().contains(c) ==> cargo_map_of(l2).dom().contains(c),
        forall|c: Seq<char>, n: Seq<char>|
            cargo_map_of(l1).dom().contains(c) && #[trigger] cargo_map_of(l1)[c].contains(n)
                ==> cargo_map_of(l2).dom().contains(c) && cargo_map_of(l2)[c].contains(n),
{
    assert forall|c: Seq<char>| #[trigger] cargo_map_of(l1).dom().contains(c) implies cargo_map_of(
        l2,
    ).dom().contains(c) by {
        let i = choose|i: int|
            0 <= i < l1.len() && #[trigger] line_is_cargo(l1[i]) && line_cte(l1[i]) == c;
        assert(l1.contains(l1[i]));
        let j = choose|j: int| 0 <= j < l2.len() && l2[j] == l1[i];
    }
    assert forall|c: Seq<char>, n: Seq<char>|
        cargo_map_of(l1).dom().contains(c) && #[trigger] cargo_map_of(l1)[c].contains(
            n,
        ) implies cargo_map_of(l2).dom().contains(c) && cargo_map_of(l2)[c].contains(n) by {
        let i = choose|i: int|
            0 <= i < l1.len() && #[trigger] line_is_cargo(l1[i]) && line_cte(l1[i]) == c
                && line_nfes(l1[i]).contains(n);
        assert(l1.contains(l1[i]));
        let j = choose|j: int| 0 <= j < l2.len() && l2[j] == l1[i];
    }
}

proof fn lemma_comp_map_swap(l1: Seq<Seq<char>>, l2: Seq<Seq<char>>)
    requires
        forall|line: Seq<char>| #[trigger] l1.contains(line) ==> l2.contains(line),
    ensures
        forall|c: Seq<char>|
            #[trigger] comp_map_of(l1).dom().contains(c) ==> comp_map_of(l2).dom().contains(c),
        forall|c: Seq<char>, d: Seq<char>|
            comp_map_of(l1).dom().contains(c) && #[trigger] comp_map_of(l1)[c].contains(d)
                ==> comp_map_of(l2).dom().contains(c) && comp_map_of(l2)[c].contains(d),
{
    assert forall|c: Seq<char>| #[trigger] comp_map_of(l1).dom().contains(c) implies comp_map_of(
        l2,
    ).dom().contains(c) by {
        let i = choose|i: int|
            0 <= i < l1.len() && #[trigger] line_is_comp(l1[i]) && (line_comp_a(l1[i]) == c
                || line_comp_b(l1[i]) == c);
        assert(l1.contains(l1[i]));
        let j = choose|j: int| 0 <= j < l2.len() && l2[j] == l1[i];
    }
    assert forall|c: Seq<char>, d: Seq<char>|
        comp_map_of(l1).dom().contains(c) && #[trigger] comp_map_of(l1)[c].contains(
            d,
        ) implies comp_map_of(l2).dom().contains(c) && comp_map_of(l2)[c].contains(d) by {
        let i = choose|i: int|
            0 <= i < l1.len() && #[trigger] line_is_comp(l1[i]) && ((line_comp_a(l1[i]) == c
                && line_comp_b(l1[i]) == d) || (line_comp_b(l1[i]) == c && line_comp_a(l1[i])
                == d));
        assert(l1.contains(l1[i]));
        let j = choose|j: int| 0 <= j < l2.len() && l2[j] == l1[i];
    }
}

/// Every key of the cargo-note graph is well-formed: both ends of every
/// edge are extracted 44-digit tokens.
pub proof fn lemma_cargo_map_wf(lines: Seq<Seq<char>>, c: Seq<char>, n: Seq<char>)
    requires
        graph_edge(cargo_map_of(lines), c, n),
    ensures
        crate::keys::is_key44(c),
        crate::keys::is_key44(n),
{
    let i = choose|i: int|
        0 <= i < lines.len() && #[trigger] line_is_cargo(lines[i]) && line_cte(lines[i]) == c
            && line_nfes(lines[i]).contains(n);
    let toks = keys44_of(lines[i]);
    assert(toks.contains(toks[0]));
    crate::keys::lemma_tokens_wf(lines[i], 0, c);
    toks.drop_first().lemma_filter_contains_rev(
        |t: Seq<char>| spec_eh_modelo(t, model_nfe()),
        n,
    );
    let j = choose|j: int| 0 <= j < toks.drop_first().len() && toks.drop_first()[j] == n;
    assert(toks[j + 1] == n);
    assert(toks.contains(n));
    crate::keys::lemma_tokens_wf(lines[i], 0, n);
}

/// Every key of the complementary graph is well-formed.
pub proof fn lemma_comp_map_wf(lines: Seq<Seq<char>>, c: Seq<char>, d: Seq<char>)
    requires
        graph_edge(comp_map_of(lines), c, d),
    ensures
        crate::keys::is_key44(c),
        crate::keys::is_key44(d),
{
    let i = choose|i: int|
        0 <= i < lines.len() && #[trigger] line_is_comp(lines[i]) && ((line_comp_a(lines[i]) == c
            && line_comp_b(lines[i]) == d) || (line_comp_b(lines[i]) == c && line_comp_a(lines[i])
            == d));
    let toks = keys44_of(lines[i]);
    assert(toks.contains(toks[0]));
    assert(toks.contains(toks[1]));
    crate::keys::lemma_tokens_wf(lines[i], 0, toks[0]);
    crate::keys::lemma_tokens_wf(lines[i], 0, toks[1]);
}

proof fn lemma_model_lits()
    ensures
        "55"@ == model_nfe(),
        "57"@ == model_cte(),
{
    reveal_strlit("55");
    reveal_strlit("57");
    assert("55"@ =~= model_nfe());
    assert("57"@ =~= model_cte());
}

/// Read one cargo-note line: accepted only when the first token is a
/// transport document and an invoice token follows somewhere on the line.
#[verifier::loop_isolation(false)]
pub fn parse_cargo_line(line: &str) -> (r: Option<(String, Vec<String>)>)
    ensures
        match r {
            Some(entry) => line_is_cargo(line@) && entry.0@ == line_cte(line@)
                && entry.1.deep_view() == line_nfes(line@),
            None => !line_is_cargo(line@),
        },
{
    proof {
        lemma_model_lits();
    }
    let toks = extract_keys44(line);
    let ghost ts = keys44_of(line@);
    if toks.len() == 0 {
        return None;
    }
    let cte = &toks[0];
    if !eh_modelo(cte.as_str(), "57") {
        return None;
    }
    let ghost pred = |t: Seq<char>| spec_eh_modelo(t, model_nfe());
    let mut nfes: Vec<String> = Vec::new();
    let mut i: usize = 1;
    while i < toks.len()
        invariant
            1 <= i <= ts.len(),
            nfes.deep_view() == ts.subrange(1, i as int).filter(pred),
        decreases ts.len() - i,
    {
        proof {
            ts.subrange(1, i as int).lemma_filter_push(ts[i as int], pred);
            assert(ts.subrange(1, i as int).push(ts[i as int]) =~~= ts.subrange(1, i + 1));
        }
        if eh_modelo(toks[i].as_str(), "55") {
            let ghost prev = nfes.deep_view();
            proof {
                assert(prev.len() == nfes@.len());
            }
            nfes.push(toks[i].clone());
            proof {
                assert(nfes.deep_view() =~~= prev.push(ts[i as int]));
            }
        }
        i = i + 1;
    }
    proof {
        assert(ts.subrange(1, ts.len() as int) =~~= ts.drop_first());
    }
    if nfes.len() == 0 {
        proof {
            assert(nfes.deep_view().len() == nfes@.len());
        }
        None
    } else {
        proof {
            assert(nfes.deep_view().len() == nfes@.len());
        }
        Some((cte.clone(), nfes))
    }
}

/// Read one complementary line: accepted only when the first two tokens
/// are distinct transport documents.
pub fn parse_comp_line(line: &str) -> (r: Option<(String, String)>)
    ensures
        match r {
            Some(pair) => line_is_comp(line@) && pair.0@ == line_comp_a(line@) && pair.1@
                == line_comp_b(line@),
            None => !line_is_comp(line@),
        },
{
    proof {
        lemma_model_lits();
    }
    let toks = extract_keys44(line);
    if toks.len() < 2 {
        return None;
    }
    let a = &toks[0];
    let b = &toks[1];
    if !eh_modelo(a.as_str(), "57") || !eh_modelo(b.as_str(), "57") {
        return None;
    }
    if crate::text::str_eq(a.as_str(), b.as_str()) {
        return None;
    }
    Some((a.clone(), b.clone()))
}

fn parse_cargo_entry(l: &String) -> (p: Option<(String, Vec<String>)>)
    ensures
        match p {
            Some(entry) => line_is_cargo(l@) && entry.0@ == line_cte(l@) && entry.1.deep_view()
                == line_nfes(l@),
            None => !line_is_cargo(l@),
        },
{
    parse_cargo_line(l.as_str())
}

fn parse_comp_entry(l: &String) -> (p: Option<(String, String)>)
    ensures
        match p {
            Some(pair) => line_is_comp(l@) && pair.0@ == line_comp_a(l@) && pair.1@ == line_comp_b(
                l@,
            ),
            None => !line_is_comp(l@),
        },
{
    parse_comp_line(l.as_str())
}

/// Build the cargo-note graph from the lines of the cargo-note source.
/// The lines are read on parallel workers; the per-key sets are unioned,
/// so the outcome does not depend on the processing order.
#[verifier::loop_isolation(false)]
#[verifier::rlimit(60)]
pub fn cargo_notes_from_lines(lines: &Vec<String>) -> (r: KeyMap)
    ensures
        r.wf(),
        r@ == cargo_map_of(lines.deep_view()),
{
    let ghost lv = lines.deep_view();
    let parsed = par_map(lines, parse_cargo_entry);
    let mut r = KeyMap::new();
    let mut i: usize = 0;
    while i < parsed.len()
        invariant
            r.wf(),
            0 <= i <= lv.len(),
            parsed@.len() == lv.len(),
            forall|c: Seq<char>, n: Seq<char>|
                #[trigger] graph_edge(r@, c, n) <==> exists|k: int|
                    0 <= k < i && line_is_cargo(lv[k]) && line_cte(lv[k]) == c && line_nfes(
                        lv[k],
                    ).contains(n),
            forall|c: Seq<char>|
                #[trigger] r@.dom().contains(c) ==> exists|n: Seq<char>| graph_edge(r@, c, n),
        decreases lv.len() - i,
    {
        proof {
            assert(lv[i as int] == lines@[i as int]@);
        }
        if let Some(entry) = &parsed[i] {
            let cte = &entry.0;
            let nfes = &entry.1;
            let ghost nv = line_nfes(lv[i as int]);
            let mut j: usize = 0;
            while j < nfes.len()
                invariant
                    r.wf(),
                    0 <= j <= nv.len(),
                    nfes.deep_view() == nv,
                    cte@ == line_cte(lv[i as int]),
                    line_is_cargo(lv[i as int]),
                    forall|c: Seq<char>, n: Seq<char>|
                        #[trigger] graph_edge(r@, c, n) <==> ((exists|k: int|
                            0 <= k < i && line_is_cargo(lv[k]) && line_cte(lv[k]) == c && line_nfes(
                                lv[k],
                            ).contains(n)) || (exists|t: int|
                            0 <= t < j && c == cte@ && n == nv[t])),
                    forall|c: Seq<char>|
                        #[trigger] r@.dom().contains(c) ==> exists|n: Seq<char>|
                            graph_edge(r@, c, n),
                decreases nv.len() - j,
            {
                let ghost r0 = r@;
                r.add_edge(cte.as_str(), nfes[j].as_str());
                proof {
                    crate::graph::lemma_insert_edge_rel(r0, r@, cte@, nfes@[j as int]@);
                    assert(nfes@[j as int]@ == nv[j as int]);
                    assert forall|c: Seq<char>| #[trigger] r@.dom().contains(c) implies exists|
                        n: Seq<char>,
                    | graph_edge(r@, c, n) by {
                        if c == cte@ {
                            assert(graph_edge(r@, cte@, nv[j as int]));
                        } else {
                            let n = choose|n: Seq<char>| graph_edge(r0, c, n);
                            assert(graph_edge(r@, c, n));
                        }
                    }
                    assert forall|c: Seq<char>, n: Seq<char>|
                        #[trigger] graph_edge(r@, c, n) implies ((exists|k: int|
                        0 <= k < i && line_is_cargo(lv[k]) && line_cte(lv[k]) == c && line_nfes(
                            lv[k],
                        ).contains(n)) || (exists|t: int|
                        0 <= t < j + 1 && c == cte@ && n == nv[t])) by {
                        if !graph_edge(r0, c, n) {
                            assert(0 <= j < j + 1 && c == cte@ && n == nv[j as int]);
                        }
                    }
                    assert forall|c: Seq<char>, n: Seq<char>|
                        ((exists|k: int|
                            0 <= k < i && line_is_cargo(lv[k]) && line_cte(lv[k]) == c && line_nfes(
                                lv[k],
                            ).contains(n)) || (exists|t: int|
                            0 <= t < j + 1 && c == cte@ && n == nv[t])) implies #[trigger]
                        graph_edge(r@, c, n) by {
                        if exists|k: int|
                            0 <= k < i && line_is_cargo(lv[k]) && line_cte(lv[k]) == c && line_nfes(
                                lv[k],
                            ).contains(n) {
                            assert(graph_edge(r0, c, n));
                        } else {
                            let t = choose|t: int| 0 <= t < j + 1 && c == cte@ && n == nv[t];
                            if t < j {
                                assert(graph_edge(r0, c, n));
                            }
                        }
                    }
                }
                j = j + 1;
            }
            proof {
                assert forall|c: Seq<char>, n: Seq<char>|
                    #[trigger] graph_edge(r@, c, n) <==> exists|k: int|
                    0 <= k < i + 1 && line_is_cargo(lv[k]) && line_cte(lv[k]) == c && line_nfes(
                        lv[k],
                    ).contains(n) by {
                    if graph_edge(r@, c, n) {
                        if exists|k: int|
                            0 <= k < i && line_is_cargo(lv[k]) && line_cte(lv[k]) == c && line_nfes(
                                lv[k],
                            ).contains(n) {
                            let k = choose|k: int|
                                0 <= k < i && line_is_cargo(lv[k]) && line_cte(lv[k]) == c
                                    && line_nfes(lv[k]).contains(n);
                            assert(0 <= k < i + 1 && line_is_cargo(lv[k]) && line_cte(lv[k]) == c
                                && line_nfes(lv[k]).contains(n));
                        } else {
                            let t = choose|t: int| 0 <= t < nv.len() && c == cte@ && n == nv[t];
                            assert(line_nfes(lv[i as int]).contains(n));
                        }
                    }
                    if exists|k: int|
                        0 <= k < i + 1 && line_is_cargo(lv[k]) && line_cte(lv[k]) == c && line_nfes(
                            lv[k],
                        ).contains(n) {
                        let k = choose|k: int|
                            0 <= k < i + 1 && line_is_cargo(lv[k]) && line_cte(lv[k]) == c
                                && line_nfes(lv[k]).contains(n);
                        if k == i {
                            let t = choose|t: int| 0 <= t < nv.len() && nv[t] == n;
                            assert(0 <= t < nv.len() && c == cte@ && n == nv[t]);
                        }
                    }
                }
            }
        } else {
            proof {
                assert forall|c: Seq<char>, n: Seq<char>|
                    #[trigger] graph_edge(r@, c, n) <==> exists|k: int|
                    0 <= k < i + 1 && line_is_cargo(lv[k]) && line_cte(lv[k]) == c && line_nfes(
                        lv[k],
                    ).contains(n) by {
                    if exists|k: int|
                        0 <= k < i + 1 && line_is_cargo(lv[k]) && line_cte(lv[k]) == c && line_nfes(
                            lv[k],
                        ).contains(n) {
                        let k = choose|k: int|
                            0 <= k < i + 1 && line_is_cargo(lv[k]) && line_cte(lv[k]) == c
                                && line_nfes(lv[k]).contains(n);
                        assert(k < i);
                    }
                }
            }
        }
        i = i + 1;
    }
    proof {
        let m = cargo_map_of(lv);
        assert forall|c: Seq<char>| #[trigger] r@.dom().contains(c) <==> m.dom().contains(c) by {
            if r@.dom().contains(c) {
                let n = choose|n: Seq<char>| graph_edge(r@, c, n);
            }
            if m.dom().contains(c) {
                let k = choose|k: int|
                    0 <= k < lv.len() && #[trigger] line_is_cargo(lv[k]) && line_cte(lv[k]) == c;
                let n = line_nfes(lv[k])[0];
                assert(line_nfes(lv[k]).contains(n));
                assert(graph_edge(r@, c, n));
            }
        }
        assert forall|c: Seq<char>| r@.dom().contains(c) implies r@[c] =~= m[c] by {
            assert forall|n: Seq<char>| r@[c].contains(n) implies m[c].contains(n) by {
                assert(graph_edge(r@, c, n));
            }
            assert forall|n: Seq<char>| m[c].contains(n) implies r@[c].contains(n) by {
                assert(graph_edge(r@, c, n));
            }
        }
        assert(r@ =~~= m);
    }
    r
}

/// Build the complementary graph from the lines of the complementary
/// source. Each accepted line records a symmetric edge; the order of the
/// lines does not matter.
#[verifier::loop_isolation(false)]
#[verifier::rlimit(60)]
pub fn complementares_from_lines(lines: &Vec<String>) -> (r: KeyMap)
    ensures
        r.wf(),
        r@ == comp_map_of(lines.deep_view()),
{
    let ghost lv = lines.deep_view();
    let parsed = par_map(lines, parse_comp_entry);
    let mut r = KeyMap::new();
    let mut i: usize = 0;
    while i < parsed.len()
        invariant
            r.wf(),
            0 <= i <= lv.len(),
            parsed@.len() == lv.len(),
            forall|c: Seq<char>, d: Seq<char>|
                #[trigger] graph_edge(r@, c, d) <==> exists|k: int|
                    0 <= k < i && line_is_comp(lv[k]) && ((line_comp_a(lv[k]) == c && line_comp_b(
                        lv[k],
                    ) == d) || (line_comp_b(lv[k]) == c && line_comp_a(lv[k]) == d)),
            forall|c: Seq<char>|
                #[trigger] r@.dom().contains(c) ==> exists|d: Seq<char>| graph_edge(r@, c, d),
        decreases lv.len() - i,
    {
        proof {
            assert(lv[i as int] == lines@[i as int]@);
        }
        if let Some(pair) = &parsed[i] {
            let a = &pair.0;
            let b = &pair.1;
            let ghost r0 = r@;
            r.add_edge(a.as_str(), b.as_str());
            let ghost r1 = r@;
            r.add_edge(b.as_str(), a.as_str());
            proof {
                crate::graph::lemma_insert_edge_rel(r0, r1, a@, b@);
                crate::graph::lemma_insert_edge_rel(r1, r@, b@, a@);
                assert forall|c: Seq<char>| #[trigger] r@.dom().contains(c) implies exists|
                    d: Seq<char>,
                | graph_edge(r@, c, d) by {
                    if c == a@ {
                        assert(graph_edge(r1, a@, b@));
                        assert(graph_edge(r@, a@, b@));
                    } else if c == b@ {
                        assert(graph_edge(r@, b@, a@));
                    } else {
                        assert(r0.dom().contains(c));
                        let d = choose|d: Seq<char>| graph_edge(r0, c, d);
                        assert(graph_edge(r1, c, d));
                        assert(graph_edge(r@, c, d));
                    }
                }
                assert forall|c: Seq<char>, d: Seq<char>|
                    #[trigger] graph_edge(r@, c, d) implies exists|k: int|
                    0 <= k < i + 1 && line_is_comp(lv[k]) && ((line_comp_a(lv[k]) == c
                        && line_comp_b(lv[k]) == d) || (line_comp_b(lv[k]) == c && line_comp_a(
                        lv[k],
                    ) == d)) by {
                    if graph_edge(r0, c, d) {
                        let k = choose|k: int|
                            0 <= k < i && line_is_comp(lv[k]) && ((line_comp_a(lv[k]) == c
                                && line_comp_b(lv[k]) == d) || (line_comp_b(lv[k]) == c
                                && line_comp_a(lv[k]) == d));
                        assert(0 <= k < i + 1 && line_is_comp(lv[k]) && ((line_comp_a(lv[k]) == c
                            && line_comp_b(lv[k]) == d) || (line_comp_b(lv[k]) == c
                            && line_comp_a(lv[k]) == d)));
                    } else {
                        assert(0 <= i < i + 1 && line_is_comp(lv[i as int]) && ((line_comp_a(
                            lv[i as int],
                        ) == c && line_comp_b(lv[i as int]) == d) || (line_comp_b(lv[i as int])
                            == c && line_comp_a(lv[i as int]) == d)));
                    }
                }
                assert forall|c: Seq<char>, d: Seq<char>|
                    (exists|k: int|
                        0 <= k < i + 1 && line_is_comp(lv[k]) && ((line_comp_a(lv[k]) == c
                            && line_comp_b(lv[k]) == d) || (line_comp_b(lv[k]) == c && line_comp_a(
                            lv[k],
                        ) == d))) implies #[trigger] graph_edge(r@, c, d) by {
                    let k = choose|k: int|
                        0 <= k < i + 1 && line_is_comp(lv[k]) && ((line_comp_a(lv[k]) == c
                            && line_comp_b(lv[k]) == d) || (line_comp_b(lv[k]) == c && line_comp_a(
                            lv[k],
                        ) == d));
                    if k < i {
                        assert(graph_edge(r0, c, d));
                    }
                }
            }
        } else {
            proof {
                assert forall|c: Seq<char>, d: Seq<char>|
                    #[trigger] graph_edge(r@, c, d) <==> exists|k: int|
                    0 <= k < i + 1 && line_is_comp(lv[k]) && ((line_comp_a(lv[k]) == c
                        && line_comp_b(lv[k]) == d) || (line_comp_b(lv[k]) == c && line_comp_a(
                        lv[k],
                    ) == d)) by {
                    if exists|k: int|
                        0 <= k < i + 1 && line_is_comp(lv[k]) && ((line_comp_a(lv[k]) == c
                            && line_comp_b(lv[k]) == d) || (line_comp_b(lv[k]) == c && line_comp_a(
                            lv[k],
                        ) == d)) {
                        let k = choose|k: int|
                            0 <= k < i + 1 && line_is_comp(lv[k]) && ((line_comp_a(lv[k]) == c
                                && line_comp_b(lv[k]) == d) || (line_comp_b(lv[k]) == c
                                && line_comp_a(lv[k]) == d));
                        assert(k < i);
                    }
                }
            }
        }
        i = i + 1;
    }
    proof {
        let m = comp_map_of(lv);
        assert forall|c: Seq<char>| #[trigger] r@.dom().contains(c) <==> m.dom().contains(c) by {
            if r@.dom().contains(c) {
                let d = choose|d: Seq<char>| graph_edge(r@, c, d);
            }
            if m.dom().contains(c) {
                let k = choose|k: int|
                    0 <= k < lv.len() && #[trigger] line_is_comp(lv[k]) && (line_comp_a(lv[k]) == c
                        || line_comp_b(lv[k]) == c);
                if line_comp_a(lv[k]) == c {
                    assert(graph_edge(r@, c, line_comp_b(lv[k])));
                } else {
                    assert(graph_edge(r@, c, line_comp_a(lv[k])));
                }
            }
        }
        assert forall|c: Seq<char>| r@.dom().contains(c) implies r@[c] =~= m[c] by {
            assert forall|d: Seq<char>| r@[c].contains(d) implies m[c].contains(d) by {
                assert(graph_edge(r@, c, d));
            }
            assert forall|d: Seq<char>| m[c].contains(d) implies r@[c].contains(d) by {
                assert(graph_edge(r@, c, d));
            }
        }
        assert(r@ =~~= m);
    }
    r
}

} // verus!
