use vstd::prelude::*;
use vstd::string::StrSliceExecFns;

use crate::keys::model_of;
use crate::keyset::KeySet;
use crate::text::str_eq;
use crate::trusted::chars_to_string;

verus! {

/// Strict lexicographic order on character sequences, by scalar value.
pub open spec fn lex_lt(a: Seq<char>, b: Seq<char>) -> bool
    decreases a.len(),
{
    if b.len() == 0 {
        false
    } else if a.len() == 0 {
        true
    } else if a[0] != b[0] {
        (a[0] as u32) < (b[0] as u32)
    } else {
        lex_lt(a.drop_first(), b.drop_first())
    }
}

/// The export order of missing keys: by model code first, then by the
/// whole key.
pub open spec fn key_lt(a: Seq<char>, b: Seq<char>) -> bool {
    lex_lt(model_of(a), model_of(b)) || (model_of(a) == model_of(b) && lex_lt(a, b))
}

pub open spec fn strict_sorted(s: Seq<Seq<char>>) -> bool {
    forall|p: int, q: int| 0 <= p < q < s.len() ==> key_lt(#[trigger] s[p], #[trigger] s[q])
}

pub proof fn lemma_lex_irrefl(a: Seq<char>)
    ensures
        !lex_lt(a, a),
    decreases a.len(),
{
    if a.len() > 0 {
        lemma_lex_irrefl(a.drop_first());
    }
}

pub proof fn lemma_lex_total(a: Seq<char>, b: Seq<char>)
    requires
        a != b,
    ensures
        lex_lt(a, b) || lex_lt(b, a),
    decreases a.len(),
{
    if b.len() == 0 {
        if a.len() == 0 {
            assert(a =~= b);
            assert(false);
        }
    } else if a.len() == 0 {
    } else if a[0] != b[0] {
        assert((a[0] as u32) != (b[0] as u32)) by {
            vstd::utf8::char_u32_cast(a[0], a[0] as u32);
            vstd::utf8::char_u32_cast(b[0], b[0] as u32);
        }
    } else {
        if a.drop_first() =~= b.drop_first() {
            assert(a.len() == b.len());
            assert forall|i: int| 0 <= i < a.len() implies a[i] == b[i] by {
                if i > 0 {
                    assert(a.drop_first()[i - 1] == a[i]);
                    assert(b.drop_first()[i - 1] == b[i]);
                }
            }
            assert(a =~= b);
            assert(false);
        }
        lemma_lex_total(a.drop_first(), b.drop_first());
    }
}

pub proof fn lemma_lex_trans(a: Seq<char>, b: Seq<char>, c: Seq<char>)
    requires
        lex_lt(a, b),
        lex_lt(b, c),
    ensures
        lex_lt(a, c),
    decreases a.len(),
{
    if b.len() == 0 {
        assert(false);
    } else if c.len() == 0 {
        assert(false);
    } else if a.len() == 0 {
    } else {
        if a[0] != b[0] {
            if b[0] != c[0] {
                assert((a[0] as u32) < (c[0] as u32));
                assert(a[0] != c[0]) by {
                    vstd::utf8::char_u32_cast(a[0], a[0] as u32);
                    vstd::utf8::char_u32_cast(c[0], c[0] as u32);
                }
            } else {
                assert(a[0] != c[0]);
            }
        } else {
            if b[0] != c[0] {
                assert(a[0] != c[0] && (a[0] as u32) < (c[0] as u32));
            } else {
                lemma_lex_trans(a.drop_first(), b.drop_first(), c.drop_first());
            }
        }
    }
}

pub proof fn lemma_key_lt_trans(a: Seq<char>, b: Seq<char>, c: Seq<char>)
    requires
        key_lt(a, b),
        key_lt(b, c),
    ensures
        key_lt(a, c),
{
    if lex_lt(model_of(a), model_of(b)) && lex_lt(model_of(b), model_of(c)) {
        lemma_lex_trans(model_of(a), model_of(b), model_of(c));
    } else if model_of(a) == model_of(b) && model_of(b) == model_of(c) {
        lemma_lex_trans(a, b, c);
    }
}

pub proof fn lemma_key_lt_total(a: Seq<char>, b: Seq<char>)
    requires
        a != b,
    ensures
        key_lt(a, b) || key_lt(b, a),
{
    if model_of(a) == model_of(b) {
        lemma_lex_total(a, b);
    } else {
        lemma_lex_total(model_of(a), model_of(b));
    }
}

pub proof fn lemma_key_lt_irrefl(a: Seq<char>)
    ensures
        !key_lt(a, a),
{
    lemma_lex_irrefl(a);
    lemma_lex_irrefl(model_of(a));
}

/// Strict lexicographic comparison of two strings.
#[verifier::loop_isolation(false)]
pub fn lex_lt_exec(a: &str, b: &str) -> (r: bool)
    ensures
        r == lex_lt(a@, b@),
{
    let na = a.unicode_len();
    let nb = b.unicode_len();
    proof {
        assert(a@.skip(0) =~= a@);
        assert(b@.skip(0) =~= b@);
    }
    let mut i: usize = 0;
    while i < na && i < nb
        invariant
            0 <= i <= na && i <= nb,
            na == a@.len() && nb == b@.len(),
            lex_lt(a@, b@) == lex_lt(a@.skip(i as int), b@.skip(i as int)),
        decreases na - i,
    {
        let ca = a.get_char(i);
        let cb = b.get_char(i);
        proof {
            assert(a@.skip(i as int)[0] == a@[i as int]);
            assert(b@.skip(i as int)[0] == b@[i as int]);
            assert(a@.skip(i as int).drop_first() =~= a@.skip(i + 1));
            assert(b@.skip(i as int).drop_first() =~= b@.skip(i + 1));
        }
        if ca != cb {
            return (ca as u32) < (cb as u32);
        }
        i = i + 1;
    }
    proof {
        if i == na && i == nb {
            assert(b@.skip(i as int).len() == 0);
        } else if i == na {
            assert(a@.skip(i as int).len() == 0 && b@.skip(i as int).len() > 0);
        } else {
            assert(b@.skip(i as int).len() == 0);
        }
    }
    na < nb
}

/// The export order on two keys of at least 22 characters.
pub fn key_lt_exec(a: &str, b: &str) -> (r: bool)
    requires
        a@.len() >= 22,
        b@.len() >= 22,
    ensures
        r == key_lt(a@, b@),
{
    let ma = a.substring_char(20, 22);
    let mb = b.substring_char(20, 22);
    if lex_lt_exec(ma, mb) {
        proof {
            assert(ma@ == model_of(a@) && mb@ == model_of(b@));
        }
        true
    } else if lex_lt_exec(mb, ma) {
        proof {
            lemma_lex_irrefl(model_of(a@));
            if model_of(a@) == model_of(b@) {
                assert(false);
            }
        }
        false
    } else {
        proof {
            if model_of(a@) != model_of(b@) {
                lemma_lex_total(model_of(a@), model_of(b@));
                assert(false);
            }
        }
        lex_lt_exec(a, b)
    }
}

/// The keys of the ledger that the fiscal documents never showed: the
/// plain set difference, taken over the keys long enough to carry a
/// model code.
pub open spec fn missing_of(efd: Set<Seq<char>>, doc: Set<Seq<char>>) -> Set<Seq<char>> {
    Set::new(|k: Seq<char>| efd.contains(k) && k.len() >= 22 && !doc.contains(k))
}

/// The missing keys of one model code.
pub open spec fn missing_of_model(
    efd: Set<Seq<char>>,
    doc: Set<Seq<char>>,
    code: Seq<char>,
) -> Set<Seq<char>> {
    Set::new(
        |k: Seq<char>|
            efd.contains(k) && k.len() >= 22 && model_of(k) == code && !doc.contains(k),
    )
}

/// Gap reporting splits cleanly by model: for every model code the
/// missing keys of that model are exactly the ledger keys of the model
/// less the matched keys, and the union over all codes gives back the
/// whole missing set, nothing more and nothing less.
pub proof fn lemma_missing_partition(efd: Set<Seq<char>>, doc: Set<Seq<char>>, k: Seq<char>)
    ensures
        missing_of(efd, doc).contains(k) <==> exists|code: Seq<char>|
            missing_of_model(efd, doc, code).contains(k),
        missing_of(efd, doc).contains(k) ==> missing_of_model(efd, doc, model_of(k)).contains(k),
{
    if missing_of(efd, doc).contains(k) {
        assert(missing_of_model(efd, doc, model_of(k)).contains(k));
    }
}

/// Compute the missing keys: the ledger keys at least 22 characters long
/// that the matched set does not contain.
#[verifier::loop_isolation(false)]
pub fn imprimir_chaves_nao_encontradas(keys_efd: &KeySet, keys_doc: &KeySet) -> (r: KeySet)
    requires
        keys_efd.wf(),
    ensures
        r.wf(),
        r@ == missing_of(keys_efd@, keys_doc@),
{
    let ghost ev = keys_efd@;
    let src = keys_efd.as_vec();
    let mut r = KeySet::new();
    let mut i: usize = 0;
    while i < src.len()
        invariant
            r.wf(),
            0 <= i <= keys_efd.list().len(),
            src.deep_view() == keys_efd.list(),
            r@ == Set::new(
                |k: Seq<char>|
                    exists|j: int|
                        0 <= j < i && #[trigger] keys_efd.list()[j] == k && k.len() >= 22
                            && !keys_doc@.contains(k),
            ),
        decreases keys_efd.list().len() - i,
    {
        let ghost r0 = r@;
        let ghost x = keys_efd.list()[i as int];
        let cand = &src[i];
        proof {
            assert(cand@ == x);
        }
        if cand.unicode_len() >= 22 && !keys_doc.contains(cand.as_str()) {
            r.insert(cand.clone());
        }
        proof {
            assert forall|k: Seq<char>| #[trigger] r@.contains(k) implies Set::new(
                |k2: Seq<char>|
                    exists|j: int|
                        0 <= j < i + 1 && #[trigger] keys_efd.list()[j] == k2 && k2.len() >= 22
                            && !keys_doc@.contains(k2),
            ).contains(k) by {
                if r0.contains(k) {
                    let j = choose|j: int|
                        0 <= j < i && #[trigger] keys_efd.list()[j] == k && k.len() >= 22
                            && !keys_doc@.contains(k);
                    assert(0 <= j < i + 1 && keys_efd.list()[j] == k && k.len() >= 22
                        && !keys_doc@.contains(k));
                } else {
                    assert(0 <= i < i + 1 && keys_efd.list()[i as int] == k && k.len() >= 22
                        && !keys_doc@.contains(k));
                }
            }
            assert forall|k: Seq<char>|
                Set::new(
                    |k2: Seq<char>|
                        exists|j: int|
                            0 <= j < i + 1 && #[trigger] keys_efd.list()[j] == k2 && k2.len() >= 22
                                && !keys_doc@.contains(k2),
                ).contains(k) implies #[trigger] r@.contains(k) by {
                let j = choose|j: int|
                    0 <= j < i + 1 && #[trigger] keys_efd.list()[j] == k && k.len() >= 22
                        && !keys_doc@.contains(k);
                if j < i {
                    assert(r0.contains(k));
                }
            }
            assert(r@ =~= Set::new(
                |k: Seq<char>|
                    exists|j: int|
                        0 <= j < i + 1 && #[trigger] keys_efd.list()[j] == k && k.len() >= 22
                            && !keys_doc@.contains(k),
            ));
        }
        i = i + 1;
    }
    proof {
        assert forall|k: Seq<char>| #[trigger] r@.contains(k) implies missing_of(
            keys_efd@,
            keys_doc@,
        ).contains(k) by {
            let j = choose|j: int|
                0 <= j < keys_efd.list().len() && #[trigger] keys_efd.list()[j] == k && k.len()
                    >= 22 && !keys_doc@.contains(k);
        }
        assert forall|k: Seq<char>| missing_of(keys_efd@, keys_doc@).contains(k) implies #[trigger]
            r@.contains(k) by {
            let j = choose|j: int|
                0 <= j < keys_efd.list().len() && keys_efd.list()[j] == k;
        }
        assert(r@ =~= missing_of(keys_efd@, keys_doc@));
    }
    r
}

/// The missing keys in export order: the keys of `chaves` long enough to
/// carry a model code, sorted by model code and then by the whole key.
#[verifier::loop_isolation(false)]
#[verifier::rlimit(60)]
pub fn sorted_filtered_keys(chaves: &KeySet) -> (r: Vec<String>)
    requires
        chaves.wf(),
    ensures
        strict_sorted(r.deep_view()),
        r.deep_view().no_duplicates(),
        r.deep_view().to_set() == Set::new(
            |k: Seq<char>| chaves@.contains(k) && k.len() >= 22,
        ),
        forall|i: int| 0 <= i < r.deep_view().len() ==> (#[trigger] r.deep_view()[i]).len() >= 22,
{
    let src = chaves.as_vec();
    let mut out: Vec<String> = Vec::new();
    let mut i: usize = 0;
    while i < src.len()
        invariant
            0 <= i <= chaves.list().len(),
            src.deep_view() == chaves.list(),
            strict_sorted(out.deep_view()),
            out.deep_view().no_duplicates(),
            forall|t: int|
                0 <= t < out.deep_view().len() ==> (#[trigger] out.deep_view()[t]).len() >= 22,
            out.deep_view().to_set() == Set::new(
                |k: Seq<char>|
                    exists|j: int|
                        0 <= j < i && #[trigger] chaves.list()[j] == k && k.len() >= 22,
            ),
        decreases chaves.list().len() - i,
    {
        let ghost out0 = out.deep_view();
        let ghost x = chaves.list()[i as int];
        let cand = &src[i];
        proof {
            assert(cand@ == x);
        }
        if cand.unicode_len() >= 22 {
            proof {
                if out.deep_view().to_set().contains(x) {
                    let j = choose|j: int|
                        0 <= j < i && #[trigger] chaves.list()[j] == x && x.len() >= 22;
                    assert(chaves.list()[i as int] == chaves.list()[j]);
                    assert(false);
                }
                assert(!out0.contains(x)) by {
                    if out0.contains(x) {
                        let t = choose|t: int| 0 <= t < out0.len() && out0[t] == x;
                        assert(out0.to_set().contains(x));
                    }
                }
            }
            let mut p: usize = 0;
            while p < out.len()
                invariant
                    0 <= p <= out0.len(),
                    out.deep_view() == out0,
                    out0.len() == out@.len(),
                    x.len() >= 22,
                    forall|t: int|
                        0 <= t < out0.len() ==> (#[trigger] out0[t]).len() >= 22,
                    forall|t: int| 0 <= t < p ==> !key_lt(x, #[trigger] out0[t]),
                decreases out0.len() - p,
            {
                proof {
                    assert(out@[p as int]@ == out0[p as int]);
                }
                if key_lt_exec(cand.as_str(), out[p].as_str()) {
                    break ;
                }
                p = p + 1;
            }
            proof {
                assert forall|t: int| 0 <= t < p implies key_lt(#[trigger] out0[t], x) by {
                    if out0[t] == x {
                        assert(out0.to_set().contains(x));
                    } else {
                        lemma_key_lt_total(out0[t], x);
                    }
                }
                if p < out0.len() {
                    assert(key_lt(x, out0[p as int]));
                }
            }
            out.insert(p, cand.clone());
            proof {
                let ov = out.deep_view();
                assert(ov =~~= out0.insert(p as int, x));
                assert(ov.len() == out0.len() + 1);
                assert(forall|t: int| 0 <= t < p ==> ov[t] == out0[t]);
                assert(ov[p as int] == x);
                assert(forall|t: int| p < t < ov.len() ==> ov[t] == out0[t - 1]);
                assert forall|a: int, b: int| 0 <= a < b < ov.len() implies key_lt(
                    #[trigger] ov[a],
                    #[trigger] ov[b],
                ) by {
                    if a < p && b < p {
                    } else if a < p && b == p {
                    } else if a < p && b > p {
                    } else if a == p && b > p {
                        if b - 1 > p {
                            assert(key_lt(out0[p as int], out0[b - 1]));
                            assert(key_lt(x, out0[p as int]));
                            lemma_key_lt_trans(x, out0[p as int], out0[b - 1]);
                        }
                    } else {
                    }
                }
                assert forall|a: int, b: int| 0 <= a < b < ov.len() implies ov[a] != ov[b] by {
                    if ov[a] == ov[b] {
                        assert(key_lt(ov[a], ov[b]));
                        lemma_key_lt_irrefl(ov[a]);
                    }
                }
                assert forall|k: Seq<char>| ov.to_set().contains(k) implies out0.to_set().insert(
                    x,
                ).contains(k) by {
                    let t = choose|t: int| 0 <= t < ov.len() && ov[t] == k;
                    if t < p {
                        assert(out0[t] == k);
                    } else if t > p {
                        assert(out0[t - 1] == k);
                    }
                }
                assert forall|k: Seq<char>| out0.to_set().insert(x).contains(k) implies
                    ov.to_set().contains(k) by {
                    if k == x {
                        assert(ov[p as int] == k);
                    } else {
                        let t = choose|t: int| 0 <= t < out0.len() && out0[t] == k;
                        if t < p {
                            assert(ov[t] == k);
                        } else {
                            assert(ov[t + 1] == k);
                        }
                    }
                }
                assert(ov.to_set() =~= out0.to_set().insert(x));
                assert(ov.to_set() =~= Set::new(
                    |k: Seq<char>|
                        exists|j: int|
                            0 <= j < i + 1 && #[trigger] chaves.list()[j] == k && k.len() >= 22,
                )) by {
                    assert forall|k: Seq<char>| ov.to_set().contains(k) implies Set::new(
                        |k2: Seq<char>|
                            exists|j: int|
                                0 <= j < i + 1 && #[trigger] chaves.list()[j] == k2 && k2.len()
                                    >= 22,
                    ).contains(k) by {
                        if k == x {
                            assert(0 <= i < i + 1 && chaves.list()[i as int] == k && k.len() >= 22);
                        } else {
                            let j = choose|j: int|
                                0 <= j < i && #[trigger] chaves.list()[j] == k && k.len() >= 22;
                            assert(0 <= j < i + 1 && chaves.list()[j] == k && k.len() >= 22);
                        }
                    }
                    assert forall|k: Seq<char>|
                        Set::new(
                            |k2: Seq<char>|
                                exists|j: int|
                                    0 <= j < i + 1 && #[trigger] chaves.list()[j] == k2 && k2.len()
                                        >= 22,
                        ).contains(k) implies ov.to_set().contains(k) by {
                        let j = choose|j: int|
                            0 <= j < i + 1 && #[trigger] chaves.list()[j] == k && k.len() >= 22;
                        if j < i {
                            assert(out0.to_set().contains(k));
                        }
                    }
                }
            }
        } else {
            proof {
                assert(out.deep_view().to_set() =~= Set::new(
                    |k: Seq<char>|
                        exists|j: int|
                            0 <= j < i + 1 && #[trigger] chaves.list()[j] == k && k.len() >= 22,
                )) by {
                    assert forall|k: Seq<char>|
                        Set::new(
                            |k2: Seq<char>|
                                exists|j: int|
                                    0 <= j < i + 1 && #[trigger] chaves.list()[j] == k2 && k2.len()
                                        >= 22,
                        ).contains(k) implies out.deep_view().to_set().contains(k) by {
                        let j = choose|j: int|
                            0 <= j < i + 1 && #[trigger] chaves.list()[j] == k && k.len() >= 22;
                        assert(j < i);
                    }
                }
            }
        }
        i = i + 1;
    }
    proof {
        assert forall|k: Seq<char>|
            Set::new(|k2: Seq<char>| chaves@.contains(k2) && k2.len() >= 22).contains(k) implies
            out.deep_view().to_set().contains(k) by {
            let j = choose|j: int|
                0 <= j < chaves.list().len() && chaves.list()[j] == k;
        }
        assert forall|k: Seq<char>| out.deep_view().to_set().contains(k) implies Set::new(
            |k2: Seq<char>| chaves@.contains(k2) && k2.len() >= 22,
        ).contains(k) by {
            let j = choose|j: int|
                0 <= j < chaves.list().len() && #[trigger] chaves.list()[j] == k && k.len() >= 22;
            assert(chaves.list().to_set().contains(k));
        }
        assert(out.deep_view().to_set() =~= Set::new(
            |k: Seq<char>| chaves@.contains(k) && k.len() >= 22,
        ));
    }
    out
}

/// One exported block of missing keys: the model code, the cumulative
/// start offset inside the model's keys, and the keys of the block.
pub struct Chunk {
    pub modelo: String,
    pub offset: usize,
    pub chaves: Vec<String>,
}

impl Chunk {
    pub open spec fn model(&self) -> (Seq<char>, int, Seq<Seq<char>>) {
        (self.modelo@, self.offset as int, self.chaves.deep_view())
    }
}

pub open spec fn chunks_view(cs: Seq<Chunk>) -> Seq<(Seq<char>, int, Seq<Seq<char>>)> {
    cs.map_values(|c: Chunk| c.model())
}

/// How many keys from position `i` on share position `i`'s model code.
pub open spec fn run_from(keys: Seq<Seq<char>>, i: int) -> int
    decreases keys.len() - i,
{
    if i < 0 || i >= keys.len() {
        0
    } else if i + 1 < keys.len() && model_of(keys[i + 1]) == model_of(keys[i]) {
        1 + run_from(keys, i + 1)
    } else {
        1
    }
}

pub proof fn lemma_run_from_pos(keys: Seq<Seq<char>>, i: int)
    requires
        0 <= i < keys.len(),
    ensures
        1 <= run_from(keys, i),
        i + run_from(keys, i) <= keys.len(),
    decreases keys.len() - i,
{
    if i + 1 < keys.len() && model_of(keys[i + 1]) == model_of(keys[i]) {
        lemma_run_from_pos(keys, i + 1);
    }
}

proof fn lemma_run_from_eq(keys: Seq<Seq<char>>, i: int, e: int)
    requires
        0 <= i < e <= keys.len(),
        forall|j: int| i < j < e ==> model_of(#[trigger] keys[j]) == model_of(keys[j - 1]),
        e == keys.len() || model_of(keys[e]) != model_of(keys[e - 1]),
    ensures
        run_from(keys, i) == e - i,
    decreases e - i,
{
    if i + 1 == e {
        if i + 1 < keys.len() {
            assert(model_of(keys[i + 1]) != model_of(keys[i]));
        }
    } else {
        assert(model_of(keys[i + 1]) == model_of(keys[i]));
        lemma_run_from_eq(keys, i + 1, e);
    }
}

/// The blocks of one model's keys, at most `max` keys each, offsets
/// climbing by `max`.
pub open spec fn group_chunks(m: Seq<char>, items: Seq<Seq<char>>, o: int, max: int) -> Seq<
    (Seq<char>, int, Seq<Seq<char>>),
>
    decreases items.len() - o,
{
    if o < 0 || o >= items.len() || max < 1 {
        Seq::empty()
    } else {
        let end = if o + max < items.len() {
            o + max
        } else {
            items.len() as int
        };
        seq![(m, o, items.subrange(o, end))] + group_chunks(m, items, end, max)
    }
}

/// The whole export plan: the keys split into model groups in order,
/// each group split into blocks of at most `max` keys.
pub open spec fn plan_from(keys: Seq<Seq<char>>, i: int, max: int) -> Seq<
    (Seq<char>, int, Seq<Seq<char>>),
>
    decreases keys.len() - i,
    via plan_from_dec
{
    if i < 0 || i >= keys.len() {
        Seq::empty()
    } else {
        let rl = run_from(keys, i);
        group_chunks(model_of(keys[i]), keys.subrange(i, i + rl), 0, max) + plan_from(
            keys,
            i + rl,
            max,
        )
    }
}

#[via_fn]
proof fn plan_from_dec(keys: Seq<Seq<char>>, i: int, max: int) {
    if 0 <= i < keys.len() {
        lemma_run_from_pos(keys, i);
    }
}

/// The per-model key counts of a sorted key list, in list order.
pub open spec fn counts_from(keys: Seq<Seq<char>>, i: int) -> Seq<(Seq<char>, int)>
    decreases keys.len() - i,
    via counts_from_dec
{
    if i < 0 || i >= keys.len() {
        Seq::empty()
    } else {
        let rl = run_from(keys, i);
        seq![(model_of(keys[i]), rl)] + counts_from(keys, i + rl)
    }
}

#[via_fn]
proof fn counts_from_dec(keys: Seq<Seq<char>>, i: int) {
    if 0 <= i < keys.len() {
        lemma_run_from_pos(keys, i);
    }
}

/// The length of the model run starting at `g`.
#[verifier::loop_isolation(false)]
fn run_len_exec(keys: &Vec<String>, g: usize) -> (r: usize)
    requires
        g < keys.deep_view().len(),
        forall|i: int|
            0 <= i < keys.deep_view().len() ==> (#[trigger] keys.deep_view()[i]).len() >= 22,
    ensures
        r == run_from(keys.deep_view(), g as int),
        g + r <= keys.deep_view().len(),
{
    let ghost kv = keys.deep_view();
    let n = keys.len();
    let mut e: usize = g + 1;
    while e < n
        invariant
            g < e <= n,
            n == kv.len(),
            forall|j: int| g < j < e ==> model_of(#[trigger] kv[j]) == model_of(kv[j - 1]),
        decreases n - e,
    {
        proof {
            assert(keys@[e as int]@ == kv[e as int]);
            assert(keys@[e - 1]@ == kv[e - 1]);
        }
        let ma = keys[e].as_str().substring_char(20, 22);
        let mb = keys[e - 1].as_str().substring_char(20, 22);
        if !str_eq(ma, mb) {
            proof {
                assert(model_of(kv[e as int]) != model_of(kv[e - 1]));
                lemma_run_from_eq(kv, g as int, e as int);
            }
            return e - g;
        }
        e = e + 1;
    }
    proof {
        lemma_run_from_eq(kv, g as int, n as int);
    }
    e - g
}

/// Split the sorted missing keys into export blocks: grouped by model
/// code, each block at most `max_linhas` keys, each block's offset the
/// cumulative start index inside its model group. The block limit must
/// be at least one.
#[verifier::loop_isolation(false)]
#[verifier::rlimit(60)]
pub fn exportar_chaves_faltantes(sorted: &Vec<String>, max_linhas: usize) -> (r: Vec<Chunk>)
    requires
        max_linhas >= 1,
        forall|i: int|
            0 <= i < sorted.deep_view().len() ==> (#[trigger] sorted.deep_view()[i]).len() >= 22,
    ensures
        chunks_view(r@) == plan_from(sorted.deep_view(), 0, max_linhas as int),
{
    let ghost kv = sorted.deep_view();
    let ghost maxi = max_linhas as int;
    let mut out: Vec<Chunk> = Vec::new();
    let mut g: usize = 0;
    while g < sorted.len()
        invariant
            0 <= g <= kv.len(),
            plan_from(kv, 0, maxi) == chunks_view(out@) + plan_from(kv, g as int, maxi),
        decreases kv.len() - g,
    {
        let rl = run_len_exec(sorted, g);
        proof {
            assert(sorted@[g as int]@ == kv[g as int]);
            lemma_run_from_pos(kv, g as int);
        }
        let m = sorted[g].as_str().substring_char(20, 22).to_owned();
        let ghost grp = kv.subrange(g as int, g + rl);
        let ghost mv = model_of(kv[g as int]);
        let mut o: usize = 0;
        while o < rl
            invariant
                0 <= o <= rl,
                g + rl <= kv.len(),
                rl == run_from(kv, g as int),
                grp == kv.subrange(g as int, g + rl),
                m@ == mv,
                plan_from(kv, 0, maxi) == chunks_view(out@) + group_chunks(mv, grp, o as int, maxi)
                    + plan_from(kv, g + rl, maxi),
            decreases rl - o,
        {
            let end: usize = if rl - o <= max_linhas {
                rl
            } else {
                o + max_linhas
            };
            let mut chaves: Vec<String> = Vec::new();
            let mut t: usize = o;
            while t < end
                invariant
                    o <= t <= end,
                    o < end <= rl,
                    g + rl <= kv.len(),
                    chaves.deep_view() == kv.subrange(g + o, g + t),
                decreases end - t,
            {
                let ghost prev = chaves.deep_view();
                proof {
                    assert(prev.len() == chaves@.len());
                    assert(sorted@[g + t]@ == kv[g + t]);
                }
                chaves.push(sorted[g + t].clone());
                proof {
                    assert(chaves.deep_view() =~~= prev.push(kv[g + t]));
                    assert(prev.push(kv[g + t]) =~~= kv.subrange(g + o, g + t + 1));
                }
                t = t + 1;
            }
            let ghost prevout = out@;
            out.push(Chunk { modelo: m.clone(), offset: o, chaves });
            proof {
                let c = out@[prevout.len() as int];
                assert(c.model() == (mv, o as int, kv.subrange(g + o, g + end)));
                assert(chunks_view(out@) =~~= chunks_view(prevout).push(c.model()));
                let gend = if o + maxi < grp.len() {
                    o + maxi
                } else {
                    grp.len() as int
                };
                assert(gend == end - g + g - g + (end as int - o as int) + o - (end as int - o as int)
                    || true);
                assert(gend == end as int);
                assert(grp.subrange(o as int, gend) =~~= kv.subrange(g + o, g + end));
                assert(group_chunks(mv, grp, o as int, maxi) == seq![
                    (mv, o as int, grp.subrange(o as int, gend)),
                ] + group_chunks(mv, grp, gend, maxi));
                assert(chunks_view(out@) + group_chunks(mv, grp, end as int, maxi)
                    =~~= chunks_view(prevout) + group_chunks(mv, grp, o as int, maxi));
            }
            o = end;
        }
        proof {
            assert(group_chunks(mv, grp, o as int, maxi) =~~= Seq::<
                (Seq<char>, int, Seq<Seq<char>>),
            >::empty());
            assert(plan_from(kv, g as int, maxi) == group_chunks(mv, grp, 0, maxi) + plan_from(
                kv,
                g + rl,
                maxi,
            ));
        }
        g = g + rl;
    }
    proof {
        assert(plan_from(kv, g as int, maxi) =~~= Seq::<(Seq<char>, int, Seq<Seq<char>>)>::empty());
        assert(chunks_view(out@) =~~= plan_from(kv, 0, maxi));
    }
    out
}

/// The number of keys of each model code in a sorted key list, in model
/// order.
#[verifier::loop_isolation(false)]
pub fn imprimir_informacao_segregada(sorted: &Vec<String>) -> (r: Vec<(String, usize)>)
    requires
        forall|i: int|
            0 <= i < sorted.deep_view().len() ==> (#[trigger] sorted.deep_view()[i]).len() >= 22,
    ensures
        r@.map_values(|p: (String, usize)| (p.0@, p.1 as int)) == counts_from(
            sorted.deep_view(),
            0,
        ),
{
    let ghost kv = sorted.deep_view();
    let mut out: Vec<(String, usize)> = Vec::new();
    let mut g: usize = 0;
    while g < sorted.len()
        invariant
            0 <= g <= kv.len(),
            counts_from(kv, 0) == out@.map_values(|p: (String, usize)| (p.0@, p.1 as int))
                + counts_from(kv, g as int),
        decreases kv.len() - g,
    {
        let rl = run_len_exec(sorted, g);
        proof {
            assert(sorted@[g as int]@ == kv[g as int]);
            lemma_run_from_pos(kv, g as int);
        }
        let m = sorted[g].as_str().substring_char(20, 22).to_owned();
        let ghost prevout = out@;
        out.push((m, rl));
        proof {
            let f = |p: (String, usize)| (p.0@, p.1 as int);
            assert(out@.map_values(f) =~~= prevout.map_values(f).push(
                (model_of(kv[g as int]), rl as int),
            ));
        }
        g = g + rl;
    }
    proof {
        assert(counts_from(kv, g as int) =~~= Seq::<(Seq<char>, int)>::empty());
        assert(out@.map_values(|p: (String, usize)| (p.0@, p.1 as int)) =~~= counts_from(kv, 0));
    }
    out
}

pub open spec fn digit_char(d: int) -> char {
    ((48 + d) as u8) as char
}

/// The decimal digits of `n`, most significant first.
pub open spec fn dec_digits(n: int) -> Seq<char>
    decreases n,
{
    if n < 10 {
        seq![digit_char(n)]
    } else {
        dec_digits(n / 10).push(digit_char(n % 10))
    }
}

pub open spec fn group_emit(ds: Seq<char>, i: int) -> Seq<char>
    recommends
        0 <= i < ds.len(),
{
    if i > 0 && (ds.len() - i) % 3 == 0 {
        seq!['.', ds[i]]
    } else {
        seq![ds[i]]
    }
}

pub open spec fn group_from(ds: Seq<char>, i: int) -> Seq<char>
    decreases ds.len() - i,
{
    if i < 0 || i >= ds.len() {
        Seq::empty()
    } else {
        group_emit(ds, i) + group_from(ds, i + 1)
    }
}

/// The decimal form of `n` with a dot between each group of three
/// digits, counted from the right.
pub open spec fn spec_fmt_milhares(n: int) -> Seq<char> {
    group_from(dec_digits(n), 0)
}

fn dec_digits_exec(n: usize) -> (r: Vec<char>)
    ensures
        r@ == dec_digits(n as int),
    decreases n,
{
    if n < 10 {
        let mut v: Vec<char> = Vec::new();
        v.push((48 + n as u8) as char);
        proof {
            assert(v@ =~= seq![digit_char(n as int)]);
        }
        v
    } else {
        let mut v = dec_digits_exec(n / 10);
        v.push((48 + (n % 10) as u8) as char);
        proof {
            assert(v@ =~= dec_digits((n / 10) as int).push(digit_char((n % 10) as int)));
        }
        v
    }
}

/// Format a count with a dot between each group of three digits.
#[verifier::loop_isolation(false)]
pub fn fmt_milhares(n: usize) -> (r: String)
    ensures
        r@ == spec_fmt_milhares(n as int),
{
    let ds = dec_digits_exec(n);
    let mut out: Vec<char> = Vec::new();
    let mut i: usize = 0;
    while i < ds.len()
        invariant
            0 <= i <= ds@.len(),
            spec_fmt_milhares(n as int) == out@ + group_from(ds@, i as int),
        decreases ds@.len() - i,
    {
        if i > 0 && (ds.len() - i) % 3 == 0 {
            out.push('.');
        }
        out.push(ds[i]);
        i = i + 1;
    }
    chars_to_string(&out)
}

} // verus!
