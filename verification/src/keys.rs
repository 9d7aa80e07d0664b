use vstd::prelude::*;
use vstd::string::StrSliceExecFns;

use crate::text::{char_is_digit, digits_of, is_digit, strip_non_digits, str_chars};
use crate::trusted::chars_to_string;

verus! {

/// A well-formed document key: exactly 44 characters, all of them digits.
pub open spec fn is_key44(s: Seq<char>) -> bool {
    s.len() == 44 && forall|i: int| 0 <= i < s.len() ==> is_digit(#[trigger] s[i])
}

/// The two-character document-model code of a key, at positions 21-22
/// (1-indexed).
pub open spec fn model_of(s: Seq<char>) -> Seq<char>
    recommends
        s.len() >= 22,
{
    s.subrange(20, 22)
}

/// Whether `chave` is a 44-character key whose model code is `modelo`.
pub open spec fn spec_eh_modelo(chave: Seq<char>, modelo: Seq<char>) -> bool {
    chave.len() == 44 && model_of(chave) == modelo
}

/// Whether `chave` has 44 characters and the model code `modelo` at
/// positions 21-22.
pub fn eh_modelo(chave: &str, modelo: &str) -> (r: bool)
    ensures
        r == spec_eh_modelo(chave@, modelo@),
{
    if chave.unicode_len() != 44 {
        return false;
    }
    if modelo.unicode_len() != 2 {
        proof {
            assert(model_of(chave@).len() == 2);
        }
        return false;
    }
    let r = chave.get_char(20) == modelo.get_char(0) && chave.get_char(21) == modelo.get_char(1);
    proof {
        if r {
            assert(model_of(chave@) =~= modelo@);
        } else {
            assert(model_of(chave@)[0] == chave@[20] && model_of(chave@)[1] == chave@[21]);
        }
    }
    r
}

/// The model code of a key that is at least 22 characters long.
pub fn model_code(chave: &str) -> (r: Option<String>)
    ensures
        match r {
            Some(m) => chave@.len() >= 22 && m@ == model_of(chave@),
            None => chave@.len() < 22,
        },
{
    if chave.unicode_len() >= 22 {
        Some(chave.substring_char(20, 22).to_owned())
    } else {
        None
    }
}

/// Normalize a raw field to a key: strip every non-digit character and
/// accept the result only when exactly 44 digits remain.
pub fn normalized_key(field: &str) -> (r: Option<String>)
    ensures
        match r {
            Some(k) => k@ == digits_of(field@) && is_key44(k@),
            None => digits_of(field@).len() != 44,
        },
{
    let cs = str_chars(field);
    let digits = strip_non_digits(&cs);
    if digits.len() == 44 {
        proof {
            assert forall|i: int| 0 <= i < digits@.len() implies is_digit(#[trigger] digits@[i]) by {
                cs@.lemma_filter_pred(|c: char| is_digit(c), i);
            }
        }
        Some(chars_to_string(&digits))
    } else {
        None
    }
}

/// A maximal run of exactly 44 digits begins at position `i` of `s`.
pub open spec fn token_at(s: Seq<char>, i: int) -> bool {
    &&& 0 <= i
    &&& i + 44 <= s.len()
    &&& forall|j: int| i <= j < i + 44 ==> is_digit(#[trigger] s[j])
    &&& (i == 0 || !is_digit(s[i - 1]))
    &&& (i + 44 == s.len() || !is_digit(s[i + 44]))
}

pub open spec fn tokens_from(s: Seq<char>, i: int) -> Seq<Seq<char>>
    decreases s.len() - i,
{
    if i < 0 || i >= s.len() {
        Seq::empty()
    } else if token_at(s, i) {
        seq![s.subrange(i, i + 44)] + tokens_from(s, i + 1)
    } else {
        tokens_from(s, i + 1)
    }
}

/// Every isolated run of exactly 44 digits in `s`, in order of position.
pub open spec fn keys44_of(s: Seq<char>) -> Seq<Seq<char>> {
    tokens_from(s, 0)
}

/// Every extracted token is a well-formed key: exactly 44 digits.
pub proof fn lemma_tokens_wf(s: Seq<char>, i: int, t: Seq<char>)
    requires
        tokens_from(s, i).contains(t),
    ensures
        is_key44(t),
    decreases s.len() - i,
{
    if i < 0 || i >= s.len() {
    } else if token_at(s, i) {
        if t == s.subrange(i, i + 44) {
            assert forall|j: int| 0 <= j < t.len() implies is_digit(#[trigger] t[j]) by {
                assert(t[j] == s[i + j]);
            }
        } else {
            let out = tokens_from(s, i);
            let rest = tokens_from(s, i + 1);
            let j = choose|j: int| 0 <= j < out.len() && out[j] == t;
            assert(rest[j - 1] == t);
            lemma_tokens_wf(s, i + 1, t);
        }
    } else {
        lemma_tokens_wf(s, i + 1, t);
    }
}

fn is_token_at(s: &Vec<char>, i: usize) -> (r: bool)
    requires
        i < s@.len(),
    ensures
        r == token_at(s@, i as int),
{
    if s.len() < 44 || i > s.len() - 44 {
        return false;
    }
    if i > 0 && char_is_digit(s[i - 1]) {
        return false;
    }
    if i + 44 < s.len() && char_is_digit(s[i + 44]) {
        return false;
    }
    let mut j: usize = i;
    while j < i + 44
        invariant
            i <= j <= i + 44,
            i + 44 <= s@.len() <= usize::MAX as int,
            forall|k: int| i <= k < j ==> is_digit(#[trigger] s@[k]),
        decreases i + 44 - j,
    {
        if !char_is_digit(s[j]) {
            return false;
        }
        j = j + 1;
    }
    true
}

/// Extract every isolated 44-digit run of `line`, in order.
pub fn extract_keys44(line: &str) -> (r: Vec<String>)
    ensures
        r.deep_view() == keys44_of(line@),
{
    let s = str_chars(line);
    let mut out: Vec<String> = Vec::new();
    let mut i: usize = 0;
    while i < s.len()
        invariant
            0 <= i <= s@.len(),
            keys44_of(s@) == out.deep_view() + tokens_from(s@, i as int),
        decreases s@.len() - i,
    {
        if is_token_at(&s, i) {
            let mut tok: Vec<char> = Vec::new();
            let mut j: usize = i;
            while j < i + 44
                invariant
                    i <= j <= i + 44,
                    i + 44 <= s@.len() <= usize::MAX as int,
                    tok@ == s@.subrange(i as int, j as int),
                decreases i + 44 - j,
            {
                tok.push(s[j]);
                proof {
                    assert(s@.subrange(i as int, j as int).push(s@[j as int]) =~= s@.subrange(
                        i as int,
                        j + 1,
                    ));
                }
                j = j + 1;
            }
            let ghost prev = out.deep_view();
            out.push(chars_to_string(&tok));
            proof {
                assert(out.deep_view() =~= prev + seq![s@.subrange(i as int, i + 44)]);
            }
        }
        i = i + 1;
    }
    out
}

} // verus!
