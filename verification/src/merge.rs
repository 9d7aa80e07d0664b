use vstd::prelude::*;

use crate::keyset::KeySet;
use crate::text::{collapse_whitespace, collapse_ws, str_chars};
use crate::trusted::{blake3_hash_hex, blake3_hex_of, chars_to_string};

verus! {

/// The merged output from line `i` on, with `seen` the digests of the
/// lines already written: each line is whitespace-collapsed, and a line
/// whose digest was seen before is dropped.
pub open spec fn merged_from(lines: Seq<Seq<char>>, i: int, seen: Set<Seq<char>>) -> Seq<Seq<char>>
    decreases lines.len() - i,
{
    if i < 0 || i >= lines.len() {
        Seq::empty()
    } else {
        let norm = collapse_ws(lines[i]);
        let h = blake3_hex_of(norm);
        if seen.contains(h) {
            merged_from(lines, i + 1, seen)
        } else {
            seq![norm] + merged_from(lines, i + 1, seen.insert(h))
        }
    }
}

/// The deduplicated merge of a run of staging lines.
pub open spec fn merged_of(lines: Seq<Seq<char>>) -> Seq<Seq<char>> {
    merged_from(lines, 0, Set::empty())
}

/// The staging files' lines, one after another, in the given file order.
pub open spec fn flat_of(files: Seq<Seq<Seq<char>>>) -> Seq<Seq<char>>
    decreases files.len(),
{
    if files.len() == 0 {
        Seq::empty()
    } else {
        flat_of(files.drop_last()) + files.last()
    }
}

proof fn lemma_merged_hashes_fresh(lines: Seq<Seq<char>>, i: int, seen: Set<Seq<char>>, x: Seq<char>)
    requires
        merged_from(lines, i, seen).contains(x),
    ensures
        !seen.contains(blake3_hex_of(x)),
    decreases lines.len() - i,
{
    let out = merged_from(lines, i, seen);
    let norm = collapse_ws(lines[i]);
    let h = blake3_hex_of(norm);
    if seen.contains(h) {
        lemma_merged_hashes_fresh(lines, i + 1, seen, x);
    } else {
        if x == norm {
        } else {
            let rest = merged_from(lines, i + 1, seen.insert(h));
            let j = choose|j: int| 0 <= j < out.len() && out[j] == x;
            assert(rest[j - 1] == x);
            lemma_merged_hashes_fresh(lines, i + 1, seen.insert(h), x);
        }
    }
}

/// Deduplication: the merged output never holds two equal lines, because
/// a repeated line repeats a digest that was already recorded.
pub proof fn lemma_merged_no_duplicates(lines: Seq<Seq<char>>, i: int, seen: Set<Seq<char>>)
    ensures
        merged_from(lines, i, seen).no_duplicates(),
    decreases lines.len() - i,
{
    if 0 <= i < lines.len() {
        let norm = collapse_ws(lines[i]);
        let h = blake3_hex_of(norm);
        if seen.contains(h) {
            lemma_merged_no_duplicates(lines, i + 1, seen);
        } else {
            let rest = merged_from(lines, i + 1, seen.insert(h));
            lemma_merged_no_duplicates(lines, i + 1, seen.insert(h));
            let out = merged_from(lines, i, seen);
            assert forall|p: int, q: int| 0 <= p < q < out.len() implies out[p] != out[q] by {
                if p == 0 {
                    if out[q] == norm {
                        assert(rest[q - 1] == norm);
                        assert(rest.contains(norm));
                        lemma_merged_hashes_fresh(lines, i + 1, seen.insert(h), norm);
                    }
                } else {
                    assert(rest[p - 1] == out[p] && rest[q - 1] == out[q]);
                }
            }
        }
    }
}

/// Merge a run of staging lines into the deduplicated output: each line
/// is whitespace-collapsed and written only when the digest of its
/// collapsed form has not been seen in this run.
#[verifier::loop_isolation(false)]
pub fn merge_lines(lines: &Vec<String>) -> (r: Vec<String>)
    ensures
        r.deep_view() == merged_of(lines.deep_view()),
        r.deep_view().no_duplicates(),
{
    let ghost lv = lines.deep_view();
    let mut seen = KeySet::new();
    let mut out: Vec<String> = Vec::new();
    let mut i: usize = 0;
    while i < lines.len()
        invariant
            seen.wf(),
            0 <= i <= lv.len(),
            merged_of(lv) == out.deep_view() + merged_from(lv, i as int, seen@),
        decreases lv.len() - i,
    {
        proof {
            assert(lv[i as int] == lines@[i as int]@);
        }
        let cs = str_chars(lines[i].as_str());
        let normv = collapse_whitespace(&cs);
        let norm = chars_to_string(&normv);
        let h = blake3_hash_hex(norm.as_str());
        if !seen.contains(h.as_str()) {
            seen.insert(h);
            let ghost prev = out.deep_view();
            proof {
                assert(prev.len() == out@.len());
            }
            out.push(norm);
            proof {
                assert(out.deep_view() =~~= prev.push(collapse_ws(lv[i as int])));
                assert(merged_of(lv) =~~= out.deep_view() + merged_from(lv, i + 1, seen@));
            }
        }
        i = i + 1;
    }
    proof {
        assert(merged_of(lv) =~~= out.deep_view());
        lemma_merged_no_duplicates(lv, 0, Set::empty());
    }
    out
}

/// Merge the staging outputs, in the fixed file order, into one
/// deduplicated final output.
#[verifier::loop_isolation(false)]
pub fn merge_files(staging: &Vec<Vec<String>>) -> (r: Vec<String>)
    ensures
        r.deep_view() == merged_of(flat_of(staging.deep_view())),
        r.deep_view().no_duplicates(),
{
    let ghost sv = staging.deep_view();
    let mut flat: Vec<String> = Vec::new();
    let mut i: usize = 0;
    while i < staging.len()
        invariant
            0 <= i <= sv.len(),
            flat.deep_view() == flat_of(sv.subrange(0, i as int)),
        decreases sv.len() - i,
    {
        proof {
            assert(staging[i as int].deep_view() == sv[i as int]);
        }
        let file = &staging[i];
        let mut j: usize = 0;
        while j < file.len()
            invariant
                0 <= j <= sv[i as int].len(),
                file.deep_view() == sv[i as int],
                flat.deep_view() == flat_of(sv.subrange(0, i as int)) + sv[i as int].subrange(
                    0,
                    j as int,
                ),
            decreases sv[i as int].len() - j,
        {
            let ghost prev = flat.deep_view();
            proof {
                assert(prev.len() == flat@.len());
            }
            flat.push(file[j].clone());
            proof {
                assert(flat.deep_view() =~~= prev.push(sv[i as int][j as int]));
                assert(prev.push(sv[i as int][j as int]) =~~= flat_of(sv.subrange(0, i as int))
                    + sv[i as int].subrange(0, j + 1));
            }
            j = j + 1;
        }
        proof {
            assert(sv[i as int].subrange(0, sv[i as int].len() as int) =~~= sv[i as int]);
            assert(sv.subrange(0, i + 1).drop_last() =~~= sv.subrange(0, i as int));
            assert(sv.subrange(0, i + 1).last() == sv[i as int]);
            assert(flat.deep_view() =~~= flat_of(sv.subrange(0, i + 1)));
        }
        i = i + 1;
    }
    proof {
        assert(sv.subrange(0, sv.len() as int) =~~= sv);
    }
    merge_lines(&flat)
}

} // verus!
