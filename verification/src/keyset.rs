use vstd::prelude::*;

use crate::text::str_eq;

verus! {

/// A finite set of document keys. Insertion order is kept, and no key
/// appears twice.
pub struct KeySet {
    elems: Vec<String>,
}

impl View for KeySet {
    type V = Set<Seq<char>>;

    open spec fn view(&self) -> Set<Seq<char>> {
        self.list().to_set()
    }
}

pub(crate) proof fn lemma_to_set_push<A>(s: Seq<A>, x: A)
    ensures
        s.push(x).to_set() == s.to_set().insert(x),
{
    assert forall|y: A| s.push(x).to_set().contains(y) implies s.to_set().insert(x).contains(
        y,
    ) by {
        let j = choose|j: int| 0 <= j < s.push(x).len() && s.push(x)[j] == y;
        if j < s.len() {
            assert(s[j] == y);
        }
    }
    assert forall|y: A| s.to_set().insert(x).contains(y) implies s.push(x).to_set().contains(
        y,
    ) by {
        if y == x {
            assert(s.push(x)[s.len() as int] == y);
        } else {
            let j = choose|j: int| 0 <= j < s.len() && s[j] == y;
            assert(s.push(x)[j] == y);
        }
    }
    assert(s.push(x).to_set() =~= s.to_set().insert(x));
}

proof fn lemma_filter_no_dup(s: Seq<Seq<char>>, pred: spec_fn(Seq<char>) -> bool)
    requires
        s.no_duplicates(),
    ensures
        s.filter(pred).no_duplicates(),
    decreases s.len(),
{
    reveal(Seq::filter);
    if s.len() > 0 {
        let rest = s.drop_last();
        let last = s.last();
        lemma_filter_no_dup(rest, pred);
        if pred(last) {
            if rest.filter(pred).contains(last) {
                rest.lemma_filter_contains_rev(pred, last);
                let j = choose|j: int| 0 <= j < rest.len() && rest[j] == last;
                assert(s[j] == s[s.len() - 1]);
                assert(false);
            }
            let f = rest.filter(pred);
            assert forall|p: int, q: int|
                0 <= p < q < f.push(last).len() implies f.push(last)[p] != f.push(last)[q] by {
                if q < f.len() {
                } else {
                    assert(f.push(last)[q] == last);
                    if f[p] == last {
                        assert(f.contains(last));
                    }
                }
            }
        }
    }
}

impl KeySet {
    /// The elements, in insertion order.
    pub closed spec fn list(&self) -> Seq<Seq<char>> {
        self.elems.deep_view()
    }

    pub open spec fn wf(&self) -> bool {
        self.list().no_duplicates()
    }

    pub fn new() -> (r: KeySet)
        ensures
            r@ == Set::<Seq<char>>::empty(),
            r.list() == Seq::<Seq<char>>::empty(),
            r.wf(),
    {
        let r = KeySet { elems: Vec::new() };
        proof {
            assert(r.list() =~= Seq::<Seq<char>>::empty());
            assert(r@ =~= Set::<Seq<char>>::empty());
        }
        r
    }

    pub fn len(&self) -> (r: usize)
        requires
            self.wf(),
        ensures
            r == self@.len(),
            r == self.list().len(),
    {
        proof {
            self.list().unique_seq_to_set();
        }
        self.elems.len()
    }

    pub fn is_empty(&self) -> (r: bool)
        requires
            self.wf(),
        ensures
            r == self@.is_empty(),
    {
        proof {
            self.list().unique_seq_to_set();
            if self.list().len() == 0 {
                assert(self@ =~= Set::<Seq<char>>::empty());
            } else {
                assert(self@.contains(self.list()[0]));
            }
        }
        self.elems.len() == 0
    }

    /// A shared view of the elements, in insertion order.
    pub fn as_vec(&self) -> (r: &Vec<String>)
        ensures
            r.deep_view() == self.list(),
    {
        &self.elems
    }

    pub fn contains(&self, k: &str) -> (r: bool)
        ensures
            r == self@.contains(k@),
    {
        let mut i: usize = 0;
        while i < self.elems.len()
            invariant
                0 <= i <= self.list().len(),
                self.list().len() == self.elems@.len(),
                forall|j: int| 0 <= j < i ==> self.list()[j] != k@,
            decreases self.elems@.len() - i,
        {
            if str_eq(self.elems[i].as_str(), k) {
                proof {
                    assert(self.list()[i as int] == k@);
                }
                return true;
            }
            i = i + 1;
        }
        proof {
            if self.list().contains(k@) {
                let j = choose|j: int| 0 <= j < self.list().len() && self.list()[j] == k@;
                assert(false);
            }
        }
        false
    }

    /// Add `k` unless it is already present.
    pub fn insert(&mut self, k: String)
        requires
            old(self).wf(),
        ensures
            final(self).wf(),
            final(self)@ == old(self)@.insert(k@),
            final(self).list() == if old(self)@.contains(k@) {
                old(self).list()
            } else {
                old(self).list().push(k@)
            },
    {
        if !self.contains(k.as_str()) {
            let ghost prev = self.list();
            self.elems.push(k);
            proof {
                assert(self.list() =~~= prev.push(k@));
                assert forall|p: int, q: int|
                    0 <= p < q < self.list().len() implies self.list()[p] != self.list()[q] by {
                    if q == self.list().len() - 1 {
                        if prev[p] == k@ {
                            assert(prev.contains(k@));
                        }
                    }
                }
                lemma_to_set_push(prev, k@);
            }
        } else {
            proof {
                assert(self@ =~= old(self)@.insert(k@));
            }
        }
    }

    /// An independent copy.
    pub fn duplicate(&self) -> (r: KeySet)
        ensures
            r.list() == self.list(),
            r@ == self@,
    {
        let mut elems: Vec<String> = Vec::new();
        let mut i: usize = 0;
        while i < self.elems.len()
            invariant
                0 <= i <= self.elems@.len(),
                self.list().len() == self.elems@.len(),
                elems.deep_view() == self.list().subrange(0, i as int),
            decreases self.elems@.len() - i,
        {
            let ghost prev = elems.deep_view();
            proof {
                assert(prev.len() == i as int);
                assert(elems@.len() == i as int);
            }
            elems.push(self.elems[i].clone());
            proof {
                assert(elems@.len() == i + 1);
                assert(elems@[i as int]@ == self.list()[i as int]);
                assert(forall|j: int| 0 <= j < i ==> elems.deep_view()[j] == prev[j]);
                assert(elems.deep_view() =~~= self.list().subrange(0, i + 1));
            }
            i = i + 1;
        }
        let r = KeySet { elems };
        proof {
            assert(self.list().subrange(0, self.list().len() as int) =~= self.list());
        }
        r
    }

    /// An independent copy with `k` left out.
    #[verifier::loop_isolation(false)]
    pub fn duplicate_without(&self, k: &str) -> (r: KeySet)
        requires
            self.wf(),
        ensures
            r.wf(),
            r@ == self@.remove(k@),
    {
        let ghost pred = |s: Seq<char>| s != k@;
        let mut elems: Vec<String> = Vec::new();
        let mut i: usize = 0;
        while i < self.elems.len()
            invariant
                0 <= i <= self.elems@.len(),
                self.list().len() == self.elems@.len(),
                elems.deep_view() == self.list().subrange(0, i as int).filter(pred),
            decreases self.elems@.len() - i,
        {
            proof {
                assert(self.list()[i as int] == self.elems@[i as int]@);
                self.list().subrange(0, i as int).lemma_filter_push(self.list()[i as int], pred);
                assert(self.list().subrange(0, i as int).push(self.list()[i as int]) =~~= self.list(
                ).subrange(0, i + 1));
            }
            if !str_eq(self.elems[i].as_str(), k) {
                let ghost prev = elems.deep_view();
                proof {
                    assert(prev.len() == elems@.len());
                }
                elems.push(self.elems[i].clone());
                proof {
                    assert(elems@.len() == prev.len() + 1);
                    assert(elems@[prev.len() as int]@ == self.list()[i as int]);
                    assert(forall|j: int| 0 <= j < prev.len() ==> elems.deep_view()[j] == prev[j]);
                    assert(elems.deep_view() =~~= prev.push(self.list()[i as int]));
                }
            }
            i = i + 1;
        }
        let r = KeySet { elems };
        proof {
            assert(self.list().subrange(0, self.list().len() as int) =~= self.list());
            let fl = self.list().filter(pred);
            assert(r.list() == fl);
            lemma_filter_no_dup(self.list(), pred);
            assert forall|x: Seq<char>| r@.contains(x) implies self@.remove(k@).contains(x) by {
                self.list().lemma_filter_contains_rev(pred, x);
                let j = choose|j: int| 0 <= j < fl.len() && fl[j] == x;
                self.list().lemma_filter_pred(pred, j);
            }
            assert forall|x: Seq<char>| self@.remove(k@).contains(x) implies r@.contains(x) by {
                let j = choose|j: int|
                    0 <= j < self.list().len() && self.list()[j] == x;
                self.list().lemma_filter_contains(pred, j);
            }
            assert(r@ =~= self@.remove(k@));
        }
        r
    }

    /// Add every element of `other`.
    pub fn extend_from(&mut self, other: &KeySet)
        requires
            old(self).wf(),
        ensures
            final(self).wf(),
            final(self)@ == old(self)@.union(other@),
    {
        let src = other.as_vec();
        let mut i: usize = 0;
        while i < src.len()
            invariant
                0 <= i <= src@.len(),
                src.deep_view() == other.list(),
                src@.len() == other.list().len(),
                self.wf(),
                self@ == old(self)@.union(other.list().subrange(0, i as int).to_set()),
            decreases src@.len() - i,
        {
            self.insert(src[i].clone());
            proof {
                assert(other.list().subrange(0, i as int).push(other.list()[i as int])
                    =~~= other.list().subrange(0, i + 1));
                lemma_to_set_push(other.list().subrange(0, i as int), other.list()[i as int]);
                assert(self@ =~= old(self)@.union(other.list().subrange(0, i + 1).to_set()));
            }
            i = i + 1;
        }
        proof {
            assert(other.list().subrange(0, other.list().len() as int) =~= other.list());
        }
    }
}

} // verus!
