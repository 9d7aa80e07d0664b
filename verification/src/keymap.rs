use vstd::prelude::*;
use vstd::hash_map::StringHashMap;
use vstd::string::StringExecFns;

use crate::keyset::KeySet;

verus! {

/// The set `k` is mapped to in `m`, or the empty set where `m` has no
/// entry for `k`.
pub open spec fn edge_set(m: Map<Seq<char>, Set<Seq<char>>>, k: Seq<char>) -> Set<Seq<char>> {
    if m.dom().contains(k) {
        m[k]
    } else {
        Set::empty()
    }
}

/// A map from a document key to a set of related document keys: the
/// adjacency form of a reference graph.
pub struct KeyMap {
    keys: Vec<String>,
    map: StringHashMap<KeySet>,
}

impl View for KeyMap {
    type V = Map<Seq<char>, Set<Seq<char>>>;

    closed spec fn view(&self) -> Map<Seq<char>, Set<Seq<char>>> {
        Map::new(|k: Seq<char>| self.map@.dom().contains(k), |k: Seq<char>| self.map@[k]@)
    }
}

impl KeyMap {
    /// The keys, in insertion order.
    pub closed spec fn key_seq(&self) -> Seq<Seq<char>> {
        self.keys.deep_view()
    }

    pub closed spec fn wf(&self) -> bool {
        &&& self.key_seq().no_duplicates()
        &&& self.key_seq().to_set() == self.map@.dom()
        &&& forall|k: Seq<char>|
            self.map@.dom().contains(k) ==> (#[trigger] self.map@[k]).wf()
    }

    /// A well-formed map's key list carries exactly its domain, once each.
    pub proof fn keys_match_dom(&self)
        requires
            self.wf(),
        ensures
            self.key_seq().no_duplicates(),
            self.key_seq().to_set() == self@.dom(),
            self@.dom().finite(),
            self@.dom().len() == self.key_seq().len(),
    {
        assert(self@.dom() =~= self.map@.dom());
        self.key_seq().unique_seq_to_set();
    }

    pub fn new() -> (r: KeyMap)
        ensures
            r.wf(),
            r@ == Map::<Seq<char>, Set<Seq<char>>>::empty(),
            r.key_seq() == Seq::<Seq<char>>::empty(),
    {
        let r = KeyMap { keys: Vec::new(), map: StringHashMap::new() };
        proof {
            assert(r.key_seq() =~= Seq::<Seq<char>>::empty());
            assert(r.key_seq().to_set() =~= r.map@.dom());
            assert(r@ =~= Map::<Seq<char>, Set<Seq<char>>>::empty());
        }
        r
    }

    pub fn len(&self) -> (r: usize)
        requires
            self.wf(),
        ensures
            r == self@.dom().len(),
            r == self.key_seq().len(),
    {
        proof {
            self.keys_match_dom();
        }
        self.keys.len()
    }

    /// A shared view of the keys, in insertion order.
    pub fn key_list(&self) -> (r: &Vec<String>)
        ensures
            r.deep_view() == self.key_seq(),
    {
        &self.keys
    }

    pub fn contains_key(&self, k: &str) -> (r: bool)
        ensures
            r == self@.dom().contains(k@),
    {
        proof {
            assert(self@.dom().contains(k@) == self.map@.dom().contains(k@));
        }
        self.map.contains_key(k)
    }

    pub fn get(&self, k: &str) -> (r: Option<&KeySet>)
        requires
            self.wf(),
        ensures
            match r {
                Some(s) => self@.dom().contains(k@) && s@ == self@[k@] && s.wf(),
                None => !self@.dom().contains(k@),
            },
    {
        let r = self.map.get(k);
        proof {
            assert(self@.dom().contains(k@) == self.map@.dom().contains(k@));
        }
        r
    }

    /// Map `k` to `v`, replacing any set it was mapped to before.
    pub fn insert_set(&mut self, k: String, v: KeySet)
        requires
            old(self).wf(),
            v.wf(),
        ensures
            final(self).wf(),
            final(self)@ == old(self)@.insert(k@, v@),
            final(self).key_seq() == if old(self)@.dom().contains(k@) {
                old(self).key_seq()
            } else {
                old(self).key_seq().push(k@)
            },
    {
        let is_new = !self.map.contains_key(k.as_str());
        if is_new {
            let ghost prevkeys = self.key_seq();
            proof {
                assert(prevkeys.len() == self.keys@.len());
            }
            self.keys.push(k.clone());
            proof {
                assert(self.key_seq() =~~= prevkeys.push(k@));
                assert forall|p: int, q: int|
                    0 <= p < q < self.key_seq().len() implies self.key_seq()[p]
                    != self.key_seq()[q] by {
                    if q == self.key_seq().len() - 1 {
                        if prevkeys[p] == k@ {
                            assert(prevkeys.contains(k@));
                            assert(old(self).wf());
                            assert(prevkeys.to_set().contains(k@));
                        }
                    }
                }
            }
        }
        self.map.insert(k, v);
        proof {
            if is_new {
                crate::keyset::lemma_to_set_push(old(self).key_seq(), k@);
            }
            assert(self.key_seq().to_set() =~= self.map@.dom());
            assert(final(self)@ =~~= old(self)@.insert(k@, v@));
        }
    }

    /// Add `v` to the set `u` is mapped to, creating the entry if there
    /// was none.
    pub fn add_edge(&mut self, u: &str, v: &str)
        requires
            old(self).wf(),
        ensures
            final(self).wf(),
            final(self)@ == old(self)@.insert(u@, edge_set(old(self)@, u@).insert(v@)),
    {
        let mut s = match self.get(u) {
            Some(existing) => existing.duplicate(),
            None => KeySet::new(),
        };
        s.insert(v.to_owned());
        self.insert_set(u.to_owned(), s);
    }

    /// Union `extra` into the set `u` is mapped to, creating the entry if
    /// there was none.
    pub fn extend_entry(&mut self, u: &str, extra: &KeySet)
        requires
            old(self).wf(),
        ensures
            final(self).wf(),
            final(self)@ == old(self)@.insert(u@, edge_set(old(self)@, u@).union(extra@)),
    {
        let mut s = match self.get(u) {
            Some(existing) => existing.duplicate(),
            None => KeySet::new(),
        };
        proof {
            if !old(self)@.dom().contains(u@) {
                assert(s@ =~= edge_set(old(self)@, u@));
            }
        }
        s.extend_from(extra);
        self.insert_set(u.to_owned(), s);
    }
}

} // verus!
