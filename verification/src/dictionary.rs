//! The dictionary: an immutable mapping from a value string to the ordered
//! list of identifiers that denote it, shared read-only by every search.

use vstd::prelude::*;
use crate::text::str_eq;

verus! {

/// One dictionary entry: a value and the identifiers that denote it.
pub struct DictEntry {
    pub value: String,
    pub identifiers: Vec<String>,
}

impl View for DictEntry {
    type V = (Seq<char>, Seq<Seq<char>>);

    open spec fn view(&self) -> Self::V {
        (self.value@, self.identifiers.deep_view())
    }
}

/// A dictionary is a sequence of entries with pairwise distinct values.
pub struct Dictionary {
    entries: Vec<DictEntry>,
}

impl View for Dictionary {
    type V = Seq<(Seq<char>, Seq<Seq<char>>)>;

    closed spec fn view(&self) -> Self::V {
        self.entries@.map_values(|e: DictEntry| e@)
    }
}

impl Dictionary {
    /// Values are keys: no two entries name the same value.
    pub open spec fn wf(self) -> bool {
        forall|e1: int, e2: int| 0 <= e1 < e2 < self@.len() ==> self@[e1].0 != self@[e2].0
    }

    pub fn new() -> (r: Dictionary)
        ensures
            r@ == Seq::<(Seq<char>, Seq<Seq<char>>)>::empty(),
            r.wf(),
    {
        let d = Dictionary { entries: Vec::new() };
        proof {
            assert(d@ =~= Seq::<(Seq<char>, Seq<Seq<char>>)>::empty());
        }
        d
    }

    pub fn len(&self) -> (r: usize)
        ensures
            r == self@.len(),
    {
        self.entries.len()
    }

    /// The value of entry `e`.
    pub fn value_at(&self, e: usize) -> (r: &String)
        requires
            e < self@.len(),
        ensures
            r@ == self@[e as int].0,
    {
        &self.entries[e].value
    }

    /// The identifiers of entry `e`.
    pub fn ids_at(&self, e: usize) -> (r: &Vec<String>)
        requires
            e < self@.len(),
        ensures
            r.deep_view() == self@[e as int].1,
    {
        &self.entries[e].identifiers
    }

    /// Adds an entry, unless its value is already present; keys stay unique.
    pub fn insert(&mut self, value: String, identifiers: Vec<String>) -> (r: bool)
        requires
            old(self).wf(),
        ensures
            final(self).wf(),
            r == !(exists|e: int| 0 <= e < old(self)@.len() && old(self)@[e].0 == value@),
            r ==> final(self)@ == old(self)@.push((value@, identifiers.deep_view())),
            !r ==> final(self)@ == old(self)@,
    {
        let n = self.entries.len();
        let mut e: usize = 0;
        while e < n
            invariant
                *self == *old(self),
                old(self).wf(),
                n == self@.len(),
                0 <= e <= n,
                forall|e2: int| 0 <= e2 < e ==> self@[e2].0 != value@,
            decreases n - e,
        {
            if str_eq(self.entries[e].value.as_str(), value.as_str()) {
                proof {
                    assert(self@[e as int].0 == value@);
                }
                return false;
            }
            proof {
                assert(self@[e as int].0 != value@);
            }
            e += 1;
        }
        let ghost before = self@;
        let entry = DictEntry { value, identifiers };
        let ghost entry_view = entry@;
        self.entries.push(entry);
        proof {
            assert(self@ =~= before.push(entry_view));
        }
        true
    }
}

} // verus!
