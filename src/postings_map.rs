//! Sparse postings: term ids mapped to their lists in a hash map. Fits small
//! indexes and sparse term id spaces; reads as the dense variant does, but a
//! term mapped to an empty list counts as present.

use std::collections::HashMap;
use vstd::prelude::*;
use crate::postings::{list_or_empty, lists_of};

verus! {

broadcast use vstd::std_specs::hash::group_hash_axioms;

/// Term id to item ids, in a hash map.
pub struct Postings {
    index: HashMap<u32, Vec<u32>>,
}

impl Postings {
    /// The lists, by term id.
    pub closed spec fn lists(&self) -> Map<u32, Seq<u32>> {
        lists_of(self.index@)
    }

    /// Postings without any term.
    pub fn new() -> (r: Postings)
        ensures
            r.lists() == Map::<u32, Seq<u32>>::empty(),
    {
        let r = Postings { index: HashMap::new() };
        assert(r.lists() =~= Map::<u32, Seq<u32>>::empty());
        r
    }

    /// Postings holding the lists of `map`.
    pub fn from_map(map: HashMap<u32, Vec<u32>>) -> (r: Postings)
        ensures
            r.lists() == lists_of(map@),
    {
        Postings { index: map }
    }

    /// The item ids mapped to term `id`; empty where there are none.
    pub fn get_posting(&self, id: u32) -> (r: Vec<u32>)
        ensures
            r@ == list_or_empty(self.lists(), id),
    {
        match self.index.get(&id) {
            Some(v) => {
                let c = v.clone();
                proof {
                    assert(c@ =~= v@);
                }
                c
            },
            None => Vec::new(),
        }
    }

    /// `true` if term `id` is mapped, even to an empty list.
    pub fn has_id(&self, id: u32) -> (r: bool)
        ensures
            r == self.lists().contains_key(id),
    {
        self.index.contains_key(&id)
    }

    /// Length of the list of term `id`.
    pub fn posting_size(&self, id: u32) -> (r: usize)
        ensures
            r == list_or_empty(self.lists(), id).len(),
    {
        match self.index.get(&id) {
            Some(v) => v.len(),
            None => 0,
        }
    }

    /// Number of mapped term ids.
    pub fn len(&self) -> (r: usize)
        ensures
            r == self.lists().len(),
    {
        proof {
            assert(self.lists().dom() =~= self.index@.dom());
        }
        self.index.len()
    }

    /// `true` if no term id is mapped.
    pub fn is_empty(&self) -> (r: bool)
        ensures
            r == (self.lists().len() == 0),
    {
        self.len() == 0
    }
}

} // verus!
