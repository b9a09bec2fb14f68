//! The item store: encoded items keyed by sequential ids.

use vstd::prelude::*;
use crate::codec::{decode_item, encode_item, lemma_u32_code_injective, u32_code};
use crate::order::compare_bytes;
use std::cmp::Ordering;

verus! {

/// `r` is the encoding of some item.
pub open spec fn is_item_code(r: Seq<u8>) -> bool {
    exists|x: u32| u32_code(x) == r
}

/// The item that the record `r` encodes.
pub open spec fn item_of(r: Seq<u8>) -> u32 {
    choose|x: u32| u32_code(x) == r
}

proof fn lemma_item_of_code(x: u32)
    ensures
        is_item_code(u32_code(x)),
        item_of(u32_code(x)) == x,
{
    assert(u32_code(x) == u32_code(x));
    lemma_u32_code_injective(item_of(u32_code(x)), x);
}

/// Items stored encoded; an item's id is its position of insertion.
pub struct Storage {
    data: Vec<Vec<u8>>,
}

impl Storage {
    /// The encoded items, by id.
    pub closed spec fn records(&self) -> Seq<Seq<u8>> {
        self.data@.map_values(|r: Vec<u8>| r@)
    }

    /// The items, by id.
    pub open spec fn items(&self) -> Seq<u32> {
        self.records().map_values(|r: Seq<u8>| item_of(r))
    }

    /// Every record encodes an item, and ids fit in a `u32`.
    pub open spec fn wf(&self) -> bool {
        &&& forall|i: int| 0 <= i < self.records().len() ==> is_item_code(#[trigger] self.records()[i])
        &&& self.records().len() <= u32::MAX + 1
    }

    /// An empty store.
    pub fn new() -> (r: Storage)
        ensures
            r.wf(),
            r.items() == Seq::<u32>::empty(),
    {
        let r = Storage { data: Vec::new() };
        assert(r.items() =~= Seq::<u32>::empty());
        r
    }

    /// Appends `item` and returns its id, the number of items before it.
    pub fn insert(&mut self, item: u32) -> (id: u32)
        requires
            old(self).wf(),
            old(self).items().len() <= u32::MAX,
        ensures
            final(self).wf(),
            id == old(self).items().len(),
            final(self).items() == old(self).items().push(item),
    {
        let id = self.data.len() as u32;
        let enc = encode_item(item);
        proof {
            lemma_item_of_code(item);
        }
        self.data.push(enc);
        proof {
            assert(self.records() =~= old(self).records().push(u32_code(item)));
            assert(self.items() =~= old(self).items().push(item));
        }
        id
    }

    /// The item with id `id`; `None` beyond the last id or where its record
    /// does not decode.
    pub fn get_item(&self, id: u32) -> (r: Option<u32>)
        ensures
            r is Some ==> id < self.items().len(),
            self.wf() ==> r == if id < self.items().len() {
                Some(self.items()[id as int])
            } else {
                None::<u32>
            },
    {
        if id as usize >= self.data.len() {
            return None;
        }
        proof {
            if self.wf() {
                assert(is_item_code(self.records()[id as int]));
                let x = item_of(self.records()[id as int]);
                assert(u32_code(x) == self.data@[id as int]@);
            }
        }
        decode_item(self.data[id as usize].as_slice())
    }

    /// Replaces the item with id `id`; `false`, and nothing changed, if there
    /// is no such id.
    pub fn set_item(&mut self, id: u32, new: u32) -> (r: bool)
        requires
            old(self).wf(),
        ensures
            final(self).wf(),
            r == (id < old(self).items().len()),
            final(self).items() == if r {
                old(self).items().update(id as int, new)
            } else {
                old(self).items()
            },
    {
        if id as usize >= self.data.len() {
            return false;
        }
        let enc = encode_item(new);
        proof {
            lemma_item_of_code(new);
        }
        self.data.set(id as usize, enc);
        proof {
            assert(self.records() =~= old(self).records().update(id as int, u32_code(new)));
            assert(self.items() =~= old(self).items().update(id as int, new));
        }
        true
    }

    /// A store from its records, as `data` gives them back; nothing is
    /// checked here.
    pub fn from_parts(data: Vec<Vec<u8>>) -> (r: Storage)
        ensures
            r.records() == data@.map_values(|v: Vec<u8>| v@),
    {
        Storage { data }
    }

    /// The encoded items, by id.
    pub fn data(&self) -> (r: &Vec<Vec<u8>>)
        ensures
            r@.map_values(|v: Vec<u8>| v@) == self.records(),
    {
        &self.data
    }

    /// `true` if every record encodes an item and the ids fit in a `u32`.
    pub fn is_valid(&self) -> (r: bool)
        ensures
            r == self.wf(),
    {
        let n = self.data.len();
        if n as u64 > u32::MAX as u64 + 1 {
            return false;
        }
        let mut i: usize = 0;
        while i < n
            invariant
                n == self.data@.len(),
                n <= u32::MAX + 1,
                0 <= i <= n,
                forall|k: int| 0 <= k < i ==> is_item_code(#[trigger] self.records()[k]),
            decreases n - i,
        {
            proof {
                assert(self.records()[i as int] == self.data@[i as int]@);
            }
            let x = match decode_item(self.data[i].as_slice()) {
                Some(x) => x,
                None => {
                    proof {
                        if is_item_code(self.records()[i as int]) {
                            let y = item_of(self.records()[i as int]);
                            assert(u32_code(y) == self.data@[i as int]@);
                        }
                    }
                    return false;
                },
            };
            let enc = encode_item(x);
            match compare_bytes(enc.as_slice(), self.data[i].as_slice()) {
                Ordering::Equal => {},
                _ => {
                    proof {
                        if is_item_code(self.records()[i as int]) {
                            let y = item_of(self.records()[i as int]);
                            assert(u32_code(y) == self.data@[i as int]@);
                        }
                    }
                    return false;
                },
            }
            i = i + 1;
        }
        true
    }

    /// An iterator over the items by ascending id.
    pub fn iter(&self) -> (r: StorageIter<'_>)
        ensures
            r.store() == *self,
            r.position() == 0,
    {
        StorageIter::new(self)
    }

    /// `true` if an item with id `id` is stored.
    pub fn has_item(&self, id: u32) -> (r: bool)
        ensures
            r == (id < self.items().len()),
    {
        (id as usize) < self.data.len()
    }

    /// Number of items.
    pub fn len(&self) -> (r: usize)
        ensures
            r == self.items().len(),
    {
        self.data.len()
    }

    /// `true` if no item is stored.
    pub fn is_empty(&self) -> (r: bool)
        ensures
            r == (self.items().len() == 0),
    {
        self.data.len() == 0
    }
}

/// Decodes the items one by one, by ascending id.
pub struct StorageIter<'a> {
    inner: &'a Storage,
    pos: u64,
}

impl<'a> StorageIter<'a> {
    pub closed spec fn store(&self) -> Storage {
        *self.inner
    }

    pub closed spec fn position(&self) -> u64 {
        self.pos
    }

    /// An iterator that starts at id 0.
    pub fn new(inner: &'a Storage) -> (r: StorageIter<'a>)
        ensures
            r.store() == *inner,
            r.position() == 0,
    {
        StorageIter { inner, pos: 0 }
    }

    /// The item at the current id, then moves on; `None` past the last id or
    /// at a record that does not decode.
    pub fn next(&mut self) -> (r: Option<u32>)
        ensures
            final(self).store() == old(self).store(),
            old(self).store().wf() && old(self).position() < old(self).store().items().len() ==> r
                == Some(old(self).store().items()[old(self).position() as int]) && final(self).position()
                == old(self).position() + 1,
            old(self).store().wf() && old(self).position() >= old(self).store().items().len() ==> r is None,
    {
        if self.pos > u32::MAX as u64 {
            return None;
        }
        let item = self.inner.get_item(self.pos as u32);
        if item.is_some() {
            self.pos = self.pos + 1;
        }
        item
    }
}

} // verus!
