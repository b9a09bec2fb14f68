use index_framework::backend::Index;
use index_framework::builder::{BuildOption, MemIndexBuilder};
use std::collections::HashMap;

/// Dummy "documents" that will get indexed
const DOCS: &[&str] = &[
    "日本語 で 書いた テキスト です",
    "this is some text to tindex",
    "some other text",
    "lol text text",
    "impl<B, T, S, DD, SS, PP> MemIndexBuilder<B, T, S, DD, SS, PP>
where
    B: Backend<T, S>,
    T: DictItem,
    S: DeSer,
    DD: BuildIndexDictionary<T, Output = B::Dict>,
    SS: BuildIndexStorage<S, Output = B::Storage>,
    PP: BuildPostings<Output = B::Postings, PostingList = <B::Postings as IndexPostings>::List>, 
source
pub fn new(postings_len: usize) -> Self
source
pub fn dict(&self) -> &DD
source
pub fn storage(&self) -> &SS
source
pub fn postings(&self, id: usize) -> Option<&HashMap<u32, Vec<u32>>>
source
pub fn term_map(&self) -> &HashMap<T, u32>
source
pub fn postings_mut(
    &mut self,
    pos: usize
) -> Option<&mut HashMap<u32, Vec<u32>>>",
];

struct TestSet {
    index: Index,
    term_id_map: HashMap<String, u32>,
    item_id_map: HashMap<u32, u32>,
}

fn new_testset() -> TestSet {
    let mut builder = MemIndexBuilder::new();
    let mut term_id_map: HashMap<String, u32> = HashMap::new();
    let mut item_id_map: HashMap<u32, u32> = HashMap::new();

    for (pos, doc) in DOCS.iter().enumerate() {
        let term_ids: Vec<u32> = doc
            .split(' ')
            .map(|i| {
                let id = builder.insert_term(i.to_string()).unwrap_or_else(|v| v);
                term_id_map.insert(i.to_string(), id);
                id
            })
            .collect();
        let item_id = builder.index_new(0, pos as u32, &term_ids);
        item_id_map.insert(item_id, pos as u32);
    }

    let index = builder.build();
    TestSet {
        index,
        term_id_map,
        item_id_map,
    }
}

impl TestSet {
    fn test(&self) {
        self.test_index();
        self.test_retrieve_iter();
    }

    fn test_index(&self) {
        let index = &self.index;

        for (ex_term, ex_id) in self.term_id_map.iter() {
            let id = index.dict().get_id(ex_term);
            assert_eq!(id, Some(*ex_id));
            let term = index.dict().get_term(id.unwrap());
            assert_eq!(term.as_ref(), Some(ex_term));
        }

        for (item_id, doc_pos) in self.item_id_map.iter() {
            let storage = index.storage();
            let doc = storage.get_item(*item_id).unwrap();
            let doc = &DOCS[doc as usize];
            let ex_doc = &DOCS[*doc_pos as usize];
            assert_eq!(doc, ex_doc);
        }
    }

    fn test_retrieve_iter(&self) {
        let res = self
            .index
            .retrieve()
            .by_terms(vec!["text".to_string()])
            .unique()
            .get_all();
        assert_eq!(res, vec![3, 2, 1]);
    }
}

#[test]
fn test_builder() {
    new_testset().test();
}

fn build_docs(docs: &[&str], options: &[BuildOption]) -> Index {
    let mut builder = MemIndexBuilder::new();
    for o in options {
        builder.add_option(*o);
    }
    for (pos, doc) in docs.iter().enumerate() {
        let terms: Vec<String> = doc.split_whitespace().map(|w| w.to_string()).collect();
        builder.index_with_terms(0, pos as u32, terms);
    }
    builder.build()
}

#[test]
fn end_to_end_text_query_is_unique() {
    let docs = [
        "this is some text to index",
        "some other text",
        "lol text text",
        "nothing here",
        "another line",
    ];
    let index = build_docs(&docs, &[]);
    let mut res = index
        .retrieve()
        .by_terms(vec!["text".to_string()])
        .unique()
        .get_all();
    assert_eq!(res, vec![2, 1, 0]);
    res.sort();
    assert_eq!(res, vec![0, 1, 2]);
}

#[test]
fn default_retrieve_without_unique_repeats_items() {
    let docs = ["a b", "b c", "c c"];
    let index = build_docs(&docs, &[]);
    // postings of "c": [1, 2, 2]; popped from the end
    let res = index.retrieve().by_terms(vec!["c".to_string()]).get_all();
    assert_eq!(res, vec![2, 2, 1]);
}

#[test]
fn default_retrieve_orders_terms_last_first() {
    let docs = ["a b", "b c", "c d"];
    let index = build_docs(&docs, &[]);
    let res = index
        .retrieve()
        .by_terms(vec!["a".to_string(), "d".to_string()])
        .get_all();
    // "d" was added last, so its items come first
    assert_eq!(res, vec![2, 0]);
}

#[test]
fn default_retrieve_is_deterministic() {
    let docs = ["x y", "y z", "z x", "x"];
    let index = build_docs(&docs, &[]);
    let q = || {
        index
            .retrieve()
            .by_terms(vec!["x".to_string(), "y".to_string(), "z".to_string()])
            .unique()
            .get_all()
    };
    let a = q();
    let b = q();
    assert_eq!(a, b);
    assert_eq!(a, vec![2, 1, 0, 3]);
}

#[test]
fn default_retrieve_lazy_next() {
    let docs = ["a", "a", "b"];
    let index = build_docs(&docs, &[]);
    let mut it = index.retrieve().by_terms(vec!["a".to_string()]).get();
    assert_eq!(it.next(), Some(1));
    assert_eq!(it.next(), Some(0));
    assert_eq!(it.next(), None);
    assert_eq!(it.next(), None);
}

#[test]
fn unknown_terms_are_dropped_from_query() {
    let docs = ["a b"];
    let index = build_docs(&docs, &[]);
    let q = index
        .retrieve()
        .by_terms(vec!["zzz".to_string(), "a".to_string()]);
    assert_eq!(q.term_ids(), &vec![0]);
    let q = q.add_term(&"nope".to_string()).add_term_id(7).add_term_id(1);
    assert_eq!(q.term_ids(), &vec![0, 1]);
    assert!(q.get_all().is_empty() == false);
}

#[test]
fn by_term_keeps_terms_when_unknown() {
    let docs = ["a b"];
    let index = build_docs(&docs, &[]);
    let q = index.retrieve().by_term_ids(vec![1, 5, 0]);
    assert_eq!(q.term_ids(), &vec![1, 0]);
    let q = q.by_term(&"missing".to_string());
    assert_eq!(q.term_ids(), &vec![1, 0]);
    let q = q.by_term(&"a".to_string());
    assert_eq!(q.term_ids(), &vec![0]);
}

#[test]
fn query_defaults_and_setters() {
    let index = build_docs(&["a"], &[]);
    let q = index.retrieve();
    assert_eq!(q.bucket_ids(), &vec![0]);
    assert!(!q.is_unique_query());
    assert_eq!(q.limit(), 0);
    let q = q.with_limit(3).unique().in_postings(vec![2, 0]);
    assert_eq!(q.limit(), 3);
    assert!(q.is_unique_query());
    assert_eq!(q.bucket_ids(), &vec![2, 0]);
    let q = q.all().in_posting(1);
    assert_eq!(q.limit(), 0);
    assert_eq!(q.bucket_ids(), &vec![1]);
}

#[test]
fn missing_bucket_gives_nothing() {
    let index = build_docs(&["a b", "a"], &[]);
    let res = index
        .retrieve()
        .by_terms(vec!["a".to_string()])
        .in_posting(5)
        .get_all();
    assert!(res.is_empty());
}

#[test]
fn ngram_ranks_by_matches_then_id() {
    // item 0 matches a,b,c; item 1 matches a,b; items 2 and 3 match c only
    let docs = ["a b c", "a b", "c", "c"];
    let index = build_docs(&docs, &[BuildOption::SortedPostings]);
    let terms = vec!["a".to_string(), "b".to_string(), "c".to_string()];
    let res = index.retrieve().by_terms(terms.clone()).get_all_ranked();
    assert_eq!(res, vec![0, 1, 3, 2]);
    let top2 = index.retrieve().by_terms(terms.clone()).with_limit(2).get_all_ranked();
    assert_eq!(top2, vec![0, 1]);
    let top3 = index.retrieve().by_terms(terms).with_limit(3).get_all_ranked();
    assert_eq!(top3, vec![0, 1, 3]);
}

#[test]
fn ngram_ties_break_by_larger_id() {
    let docs = ["x", "x", "x"];
    let index = build_docs(&docs, &[]);
    let res = index
        .retrieve()
        .by_terms(vec!["x".to_string()])
        .get_all_ranked();
    assert_eq!(res, vec![2, 1, 0]);
}

#[test]
fn ngram_empty_query_is_exhausted() {
    let index = build_docs(&["a"], &[]);
    let mut it = index.retrieve().get_ranked();
    assert_eq!(it.next(), None);
    let res = index
        .retrieve()
        .by_terms(vec!["zzz".to_string()])
        .get_all_ranked();
    assert!(res.is_empty());
}

#[test]
fn ngram_lazy_next() {
    let docs = ["p q", "q", "p q"];
    let index = build_docs(&docs, &[]);
    let mut it = index
        .retrieve()
        .by_terms(vec!["p".to_string(), "q".to_string()])
        .get_ranked();
    assert_eq!(it.q_term_ids(), &vec![0, 1]);
    assert_eq!(it.next(), Some(2));
    assert_eq!(it.next(), Some(0));
    assert_eq!(it.next(), Some(1));
    assert_eq!(it.next(), None);
}

#[test]
fn unique_postings_option_keeps_one_occurrence() {
    let mut builder = MemIndexBuilder::new();
    builder.add_option(BuildOption::UniquePostings);
    assert!(builder.has_option(&BuildOption::UniquePostings));
    assert!(!builder.has_option(&BuildOption::SortedPostings));
    let t = builder.insert_term("t".to_string()).unwrap();
    let item = builder.insert_item(42);
    builder.map(0, item, &[t]);
    builder.map(0, item, &[t, t]);
    let index = builder.build();
    assert_eq!(index.postings(0).unwrap().get_posting(t), vec![item]);
}

#[test]
fn without_unique_option_duplicates_stay() {
    let mut builder = MemIndexBuilder::new();
    let t = builder.insert_term("t".to_string()).unwrap();
    let item = builder.insert_item(42);
    builder.map(0, item, &[t]);
    builder.map(0, item, &[t]);
    let index = builder.build();
    assert_eq!(index.postings(0).unwrap().get_posting(t), vec![item, item]);
}

#[test]
fn sorted_postings_option_sorts_lists() {
    let mut builder = MemIndexBuilder::new();
    builder.add_option(BuildOption::SortedPostings);
    let t = builder.insert_term("t".to_string()).unwrap();
    for v in [5u32, 1, 4, 1, 3] {
        builder.insert_item(v);
    }
    builder.map(0, 4, &[t]);
    builder.map(0, 0, &[t]);
    builder.map(0, 3, &[t]);
    builder.map(0, 0, &[t]);
    builder.map(0, 2, &[t]);
    let index = builder.build();
    assert_eq!(index.postings(0).unwrap().get_posting(t), vec![0, 0, 2, 3, 4]);
}

#[test]
fn insert_term_reports_existing_id() {
    let mut builder = MemIndexBuilder::new();
    assert_eq!(builder.insert_term("a".to_string()), Ok(0));
    assert_eq!(builder.insert_term("b".to_string()), Ok(1));
    assert_eq!(builder.insert_term("a".to_string()), Err(0));
    assert_eq!(builder.term_map().len(), 2);
    assert_eq!(builder.dict().len(), 2);
    let ids = builder.terms_to_ids(vec!["b".to_string(), "c".to_string(), "c".to_string()]);
    assert_eq!(ids, vec![1, 2, 2]);
}

#[test]
fn builder_buckets() {
    let mut builder = MemIndexBuilder::with_postings_len(3);
    assert_eq!(builder.postings_count(), 3);
    assert!(builder.postings(2).is_some());
    assert!(builder.postings(3).is_none());
    let t = builder.insert_term("w".to_string()).unwrap();
    let id = builder.index_new(2, 9, &[t]);
    assert_eq!(id, 0);
    assert_eq!(builder.storage().len(), 1);
    assert_eq!(builder.postings(2).unwrap().get(&t), Some(&vec![0]));
    let index = builder.build();
    assert_eq!(index.posting_count(), 3);
    assert_eq!(index.postings(2).unwrap().get_posting(t), vec![0]);
    assert!(index.postings(0).unwrap().get_posting(t).is_empty());
    let res = index.retrieve().add_term_ids(vec![t]).in_posting(2).get_all();
    assert_eq!(res, vec![9]);
}

#[test]
fn index_with_terms_returns_item_id() {
    let mut builder = MemIndexBuilder::new();
    let a = builder.index_with_terms(0, 100, vec!["x".to_string(), "y".to_string()]);
    let b = builder.index_with_terms(0, 200, vec!["y".to_string()]);
    assert_eq!((a, b), (0, 1));
    let index = builder.build();
    assert_eq!(index.storage().get_item(1), Some(200));
    assert_eq!(index.postings(0).unwrap().get_posting(1), vec![0, 1]);
}

#[test]
fn backend_emptiness() {
    let index = MemIndexBuilder::new().build();
    assert!(index.backend_ref().is_empty());
    let index = build_docs(&["a"], &[]);
    assert!(!index.backend_ref().is_empty());
    assert!(index.postings(1).is_none());
}

#[test]
fn check_postings_spots_unknown_items() {
    let index = build_docs(&["a b", "b"], &[]);
    assert!(index.check_postings());
    let mut builder = MemIndexBuilder::new();
    let t = builder.insert_term("t".to_string()).unwrap();
    builder.map(0, 3, &[t]);
    let index = builder.build();
    assert!(!index.check_postings());
}

#[test]
fn index_from_parts_round_trip() {
    let index = build_docs(&["a b", "b c"], &[]);
    let dict = index.dict();
    let d = index_framework::dict::Dictionary::from_parts(dict.data().clone(), dict.sort_index().clone());
    let p = index.postings(0).unwrap();
    let p = index_framework::postings::Postings::from_parts(p.index_cells().clone(), p.data_cells().clone());
    let s = index_framework::storage::Storage::from_parts(index.storage().data().clone());
    let rebuilt = Index::from_parts(d, vec![p], s).unwrap();
    let res = rebuilt.retrieve().by_terms(vec!["b".to_string()]).get_all();
    assert_eq!(res, vec![1, 0]);
}

#[test]
fn index_from_parts_rejects_bad_parts() {
    let index = build_docs(&["a b"], &[]);
    let dict = index.dict();
    let bad_order = index_framework::dict::Dictionary::from_parts(dict.data().clone(), vec![0, 0]);
    let s = index_framework::storage::Storage::from_parts(index.storage().data().clone());
    assert!(Index::from_parts(bad_order, vec![], s).is_none());
    let d = index_framework::dict::Dictionary::from_parts(dict.data().clone(), dict.sort_index().clone());
    let bad_store = index_framework::storage::Storage::from_parts(vec![vec![1, 2]]);
    assert!(Index::from_parts(d, vec![], bad_store).is_none());
}

#[test]
fn iterators_walk_by_id() {
    let index = build_docs(&["b a", "c"], &[]);
    let mut it = index.dict().iter();
    assert_eq!(it.next(), Some("b".to_string()));
    assert_eq!(it.next(), Some("a".to_string()));
    assert_eq!(it.next(), Some("c".to_string()));
    assert_eq!(it.next(), None);
    let mut it = index.storage().iter();
    assert_eq!(it.next(), Some(0));
    assert_eq!(it.next(), Some(1));
    assert_eq!(it.next(), None);
    let mut it = index.postings(0).unwrap().iter();
    assert_eq!(it.next(), Some(vec![0]));
    assert_eq!(it.next(), Some(vec![0]));
    assert_eq!(it.next(), Some(vec![1]));
    assert_eq!(it.next(), None);
}

#[test]
fn add_terms_and_term_ids_append() {
    let index = build_docs(&["a b", "c"], &[]);
    let q = index
        .retrieve()
        .by_term_id(2)
        .by_term_id(9)
        .add_terms(vec!["a".to_string(), "x".to_string(), "b".to_string()]);
    assert_eq!(q.term_ids(), &vec![2, 0, 1]);
    let res = q.unique().get_all();
    assert_eq!(res, vec![0, 1]);
}

#[test]
fn backend_parts() {
    let index = build_docs(&["a b", "c"], &[]);
    let backend = index.into_backend();
    assert_eq!(backend.posting_count(), 1);
    assert_eq!(backend.dict().len(), 3);
    assert_eq!(backend.storage().len(), 2);
    let (dict, postings, storage) = backend.into_parts();
    assert_eq!(dict.len(), 3);
    assert_eq!(postings.len(), 1);
    assert_eq!(storage.get_item(1), Some(1));
}

#[test]
fn build_with_modifier_sees_sorted_lists() {
    let mut builder = MemIndexBuilder::with_postings_len(2);
    builder.add_option(BuildOption::SortedPostings);
    let a = builder.insert_term("a".to_string()).unwrap();
    let b = builder.insert_term("b".to_string()).unwrap();
    for v in 0..4u32 {
        builder.insert_item(v);
    }
    builder.map(0, 3, &[a, b]);
    builder.map(0, 1, &[a]);
    builder.map(0, 2, &[a]);
    builder.map(1, 0, &[b]);
    let index = builder
        .build_with(|bucket, term, mut list| {
            if bucket == 0 && term == 0 {
                assert_eq!(list, vec![1, 2, 3]);
                list.truncate(2);
            }
            list
        })
        .unwrap();
    assert_eq!(index.postings(0).unwrap().get_posting(a), vec![1, 2]);
    assert_eq!(index.postings(0).unwrap().get_posting(b), vec![3]);
    assert_eq!(index.postings(1).unwrap().get_posting(b), vec![0]);
    assert!(index.postings(1).unwrap().get_posting(a).is_empty());
}

#[test]
fn build_with_identity_matches_build() {
    let docs = ["x y", "y", "x x"];
    let make = || {
        let mut builder = MemIndexBuilder::new();
        for (pos, doc) in docs.iter().enumerate() {
            let terms: Vec<String> = doc.split_whitespace().map(|w| w.to_string()).collect();
            builder.index_with_terms(0, pos as u32, terms);
        }
        builder
    };
    let plain = make().build();
    let modded = make().build_with(|_, _, l| l).unwrap();
    for t in 0..2u32 {
        assert_eq!(
            plain.postings(0).unwrap().get_posting(t),
            modded.postings(0).unwrap().get_posting(t)
        );
    }
}
