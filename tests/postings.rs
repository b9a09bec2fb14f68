use index_framework::postings::Postings;
use index_framework::postings_map;
use rand::{thread_rng, Rng};
use std::collections::{HashMap, HashSet};

#[test]
fn test_postings() {
    let mut map: HashMap<u32, Vec<u32>> = HashMap::new();
    let mut rand = thread_rng();
    let mut did: HashSet<u32> = HashSet::new();

    let count = 100000;
    for _ in 0..count {
        let key = rand.gen_range(0..count);
        if did.contains(&key) {
            continue;
        }
        did.insert(key);

        let size = rand.gen_range(0..100);
        let data = (0..size).map(|_| rand.gen_range(1..1000000));
        map.entry(key).or_default().extend(data);
    }

    let postings = Postings::from_map(map.clone());
    let sparse = postings_map::Postings::from_map(map.clone());

    for (k, v) in map {
        let posts = postings.get_posting(k);
        assert_eq!(posts, v);
        assert_eq!(sparse.get_posting(k), v);
    }
}

#[test]
fn sparse_postings_reads() {
    let mut map: HashMap<u32, Vec<u32>> = HashMap::new();
    map.insert(10, vec![3, 1]);
    map.insert(4, vec![]);
    let p = postings_map::Postings::from_map(map);
    assert_eq!(p.len(), 2);
    assert!(!p.is_empty());
    assert_eq!(p.get_posting(10), vec![3, 1]);
    assert_eq!(p.posting_size(10), 2);
    assert!(p.has_id(4));
    assert!(p.get_posting(4).is_empty());
    assert!(!p.has_id(5));
    assert!(p.get_posting(5).is_empty());
    assert_eq!(p.posting_size(5), 0);
    assert!(postings_map::Postings::new().is_empty());
}

#[test]
fn gaps_and_beyond_read_empty() {
    let mut map: HashMap<u32, Vec<u32>> = HashMap::new();
    map.insert(2, vec![7, 8]);
    map.insert(5, vec![1]);
    let p = Postings::from_map(map);
    assert_eq!(p.len(), 6);
    assert!(!p.is_empty());
    for k in [0u32, 1, 3, 4, 6, 100] {
        assert!(p.get_posting(k).is_empty());
        assert!(!p.has_id(k));
        assert_eq!(p.posting_size(k), 0);
    }
    assert_eq!(p.get_posting(2), vec![7, 8]);
    assert_eq!(p.get_posting(5), vec![1]);
    assert!(p.has_id(2));
    assert_eq!(p.posting_size(2), 2);
}

#[test]
fn dense_layout() {
    let mut map: HashMap<u32, Vec<u32>> = HashMap::new();
    map.insert(1, vec![4, 2]);
    map.insert(3, vec![9]);
    let p = Postings::from_map(map);
    assert_eq!(p.index_cells(), &vec![0, 1, 4, 5]);
    assert_eq!(p.data_cells(), &vec![0, 2, 4, 2, 0, 1, 9]);
}

#[test]
fn empty_map_and_empty_lists() {
    let p = Postings::from_map(HashMap::new());
    assert_eq!(p.len(), 0);
    assert!(p.is_empty());
    assert!(p.get_posting(0).is_empty());
    let mut map: HashMap<u32, Vec<u32>> = HashMap::new();
    map.insert(0, vec![]);
    let p = Postings::from_map(map);
    assert_eq!(p.len(), 1);
    assert!(p.get_posting(0).is_empty());
    assert!(Postings::new().is_empty());
}

#[test]
fn malformed_parts_read_empty() {
    let p = Postings::from_parts(vec![0, 9], vec![5, 1]);
    assert!(p.get_posting(0).is_empty());
    assert!(p.get_posting(1).is_empty());
}
