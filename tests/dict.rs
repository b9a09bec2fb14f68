use index_framework::dict::Dictionary;
use index_framework::storage::Storage;
use std::collections::HashMap;

#[test]
pub fn default_test_dict() {
    let inpdict = &["think", "aal", "auch", "zoo", "make"];

    let mut map: HashMap<&str, u32> = HashMap::new();

    let mut dict = Dictionary::new();
    let terms: Vec<String> = inpdict.iter().map(|d| d.to_string()).collect();
    let ids = dict.insert_batch(terms);
    for (d, id) in inpdict.iter().zip(ids) {
        map.insert(d, id);
    }

    for (d, id) in map {
        assert_eq!(dict.get_id(&d.to_string()).unwrap(), id);
    }

    for a in inpdict {
        assert!(dict.has_term(&a.to_string()));
    }
}

#[test]
fn dictionary_round_trip_and_absent_terms() {
    let words = ["pear", "apple", "Zebra", "äpfel", "", "app"];
    let mut dict = Dictionary::new();
    for w in words {
        dict.insert(w.to_string());
    }
    dict.finish();
    assert_eq!(dict.len(), 6);
    assert!(!dict.is_empty());
    for (id, w) in words.iter().enumerate() {
        let id = id as u32;
        assert_eq!(dict.get_term(id), Some(w.to_string()));
        assert_eq!(dict.get_id(&dict.get_term(id).unwrap()), Some(id));
        assert_eq!(dict.get_term(dict.get_id(&w.to_string()).unwrap()), Some(w.to_string()));
    }
    for w in ["banana", "apples", "ap", "zebra"] {
        assert_eq!(dict.get_id(&w.to_string()), None);
        assert!(!dict.has_term(&w.to_string()));
    }
    assert_eq!(dict.get_term(6), None);
    assert!(dict.has_term_id(5));
    assert!(!dict.has_term_id(6));
}

#[test]
fn dictionary_empty() {
    let mut dict = Dictionary::new();
    dict.reorder();
    assert!(dict.is_empty());
    assert_eq!(dict.get_id(&"x".to_string()), None);
    assert_eq!(dict.get_term(0), None);
}

#[test]
fn dictionary_ids_are_insertion_positions() {
    let mut dict = Dictionary::new();
    assert_eq!(dict.insert("b".to_string()), 0);
    assert_eq!(dict.insert("a".to_string()), 1);
    let ids = dict.insert_batch(vec!["c".to_string(), "0".to_string()]);
    assert_eq!(ids, vec![2, 3]);
    assert_eq!(dict.get_id(&"0".to_string()), Some(3));
    assert_eq!(dict.get_id(&"b".to_string()), Some(0));
}

#[test]
fn storage_insert_get_set() {
    let mut s = Storage::new();
    assert!(s.is_empty());
    assert_eq!(s.insert(7), 0);
    assert_eq!(s.insert(0x0102_0304), 1);
    assert_eq!(s.insert(u32::MAX), 2);
    assert_eq!(s.len(), 3);
    assert_eq!(s.get_item(0), Some(7));
    assert_eq!(s.get_item(1), Some(0x0102_0304));
    assert_eq!(s.get_item(2), Some(u32::MAX));
    assert_eq!(s.get_item(3), None);
    assert!(s.has_item(2));
    assert!(!s.has_item(3));
    assert!(s.set_item(1, 99));
    assert_eq!(s.get_item(1), Some(99));
    assert!(!s.set_item(3, 5));
    assert_eq!(s.len(), 3);
}
