use vector_index::topk::{binary_search_scores, get_top_k_indexes};
use vector_index::vector_db::VectorDB;

fn full_sort(scores: &[i64], k: usize) -> Vec<usize> {
    let mut order: Vec<usize> = (0..scores.len()).collect();
    order.sort_by(|a, b| scores[*b].cmp(&scores[*a]).then(a.cmp(b)));
    order.truncate(k);
    order
}

#[test]
fn insertion_point_is_behind_equal_scores() {
    let scores: Vec<i64> = vec![9, 7, 7, 3];
    assert_eq!(binary_search_scores(&scores, 10), 0);
    assert_eq!(binary_search_scores(&scores, 9), 1);
    assert_eq!(binary_search_scores(&scores, 8), 1);
    assert_eq!(binary_search_scores(&scores, 7), 3);
    assert_eq!(binary_search_scores(&scores, 3), 4);
    assert_eq!(binary_search_scores(&scores, -5), 4);
    assert_eq!(binary_search_scores(&vec![], 1), 0);
}

#[test]
fn top_k_matches_full_sort() {
    let mut x: u64 = 99;
    for n in [0usize, 1, 2, 5, 17, 60] {
        let mut scores: Vec<i64> = Vec::new();
        for _ in 0..n {
            x = x.wrapping_mul(6364136223846793005).wrapping_add(1442695040888963407);
            scores.push(((x >> 40) % 11) as i64 - 5);
        }
        for k in [0usize, 1, 3, 5, 17, 100] {
            let picked = get_top_k_indexes(&scores, k);
            assert_eq!(picked.len(), k.min(n));
            assert_eq!(picked, full_sort(&scores, k));
        }
    }
}

#[test]
fn ties_keep_insertion_order() {
    let scores: Vec<i64> = vec![4, 4, 9, 4, 9];
    assert_eq!(get_top_k_indexes(&scores, 4), vec![2, 4, 0, 1]);
    assert_eq!(get_top_k_indexes(&scores, 5), vec![2, 4, 0, 1, 3]);
}

#[test]
fn top_five_of_twenty_in_descending_score() {
    let mut db = VectorDB::new();
    for i in 0..20usize {
        db.insert(format!("item{}", i), i * 3);
    }
    assert_eq!(db.len(), 20);
    let scores: Vec<i64> = (0..20i64).map(|i| (i * 7) % 20).collect();
    let best = db.top_k(&scores, 5).unwrap();
    assert_eq!(best.len(), 5);
    assert_eq!(best, vec!["item17", "item14", "item11", "item8", "item5"]);
    let picked = db.get_top_k_indexes(&scores, 5);
    assert_eq!(picked, vec![17, 14, 11, 8, 5]);
    for w in picked.windows(2) {
        assert!(scores[w[0]] >= scores[w[1]]);
    }
}

#[test]
fn top_k_needs_one_score_per_item() {
    let mut db = VectorDB::new();
    db.insert("a".to_string(), 1);
    db.insert("b".to_string(), 2);
    assert!(db.top_k(&vec![1], 1).is_none());
    assert!(db.top_k(&vec![1, 2, 3], 1).is_none());
    assert_eq!(db.top_k(&vec![1, 2], 1), Some(vec!["b".to_string()]));
    assert_eq!(db.top_k(&vec![1, 2], 0), Some(vec![]));
    assert_eq!(db.top_k(&vec![5, 5], 9), Some(vec!["a".to_string(), "b".to_string()]));
}

#[test]
fn store_numbers_items_in_key_order() {
    let mut db = VectorDB::new();
    db.insert("thirty".to_string(), 30);
    db.insert("ten".to_string(), 10);
    db.insert("twenty".to_string(), 20);
    assert_eq!(db.get_indexes(vec![2, 0, 0, 1]), vec!["thirty", "ten", "ten", "twenty"]);
    db.insert("TEN".to_string(), 10);
    db.remove(20);
    assert_eq!(db.len(), 2);
    assert_eq!(db.get_indexes(vec![0, 1]), vec!["TEN", "thirty"]);
    assert_eq!(db.get_indexes(vec![]), Vec::<String>::new());
}

#[test]
fn flat_store_keeps_order_and_removes_every_match() {
    let mut db = vector_index::database_core::VectorDBCore::new();
    assert_eq!(db.len(), 0);
    for text in ["a", "b", "a", "c", "a"] {
        db.add_item(text);
    }
    assert_eq!(db.len(), 5);
    let scores: Vec<i64> = vec![1, 2, 3, 4, 5];
    assert_eq!(db.find_k_neighbors(&scores, 5), Some(vec!["a".to_string(), "c".to_string(), "a".to_string(), "b".to_string(), "a".to_string()]));
    db.remove_item("a");
    assert_eq!(db.len(), 2);
    assert_eq!(db.find_k_neighbors(&vec![0, 0], 2), Some(vec!["b".to_string(), "c".to_string()]));
    db.remove_item("zzz");
    assert_eq!(db.len(), 2);
    db.remove_item("b");
    db.remove_item("c");
    assert_eq!(db.len(), 0);
    assert_eq!(db.find_k_neighbors(&vec![], 3), Some(vec![]));
}

#[test]
fn flat_store_ranks_best_first() {
    let mut db = vector_index::database_core::VectorDBCore::new();
    for text in ["low", "high", "mid", "high again"] {
        db.add_item(text);
    }
    let scores: Vec<i64> = vec![-3, 8, 2, 8];
    assert_eq!(db.find_k_neighbors(&scores, 3), Some(vec!["high".to_string(), "high again".to_string(), "mid".to_string()]));
    assert_eq!(db.find_k_neighbors(&scores, 0), Some(vec![]));
    assert!(db.find_k_neighbors(&vec![1], 1).is_none());
}
