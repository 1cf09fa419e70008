use vector_index::tree::BTree;

#[test]
fn init_test() {
    let tree = BTree::new();
    assert_eq!(tree.get_num_elements(), 0);
    assert_eq!(tree.get_depth(), 0);
    assert_eq!(tree.get_item(0), None);
}

#[test]
fn one_leaf() {
    let mut tree = BTree::new();
    let strings: Vec<String> = vec![
        String::from("E"),
        String::from("F"),
        String::from("T"),
        String::from("Q")
    ];


    tree.set_item(9, strings[0].clone());
    tree.set_item(10, strings[1].clone());
    tree.set_item(12, strings[2].clone());
    tree.set_item(23, strings[3].clone());
    // assert_eq!(tree.get_num_elements(), 4);
    assert_eq!(tree.get_depth(), 1);
    assert_eq!(tree.get_item(9), Some(strings[0].clone()));
    assert_eq!(tree.get_item(10), Some(strings[1].clone()));
    assert_eq!(tree.get_item(11), None);
    assert_eq!(tree.get_item(12), Some(strings[2].clone()));
    assert_eq!(tree.get_item(23), Some(strings[3].clone()));
}

#[test]
fn split_leafs() {
    let mut tree = BTree::new();
    let strings: Vec<String> = vec![
        String::from("E"),
        String::from("G"),
        String::from("T"),
        String::from("Q"),
        String::from("F")
    ];


    tree.set_item(9, strings[0].clone());
    tree.set_item(10, strings[1].clone());
    tree.set_item(12, strings[2].clone());
    tree.set_item(23, strings[3].clone());
    tree.set_item(5, strings[4].clone());
    // assert_eq!(tree.get_num_elements(), 4);
    assert_eq!(tree.get_depth(), 2);
    assert_eq!(tree.get_item(9), Some(strings[0].clone()));
    assert_eq!(tree.get_item(10), Some(strings[1].clone()));
    assert_eq!(tree.get_item(11), None);
    assert_eq!(tree.get_item(12), Some(strings[2].clone()));
    assert_eq!(tree.get_item(23), Some(strings[3].clone()));
    assert_eq!(tree.get_item(5), Some(strings[4].clone()));
}

#[test]
fn split_leafs_with_internal_node() {
    let mut tree = BTree::new();
    let strings: Vec<String> = vec![
        String::from("E"),
        String::from("G"),
        String::from("T"),
        String::from("Q"),
        String::from("F"),
        String::from("B"),
        String::from("A"),
        String::from("A"),
        String::from("F"),
        String::from("V"),
        String::from("V"),
    ];


    tree.set_item(9, strings[0].clone());
    tree.set_item(10, strings[1].clone());
    tree.set_item(12, strings[2].clone());
    tree.set_item(23, strings[3].clone());
    tree.set_item(5, strings[4].clone());
    tree.set_item(2, strings[5].clone());
    tree.set_item(7, strings[6].clone());
    tree.set_item(38, strings[7].clone());
    tree.set_item(39, strings[8].clone());
    tree.set_item(40, strings[9].clone());
    tree.set_item(45, strings[10].clone());

    assert_eq!(tree.get_depth(), 2);
    assert_eq!(tree.get_item(9), Some(strings[0].clone()));
    assert_eq!(tree.get_item(10), Some(strings[1].clone()));
    assert_eq!(tree.get_item(11), None);
    assert_eq!(tree.get_item(12), Some(strings[2].clone()));
    assert_eq!(tree.get_item(23), Some(strings[3].clone()));
    assert_eq!(tree.get_item(5), Some(strings[4].clone()));
}

#[test]
fn split_internal_node() {
    let mut tree = BTree::new();
    let strings: Vec<String> = vec![
        String::from("E"),
        String::from("G"),
        String::from("T"),
        String::from("Q"),
        String::from("F"),
        String::from("B"),
        String::from("A"),
        String::from("A"),
        String::from("F"),
        String::from("V"),
        String::from("V"),
        String::from("H"),
        String::from("L"),
        String::from("Alpha"),
        String::from("Omega"),
    ];

    tree.set_item(9, strings[0].clone());
    tree.set_item(10, strings[1].clone());
    tree.set_item(12, strings[2].clone());
    tree.set_item(23, strings[3].clone());
    tree.set_item(5, strings[4].clone());
    tree.set_item(2, strings[5].clone());
    tree.set_item(7, strings[6].clone());
    tree.set_item(38, strings[7].clone());
    tree.set_item(39, strings[8].clone());
    tree.set_item(40, strings[9].clone());
    tree.set_item(45, strings[10].clone());
    println!("{}", tree.render());
    tree.set_item(0, strings[11].clone());
    tree.set_item(1, strings[12].clone());
    tree.set_item(50, strings[13].clone());
    tree.set_item(55, strings[14].clone());


    assert_eq!(tree.get_depth(), 3);
    assert_eq!(tree.get_item(9), Some(strings[0].clone()));
    assert_eq!(tree.get_item(10), Some(strings[1].clone()));
    assert_eq!(tree.get_item(11), None);
    assert_eq!(tree.get_item(12), Some(strings[2].clone()));
    assert_eq!(tree.get_item(23), Some(strings[3].clone()));
    assert_eq!(tree.get_item(5), Some(strings[4].clone()));
}

#[test]
fn test_iterate() {
    let mut tree = BTree::new();
    let strings: Vec<String> = vec![
        String::from("E"),
        String::from("G"),
        String::from("T"),
        String::from("Q"),
        String::from("F"),
        String::from("B"),
        String::from("A"),
        String::from("A"),
        String::from("F"),
        String::from("V"),
        String::from("V"),
        String::from("H"),
        String::from("L"),
        String::from("Alpha"),
        String::from("Omega"),
    ];

    tree.set_item(9, strings[0].clone());
    tree.set_item(10, strings[1].clone());
    tree.set_item(12, strings[2].clone());
    tree.set_item(23, strings[3].clone());
    tree.set_item(5, strings[4].clone());
    tree.set_item(2, strings[5].clone());
    tree.set_item(7, strings[6].clone());
    tree.set_item(38, strings[7].clone());
    tree.set_item(39, strings[8].clone());
    tree.set_item(40, strings[9].clone());
    tree.set_item(45, strings[10].clone());

    tree.set_item(0, strings[11].clone());
    tree.set_item(1, strings[12].clone());
    tree.set_item(50, strings[13].clone());
    tree.set_item(55, strings[14].clone());

    let values: Vec<String> = vec![
        "H", "L", "B",
        "F", "A", "E",
        "G", "T",
        "Q", "A",
        "F", "V",
        "V", "Alpha", "Omega"
    ].iter().map(|d| d.to_string()).collect();


    let iterate = tree.iterate_through();
    assert_eq!(iterate.len(), values.len());
    for (left, right) in values.iter().zip(iterate) {
        assert_eq!(*left, right);
    }
}

#[test]
fn delete_one_leaf() {
    let mut tree = BTree::new();
    let strings: Vec<String> = vec![
        String::from("E"),
        String::from("F"),
        String::from("T"),
        String::from("Q")
    ];


    tree.set_item(9, strings[0].clone());
    tree.set_item(10, strings[1].clone());
    tree.set_item(12, strings[2].clone());
    tree.set_item(23, strings[3].clone());
    // assert_eq!(tree.get_num_elements(), 4);
    assert_eq!(tree.get_depth(), 1);
    assert_eq!(tree.get_item(9), Some(strings[0].clone()));
    assert_eq!(tree.get_item(10), Some(strings[1].clone()));
    assert_eq!(tree.get_item(11), None);
    assert_eq!(tree.get_item(12), Some(strings[2].clone()));
    assert_eq!(tree.get_item(23), Some(strings[3].clone()));

    tree.remove(9);
    tree.remove(10);
    tree.remove(12);
    tree.remove(23);

    assert_eq!(tree.get_depth(), 0);
    assert_eq!(tree.get_item(9), None);
    assert_eq!(tree.get_item(10), None);
    assert_eq!(tree.get_item(12), None);
    assert_eq!(tree.get_item(23), None);
}


#[test]
fn delete_no_merge() {
    let mut tree = BTree::new();
    let strings: Vec<String> = vec![
        String::from("E"),
        String::from("G"),
        String::from("T"),
        String::from("Q"),
        String::from("F")
    ];


    tree.set_item(9, strings[0].clone());
    tree.set_item(10, strings[1].clone());
    tree.set_item(12, strings[2].clone());
    tree.set_item(23, strings[3].clone());
    tree.set_item(5, strings[4].clone());
    // assert_eq!(tree.get_num_elements(), 4);
    tree.remove(12);
    assert_eq!(tree.get_depth(), 2);
    assert_eq!(tree.get_item(9), Some(strings[0].clone()));
    assert_eq!(tree.get_item(23), Some(strings[3].clone()));
    assert_eq!(tree.get_item(12), None);
}

#[test]
fn delete_one_from_far_left_no_merge() {
    let mut tree = BTree::new();
    let strings: Vec<String> = vec![
        String::from("E"),
        String::from("G"),
        String::from("T"),
        String::from("Q"),
        String::from("F")
    ];


    tree.set_item(9, strings[0].clone());
    tree.set_item(10, strings[1].clone());
    tree.set_item(12, strings[2].clone());
    tree.set_item(23, strings[3].clone());
    tree.set_item(5, strings[4].clone());
    // assert_eq!(tree.get_num_elements(), 4);
    assert_eq!(tree.get_item(5), Some(strings[4].clone()));
    tree.remove(5);
    assert_eq!(tree.get_depth(), 2);
    assert_eq!(tree.get_item(9), Some(strings[0].clone()));
    assert_eq!(tree.get_item(23), Some(strings[3].clone()));
    assert_eq!(tree.get_item(12), Some(strings[2].clone()));
    assert_eq!(tree.get_item(5), None);
}

#[test]
fn delete_two_from_far_left_with_merge() {
    let mut tree = BTree::new();
    let strings: Vec<String> = vec![
        String::from("E"),
        String::from("G"),
        String::from("T"),
        String::from("Q"),
        String::from("F")
    ];

    tree.set_item(9, strings[0].clone());
    tree.set_item(10, strings[1].clone());
    tree.set_item(12, strings[2].clone());
    tree.set_item(23, strings[3].clone());
    tree.set_item(5, strings[4].clone());
    // assert_eq!(tree.get_num_elements(), 4);
    assert_eq!(tree.get_item(5), Some(strings[4].clone()));
    assert_eq!(tree.get_item(9), Some(strings[0].clone()));
    tree.remove(5);
    tree.remove(9);
    assert_eq!(tree.get_depth(), 1);
    assert_eq!(tree.get_item(9), None);
    assert_eq!(tree.get_item(23), Some(strings[3].clone()));
    assert_eq!(tree.get_item(12), Some(strings[2].clone()));
    assert_eq!(tree.get_item(5), None);
}

#[test]
fn something_i_found() {
    let mut tree = BTree::new();
    let strings: Vec<String> = vec![
        String::from("E"),
        String::from("G"),
        String::from("T"),
        String::from("Q"),
        String::from("F"),
        String::from("B"),
        String::from("A"),
        String::from("A"),
        String::from("F"),
        String::from("V"),
        String::from("V"),
        String::from("H"),
        String::from("L"),
        String::from("Alpha"),
        String::from("Omega"),
    ];

    tree.set_item(9, strings[0].clone());
    tree.set_item(10, strings[1].clone());
    tree.set_item(12, strings[2].clone());
    tree.set_item(23, strings[3].clone());
    tree.set_item(5, strings[4].clone());
    tree.set_item(2, strings[5].clone());
    tree.set_item(7, strings[6].clone());
    tree.set_item(38, strings[7].clone());
    tree.set_item(39, strings[8].clone());
    tree.set_item(40, strings[9].clone());
    tree.set_item(45, strings[10].clone());

    tree.set_item(0, strings[11].clone());
    tree.set_item(1, strings[12].clone());
    tree.set_item(50, strings[13].clone());
    tree.set_item(55, strings[14].clone());

    println!("{}", tree.render());
    tree.remove(5);
    tree.remove(9);
    println!("{}", tree.render());
    tree.remove(10);
    tree.remove(7);
    println!("{}", tree.render());
    tree.set_item(22, "A".to_string());
}
