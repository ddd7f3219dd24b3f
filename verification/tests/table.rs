use olive::table::Table;

#[test]
fn table_test_all() {
    let mut table = Table::new();
    assert_eq!(table.len(), 0);

    assert_eq!(table.put("a"), 1);
    assert_eq!(table.put("b"), 2);

    assert_eq!(table.put("a"), 1);
    assert_eq!(table.put("b"), 2);

    assert_eq!(table.len(), 2);

    assert_eq!(table.get(&1), Some(&"a"));
    assert_eq!(table.get(&2), Some(&"b"));
    assert_eq!(table.get(&3), None);

    table.clear();
    assert_eq!(table.len(), 0);

    assert_eq!(table.get(&1), None);
    assert_eq!(table.get(&2), None);
    assert_eq!(table.get(&3), None);
}

#[test]
fn indices_grow_and_are_not_given_twice() {
    let mut table: Table<String> = Table::new();
    assert_eq!(table.put(String::from("a")), 1);
    assert_eq!(table.put(String::from("b")), 2);
    assert_eq!(table.put(String::from("c")), 3);
    assert_eq!(table.put(String::from("b")), 2);
    assert!(table.contains(&String::from("b")));
    table.remove(&String::from("b"));
    assert!(!table.contains(&String::from("b")));
    assert_eq!(table.get(&2), None);
    assert_eq!(table.size(), 2);
    assert_eq!(table.put(String::from("d")), 4);
    assert_eq!(table.put(String::from("b")), 5);
    assert_eq!(table.put(String::from("a")), 1);
    assert_eq!(table.get(&5), Some(&String::from("b")));
    table.remove(&String::from("x"));
    assert_eq!(table.len(), 4);
    let mut seen: Vec<(usize, String)> = Vec::new();
    let mut entries = table.iter();
    while let Some((index, value)) = entries.next() {
        seen.push((*index, value.clone()));
    }
    seen.sort();
    assert_eq!(
        seen,
        vec![
            (1, String::from("a")),
            (3, String::from("c")),
            (4, String::from("d")),
            (5, String::from("b")),
        ]
    );
}

#[test]
fn copy_is_a_table_of_its_own() {
    let mut table = Table::new();
    assert_eq!(table.size(), 0);

    table.put("a");
    table.put("b");
    assert_eq!(table.size(), 2);

    assert_eq!(table.get(&1), Some(&"a"));
    assert_eq!(table.get(&2), Some(&"b"));
    assert_eq!(table.get(&3), None);

    table.remove(&"a");
    assert!(!table.contains(&"a"));
    assert_eq!(table.size(), 1);

    assert_eq!(table.put("a"), 3);
    assert_eq!(table.get(&3), Some(&"a"));
    assert_eq!(table.get(&2), Some(&"b"));

    let mut table2 = table.clone();
    table2.remove(&"a");

    assert_eq!(table2.size(), 1);
    assert_eq!(table.size(), 2);

    assert!(table.contains(&"a"));
    assert!(table2.contains(&"b"));
    assert_eq!(table2.put("c"), 4);
    assert_eq!(table.put("d"), 4);

    table.clear();
    assert_eq!(table.size(), 0);
    assert_eq!(table2.size(), 2);
}
