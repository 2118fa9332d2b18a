use art::Aart;

#[test]
fn basic_insert_str() {
    let mut tree = Aart::new();
    tree.insert("hello there", 1);
}

#[test]
fn basic_insert_pod() {
    let mut tree = Aart::new();
    tree.insert(&22u64, 23);
}

#[test]
fn seq_insert_pod() {
    let mut tree = Aart::new();
    for i in 0..100000u64 {
        tree.insert(&i, i);
    }
}

#[test]
fn shared_snapshot_isolation() {
    let mut tree: Aart<str, i32> = Aart::new();
    tree.insert("a", 0);
    let s = tree.snapshot();
    tree.insert("x", 1);
    assert_eq!(s.get("x"), None);
    assert_eq!(tree.get("x"), Some(&1));
    drop(tree);
    assert_eq!(s.get("x"), None);
    assert_eq!(s.get("a"), Some(&0));
}
