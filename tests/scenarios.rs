use art::nodes::Shrunk;
use art::{
    Art, InlineStorage, Key, KeyPrefixError, LeafNode, PostfixedBytes, Node4, NodeBody, NodeData, NodeHeader, NodeHeaderData, NodeKind,
    NodePtr, RawArt,
};

fn leaf(key: &[u8], v: u32) -> NodePtr<u32> {
    NodePtr::new(NodeBody::Leaf(LeafNode::new(key, 0, v)))
}

fn kind_of<V>(b: &NodeBody<V>) -> NodeKind {
    b.header().kind()
}

#[test]
fn replacement_returns_old() {
    let mut tree = Art::<str, i32>::new();
    assert_eq!(tree.insert("a", 1), None);
    assert_eq!(tree.insert("a", 2), Some(1));
    assert_eq!(tree.get("a"), Some(&2));
    assert_eq!(tree.len(), 1);
}

#[test]
fn integer_sequence_any_order() {
    let mut tree = Art::<u64, u64>::new();
    for i in 0..100000u64 {
        assert_eq!(tree.insert(&i, i), None);
    }
    assert_eq!(tree.len(), 100000);
    let mut order: Vec<u64> = (0..100000u64).collect();
    let mut state: u64 = 0x9E37_79B9_7F4A_7C15;
    for i in (1..order.len()).rev() {
        state ^= state << 13;
        state ^= state >> 7;
        state ^= state << 17;
        let j = (state % (i as u64 + 1)) as usize;
        order.swap(i, j);
    }
    for k in order {
        assert_eq!(tree.get(&k), Some(&k));
    }
}

#[test]
fn grow_then_shrink() {
    let mut tree = Art::<u64, u64>::new();
    for i in 0..255u64 {
        let k = i << 24;
        tree.insert(&k, k);
    }
    for i in 0..255u64 {
        let k = i << 40;
        tree.insert(&k, k);
    }
    for i in 0..255u64 {
        let k = i << 24;
        if i == 0 {
            // 0 << 24 and 0 << 40 are the same key: it stays in the second set.
            continue;
        }
        assert_eq!(tree.remove(&k), Some(k));
    }
    assert_eq!(tree.len(), 255);
    for i in 0..255u64 {
        let k = i << 40;
        assert_eq!(tree.get(&k), Some(&k));
    }
    for i in 1..255u64 {
        assert_eq!(tree.get(&(i << 24)), None);
    }
}

#[test]
fn fold_leaves_single_leaf() {
    let mut tree = RawArt::new();
    tree.insert(b"abc1", 1);
    tree.insert(b"abc2", 2);
    tree.insert(b"abc3", 3);
    assert_eq!(kind_of(tree.root().unwrap().as_body()), NodeKind::Node4);
    assert_eq!(tree.remove(b"abc1"), Some(1));
    assert_eq!(tree.remove(b"abc3"), Some(3));
    let root = tree.root().unwrap().as_body();
    assert_eq!(kind_of(root), NodeKind::Leaf);
    assert_eq!(root.header().prefix(), b"abc2");
    assert_eq!(tree.get(b"abc2"), Some(&2));
}

#[test]
fn split_mid_prefix() {
    let mut tree = RawArt::new();
    tree.insert(b"hello world", 1);
    tree.insert(b"hello moon!", 2);
    tree.insert(b"hexagon....", 3);
    let root = tree.root().unwrap().as_body();
    assert_eq!(kind_of(root), NodeKind::Node4);
    assert_eq!(root.header().prefix(), b"he");
    let low = root.get(b'l').unwrap().as_body();
    assert_eq!(low.header().prefix(), b"lo ");
    let x = root.get(b'x').unwrap().as_body();
    assert_eq!(kind_of(x), NodeKind::Leaf);
    assert_eq!(x.header().prefix(), b"agon....");
    assert_eq!(tree.get(b"hello world"), Some(&1));
    assert_eq!(tree.get(b"hello moon!"), Some(&2));
    assert_eq!(tree.get(b"hexagon...."), Some(&3));
}

#[test]
fn long_prefix_is_kept() {
    let mut tree = Art::<str, usize>::new();
    let long = "a prefix much longer than the eight bytes a header keeps inline, twice over";
    tree.insert(long, 1);
    tree.insert("a prefix much longer than the eight bytes a header keeps inline, twice!", 2);
    assert_eq!(tree.get(long), Some(&1));
    assert_eq!(
        tree.get("a prefix much longer than the eight bytes a header keeps inline, twice!"),
        Some(&2)
    );
    assert_eq!(tree.get("a prefix much longer"), None);
}

#[test]
fn grow_at_boundaries() {
    let n4 = Node4::new_split(&[], 0, 0, (1, leaf(&[1], 1)), (2, leaf(&[2], 2)));
    let mut body = n4.insert(3, leaf(&[3], 3));
    body = match body {
        NodeBody::Node4(n) => n.insert(4, leaf(&[4], 4)),
        _ => panic!("expected a Node4"),
    };
    assert_eq!(kind_of(&body), NodeKind::Node4);
    body = body.insert_child(5, leaf(&[5], 5));
    assert_eq!(kind_of(&body), NodeKind::Node16);
    for b in 6..=16u8 {
        body = body.insert_child(b, leaf(&[b], b as u32));
        assert_eq!(kind_of(&body), NodeKind::Node16);
    }
    body = body.insert_child(17, leaf(&[17], 17));
    assert_eq!(kind_of(&body), NodeKind::Node48);
    for b in 18..=48u8 {
        body = body.insert_child(b, leaf(&[b], b as u32));
        assert_eq!(kind_of(&body), NodeKind::Node48);
    }
    body = body.insert_child(49, leaf(&[49], 49));
    assert_eq!(kind_of(&body), NodeKind::Node256);
    assert_eq!(body.header().data().len, 48);
    for b in 1..=49u8 {
        assert!(body.has_child(b));
    }
    assert!(!body.has_child(50));
}

#[test]
fn shrink_at_boundaries() {
    let n4 = Node4::new_split(&[], 0, 0, (1, leaf(&[1], 1)), (2, leaf(&[2], 2)));
    let mut body = NodeBody::Node4(n4);
    for b in 3..=49u8 {
        body = body.insert_child(b, leaf(&[b], b as u32));
    }
    assert_eq!(kind_of(&body), NodeKind::Node256);
    let mut next = 49u8;
    let expect = |left: u8| {
        if left >= 49 {
            NodeKind::Node256
        } else if left >= 17 {
            NodeKind::Node48
        } else if left >= 5 {
            NodeKind::Node16
        } else {
            NodeKind::Node4
        }
    };
    while next > 2 {
        let (shrunk, removed) = body.remove_child(next);
        assert_eq!(*removed.as_body().header().prefix(), [next]);
        body = match shrunk {
            Shrunk::Node(n) => n,
            Shrunk::Single(..) => panic!("folded too early"),
        };
        next -= 1;
        assert_eq!(kind_of(&body), expect(next));
    }
    let (shrunk, _) = body.remove_child(2);
    match shrunk {
        Shrunk::Single(_, b, c) => {
            assert_eq!(b, 1);
            assert_eq!(c.as_body().header().prefix(), &[1]);
        }
        Shrunk::Node(_) => panic!("a Node4 with one child must fold"),
    }
}

#[test]
fn next_child_in_order() {
    let n4 = Node4::new_split(&[], 0, 0, (10, leaf(&[10], 10)), (200, leaf(&[200], 200)));
    let mut body = NodeBody::Node4(n4);
    assert_eq!(body.next_child_after(0).map(|(b, _)| b), Some(10));
    assert_eq!(body.next_child_after(11).map(|(b, _)| b), Some(200));
    assert_eq!(body.next_child_after(201).map(|(b, _)| b), None);
    for b in 20..70u8 {
        body = body.insert_child(b, leaf(&[b], b as u32));
    }
    assert_eq!(kind_of(&body), NodeKind::Node256);
    assert_eq!(body.next_child_after(11).map(|(b, _)| b), Some(20));
    assert_eq!(body.next_child_after(70).map(|(b, _)| b), Some(200));
    assert_eq!(body.next_child_after(201).map(|(b, _)| b), None);
}

#[test]
fn missing_keys() {
    let mut tree = Art::<str, i32>::new();
    assert!(tree.is_empty());
    assert_eq!(tree.get("missing"), None);
    assert_eq!(tree.remove("missing"), None);
    tree.insert("present", 1);
    assert!(!tree.is_empty());
    assert_eq!(tree.get("missing"), None);
    assert_eq!(tree.remove("missing"), None);
    assert_eq!(tree.remove("present"), Some(1));
    assert!(tree.is_empty());
    assert_eq!(tree.len(), 0);
}

#[test]
fn remove_in_reverse_empties() {
    let mut tree = Art::<u32, u32>::new();
    let keys: Vec<u32> = (0..1000u32).map(|i| i.wrapping_mul(2654435761)).collect();
    for k in &keys {
        tree.insert(k, *k);
    }
    for k in keys.iter().rev() {
        assert_eq!(tree.remove(k), Some(*k));
    }
    assert!(tree.is_empty());
}

#[test]
fn insert_order_does_not_matter() {
    let keys = ["alpha", "beta", "gamma", "delta", "alphabet", "be", "g"];
    let mut a = Art::<str, usize>::new();
    let mut b = Art::<str, usize>::new();
    for (i, k) in keys.iter().enumerate() {
        a.insert(k, i);
    }
    for (i, k) in keys.iter().enumerate().rev() {
        b.insert(k, i);
    }
    for (i, k) in keys.iter().enumerate() {
        assert_eq!(a.get(k), Some(&i));
        assert_eq!(b.get(k), Some(&i));
    }
}

#[test]
fn key_encodings() {
    assert_eq!("ab".as_key_bytes(), vec![b'a', b'b', 0xBF]);
    assert_eq!(0x0102_0304u32.as_key_bytes(), vec![1, 2, 3, 4]);
    assert_eq!(1u64.as_key_bytes(), vec![0, 0, 0, 0, 0, 0, 0, 1]);
    assert_eq!((-1i32).as_key_bytes(), vec![0x7F, 0xFF, 0xFF, 0xFF]);
    assert_eq!(0i16.as_key_bytes(), vec![0x80, 0]);
    assert!((-5i64).as_key_bytes() < 3i64.as_key_bytes());
    assert_eq!(7u8.as_key_bytes(), vec![7]);
}

#[test]
fn signed_keys_in_order() {
    let mut tree = Art::<i64, i64>::new();
    for k in [-3i64, 5, i64::MIN, i64::MAX, 0] {
        tree.insert(&k, k * 2);
    }
    for k in [-3i64, 5, 0] {
        assert_eq!(tree.get(&k), Some(&(k * 2)));
    }
    assert_eq!(tree.get(&1), None);
}

#[test]
fn get_mut_changes_value() {
    let mut tree = Art::<str, i32>::new();
    tree.insert("k", 1);
    tree.insert("other", 2);
    *tree.get_mut("k").unwrap() += 5;
    assert_eq!(tree.get("k"), Some(&6));
    assert_eq!(tree.get("other"), Some(&2));
    assert!(tree.get_mut("missing").is_none());
    assert_eq!(tree.len(), 2);
}

#[test]
fn prefix_storage_inline_or_spilled() {
    let data = NodeData { len: 0, kind: NodeKind::Leaf, free: 0 };
    let short = NodeHeader::new(b"abcdefgh", 0, 8, data);
    assert!(short.storage().is_inline());
    assert_eq!(short.prefix(), b"abcdefgh");
    let long = NodeHeader::new(b"abcdefghi", 0, 9, data);
    assert!(!long.storage().is_inline());
    assert_eq!(long.prefix(), b"abcdefghi");
    let dropped = long.copy_drop_prefix(3);
    assert!(dropped.storage().is_inline());
    assert_eq!(dropped.prefix(), b"defghi");
    let mut grown = NodeHeader::new(b"xyz", 1, 3, data);
    grown.prepend_prefix(b"abcdefg", b'!');
    assert_eq!(grown.prefix(), b"abcdefg!yz");
    assert!(!grown.storage().is_inline());
    let s = InlineStorage::store(b"hello", 1, 4, data);
    assert_eq!(s.prefix(), b"ell");
}

#[test]
fn header_bytes_round_trip() {
    let d = NodeData { len: 17, kind: NodeKind::Node48, free: 3 };
    let bytes = NodeHeaderData::encode(d);
    assert_eq!(bytes, NodeHeaderData { kind: 3, len: 17, free: 3 });
    assert_eq!(bytes.decode(), Some(d));
    assert_eq!(NodeHeaderData { kind: 9, len: 0, free: 0 }.decode(), None);
    assert_eq!(NodeHeaderData::leaf().kind(), Some(NodeKind::Leaf));
    assert_eq!(NodeHeaderData::new(2, NodeKind::Node4, 0).free(), 0);
    assert_eq!(NodeKind::from_u8(4), Some(NodeKind::Node256));
    assert_eq!(NodeKind::Node16.as_u8(), 2);
}

#[test]
fn raw_get_mut() {
    let mut tree = RawArt::new();
    tree.insert(b"ab", 1u8);
    tree.insert(b"cd", 2u8);
    if let Some(v) = tree.get_mut(b"cd") {
        *v = 9;
    }
    assert_eq!(tree.get(b"cd"), Some(&9));
    assert_eq!(tree.get(b"ab"), Some(&1));
    assert!(tree.get_mut(b"ef").is_none());
}

#[test]
fn prefix_conflicts_are_refused() {
    let mut tree = RawArt::new();
    tree.insert(b"abc", 1);
    assert!(tree.can_insert(b"abc"));
    assert!(!tree.can_insert(b"ab"));
    assert!(!tree.can_insert(b"abcd"));
    assert!(tree.can_insert(b"abd"));
    assert!(tree.can_insert(b"x"));
    tree.insert(b"abd", 2);
    assert!(!tree.can_insert(b"a"));
    assert!(!tree.can_insert(b"abde"));
    assert!(tree.can_insert(b"abe"));
}

#[test]
fn try_insert_reports_conflicts() {
    let mut tree = Art::<u64, u8>::new();
    assert_eq!(tree.try_insert(&5, 1), Ok(None));
    assert_eq!(tree.try_insert(&5, 2), Ok(Some(1)));
    assert_eq!(tree.get(&5), Some(&2));
    let mut text = Art::<str, u8>::new();
    assert_eq!(text.try_insert("a", 1), Ok(None));
    assert_eq!(text.try_insert("ab", 2), Ok(None));
    assert!(text.can_insert("abc"));
    assert_eq!(KeyPrefixError, KeyPrefixError);
    let mut shared = art::Aart::<str, u8>::new();
    shared.insert("key", 1);
    assert!(shared.can_insert("keys"));
    assert_eq!(shared.remove("key").map(|v| *v), Some(1));
    assert_eq!(shared.get("key"), None);
}

#[test]
fn string_basic() {
    let mut tree = Art::<str, i32>::new();
    let pairs = [
        ("hello world", 1),
        ("hello moon ", 2),
        ("h", 3),
        ("hello foo", 4),
        ("hello boo", 5),
        ("hello voo", 6),
        ("hello voa", 7),
        ("hello very long prefix that doesn't fit inline.", 8),
        ("hello world\0 null", 9),
    ];
    for (k, v) in pairs {
        assert_eq!(tree.insert(k, v), None);
    }
    for (k, v) in pairs {
        assert_eq!(tree.get(k), Some(&v));
    }
    assert_eq!(tree.get("missing"), None);
    assert_eq!(tree.remove("missing"), None);
    assert_eq!(tree.remove("hello voa"), Some(7));
    assert_eq!(tree.remove("hello voa"), None);
}

#[test]
fn terminated_byte_keys() {
    let mut tree: Art<PostfixedBytes<0>, u32> = Art::default();
    let a = PostfixedBytes::<0>::from_bytes(b"ab");
    let abc = PostfixedBytes::<0>::from_bytes(b"abc");
    assert_eq!(a.as_key_bytes(), vec![b'a', b'b', 0]);
    assert_eq!(a.as_bytes(), b"ab");
    tree.insert(&a, 1);
    assert!(tree.can_insert(&abc));
    tree.insert(&abc, 2);
    assert_eq!(tree.get(&a), Some(&1));
    assert_eq!(tree.get(&abc), Some(&2));
    assert_eq!(tree.len(), 2);
}

#[test]
fn defaults_are_empty() {
    let tree: RawArt<u8> = RawArt::default();
    assert!(tree.is_empty());
    assert!(tree.root().is_none());
    let shared: art::Aart<u32, u8> = art::Aart::default();
    assert_eq!(shared.get(&1), None);
    let raw_shared: art::RawAart<u8> = art::RawAart::default();
    assert_eq!(raw_shared.get(b"x"), None);
}
