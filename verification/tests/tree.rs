use pandora_core::compound::NBTCompound;
use pandora_core::decode::decode;
use pandora_core::node::NBTNode;
use pandora_core::reference::NBTRef;
use pandora_core::tag::{TagType, TAG_COMPOUND_ID, TAG_INT_ID, TAG_LIST_ID};
use pandora_core::tree::NBT;

fn empty_list(kind: u8) -> NBTNode {
    NBTNode::List { type_id: TagType(kind), children: Vec::new() }
}

fn empty_compound() -> NBTNode {
    NBTNode::Compound(NBTCompound::new())
}

#[test]
fn a_new_tree_is_one_empty_compound() {
    let t = NBT::new();
    assert_eq!(t.len(), 1);
    assert_eq!(t.root_name, "");
    assert_eq!(t.get_type(t.root_handle()), Some(TagType(TAG_COMPOUND_ID)));
    assert_eq!(t.child_count(t.root_handle()), Some(0));
    let named = NBT::new_named("level".to_string());
    assert_eq!(named.root_name, "level");
    assert!(t.same_as(&named));
}

#[test]
fn insert_overwrites_and_keeps_one_entry() {
    let mut t = NBT::new();
    let root = t.root_handle();
    let first = t.insert_node(root, "k", NBTNode::Int(1)).unwrap();
    assert_eq!(t.len(), 2);
    let second = t.insert_node(root, "k", NBTNode::Int(2)).unwrap();
    assert_eq!(t.len(), 2);
    assert_eq!(t.child_count(root), Some(1));
    assert_eq!(t.find_idx(root, "k"), Some(second));
    assert!(matches!(t.get_node(second), Some(NBTNode::Int(2))));
    let third = t.insert_node(root, "k", NBTNode::String("x".to_string())).unwrap();
    assert_eq!(t.child_count(root), Some(1));
    assert!(matches!(t.get_node(third), Some(NBTNode::String(_))));
    let _ = first;
}

#[test]
fn insert_keeps_names_sorted() {
    let mut t = NBT::new();
    let root = t.root_handle();
    for name in ["pear", "apple", "zebra", "mango", "", "apple2"] {
        t.insert_node(root, name, NBTNode::Byte(0)).unwrap();
    }
    t.remove(root, "mango");
    t.insert_node(root, "banana", NBTNode::Byte(0)).unwrap();
    let names: Vec<String> = match t.get_node(root).unwrap() {
        NBTNode::Compound(c) => (0..c.len()).map(|i| c.key_at(i).to_string()).collect(),
        _ => panic!("the root is no compound"),
    };
    assert_eq!(names, vec!["", "apple", "apple2", "banana", "pear", "zebra"]);
}

#[test]
fn insert_into_what_is_no_compound_does_nothing() {
    let mut t = NBT::new();
    let root = t.root_handle();
    let leaf = t.insert_node(root, "a", NBTNode::Int(1)).unwrap();
    assert_eq!(t.insert_node(leaf, "b", NBTNode::Int(2)), None);
    assert_eq!(t.insert_node(97, "b", NBTNode::Int(2)), None);
    assert_eq!(t.len(), 2);
    assert_eq!(t.find_idx(leaf, "b"), None);
    assert_eq!(t.find_idx(root, "missing"), None);
}

#[test]
fn removal_frees_the_whole_subtree() {
    let mut t = NBT::new();
    let root = t.root_handle();
    let outer = t.insert_node(root, "outer", empty_compound()).unwrap();
    let list = t.insert_node(outer, "list", empty_list(0)).unwrap();
    for i in 0..5 {
        let item = t.append_node(list, empty_compound()).unwrap();
        t.insert_node(item, "n", NBTNode::Int(i)).unwrap();
    }
    t.insert_node(root, "keep", NBTNode::Long(7)).unwrap();
    let before = t.len();
    assert_eq!(before, 1 + 1 + 1 + 10 + 1);
    let removed = t.remove(root, "outer");
    assert_eq!(removed, 12);
    assert_eq!(t.len() + removed, before);
    assert!(!t.contains(outer));
    assert!(!t.contains(list));
    assert_eq!(t.find_idx(root, "outer"), None);
    assert!(t.find_idx(root, "keep").is_some());
    assert_eq!(t.remove(root, "outer"), 0);
}

#[test]
fn freed_slots_are_used_again() {
    let mut t = NBT::new();
    let root = t.root_handle();
    let a = t.insert_node(root, "a", NBTNode::Int(1)).unwrap();
    t.remove(root, "a");
    let b = t.insert_node(root, "b", NBTNode::Int(2)).unwrap();
    assert_eq!(a, b);
    assert_eq!(t.len(), 2);
}

#[test]
fn a_list_holds_one_kind() {
    let mut t = NBT::new();
    let root = t.root_handle();
    let list = t.insert_node(root, "l", empty_list(0)).unwrap();
    let first = t.append_node(list, NBTNode::Int(1)).unwrap();
    assert_eq!(t.append_node(list, NBTNode::Byte(2)), None);
    let second = t.append_node(list, NBTNode::Int(3)).unwrap();
    assert_eq!(t.get(list, 0), Some(first));
    assert_eq!(t.get(list, 1), Some(second));
    assert_eq!(t.get(list, 2), None);
    assert_eq!(t.child_count(list), Some(2));
    match t.get_node(list).unwrap() {
        NBTNode::List { type_id, .. } => assert_eq!(*type_id, TagType(TAG_INT_ID)),
        _ => panic!("no list"),
    }
    assert_eq!(t.get_type(list), Some(TagType(TAG_LIST_ID)));
}

#[test]
fn setting_an_element_out_of_range_fails_for_every_kind() {
    let kinds: Vec<NBTNode> = vec![
        NBTNode::Byte(1),
        NBTNode::Short(1),
        NBTNode::Int(1),
        NBTNode::Long(1),
        NBTNode::Float(1.5f32.to_bits()),
        NBTNode::Double(1.5f64.to_bits()),
        NBTNode::ByteArray(vec![1]),
        NBTNode::String("s".to_string()),
        NBTNode::IntArray(vec![1]),
        NBTNode::LongArray(vec![1]),
    ];
    for node in kinds {
        let mut t = NBT::new();
        let root = t.root_handle();
        let list = t.insert_node(root, "l", empty_list(0)).unwrap();
        let again = match &node {
            NBTNode::Byte(x) => NBTNode::Byte(*x),
            NBTNode::Short(x) => NBTNode::Short(*x),
            NBTNode::Int(x) => NBTNode::Int(*x),
            NBTNode::Long(x) => NBTNode::Long(*x),
            NBTNode::Float(x) => NBTNode::Float(*x),
            NBTNode::Double(x) => NBTNode::Double(*x),
            NBTNode::ByteArray(x) => NBTNode::ByteArray(x.clone()),
            NBTNode::String(x) => NBTNode::String(x.clone()),
            NBTNode::IntArray(x) => NBTNode::IntArray(x.clone()),
            NBTNode::LongArray(x) => NBTNode::LongArray(x.clone()),
            _ => panic!("no container here"),
        };
        t.append_node(list, node).unwrap();
        assert_eq!(t.set_node_at(list, 1, again), None);
        assert_eq!(t.len(), 3);
    }
}

#[test]
fn set_and_remove_by_position() {
    let mut t = NBT::new();
    let root = t.root_handle();
    let list = t.insert_node(root, "l", empty_list(0)).unwrap();
    for i in 0..4 {
        t.append_node(list, NBTNode::Int(i)).unwrap();
    }
    let c = t.set_node_at(list, 1, NBTNode::Int(10)).unwrap();
    assert_eq!(t.get(list, 1), Some(c));
    assert_eq!(t.set_node_at(list, 1, NBTNode::Long(10)), None);
    assert_eq!(t.remove_at(list, 0), 1);
    assert_eq!(t.remove_at(list, 9), 0);
    let front = t.insert_node_at(list, 0, NBTNode::Int(-1)).unwrap();
    assert_eq!(t.get(list, 0), Some(front));
    assert_eq!(t.insert_node_at(list, 9, NBTNode::Int(0)), None);
    assert_eq!(t.to_snbt(), "{\"\":{\"l\":[-1i,10i,2i,3i]}}");
}

#[test]
fn structural_equality_ignores_handles() {
    let mut a = NBT::new();
    let ra = a.root_handle();
    a.insert_node(ra, "x", NBTNode::Int(1)).unwrap();
    a.insert_node(ra, "y", NBTNode::String("s".to_string())).unwrap();
    let mut b = NBT::new();
    let rb = b.root_handle();
    b.insert_node(rb, "y", NBTNode::String("s".to_string())).unwrap();
    b.insert_node(rb, "junk", NBTNode::Int(0)).unwrap();
    b.insert_node(rb, "x", NBTNode::Int(1)).unwrap();
    b.remove(rb, "junk");
    assert_ne!(a.find_idx(ra, "x"), b.find_idx(rb, "x"));
    assert!(a.same_as(&b));
    assert!(a == b);
    b.insert_node(rb, "x", NBTNode::Int(2)).unwrap();
    assert!(!a.same_as(&b));
    assert!(a != b);
    b.insert_node(rb, "x", NBTNode::Long(1)).unwrap();
    assert!(!a.same_as(&b));
    assert!(a != b);
}

#[test]
fn views_show_the_tree() {
    let mut t = NBT::new();
    let root = t.root_handle();
    t.insert_node(root, "n", NBTNode::Short(5)).unwrap();
    let list = t.insert_node(root, "l", empty_list(0)).unwrap();
    t.append_node(list, NBTNode::String("a".to_string())).unwrap();
    let c = t.as_compound().unwrap();
    assert_eq!(c.len(), 2);
    assert!(matches!(c.find("n"), Some(NBTRef::Short(5))));
    assert!(c.find("missing").is_none());
    match c.find("l") {
        Some(NBTRef::List(l)) => {
            assert_eq!(l.len(), 1);
            assert_eq!(l.children_type, TagType(8));
            match l.get(0) {
                Some(NBTRef::String(s)) => assert_eq!(s.as_str(), "a"),
                _ => panic!("no string"),
            }
            assert!(l.get(1).is_none());
        },
        _ => panic!("no list"),
    }
    assert!(matches!(t.as_reference(), NBTRef::Compound(_)));
}

#[test]
fn exclusive_views_change_the_tree() {
    let mut t = NBT::new();
    {
        let mut c = t.as_compound_mut().unwrap();
        c.insert_node("a", NBTNode::Int(1));
        c.insert_node("inner", empty_compound());
        let mut inner = c.find_compound_mut("inner").unwrap();
        inner.insert_node("b", NBTNode::Byte(2));
        assert!(c.find_compound_mut("a").is_none());
        assert_eq!(c.remove("a"), 1);
    }
    assert_eq!(t.to_snbt(), "{\"\":{\"inner\":{\"b\":2b}}}");
}

#[test]
fn decoding_keeps_the_last_of_two_equal_names() {
    let bytes = [10, 0, 0, 1, 0, 1, b'a', 5, 1, 0, 1, b'a', 6, 0];
    let t = decode(&bytes).ok().unwrap();
    assert_eq!(t.len(), 2);
    assert_eq!(t.to_snbt(), "{\"\":{\"a\":6b}}");
}

#[test]
fn a_duplicate_is_equal_and_apart() {
    let mut t = NBT::new_named("doc".to_string());
    let root = t.root_handle();
    let inner = t.insert_node(root, "inner", empty_compound()).unwrap();
    t.insert_node(inner, "x", NBTNode::IntArray(vec![1, 2, 3])).unwrap();
    let list = t.insert_node(inner, "l", empty_list(0)).unwrap();
    t.append_node(list, NBTNode::String("a".to_string())).unwrap();
    t.append_node(list, NBTNode::String("b".to_string())).unwrap();
    t.insert_node(root, "none", empty_list(5)).unwrap();
    let mut copy = t.duplicate();
    assert_eq!(copy.root_name, "doc");
    assert!(t.same_as(&copy));
    assert_eq!(copy.len(), t.len());
    assert_eq!(copy.to_snbt(), t.to_snbt());
    assert_eq!(copy.encode(), t.encode());
    let r = copy.root_handle();
    copy.remove(r, "inner");
    assert!(!t.same_as(&copy));
    assert_eq!(t.len(), 7);
    assert_eq!(copy.len(), 2);
}

#[test]
fn a_subtree_is_copied_into_another_tree() {
    let mut from = NBT::new();
    let root = from.root_handle();
    let inner = from.insert_node(root, "inner", empty_compound()).unwrap();
    from.insert_node(inner, "x", NBTNode::Byte(1)).unwrap();
    let mut to = NBT::new();
    let r = to.root_handle();
    let list = to.insert_node(r, "l", empty_list(0)).unwrap();
    from.copy_into(inner, &mut to, list, None);
    from.copy_into(inner, &mut to, list, None);
    from.copy_into(inner, &mut to, r, Some("again"));
    assert_eq!(to.to_snbt(), "{\"\":{\"again\":{\"x\":1b},\"l\":[{\"x\":1b},{\"x\":1b}]}}");
    assert_eq!(to.len(), 8);
    assert_eq!(from.len(), 3);
}

#[test]
fn equality_looks_all_the_way_down() {
    let build = |last: i32| {
        let mut t = NBT::new();
        let mut at = t.root_handle();
        for _ in 0..50 {
            at = t.insert_node(at, "deeper", empty_compound()).unwrap();
        }
        let list = t.insert_node(at, "l", empty_list(0)).unwrap();
        t.append_node(list, NBTNode::Int(1)).unwrap();
        t.append_node(list, NBTNode::Int(last)).unwrap();
        t
    };
    assert!(build(2) == build(2));
    assert!(build(2) != build(3));
    assert!(build(2).eq_bounded(0, &build(2), 0, 52));
    assert!(!build(2).eq_bounded(0, &build(2), 0, 51));
    assert!(NBT::new() == NBT::new_named("other name".to_string()));
}

#[test]
fn a_node_that_owns_another_is_not_taken() {
    let mut t = NBT::new();
    let root = t.root_handle();
    let a = t.insert_node(root, "a", NBTNode::Int(1)).unwrap();
    let list = t.insert_node(root, "l", empty_list(9)).unwrap();
    let owner = || NBTNode::List { type_id: TagType(3), children: vec![1] };
    assert!(!owner().owns_nothing());
    assert!(empty_list(3).owns_nothing());
    assert!(NBTNode::Int(1).owns_nothing());
    assert_eq!(t.insert_node(root, "bad", owner()), None);
    assert_eq!(t.append_node(list, owner()), None);
    assert_eq!(t.insert_node_at(list, 0, owner()), None);
    t.append_node(list, empty_list(0)).unwrap();
    assert_eq!(t.set_node_at(list, 0, owner()), None);
    let mut filled = NBTCompound::new();
    filled.insert("x", a);
    assert_eq!(t.insert_node(root, "bad", NBTNode::Compound(filled)), None);
    assert!(!t.set_value(a, owner()));
    assert_eq!(t.len(), 4);
    assert_eq!(t.to_snbt(), "{\"\":{\"a\":1i,\"l\":[[]]}}");
}
