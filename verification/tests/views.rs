use pandora_core::compound::NBTCompound;
use pandora_core::node::NBTNode;
use pandora_core::reference_mut::NBTRefMut;
use pandora_core::tag::TagType;
use pandora_core::tree::NBT;

fn tree() -> (NBT, usize, usize) {
    let mut t = NBT::new();
    let root = t.root_handle();
    t.insert_node(root, "n", NBTNode::Int(1)).unwrap();
    t.insert_node(root, "s", NBTNode::String("old".to_string())).unwrap();
    let list = t
        .insert_node(root, "l", NBTNode::List { type_id: TagType(0), children: Vec::new() })
        .unwrap();
    t.append_node(list, NBTNode::Byte(1)).unwrap();
    t.append_node(list, NBTNode::Byte(2)).unwrap();
    (t, root, list)
}

#[test]
fn a_payload_is_changed_in_place() {
    let (mut t, root, _) = tree();
    let n = t.find_idx(root, "n").unwrap();
    match t.get_reference_mut(n) {
        NBTRefMut::Int(x) => *x += 41,
        _ => panic!("no int"),
    }
    assert_eq!(t.find_idx(root, "n"), Some(n));
    assert_eq!(t.len(), 6);
    assert_eq!(t.to_snbt(), "{\"\":{\"l\":[1b,2b],\"n\":42i,\"s\":\"old\"}}");
}

#[test]
fn views_reach_payloads_by_name_and_by_position() {
    let (mut t, _, _) = tree();
    {
        let mut c = t.as_compound_mut().unwrap();
        match c.find_mut("s") {
            Some(NBTRefMut::String(s)) => s.push_str("er"),
            _ => panic!("no string"),
        }
        assert!(c.find_mut("missing").is_none());
        match c.find_mut("l") {
            Some(NBTRefMut::List(mut l)) => {
                match l.get_mut(1) {
                    Some(NBTRefMut::Byte(x)) => *x = -2,
                    _ => panic!("no byte"),
                }
                assert!(l.get_mut(2).is_none());
                assert_eq!(l.insert_node(NBTNode::Byte(3)).is_some(), true);
                assert_eq!(l.insert_node(NBTNode::Int(3)), None);
                assert!(l.set_node_at(0, NBTNode::Byte(9)).is_some());
                assert_eq!(l.set_node_at(7, NBTNode::Byte(9)), None);
                assert_eq!(l.remove_at(1), 1);
                assert_eq!(l.remove_at(7), 0);
            },
            _ => panic!("no list"),
        }
    }
    assert_eq!(t.to_snbt(), "{\"\":{\"l\":[9b,3b],\"n\":1i,\"s\":\"older\"}}");
    match t.as_reference_mut() {
        NBTRefMut::Compound(mut c) => {
            assert_eq!(c.find_idx("n").is_some(), true);
            assert_eq!(c.remove("n"), 1);
        },
        _ => panic!("the root is no compound"),
    }
    assert_eq!(t.to_snbt(), "{\"\":{\"l\":[9b,3b],\"s\":\"older\"}}");
}

#[test]
fn a_payload_gives_way_to_one_of_its_kind_only() {
    let (mut t, root, list) = tree();
    let n = t.find_idx(root, "n").unwrap();
    assert!(t.set_value(n, NBTNode::Int(7)));
    assert!(!t.set_value(n, NBTNode::Long(7)));
    assert!(!t.set_value(list, NBTNode::List { type_id: TagType(1), children: Vec::new() }));
    assert!(!t.set_value(99, NBTNode::Int(7)));
    let e = t.insert_node(root, "e", NBTNode::Compound(NBTCompound::new())).unwrap();
    assert!(t.set_value(e, NBTNode::Compound(NBTCompound::new())));
    assert_eq!(t.to_snbt(), "{\"\":{\"e\":{},\"l\":[1b,2b],\"n\":7i,\"s\":\"old\"}}");
}
