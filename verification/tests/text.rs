use pandora_core::compound::NBTCompound;
use pandora_core::decode::decode;
use pandora_core::node::NBTNode;
use pandora_core::tag::TagType;
use pandora_core::tree::NBT;

fn sample() -> NBT {
    let mut t = NBT::new_named("root".to_string());
    let r = t.root_handle();
    t.insert_node(r, "byte", NBTNode::Byte(-128)).unwrap();
    t.insert_node(r, "short", NBTNode::Short(-2)).unwrap();
    t.insert_node(r, "int", NBTNode::Int(i32::MIN)).unwrap();
    t.insert_node(r, "long", NBTNode::Long(i64::MIN)).unwrap();
    t.insert_node(r, "float", NBTNode::Float(1.0f32.to_bits())).unwrap();
    t.insert_node(r, "double", NBTNode::Double((-2.5f64).to_bits())).unwrap();
    t.insert_node(r, "bytes", NBTNode::ByteArray(vec![1, -1])).unwrap();
    t.insert_node(r, "text", NBTNode::String("a\"b\\c".to_string())).unwrap();
    t.insert_node(r, "ints", NBTNode::IntArray(vec![10, -20, 0])).unwrap();
    t.insert_node(r, "longs", NBTNode::LongArray(vec![i64::MAX])).unwrap();
    let l = t
        .insert_node(r, "list", NBTNode::List { type_id: TagType(0), children: Vec::new() })
        .unwrap();
    let c = t.append_node(l, NBTNode::Compound(NBTCompound::new())).unwrap();
    t.insert_node(c, "k", NBTNode::Int(7)).unwrap();
    t.append_node(l, NBTNode::Compound(NBTCompound::new())).unwrap();
    t.insert_node(r, "none", NBTNode::List { type_id: TagType(3), children: Vec::new() }).unwrap();
    t
}

#[test]
fn compact_text_of_every_kind() {
    let expected = concat_all(&[
        "{\"root\":{",
        "\"byte\":-128b,",
        "\"bytes\":[B;1b,-1b],",
        "\"double\":0xc004000000000000d,",
        "\"float\":0x3f800000f,",
        "\"int\":-2147483648i,",
        "\"ints\":[I;10,-20,0],",
        "\"list\":[{\"k\":7i},{}],",
        "\"long\":-9223372036854775808l,",
        "\"longs\":[L;9223372036854775807l],",
        "\"none\":[],",
        "\"short\":-2s,",
        "\"text\":\"a\\\"b\\\\c\"",
        "}}",
    ]);
    assert_eq!(sample().to_snbt(), expected);
}

fn concat_all(parts: &[&str]) -> String {
    let mut s = String::new();
    for p in parts {
        s.push_str(p);
    }
    s
}

#[test]
fn text_for_reading_of_every_kind() {
    let expected = concat_all(&[
        "\"root\": Compound{\n",
        "  \"byte\": Byte(-128)\n",
        "  \"bytes\": ByteArray[1b,-1b]\n",
        "  \"double\": Double(0xc004000000000000)\n",
        "  \"float\": Float(0x3f800000)\n",
        "  \"int\": Int(-2147483648)\n",
        "  \"ints\": IntArray[10,-20,0]\n",
        "  \"list\": List<10>[\n",
        "    Compound{\n",
        "      \"k\": Int(7)\n",
        "    }\n",
        "    Compound{}\n",
        "  ]\n",
        "  \"long\": Long(-9223372036854775808)\n",
        "  \"longs\": LongArray[9223372036854775807l]\n",
        "  \"none\": List<3>[]\n",
        "  \"short\": Short(-2)\n",
        "  \"text\": String(\"a\\\"b\\\\c\")\n",
        "}\n",
    ]);
    assert_eq!(sample().to_pretty_debug(), expected);
}

#[test]
fn every_kind_survives_encoding_and_decoding() {
    let t = sample();
    let bytes = t.encode().unwrap();
    let back = decode(&bytes).ok().unwrap();
    assert_eq!(back.root_name, "root");
    assert!(t.same_as(&back));
    assert_eq!(back.len(), t.len());
    assert_eq!(back.encode().unwrap(), bytes);
    assert_eq!(back.to_snbt(), t.to_snbt());
}

#[test]
fn an_empty_list_keeps_its_kind() {
    for kind in 0u8..=12 {
        let mut t = NBT::new();
        let r = t.root_handle();
        t.insert_node(r, "l", NBTNode::List { type_id: TagType(kind), children: Vec::new() })
            .unwrap();
        let bytes = t.encode().unwrap();
        assert_eq!(bytes, vec![10, 0, 0, 9, 0, 1, b'l', kind, 0, 0, 0, 0, 0]);
        let back = decode(&bytes).ok().unwrap();
        let l = back.find_idx(back.root_handle(), "l").unwrap();
        match back.get_node(l).unwrap() {
            NBTNode::List { type_id, children } => {
                assert_eq!(*type_id, TagType(kind));
                assert!(children.is_empty());
            },
            _ => panic!("no list"),
        }
        assert!(t.same_as(&back));
    }
}

#[test]
fn what_does_not_fit_is_not_encoded() {
    let mut t = NBT::new();
    let r = t.root_handle();
    t.insert_node(r, "s", NBTNode::String("x".repeat(65535))).unwrap();
    assert!(t.encode().is_some());
    t.insert_node(r, "s", NBTNode::String("x".repeat(65536))).unwrap();
    assert!(t.encode().is_none());
    let mut u = NBT::new();
    let r = u.root_handle();
    u.insert_node(r, "l", NBTNode::List { type_id: TagType(13), children: Vec::new() }).unwrap();
    assert!(u.encode().is_none());
    let long_name = NBT::new_named("n".repeat(65536));
    assert!(long_name.encode().is_none());
}

#[test]
fn numbers_are_written_most_significant_byte_first() {
    let mut t = NBT::new();
    let r = t.root_handle();
    t.insert_node(r, "a", NBTNode::Short(0x0102)).unwrap();
    t.insert_node(r, "b", NBTNode::Int(-2)).unwrap();
    t.insert_node(r, "c", NBTNode::Long(0x0102030405060708)).unwrap();
    t.insert_node(r, "d", NBTNode::Float(1.0f32.to_bits())).unwrap();
    t.insert_node(r, "e", NBTNode::LongArray(vec![-1])).unwrap();
    let bytes = t.encode().unwrap();
    let expected: Vec<u8> = vec![
        10, 0, 0, //
        2, 0, 1, b'a', 1, 2, //
        3, 0, 1, b'b', 0xff, 0xff, 0xff, 0xfe, //
        4, 0, 1, b'c', 1, 2, 3, 4, 5, 6, 7, 8, //
        5, 0, 1, b'd', 0x3f, 0x80, 0, 0, //
        12, 0, 1, b'e', 0, 0, 0, 1, 0xff, 0xff, 0xff, 0xff, 0xff, 0xff, 0xff, 0xff, //
        0,
    ];
    assert_eq!(bytes, expected);
}
