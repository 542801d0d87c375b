use pandora_core::decode::decode;
use pandora_core::node::NBTNode;
use pandora_core::parse::DecodeErrorKind;
use pandora_core::tree::NBT;

fn sample() -> NBT {
    let mut t = NBT::new();
    let root = t.root_handle();
    t.insert_node(root, "value", NBTNode::Int(1)).unwrap();
    t.insert_node(root, "name", NBTNode::String("bananrama".to_string())).unwrap();
    t
}

fn sample_bytes() -> Vec<u8> {
    let mut b: Vec<u8> = vec![10, 0, 0];
    b.extend_from_slice(&[8, 0, 4]);
    b.extend_from_slice(b"name");
    b.extend_from_slice(&[0, 9]);
    b.extend_from_slice(b"bananrama");
    b.extend_from_slice(&[3, 0, 5]);
    b.extend_from_slice(b"value");
    b.extend_from_slice(&[0, 0, 0, 1]);
    b.push(0);
    b
}

#[test]
fn encodes_the_documented_example() {
    assert_eq!(sample().encode().unwrap(), sample_bytes());
}

#[test]
fn decodes_the_documented_example() {
    let t = decode(&sample_bytes()).ok().unwrap();
    assert_eq!(t.root_name, "");
    assert_eq!(t.len(), 3);
    let root = t.root_handle();
    let name = t.find_idx(root, "name").unwrap();
    match t.get_node(name).unwrap() {
        NBTNode::String(s) => assert_eq!(s, "bananrama"),
        _ => panic!("name is no string"),
    }
    let value = t.find_idx(root, "value").unwrap();
    assert!(matches!(t.get_node(value).unwrap(), NBTNode::Int(1)));
    assert_eq!(t.encode().unwrap(), sample_bytes());
}

#[test]
fn truncated_input_is_truncated() {
    let b = sample_bytes();
    let e = decode(&b[..b.len() - 3]).err().unwrap();
    assert_eq!(e.kind, DecodeErrorKind::Truncated);
}

#[test]
fn unknown_tag_is_invalid_tag() {
    let e = decode(&[10, 0, 0, 13, 0, 1, b'a', 0]).err().unwrap();
    assert_eq!(e.kind, DecodeErrorKind::InvalidTag);
    assert_eq!(e.offset, 3);
}

#[test]
fn negative_array_length_is_invalid_length() {
    let e = decode(&[10, 0, 0, 7, 0, 1, b'a', 0xff, 0xff, 0xff, 0xff, 0]).err().unwrap();
    assert_eq!(e.kind, DecodeErrorKind::InvalidLength);
    assert_eq!(e.offset, 7);
}

#[test]
fn broken_utf8_is_invalid_utf8() {
    let e = decode(&[10, 0, 0, 8, 0, 1, b'a', 0, 2, 0xc3, 0x28, 0]).err().unwrap();
    assert_eq!(e.kind, DecodeErrorKind::InvalidUtf8);
    assert_eq!(e.offset, 9);
}

#[test]
fn each_fault_names_its_place() {
    // no bytes at all
    let e = decode(&[]).err().unwrap();
    assert_eq!((e.kind, e.offset), (DecodeErrorKind::Truncated, 0));
    // the root is no compound
    let e = decode(&[3, 0, 0, 0, 0, 0, 1]).err().unwrap();
    assert_eq!((e.kind, e.offset), (DecodeErrorKind::InvalidTag, 0));
    // the root's name is cut off
    let e = decode(&[10, 0, 4, b'a']).err().unwrap();
    assert_eq!((e.kind, e.offset), (DecodeErrorKind::Truncated, 3));
    // no end marker
    let e = decode(&[10, 0, 0]).err().unwrap();
    assert_eq!((e.kind, e.offset), (DecodeErrorKind::Truncated, 3));
    // a list of a kind that does not exist
    let e = decode(&[10, 0, 0, 9, 0, 1, b'l', 13, 0, 0, 0, 0, 0]).err().unwrap();
    assert_eq!((e.kind, e.offset), (DecodeErrorKind::InvalidTag, 7));
    // a list of end markers with elements
    let e = decode(&[10, 0, 0, 9, 0, 1, b'l', 0, 0, 0, 0, 1, 0]).err().unwrap();
    assert_eq!((e.kind, e.offset), (DecodeErrorKind::InvalidTag, 7));
    // a list with a negative count
    let e = decode(&[10, 0, 0, 9, 0, 1, b'l', 1, 0x80, 0, 0, 0, 0]).err().unwrap();
    assert_eq!((e.kind, e.offset), (DecodeErrorKind::InvalidLength, 8));
    // an array that announces more than there is
    let e = decode(&[10, 0, 0, 11, 0, 1, b'i', 0, 0, 0, 2, 0, 0, 0, 1, 0]).err().unwrap();
    assert_eq!((e.kind, e.offset), (DecodeErrorKind::Truncated, 11));
}

#[test]
fn bytes_behind_the_end_marker_are_not_read() {
    let mut b = sample_bytes();
    b.extend_from_slice(&[99, 98, 97]);
    let t = decode(&b).ok().unwrap();
    assert_eq!(t.encode().unwrap(), sample_bytes());
}

#[test]
fn names_come_out_sorted_whatever_order_they_came_in() {
    let unsorted = [10, 0, 0, 1, 0, 1, b'z', 1, 1, 0, 1, b'a', 2, 0];
    let sorted = [10, 0, 0, 1, 0, 1, b'a', 2, 1, 0, 1, b'z', 1, 0];
    let t = decode(&unsorted).ok().unwrap();
    let once = t.encode().unwrap();
    assert_eq!(once, sorted);
    let again = decode(&once).ok().unwrap().encode().unwrap();
    assert_eq!(again, once);
}

#[test]
fn every_proper_beginning_ends_too_early() {
    let b = sample_bytes();
    for n in 0..b.len() {
        let e = decode(&b[..n]).err().unwrap();
        assert_eq!(e.kind, DecodeErrorKind::Truncated, "at {}", n);
        assert!(e.offset <= n);
    }
    assert!(decode(&b).is_ok());
}
