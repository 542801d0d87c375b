use pandora_core::compound::NBTCompound;
use pandora_core::order::{order_bytes, KeyOrder};
use pandora_core::tag::{TagType, TAG_END_ID, TAG_LONG_ARRAY_ID};

#[test]
fn bytes_in_dictionary_order() {
    assert_eq!(order_bytes(b"", b""), KeyOrder::Equal);
    assert_eq!(order_bytes(b"", b"a"), KeyOrder::Less);
    assert_eq!(order_bytes(b"a", b""), KeyOrder::Greater);
    assert_eq!(order_bytes(b"ab", b"abc"), KeyOrder::Less);
    assert_eq!(order_bytes(b"abd", b"abc"), KeyOrder::Greater);
    assert_eq!(order_bytes(b"Z", b"a"), KeyOrder::Less);
    assert_eq!(order_bytes(&[0xff], &[0x7f, 0xff]), KeyOrder::Greater);
    assert_eq!(order_bytes(b"same", b"same"), KeyOrder::Equal);
}

#[test]
fn the_index_finds_inserts_and_removes_by_halving() {
    let mut c = NBTCompound::new();
    assert_eq!(c.len(), 0);
    assert_eq!(c.find("a"), None);
    assert_eq!(c.binary_search("a"), Err(0));
    c.insert("m", 1);
    c.insert("c", 2);
    c.insert("x", 3);
    c.insert("a", 4);
    assert_eq!(c.len(), 4);
    assert_eq!(c.binary_search("a"), Ok(0));
    assert_eq!(c.binary_search("c"), Ok(1));
    assert_eq!(c.binary_search("m"), Ok(2));
    assert_eq!(c.binary_search("x"), Ok(3));
    assert_eq!(c.binary_search("b"), Err(1));
    assert_eq!(c.binary_search("z"), Err(4));
    assert_eq!(c.binary_search(""), Err(0));
    assert_eq!(c.key_at(2), "m");
    assert_eq!(c.handle_at(2), 1);
    assert_eq!(c.find("x"), Some(3));
    c.insert("x", 30);
    assert_eq!(c.len(), 4);
    assert_eq!(c.find("x"), Some(30));
    assert_eq!(c.remove("c"), Some(2));
    assert_eq!(c.remove("c"), None);
    assert_eq!(c.len(), 3);
    assert_eq!(c.find("c"), None);
    assert_eq!(c.binary_search("m"), Ok(1));
    let copy = c.clone();
    assert_eq!(copy.len(), 3);
    assert_eq!(copy.find("a"), Some(4));
    assert_eq!(NBTCompound::default().len(), 0);
}

#[test]
fn names_are_ordered_by_their_bytes() {
    let mut c = NBTCompound::new();
    for (i, name) in ["b", "B", "\u{e9}", "a\u{0}", "a", "~"].iter().enumerate() {
        c.insert(name, i);
    }
    let got: Vec<&str> = (0..c.len()).map(|i| c.key_at(i)).collect();
    assert_eq!(got, vec!["B", "a", "a\u{0}", "b", "~", "\u{e9}"]);
}

#[test]
fn tags_from_bytes() {
    assert_eq!(TagType::from_byte(0), Some(TagType(TAG_END_ID)));
    assert_eq!(TagType::from_byte(12), Some(TagType(TAG_LONG_ARRAY_ID)));
    assert_eq!(TagType::from_byte(13), None);
    assert_eq!(TagType::from_byte(255), None);
    assert_eq!(TagType(9).id(), 9);
}
