use vstd::prelude::*;
use vstd::std_specs::iter::IteratorSpec;
use vstd::string::StringExecFns;
use crate::node::NBTNode;
use crate::shape::{lemma_compound_entries, lemma_list_elems, lemma_value_unfold, node_ok};
use crate::text::{push_signed, signed_decimal};
use crate::tree::NBT;
use crate::value::Value;

verus! {

/// `String::push`: the text with one character more at its end.
#[verifier::external_body]
pub(crate) fn push_char(out: &mut String, c: char)
    ensures
        final(out)@ == old(out)@.push(c),
{
    out.push(c);
}

/// The character of a hexadecimal digit.
pub open spec fn hex_digit(d: int) -> char {
    if d == 0 {
        '0'
    } else if d == 1 {
        '1'
    } else if d == 2 {
        '2'
    } else if d == 3 {
        '3'
    } else if d == 4 {
        '4'
    } else if d == 5 {
        '5'
    } else if d == 6 {
        '6'
    } else if d == 7 {
        '7'
    } else if d == 8 {
        '8'
    } else if d == 9 {
        '9'
    } else if d == 10 {
        'a'
    } else if d == 11 {
        'b'
    } else if d == 12 {
        'c'
    } else if d == 13 {
        'd'
    } else if d == 14 {
        'e'
    } else {
        'f'
    }
}

/// The last `width` hexadecimal digits of a number.
pub open spec fn hex(n: nat, width: nat) -> Seq<char>
    decreases width,
{
    if width == 0 {
        Seq::empty()
    } else {
        hex(n / 16, (width - 1) as nat).push(hex_digit((n % 16) as int))
    }
}

/// A bit pattern in text: `0x` and its hexadecimal digits.
pub open spec fn bits_text(n: nat, width: nat) -> Seq<char> {
    seq!['0', 'x'] + hex(n, width)
}

/// The character of a hexadecimal digit.
pub fn hex_char(d: u64) -> (c: char)
    requires
        d < 16,
    ensures
        c == hex_digit(d as int),
{
    if d == 0 {
        '0'
    } else if d == 1 {
        '1'
    } else if d == 2 {
        '2'
    } else if d == 3 {
        '3'
    } else if d == 4 {
        '4'
    } else if d == 5 {
        '5'
    } else if d == 6 {
        '6'
    } else if d == 7 {
        '7'
    } else if d == 8 {
        '8'
    } else if d == 9 {
        '9'
    } else if d == 10 {
        'a'
    } else if d == 11 {
        'b'
    } else if d == 12 {
        'c'
    } else if d == 13 {
        'd'
    } else if d == 14 {
        'e'
    } else {
        'f'
    }
}

/// Appends the last `width` hexadecimal digits of a number.
pub fn push_hex(out: &mut String, n: u64, width: u8)
    ensures
        final(out)@ == old(out)@ + hex(n as nat, width as nat),
    decreases width,
{
    if width > 0 {
        push_hex(out, n / 16, width - 1);
        push_char(out, hex_char(n % 16));
        assert(out@ =~= old(out)@ + hex(n as nat, width as nat));
    } else {
        assert(out@ =~= old(out)@ + hex(n as nat, width as nat));
    }
}

/// Appends a bit pattern: `0x` and its last `width` hexadecimal digits.
pub fn push_bits(out: &mut String, n: u64, width: u8)
    ensures
        final(out)@ == old(out)@ + bits_text(n as nat, width as nat),
{
    push_char(out, '0');
    push_char(out, 'x');
    push_hex(out, n, width);
    assert(out@ =~= old(out)@ + bits_text(n as nat, width as nat));
}

/// A character as it stands between quotes: the quote and the backslash
/// behind a backslash, every other character as it is.
pub open spec fn esc(c: char) -> Seq<char> {
    if c == '"' {
        seq!['\\', '"']
    } else if c == '\\' {
        seq!['\\', '\\']
    } else {
        seq![c]
    }
}

/// A text as it stands between quotes.
pub open spec fn escaped(s: Seq<char>) -> Seq<char>
    decreases s.len(),
{
    if s.len() == 0 {
        Seq::empty()
    } else {
        escaped(s.drop_last()) + esc(s.last())
    }
}

/// A text in quotes.
pub open spec fn quoted(s: Seq<char>) -> Seq<char> {
    seq!['"'] + escaped(s) + seq!['"']
}

/// Appends a text in quotes.
pub fn push_quoted(out: &mut String, s: &str)
    ensures
        final(out)@ == old(out)@ + quoted(s@),
{
    broadcast use vstd::string::group_string_axioms;

    push_char(out, '"');
    let ghost start = out@;
    let mut it = s.chars();
    let ghost mut done: Seq<char> = Seq::empty();
    loop
        invariant
            it.obeys_prophetic_iter_laws(),
            it.decrease() is Some,
            done + it.remaining() == s@,
            out@ == start + escaped(done),
        ensures
            done == s@,
        decreases it.decrease()->0,
    {
        let ghost before = it;
        match it.next() {
            None => {
                assert(done =~= s@);
                break ;
            },
            Some(c) => {
                proof {
                    let d2 = done.push(c);
                    assert(d2.drop_last() =~= done);
                    assert(d2 + it.remaining() =~= s@);
                    done = d2;
                }
                if c == '"' {
                    push_char(out, '\\');
                    push_char(out, '"');
                } else if c == '\\' {
                    push_char(out, '\\');
                    push_char(out, '\\');
                } else {
                    push_char(out, c);
                }
                assert(out@ =~= start + escaped(done));
            },
        }
    }
    push_char(out, '"');
    assert(out@ =~= old(out)@ + quoted(s@));
}

/// What stands before the item at a position of a list: a comma, but for the
/// first.
pub open spec fn comma(i: int) -> Seq<char> {
    if i == 0 {
        Seq::empty()
    } else {
        seq![',']
    }
}

/// Numbers in decimal, each with a suffix, with commas between them.
pub open spec fn nums_text(s: Seq<int>, suffix: Seq<char>) -> Seq<char>
    decreases s.len(),
{
    if s.len() == 0 {
        Seq::empty()
    } else {
        nums_text(s.drop_last(), suffix) + comma(s.len() - 1) + signed_decimal(s.last())
            + suffix
    }
}

/// The compact text of a value: a number with the letter of its kind, a
/// floating-point number as its bit pattern with the letter of its kind, a
/// string in quotes, an array in brackets behind the letter of its kind and a
/// semicolon, a list in brackets, a compound in braces with its names in
/// quotes.
pub open spec fn snbt(v: Value) -> Seq<char>
    decreases v,
{
    match v {
        Value::Byte(x) => signed_decimal(x as int) + seq!['b'],
        Value::Short(x) => signed_decimal(x as int) + seq!['s'],
        Value::Int(x) => signed_decimal(x as int) + seq!['i'],
        Value::Long(x) => signed_decimal(x as int) + seq!['l'],
        Value::Float(x) => bits_text(x as nat, 8) + seq!['f'],
        Value::Double(x) => bits_text(x as nat, 16) + seq!['d'],
        Value::ByteArray(s) => seq!['[', 'B', ';'] + nums_text(
            s.map_values(|x: i8| x as int),
            seq!['b'],
        ) + seq![']'],
        Value::String(s) => quoted(s),
        Value::List(_, cs) => seq!['['] + snbt_elems(cs) + seq![']'],
        Value::Compound(es) => seq!['{'] + snbt_entries(es) + seq!['}'],
        Value::IntArray(s) => seq!['[', 'I', ';'] + nums_text(
            s.map_values(|x: i32| x as int),
            Seq::empty(),
        ) + seq![']'],
        Value::LongArray(s) => seq!['[', 'L', ';'] + nums_text(
            s.map_values(|x: i64| x as int),
            seq!['l'],
        ) + seq![']'],
    }
}

/// The elements of a list with commas between them.
pub open spec fn snbt_elems(cs: Seq<Value>) -> Seq<char>
    decreases cs,
{
    if cs.len() == 0 {
        Seq::empty()
    } else {
        snbt_elems(cs.drop_last()) + comma(cs.len() - 1) + snbt(cs.last())
    }
}

/// The entries of a compound with commas between them: each a name in
/// quotes, a colon and the value.
pub open spec fn snbt_entries(es: Seq<(Seq<char>, Value)>) -> Seq<char>
    decreases es,
{
    if es.len() == 0 {
        Seq::empty()
    } else {
        snbt_entries(es.drop_last()) + comma(es.len() - 1) + quoted(es.last().0) + seq![':']
            + snbt(es.last().1)
    }
}

/// The compact text of a whole tree: the root under its name, in braces.
pub open spec fn snbt_doc(name: Seq<char>, v: Value) -> Seq<char> {
    seq!['{'] + quoted(name) + seq![':'] + snbt(v) + seq!['}']
}

/// Appends a comma, but for the first item of a list.
pub fn push_comma(out: &mut String, i: usize)
    ensures
        final(out)@ == old(out)@ + comma(i as int),
{
    if i > 0 {
        push_char(out, ',');
    }
    assert(out@ =~= old(out)@ + comma(i as int));
}

/// Appends an array of signed bytes, each with the letter of its kind.
pub fn push_i8s(out: &mut String, v: &Vec<i8>)
    ensures
        final(out)@ == old(out)@ + nums_text(v@.map_values(|x: i8| x as int), seq!['b']),
{
    let ghost ints = v@.map_values(|x: i8| x as int);
    let ghost start = out@;
    let mut i: usize = 0;
    assert(nums_text(ints.take(0), seq!['b']) =~= Seq::<char>::empty());
    while i < v.len()
        invariant
            i <= v@.len(),
            ints == v@.map_values(|x: i8| x as int),
            out@ == start + nums_text(ints.take(i as int), seq!['b']),
        decreases v@.len() - i,
    {
        push_comma(out, i);
        push_signed(out, v[i] as i64);
        push_char(out, 'b');
        i += 1;
        proof {
            assert(ints.take(i as int).drop_last() =~= ints.take(i - 1));
            assert(out@ =~= start + nums_text(ints.take(i as int), seq!['b']));
        }
    }
    assert(ints.take(i as int) =~= ints);
}

/// Appends an array of 32-bit numbers.
pub fn push_i32s(out: &mut String, v: &Vec<i32>)
    ensures
        final(out)@ == old(out)@ + nums_text(v@.map_values(|x: i32| x as int), Seq::empty()),
{
    let ghost ints = v@.map_values(|x: i32| x as int);
    let ghost start = out@;
    let mut i: usize = 0;
    assert(nums_text(ints.take(0), Seq::empty()) =~= Seq::<char>::empty());
    while i < v.len()
        invariant
            i <= v@.len(),
            ints == v@.map_values(|x: i32| x as int),
            out@ == start + nums_text(ints.take(i as int), Seq::empty()),
        decreases v@.len() - i,
    {
        push_comma(out, i);
        push_signed(out, v[i] as i64);
        i += 1;
        proof {
            assert(ints.take(i as int).drop_last() =~= ints.take(i - 1));
            assert(out@ =~= start + nums_text(ints.take(i as int), Seq::empty()));
        }
    }
    assert(ints.take(i as int) =~= ints);
}

/// Appends an array of 64-bit numbers, each with the letter of its kind.
pub fn push_i64s(out: &mut String, v: &Vec<i64>)
    ensures
        final(out)@ == old(out)@ + nums_text(v@.map_values(|x: i64| x as int), seq!['l']),
{
    let ghost ints = v@.map_values(|x: i64| x as int);
    let ghost start = out@;
    let mut i: usize = 0;
    assert(nums_text(ints.take(0), seq!['l']) =~= Seq::<char>::empty());
    while i < v.len()
        invariant
            i <= v@.len(),
            ints == v@.map_values(|x: i64| x as int),
            out@ == start + nums_text(ints.take(i as int), seq!['l']),
        decreases v@.len() - i,
    {
        push_comma(out, i);
        push_signed(out, v[i]);
        push_char(out, 'l');
        i += 1;
        proof {
            assert(ints.take(i as int).drop_last() =~= ints.take(i - 1));
            assert(out@ =~= start + nums_text(ints.take(i as int), seq!['l']));
        }
    }
    assert(ints.take(i as int) =~= ints);
}

impl NBT {
    /// Appends the compact text of the node `h` and of everything below it.
    pub fn write_snbt(&self, h: usize, out: &mut String)
        requires
            self.wf(),
            self.live(h),
        ensures
            final(out)@ == old(out)@ + snbt(self.value_at(h)),
        decreases self.shape().bound - self.shape().depth[h],
    {
        proof {
            assert(node_ok(self.nodes(), self.shape(), h));
            lemma_value_unfold(self.nodes(), self.shape(), h);
        }
        let n = self.get_node(h).unwrap();
        match n {
            NBTNode::Byte(x) => {
                push_signed(out, *x as i64);
                push_char(out, 'b');
                assert(out@ =~= old(out)@ + snbt(self.value_at(h)));
            },
            NBTNode::Short(x) => {
                push_signed(out, *x as i64);
                push_char(out, 's');
                assert(out@ =~= old(out)@ + snbt(self.value_at(h)));
            },
            NBTNode::Int(x) => {
                push_signed(out, *x as i64);
                push_char(out, 'i');
                assert(out@ =~= old(out)@ + snbt(self.value_at(h)));
            },
            NBTNode::Long(x) => {
                push_signed(out, *x);
                push_char(out, 'l');
                assert(out@ =~= old(out)@ + snbt(self.value_at(h)));
            },
            NBTNode::Float(x) => {
                push_bits(out, *x as u64, 8);
                push_char(out, 'f');
                assert(out@ =~= old(out)@ + snbt(self.value_at(h)));
            },
            NBTNode::Double(x) => {
                push_bits(out, *x, 16);
                push_char(out, 'd');
                assert(out@ =~= old(out)@ + snbt(self.value_at(h)));
            },
            NBTNode::ByteArray(v) => {
                push_char(out, '[');
                push_char(out, 'B');
                push_char(out, ';');
                push_i8s(out, v);
                push_char(out, ']');
                assert(out@ =~= old(out)@ + snbt(self.value_at(h)));
            },
            NBTNode::String(s) => {
                push_quoted(out, s.as_str());
            },
            NBTNode::IntArray(v) => {
                push_char(out, '[');
                push_char(out, 'I');
                push_char(out, ';');
                push_i32s(out, v);
                push_char(out, ']');
                assert(out@ =~= old(out)@ + snbt(self.value_at(h)));
            },
            NBTNode::LongArray(v) => {
                push_char(out, '[');
                push_char(out, 'L');
                push_char(out, ';');
                push_i64s(out, v);
                push_char(out, ']');
                assert(out@ =~= old(out)@ + snbt(self.value_at(h)));
            },
            NBTNode::List { type_id, children } => {
                let ghost vals = self.value_at(h)->List_1;
                proof {
                    lemma_list_elems(self.nodes(), self.shape(), h);
                }
                push_char(out, '[');
                let ghost mid = out@;
                let mut i: usize = 0;
                assert(snbt_elems(vals.take(0)) =~= Seq::<char>::empty());
                while i < children.len()
                    invariant
                        self.wf(),
                        self.live(h),
                        self.node(h) == *n,
                        *n == (NBTNode::List { type_id: *type_id, children: *children }),
                        vals.len() == children@.len(),
                        forall|j: int|
                            0 <= j < vals.len() ==> #[trigger] vals[j] == self.value_at(
                                children@[j],
                            ),
                        i <= children@.len(),
                        out@ == mid + snbt_elems(vals.take(i as int)),
                    decreases children@.len() - i,
                {
                    let ch = children[i];
                    proof {
                        assert(node_ok(self.nodes(), self.shape(), h));
                        assert(self.node(h).children()[i as int] == ch);
                        assert(self.live(ch));
                        assert(node_ok(self.nodes(), self.shape(), ch));
                    }
                    push_comma(out, i);
                    self.write_snbt(ch, out);
                    i += 1;
                    proof {
                        assert(vals.take(i as int).drop_last() =~= vals.take(i - 1));
                        assert(out@ =~= mid + snbt_elems(vals.take(i as int)));
                    }
                }
                push_char(out, ']');
                proof {
                    assert(vals.take(i as int) =~= vals);
                    assert(out@ =~= old(out)@ + snbt(self.value_at(h)));
                }
            },
            NBTNode::Compound(c) => {
                let ghost vals = self.value_at(h)->Compound_0;
                proof {
                    lemma_compound_entries(self.nodes(), self.shape(), h);
                }
                push_char(out, '{');
                let ghost mid = out@;
                let mut i: usize = 0;
                assert(snbt_entries(vals.take(0)) =~= Seq::<char>::empty());
                while i < c.len()
                    invariant
                        self.wf(),
                        self.live(h),
                        self.node(h) == *n,
                        *n == NBTNode::Compound(*c),
                        vals.len() == c@.len(),
                        forall|j: int|
                            0 <= j < vals.len() ==> #[trigger] vals[j] == (
                                c@[j].0,
                                self.value_at(c@[j].1),
                            ),
                        i <= c@.len(),
                        out@ == mid + snbt_entries(vals.take(i as int)),
                    decreases c@.len() - i,
                {
                    let ch = c.handle_at(i);
                    proof {
                        assert(node_ok(self.nodes(), self.shape(), h));
                        assert(self.node(h).children()[i as int] == ch);
                        assert(self.live(ch));
                        assert(node_ok(self.nodes(), self.shape(), ch));
                    }
                    push_comma(out, i);
                    push_quoted(out, c.key_at(i));
                    push_char(out, ':');
                    self.write_snbt(ch, out);
                    i += 1;
                    proof {
                        assert(vals.take(i as int).drop_last() =~= vals.take(i - 1));
                        assert(out@ =~= mid + snbt_entries(vals.take(i as int)));
                    }
                }
                push_char(out, '}');
                proof {
                    assert(vals.take(i as int) =~= vals);
                    assert(out@ =~= old(out)@ + snbt(self.value_at(h)));
                }
            },
        }
    }

    /// The compact text of the whole tree, on one line.
    pub fn to_snbt(&self) -> (r: String)
        requires
            self.wf(),
        ensures
            r@ == snbt_doc(self.name(), self@),
    {
        let mut out = String::new();
        push_char(&mut out, '{');
        push_quoted(&mut out, self.root_name_str());
        push_char(&mut out, ':');
        self.write_snbt(self.root_handle(), &mut out);
        push_char(&mut out, '}');
        assert(out@ =~= snbt_doc(self.name(), self@));
        out
    }
}

} // verus!
