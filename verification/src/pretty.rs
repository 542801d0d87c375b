use vstd::prelude::*;
use vstd::string::StringExecFns;
use crate::node::NBTNode;
use crate::shape::{lemma_compound_entries, lemma_list_elems, lemma_value_unfold, node_ok};
use crate::stringified::{
    bits_text, nums_text, push_bits, push_i32s, push_i64s, push_i8s, push_quoted, quoted,
};
use crate::text::{decimal, push_decimal, push_signed, signed_decimal};
use crate::tree::NBT;
use crate::value::Value;

verus! {

/// What closes the block of a container's children: a new line at the
/// container's own indentation, and nothing where there are no children.
pub open spec fn closing(n: nat, ind: Seq<char>) -> Seq<char> {
    if n == 0 {
        Seq::empty()
    } else {
        "\n"@ + ind
    }
}

/// The text of a value for reading: every node with its kind, a container
/// with each child on a line of its own, two spaces deeper than itself.
pub open spec fn pretty(v: Value, ind: Seq<char>) -> Seq<char>
    decreases v,
{
    match v {
        Value::Byte(x) => "Byte("@ + signed_decimal(x as int) + ")"@,
        Value::Short(x) => "Short("@ + signed_decimal(x as int) + ")"@,
        Value::Int(x) => "Int("@ + signed_decimal(x as int) + ")"@,
        Value::Long(x) => "Long("@ + signed_decimal(x as int) + ")"@,
        Value::Float(x) => "Float("@ + bits_text(x as nat, 8) + ")"@,
        Value::Double(x) => "Double("@ + bits_text(x as nat, 16) + ")"@,
        Value::ByteArray(s) => "ByteArray["@ + nums_text(
            s.map_values(|x: i8| x as int),
            seq!['b'],
        ) + "]"@,
        Value::String(s) => "String("@ + quoted(s) + ")"@,
        Value::List(t, cs) => "List<"@ + decimal(t as nat) + ">["@ + pretty_elems(cs, ind)
            + closing(cs.len(), ind) + "]"@,
        Value::Compound(es) => "Compound{"@ + pretty_entries(es, ind) + closing(es.len(), ind)
            + "}"@,
        Value::IntArray(s) => "IntArray["@ + nums_text(
            s.map_values(|x: i32| x as int),
            Seq::empty(),
        ) + "]"@,
        Value::LongArray(s) => "LongArray["@ + nums_text(
            s.map_values(|x: i64| x as int),
            seq!['l'],
        ) + "]"@,
    }
}

/// The elements of a list, each on a line of its own.
pub open spec fn pretty_elems(cs: Seq<Value>, ind: Seq<char>) -> Seq<char>
    decreases cs,
{
    if cs.len() == 0 {
        Seq::empty()
    } else {
        pretty_elems(cs.drop_last(), ind) + "\n"@ + (ind + "  "@) + pretty(
            cs.last(),
            ind + "  "@,
        )
    }
}

/// The entries of a compound, each on a line of its own: the name in quotes,
/// a colon and the value.
pub open spec fn pretty_entries(es: Seq<(Seq<char>, Value)>, ind: Seq<char>) -> Seq<char>
    decreases es,
{
    if es.len() == 0 {
        Seq::empty()
    } else {
        pretty_entries(es.drop_last(), ind) + "\n"@ + (ind + "  "@) + quoted(es.last().0) + ": "@
            + pretty(es.last().1, ind + "  "@)
    }
}

/// The text of a whole tree for reading: the root under its name.
pub open spec fn pretty_doc(name: Seq<char>, v: Value) -> Seq<char> {
    quoted(name) + ": "@ + pretty(v, Seq::empty()) + "\n"@
}

impl NBT {
    /// Appends the text for reading of the node `h` and of everything below
    /// it; `ind` is the indentation of the line on which the node stands.
    pub fn write_pretty(&self, h: usize, ind: &str, out: &mut String)
        requires
            self.wf(),
            self.live(h),
        ensures
            final(out)@ == old(out)@ + pretty(self.value_at(h), ind@),
        decreases self.shape().bound - self.shape().depth[h],
    {
        proof {
            assert(node_ok(self.nodes(), self.shape(), h));
            lemma_value_unfold(self.nodes(), self.shape(), h);
        }
        let n = self.get_node(h).unwrap();
        match n {
            NBTNode::Byte(x) => {
                out.append("Byte(");
                push_signed(out, *x as i64);
                out.append(")");
                assert(out@ =~= old(out)@ + pretty(self.value_at(h), ind@));
            },
            NBTNode::Short(x) => {
                out.append("Short(");
                push_signed(out, *x as i64);
                out.append(")");
                assert(out@ =~= old(out)@ + pretty(self.value_at(h), ind@));
            },
            NBTNode::Int(x) => {
                out.append("Int(");
                push_signed(out, *x as i64);
                out.append(")");
                assert(out@ =~= old(out)@ + pretty(self.value_at(h), ind@));
            },
            NBTNode::Long(x) => {
                out.append("Long(");
                push_signed(out, *x);
                out.append(")");
                assert(out@ =~= old(out)@ + pretty(self.value_at(h), ind@));
            },
            NBTNode::Float(x) => {
                out.append("Float(");
                push_bits(out, *x as u64, 8);
                out.append(")");
                assert(out@ =~= old(out)@ + pretty(self.value_at(h), ind@));
            },
            NBTNode::Double(x) => {
                out.append("Double(");
                push_bits(out, *x, 16);
                out.append(")");
                assert(out@ =~= old(out)@ + pretty(self.value_at(h), ind@));
            },
            NBTNode::ByteArray(v) => {
                out.append("ByteArray[");
                push_i8s(out, v);
                out.append("]");
                assert(out@ =~= old(out)@ + pretty(self.value_at(h), ind@));
            },
            NBTNode::String(s) => {
                out.append("String(");
                push_quoted(out, s.as_str());
                out.append(")");
                assert(out@ =~= old(out)@ + pretty(self.value_at(h), ind@));
            },
            NBTNode::IntArray(v) => {
                out.append("IntArray[");
                push_i32s(out, v);
                out.append("]");
                assert(out@ =~= old(out)@ + pretty(self.value_at(h), ind@));
            },
            NBTNode::LongArray(v) => {
                out.append("LongArray[");
                push_i64s(out, v);
                out.append("]");
                assert(out@ =~= old(out)@ + pretty(self.value_at(h), ind@));
            },
            NBTNode::List { type_id, children } => {
                let ghost vals = self.value_at(h)->List_1;
                proof {
                    lemma_list_elems(self.nodes(), self.shape(), h);
                }
                out.append("List<");
                push_decimal(out, type_id.0 as u64);
                out.append(">[");
                let deeper = String::from_str(ind).concat("  ");
                let ghost mid = out@;
                let mut i: usize = 0;
                assert(pretty_elems(vals.take(0), ind@) =~= Seq::<char>::empty());
                while i < children.len()
                    invariant
                        self.wf(),
                        self.live(h),
                        self.node(h) == *n,
                        *n == (NBTNode::List { type_id: *type_id, children: *children }),
                        vals.len() == children@.len(),
                        forall|j: int|
                            0 <= j < vals.len() ==> #[trigger] vals[j] == self.value_at(
                                children@[j],
                            ),
                        i <= children@.len(),
                        deeper@ == ind@ + "  "@,
                        out@ == mid + pretty_elems(vals.take(i as int), ind@),
                    decreases children@.len() - i,
                {
                    let ch = children[i];
                    proof {
                        assert(node_ok(self.nodes(), self.shape(), h));
                        assert(self.node(h).children()[i as int] == ch);
                        assert(self.live(ch));
                        assert(node_ok(self.nodes(), self.shape(), ch));
                    }
                    out.append("\n");
                    out.append(deeper.as_str());
                    self.write_pretty(ch, deeper.as_str(), out);
                    i += 1;
                    proof {
                        assert(vals.take(i as int).drop_last() =~= vals.take(i - 1));
                        assert(out@ =~= mid + pretty_elems(vals.take(i as int), ind@));
                    }
                }
                if children.len() > 0 {
                    out.append("\n");
                    out.append(ind);
                }
                out.append("]");
                proof {
                    assert(vals.take(i as int) =~= vals);
                    assert(out@ =~= old(out)@ + pretty(self.value_at(h), ind@));
                }
            },
            NBTNode::Compound(c) => {
                let ghost vals = self.value_at(h)->Compound_0;
                proof {
                    lemma_compound_entries(self.nodes(), self.shape(), h);
                }
                out.append("Compound{");
                let deeper = String::from_str(ind).concat("  ");
                let ghost mid = out@;
                let mut i: usize = 0;
                assert(pretty_entries(vals.take(0), ind@) =~= Seq::<char>::empty());
                while i < c.len()
                    invariant
                        self.wf(),
                        self.live(h),
                        self.node(h) == *n,
                        *n == NBTNode::Compound(*c),
                        vals.len() == c@.len(),
                        forall|j: int|
                            0 <= j < vals.len() ==> #[trigger] vals[j] == (
                                c@[j].0,
                                self.value_at(c@[j].1),
                            ),
                        i <= c@.len(),
                        deeper@ == ind@ + "  "@,
                        out@ == mid + pretty_entries(vals.take(i as int), ind@),
                    decreases c@.len() - i,
                {
                    let ch = c.handle_at(i);
                    proof {
                        assert(node_ok(self.nodes(), self.shape(), h));
                        assert(self.node(h).children()[i as int] == ch);
                        assert(self.live(ch));
                        assert(node_ok(self.nodes(), self.shape(), ch));
                    }
                    out.append("\n");
                    out.append(deeper.as_str());
                    push_quoted(out, c.key_at(i));
                    out.append(": ");
                    self.write_pretty(ch, deeper.as_str(), out);
                    i += 1;
                    proof {
                        assert(vals.take(i as int).drop_last() =~= vals.take(i - 1));
                        assert(out@ =~= mid + pretty_entries(vals.take(i as int), ind@));
                    }
                }
                if c.len() > 0 {
                    out.append("\n");
                    out.append(ind);
                }
                out.append("}");
                proof {
                    assert(vals.take(i as int) =~= vals);
                    assert(out@ =~= old(out)@ + pretty(self.value_at(h), ind@));
                }
            },
        }
    }

    /// The text of the whole tree for reading, on several lines.
    pub fn to_pretty_debug(&self) -> (r: String)
        requires
            self.wf(),
        ensures
            r@ == pretty_doc(self.name(), self@),
    {
        let mut out = String::new();
        push_quoted(&mut out, self.root_name_str());
        out.append(": ");
        proof {
            reveal_strlit("");
            assert(""@ =~= Seq::<char>::empty());
        }
        self.write_pretty(self.root_handle(), "", &mut out);
        out.append("\n");
        assert(out@ =~= pretty_doc(self.name(), self@));
        out
    }
}

} // verus!
