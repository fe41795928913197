//! Helpers shared by the encoders and foreign bindings that consume the
//! AST: splitting lengths into bytes, counting UTF-16 code units for
//! offset reporting, and escaping text for JSON output.

use vstd::prelude::*;

use crate::ast::GNode;
use crate::ast::Node;
use crate::ast::lemma_nodes_view_index;
use crate::ast::node_view;
use crate::ast::nodes_view;

verus! {

/// The bytes `null`, written for a block without attributes.
pub open spec fn null_bytes() -> Seq<u8> {
    seq![0x6eu8, 0x75u8, 0x6cu8, 0x6cu8]
}

/// The flat binary form of one node: a type tag, single-byte lengths
/// (truncated modulo 256, as a byte can hold no more), then the texts,
/// then the children; a phrase length is given sixteen bits.
pub open spec fn node_bytes(n: GNode) -> Seq<u8>
    decreases n,
{
    match n {
        GNode::Block { ns, name, attrs, children } => {
            let alen: nat = match attrs {
                Some(a) => a.len(),
                None => 4,
            };
            seq![
                1u8,
                (((ns.len() + name.len() + 1) % 256) as u8),
                ((alen % 256) as u8),
                ((children.len() % 256) as u8),
            ] + ns + seq![0x2fu8] + name + (match attrs {
                Some(a) => a,
                None => null_bytes(),
            }) + nodes_bytes(children)
        },
        GNode::Phrase(p) => {
            let l = p.len() % 0x10000;
            seq![2u8, ((l / 256) as u8), ((l % 256) as u8)] + p
        },
    }
}

/// `node_bytes`, over a sequence of nodes, in order.
pub open spec fn nodes_bytes(v: Seq<GNode>) -> Seq<u8>
    decreases v,
{
    if v.len() == 0 {
        Seq::empty()
    } else {
        node_bytes(v[0]) + nodes_bytes(v.drop_first())
    }
}

/// The one machine limit of the flattening: the two name spans of each
/// block, together with their separator, must be countable in a machine
/// word.
pub open spec fn sizes_fit(n: GNode) -> bool
    decreases n,
{
    match n {
        GNode::Block { ns, name, attrs, children } => ns.len() + name.len() + 1 <= usize::MAX
            && all_sizes_fit(children),
        GNode::Phrase(_) => true,
    }
}

/// `sizes_fit`, over a sequence of nodes.
pub open spec fn all_sizes_fit(v: Seq<GNode>) -> bool
    decreases v,
{
    if v.len() == 0 {
        true
    } else {
        sizes_fit(v[0]) && all_sizes_fit(v.drop_first())
    }
}

/// Pointer-target placeholder mirroring `core::ffi::c_void`, kept for the
/// foreign-function entry points built on top of this crate in
/// environments without the standard library.
#[allow(non_camel_case_types)]
pub enum c_void {
    __variant1,
    __variant2,
}

/// Split a length into its big-endian byte pair.
pub fn u16_to_u8s(x: u16) -> (r: (u8, u8))
    ensures
        r.0 == x / 256,
        r.1 == x % 256,
        r.0 as int * 256 + r.1 as int == x as int,
{
    let hi = ((x & 0xff00u16) >> 8u16) as u8;
    let lo = (x & 0x00ffu16) as u8;
    proof {
        assert(((x & 0xff00u16) >> 8u16) == x / 256 && (x & 0x00ffu16) == x % 256) by (bit_vector);
    }
    (hi, lo)
}

/// The number of UTF-16 code units needed for the characters `cs`: one
/// for a character of the basic plane, two for one encoded as a
/// surrogate pair.
pub open spec fn utf16_units(cs: Seq<char>) -> nat
    decreases cs.len(),
{
    if cs.len() == 0 {
        0
    } else {
        (utf16_units(cs.drop_last()) + (if cs.last() as u32 <= 0xffff {
            1nat
        } else {
            2nat
        })) as nat
    }
}

/// A prefix never needs more code units than the whole.
proof fn lemma_utf16_units_prefix(cs: Seq<char>, i: int)
    requires
        0 <= i <= cs.len(),
    ensures
        utf16_units(cs.take(i)) <= utf16_units(cs),
    decreases cs.len(),
{
    if i < cs.len() {
        assert(cs.drop_last().take(i) =~= cs.take(i));
        lemma_utf16_units_prefix(cs.drop_last(), i);
    } else {
        assert(cs.take(i) =~= cs);
    }
}

/// Count the UTF-16 code units of a string, as a UTF-16 based host would
/// measure its length.
pub fn count_utf16(input: &str) -> (r: u32)
    requires
        utf16_units(input@) <= u32::MAX,
    ensures
        r == utf16_units(input@),
{
    let n = input.unicode_len();
    let mut acc: u32 = 0;
    let mut i: usize = 0;
    while i < n
        invariant
            n == input@.len(),
            0 <= i <= n,
            acc == utf16_units(input@.take(i as int)),
            utf16_units(input@) <= u32::MAX,
        decreases n - i,
    {
        let c = input.get_char(i);
        let code = c as u32;
        proof {
            assert(input@.take(i + 1).drop_last() =~= input@.take(i as int));
            assert(input@.take(i + 1).last() == input@[i as int]);
            lemma_utf16_units_prefix(input@, i + 1);
        }
        if code <= 0xffff {
            acc = acc + 1;
        } else {
            acc = acc + 2;
        }
        i = i + 1;
    }
    proof {
        assert(input@.take(n as int) =~= input@);
    }
    acc
}

/// Flattening a prefix of a list appends one node's bytes at a time.
proof fn lemma_nodes_bytes_take_snoc(w: Seq<GNode>, i: int)
    requires
        0 <= i < w.len(),
    ensures
        nodes_bytes(w.take(i + 1)) == nodes_bytes(w.take(i)) + node_bytes(w[i]),
    decreases i,
{
    if i == 0 {
        assert(w.take(1).drop_first() =~= Seq::<GNode>::empty());
        assert(w.take(1)[0] == w[0]);
        assert(w.take(0) =~= Seq::<GNode>::empty());
        assert(node_bytes(w[0]) + Seq::<u8>::empty() =~= Seq::<u8>::empty() + node_bytes(w[0]));
    } else {
        lemma_nodes_bytes_take_snoc(w.drop_first(), i - 1);
        assert(w.take(i + 1)[0] == w[0]);
        assert(w.take(i)[0] == w[0]);
        assert(w.take(i + 1).drop_first() =~= w.drop_first().take(i));
        assert(w.take(i).drop_first() =~= w.drop_first().take(i - 1));
        assert(w.drop_first()[i - 1] == w[i]);
        assert(node_bytes(w[0]) + (nodes_bytes(w.drop_first().take(i - 1)) + node_bytes(w[i]))
            =~= (node_bytes(w[0]) + nodes_bytes(w.drop_first().take(i - 1))) + node_bytes(w[i]));
    }
}

/// Every node of a list whose sizes fit has fitting sizes itself.
proof fn lemma_all_sizes_fit_index(w: Seq<GNode>, i: int)
    requires
        0 <= i < w.len(),
        all_sizes_fit(w),
    ensures
        sizes_fit(w[i]),
    decreases i,
{
    if i > 0 {
        lemma_all_sizes_fit_index(w.drop_first(), i - 1);
        assert(w.drop_first()[i - 1] == w[i]);
    }
}

/// Append a byte span to the output.
fn append_bytes(output: &mut Vec<u8>, s: &[u8])
    ensures
        final(output)@ == old(output)@ + s@,
{
    let mut i: usize = 0;
    while i < s.len()
        invariant
            0 <= i <= s@.len(),
            output@ == old(output)@ + s@.take(i as int),
        decreases s@.len() - i,
    {
        output.push(*vstd::slice::slice_index_get(s, i));
        proof {
            assert(old(output)@ + s@.take(i + 1) =~= (old(output)@ + s@.take(i as int)).push(
                s@[i as int],
            ));
        }
        i = i + 1;
    }
    proof {
        assert(s@.take(s@.len() as int) =~= s@);
    }
}

impl<'a> Node<'a> {
    /// Flatten the node into `output`, in the binary layout of
    /// `node_bytes`: a type tag, single-byte lengths, the texts, the
    /// children.
    #[verifier::rlimit(100)]
    #[verifier::loop_isolation(false)]
    pub fn into_bytes(&self, output: &mut Vec<u8>)
        requires
            sizes_fit(node_view(*self)),
        ensures
            final(output)@ == old(output)@ + node_bytes(node_view(*self)),
        decreases *self,
    {
        match self {
            Node::Block { name, attributes, children } => {
                let ghost g = node_view(*self);
                let ghost ns = name.0@;
                let ghost nm = name.1@;
                let ghost w = nodes_view(children@);
                let name_length = name.0.len() + name.1.len() + 1;
                let attributes_length = match attributes {
                    Some(a) => a.len(),
                    None => 4,
                };
                let number_of_children = children.len();
                output.push(1);
                output.push(#[verifier::truncate] (name_length as u8));
                output.push(#[verifier::truncate] (attributes_length as u8));
                output.push(#[verifier::truncate] (number_of_children as u8));
                let ghost hdr = seq![
                    1u8,
                    (((ns.len() + nm.len() + 1) % 256) as u8),
                    ((attributes_length as nat % 256) as u8),
                    ((children@.len() % 256) as u8),
                ];
                proof {
                    crate::ast::lemma_nodes_view_len(children@);
                    assert(node_view(*self) is Block);
                    assert(name_length as u8 == ((name_length % 256) as u8)) by (bit_vector);
                    assert(attributes_length as u8 == ((attributes_length % 256) as u8))
                        by (bit_vector);
                    assert(number_of_children as u8 == ((number_of_children % 256) as u8))
                        by (bit_vector);
                    assert(output@ =~= old(output)@ + hdr);
                }
                append_bytes(output, name.0);
                output.push(0x2f);
                append_bytes(output, name.1);
                let ghost pre_attrs = old(output)@ + hdr + ns + seq![0x2fu8] + nm;
                proof {
                    assert(output@ =~= pre_attrs);
                }
                let ghost abytes: Seq<u8> = match *attributes {
                    Some(a) => a@,
                    None => null_bytes(),
                };
                match attributes {
                    Some(a) => append_bytes(output, a),
                    None => {
                        output.push(0x6e);
                        output.push(0x75);
                        output.push(0x6c);
                        output.push(0x6c);
                    },
                }
                let ghost base = pre_attrs + abytes;
                proof {
                    assert(output@ =~= base);
                    assert(nodes_bytes(w.take(0)) =~= Seq::<u8>::empty());
                    assert(base + nodes_bytes(w.take(0)) =~= base);
                }
                let cs = children.as_slice();
                let mut i: usize = 0;
                while i < cs.len()
                    invariant
                        cs@ == children@,
                        w == nodes_view(children@),
                        w.len() == children@.len(),
                        all_sizes_fit(w),
                        0 <= i <= cs@.len(),
                        output@ == base + nodes_bytes(w.take(i as int)),
                    decreases cs@.len() - i,
                {
                    let child = vstd::slice::slice_index_get(cs, i);
                    proof {
                        lemma_nodes_view_index(children@, i as int);
                        lemma_all_sizes_fit_index(w, i as int);
                        assert(decreases_to!(*self => *children));
                        assert(decreases_to!(*children => children@));
                        assert(decreases_to!(children@ => children@[i as int]));
                    }
                    child.into_bytes(output);
                    proof {
                        lemma_nodes_bytes_take_snoc(w, i as int);
                    }
                    i = i + 1;
                }
                proof {
                    assert(w.take(w.len() as int) =~= w);
                    assert(node_bytes(g) == hdr + ns + seq![0x2fu8] + nm + abytes + nodes_bytes(w));
                    assert(base + nodes_bytes(w) =~= old(output)@ + node_bytes(g));
                }
            },
            Node::Phrase(phrase) => {
                let ghost p = phrase@;
                output.push(2);
                let plen = phrase.len();
                let l = #[verifier::truncate] (plen as u16);
                proof {
                    assert(plen as u16 == ((plen % 0x10000) as u16)) by (bit_vector);
                    assert(l == p.len() % 0x10000);
                }
                let pair = u16_to_u8s(l);
                output.push(pair.0);
                output.push(pair.1);
                append_bytes(output, phrase);
                proof {
                    let lg = p.len() % 0x10000;
                    assert(pair.0 == ((lg / 256) as u8));
                    assert(pair.1 == ((lg % 256) as u8));
                    assert(node_bytes(node_view(*self)) == seq![
                        2u8,
                        ((lg / 256) as u8),
                        ((lg % 256) as u8),
                    ] + p);
                    assert(output@ =~= old(output)@ + (seq![2u8, pair.0, pair.1] + p));
                }
            },
        }
    }
}

/// What one byte of text becomes in a JSON string literal: newlines,
/// carriage returns, tabs and double quotes gain a backslash, everything
/// else stands as it is.
pub open spec fn escaped_byte(b: u8) -> Seq<u8> {
    if b == 0x0a {
        seq![0x5cu8, 0x6eu8]
    } else if b == 0x0d {
        seq![0x5cu8, 0x72u8]
    } else if b == 0x09 {
        seq![0x5cu8, 0x74u8]
    } else if b == 0x22 {
        seq![0x5cu8, 0x22u8]
    } else {
        seq![b]
    }
}

/// `escaped_byte`, over a whole text.
pub open spec fn escaped(bs: Seq<u8>) -> Seq<u8>
    decreases bs.len(),
{
    if bs.len() == 0 {
        Seq::empty()
    } else {
        escaped(bs.drop_last()) + escaped_byte(bs.last())
    }
}

/// Escape a text for inclusion in a JSON string literal. Only ASCII
/// bytes are rewritten, so the transformation is exactly the character
/// escaping of the JSON output, whatever non-ASCII bytes the span holds.
pub fn escape_json_literal(input: &[u8]) -> (r: Vec<u8>)
    ensures
        r@ == escaped(input@),
{
    let mut out: Vec<u8> = Vec::new();
    let mut i: usize = 0;
    while i < input.len()
        invariant
            0 <= i <= input@.len(),
            out@ == escaped(input@.take(i as int)),
        decreases input@.len() - i,
    {
        let b = *vstd::slice::slice_index_get(input, i);
        proof {
            assert(input@.take(i + 1).drop_last() =~= input@.take(i as int));
            assert(input@.take(i + 1).last() == input@[i as int]);
        }
        if b == 0x0a {
            out.push(0x5c);
            out.push(0x6e);
        } else if b == 0x0d {
            out.push(0x5c);
            out.push(0x72);
        } else if b == 0x09 {
            out.push(0x5c);
            out.push(0x74);
        } else if b == 0x22 {
            out.push(0x5c);
            out.push(0x22);
        } else {
            out.push(b);
        }
        proof {
            assert(out@ =~= escaped(input@.take(i + 1)));
        }
        i = i + 1;
    }
    proof {
        assert(input@.take(input@.len() as int) =~= input@);
    }
    out
}

} // verus!
