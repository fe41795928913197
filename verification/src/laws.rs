//! The global properties of the grammar, stated over the model and proved
//! once and for all: the round-trip decomposition of the consumed prefix,
//! and the zero-copy origin of every span in the tree.

use vstd::prelude::*;

use crate::ast::GNode;
use crate::combinators::begins_with;
use crate::combinators::lemma_run_len;
use crate::combinators::lemma_scan_from_inv;
use crate::combinators::ws_len;
use crate::parser::attrs_lookahead;
use crate::parser::core_ns;
use crate::parser::rbrace;
use crate::parser::spec_block;
use crate::parser::spec_block_attributes;
use crate::parser::spec_block_list;
use crate::parser::spec_block_name;
use crate::parser::spec_block_open;
use crate::parser::spec_name_part;
use crate::parser::spec_namespaced_block_name;
use crate::parser::spec_phrase;
use crate::parser::tag_balanced_end;

verus! {

// ----------------------------------------------------------------------
// Round trip.
// ----------------------------------------------------------------------

/// The source length of each top-level item the parse of `s` recognizes,
/// in document order.
pub open spec fn spec_item_lens(s: Seq<u8>) -> Seq<nat>
    decreases s.len(),
{
    if s.len() == 0 {
        Seq::empty()
    } else {
        match spec_block(s) {
            Some((n, node)) => if 0 < n <= s.len() {
                seq![n] + spec_item_lens(s.skip(n as int))
            } else {
                Seq::empty()
            },
            None => match spec_phrase(s) {
                Some(n) => if 0 < n <= s.len() {
                    seq![n] + spec_item_lens(s.skip(n as int))
                } else {
                    Seq::empty()
                },
                None => Seq::empty(),
            },
        }
    }
}

/// The sum of a sequence of lengths.
pub open spec fn lens_sum(lens: Seq<nat>) -> nat
    decreases lens.len(),
{
    if lens.len() == 0 {
        0
    } else {
        (lens[0] + lens_sum(lens.drop_first())) as nat
    }
}

/// The concatenation of the consecutive segments of `s` cut by `lens`.
pub open spec fn seg_concat(s: Seq<u8>, lens: Seq<nat>) -> Seq<u8>
    decreases lens.len(),
{
    if lens.len() == 0 {
        Seq::empty()
    } else {
        s.take(lens[0] as int) + seg_concat(s.skip(lens[0] as int), lens.drop_first())
    }
}

/// Each segment parses to exactly the node standing at its position: a
/// block whose recognition consumes the whole segment, or a phrase whose
/// span is the segment itself.
pub open spec fn items_match(s: Seq<u8>, lens: Seq<nat>, nodes: Seq<GNode>) -> bool
    decreases lens.len(),
{
    if lens.len() == 0 {
        nodes.len() == 0
    } else {
        &&& nodes.len() > 0
        &&& 0 < lens[0] <= s.len()
        &&& match spec_block(s) {
            Some((n, node)) => n == lens[0] && node == nodes[0],
            None => spec_phrase(s) == Some(lens[0]) && nodes[0] == GNode::Phrase(
                s.take(lens[0] as int),
            ),
        }
        &&& items_match(s.skip(lens[0] as int), lens.drop_first(), nodes.drop_first())
    }
}

/// Round-trip law: the parse of `s` cuts its consumed prefix into
/// contiguous segments, one per top-level node in document order;
/// concatenating those segments reproduces exactly the consumed prefix,
/// and each segment re-parses to precisely the node it produced. Applied
/// to the interior of a balanced block, whose children are by definition
/// the parse of the text between its delimiters, the same law decomposes
/// every level of the tree.
pub proof fn theorem_round_trip(s: Seq<u8>)
    ensures
        spec_block_list(s).0 <= s.len(),
        spec_item_lens(s).len() == spec_block_list(s).1.len(),
        lens_sum(spec_item_lens(s)) == spec_block_list(s).0,
        seg_concat(s, spec_item_lens(s)) == s.take(spec_block_list(s).0 as int),
        items_match(s, spec_item_lens(s), spec_block_list(s).1),
    decreases s.len(),
{
    if s.len() == 0 {
        assert(seg_concat(s, spec_item_lens(s)) =~= s.take(0));
    } else {
        let stepped: Option<nat> = match spec_block(s) {
            Some((n, node)) => if 0 < n <= s.len() {
                Some(n)
            } else {
                None
            },
            None => match spec_phrase(s) {
                Some(n) => if 0 < n <= s.len() {
                    Some(n)
                } else {
                    None
                },
                None => None,
            },
        };
        match stepped {
            Some(n) => {
                let rest = s.skip(n as int);
                theorem_round_trip(rest);
                let lens2 = spec_item_lens(rest);
                let lens = spec_item_lens(s);
                let m = spec_block_list(rest).0;
                assert(lens == seq![n] + lens2);
                assert(lens[0] == n);
                assert(lens.drop_first() =~= lens2);
                assert(spec_block_list(s).0 == n + m);
                assert(spec_block_list(s).1.drop_first() =~= spec_block_list(rest).1);
                assert(seg_concat(s, lens) == s.take(n as int) + seg_concat(rest, lens2));
                assert(s.take(n as int) + rest.take(m as int) =~= s.take(n + m as int));
            },
            None => {
                assert(spec_block_list(s).0 == 0);
                assert(spec_block_list(s).1 =~= Seq::<GNode>::empty());
                assert(spec_item_lens(s) =~= Seq::<nat>::empty());
                assert(seg_concat(s, spec_item_lens(s)) =~= s.take(0));
            },
        }
    }
}

// ----------------------------------------------------------------------
// Zero copy.
// ----------------------------------------------------------------------

/// `t` occurs verbatim in `s`: it equals some contiguous subrange.
pub open spec fn span_in(s: Seq<u8>, t: Seq<u8>) -> bool {
    exists|i: int| 0 <= i && i + t.len() <= s.len() && t == #[trigger] s.subrange(i, i + t.len() as int)
}

/// Introduce a witness for `span_in`.
proof fn lemma_span_in_at(s: Seq<u8>, i: int, t: Seq<u8>)
    requires
        0 <= i,
        i + t.len() <= s.len(),
        t == s.subrange(i, i + t.len() as int),
    ensures
        span_in(s, t),
{
}

/// Every span held by the node occurs verbatim in `s`; the one exception
/// is the namespace of a block written without one, which is the literal
/// `core`.
pub open spec fn node_spans_in(s: Seq<u8>, n: GNode) -> bool
    decreases n,
{
    match n {
        GNode::Phrase(p) => span_in(s, p),
        GNode::Block { ns, name, attrs, children } => {
            &&& (ns == core_ns() || span_in(s, ns))
            &&& span_in(s, name)
            &&& match attrs {
                Some(a) => span_in(s, a),
                None => true,
            }
            &&& nodes_spans_in(s, children)
        },
    }
}

/// `node_spans_in`, over a sequence of nodes.
pub open spec fn nodes_spans_in(s: Seq<u8>, v: Seq<GNode>) -> bool
    decreases v,
{
    if v.len() == 0 {
        true
    } else {
        node_spans_in(s, v[0]) && nodes_spans_in(s, v.drop_first())
    }
}

/// A span of a suffix of `s` is a span of `s`.
proof fn lemma_span_in_skip(s: Seq<u8>, k: int, t: Seq<u8>)
    requires
        0 <= k <= s.len(),
        span_in(s.skip(k), t),
    ensures
        span_in(s, t),
{
    let i = choose|i: int|
        0 <= i && i + t.len() <= s.skip(k).len() && t == #[trigger] s.skip(k).subrange(
            i,
            i + t.len() as int,
        );
    assert(s.skip(k).subrange(i, i + t.len() as int) =~= s.subrange(k + i, (k + i) + t.len() as int));
    lemma_span_in_at(s, k + i, t);
}

/// `node_spans_in` is preserved when the reference text grows from a
/// suffix to the whole.
proof fn lemma_node_spans_skip(s: Seq<u8>, k: int, n: GNode)
    requires
        0 <= k <= s.len(),
        node_spans_in(s.skip(k), n),
    ensures
        node_spans_in(s, n),
    decreases n, 0int,
{
    match n {
        GNode::Phrase(p) => {
            lemma_span_in_skip(s, k, p);
        },
        GNode::Block { ns, name, attrs, children } => {
            if ns != core_ns() {
                lemma_span_in_skip(s, k, ns);
            }
            lemma_span_in_skip(s, k, name);
            match attrs {
                Some(a) => {
                    lemma_span_in_skip(s, k, a);
                },
                None => {},
            }
            lemma_nodes_spans_skip(s, k, children);
        },
    }
}

/// `nodes_spans_in` is preserved when the reference text grows from a
/// suffix to the whole.
proof fn lemma_nodes_spans_skip(s: Seq<u8>, k: int, v: Seq<GNode>)
    requires
        0 <= k <= s.len(),
        nodes_spans_in(s.skip(k), v),
    ensures
        nodes_spans_in(s, v),
    decreases v, 1int,
{
    if v.len() > 0 {
        lemma_node_spans_skip(s, k, v[0]);
        lemma_nodes_spans_skip(s, k, v.drop_first());
    }
}

/// The name spans a successful `spec_block_name` yields occur in its
/// input, except for the synthesized `core` namespace.
proof fn lemma_block_name_spans(s: Seq<u8>)
    requires
        spec_block_name(s) is Some,
    ensures
        ({
            let (nlen, ns, nm) = spec_block_name(s)->Some_0;
            &&& nlen <= s.len()
            &&& (ns == core_ns() || span_in(s, ns))
            &&& span_in(s, nm)
        }),
{
    lemma_run_len(s, |b: u8| crate::combinators::is_extended_byte(b));
    let (nlen, ns, nm) = spec_block_name(s)->Some_0;
    if spec_namespaced_block_name(s) is Some {
        let n1 = spec_name_part(s)->Some_0;
        let n2 = spec_name_part(s.skip(n1 + 1 as int))->Some_0;
        lemma_run_len(s.skip(n1 + 1 as int), |b: u8| crate::combinators::is_extended_byte(b));
        assert(ns == s.take(n1 as int));
        assert(ns == s.subrange(0, 0 + ns.len() as int));
        lemma_span_in_at(s, 0, ns);
        assert(nm == s.skip(n1 + 1 as int).take(n2 as int));
        assert(nm =~= s.subrange(n1 + 1 as int, (n1 + 1) + nm.len() as int));
        lemma_span_in_at(s, n1 + 1 as int, nm);
    } else {
        let n1 = spec_name_part(s)->Some_0;
        assert(nm == s.take(n1 as int));
        assert(nm == s.subrange(0, 0 + nm.len() as int));
        lemma_span_in_at(s, 0, nm);
    }
}

/// Zero-copy law for one block: every span of the node that
/// `spec_block` recognizes occurs verbatim in the input.
proof fn lemma_block_spans(s: Seq<u8>)
    requires
        spec_block(s) is Some,
    ensures
        node_spans_in(s, spec_block(s)->Some_0.1),
    decreases s.len(), 0int,
{
    let (on, ns, nm, attrs) = spec_block_open(s)->Some_0;
    lemma_block_open_spans(s);
    let s6 = s.skip(on as int);
    let (n, node) = spec_block(s)->Some_0;
    if begins_with(s6, tag_balanced_end()) {
        let s7 = s6.skip(3);
        let (clen, children) = spec_block_list(s7);
        lemma_list_spans(s7);
        assert(s7 =~= s.skip(on + 3 as int));
        lemma_nodes_spans_skip(s, on + 3 as int, children);
    } else {
        assert(nodes_spans_in(s, Seq::<GNode>::empty()));
    }
}

/// Zero-copy law for the opening of a block.
proof fn lemma_block_open_spans(s: Seq<u8>)
    requires
        spec_block_open(s) is Some,
    ensures
        ({
            let (on, ns, nm, attrs) = spec_block_open(s)->Some_0;
            &&& on <= s.len()
            &&& (ns == core_ns() || span_in(s, ns))
            &&& span_in(s, nm)
            &&& match attrs {
                Some(a) => span_in(s, a),
                None => true,
            }
        }),
{
    let (on, ns, nm, attrs) = spec_block_open(s)->Some_0;
    lemma_run_len(s.skip(4), |b: u8| crate::combinators::is_ws_byte(b));
    let p1 = 4 + ws_len(s.skip(4)) as int;
    let s1 = s.skip(p1);
    let s2 = s1.skip(3);
    assert(s2 =~= s.skip(p1 + 3));
    lemma_block_name_spans(s2);
    let nlen = spec_block_name(s2)->Some_0.0;
    let s3 = s2.skip(nlen as int);
    let s4 = s3.skip(ws_len(s3) as int);
    lemma_run_len(s3, |b: u8| crate::combinators::is_ws_byte(b));
    assert(s3 =~= s.skip(p1 + 3 + nlen));
    assert(s4 =~= s.skip(p1 + 3 + nlen + ws_len(s3)));
    if ns != core_ns() {
        lemma_span_in_skip(s, p1 + 3, ns);
    }
    lemma_span_in_skip(s, p1 + 3, nm);
    match spec_block_attributes(s4) {
        Some(alen) => {
            lemma_scan_from_inv(s4, rbrace(), attrs_lookahead(), 0);
            assert(s4.take(alen as int) == s4.subrange(0, 0 + s4.take(alen as int).len() as int));
            lemma_span_in_at(s4, 0, s4.take(alen as int));
            lemma_span_in_skip(s, p1 + 3 + nlen + ws_len(s3) as int, s4.take(alen as int));
        },
        None => {},
    }
}

/// Zero-copy law for a list: every span held by any node the parse of `s`
/// recognizes occurs verbatim in `s`.
proof fn lemma_list_spans(s: Seq<u8>)
    ensures
        nodes_spans_in(s, spec_block_list(s).1),
    decreases s.len(), 1int,
{
    if s.len() == 0 {
    } else {
        match spec_block(s) {
            Some((n, node)) => {
                if 0 < n <= s.len() {
                    lemma_block_spans(s);
                    lemma_list_spans(s.skip(n as int));
                    lemma_nodes_spans_skip(s, n as int, spec_block_list(s.skip(n as int)).1);
                    assert(spec_block_list(s).1.drop_first() =~= spec_block_list(
                        s.skip(n as int),
                    ).1);
                    assert(spec_block_list(s).1[0] == node);
                    assert(node_spans_in(s, node));
                    assert(nodes_spans_in(s, spec_block_list(s).1.drop_first()));
                    assert(nodes_spans_in(s, spec_block_list(s).1));
                } else {
                    assert(spec_block_list(s).1 =~= Seq::<GNode>::empty());
                    assert(nodes_spans_in(s, spec_block_list(s).1));
                }
            },
            None => {
                match spec_phrase(s) {
                    Some(n) => {
                        if 0 < n <= s.len() {
                            assert(s.take(n as int) == s.subrange(
                                0,
                                0 + s.take(n as int).len() as int,
                            ));
                            lemma_span_in_at(s, 0, s.take(n as int));
                            lemma_list_spans(s.skip(n as int));
                            lemma_nodes_spans_skip(s, n as int, spec_block_list(s.skip(n as int)).1);
                            assert(spec_block_list(s).1.drop_first() =~= spec_block_list(
                                s.skip(n as int),
                            ).1);
                            assert(spec_block_list(s).1[0] == GNode::Phrase(s.take(n as int)));
                            assert(node_spans_in(s, GNode::Phrase(s.take(n as int))));
                            assert(nodes_spans_in(s, spec_block_list(s).1));
                        } else {
                            assert(spec_block_list(s).1 =~= Seq::<GNode>::empty());
                            assert(nodes_spans_in(s, spec_block_list(s).1));
                        }
                    },
                    None => {
                        assert(spec_block_list(s).1 =~= Seq::<GNode>::empty());
                        assert(nodes_spans_in(s, spec_block_list(s).1));
                    },
                }
            },
        }
    }
}

/// Zero-copy law: no byte span held by any node of the parse of `s`
/// differs from a contiguous subrange of `s`; the one exception is the
/// namespace of a block written without one, which is the literal `core`.
pub proof fn theorem_zero_copy(s: Seq<u8>)
    ensures
        nodes_spans_in(s, spec_block_list(s).1),
{
    lemma_list_spans(s);
}

} // verus!
