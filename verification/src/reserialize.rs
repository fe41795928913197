//! Idempotence of re-serialization: rendering an AST back into the
//! annotation syntax and parsing the result yields a structurally equal
//! AST.
//!
//! `encode_nodes` is the canonical renderer an external collaborator
//! would use: one space between the fields of a delimiter, the `core`
//! namespace left implicit, a void block for an empty child list. The
//! well-formedness predicates capture what is true of every AST this
//! grammar produces, and under them the round trip is exact.

use vstd::prelude::*;

use crate::ast::GNode;
use crate::combinators::GLookahead;
use crate::combinators::begins_with;
use crate::combinators::is_extended_byte;
use crate::combinators::is_lower_byte;
use crate::combinators::is_ws_byte;
use crate::combinators::la_matches;
use crate::combinators::lemma_scan_from_found;
use crate::combinators::lemma_scan_from_inv;
use crate::combinators::lemma_scan_from_none;
use crate::combinators::scan_from;
use crate::combinators::terminator_at;
use crate::combinators::ws_len;
use crate::parser::attrs_lookahead;
use crate::parser::comment_open;
use crate::parser::core_ns;
use crate::parser::phrase_lookahead;
use crate::parser::rbrace;
use crate::parser::spec_block;
use crate::parser::spec_block_attributes;
use crate::parser::spec_block_list;
use crate::parser::spec_block_name;
use crate::parser::spec_block_open;
use crate::parser::spec_closing;
use crate::parser::spec_name_part;
use crate::parser::spec_namespaced_block_name;
use crate::parser::spec_phrase;
use crate::parser::tag_balanced_end;
use crate::parser::tag_close_wp;
use crate::parser::tag_void_end;
use crate::parser::tag_wp;

verus! {

// ----------------------------------------------------------------------
// The canonical encoder.
// ----------------------------------------------------------------------

/// One space.
pub open spec fn sp() -> Seq<u8> {
    seq![0x20u8]
}

/// The source form of a block name: the bare name under the default
/// namespace, `namespace/name` otherwise.
pub open spec fn encode_name(ns: Seq<u8>, nm: Seq<u8>) -> Seq<u8> {
    if ns == core_ns() {
        nm
    } else {
        ns + seq![0x2fu8] + nm
    }
}

/// The closing tag of a balanced block.
pub open spec fn encode_closing(ns: Seq<u8>, nm: Seq<u8>) -> Seq<u8> {
    comment_open() + sp() + tag_close_wp() + encode_name(ns, nm) + sp() + tag_balanced_end()
}

/// The opening of a block, up to but not including `-->` or `/-->`.
pub open spec fn encode_head(ns: Seq<u8>, nm: Seq<u8>, attrs: Option<Seq<u8>>) -> Seq<u8> {
    comment_open() + sp() + tag_wp() + encode_name(ns, nm) + sp() + (match attrs {
        Some(a) => a + sp(),
        None => Seq::empty(),
    })
}

/// The canonical annotation syntax of one node.
pub open spec fn encode_node(n: GNode) -> Seq<u8>
    decreases n,
{
    match n {
        GNode::Phrase(p) => p,
        GNode::Block { ns, name, attrs, children } => {
            if children.len() == 0 {
                encode_head(ns, name, attrs) + tag_void_end()
            } else {
                encode_head(ns, name, attrs) + tag_balanced_end() + encode_nodes(children)
                    + encode_closing(ns, name)
            }
        },
    }
}

/// The canonical annotation syntax of a list of nodes, in order.
pub open spec fn encode_nodes(v: Seq<GNode>) -> Seq<u8>
    decreases v,
{
    if v.len() == 0 {
        Seq::empty()
    } else {
        encode_node(v[0]) + encode_nodes(v.drop_first())
    }
}

// ----------------------------------------------------------------------
// Well-formedness: what is true of every AST this grammar produces.
// ----------------------------------------------------------------------

/// A name part: non-empty, a lowercase letter first, every byte in
/// `[a-z0-9_-]`.
pub open spec fn wf_name_part(x: Seq<u8>) -> bool {
    &&& x.len() >= 1
    &&& is_lower_byte(x[0])
    &&& forall|i: int| 0 <= i < x.len() ==> is_extended_byte(#[trigger] x[i])
}

/// The lookahead of the phrase terminator, read within a single text.
pub open spec fn inner_phrase_la(t: Seq<u8>) -> bool {
    let r = t.skip(ws_len(t) as int);
    begins_with(r, tag_close_wp()) || begins_with(r, tag_wp())
}

/// A confirmed block delimiter lying entirely inside `p`.
pub open spec fn inner_phrase_term(p: Seq<u8>, q: int) -> bool {
    &&& 0 <= q
    &&& q + 4 <= p.len()
    &&& p.subrange(q, q + 4) == comment_open()
    &&& inner_phrase_la(p.skip(q + 4))
}

/// A phrase span never contains a confirmed block delimiter.
pub open spec fn phrase_clean(p: Seq<u8>) -> bool {
    forall|q: int| !inner_phrase_term(p, q)
}

/// The lookahead of the attributes terminator, read within a single text.
pub open spec fn inner_attr_la(t: Seq<u8>) -> bool {
    let r = t.skip(ws_len(t) as int);
    begins_with(r, tag_void_end()) || begins_with(r, tag_balanced_end())
}

/// A confirmed attributes terminator lying entirely inside `a`.
pub open spec fn inner_attr_term(a: Seq<u8>, j: int) -> bool {
    &&& 0 <= j
    &&& j < a.len()
    &&& a[j] == 0x7d
    &&& inner_attr_la(a.skip(j + 1))
}

/// An attributes span: braces at both ends, and no byte before the final
/// `}` is a confirmed terminator.
pub open spec fn wf_attr(a: Seq<u8>) -> bool {
    &&& a.len() >= 2
    &&& a[0] == 0x7b
    &&& a[a.len() - 1] == 0x7d
    &&& forall|j: int| 0 <= j < a.len() - 1 ==> !inner_attr_term(a, j)
}

/// Well-formedness of one node.
pub open spec fn wf_node(n: GNode) -> bool
    decreases n,
{
    match n {
        GNode::Phrase(p) => p.len() >= 1 && phrase_clean(p),
        GNode::Block { ns, name, attrs, children } => {
            &&& wf_name_part(ns)
            &&& wf_name_part(name)
            &&& match attrs {
                Some(a) => wf_attr(a),
                None => true,
            }
            &&& wf_nodes(children)
        },
    }
}

/// Well-formedness of a sibling list: every node is well-formed and no
/// phrase is immediately followed by another phrase.
pub open spec fn wf_nodes(v: Seq<GNode>) -> bool
    decreases v,
{
    if v.len() == 0 {
        true
    } else {
        &&& wf_node(v[0])
        &&& (v[0] is Phrase && v.len() > 1 ==> !(v[1] is Phrase))
        &&& wf_nodes(v.drop_first())
    }
}

// ----------------------------------------------------------------------
// Transfer lemmas: reading a run or a literal through a concatenation.
// ----------------------------------------------------------------------

/// The phrase terminator is confirmed wherever `<!--`, one space, and
/// `wp:` or `/wp:` stand in a row.
proof fn lemma_term_at_sp_tag(u: Seq<u8>, q: int, tag: Seq<u8>)
    requires
        0 <= q,
        q + 5 + tag.len() <= u.len(),
        u.subrange(q, q + 4) == comment_open(),
        u[q + 4] == 0x20,
        u.subrange(q + 5, q + 5 + tag.len() as int) == tag,
        tag == tag_wp() || tag == tag_close_wp(),
    ensures
        terminator_at(u, comment_open(), phrase_lookahead(), q),
{
    let t = u.skip(q + 4);
    assert(t[0] == 0x20);
    assert(t[1] == u[q + 5]);
    assert(u[q + 5] == tag[0]);
    assert(!is_ws_byte(tag[0]));
    crate::combinators::lemma_ws_len_is(t, 1);
    assert(t.skip(1).subrange(0, tag.len() as int) =~= u.subrange(q + 5, q + 5 + tag.len() as int));
    assert(begins_with(t.skip(1), tag));
    assert(u.skip(q + comment_open().len() as int) == t);
}

/// Inside a clean span that is followed by nothing or by a `<`, no
/// position confirms the phrase terminator.
proof fn lemma_clean_region(p: Seq<u8>, rest: Seq<u8>)
    requires
        phrase_clean(p),
        rest.len() == 0 || rest[0] == 0x3c,
    ensures
        forall|q: int|
            0 <= q < p.len() ==> !terminator_at(
                p + rest,
                comment_open(),
                phrase_lookahead(),
                q,
            ),
{
    let u = p + rest;
    assert forall|q: int| 0 <= q < p.len() implies !terminator_at(
        u,
        comment_open(),
        phrase_lookahead(),
        q,
    ) by {
        lemma_clean_region_one(p, rest, q);
    }
}

/// `lemma_clean_region`, one position at a time.
proof fn lemma_clean_region_one(p: Seq<u8>, rest: Seq<u8>, q: int)
    requires
        phrase_clean(p),
        rest.len() == 0 || rest[0] == 0x3c,
        0 <= q < p.len(),
    ensures
        !terminator_at(p + rest, comment_open(), phrase_lookahead(), q),
{
    let u = p + rest;
    if terminator_at(p + rest, comment_open(), phrase_lookahead(), q) {
        if q + 4 > p.len() {
            // The `<!--` would straddle the boundary: the byte at the
            // boundary is `<`, but no byte of `<!--` past its first is `<`.
            let d = p.len() - q;
            assert(1 <= d < 4);
            assert(u.subrange(q, q + 4)[d] == u[p.len() as int]);
            assert(u[p.len() as int] == rest[0]);
            assert(comment_open()[d] != 0x3c);
            assert(false);
        } else {
            let t = u.skip(q + 4);
            let tp = p.skip(q + 4);
            let w = ws_len(t);
            crate::combinators::lemma_ws_len_facts(t);
            let r = t.skip(w as int);
            let tag: Seq<u8> = if begins_with(r, tag_close_wp()) {
                tag_close_wp()
            } else {
                tag_wp()
            };
            assert(begins_with(r, tag));
            assert(tag[0] != 0x3c && tag[0] != 0x20);
            let k = q + 4 + w;
            // The whitespace run cannot cross the boundary: the boundary
            // byte is `<`, which is not whitespace.
            if k > p.len() {
                assert(t[p.len() - (q + 4)] == rest[0]);
                assert(is_ws_byte(t[p.len() - (q + 4)]));
                assert(false);
            }
            // The tag cannot begin at the boundary: its first byte is not `<`.
            if k == p.len() {
                if rest.len() == 0 {
                    assert(r.len() == 0);
                    assert(false);
                } else {
                    assert(r[0] == u[k]);
                    assert(u[k] == rest[0]);
                    assert(false);
                }
            }
            assert(k < p.len());
            // The tag cannot straddle the boundary: no byte of either tag
            // past its first is `<`.
            if k + tag.len() > p.len() {
                let d = p.len() - k;
                assert(1 <= d < tag.len());
                assert(r.subrange(0, tag.len() as int)[d] == u[p.len() as int]);
                assert(tag[d] != 0x3c);
                assert(false);
            }
            // So the whole lookahead lies inside `p`: a clean span forbids it.
            assert(w < p.len() - (q + 4) || w == p.len() - (q + 4));
            assert(w < tp.len());
            assert forall|i: int| 0 <= i < w implies is_ws_byte(#[trigger] tp[i]) by {
                assert(tp[i] == t[i]);
            }
            assert(tp[w as int] == t[w as int]);
            crate::combinators::lemma_ws_len_is(tp, w);
            let rp = tp.skip(w as int);
            assert(rp.subrange(0, tag.len() as int) =~= r.subrange(0, tag.len() as int));
            assert(begins_with(rp, tag));
            assert(p.subrange(q, q + 4) =~= u.subrange(q, q + 4));
            assert(inner_phrase_term(p, q));
            assert(false);
        }    }
}

/// Inside a well-formed attributes span followed by a space, no position
/// before the final `}` confirms the attributes terminator.
proof fn lemma_attr_region_one(a: Seq<u8>, rest: Seq<u8>, j: int)
    requires
        wf_attr(a),
        rest.len() >= 1,
        rest[0] == 0x20,
        0 <= j < a.len() - 1,
    ensures
        !terminator_at(a + rest, rbrace(), attrs_lookahead(), j),
{
    let u = a + rest;
    if terminator_at(u, rbrace(), attrs_lookahead(), j) {
        assert(u.subrange(j, j + 1)[0] == u[j]);
        assert(u[j] == a[j]);
        assert(a[j] == 0x7d);
        let t = u.skip(j + 1);
        let ta = a.skip(j + 1);
        let w = ws_len(t);
        crate::combinators::lemma_ws_len_facts(t);
        let r = t.skip(w as int);
        let tag: Seq<u8> = if begins_with(r, tag_void_end()) {
            tag_void_end()
        } else {
            tag_balanced_end()
        };
        assert(begins_with(r, tag));
        assert(tag[0] == 0x2d || tag[0] == 0x2f);
        let k = j + 1 + w;
        // The final `}` of the span is not whitespace, so the run stops
        // inside the span.
        let last = a.len() - 1;
        if k > last {
            if w > last - (j + 1) {
                assert(t[last - (j + 1)] == a[last]);
                assert(is_ws_byte(t[last - (j + 1)]));
                assert(false);
            }
        }
        assert(k <= last);
        if k == last {
            assert(r[0] == u[k]);
            assert(u[k] == a[last]);
            assert(a[last] == 0x7d);
            assert(false);
        }
        assert(k < last);
        // The tag cannot straddle the end of the span: the byte after the
        // span is a space, and no byte of either tag is a space.
        if k + tag.len() > a.len() {
            if k < a.len() {
                let d = a.len() - k;
                assert(1 <= d < tag.len());
                assert(r.subrange(0, tag.len() as int)[d] == u[a.len() as int]);
                assert(u[a.len() as int] == rest[0]);
                assert(tag[d] != 0x20);
                assert(false);
            }
        }
        assert(k + tag.len() <= a.len());
        // So the whole lookahead lies inside the span: forbidden.
        assert(w < ta.len());
        assert forall|i: int| 0 <= i < w implies is_ws_byte(#[trigger] ta[i]) by {
            assert(ta[i] == t[i]);
        }
        assert(ta[w as int] == t[w as int]);
        crate::combinators::lemma_ws_len_is(ta, w);
        let ra = ta.skip(w as int);
        assert(ra.subrange(0, tag.len() as int) =~= r.subrange(0, tag.len() as int));
        assert(begins_with(ra, tag));
        assert(inner_attr_term(a, j));
        assert(false);    }
}

/// A well-formed attributes span followed by a space and a block end
/// re-parses to exactly itself.
proof fn lemma_attr_reencode(a: Seq<u8>, rest: Seq<u8>)
    requires
        wf_attr(a),
        rest.len() >= 4,
        rest[0] == 0x20,
        begins_with(rest.skip(1), tag_balanced_end()) || begins_with(rest.skip(1), tag_void_end()),
    ensures
        spec_block_attributes(a + rest) == Some(a.len() as nat),
{
    let u = a + rest;
    assert(u[0] == a[0]);
    let last = a.len() - 1;
    assert(rest[1] == rest.skip(1)[0]);
    assert(rest[1] == 0x2d || rest[1] == 0x2f);
    // The terminator is confirmed at the final `}` of the span.
    assert(u.subrange(last, last + 1) =~= rbrace());
    let t = u.skip(last + 1);
    assert(t[0] == rest[0]);
    assert(t[1] == rest[1]);
    crate::combinators::lemma_ws_len_is(t, 1);
    let r = t.skip(1);
    let close: Seq<u8> = if begins_with(rest.skip(1), tag_void_end()) {
        tag_void_end()
    } else {
        tag_balanced_end()
    };
    assert(r.subrange(0, close.len() as int) =~= rest.skip(1).subrange(0, close.len() as int));
    assert(begins_with(r, close));
    assert(la_matches(attrs_lookahead(), u.skip(last + rbrace().len() as int)));
    assert(terminator_at(u, rbrace(), attrs_lookahead(), last));
    // And at no position before it.
    assert forall|j: int| 0 <= j < last implies !terminator_at(u, rbrace(), attrs_lookahead(), j) by {
        lemma_attr_region_one(a, rest, j);
    }
    lemma_scan_from_found(u, rbrace(), attrs_lookahead(), 0, last);
}

/// The canonical form of a well-formed name, followed by anything that
/// neither extends the name nor introduces a namespace, re-parses to
/// exactly the namespace and name it was built from.
proof fn lemma_name_reencode(ns: Seq<u8>, nm: Seq<u8>, rest: Seq<u8>)
    requires
        wf_name_part(ns),
        wf_name_part(nm),
        rest.len() >= 1,
        !is_extended_byte(rest[0]),
        rest[0] != 0x2f,
    ensures
        spec_block_name(encode_name(ns, nm) + rest) == Some(
            ((encode_name(ns, nm).len()) as nat, ns, nm),
        ),
{
    let e = encode_name(ns, nm);
    let u = e + rest;
    if ns == core_ns() {
        // `nm + rest`: the extended run is exactly `nm`.
        assert(u[0] == nm[0]);
        assert forall|i: int| 0 <= i < nm.len() implies is_extended_byte(#[trigger] u[i]) by {
            assert(u[i] == nm[i]);
        }
        assert(u[nm.len() as int] == rest[0]);
        crate::combinators::lemma_ext_len_is(u, nm.len());
        // No `/` follows the first part, so the namespaced form fails
        // and the bare form synthesizes `core`.
        assert(spec_name_part(u) == Some(nm.len()));
        assert(spec_namespaced_block_name(u) is None);
        assert(u.take(nm.len() as int) =~= nm);
    } else {
        // `ns / nm + rest`: the first run is `ns`, stopped by the `/`.
        assert(u[0] == ns[0]);
        assert forall|i: int| 0 <= i < ns.len() implies is_extended_byte(#[trigger] u[i]) by {
            assert(u[i] == ns[i]);
        }
        assert(u[ns.len() as int] == 0x2f);
        assert(!is_extended_byte(0x2f));
        crate::combinators::lemma_ext_len_is(u, ns.len());
        assert(spec_name_part(u) == Some(ns.len()));
        // The second run is `nm`, stopped by `rest`.
        let v = u.skip(ns.len() + 1 as int);
        assert(v[0] == nm[0]);
        assert forall|i: int| 0 <= i < nm.len() implies is_extended_byte(#[trigger] v[i]) by {
            assert(v[i] == nm[i]);
        }
        assert(v[nm.len() as int] == rest[0]);
        crate::combinators::lemma_ext_len_is(v, nm.len());
        assert(spec_name_part(v) == Some(nm.len()));
        assert(u.take(ns.len() as int) =~= ns);
        assert(v.take(nm.len() as int) =~= nm);
        assert(e.len() == ns.len() + 1 + nm.len());
    }
}

/// The canonical closing tag, followed by anything, re-parses to exactly
/// its own length.
proof fn lemma_closing_reencode(ns: Seq<u8>, nm: Seq<u8>, rest: Seq<u8>)
    requires
        wf_name_part(ns),
        wf_name_part(nm),
    ensures
        spec_closing(encode_closing(ns, nm) + rest) == Some(encode_closing(ns, nm).len() as nat),
{
    let e = encode_name(ns, nm);
    let c = encode_closing(ns, nm);
    let u = c + rest;
    // Layout: `<!--`, ` `, `/wp:`, name, ` `, `-->`.
    assert(c == comment_open() + sp() + tag_close_wp() + e + sp() + tag_balanced_end());
    assert(u.subrange(0, 4) =~= comment_open());
    assert(begins_with(u, comment_open()));
    let t0 = u.skip(4);
    assert(t0[0] == 0x20);
    assert(t0[1] == tag_close_wp()[0]);
    crate::combinators::lemma_ws_len_is(t0, 1);
    let s1 = u.skip(5);
    assert(s1.subrange(0, 4) =~= tag_close_wp());
    assert(begins_with(s1, tag_close_wp()));
    let s2 = u.skip(9);
    assert(s2 =~= e + (sp() + tag_balanced_end() + rest));
    let rest2 = sp() + tag_balanced_end() + rest;
    assert(rest2[0] == 0x20);
    assert(!is_extended_byte(0x20) && 0x20 != 0x2f);
    lemma_name_reencode(ns, nm, rest2);
    let s3 = s2.skip(e.len() as int);
    assert(s3 =~= sp() + tag_balanced_end() + rest);
    assert(s3[0] == 0x20);
    assert(s3[1] == 0x2d);
    crate::combinators::lemma_ws_len_is(s3, 1);
    let s4 = s3.skip(1);
    assert(s4.subrange(0, 3) =~= tag_balanced_end());
    assert(begins_with(s4, tag_balanced_end()));
    assert(u.skip(4).skip(ws_len(u.skip(4)) as int) =~= s1);
    assert(s1.skip(4) =~= s2);
    assert(s2.skip(spec_block_name(s2)->Some_0.0 as int) == s3);
    assert(s3.skip(ws_len(s3) as int) == s4);
    assert(c.len() == 5 + 4 + e.len() + 1 + 3);
}

/// The canonical opening of a block, followed by a block end, re-parses
/// to exactly the namespace, name and attributes it was built from.
#[verifier::rlimit(100)]
proof fn lemma_head_reencode(ns: Seq<u8>, nm: Seq<u8>, attrs: Option<Seq<u8>>, rest: Seq<u8>)
    requires
        wf_name_part(ns),
        wf_name_part(nm),
        attrs matches Some(a) ==> wf_attr(a),
        rest.len() >= 3,
        begins_with(rest, tag_balanced_end()) || begins_with(rest, tag_void_end()),
    ensures
        spec_block_open(encode_head(ns, nm, attrs) + rest) == Some(
            (encode_head(ns, nm, attrs).len() as nat, ns, nm, attrs),
        ),
{
    let e = encode_name(ns, nm);
    let el = e.len() as int;
    let h = encode_head(ns, nm, attrs);
    let u = h + rest;
    assert(rest[0] == 0x2d || rest[0] == 0x2f);
    assert(u.subrange(0, 4) =~= comment_open());
    assert(begins_with(u, comment_open()));
    let t0 = u.skip(4);
    assert(t0[0] == 0x20);
    assert(t0[1] == tag_wp()[0]);
    crate::combinators::lemma_ws_len_is(t0, 1);
    let s1 = u.skip(5);
    assert(s1.subrange(0, 3) =~= tag_wp());
    assert(begins_with(s1, tag_wp()));
    let s2 = u.skip(8);
    assert(u.skip(5).skip(3) =~= u.skip(8));
    let rest2 = u.skip(8 + el);
    assert(s2 =~= e + rest2);
    assert(rest2[0] == u[8 + el]);
    assert(u[8 + el] == 0x20);
    lemma_name_reencode(ns, nm, rest2);
    assert(spec_block_name(s2) == Some((e.len(), ns, nm)));
    let s3 = s2.skip(el);
    assert(s3 =~= u.skip(8 + el));
    assert(s3[0] == 0x20);
    match attrs {
        Some(a) => {
            let al = a.len() as int;
            assert(u.subrange(9 + el, 9 + el + al) =~= a);
            assert(s3[1] == u[9 + el]);
            assert(u[9 + el] == a[0]);
            assert(a[0] == 0x7b);
            assert(!is_ws_byte(0x7b));
            crate::combinators::lemma_ws_len_is(s3, 1);
            let s4 = s3.skip(1);
            assert(s4 =~= u.skip(9 + el));
            let rest3 = u.skip(9 + el + al);
            assert(s4 =~= a + rest3);
            assert(rest3[0] == u[9 + el + al]);
            assert(u[9 + el + al] == 0x20);
            assert(rest3.skip(1) =~= u.skip(10 + el + al));
            assert(u.skip(10 + el + al) =~= rest);
            lemma_attr_reencode(a, rest3);
            assert(spec_block_attributes(s4) == Some(a.len() as nat));
            let s5 = s4.skip(al);
            assert(s5 =~= u.skip(9 + el + al));
            assert(s5[0] == 0x20);
            assert(s5[1] == rest[0]);
            crate::combinators::lemma_ws_len_is(s5, 1);
            assert(h.len() == 10 + el + al);
            assert(s4.take(al) =~= a);
            assert(spec_block_open(u) == Some((h.len() as nat, ns, nm, attrs)));
        },
        None => {
            assert(h.len() == 9 + el);
            assert(s3[1] == u[9 + el]);
            assert(u[9 + el] == rest[0]);
            crate::combinators::lemma_ws_len_is(s3, 1);
            let s4 = s3.skip(1);
            assert(s4 =~= rest);
            assert(s4[0] == rest[0]);
            assert(spec_block_attributes(s4) is None);
            crate::combinators::lemma_ws_len_is(s4.skip(0), 0);
            assert(s4.skip(0) =~= s4);
            assert(spec_block_open(u) == Some((h.len() as nat, ns, nm, attrs)));
        },
    }
}

/// What a list may be followed by: nothing, or a closing tag, which
/// neither a block nor a phrase can start with.
pub open spec fn list_blocker(rest: Seq<u8>) -> bool {
    rest.len() == 0 || begins_with(rest, comment_open() + sp() + tag_close_wp())
}

/// At a closing tag, both alternatives of the list fail.
proof fn lemma_blocker_stops(rest: Seq<u8>)
    requires
        list_blocker(rest),
        rest.len() > 0,
    ensures
        spec_block(rest) is None,
        spec_phrase(rest) is None,
        terminator_at(rest, comment_open(), phrase_lookahead(), 0),
        rest[0] == 0x3c,
{
    let pre = comment_open() + sp() + tag_close_wp();
    assert(pre.len() == 9);
    assert(rest.subrange(0, 9) == pre);
    assert forall|i: int| 0 <= i < 9 implies rest[i] == pre[i] by {
        assert(rest.subrange(0, 9)[i] == rest[i]);
    }
    assert(rest.subrange(0, 4) =~= comment_open());
    assert(rest[4] == 0x20);
    assert(rest.subrange(5, 9) =~= tag_close_wp());
    lemma_term_at_sp_tag(rest, 0, tag_close_wp());
    lemma_scan_from_found(rest, comment_open(), phrase_lookahead(), 0, 0);
    assert(spec_phrase(rest) is None);
    // A block would need `wp:` where `/wp:` stands.
    let t0 = rest.skip(4);
    assert(t0[0] == 0x20);
    assert(t0[1] == 0x2f);
    crate::combinators::lemma_ws_len_is(t0, 1);
    let s1 = rest.skip(5);
    if begins_with(s1, tag_wp()) {
        assert(s1.subrange(0, 3)[0] == s1[0]);
        assert(s1[0] == 0x2f);
        assert(false);
    }
    assert(spec_block_open(rest) is None);
}

/// The prefix every encoded block carries.
proof fn lemma_block_encode_prefix(n: GNode)
    requires
        n is Block,
        wf_node(n),
    ensures
        encode_node(n).len() >= 14,
        encode_node(n).subrange(0, 4) == comment_open(),
        encode_node(n)[4] == 0x20,
        encode_node(n).subrange(5, 8) == tag_wp(),
{
    match n {
        GNode::Block { ns, name, attrs, children } => {
            let h = encode_head(ns, name, attrs);
            let b = encode_node(n);
            assert(h.len() >= 9 + encode_name(ns, name).len());
            assert(encode_name(ns, name).len() >= 1);
            if children.len() == 0 {
                assert(b == h + tag_void_end());
            } else {
                assert(encode_closing(ns, name).len() >= 13);
            }
            assert(b.subrange(0, 4) =~= comment_open());
            assert(b[4] == 0x20);
            assert(b.subrange(5, 8) =~= tag_wp());
        },
        GNode::Phrase(_) => {},
    }
}

/// An encoded well-formed block, followed by anything, re-parses to
/// exactly the node it renders.
#[verifier::rlimit(100)]
proof fn lemma_block_reencode(n: GNode, rest: Seq<u8>)
    requires
        n is Block,
        wf_node(n),
    ensures
        encode_node(n).len() >= 14,
        spec_block(encode_node(n) + rest) == Some((encode_node(n).len() as nat, n)),
    decreases n,
{
    lemma_block_encode_prefix(n);
    match n {
        GNode::Block { ns, name, attrs, children } => {
            let h = encode_head(ns, name, attrs);
            let b = encode_node(n);
            let u = b + rest;
            if children.len() == 0 {
                let rest1 = tag_void_end() + rest;
                assert(u =~= h + rest1);
                assert(rest1.subrange(0, 4) =~= tag_void_end());
                assert(begins_with(rest1, tag_void_end()));
                lemma_head_reencode(ns, name, attrs, rest1);
                let s6 = u.skip(h.len() as int);
                assert(s6 =~= rest1);
                if begins_with(s6, tag_balanced_end()) {
                    assert(s6.subrange(0, 3)[0] == s6[0]);
                    assert(s6[0] == 0x2f);
                    assert(false);
                }
                assert(children =~= Seq::<GNode>::empty());
                assert(b.len() == h.len() + 4);
                assert(spec_block(u) == Some((b.len() as nat, n)));
            } else {
                let cl = encode_closing(ns, name);
                let cs = encode_nodes(children);
                let rest1 = tag_balanced_end() + (cs + (cl + rest));
                assert(u =~= h + rest1);
                assert(rest1.subrange(0, 3) =~= tag_balanced_end());
                assert(begins_with(rest1, tag_balanced_end()));
                lemma_head_reencode(ns, name, attrs, rest1);
                let s6 = u.skip(h.len() as int);
                assert(s6 =~= rest1);
                let s7 = s6.skip(3);
                assert(s7 =~= cs + (cl + rest));
                // The closing tag blocks the child list.
                assert((cl + rest).subrange(0, 9) =~= comment_open() + sp() + tag_close_wp());
                assert(begins_with(cl + rest, comment_open() + sp() + tag_close_wp()));
                lemma_list_reencode(children, cl + rest);
                let s8 = s7.skip(cs.len() as int);
                assert(s8 =~= cl + rest);
                lemma_closing_reencode(ns, name, rest);
                assert(b.len() == h.len() + 3 + cs.len() + cl.len());
                assert(s7.len() < u.len());
                assert(spec_block(u) == Some((b.len() as nat, n)));
            }
        },
        GNode::Phrase(_) => {},
    }
}

/// An encoded well-formed list, followed by a blocker, re-parses to
/// exactly the nodes it renders, consuming exactly their rendering.
#[verifier::rlimit(100)]
proof fn lemma_list_reencode(v: Seq<GNode>, rest: Seq<u8>)
    requires
        wf_nodes(v),
        list_blocker(rest),
    ensures
        spec_block_list(encode_nodes(v) + rest) == ((encode_nodes(v).len() as nat, v)),
    decreases v,
{
    let u = encode_nodes(v) + rest;
    if v.len() == 0 {
        assert(u =~= rest);
        if rest.len() == 0 {
            assert(spec_block_list(u) == ((0nat, Seq::<GNode>::empty())));
        } else {
            lemma_blocker_stops(rest);
            assert(spec_block_list(u) == ((0nat, Seq::<GNode>::empty())));
        }
        assert(v =~= Seq::<GNode>::empty());
    } else {
        let n0 = v[0];
        let tail = encode_nodes(v.drop_first()) + rest;
        assert(u =~= encode_node(n0) + tail);
        if n0 is Block {
            lemma_block_reencode(n0, tail);
            let b0 = encode_node(n0).len() as int;
            assert(spec_block(u) == Some((b0 as nat, n0)));
            assert(u.skip(b0) =~= tail);
            lemma_list_reencode(v.drop_first(), rest);
            assert(0 < b0 <= u.len());
            assert(spec_block_list(u).0 == b0 + encode_nodes(v.drop_first()).len());
            assert(spec_block_list(u).1 == seq![n0] + v.drop_first());
            assert(seq![n0] + v.drop_first() =~= v);
            assert(encode_nodes(v).len() == b0 + encode_nodes(v.drop_first()).len());
        } else {
            lemma_list_phrase_step(v, rest);
            let p = encode_node(n0);
            assert(p.len() >= 1) by {
                match n0 {
                    GNode::Phrase(ph) => {},
                    GNode::Block { .. } => {},
                }
            }
            assert(u.skip(p.len() as int) =~= tail);
            lemma_list_reencode(v.drop_first(), rest);
            assert(u.take(p.len() as int) =~= p);
            assert(GNode::Phrase(u.take(p.len() as int)) == n0) by {
                match n0 {
                    GNode::Phrase(ph) => {},
                    GNode::Block { .. } => {},
                }
            }
            assert(0 < p.len() <= u.len());
            assert(spec_block_list(u).0 == p.len() + encode_nodes(v.drop_first()).len());
            assert(spec_block_list(u).1 == seq![n0] + v.drop_first());
            assert(seq![n0] + v.drop_first() =~= v);
            assert(encode_nodes(v).len() == p.len() + encode_nodes(v.drop_first()).len());
        }
    }
}

/// At a phrase item, the block alternative fails and the phrase consumes
/// exactly the item's span.
#[verifier::rlimit(100)]
proof fn lemma_list_phrase_step(v: Seq<GNode>, rest: Seq<u8>)
    requires
        wf_nodes(v),
        list_blocker(rest),
        v.len() > 0,
        !(v[0] is Block),
    ensures
        spec_block(encode_nodes(v) + rest) is None,
        spec_phrase(encode_nodes(v) + rest) == Some(encode_node(v[0]).len() as nat),
    decreases v.len(),
{
    let u = encode_nodes(v) + rest;
    let n0 = v[0];
    let tail = encode_nodes(v.drop_first()) + rest;
    assert(u =~= encode_node(n0) + tail);
    assert(wf_node(n0));
    match n0 {
        GNode::Block { .. } => {},
        GNode::Phrase(p) => {
            assert(encode_node(n0) == p);
            assert(p.len() >= 1);
            assert(phrase_clean(p));
            // What follows the phrase starts with `<`, or is nothing.
            if v.len() > 1 {
                assert(!(v[1] is Phrase));
                assert(v.drop_first()[0] == v[1]);
                assert(wf_nodes(v.drop_first()));
                assert(wf_node(v[1]));
                lemma_block_encode_prefix(v[1]);
                let b1 = encode_node(v[1]);
                assert(encode_nodes(v.drop_first()) == b1 + encode_nodes(
                    v.drop_first().drop_first(),
                ));
                assert(tail =~= b1 + (encode_nodes(v.drop_first().drop_first()) + rest));
                assert(tail.len() >= 14);
                assert(tail.subrange(0, 4) =~= b1.subrange(0, 4));
                assert(tail[4] == b1[4]);
                assert(tail.subrange(5, 8) =~= b1.subrange(5, 8));
                assert(tail[0] == comment_open()[0]);
            } else {
                assert(v.drop_first() =~= Seq::<GNode>::empty());
                assert(encode_nodes(v.drop_first()) =~= Seq::<u8>::empty());
                assert(tail =~= rest);
                if rest.len() > 0 {
                    lemma_blocker_stops(rest);
                    assert(tail[0] == 0x3c);
                }
            }
            assert(tail.len() == 0 || tail[0] == 0x3c);
            // A block cannot start here: that would be a confirmed
            // delimiter inside a clean span.
            if begins_with(u, comment_open()) {
                let w0 = ws_len(u.skip(4));
                crate::combinators::lemma_ws_len_facts(u.skip(4));
                if begins_with(u.skip(4 + w0 as int), tag_wp()) {
                    assert(u.skip(4).skip(w0 as int) =~= u.skip(4 + w0 as int));
                    assert(la_matches(phrase_lookahead(), u.skip(4)));
                    assert(u.skip(0 + comment_open().len() as int) == u.skip(4));
                    assert(terminator_at(u, comment_open(), phrase_lookahead(), 0));
                    lemma_clean_region_one(p, tail, 0);
                    assert(false);
                }
            }
            assert(spec_block_open(u) is None);
            assert(spec_block(u) is None);
            // The phrase stops exactly at the boundary.
            lemma_clean_region(p, tail);
            let pl = p.len() as int;
            if tail.len() == 0 {
                assert forall|j: int| 0 <= j implies !terminator_at(
                    u,
                    comment_open(),
                    phrase_lookahead(),
                    j,
                ) by {
                    if j >= p.len() {
                        assert(j + comment_open().len() > u.len());
                    }
                }
                lemma_scan_from_none(u, comment_open(), phrase_lookahead(), 0);
                assert(u.len() == p.len());
                assert(spec_phrase(u) == Some(p.len() as nat));
            } else {
                if v.len() > 1 {
                    let b1 = encode_node(v[1]);
                    assert(u.skip(pl) =~= tail);
                    assert(u.subrange(pl, pl + 4) =~= tail.subrange(0, 4));
                    assert(u[pl + 4] == tail[4]);
                    assert(u.subrange(pl + 5, pl + 8) =~= tail.subrange(5, 8));
                    assert(u.subrange(pl, pl + 4) =~= b1.subrange(0, 4));
                    assert(u.subrange(pl + 5, pl + 8) =~= b1.subrange(5, 8));
                    lemma_term_at_sp_tag(u, pl, tag_wp());
                } else {
                    let pre = comment_open() + sp() + tag_close_wp();
                    assert(rest.subrange(0, 9) == pre);
                    assert(u.skip(pl) =~= rest);
                    assert(u.subrange(pl, pl + 4) =~= pre.subrange(0, 4));
                    assert(pre.subrange(0, 4) =~= comment_open());
                    assert(u[pl + 4] == rest[4]);
                    assert(rest[4] == pre[4]);
                    assert(u.subrange(pl + 5, pl + 9) =~= pre.subrange(5, 9));
                    assert(pre.subrange(5, 9) =~= tag_close_wp());
                    lemma_term_at_sp_tag(u, pl, tag_close_wp());
                }
                lemma_scan_from_found(u, comment_open(), phrase_lookahead(), 0, pl);
                assert(spec_phrase(u) == Some(p.len() as nat));
            }
        },
    }
}

/// Idempotence of re-serialization: rendering a well-formed AST in the
/// canonical annotation syntax and parsing the result consumes the whole
/// rendering and yields a structurally equal AST.
pub proof fn theorem_reencode_parse(v: Seq<GNode>)
    requires
        wf_nodes(v),
    ensures
        spec_block_list(encode_nodes(v)) == ((encode_nodes(v).len() as nat, v)),
{
    lemma_list_reencode(v, Seq::empty());
    assert(encode_nodes(v) + Seq::<u8>::empty() =~= encode_nodes(v));
}

// ----------------------------------------------------------------------
// What the parser produces is well-formed.
// ----------------------------------------------------------------------

/// A terminator confirmed at `i` is confirmed at the head of the suffix.
proof fn lemma_term_shift(s: Seq<u8>, sub: Seq<u8>, la: GLookahead, i: int)
    requires
        terminator_at(s, sub, la, i),
    ensures
        terminator_at(s.skip(i), sub, la, 0),
{
    assert(s.skip(i).subrange(0, sub.len() as int) =~= s.subrange(i, i + sub.len() as int));
    assert(s.skip(i).skip(sub.len() as int) =~= s.skip(i + sub.len() as int));
}

/// A terminator confirmed inside a prefix of `s4` is confirmed in `s4`.
proof fn lemma_inner_attr_to_term(s4: Seq<u8>, i: int, j: int)
    requires
        0 <= j < i,
        i + 1 <= s4.len(),
        inner_attr_term(s4.take(i + 1), j),
    ensures
        terminator_at(s4, rbrace(), attrs_lookahead(), j),
{
    let a = s4.take(i + 1);
    assert(a[j] == s4[j]);
    assert(s4.subrange(j, j + 1) =~= rbrace());
    let ta = a.skip(j + 1);
    let ts = s4.skip(j + 1);
    crate::combinators::lemma_ws_len_facts(ta);
    let w = ws_len(ta);
    let ra = ta.skip(w as int);
    let tag: Seq<u8> = if begins_with(ra, tag_void_end()) {
        tag_void_end()
    } else {
        tag_balanced_end()
    };
    assert(begins_with(ra, tag));
    assert(tag.len() >= 3);
    assert(w + 3 <= ta.len());
    assert forall|x: int| 0 <= x < w implies is_ws_byte(#[trigger] ts[x]) by {
        assert(ts[x] == ta[x]);
    }
    assert(ts[w as int] == ta[w as int]);
    crate::combinators::lemma_ws_len_is(ts, w);
    let rs = ts.skip(w as int);
    assert(rs.subrange(0, tag.len() as int) =~= ra.subrange(0, tag.len() as int));
    assert(begins_with(rs, tag));
}

/// A delimiter confirmed inside a prefix of `s` is confirmed in `s`.
proof fn lemma_inner_phrase_to_term(s: Seq<u8>, n: int, q: int)
    requires
        0 <= n <= s.len(),
        inner_phrase_term(s.take(n), q),
    ensures
        terminator_at(s, comment_open(), phrase_lookahead(), q),
{
    let p = s.take(n);
    assert(s.subrange(q, q + 4) =~= p.subrange(q, q + 4));
    let ta = p.skip(q + 4);
    let ts = s.skip(q + 4);
    crate::combinators::lemma_ws_len_facts(ta);
    let w = ws_len(ta);
    let ra = ta.skip(w as int);
    let tag: Seq<u8> = if begins_with(ra, tag_close_wp()) {
        tag_close_wp()
    } else {
        tag_wp()
    };
    assert(begins_with(ra, tag));
    assert(tag.len() >= 3);
    assert(w + 3 <= ta.len());
    assert forall|x: int| 0 <= x < w implies is_ws_byte(#[trigger] ts[x]) by {
        assert(ts[x] == ta[x]);
    }
    assert(ts[w as int] == ta[w as int]);
    crate::combinators::lemma_ws_len_is(ts, w);
    let rs = ts.skip(w as int);
    assert(rs.subrange(0, tag.len() as int) =~= ra.subrange(0, tag.len() as int));
    assert(begins_with(rs, tag));
}

/// The attributes span a successful scan yields is well-formed.
proof fn lemma_wf_attr_of_spec(s4: Seq<u8>)
    requires
        spec_block_attributes(s4) is Some,
    ensures
        wf_attr(s4.take(spec_block_attributes(s4)->Some_0 as int)),
{
    let i = scan_from(s4, rbrace(), attrs_lookahead(), 0)->Some_0;
    lemma_scan_from_inv(s4, rbrace(), attrs_lookahead(), 0);
    assert(s4.subrange(i, i + 1)[0] == s4[i]);
    assert(s4[i] == 0x7d);
    let a = s4.take(i + 1);
    assert(a[0] == s4[0]);
    assert(i >= 1);
    assert(a[a.len() - 1] == s4[i]);
    assert forall|j: int| 0 <= j < a.len() - 1 implies !inner_attr_term(a, j) by {
        if inner_attr_term(a, j) {
            lemma_inner_attr_to_term(s4, i, j);
        }
    }
}

/// The span a successful phrase yields is non-empty and clean.
proof fn lemma_wf_phrase_of_spec(s: Seq<u8>)
    requires
        spec_phrase(s) is Some,
    ensures
        1 <= spec_phrase(s)->Some_0 <= s.len(),
        phrase_clean(s.take(spec_phrase(s)->Some_0 as int)),
{
    lemma_scan_from_inv(s, comment_open(), phrase_lookahead(), 0);
    let n = spec_phrase(s)->Some_0 as int;
    match scan_from(s, comment_open(), phrase_lookahead(), 0) {
        Some(i) => {
            assert(n == i);
            assert forall|q: int| !inner_phrase_term(s.take(n), q) by {
                if inner_phrase_term(s.take(n), q) {
                    lemma_inner_phrase_to_term(s, n, q);
                    assert(q + 4 <= n);
                    assert(false);
                }
            }
        },
        None => {
            assert(n == s.len());
            assert forall|q: int| !inner_phrase_term(s.take(n), q) by {
                if inner_phrase_term(s.take(n), q) {
                    lemma_inner_phrase_to_term(s, n, q);
                    assert(false);
                }
            }
        },
    }
}

/// The namespace and name a successful `spec_block_name` yields are
/// well-formed name parts.
proof fn lemma_wf_name_of_spec(s: Seq<u8>)
    requires
        spec_block_name(s) is Some,
    ensures
        wf_name_part(spec_block_name(s)->Some_0.1),
        wf_name_part(spec_block_name(s)->Some_0.2),
{
    crate::combinators::lemma_ext_len_facts(s);
    let n1 = crate::combinators::ext_len(s) as int;
    assert(n1 >= 1) by {
        if n1 == 0 {
            assert(!is_extended_byte(s[0]));
        }
    }
    assert forall|x: int| 0 <= x < n1 implies is_extended_byte(#[trigger] s.take(n1)[x]) by {
        assert(s.take(n1)[x] == s[x]);
    }
    if spec_namespaced_block_name(s) is Some {
        let v = s.skip(n1 + 1);
        crate::combinators::lemma_ext_len_facts(v);
        let n2 = crate::combinators::ext_len(v) as int;
        assert(n2 >= 1) by {
            if n2 == 0 {
                assert(!is_extended_byte(v[0]));
            }
        }
        assert forall|x: int| 0 <= x < n2 implies is_extended_byte(#[trigger] v.take(n2)[x]) by {
            assert(v.take(n2)[x] == v[x]);
        }
    } else {
        assert(wf_name_part(core_ns())) by {
            assert(core_ns()[0] == 0x63);
            assert(core_ns()[1] == 0x6f);
            assert(core_ns()[2] == 0x72);
            assert(core_ns()[3] == 0x65);
            assert forall|x: int| 0 <= x < core_ns().len() implies is_extended_byte(
                #[trigger] core_ns()[x],
            ) by {
                if x == 0 {
                } else if x == 1 {
                } else if x == 2 {
                } else {
                    assert(x == 3);
                }
            }
        }
    }
}

/// The node a successful `spec_block` yields is a well-formed block.
proof fn lemma_wf_block_of_spec(s: Seq<u8>)
    requires
        spec_block(s) is Some,
    ensures
        wf_node(spec_block(s)->Some_0.1),
        spec_block(s)->Some_0.1 is Block,
    decreases s.len(), 0int,
{
    let (on, ns, nm, attrs) = spec_block_open(s)->Some_0;
    let p1 = 4 + ws_len(s.skip(4)) as int;
    let s2 = s.skip(p1).skip(3);
    lemma_wf_name_of_spec(s2);
    let nlen = spec_block_name(s2)->Some_0.0;
    let s3 = s2.skip(nlen as int);
    let s4 = s3.skip(ws_len(s3) as int);
    match spec_block_attributes(s4) {
        Some(alen) => {
            lemma_wf_attr_of_spec(s4);
        },
        None => {},
    }
    let s6 = s.skip(on as int);
    if begins_with(s6, tag_balanced_end()) {
        let s7 = s6.skip(3);
        lemma_wf_list_of_spec(s7);
    } else {
        assert(wf_nodes(Seq::<GNode>::empty()));
    }
}

/// Every node the axiom rule yields is well-formed, and no phrase node is
/// immediately followed by another phrase node.
proof fn lemma_wf_list_of_spec(s: Seq<u8>)
    ensures
        wf_nodes(spec_block_list(s).1),
    decreases s.len(), 1int,
{
    if s.len() == 0 {
    } else {
        match spec_block(s) {
            Some((n, node)) => {
                if 0 < n <= s.len() {
                    lemma_wf_block_of_spec(s);
                    lemma_wf_list_of_spec(s.skip(n as int));
                    assert(spec_block_list(s).1[0] == node);
                    assert(spec_block_list(s).1.drop_first() =~= spec_block_list(
                        s.skip(n as int),
                    ).1);
                    assert(wf_node(node));
                    assert(!(node is Phrase));
                    assert(wf_nodes(spec_block_list(s).1));
                }
            },
            None => {
                match spec_phrase(s) {
                    Some(n) => {
                        if 0 < n <= s.len() {
                            lemma_wf_phrase_of_spec(s);
                            lemma_wf_list_of_spec(s.skip(n as int));
                            let node = GNode::Phrase(s.take(n as int));
                            let rest = s.skip(n as int);
                            let rest_nodes = spec_block_list(rest).1;
                            assert(spec_block_list(s).1[0] == node);
                            assert(spec_block_list(s).1.drop_first() =~= rest_nodes);
                            // The item after a phrase, if any, is a block:
                            // the phrase stopped either at the end of the
                            // input or at a confirmed delimiter, where a
                            // phrase cannot start.
                            match scan_from(s, comment_open(), phrase_lookahead(), 0) {
                                Some(i) => {
                                    lemma_scan_from_inv(s, comment_open(), phrase_lookahead(), 0);
                                    assert(n == i);
                                    lemma_term_shift(s, comment_open(), phrase_lookahead(), i);
                                    lemma_scan_from_found(
                                        rest,
                                        comment_open(),
                                        phrase_lookahead(),
                                        0,
                                        0,
                                    );
                                    assert(spec_phrase(rest) is None);
                                    if rest_nodes.len() > 0 {
                                        assert(rest.len() > 0);
                                        assert(spec_block(rest) is Some);
                                        lemma_wf_block_of_spec(rest);
                                        assert(rest_nodes[0] is Block);
                                    }
                                },
                                None => {
                                    assert(n == s.len());
                                    assert(rest.len() == 0);
                                    assert(rest_nodes.len() == 0);
                                },
                            }
                            assert(wf_node(node));
                            let whole = spec_block_list(s).1;
                            assert(whole.len() == 1 + rest_nodes.len());
                            assert(whole.len() > 1 ==> whole[1] == rest_nodes[0]);
                            assert(whole.len() > 1 ==> !(whole[1] is Phrase));
                            assert(wf_nodes(whole));
                        }
                    },
                    None => {},
                }
            },
        }
    }
}

/// Idempotence of re-serialization, end to end: whatever AST the axiom
/// rule produces is well-formed, and re-parsing its canonical rendering
/// consumes the whole rendering and yields a structurally equal AST.
pub proof fn theorem_reserialization_idempotent(s: Seq<u8>)
    ensures
        wf_nodes(spec_block_list(s).1),
        spec_block_list(encode_nodes(spec_block_list(s).1)) == ((encode_nodes(
            spec_block_list(s).1,
        ).len() as nat, spec_block_list(s).1)),
{
    lemma_wf_list_of_spec(s);
    theorem_reencode_parse(spec_block_list(s).1);
}

} // verus!
