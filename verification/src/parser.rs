//! The recursive-descent grammar.
//!
//! Each rule is an ordinary function from an input slice to a tagged
//! success/failure result; on success the pair holds the remaining input
//! (always a suffix of the argument) and the recognized value. The spec
//! functions `spec_*` are the mathematical model of the grammar: every
//! rule's contract states that it returns exactly what its model describes.
//!
//! Grammar, in EBNF:
//!
//! ```text
//! block_list            = { block | phrase } ;
//! block                 = block_balanced | block_void ;
//! block_balanced        = "<!--", [ wss ], "wp:", block_name, wss,
//!                         [ block_attributes ], [ wss ], "-->",
//!                         block_list,
//!                         "<!--", [ wss ], "/wp:", block_name, [ wss ], "-->" ;
//! block_void            = "<!--", [ wss ], "wp:", block_name, wss,
//!                         [ block_attributes ], [ wss ], "/-->" ;
//! block_name            = namespaced_block_name | core_block_name ;
//! namespaced_block_name = block_name_part, "/", block_name_part ;
//! core_block_name       = block_name_part ;
//! block_name_part       = letter, { letter | digit | "_" | "-" } ;
//! block_attributes      = "{", ? scan to the "}" followed, after optional
//!                              whitespace, by "/-->" or "-->" ? ;
//! phrase                = ? anything up to, but not including, a "<!--"
//!                           followed, after optional whitespace, by "wp:"
//!                           or "/wp:" ? ;
//! ```

use vstd::prelude::*;

use crate::ast::GNode;
use crate::ast::Node;
use crate::ast::lemma_nodes_view_push;
use crate::ast::node_view;
use crate::ast::nodes_view;
use crate::combinators::GLookahead;
use crate::combinators::Lookahead;
use crate::combinators::ParseError;
use crate::combinators::begins_with;
use crate::combinators::ext_len;
use crate::combinators::ext_run;
use crate::combinators::has_prefix;
use crate::combinators::head;
use crate::combinators::is_lower_byte;
use crate::combinators::scan_from;
use crate::combinators::tail;
use crate::combinators::take_until_terminated;
use crate::combinators::take_until_terminated_and_consume;
use crate::combinators::ws_len;
use crate::combinators::ws_run;

verus! {

// ----------------------------------------------------------------------
// The literal tokens of the grammar.
// ----------------------------------------------------------------------

/// `<!--`
pub open spec fn comment_open() -> Seq<u8> {
    seq![0x3cu8, 0x21u8, 0x2du8, 0x2du8]
}

/// `wp:`
pub open spec fn tag_wp() -> Seq<u8> {
    seq![0x77u8, 0x70u8, 0x3au8]
}

/// `/wp:`
pub open spec fn tag_close_wp() -> Seq<u8> {
    seq![0x2fu8, 0x77u8, 0x70u8, 0x3au8]
}

/// `-->`
pub open spec fn tag_balanced_end() -> Seq<u8> {
    seq![0x2du8, 0x2du8, 0x3eu8]
}

/// `/-->`
pub open spec fn tag_void_end() -> Seq<u8> {
    seq![0x2fu8, 0x2du8, 0x2du8, 0x3eu8]
}

/// `core`, the default namespace.
pub open spec fn core_ns() -> Seq<u8> {
    seq![0x63u8, 0x6fu8, 0x72u8, 0x65u8]
}

/// `}`
pub open spec fn rbrace() -> Seq<u8> {
    seq![0x7du8]
}

/// The lookahead that confirms a `<!--` occurrence as a block delimiter:
/// optional whitespace, then `/wp:` or `wp:`.
pub open spec fn phrase_lookahead() -> GLookahead {
    GLookahead::WsThenEither(tag_close_wp(), tag_wp())
}

/// The lookahead that confirms a `}` occurrence as the end of the
/// attributes: optional whitespace, then `/-->` or `-->`.
pub open spec fn attrs_lookahead() -> GLookahead {
    GLookahead::WsThenEither(tag_void_end(), tag_balanced_end())
}

const COMMENT_OPEN_TOKEN: [u8; 4] = [0x3c, 0x21, 0x2d, 0x2d];

const WP_TOKEN: [u8; 3] = [0x77, 0x70, 0x3a];

const CLOSE_WP_TOKEN: [u8; 4] = [0x2f, 0x77, 0x70, 0x3a];

const BALANCED_END_TOKEN: [u8; 3] = [0x2d, 0x2d, 0x3e];

const VOID_END_TOKEN: [u8; 4] = [0x2f, 0x2d, 0x2d, 0x3e];

const CORE_TOKEN: [u8; 4] = [0x63, 0x6f, 0x72, 0x65];

const RBRACE_TOKEN: [u8; 1] = [0x7d];

fn comment_open_token() -> (r: &'static [u8])
    ensures
        r@ == comment_open(),
{
    let r = COMMENT_OPEN_TOKEN.as_slice();
    proof {
        assert(r@ =~= comment_open());
    }
    r
}

fn wp_token() -> (r: &'static [u8])
    ensures
        r@ == tag_wp(),
{
    let r = WP_TOKEN.as_slice();
    proof {
        assert(r@ =~= tag_wp());
    }
    r
}

fn close_wp_token() -> (r: &'static [u8])
    ensures
        r@ == tag_close_wp(),
{
    let r = CLOSE_WP_TOKEN.as_slice();
    proof {
        assert(r@ =~= tag_close_wp());
    }
    r
}

fn balanced_end_token() -> (r: &'static [u8])
    ensures
        r@ == tag_balanced_end(),
{
    let r = BALANCED_END_TOKEN.as_slice();
    proof {
        assert(r@ =~= tag_balanced_end());
    }
    r
}

fn void_end_token() -> (r: &'static [u8])
    ensures
        r@ == tag_void_end(),
{
    let r = VOID_END_TOKEN.as_slice();
    proof {
        assert(r@ =~= tag_void_end());
    }
    r
}

fn core_token() -> (r: &'static [u8])
    ensures
        r@ == core_ns(),
{
    let r = CORE_TOKEN.as_slice();
    proof {
        assert(r@ =~= core_ns());
    }
    r
}

fn rbrace_token() -> (r: &'static [u8])
    ensures
        r@ == rbrace(),
{
    let r = RBRACE_TOKEN.as_slice();
    proof {
        assert(r@ =~= rbrace());
    }
    r
}

// ----------------------------------------------------------------------
// The model: one spec function per grammar rule, each returning the
// number of consumed bytes and the recognized value, or `None`.
// ----------------------------------------------------------------------

/// Model of `block_name_part`: the maximal run of `[a-z0-9_-]` bytes,
/// accepted when the first byte is a lowercase letter.
pub open spec fn spec_name_part(s: Seq<u8>) -> Option<nat> {
    if s.len() > 0 && is_lower_byte(s[0]) {
        Some(ext_len(s))
    } else {
        None
    }
}

/// Model of `namespaced_block_name`: a name part, a `/`, a name part.
/// Yields the consumed length and the namespace and name spans.
pub open spec fn spec_namespaced_block_name(s: Seq<u8>) -> Option<(nat, Seq<u8>, Seq<u8>)> {
    match spec_name_part(s) {
        None => None,
        Some(n1) => if n1 < s.len() && s[n1 as int] == 0x2f {
            match spec_name_part(s.skip(n1 + 1 as int)) {
                None => None,
                Some(n2) => Some(
                    ((n1 + 1 + n2) as nat, s.take(n1 as int), s.skip(n1 + 1 as int).take(n2 as int)),
                ),
            }
        } else {
            None
        },
    }
}

/// Model of `core_block_name`: a bare name part, with the namespace
/// defaulting to `core`.
pub open spec fn spec_core_block_name(s: Seq<u8>) -> Option<(nat, Seq<u8>, Seq<u8>)> {
    match spec_name_part(s) {
        None => None,
        Some(n) => Some((n, core_ns(), s.take(n as int))),
    }
}

/// Model of `block_name`: the namespaced form wins; otherwise the bare
/// form with the `core` namespace.
pub open spec fn spec_block_name(s: Seq<u8>) -> Option<(nat, Seq<u8>, Seq<u8>)> {
    match spec_namespaced_block_name(s) {
        Some(r) => Some(r),
        None => spec_core_block_name(s),
    }
}

/// Model of `block_attributes`: a `{`, then everything up to and including
/// the first `}` that is followed, after optional whitespace, by `/-->` or
/// `-->`. The consumed span is the attributes span, braces included.
pub open spec fn spec_block_attributes(s: Seq<u8>) -> Option<nat> {
    if s.len() > 0 && s[0] == 0x7b {
        match scan_from(s, rbrace(), attrs_lookahead(), 0) {
            Some(i) => Some((i + 1) as nat),
            None => None,
        }
    } else {
        None
    }
}

/// Model of `phrase`: everything up to, but not including, the first
/// `<!--` that is followed, after optional whitespace, by `wp:` or `/wp:`;
/// the whole input when no such delimiter exists. A phrase is never empty.
pub open spec fn spec_phrase(s: Seq<u8>) -> Option<nat> {
    match scan_from(s, comment_open(), phrase_lookahead(), 0) {
        Some(i) => if i > 0 {
            Some(i as nat)
        } else {
            None
        },
        None => if s.len() > 0 {
            Some(s.len())
        } else {
            None
        },
    }
}

/// Model of the closing tag of a balanced block:
/// `<!--`, optional whitespace, `/wp:`, a block name, optional whitespace,
/// `-->`. The closing name is recognized but deliberately not compared to
/// the opening name: a document with mismatched names parses with the
/// opening name retained.
pub open spec fn spec_closing(s: Seq<u8>) -> Option<nat> {
    if !begins_with(s, comment_open()) {
        None
    } else {
        let p1 = 4 + ws_len(s.skip(4)) as int;
        let s1 = s.skip(p1);
        if !begins_with(s1, tag_close_wp()) {
            None
        } else {
            let s2 = s1.skip(4);
            match spec_block_name(s2) {
                None => None,
                Some((nlen, ns, nm)) => {
                    let s3 = s2.skip(nlen as int);
                    let s4 = s3.skip(ws_len(s3) as int);
                    if begins_with(s4, tag_balanced_end()) {
                        Some((p1 + 4 + nlen + ws_len(s3) + 3) as nat)
                    } else {
                        None
                    }
                },
            }
        }
    }
}

/// Model of the opening of a block, up to but not including the `-->` or
/// `/-->` that decides its kind: `<!--`, optional whitespace, `wp:`, a
/// block name, mandatory whitespace, optional attributes, optional
/// whitespace. Yields the consumed length, the namespace and name spans,
/// and the attributes span.
pub open spec fn spec_block_open(s: Seq<u8>) -> Option<(nat, Seq<u8>, Seq<u8>, Option<Seq<u8>>)> {
    if !begins_with(s, comment_open()) {
        None
    } else {
        let p1 = 4 + ws_len(s.skip(4)) as int;
        let s1 = s.skip(p1);
        if !begins_with(s1, tag_wp()) {
            None
        } else {
            let s2 = s1.skip(3);
            match spec_block_name(s2) {
                None => None,
                Some((nlen, ns, nm)) => {
                    let s3 = s2.skip(nlen as int);
                    if ws_len(s3) == 0 {
                        None
                    } else {
                        let s4 = s3.skip(ws_len(s3) as int);
                        let alen = match spec_block_attributes(s4) {
                            Some(n) => n,
                            None => 0,
                        };
                        let attrs = match spec_block_attributes(s4) {
                            Some(n) => Some(s4.take(n as int)),
                            None => None,
                        };
                        let s5 = s4.skip(alen as int);
                        let opened = p1 + 3 + nlen + ws_len(s3) + alen + ws_len(s5);
                        // A recognized opening always lies within the
                        // input; the bound makes that manifest.
                        if opened <= s.len() {
                            Some((opened as nat, ns, nm, attrs))
                        } else {
                            None
                        }
                    }
                },
            }
        }
    }
}

/// Model of `block`: the opening, then either a void end `/-->`, or a
/// balanced end `-->` followed by a child list and a closing tag.
pub open spec fn spec_block(s: Seq<u8>) -> Option<(nat, GNode)>
    decreases s.len(), 0int,
{
    match spec_block_open(s) {
        None => None,
        Some((on, ns, nm, attrs)) => {
            let s6 = s.skip(on as int);
            if begins_with(s6, tag_balanced_end()) {
                let s7 = s6.skip(3);
                // A block consumes at least its delimiters, so the
                // recursion into its interior is well-founded.
                if 0 < on && s7.len() < s.len() {
                    let (clen, children) = spec_block_list(s7);
                    let s8 = s7.skip(clen as int);
                    match spec_closing(s8) {
                        Some(cl) => Some(
                            (
                                (on + 3 + clen + cl) as nat,
                                GNode::Block { ns, name: nm, attrs, children },
                            ),
                        ),
                        None => None,
                    }
                } else {
                    None
                }
            } else if begins_with(s6, tag_void_end()) {
                Some(
                    ((on + 4) as nat, GNode::Block { ns, name: nm, attrs, children: Seq::empty() }),
                )
            } else {
                None
            }
        },
    }
}

/// Model of `block_list`, the axiom of the grammar: alternate between
/// `block` and `phrase` until neither matches. It never fails; it consumes
/// a prefix and yields the recognized nodes in document order.
pub open spec fn spec_block_list(s: Seq<u8>) -> (nat, Seq<GNode>)
    decreases s.len(), 1int,
{
    if s.len() == 0 {
        (0, Seq::empty())
    } else {
        match spec_block(s) {
            // A recognized item always consumes a non-empty prefix, which
            // keeps the recursion well-founded.
            Some((n, node)) => if 0 < n <= s.len() {
                let (m, rest) = spec_block_list(s.skip(n as int));
                ((n + m) as nat, seq![node] + rest)
            } else {
                (0, Seq::empty())
            },
            None => match spec_phrase(s) {
                Some(n) => if 0 < n <= s.len() {
                    let (m, rest) = spec_block_list(s.skip(n as int));
                    ((n + m) as nat, seq![GNode::Phrase(s.take(n as int))] + rest)
                } else {
                    (0, Seq::empty())
                },
                None => (0, Seq::empty()),
            },
        }
    }
}

// ----------------------------------------------------------------------
// The rules.
// ----------------------------------------------------------------------

/// Recognize whitespaces.
pub fn whitespaces<'a>(input: &'a [u8]) -> (r: Result<(&'a [u8], &'a [u8]), ParseError>)
    ensures
        ws_len(input@) > 0 ==> (r matches Ok((remaining, output)) && output@ == input@.take(
            ws_len(input@) as int,
        ) && remaining@ == input@.skip(ws_len(input@) as int)),
        ws_len(input@) == 0 ==> (r matches Err(e) && e == ParseError::NoMatch),
{
    let n = ws_run(input);
    if n == 0 {
        Err(ParseError::NoMatch)
    } else {
        Ok((tail(input, n), head(input, n)))
    }
}

/// Recognize a block name part.
pub fn block_name_part<'a>(input: &'a [u8]) -> (r: Result<(&'a [u8], &'a [u8]), ParseError>)
    ensures
        match spec_name_part(input@) {
            Some(n) => r matches Ok((remaining, part)) && part@ == input@.take(n as int)
                && remaining@ == input@.skip(n as int) && 0 < n <= input@.len(),
            None => r matches Err(e) && e == ParseError::NoMatch,
        },
{
    if input.len() == 0 {
        return Err(ParseError::NoMatch);
    }
    let b = *vstd::slice::slice_index_get(input, 0);
    if !(b >= 0x61 && b <= 0x7a) {
        return Err(ParseError::NoMatch);
    }
    let n = ext_run(input);
    assert(n > 0);
    Ok((tail(input, n), head(input, n)))
}

/// Recognize a namespaced block name.
pub fn namespaced_block_name<'a>(input: &'a [u8]) -> (r: Result<
    (&'a [u8], (&'a [u8], &'a [u8])),
    ParseError,
>)
    ensures
        match spec_namespaced_block_name(input@) {
            Some((n, ns, nm)) => r matches Ok((remaining, name)) && name.0@ == ns && name.1@ == nm
                && remaining@ == input@.skip(n as int) && 0 < n <= input@.len(),
            None => r matches Err(e) && e == ParseError::NoMatch,
        },
{
    let (rem1, part1) = match block_name_part(input) {
        Ok(p) => p,
        Err(e) => {
            return Err(e);
        },
    };
    if rem1.len() == 0 || *vstd::slice::slice_index_get(rem1, 0) != 0x2f {
        return Err(ParseError::NoMatch);
    }
    let after_slash = tail(rem1, 1);
    proof {
        let n1 = spec_name_part(input@)->Some_0;
        assert(after_slash@ =~= input@.skip(n1 + 1 as int));
    }
    let (rem2, part2) = match block_name_part(after_slash) {
        Ok(p) => p,
        Err(e) => {
            return Err(e);
        },
    };
    Ok((rem2, (part1, part2)))
}

/// Recognize a globally-namespaced (`core`) block name.
pub fn core_block_name<'a>(input: &'a [u8]) -> (r: Result<
    (&'a [u8], (&'a [u8], &'a [u8])),
    ParseError,
>)
    ensures
        match spec_core_block_name(input@) {
            Some((n, ns, nm)) => r matches Ok((remaining, name)) && name.0@ == ns && name.1@ == nm
                && remaining@ == input@.skip(n as int) && 0 < n <= input@.len(),
            None => r matches Err(e) && e == ParseError::NoMatch,
        },
{
    match block_name_part(input) {
        Ok((remaining, part)) => Ok((remaining, (core_token(), part))),
        Err(e) => Err(e),
    }
}

/// Recognize a fully-qualified block name.
pub fn block_name<'a>(input: &'a [u8]) -> (r: Result<(&'a [u8], (&'a [u8], &'a [u8])), ParseError>)
    ensures
        match spec_block_name(input@) {
            Some((n, ns, nm)) => r matches Ok((remaining, name)) && name.0@ == ns && name.1@ == nm
                && remaining@ == input@.skip(n as int) && 0 < n <= input@.len(),
            None => r matches Err(e) && e == ParseError::NoMatch,
        },
{
    match namespaced_block_name(input) {
        Ok(p) => Ok(p),
        Err(_) => core_block_name(input),
    }
}

/// Recognize block attributes: the exact `{…}` span, braces included,
/// located by the lookahead-bounded scan so that `}` characters inside
/// nested JSON values are skipped.
pub fn block_attributes<'a>(input: &'a [u8]) -> (r: Result<(&'a [u8], &'a [u8]), ParseError>)
    ensures
        match spec_block_attributes(input@) {
            Some(n) => r matches Ok((remaining, output)) && output@ == input@.take(n as int)
                && remaining@ == input@.skip(n as int) && 0 < n <= input@.len(),
            None => r is Err,
        },
        r matches Err(e) ==> (e == ParseError::Incomplete <==> (input@.len() > 0 && input@[0]
            == 0x7b)),
{
    if input.len() == 0 || *vstd::slice::slice_index_get(input, 0) != 0x7b {
        return Err(ParseError::NoMatch);
    }
    let la = Lookahead::WsThenEither(void_end_token(), balanced_end_token());
    proof {
        assert(la@ == attrs_lookahead());
    }
    match take_until_terminated_and_consume(input, rbrace_token(), la) {
        Ok((remaining, output)) => Ok((remaining, output)),
        Err(_) => Err(ParseError::Incomplete),
    }
}

/// Recognize a phrase: a non-empty span of content that stops right before
/// the next block delimiter, so that unrelated comments are swallowed as
/// ordinary content.
pub fn phrase<'a>(input: &'a [u8]) -> (r: Result<(&'a [u8], Node<'a>), ParseError>)
    ensures
        match spec_phrase(input@) {
            Some(n) => r matches Ok((remaining, node)) && remaining@ == input@.skip(n as int)
                && node_view(node) == GNode::Phrase(input@.take(n as int)) && 0 < n
                <= input@.len(),
            None => r matches Err(e) && e == ParseError::NoMatch,
        },
{
    let la = Lookahead::WsThenEither(close_wp_token(), wp_token());
    proof {
        assert(la@ == phrase_lookahead());
    }
    match take_until_terminated(input, comment_open_token(), la) {
        Ok((remaining, output)) => {
            if output.len() == 0 {
                Err(ParseError::NoMatch)
            } else {
                Ok((remaining, Node::Phrase(output)))
            }
        },
        Err(_) => {
            if input.len() > 0 {
                let remaining = tail(input, input.len());
                proof {
                    assert(input@.take(input@.len() as int) =~= input@);
                }
                Ok((remaining, Node::Phrase(input)))
            } else {
                Err(ParseError::NoMatch)
            }
        },
    }
}

/// Recognize the closing tag of a balanced block and return what follows
/// it.
fn block_closing<'a>(input: &'a [u8]) -> (r: Result<&'a [u8], ParseError>)
    ensures
        match spec_closing(input@) {
            Some(n) => r matches Ok(remaining) && remaining@ == input@.skip(n as int) && 0 < n
                <= input@.len(),
            None => r matches Err(e) && e == ParseError::NoMatch,
        },
{
    if !has_prefix(input, comment_open_token()) {
        return Err(ParseError::NoMatch);
    }
    let after_open = tail(input, 4);
    let w1 = ws_run(after_open);
    let s1 = tail(after_open, w1);
    proof {
        assert(s1@ =~= input@.skip(4 + w1 as int));
    }
    if !has_prefix(s1, close_wp_token()) {
        return Err(ParseError::NoMatch);
    }
    let s2 = tail(s1, 4);
    let (s3, _name) = match block_name(s2) {
        Ok(p) => p,
        Err(_) => {
            return Err(ParseError::NoMatch);
        },
    };
    let w2 = ws_run(s3);
    let s4 = tail(s3, w2);
    if !has_prefix(s4, balanced_end_token()) {
        return Err(ParseError::NoMatch);
    }
    let remaining = tail(s4, 3);
    proof {
        let ghost s = input@;
        let p1 = 4 + ws_len(s.skip(4)) as int;
        assert(s2@ =~= s.skip(p1).skip(4));
        let (nlen, ns, nm) = spec_block_name(s2@)->Some_0;
        assert(s3@ =~= s2@.skip(nlen as int));
        assert(s4@ =~= s3@.skip(ws_len(s3@) as int));
        let n = spec_closing(s)->Some_0;
        assert(remaining@ =~= s.skip(n as int));
    }
    Ok(remaining)
}

/// Recognize a block, balanced or void.
/// Recognize the opening of a block: `<!--`, optional whitespace, `wp:`,
/// the block name, mandatory whitespace, optional attributes, optional
/// whitespace. Returns the remaining input, the name pair and the
/// attributes span.
#[verifier::rlimit(50)]
fn block_open<'a>(input: &'a [u8]) -> (r: Result<
    (&'a [u8], (&'a [u8], &'a [u8]), Option<&'a [u8]>),
    ParseError,
>)
    ensures
        match spec_block_open(input@) {
            Some((on, ns, nm, attrs)) => r matches Ok((remaining, name, attributes)) && remaining@
                == input@.skip(on as int) && name.0@ == ns && name.1@ == nm && attrs == (
            match attributes {
                Some(a) => Some(a@),
                None => None,
            }) && 0 < on <= input@.len(),
            None => r matches Err(e) && e == ParseError::NoMatch,
        },
{
    if !has_prefix(input, comment_open_token()) {
        return Err(ParseError::NoMatch);
    }
    let after_open = tail(input, 4);
    let w1 = ws_run(after_open);
    let s1 = tail(after_open, w1);
    proof {
        assert(s1@ =~= input@.skip(4 + w1 as int));
    }
    if !has_prefix(s1, wp_token()) {
        return Err(ParseError::NoMatch);
    }
    let s2 = tail(s1, 3);
    let (s3, name) = match block_name(s2) {
        Ok(p) => p,
        Err(_) => {
            return Err(ParseError::NoMatch);
        },
    };
    proof {
        assert(s2@ =~= input@.skip(4 + w1 as int).skip(3));
    }
    let w2 = ws_run(s3);
    if w2 == 0 {
        return Err(ParseError::NoMatch);
    }
    let s4 = tail(s3, w2);
    let (attributes, s5) = match block_attributes(s4) {
        Ok((remaining, output)) => (Some(output), remaining),
        Err(_) => (None, s4),
    };
    let w3 = ws_run(s5);
    let remaining = tail(s5, w3);
    proof {
        let s = input@;
        let o2 = 4 + w1 + 3;
        assert(s2@ =~= s.skip(o2 as int));
        let nlen = spec_block_name(s2@)->Some_0.0;
        let o3 = o2 + nlen;
        assert(s3@ =~= s.skip(o3 as int));
        let o4 = o3 + w2;
        assert(s4@ =~= s.skip(o4 as int));
        let alen: nat = match spec_block_attributes(s4@) {
            Some(n) => n,
            None => 0,
        };
        if spec_block_attributes(s4@) is None {
            assert(s5@ =~= s4@.skip(0));
        }
        let o5 = o4 + alen;
        assert(s5@ =~= s.skip(o5 as int));
        let on = o5 + w3;
        assert(remaining@ =~= s.skip(on as int));
        assert(spec_block_open(s)->Some_0.0 == on);
    }
    Ok((remaining, name, attributes))
}

/// Recognize a block, balanced or void.
#[verifier::rlimit(50)]
pub fn block<'a>(input: &'a [u8]) -> (r: Result<(&'a [u8], Node<'a>), ParseError>)
    ensures
        match spec_block(input@) {
            Some((n, gnode)) => r matches Ok((remaining, node)) && remaining@ == input@.skip(
                n as int,
            ) && node_view(node) == gnode && 0 < n <= input@.len(),
            None => r matches Err(e) && e == ParseError::NoMatch,
        },
    decreases input@.len(), 0int,
{
    let (s6, name, attributes) = match block_open(input) {
        Ok(t) => t,
        Err(e) => {
            return Err(e);
        },
    };
    let ghost on = spec_block_open(input@)->Some_0.0;
    if has_prefix(s6, balanced_end_token()) {
        let s7 = tail(s6, 3);
        proof {
            assert(s7@ =~= input@.skip(on + 3 as int));
        }
        let (s8, children) = match block_list(s7) {
            Ok(p) => p,
            Err(_) => {
                proof {
                    assert(false);
                }
                return Err(ParseError::NoMatch);
            },
        };
        match block_closing(s8) {
            Ok(remaining) => {
                let node = Node::Block { name, attributes, children };
                proof {
                    let clen = spec_block_list(s7@).0;
                    let cl = spec_closing(s8@)->Some_0;
                    assert(s8@ =~= input@.skip(on + 3 + clen as int));
                    assert(remaining@ =~= input@.skip(on + 3 + clen + cl as int));
                    assert(spec_block(input@)->Some_0.0 == on + 3 + clen + cl);
                }
                Ok((remaining, node))
            },
            Err(_) => Err(ParseError::NoMatch),
        }
    } else if has_prefix(s6, void_end_token()) {
        let remaining = tail(s6, 4);
        let node = Node::Block { name, attributes, children: Vec::new() };
        proof {
            assert(nodes_view(Seq::<Node>::empty()) =~= Seq::<GNode>::empty());
            assert(remaining@ =~= input@.skip(on + 4 as int));
        }
        Ok((remaining, node))
    } else {
        Err(ParseError::NoMatch)
    }
}

/// Recognize a list of blocks: the axiom of the grammar. It never fails.
#[verifier::rlimit(100)]
pub fn block_list<'a>(input: &'a [u8]) -> (r: Result<(&'a [u8], Vec<Node<'a>>), ParseError>)
    ensures
        r matches Ok((remaining, nodes)) && {
            let (n, gnodes) = spec_block_list(input@);
            &&& n <= input@.len()
            &&& remaining@ == input@.skip(n as int)
            &&& nodes_view(nodes@) == gnodes
        },
    decreases input@.len(), 1int,
{
    let mut cur: &'a [u8] = input;
    let mut nodes: Vec<Node<'a>> = Vec::new();
    loop
        invariant
            cur@.len() <= input@.len(),
            cur@ == input@.skip(input@.len() - cur@.len()),
            spec_block_list(input@).0 == input@.len() - cur@.len() + spec_block_list(cur@).0,
            spec_block_list(input@).1 == nodes_view(nodes@) + spec_block_list(cur@).1,
        ensures
            cur@.len() <= input@.len(),
            spec_block_list(input@).0 == input@.len() - cur@.len(),
            cur@ == input@.skip(spec_block_list(input@).0 as int),
            nodes_view(nodes@) == spec_block_list(input@).1,
        decreases cur@.len(),
    {
        if cur.len() == 0 {
            proof {
                assert(spec_block_list(cur@).1 =~= Seq::<GNode>::empty());
                assert(nodes_view(nodes@) + spec_block_list(cur@).1 =~= nodes_view(nodes@));
            }
            break;
        }
        let step = match block(cur) {
            Ok(p) => Some(p),
            Err(_) => match phrase(cur) {
                Ok(p) => Some(p),
                Err(_) => None,
            },
        };
        match step {
            Some((rem, node)) => {
                proof {
                    let s = input@;
                    let c = cur@;
                    let off = s.len() - c.len();
                    let n = (c.len() - rem@.len()) as nat;
                    let gnode = node_view(node);
                    if spec_block(c) is Some {
                        assert(spec_block(c)->Some_0.0 == n);
                        assert(spec_block_list(c).0 == n + spec_block_list(rem@).0);
                        assert(spec_block_list(c).1 == seq![gnode] + spec_block_list(rem@).1);
                    } else {
                        assert(spec_phrase(c)->Some_0 == n);
                        assert(gnode == GNode::Phrase(c.take(n as int)));
                        assert(spec_block_list(c).0 == n + spec_block_list(rem@).0);
                        assert(spec_block_list(c).1 == seq![gnode] + spec_block_list(rem@).1);
                    }
                    lemma_nodes_view_push(nodes@, node);
                    assert(nodes_view(nodes@.push(node)) + spec_block_list(rem@).1 =~= nodes_view(
                        nodes@,
                    ) + (seq![gnode] + spec_block_list(rem@).1));
                    assert(rem@ =~= s.skip(off + n));
                }
                nodes.push(node);
                cur = rem;
            },
            None => {
                proof {
                    assert(spec_block_list(cur@) == (0nat, Seq::<GNode>::empty()));
                    assert(nodes_view(nodes@) + spec_block_list(cur@).1 =~= nodes_view(nodes@));
                }
                break;
            },
        }
    }
    Ok((cur, nodes))
}

} // verus!
