//! A zero-copy parser for a block annotation grammar embedded in otherwise
//! free-form documents: HTML comments of the form
//! `<!-- wp:namespace/name {json} -->` … `<!-- /wp:namespace/name -->`
//! (balanced) or `<!-- wp:namespace/name {json} /-->` (void), interleaved
//! arbitrarily with plain text and with ordinary, non-matching comments.
//!
//! The parser analyses a document and produces an Abstract Syntax Tree whose
//! textual fields are all slices borrowed from the original input; nothing
//! is copied.

use vstd::prelude::*;

pub mod ast;
pub mod combinators;
pub mod encode;
pub mod laws;
pub mod parser;
pub mod reserialize;

use crate::ast::Node;
use crate::ast::nodes_view;
use crate::combinators::ParseError;
use crate::parser::block_list;
use crate::parser::spec_block_list;

verus! {

/// Represent the type of a parser input element.
pub type InputElement = u8;

/// Represent the type of a parser input.
///
/// The parser does not analyse a `String` nor a `&str`, but a slice of
/// bytes: the annotation format is likely to carry JSON-encoded data whose
/// string escapes need not be valid UTF-8, and raw bytes are what every
/// foreign caller can hand over without re-encoding.
pub type Input<'a> = &'a [u8];

/// The `root` function represents the axiom of the grammar, i.e. the top
/// rule.
///
/// It always succeeds: the right side of the pair is the list of recognized
/// top-level nodes, the left side is the remaining input, which is empty
/// unless the document ends in the middle of an unrecoverable pseudo-block.
pub fn root<'a>(input: Input<'a>) -> (r: Result<(Input<'a>, Vec<Node<'a>>), ParseError>)
    ensures
        r matches Ok((remaining, nodes)) && {
            let (n, gnodes) = spec_block_list(input@);
            &&& n <= input@.len()
            &&& remaining@ == input@.skip(n as int)
            &&& nodes_view(nodes@) == gnodes
        },
{
    block_list(input)
}

} // verus!
