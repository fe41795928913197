//! Grammar-independent scanning primitives.
//!
//! The central operation is the lookahead-bounded scan: search the input for
//! the next occurrence of a terminator literal that is itself followed by a
//! satisfying pattern, so that coincidental occurrences of the literal inside
//! free-form content are skipped.

use vstd::prelude::*;

verus! {

/// Failure signal of every recognizer: `NoMatch` drives alternation and is
/// never surfaced by the axiom rule; `Incomplete` means a scan exhausted the
/// input without resolving its lookahead.
#[derive(Debug, Clone, Copy, PartialEq, Eq, Structural)]
pub enum ParseError {
    NoMatch,
    Incomplete,
}

/// One whitespace byte of the grammar: space, newline, carriage return, tab.
pub open spec fn is_ws_byte(b: u8) -> bool {
    b == 0x20 || b == 0x0a || b == 0x0d || b == 0x09
}

/// One byte of the extended identifier alphabet `[a-z0-9_-]`.
pub open spec fn is_extended_byte(b: u8) -> bool {
    (0x61 <= b && b <= 0x7a) || (0x30 <= b && b <= 0x39) || b == 0x5f || b == 0x2d
}

/// One ASCII lowercase letter `[a-z]`.
pub open spec fn is_lower_byte(b: u8) -> bool {
    0x61 <= b && b <= 0x7a
}

/// `t` is a prefix of `s`.
pub open spec fn begins_with(s: Seq<u8>, t: Seq<u8>) -> bool {
    t.len() <= s.len() && s.subrange(0, t.len() as int) == t
}

/// Length of the maximal prefix of `s` whose bytes all satisfy `p`.
pub open spec fn run_len(s: Seq<u8>, p: spec_fn(u8) -> bool) -> nat
    decreases s.len(),
{
    if s.len() > 0 && p(s[0]) {
        (1 + run_len(s.drop_first(), p)) as nat
    } else {
        0
    }
}

/// Length of the maximal whitespace prefix of `s`.
pub open spec fn ws_len(s: Seq<u8>) -> nat {
    run_len(s, |b: u8| is_ws_byte(b))
}

/// Length of the maximal extended-alphabet prefix of `s`.
pub open spec fn ext_len(s: Seq<u8>) -> nat {
    run_len(s, |b: u8| is_extended_byte(b))
}

/// What `run_len` returns: all bytes before it satisfy `p`, and the byte at
/// it, if any, does not.
pub proof fn lemma_run_len(s: Seq<u8>, p: spec_fn(u8) -> bool)
    ensures
        run_len(s, p) <= s.len(),
        forall|i: int| 0 <= i < run_len(s, p) ==> p(#[trigger] s[i]),
        run_len(s, p) < s.len() ==> !p(s[run_len(s, p) as int]),
    decreases s.len(),
{
    if s.len() > 0 && p(s[0]) {
        lemma_run_len(s.drop_first(), p);
        assert forall|i: int| 0 <= i < run_len(s, p) implies p(#[trigger] s[i]) by {
            if i > 0 {
                assert(s[i] == s.drop_first()[i - 1]);
            }
        }
    }
}

/// `run_len` is the unique cut obeying that description.
pub proof fn lemma_run_len_is(s: Seq<u8>, p: spec_fn(u8) -> bool, n: nat)
    requires
        n <= s.len(),
        forall|i: int| 0 <= i < n ==> p(#[trigger] s[i]),
        n < s.len() ==> !p(s[n as int]),
    ensures
        run_len(s, p) == n,
    decreases s.len(),
{
    if n == 0 {
    } else {
        assert(p(s[0]));
        lemma_run_len_is(s.drop_first(), p, (n - 1) as nat);
    }
}

/// What `ws_len` returns, byte by byte.
pub proof fn lemma_ws_len_facts(s: Seq<u8>)
    ensures
        ws_len(s) <= s.len(),
        forall|i: int| 0 <= i < ws_len(s) ==> is_ws_byte(#[trigger] s[i]),
        ws_len(s) < s.len() ==> !is_ws_byte(s[ws_len(s) as int]),
{
    lemma_run_len(s, |b: u8| is_ws_byte(b));
}

/// `ws_len` is the unique cut obeying that description.
pub proof fn lemma_ws_len_is(s: Seq<u8>, n: nat)
    requires
        n <= s.len(),
        forall|i: int| 0 <= i < n ==> is_ws_byte(#[trigger] s[i]),
        n < s.len() ==> !is_ws_byte(s[n as int]),
    ensures
        ws_len(s) == n,
{
    lemma_run_len_is(s, |b: u8| is_ws_byte(b), n);
}

/// What `ext_len` returns, byte by byte.
pub proof fn lemma_ext_len_facts(s: Seq<u8>)
    ensures
        ext_len(s) <= s.len(),
        forall|i: int| 0 <= i < ext_len(s) ==> is_extended_byte(#[trigger] s[i]),
        ext_len(s) < s.len() ==> !is_extended_byte(s[ext_len(s) as int]),
{
    lemma_run_len(s, |b: u8| is_extended_byte(b));
}

/// `ext_len` is the unique cut obeying that description.
pub proof fn lemma_ext_len_is(s: Seq<u8>, n: nat)
    requires
        n <= s.len(),
        forall|i: int| 0 <= i < n ==> is_extended_byte(#[trigger] s[i]),
        n < s.len() ==> !is_extended_byte(s[n as int]),
    ensures
        ext_len(s) == n,
{
    lemma_run_len_is(s, |b: u8| is_extended_byte(b), n);
}

/// The lookahead patterns used to confirm a terminator occurrence. `Tag`
/// accepts a suffix that starts with the given literal; `WsThenEither`
/// accepts one that, after its maximal whitespace run, starts with either
/// literal.
pub enum Lookahead<'a> {
    Tag(&'a [u8]),
    WsThenEither(&'a [u8], &'a [u8]),
}

/// Mathematical twin of `Lookahead`.
pub enum GLookahead {
    Tag(Seq<u8>),
    WsThenEither(Seq<u8>, Seq<u8>),
}

impl<'a> View for Lookahead<'a> {
    type V = GLookahead;

    open spec fn view(&self) -> GLookahead {
        match *self {
            Lookahead::Tag(t) => GLookahead::Tag(t@),
            Lookahead::WsThenEither(a, b) => GLookahead::WsThenEither(a@, b@),
        }
    }
}

/// Whether a lookahead accepts the suffix `s`.
pub open spec fn la_matches(la: GLookahead, s: Seq<u8>) -> bool {
    match la {
        GLookahead::Tag(t) => begins_with(s, t),
        GLookahead::WsThenEither(a, b) => {
            let r = s.skip(ws_len(s) as int);
            begins_with(r, a) || begins_with(r, b)
        },
    }
}

/// Position `i` of `s` carries the terminator `sub` and the lookahead
/// accepts what follows it.
pub open spec fn terminator_at(s: Seq<u8>, sub: Seq<u8>, la: GLookahead, i: int) -> bool {
    &&& 0 <= i
    &&& i + sub.len() <= s.len()
    &&& s.subrange(i, i + sub.len() as int) == sub
    &&& la_matches(la, s.skip(i + sub.len() as int))
}

/// First position at or after `from` where the terminator is confirmed.
pub open spec fn scan_from(s: Seq<u8>, sub: Seq<u8>, la: GLookahead, from: int) -> Option<int>
    decreases s.len() + 1 - from,
{
    if from + sub.len() > s.len() {
        None
    } else if terminator_at(s, sub, la, from) {
        Some(from)
    } else {
        scan_from(s, sub, la, from + 1)
    }
}

/// What a successful or failed scan means, position by position.
pub proof fn lemma_scan_from_inv(s: Seq<u8>, sub: Seq<u8>, la: GLookahead, from: int)
    requires
        0 <= from,
    ensures
        match scan_from(s, sub, la, from) {
            Some(i) => {
                &&& from <= i
                &&& terminator_at(s, sub, la, i)
                &&& forall|j: int| from <= j < i ==> !terminator_at(s, sub, la, j)
            },
            None => forall|j: int| from <= j ==> !terminator_at(s, sub, la, j),
        },
    decreases s.len() + 1 - from,
{
    if from + sub.len() > s.len() {
    } else if terminator_at(s, sub, la, from) {
    } else {
        lemma_scan_from_inv(s, sub, la, from + 1);
    }
}

/// A confirmed position with nothing confirmed before it is what the scan
/// returns.
pub proof fn lemma_scan_from_found(s: Seq<u8>, sub: Seq<u8>, la: GLookahead, from: int, i: int)
    requires
        0 <= from <= i,
        terminator_at(s, sub, la, i),
        forall|j: int| from <= j < i ==> !terminator_at(s, sub, la, j),
    ensures
        scan_from(s, sub, la, from) == Some(i),
    decreases i - from,
{
    if from < i {
        lemma_scan_from_found(s, sub, la, from + 1, i);
    }
}

/// No confirmed position at all means the scan fails.
pub proof fn lemma_scan_from_none(s: Seq<u8>, sub: Seq<u8>, la: GLookahead, from: int)
    requires
        0 <= from,
        forall|j: int| from <= j ==> !terminator_at(s, sub, la, j),
    ensures
        scan_from(s, sub, la, from) is None,
    decreases s.len() + 1 - from,
{
    if from + sub.len() <= s.len() {
        lemma_scan_from_none(s, sub, la, from + 1);
    }
}

/// Check whether a character is in the set of alphanumeric extended
/// characters, i.e. `[a-z0-9_-]`.
pub fn is_alphanumeric_extended(chr: u8) -> (r: bool)
    ensures
        r == is_extended_byte(chr),
{
    (chr >= 0x61 && chr <= 0x7a) || (chr >= 0x30 && chr <= 0x39) || chr == 0x5f || chr == 0x2d
}

/// The suffix of `s` that starts at `n`.
pub(crate) fn tail<'a>(s: &'a [u8], n: usize) -> (r: &'a [u8])
    requires
        n <= s@.len(),
    ensures
        r@ == s@.skip(n as int),
{
    vstd::slice::slice_subrange(s, n, s.len())
}

/// The prefix of `s` of length `n`.
pub(crate) fn head<'a>(s: &'a [u8], n: usize) -> (r: &'a [u8])
    requires
        n <= s@.len(),
    ensures
        r@ == s@.take(n as int),
{
    vstd::slice::slice_subrange(s, 0, n)
}

/// Whether `t` is a prefix of `s`.
pub(crate) fn has_prefix(s: &[u8], t: &[u8]) -> (r: bool)
    ensures
        r == begins_with(s@, t@),
{
    if t.len() > s.len() {
        return false;
    }
    let mut i: usize = 0;
    while i < t.len()
        invariant
            0 <= i <= t.len() <= s.len(),
            forall|j: int| 0 <= j < i ==> s@[j] == t@[j],
        decreases t.len() - i,
    {
        if *vstd::slice::slice_index_get(s, i) != *vstd::slice::slice_index_get(t, i) {
            assert(!begins_with(s@, t@)) by {
                assert(s@.subrange(0, t@.len() as int)[i as int] == s@[i as int]);
            }
            return false;
        }
        i += 1;
    }
    assert(s@.subrange(0, t@.len() as int) =~= t@);
    true
}

/// Whether a byte is one of the grammar's whitespace characters.
fn is_whitespace(b: u8) -> (r: bool)
    ensures
        r == is_ws_byte(b),
{
    b == 0x20 || b == 0x0a || b == 0x0d || b == 0x09
}

/// Length of the maximal whitespace prefix of `s`.
pub(crate) fn ws_run(s: &[u8]) -> (n: usize)
    ensures
        n == ws_len(s@),
        n <= s@.len(),
{
    let mut i: usize = 0;
    while i < s.len() && is_whitespace(*vstd::slice::slice_index_get(s, i))
        invariant
            0 <= i <= s@.len(),
            forall|j: int| 0 <= j < i ==> is_ws_byte(#[trigger] s@[j]),
        decreases s.len() - i,
    {
        i += 1;
    }
    proof {
        lemma_run_len_is(s@, |b: u8| is_ws_byte(b), i as nat);
    }
    i
}

/// Length of the maximal extended-alphabet prefix of `s`.
pub(crate) fn ext_run(s: &[u8]) -> (n: usize)
    ensures
        n == ext_len(s@),
        n <= s@.len(),
{
    let mut i: usize = 0;
    while i < s.len() && is_alphanumeric_extended(*vstd::slice::slice_index_get(s, i))
        invariant
            0 <= i <= s@.len(),
            forall|j: int| 0 <= j < i ==> is_extended_byte(#[trigger] s@[j]),
        decreases s.len() - i,
    {
        i += 1;
    }
    proof {
        lemma_run_len_is(s@, |b: u8| is_extended_byte(b), i as nat);
    }
    i
}

/// Whether the lookahead accepts `s`.
fn la_check(la: &Lookahead, s: &[u8]) -> (r: bool)
    ensures
        r == la_matches(la@, s@),
{
    match la {
        Lookahead::Tag(t) => has_prefix(s, t),
        Lookahead::WsThenEither(a, b) => {
            let n = ws_run(s);
            let rest = tail(s, n);
            has_prefix(rest, a) || has_prefix(rest, b)
        },
    }
}

/// First position of `input` where `substr` occurs and `la` accepts what
/// follows the occurrence.
fn scan(input: &[u8], substr: &[u8], la: &Lookahead) -> (r: Option<usize>)
    ensures
        match r {
            Some(i) => {
                &&& scan_from(input@, substr@, la@, 0) == Some(i as int)
                &&& i + substr@.len() <= input@.len()
                &&& input@.len() <= usize::MAX
            },
            None => scan_from(input@, substr@, la@, 0) is None,
        },
{
    if substr.len() > input.len() {
        proof {
            lemma_scan_from_none(input@, substr@, la@, 0);
        }
        return None;
    }
    let bound = input.len() - substr.len();
    let mut i: usize = 0;
    loop
        invariant
            bound == input@.len() - substr@.len(),
            substr@.len() <= input@.len(),
            input@.len() <= usize::MAX,
            0 <= i <= bound,
            forall|j: int| 0 <= j < i ==> !terminator_at(input@, substr@, la@, j),
        ensures
            forall|j: int| 0 <= j ==> !terminator_at(input@, substr@, la@, j),
        decreases bound - i,
    {
        let here = tail(input, i);
        if has_prefix(here, substr) {
            let after = tail(input, i + substr.len());
            if la_check(la, after) {
                proof {
                    assert(input@.subrange(i as int, i + substr@.len()) =~= input@.skip(
                        i as int,
                    ).subrange(0, substr@.len() as int));
                    assert(input@.skip(i + substr@.len() as int) =~= after@);
                    assert(terminator_at(input@, substr@, la@, i as int));
                    lemma_scan_from_found(input@, substr@, la@, 0, i as int);
                }
                return Some(i);
            }
        }
        proof {
            if terminator_at(input@, substr@, la@, i as int) {
                assert(input@.skip(i as int).subrange(0, substr@.len() as int) =~= input@.subrange(
                    i as int,
                    i + substr@.len(),
                ));
                assert(input@.skip(i + substr@.len() as int) =~= input@.skip(i as int).skip(
                    substr@.len() as int,
                ));
                assert(false);
            }
        }
        if i == bound {
            proof {
                assert forall|j: int| 0 <= j implies !terminator_at(input@, substr@, la@, j) by {
                    if j > i {
                        assert(j + substr@.len() > input@.len());
                    }
                }
            }
            break;
        }
        i += 1;
    }
    proof {
        lemma_scan_from_none(input@, substr@, la@, 0);
    }
    None
}

/// Scan for `substr` confirmed by `lookahead`; on success the split is placed
/// just before the occurrence, which is left for the caller to consume.
pub fn take_until_terminated<'a>(input: &'a [u8], substr: &[u8], lookahead: Lookahead) -> (r:
    Result<(&'a [u8], &'a [u8]), ParseError>)
    ensures
        match r {
            Ok((remaining, output)) => {
                &&& scan_from(input@, substr@, lookahead@, 0) matches Some(i) && 0 <= i && i
                    + substr@.len() <= input@.len() && output@ == input@.take(i) && remaining@
                    == input@.skip(i)
            },
            Err(e) => e == ParseError::Incomplete && scan_from(input@, substr@, lookahead@, 0)
                is None,
        },
{
    match scan(input, substr, &lookahead) {
        Some(i) => Ok((tail(input, i), head(input, i))),
        None => Err(ParseError::Incomplete),
    }
}

/// Scan for `substr` confirmed by `lookahead`; on success the split is placed
/// just after the occurrence, so the terminator itself is consumed.
pub fn take_until_terminated_and_consume<'a>(
    input: &'a [u8],
    substr: &[u8],
    lookahead: Lookahead,
) -> (r: Result<(&'a [u8], &'a [u8]), ParseError>)
    ensures
        match r {
            Ok((remaining, output)) => {
                &&& scan_from(input@, substr@, lookahead@, 0) matches Some(i) && 0 <= i && i
                    + substr@.len() <= input@.len() && output@ == input@.take(
                    i + substr@.len() as int,
                ) && remaining@ == input@.skip(i + substr@.len() as int)
            },
            Err(e) => e == ParseError::Incomplete && scan_from(input@, substr@, lookahead@, 0)
                is None,
        },
{
    match scan(input, substr, &lookahead) {
        Some(i) => {
            let cut = i + substr.len();
            Ok((tail(input, cut), head(input, cut)))
        },
        None => Err(ParseError::Incomplete),
    }
}

/// Helper to fold an item into a vector.
pub fn fold_into_vector<I>(accumulator: Vec<I>, item: I) -> (r: Vec<I>)
    ensures
        r@ == accumulator@.push(item),
{
    let mut accumulator = accumulator;
    accumulator.push(item);
    accumulator
}

} // verus!
