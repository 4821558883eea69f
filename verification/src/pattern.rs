//! The mathematical model of a `LIKE` pattern: the tokens that a pattern
//! denotes and the targets that a token sequence accepts.

use vstd::prelude::*;

verus! {

/// The pattern byte `%`: any run of bytes, the empty one included.
pub const ANY_RUN: u8 = 0x25;

/// The pattern byte `_`: any single byte.
pub const ANY_BYTE: u8 = 0x5f;

/// One unit of a pattern.
#[derive(Clone, Copy, Debug, PartialEq, Eq)]
pub enum Token {
    /// Matches every run of bytes.
    AnyRun,
    /// Matches every single byte.
    AnyByte,
    /// Matches this byte and no other.
    Byte(u8),
}

/// Whether the token sequence `tokens` accepts the whole of `target`.
pub open spec fn accepts(tokens: Seq<Token>, target: Seq<u8>) -> bool
    decreases tokens.len(), target.len(),
{
    if tokens.len() == 0 {
        target.len() == 0
    } else {
        match tokens[0] {
            Token::AnyRun => accepts(tokens.skip(1), target) || (target.len() > 0 && accepts(
                tokens,
                target.skip(1),
            )),
            Token::AnyByte => target.len() > 0 && accepts(tokens.skip(1), target.skip(1)),
            Token::Byte(b) => target.len() > 0 && target[0] == b && accepts(
                tokens.skip(1),
                target.skip(1),
            ),
        }
    }
}

/// A lone `%` accepts everything.
pub proof fn lemma_any_run_accepts(s: Seq<u8>)
    ensures
        accepts(seq![Token::AnyRun], s),
    decreases s.len(),
{
    let toks = seq![Token::AnyRun];
    assert(toks.skip(1) =~= Seq::<Token>::empty());
    if s.len() > 0 {
        lemma_any_run_accepts(s.skip(1));
    } else {
        assert(accepts(toks.skip(1), s));
    }
}

/// The tokens of `pattern` as the linear matcher reads them: `%` and `_` are
/// always wildcards; any other byte equal to `escape` that has a successor
/// makes that successor a literal; every other byte is a literal itself.
pub open spec fn like_tokens(pattern: Seq<u8>, escape: u32) -> Seq<Token>
    decreases pattern.len(),
{
    if pattern.len() == 0 {
        Seq::empty()
    } else if pattern[0] == ANY_RUN {
        seq![Token::AnyRun] + like_tokens(pattern.skip(1), escape)
    } else if pattern[0] == ANY_BYTE {
        seq![Token::AnyByte] + like_tokens(pattern.skip(1), escape)
    } else if pattern[0] == escape && pattern.len() > 1 {
        seq![Token::Byte(pattern[1])] + like_tokens(pattern.skip(2), escape)
    } else {
        seq![Token::Byte(pattern[0])] + like_tokens(pattern.skip(1), escape)
    }
}

/// Whether `target` matches `pattern` under the linear matcher's grammar.
pub open spec fn like_matches(target: Seq<u8>, pattern: Seq<u8>, escape: u32) -> bool {
    accepts(like_tokens(pattern, escape), target)
}

/// The deepest level at which the backtracking matcher still calls itself.
/// A search that would have to go deeper is given up and reported.
pub const MAX_RECURSE_LEVEL: usize = 1024;

/// The tokens of `pattern` as the backtracking matcher reads them. `wild`
/// says that a `%` has been read and no literal since.
///
/// `%` is always a wildcard. Behind a `%`, `_` is a wildcard too. Elsewhere
/// the escape byte is looked for first: a byte equal to `escape` that has a
/// successor makes that successor a literal, also where the byte is `_`; a
/// `_` that escapes nothing is a wildcard; every other byte is a literal.
pub open spec fn reference_tokens_in(pattern: Seq<u8>, escape: u32, wild: bool) -> Seq<Token>
    decreases pattern.len(),
{
    if pattern.len() == 0 {
        Seq::empty()
    } else if pattern[0] == ANY_RUN {
        seq![Token::AnyRun] + reference_tokens_in(pattern.skip(1), escape, true)
    } else if pattern[0] == ANY_BYTE && (wild || escape != ANY_BYTE || pattern.len() == 1) {
        seq![Token::AnyByte] + reference_tokens_in(pattern.skip(1), escape, wild)
    } else if pattern[0] == escape && pattern.len() > 1 {
        seq![Token::Byte(pattern[1])] + reference_tokens_in(pattern.skip(2), escape, false)
    } else {
        seq![Token::Byte(pattern[0])] + reference_tokens_in(pattern.skip(1), escape, false)
    }
}

/// The tokens of a whole pattern under the backtracking matcher's grammar.
pub open spec fn reference_tokens(pattern: Seq<u8>, escape: u32) -> Seq<Token> {
    reference_tokens_in(pattern, escape, false)
}

/// Whether `target` matches `pattern` under the backtracking matcher's
/// grammar.
pub open spec fn reference_matches(target: Seq<u8>, pattern: Seq<u8>, escape: u32) -> bool {
    accepts(reference_tokens(pattern, escape), target)
}

/// The number of literals in `tokens` that come first behind a `%`: each of
/// them costs the backtracking matcher one level of recursion. `wild` says
/// that a `%` stands before `tokens` with no literal between.
pub open spec fn search_depth(tokens: Seq<Token>, wild: bool) -> nat
    decreases tokens.len(),
{
    if tokens.len() == 0 {
        0
    } else {
        match tokens[0] {
            Token::AnyRun => search_depth(tokens.skip(1), true),
            Token::AnyByte => search_depth(tokens.skip(1), wild),
            Token::Byte(_) => if wild {
                1 + search_depth(tokens.skip(1), false)
            } else {
                search_depth(tokens.skip(1), false)
            },
        }
    }
}

/// What a search sees of `tokens` when it may recurse `budget` times: all of
/// them if that is enough; otherwise the tokens up to the first literal
/// that would need one level more, and a `%` in place of the rest.
pub open spec fn guarded(tokens: Seq<Token>, wild: bool, budget: nat) -> Seq<Token>
    decreases tokens.len(),
{
    if tokens.len() == 0 {
        tokens
    } else {
        match tokens[0] {
            Token::AnyRun => seq![Token::AnyRun] + guarded(tokens.skip(1), true, budget),
            Token::AnyByte => seq![Token::AnyByte] + guarded(tokens.skip(1), wild, budget),
            Token::Byte(b) => if wild && budget == 0 {
                seq![Token::Byte(b), Token::AnyRun]
            } else if wild {
                seq![Token::Byte(b)] + guarded(tokens.skip(1), false, (budget - 1) as nat)
            } else {
                seq![Token::Byte(b)] + guarded(tokens.skip(1), false, budget)
            },
        }
    }
}

/// The number of times that a call at `level` and its callees may recurse.
pub open spec fn recursion_budget(level: usize) -> nat {
    if level <= MAX_RECURSE_LEVEL {
        (MAX_RECURSE_LEVEL - level + 1) as nat
    } else {
        0
    }
}

/// What the backtracking matcher returns when called at `level`.
///
/// Where the pattern needs no more recursion than the level leaves, this is
/// `Ok` of whether the pattern's tokens accept the target. Where it needs
/// more, the search stops at the first literal that it may not recurse for:
/// it is `Err` if the target can be matched up to and including that
/// literal, and `Ok(false)` if it cannot.
pub open spec fn reference_outcome(
    target: Seq<u8>,
    pattern: Seq<u8>,
    escape: u32,
    level: usize,
) -> Result<bool, ()> {
    let tokens = reference_tokens(pattern, escape);
    let budget = recursion_budget(level);
    if !accepts(guarded(tokens, false, budget), target) {
        Ok(false)
    } else if search_depth(tokens, false) > budget {
        Err(())
    } else {
        Ok(true)
    }
}

} // verus!
