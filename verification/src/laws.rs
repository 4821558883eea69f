//! What holds of the matchers beyond the contract of each: laws that relate
//! the two grammars, the two matchers and the recursion ceiling.

use vstd::prelude::*;
use crate::pattern::{
    accepts, guarded, lemma_any_run_accepts, like_matches, like_tokens, recursion_budget,
    reference_matches, reference_outcome, reference_tokens, reference_tokens_in, search_depth,
    Token, ANY_BYTE, ANY_RUN, MAX_RECURSE_LEVEL,
};

verus! {

/// The escape byte is not `_`, or no `_` stands in the pattern: then no `_`
/// can be taken for an escape byte.
pub open spec fn grammars_meet(pattern: Seq<u8>, escape: u32) -> bool {
    escape != ANY_BYTE || forall|i: int| 0 <= i < pattern.len() ==> pattern[i] != ANY_BYTE
}

/// Where the escape byte is not `_`, or the pattern holds no `_`, the
/// backtracking matcher reads the same tokens as the linear matcher,
/// behind a `%` and elsewhere.
proof fn lemma_tokens_agree(pattern: Seq<u8>, escape: u32, wild: bool)
    requires
        grammars_meet(pattern, escape),
    ensures
        reference_tokens_in(pattern, escape, wild) == like_tokens(pattern, escape),
    decreases pattern.len(),
{
    if pattern.len() > 0 {
        assert(pattern[0] == ANY_BYTE ==> escape != ANY_BYTE);
        assert(grammars_meet(pattern.skip(1), escape)) by {
            assert forall|i: int| 0 <= i < pattern.skip(1).len() implies pattern.skip(1)[i]
                == pattern[i + 1] by {}
        }
        lemma_tokens_agree(pattern.skip(1), escape, true);
        lemma_tokens_agree(pattern.skip(1), escape, false);
        if pattern.len() > 1 {
            assert(grammars_meet(pattern.skip(2), escape)) by {
                assert forall|i: int| 0 <= i < pattern.skip(2).len() implies pattern.skip(2)[i]
                    == pattern[i + 2] by {}
            }
            lemma_tokens_agree(pattern.skip(2), escape, false);
        }
    }
}

/// A search that may recurse as often as the tokens ask for sees all of
/// them.
proof fn lemma_guarded_whole(tokens: Seq<Token>, wild: bool, budget: nat)
    requires
        search_depth(tokens, wild) <= budget,
    ensures
        guarded(tokens, wild, budget) == tokens,
    decreases tokens.len(),
{
    if tokens.len() > 0 {
        let rest = tokens.skip(1);
        match tokens[0] {
            Token::AnyRun => {
                lemma_guarded_whole(rest, true, budget);
            },
            Token::AnyByte => {
                lemma_guarded_whole(rest, wild, budget);
            },
            Token::Byte(_) => {
                if wild {
                    lemma_guarded_whole(rest, false, (budget - 1) as nat);
                } else {
                    lemma_guarded_whole(rest, false, budget);
                }
            },
        }
        assert(seq![tokens[0]] + rest =~= tokens);
    }
}

/// Each level of recursion is paid for by two bytes of the pattern at least:
/// a `%` and the literal behind it.
proof fn lemma_depth_bound(pattern: Seq<u8>, escape: u32, wild: bool)
    ensures
        2 * search_depth(reference_tokens_in(pattern, escape, wild), wild) <= pattern.len() + (if wild {
            1int
        } else {
            0int
        }),
    decreases pattern.len(),
{
    let tokens = reference_tokens_in(pattern, escape, wild);
    if pattern.len() > 0 {
        if pattern[0] == ANY_RUN {
            let rest = reference_tokens_in(pattern.skip(1), escape, true);
            assert(tokens.skip(1) =~= rest);
            lemma_depth_bound(pattern.skip(1), escape, true);
        } else if pattern[0] == ANY_BYTE && (wild || escape != ANY_BYTE || pattern.len() == 1) {
            let rest = reference_tokens_in(pattern.skip(1), escape, wild);
            assert(tokens.skip(1) =~= rest);
            lemma_depth_bound(pattern.skip(1), escape, wild);
        } else if pattern[0] == escape && pattern.len() > 1 {
            let rest = reference_tokens_in(pattern.skip(2), escape, false);
            assert(tokens.skip(1) =~= rest);
            lemma_depth_bound(pattern.skip(2), escape, false);
        } else {
            let rest = reference_tokens_in(pattern.skip(1), escape, false);
            assert(tokens.skip(1) =~= rest);
            lemma_depth_bound(pattern.skip(1), escape, false);
        }
    }
}

/// A call at a level that leaves room for the whole search returns `Ok` of
/// whether the pattern matches: it never reports the ceiling.
pub proof fn law_shallow_search_decides(
    target: Seq<u8>,
    pattern: Seq<u8>,
    escape: u32,
    level: usize,
)
    requires
        search_depth(reference_tokens(pattern, escape), false) <= recursion_budget(level),
    ensures
        reference_outcome(target, pattern, escape, level) == Ok::<bool, ()>(
            reference_matches(target, pattern, escape),
        ),
{
    lemma_guarded_whole(reference_tokens(pattern, escape), false, recursion_budget(level));
}

/// A pattern of no more than twice as many bytes as the level leaves
/// recursions is always decided.
pub proof fn law_short_pattern_decides(
    target: Seq<u8>,
    pattern: Seq<u8>,
    escape: u32,
    level: usize,
)
    requires
        level <= MAX_RECURSE_LEVEL,
        pattern.len() <= 2 * (MAX_RECURSE_LEVEL - level + 1),
    ensures
        reference_outcome(target, pattern, escape, level) == Ok::<bool, ()>(
            reference_matches(target, pattern, escape),
        ),
{
    lemma_depth_bound(pattern, escape, false);
    law_shallow_search_decides(target, pattern, escape, level);
}

/// Where the escape byte is not `_`, or the pattern holds no `_`, both
/// grammars read the same tokens out of the pattern.
pub proof fn law_grammars_agree(pattern: Seq<u8>, escape: u32)
    requires
        grammars_meet(pattern, escape),
    ensures
        reference_tokens(pattern, escape) == like_tokens(pattern, escape),
{
    lemma_tokens_agree(pattern, escape, false);
}

/// What the tokens accept, a search with any budget gets through: it sees
/// the same tokens, or a prefix of them and a `%` for the rest.
proof fn lemma_guarded_keeps(tokens: Seq<Token>, target: Seq<u8>, wild: bool, budget: nat)
    requires
        accepts(tokens, target),
    ensures
        accepts(guarded(tokens, wild, budget), target),
    decreases tokens.len(), target.len(),
{
    if tokens.len() > 0 {
        let rest = tokens.skip(1);
        let seen = guarded(tokens, wild, budget);
        match tokens[0] {
            Token::AnyRun => {
                assert(seen.skip(1) =~= guarded(rest, true, budget));
                if accepts(rest, target) {
                    lemma_guarded_keeps(rest, target, true, budget);
                } else {
                    lemma_guarded_keeps(tokens, target.skip(1), wild, budget);
                }
            },
            Token::AnyByte => {
                assert(seen.skip(1) =~= guarded(rest, wild, budget));
                lemma_guarded_keeps(rest, target.skip(1), wild, budget);
            },
            Token::Byte(_) => {
                if wild && budget == 0 {
                    assert(seen.skip(1) =~= seq![Token::AnyRun]);
                    lemma_any_run_accepts(target.skip(1));
                } else if wild {
                    assert(seen.skip(1) =~= guarded(rest, false, (budget - 1) as nat));
                    lemma_guarded_keeps(rest, target.skip(1), false, (budget - 1) as nat);
                } else {
                    assert(seen.skip(1) =~= guarded(rest, false, budget));
                    lemma_guarded_keeps(rest, target.skip(1), false, budget);
                }
            },
        }
    }
}

/// Whatever the backtracking matcher decides is right: an `Ok` that it
/// returns, at any level, holds whether the pattern's tokens accept the
/// target. The ceiling costs answers, never their truth.
pub proof fn law_verdict_is_right(target: Seq<u8>, pattern: Seq<u8>, escape: u32, level: usize)
    requires
        reference_outcome(target, pattern, escape, level) is Ok,
    ensures
        reference_outcome(target, pattern, escape, level) == Ok::<bool, ()>(
            reference_matches(target, pattern, escape),
        ),
{
    let tokens = reference_tokens(pattern, escape);
    let budget = recursion_budget(level);
    if accepts(tokens, target) {
        lemma_guarded_keeps(tokens, target, false, budget);
    }
    if search_depth(tokens, false) <= budget {
        lemma_guarded_whole(tokens, false, budget);
    }
}

/// The two matchers agree: where both grammars read the same tokens out of
/// the pattern and the backtracking matcher decides, it returns what the
/// linear matcher returns.
pub proof fn law_matchers_agree(target: Seq<u8>, pattern: Seq<u8>, escape: u32, level: usize)
    requires
        reference_tokens(pattern, escape) == like_tokens(pattern, escape),
        reference_outcome(target, pattern, escape, level) is Ok,
    ensures
        reference_outcome(target, pattern, escape, level) == Ok::<bool, ()>(
            like_matches(target, pattern, escape),
        ),
{
    law_verdict_is_right(target, pattern, escape, level);
}

/// The empty pattern matches the empty target and no other, under both
/// matchers and at every level.
pub proof fn law_empty_pattern(target: Seq<u8>, escape: u32, level: usize)
    ensures
        like_matches(target, Seq::empty(), escape) == (target.len() == 0),
        reference_outcome(target, Seq::empty(), escape, level) == Ok::<bool, ()>(
            target.len() == 0,
        ),
{
    law_shallow_search_decides(target, Seq::empty(), escape, level);
}

/// Tokens that are all `%`, one at least, accept every target.
proof fn lemma_runs_accept(tokens: Seq<Token>, target: Seq<u8>)
    requires
        tokens.len() > 0,
        forall|i: int| 0 <= i < tokens.len() ==> tokens[i] == Token::AnyRun,
    ensures
        accepts(tokens, target),
    decreases target.len(), tokens.len(),
{
    if target.len() > 0 {
        lemma_runs_accept(tokens, target.skip(1));
    } else if tokens.len() > 1 {
        lemma_runs_accept(tokens.skip(1), target);
    } else {
        assert(accepts(tokens.skip(1), target));
    }
}

/// A pattern of `%` alone reads as that many `%` tokens, which cost no
/// recursion.
proof fn lemma_runs_tokens(pattern: Seq<u8>, escape: u32, wild: bool)
    requires
        forall|i: int| 0 <= i < pattern.len() ==> pattern[i] == ANY_RUN,
    ensures
        like_tokens(pattern, escape).len() == pattern.len(),
        forall|i: int|
            0 <= i < pattern.len() ==> (#[trigger] like_tokens(pattern, escape)[i])
                == Token::AnyRun,
        reference_tokens_in(pattern, escape, wild) == like_tokens(pattern, escape),
        search_depth(like_tokens(pattern, escape), wild) == 0,
    decreases pattern.len(),
{
    if pattern.len() > 0 {
        let rest = pattern.skip(1);
        lemma_runs_tokens(rest, escape, true);
        assert(like_tokens(pattern, escape).skip(1) =~= like_tokens(rest, escape));
    }
}

/// A pattern that holds `%` and nothing else, once at least, matches every
/// target, the empty one too, under both matchers and at every level.
pub proof fn law_runs_match_all(target: Seq<u8>, pattern: Seq<u8>, escape: u32, level: usize)
    requires
        pattern.len() > 0,
        forall|i: int| 0 <= i < pattern.len() ==> pattern[i] == ANY_RUN,
    ensures
        like_matches(target, pattern, escape),
        reference_outcome(target, pattern, escape, level) == Ok::<bool, ()>(true),
{
    lemma_runs_tokens(pattern, escape, false);
    lemma_runs_accept(like_tokens(pattern, escape), target);
    law_shallow_search_decides(target, pattern, escape, level);
}

/// The number of bytes that the first token of a pattern spans, under the
/// linear matcher's grammar.
pub open spec fn first_width(pattern: Seq<u8>, escape: u32) -> int {
    if pattern[0] != ANY_RUN && pattern[0] != ANY_BYTE && pattern[0] == escape && pattern.len()
        > 1 {
        2
    } else {
        1
    }
}

/// Whether a token of `pattern` starts at byte `i`, or the tokens end there:
/// `i` is reached from the start by whole tokens.
pub open spec fn token_starts_at(pattern: Seq<u8>, escape: u32, i: int) -> bool
    decreases pattern.len(),
{
    if i == 0 {
        true
    } else if pattern.len() == 0 {
        false
    } else {
        let w = first_width(pattern, escape);
        w <= i && token_starts_at(pattern.skip(w), escape, i - w)
    }
}

/// Where a token starts, the tokens of the pattern are those of what stands
/// before, followed by those of what stands from there on.
proof fn lemma_tokens_split(pattern: Seq<u8>, escape: u32, i: int)
    requires
        0 <= i <= pattern.len(),
        token_starts_at(pattern, escape, i),
    ensures
        like_tokens(pattern, escape) == like_tokens(pattern.take(i), escape) + like_tokens(
            pattern.skip(i),
            escape,
        ),
    decreases pattern.len(),
{
    if i == 0 {
        assert(pattern.skip(0) =~= pattern);
        assert(like_tokens(pattern.take(0), escape) =~= Seq::<Token>::empty());
        assert(Seq::<Token>::empty() + like_tokens(pattern, escape) =~= like_tokens(
            pattern,
            escape,
        ));
    } else {
        let w = first_width(pattern, escape);
        let rest = pattern.skip(w);
        let head = pattern.take(i);
        lemma_tokens_split(rest, escape, i - w);
        assert(head.skip(w) =~= rest.take(i - w));
        assert(rest.skip(i - w) =~= pattern.skip(i));
        assert(first_width(head, escape) == w);
        let first = like_tokens(pattern, escape)[0];
        assert(like_tokens(pattern, escape) == seq![first] + like_tokens(rest, escape));
        assert(like_tokens(head, escape) == seq![first] + like_tokens(head.skip(w), escape));
        assert(seq![first] + (like_tokens(rest.take(i - w), escape) + like_tokens(
            pattern.skip(i),
            escape,
        )) =~= (seq![first] + like_tokens(rest.take(i - w), escape)) + like_tokens(
            pattern.skip(i),
            escape,
        ));
    }
}

/// A byte behind the escape byte is a literal, whatever it is: where a token
/// starts with an escape byte that is neither `%` nor `_` and has a
/// successor, the successor is the literal token for itself, between the
/// tokens of what stands before the escape byte and of what stands behind
/// the successor. Both grammars read it so.
pub proof fn law_escaped_byte_is_literal(pattern: Seq<u8>, escape: u32, i: int)
    requires
        0 <= i,
        i + 1 < pattern.len(),
        token_starts_at(pattern, escape, i),
        pattern[i] == escape,
        pattern[i] != ANY_RUN,
        pattern[i] != ANY_BYTE,
    ensures
        like_tokens(pattern, escape) == like_tokens(pattern.take(i), escape) + seq![
            Token::Byte(pattern[i + 1]),
        ] + like_tokens(pattern.skip(i + 2), escape),
        reference_tokens(pattern, escape) == like_tokens(pattern, escape),
{
    lemma_tokens_split(pattern, escape, i);
    let tail = pattern.skip(i);
    assert(tail.skip(2) =~= pattern.skip(i + 2));
    assert(like_tokens(pattern.take(i), escape) + (seq![Token::Byte(pattern[i + 1])]
        + like_tokens(pattern.skip(i + 2), escape)) =~= like_tokens(pattern.take(i), escape)
        + seq![Token::Byte(pattern[i + 1])] + like_tokens(pattern.skip(i + 2), escape));
    lemma_tokens_agree(pattern, escape, false);
}

/// An escape byte at the very end of the pattern has nothing to escape and
/// stands for itself: where the last token starts with it, that token is the
/// literal for the escape byte. Both grammars read it so.
pub proof fn law_trailing_escape_is_literal(pattern: Seq<u8>, escape: u32)
    requires
        pattern.len() > 0,
        token_starts_at(pattern, escape, pattern.len() - 1),
        pattern.last() == escape,
        pattern.last() != ANY_RUN,
        pattern.last() != ANY_BYTE,
    ensures
        like_tokens(pattern, escape) == like_tokens(pattern.drop_last(), escape) + seq![
            Token::Byte(pattern.last()),
        ],
        reference_tokens(pattern, escape) == like_tokens(pattern, escape),
{
    let i = pattern.len() - 1;
    lemma_tokens_split(pattern, escape, i);
    let tail = pattern.skip(i);
    assert(pattern.take(i) =~= pattern.drop_last());
    assert(like_tokens(tail.skip(1), escape) =~= Seq::<Token>::empty());
    assert(like_tokens(tail, escape) =~= seq![Token::Byte(pattern.last())]);
    lemma_tokens_agree(pattern, escape, false);
}

/// A `%` before `rest` may take the first `k` bytes of the target.
proof fn lemma_run_takes(rest: Seq<Token>, target: Seq<u8>, k: int)
    requires
        0 <= k <= target.len(),
        accepts(rest, target.skip(k)),
    ensures
        accepts(seq![Token::AnyRun] + rest, target),
    decreases k,
{
    let tokens = seq![Token::AnyRun] + rest;
    assert(tokens.skip(1) =~= rest);
    if k == 0 {
        assert(target.skip(0) =~= target);
    } else {
        assert(target.skip(1).skip(k - 1) =~= target.skip(k));
        lemma_run_takes(rest, target.skip(1), k - 1);
    }
}

/// The number of bytes that a `%` before `rest` takes in some way of
/// accepting the target.
proof fn lemma_run_took(rest: Seq<Token>, target: Seq<u8>) -> (k: int)
    requires
        accepts(seq![Token::AnyRun] + rest, target),
    ensures
        0 <= k <= target.len(),
        accepts(rest, target.skip(k)),
    decreases target.len(),
{
    let tokens = seq![Token::AnyRun] + rest;
    assert(tokens.skip(1) =~= rest);
    if accepts(rest, target) {
        assert(target.skip(0) =~= target);
        0
    } else {
        let j = lemma_run_took(rest, target.skip(1));
        assert(target.skip(1).skip(j) =~= target.skip(j + 1));
        j + 1
    }
}

/// `%` stands for any run of bytes: tokens that begin with it accept a
/// target exactly if the tokens behind it accept what is left of the target
/// behind some prefix, the empty one and the whole target included.
pub proof fn law_run_takes_any_prefix(rest: Seq<Token>, target: Seq<u8>)
    ensures
        accepts(seq![Token::AnyRun] + rest, target) == (exists|k: int|
            0 <= k <= target.len() && #[trigger] accepts(rest, target.skip(k))),
{
    if accepts(seq![Token::AnyRun] + rest, target) {
        let k = lemma_run_took(rest, target);
        assert(0 <= k <= target.len() && accepts(rest, target.skip(k)));
    }
    if exists|k: int| 0 <= k <= target.len() && #[trigger] accepts(rest, target.skip(k)) {
        let k = choose|k: int| 0 <= k <= target.len() && #[trigger] accepts(rest, target.skip(k));
        lemma_run_takes(rest, target, k);
    }
}

/// Two `%` in a row accept what one accepts.
pub proof fn law_repeated_run_is_one(rest: Seq<Token>, target: Seq<u8>)
    ensures
        accepts(seq![Token::AnyRun, Token::AnyRun] + rest, target) == accepts(
            seq![Token::AnyRun] + rest,
            target,
        ),
{
    let one = seq![Token::AnyRun] + rest;
    let two = seq![Token::AnyRun, Token::AnyRun] + rest;
    assert(two =~= seq![Token::AnyRun] + one);
    if accepts(two, target) {
        let k = lemma_run_took(one, target);
        let j = lemma_run_took(rest, target.skip(k));
        assert(target.skip(k).skip(j) =~= target.skip(k + j));
        lemma_run_takes(rest, target, k + j);
    }
    if accepts(one, target) {
        assert(target.skip(0) =~= target);
        lemma_run_takes(one, target, 0);
    }
}

} // verus!
