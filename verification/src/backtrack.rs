//! The backtracking matcher: literal runs are compared in place, and for
//! the first literal behind a `%` every occurrence in the target is tried
//! by recursion.

use vstd::prelude::*;
use vstd::slice::slice_subrange;
use crate::pattern::{
    accepts, guarded, lemma_any_run_accepts, recursion_budget, reference_outcome,
    reference_tokens_in, search_depth, Token, ANY_BYTE, ANY_RUN, MAX_RECURSE_LEVEL,
};

verus! {

/// The tokens that a search with `budget` recursions left sees in the rest of
/// `p` from `px`.
spec fn ref_tokens_at(p: Seq<u8>, e: u32, px: int, wild: bool, budget: nat) -> Seq<
    Token,
> {
    guarded(reference_tokens_in(p.skip(px), e, wild), wild, budget)
}

/// Whether those tokens accept the rest of `t` from `tx`.
spec fn ref_at(
    t: Seq<u8>,
    tx: int,
    p: Seq<u8>,
    e: u32,
    px: int,
    wild: bool,
    budget: nat,
) -> bool {
    accepts(ref_tokens_at(p, e, px, wild, budget), t.skip(tx))
}

/// Whether, behind a `%`, they accept some suffix of `t` that starts at
/// `from` or later.
spec fn ref_later(t: Seq<u8>, from: int, p: Seq<u8>, e: u32, px: int, budget: nat) -> bool {
    exists|k: int| from <= k <= t.len() && #[trigger] ref_at(t, k, p, e, px, true, budget)
}

/// The levels of recursion that the rest of `p` from `px` costs.
spec fn ref_depth(p: Seq<u8>, e: u32, px: int, wild: bool) -> nat {
    search_depth(reference_tokens_in(p.skip(px), e, wild), wild)
}

/// Whether the byte under the cursor is read as the wildcard `_`.
spec fn ref_is_any_byte(p: Seq<u8>, e: u32, px: int, wild: bool) -> bool {
    p[px] == ANY_BYTE && (wild || e != ANY_BYTE || px + 1 == p.len())
}

/// Whether the byte under the cursor escapes its successor.
spec fn ref_is_escape(p: Seq<u8>, e: u32, px: int, wild: bool) -> bool {
    p[px] != ANY_RUN && !ref_is_any_byte(p, e, px, wild) && p[px] == e && px + 1 < p.len()
}

/// The literal that the cursor stands on, where it stands on one.
spec fn ref_literal(p: Seq<u8>, e: u32, px: int, wild: bool) -> u8 {
    if ref_is_escape(p, e, px, wild) {
        p[px + 1]
    } else {
        p[px]
    }
}

/// The number of pattern bytes that the token under the cursor spans.
spec fn ref_width(p: Seq<u8>, e: u32, px: int, wild: bool) -> int {
    if ref_is_escape(p, e, px, wild) {
        2
    } else {
        1
    }
}

/// How `ref_at` and `ref_depth` unfold by the pattern byte under the cursor.
proof fn lemma_ref_step(
    t: Seq<u8>,
    tx: int,
    p: Seq<u8>,
    e: u32,
    px: int,
    wild: bool,
    budget: nat,
)
    requires
        0 <= tx <= t.len(),
        0 <= px <= p.len(),
    ensures
        px == p.len() ==> ref_at(t, tx, p, e, px, wild, budget) == (tx == t.len()) && ref_depth(
            p,
            e,
            px,
            wild,
        ) == 0,
        px < p.len() && p[px] == ANY_RUN ==> ref_at(t, tx, p, e, px, wild, budget) == (ref_at(
            t,
            tx,
            p,
            e,
            px + 1,
            true,
            budget,
        ) || (tx < t.len() && ref_at(t, tx + 1, p, e, px, wild, budget))) && ref_depth(
            p,
            e,
            px,
            wild,
        ) == ref_depth(p, e, px + 1, true),
        px < p.len() && p[px] != ANY_RUN && ref_is_any_byte(p, e, px, wild) ==> ref_at(
            t,
            tx,
            p,
            e,
            px,
            wild,
            budget,
        ) == (tx < t.len() && ref_at(t, tx + 1, p, e, px + 1, wild, budget)) && ref_depth(
            p,
            e,
            px,
            wild,
        ) == ref_depth(p, e, px + 1, wild),
        px < p.len() && p[px] != ANY_RUN && !ref_is_any_byte(p, e, px, wild) && !wild ==> ref_at(
            t,
            tx,
            p,
            e,
            px,
            wild,
            budget,
        ) == (tx < t.len() && t[tx] == ref_literal(p, e, px, wild) && ref_at(
            t,
            tx + 1,
            p,
            e,
            px + ref_width(p, e, px, wild),
            false,
            budget,
        )) && ref_depth(p, e, px, wild) == ref_depth(
            p,
            e,
            px + ref_width(p, e, px, wild),
            false,
        ),
        px < p.len() && p[px] != ANY_RUN && !ref_is_any_byte(p, e, px, wild) && wild ==> ref_at(
            t,
            tx,
            p,
            e,
            px,
            wild,
            budget,
        ) == (tx < t.len() && t[tx] == ref_literal(p, e, px, wild) && (budget == 0 || ref_at(
            t,
            tx + 1,
            p,
            e,
            px + ref_width(p, e, px, wild),
            false,
            (budget - 1) as nat,
        ))) && ref_depth(p, e, px, wild) == 1 + ref_depth(
            p,
            e,
            px + ref_width(p, e, px, wild),
            false,
        ),
{
    let ps = p.skip(px);
    let ts = t.skip(tx);
    let raw = reference_tokens_in(ps, e, wild);
    let toks = guarded(raw, wild, budget);
    if px < p.len() {
        assert(ps.skip(1) =~= p.skip(px + 1));
        if px + 1 < p.len() {
            assert(ps.skip(2) =~= p.skip(px + 2));
        }
        if tx < t.len() {
            assert(ts.skip(1) =~= t.skip(tx + 1));
        }
        assert(raw.len() > 0);
        if p[px] == ANY_RUN {
            let rest = reference_tokens_in(p.skip(px + 1), e, true);
            assert(raw.skip(1) =~= rest);
            assert(toks.skip(1) =~= guarded(rest, true, budget));
        } else if ref_is_any_byte(p, e, px, wild) {
            let rest = reference_tokens_in(p.skip(px + 1), e, wild);
            assert(raw.skip(1) =~= rest);
            assert(toks.skip(1) =~= guarded(rest, wild, budget));
        } else {
            let w = ref_width(p, e, px, wild);
            let rest = reference_tokens_in(p.skip(px + w), e, false);
            assert(raw.skip(1) =~= rest);
            assert(raw[0] == Token::Byte(ref_literal(p, e, px, wild)));
            if wild && budget == 0 {
                assert(toks.skip(1) =~= seq![Token::AnyRun]);
                lemma_any_run_accepts(ts.skip(1));
            } else if wild {
                assert(toks.skip(1) =~= guarded(rest, false, (budget - 1) as nat));
            } else {
                assert(toks.skip(1) =~= guarded(rest, false, budget));
            }
        }
    } else {
        assert(ps.len() == 0);
    }
}

/// A search from `from` either succeeds at `from` itself or is a search from
/// `from + 1`; past the end of the target there is nothing to find.
proof fn lemma_ref_later_unfold(
    t: Seq<u8>,
    from: int,
    p: Seq<u8>,
    e: u32,
    px: int,
    budget: nat,
)
    ensures
        ref_later(t, from, p, e, px, budget) == (from <= t.len() && (ref_at(
            t,
            from,
            p,
            e,
            px,
            true,
            budget,
        ) || ref_later(t, from + 1, p, e, px, budget))),
{
    if ref_later(t, from, p, e, px, budget) {
        let k = choose|k: int|
            from <= k <= t.len() && #[trigger] ref_at(t, k, p, e, px, true, budget);
        if k != from {
            assert(from + 1 <= k <= t.len() && ref_at(t, k, p, e, px, true, budget));
        }
    }
    if from <= t.len() && ref_later(t, from + 1, p, e, px, budget) {
        let k = choose|k: int|
            from + 1 <= k <= t.len() && #[trigger] ref_at(t, k, p, e, px, true, budget);
        assert(from <= k <= t.len() && ref_at(t, k, p, e, px, true, budget));
    }
}

/// At a `%`, matching from `tx` is finding a later suffix that matches what
/// follows the `%`.
proof fn lemma_ref_at_run(
    t: Seq<u8>,
    tx: int,
    p: Seq<u8>,
    e: u32,
    px: int,
    wild: bool,
    budget: nat,
)
    requires
        0 <= tx <= t.len(),
        0 <= px < p.len(),
        p[px] == ANY_RUN,
    ensures
        ref_at(t, tx, p, e, px, wild, budget) == ref_later(t, tx, p, e, px + 1, budget),
    decreases t.len() - tx,
{
    lemma_ref_step(t, tx, p, e, px, wild, budget);
    lemma_ref_later_unfold(t, tx, p, e, px + 1, budget);
    if tx < t.len() {
        lemma_ref_at_run(t, tx + 1, p, e, px, wild, budget);
    } else {
        lemma_ref_later_unfold(t, tx + 1, p, e, px + 1, budget);
    }
}

/// Behind a `%`, one more `%` changes nothing.
proof fn lemma_ref_later_run(t: Seq<u8>, tx: int, p: Seq<u8>, e: u32, px: int, budget: nat)
    requires
        0 <= tx <= t.len(),
        0 <= px < p.len(),
        p[px] == ANY_RUN,
    ensures
        ref_later(t, tx, p, e, px, budget) == ref_later(t, tx, p, e, px + 1, budget),
{
    if ref_later(t, tx, p, e, px, budget) {
        let k = choose|k: int|
            tx <= k <= t.len() && #[trigger] ref_at(t, k, p, e, px, true, budget);
        lemma_ref_at_run(t, k, p, e, px, true, budget);
        let j = choose|j: int|
            k <= j <= t.len() && #[trigger] ref_at(t, j, p, e, px + 1, true, budget);
        assert(tx <= j <= t.len() && ref_at(t, j, p, e, px + 1, true, budget));
    }
    if ref_later(t, tx, p, e, px + 1, budget) {
        let k = choose|k: int|
            tx <= k <= t.len() && #[trigger] ref_at(t, k, p, e, px + 1, true, budget);
        lemma_ref_at_run(t, k, p, e, px, true, budget);
        assert(k <= k <= t.len() && ref_at(t, k, p, e, px + 1, true, budget));
        assert(tx <= k <= t.len() && ref_at(t, k, p, e, px, true, budget));
    }
}

/// Behind a `%`, a `_` takes one byte of the target, whichever.
proof fn lemma_ref_later_any_byte(
    t: Seq<u8>,
    tx: int,
    p: Seq<u8>,
    e: u32,
    px: int,
    budget: nat,
)
    requires
        0 <= tx <= t.len(),
        0 <= px < p.len(),
        p[px] == ANY_BYTE,
    ensures
        ref_later(t, tx, p, e, px, budget) == (tx < t.len() && ref_later(
            t,
            tx + 1,
            p,
            e,
            px + 1,
            budget,
        )),
{
    if ref_later(t, tx, p, e, px, budget) {
        let k = choose|k: int|
            tx <= k <= t.len() && #[trigger] ref_at(t, k, p, e, px, true, budget);
        lemma_ref_step(t, k, p, e, px, true, budget);
        assert(tx + 1 <= k + 1 <= t.len() && ref_at(t, k + 1, p, e, px + 1, true, budget));
    }
    if tx < t.len() && ref_later(t, tx + 1, p, e, px + 1, budget) {
        let k = choose|k: int|
            tx + 1 <= k <= t.len() && #[trigger] ref_at(t, k, p, e, px + 1, true, budget);
        lemma_ref_step(t, k - 1, p, e, px, true, budget);
        assert(tx <= k - 1 <= t.len() && ref_at(t, k - 1, p, e, px, true, budget));
    }
}

/// Behind a `%`, the end of the pattern is reached by skipping what is left
/// of the target.
proof fn lemma_ref_later_end(t: Seq<u8>, tx: int, p: Seq<u8>, e: u32, budget: nat)
    requires
        0 <= tx <= t.len(),
    ensures
        ref_later(t, tx, p, e, p.len() as int, budget),
{
    lemma_ref_step(t, t.len() as int, p, e, p.len() as int, true, budget);
    assert(tx <= t.len() <= t.len() && ref_at(
        t,
        t.len() as int,
        p,
        e,
        p.len() as int,
        true,
        budget,
    ));
}

/// The result of a search that may recurse `budget` times, by whether it
/// got through (`found`) and by the levels of recursion that the pattern
/// costs.
spec fn verdict(found: bool, depth: nat, budget: nat) -> Result<bool, ()> {
    if !found {
        Ok(false)
    } else if depth > budget {
        Err(())
    } else {
        Ok(true)
    }
}

/// The outcome of a call, over the cursors at their start.
proof fn lemma_outcome_at_start(t: Seq<u8>, p: Seq<u8>, e: u32, level: usize)
    ensures
        reference_outcome(t, p, e, level) == verdict(
            ref_at(t, 0, p, e, 0, false, recursion_budget(level)),
            ref_depth(p, e, 0, false),
            recursion_budget(level),
        ),
{
    assert(p.skip(0) =~= p);
    assert(t.skip(0) =~= t);
}

/// The outcome of the call that tries the occurrence before `tx`.
proof fn lemma_outcome_of_rest(t: Seq<u8>, tx: int, p: Seq<u8>, px: int, e: u32, level: usize)
    requires
        0 <= tx <= t.len(),
        0 <= px <= p.len(),
    ensures
        reference_outcome(t.subrange(tx, t.len() as int), p.subrange(px, p.len() as int), e, level)
            == verdict(
            ref_at(t, tx, p, e, px, false, recursion_budget(level)),
            ref_depth(p, e, px, false),
            recursion_budget(level),
        ),
{
    assert(p.subrange(px, p.len() as int) =~= p.skip(px));
    assert(t.subrange(tx, t.len() as int) =~= t.skip(tx));
}

/// Compares the literals and `_` that stand before the first `%` with the
/// target, byte for byte, and moves both cursors over what it has read.
///
/// `Some` is the verdict on the whole match: the pattern ended before a `%`
/// came, or a byte did not fit. `None` says that a `%` was read and that the
/// match now stands or falls with the search behind it, at the cursors as
/// they are left. `budget` is the number of recursions that the caller may
/// still make.
fn partial_like(
    target: &[u8],
    tx: &mut usize,
    pattern: &[u8],
    px: &mut usize,
    escape: u32,
    Ghost(budget): Ghost<nat>,
) -> (r: Option<bool>)
    requires
        *old(tx) <= target.len(),
        *old(px) <= pattern.len(),
    ensures
        *old(tx) <= *final(tx) <= target.len(),
        *old(px) <= *final(px) <= pattern.len(),
        match r {
            Some(found) => found == ref_at(
                target@,
                *old(tx) as int,
                pattern@,
                escape,
                *old(px) as int,
                false,
                budget,
            ) && (found ==> ref_depth(pattern@, escape, *old(px) as int, false) == 0),
            None => *old(px) < *final(px) && pattern@[*final(px) - 1] == ANY_RUN && ref_at(
                target@,
                *old(tx) as int,
                pattern@,
                escape,
                *old(px) as int,
                false,
                budget,
            ) == ref_later(target@, *final(tx) as int, pattern@, escape, *final(px) as int, budget)
                && ref_depth(pattern@, escape, *old(px) as int, false) == ref_depth(
                pattern@,
                escape,
                *final(px) as int,
                true,
            ),
        },
{
    let ghost t = target@;
    let ghost p = pattern@;
    let ghost tx0 = *tx as int;
    let ghost px0 = *px as int;
    loop
        invariant
            t == target@,
            p == pattern@,
            tx0 == *old(tx),
            px0 == *old(px),
            tx0 <= *tx <= t.len(),
            px0 <= *px <= p.len(),
            ref_at(t, tx0, p, escape, px0, false, budget) == ref_at(
                t,
                *tx as int,
                p,
                escape,
                *px as int,
                false,
                budget,
            ),
            ref_depth(p, escape, px0, false) == ref_depth(p, escape, *px as int, false),
        decreases p.len() - *px,
    {
        proof {
            lemma_ref_step(t, *tx as int, p, escape, *px as int, false, budget);
        }
        if *px >= pattern.len() {
            return Some(*tx >= target.len());
        }
        let c = pattern[*px];
        if c == ANY_RUN {
            proof {
                lemma_ref_at_run(t, *tx as int, p, escape, *px as int, false, budget);
            }
            *px = *px + 1;
            return None;
        }
        *px = *px + 1;
        let mut npc = c;
        let mut escaped = false;
        if c as u32 == escape && *px < pattern.len() {
            npc = pattern[*px];
            escaped = true;
            *px = *px + 1;
        }
        if *tx >= target.len() {
            return Some(false);
        }
        let nsc = target[*tx];
        *tx = *tx + 1;
        if nsc != npc && (npc != ANY_BYTE || escaped) {
            return Some(false);
        }
    }
}

/// Matches `target` against `pattern` by backtracking: the literals before
/// the first `%` are compared in place; then every occurrence in the target
/// of the first literal behind the `%` is tried in turn, by a call of this
/// function on what follows the occurrence and the literal.
///
/// `recurse_level` is the level of this call; a call from outside passes a
/// level of its choice and so decides how deep the search may go. A call at
/// a level above `MAX_RECURSE_LEVEL` does not recurse: where it would have
/// to, it returns `Err`.
///
/// The result is `reference_outcome`: `Ok` of whether the pattern's tokens
/// accept the target where the level leaves room for the whole search;
/// otherwise `Err` if the search reaches the literal that it may not recurse
/// for, and `Ok(false)` if the match fails before that.
pub fn like(target: &[u8], pattern: &[u8], escape: u32, recurse_level: usize) -> (r: Result<
    bool,
    (),
>)
    ensures
        r == reference_outcome(target@, pattern@, escape, recurse_level),
    decreases pattern.len(),
{
    let ghost t = target@;
    let ghost p = pattern@;
    let ghost budget = recursion_budget(recurse_level);
    let ghost outcome = reference_outcome(t, p, escape, recurse_level);
    let mut tx: usize = 0;
    let mut px: usize = 0;
    proof {
        lemma_outcome_at_start(t, p, escape, recurse_level);
    }
    if let Some(res) = partial_like(target, &mut tx, pattern, &mut px, escape, Ghost(budget)) {
        return Ok(res);
    }
    // Behind a `%`: further `%` add nothing, and each `_` takes one byte.
    loop
        invariant_except_break
            t == target@,
            p == pattern@,
            tx <= t.len(),
            px <= p.len(),
            outcome == reference_outcome(target@, pattern@, escape, recurse_level),
            outcome == verdict(
                ref_later(t, tx as int, p, escape, px as int, budget),
                ref_depth(p, escape, px as int, true),
                budget,
            ),
        ensures
            tx <= t.len(),
            px < p.len(),
            p[px as int] != ANY_RUN,
            p[px as int] != ANY_BYTE,
            outcome == verdict(
                ref_later(t, tx as int, p, escape, px as int, budget),
                ref_depth(p, escape, px as int, true),
                budget,
            ),
        decreases p.len() - px,
    {
        proof {
            lemma_ref_step(t, tx as int, p, escape, px as int, true, budget);
        }
        if px >= pattern.len() {
            proof {
                lemma_ref_later_end(t, tx as int, p, escape, budget);
            }
            return Ok(true);
        }
        let c = pattern[px];
        if c == ANY_RUN {
            proof {
                lemma_ref_later_run(t, tx as int, p, escape, px as int, budget);
            }
            px += 1;
        } else if c == ANY_BYTE {
            proof {
                lemma_ref_later_any_byte(t, tx as int, p, escape, px as int, budget);
            }
            if tx >= target.len() {
                return Ok(false);
            }
            tx += 1;
            px += 1;
        } else {
            break ;
        }
    }
    // The pattern goes on with a literal: `%xxx`.
    let ghost at = px as int;
    let c = pattern[px];
    px += 1;
    let mut next_char: u32 = c as u32;
    if c as u32 == escape && px < pattern.len() {
        next_char = pattern[px] as u32;
        px += 1;
    }
    while tx < target.len()
        invariant
            t == target@,
            p == pattern@,
            tx <= t.len(),
            0 <= at < px <= p.len(),
            p[at] != ANY_RUN,
            p[at] != ANY_BYTE,
            px == at + ref_width(p, escape, at, true),
            next_char == ref_literal(p, escape, at, true),
            budget == recursion_budget(recurse_level),
            outcome == reference_outcome(target@, pattern@, escape, recurse_level),
            outcome == verdict(
                ref_later(t, tx as int, p, escape, at, budget),
                ref_depth(p, escape, at, true),
                budget,
            ),
        decreases t.len() - tx,
    {
        proof {
            lemma_ref_step(t, tx as int, p, escape, at, true, budget);
            lemma_ref_later_unfold(t, tx as int, p, escape, at, budget);
        }
        let s = target[tx] as u32;
        tx += 1;
        if s == next_char {
            if recurse_level > MAX_RECURSE_LEVEL {
                return Err(());
            }
            let rest_target = slice_subrange(target, tx, target.len());
            let rest_pattern = slice_subrange(pattern, px, pattern.len());
            proof {
                lemma_outcome_of_rest(t, tx as int, p, px as int, escape, (recurse_level + 1) as usize);
            }
            match like(rest_target, rest_pattern, escape, recurse_level + 1) {
                Err(err) => {
                    return Err(err);
                },
                Ok(true) => {
                    return Ok(true);
                },
                Ok(false) => {},
            }
        }
    }
    proof {
        lemma_ref_step(t, tx as int, p, escape, at, true, budget);
        lemma_ref_later_unfold(t, tx as int, p, escape, at, budget);
        lemma_ref_later_unfold(t, tx + 1, p, escape, at, budget);
    }
    Ok(false)
}

} // verus!
