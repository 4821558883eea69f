//! The linear matcher: two cursors and one checkpoint, no recursion.

use vstd::prelude::*;
use crate::pattern::{accepts, like_matches, like_tokens, ANY_BYTE, ANY_RUN};

verus! {

/// Whether the rest of `t` from `tx` matches the rest of `p` from `px`.
spec fn like_at(t: Seq<u8>, tx: int, p: Seq<u8>, e: u32, px: int) -> bool {
    accepts(like_tokens(p.skip(px), e), t.skip(tx))
}

/// Whether some suffix of `t` that starts at `from` or later matches the
/// rest of `p` from `px`.
spec fn like_later(t: Seq<u8>, from: int, p: Seq<u8>, e: u32, px: int) -> bool {
    exists|k: int| from <= k <= t.len() && #[trigger] like_at(t, k, p, e, px)
}

/// How `like_at` unfolds by the pattern byte under the cursor.
proof fn lemma_like_at_step(t: Seq<u8>, tx: int, p: Seq<u8>, e: u32, px: int)
    requires
        0 <= tx <= t.len(),
        0 <= px <= p.len(),
    ensures
        px == p.len() ==> like_at(t, tx, p, e, px) == (tx == t.len()),
        px < p.len() && p[px] == ANY_RUN ==> like_at(t, tx, p, e, px) == (like_at(
            t,
            tx,
            p,
            e,
            px + 1,
        ) || (tx < t.len() && like_at(t, tx + 1, p, e, px))),
        px < p.len() && p[px] == ANY_BYTE ==> like_at(t, tx, p, e, px) == (tx < t.len()
            && like_at(t, tx + 1, p, e, px + 1)),
        px < p.len() && p[px] != ANY_RUN && p[px] != ANY_BYTE && p[px] == e && px + 1 < p.len()
            ==> like_at(t, tx, p, e, px) == (tx < t.len() && t[tx] == p[px + 1] && like_at(
            t,
            tx + 1,
            p,
            e,
            px + 2,
        )),
        px < p.len() && p[px] != ANY_RUN && p[px] != ANY_BYTE && !(p[px] == e && px + 1 < p.len())
            ==> like_at(t, tx, p, e, px) == (tx < t.len() && t[tx] == p[px] && like_at(
            t,
            tx + 1,
            p,
            e,
            px + 1,
        )),
{
    let ps = p.skip(px);
    let ts = t.skip(tx);
    let toks = like_tokens(ps, e);
    if px < p.len() {
        assert(ps.skip(1) =~= p.skip(px + 1));
        if px + 1 < p.len() {
            assert(ps.skip(2) =~= p.skip(px + 2));
        }
        assert(toks.len() > 0);
        assert(toks.skip(1) =~= like_tokens(
            if p[px] != ANY_RUN && p[px] != ANY_BYTE && p[px] == e && px + 1 < p.len() {
                p.skip(px + 2)
            } else {
                p.skip(px + 1)
            },
            e,
        ));
        if tx < t.len() {
            assert(ts.skip(1) =~= t.skip(tx + 1));
        }
    } else {
        assert(ps.len() == 0);
    }
}

/// A search from `from` either succeeds at `from` itself or is a search from
/// `from + 1`; past the end of the target there is nothing to find.
proof fn lemma_like_later_unfold(t: Seq<u8>, from: int, p: Seq<u8>, e: u32, px: int)
    ensures
        like_later(t, from, p, e, px) == (from <= t.len() && (like_at(t, from, p, e, px)
            || like_later(t, from + 1, p, e, px))),
{
    if like_later(t, from, p, e, px) {
        let k = choose|k: int| from <= k <= t.len() && #[trigger] like_at(t, k, p, e, px);
        if k != from {
            assert(from + 1 <= k <= t.len() && like_at(t, k, p, e, px));
        }
    }
    if from <= t.len() && like_later(t, from + 1, p, e, px) {
        let k = choose|k: int| from + 1 <= k <= t.len() && #[trigger] like_at(t, k, p, e, px);
        assert(from <= k <= t.len() && like_at(t, k, p, e, px));
    }
}

/// A search that starts later finds nothing that an earlier one misses.
proof fn lemma_like_later_weaken(t: Seq<u8>, a: int, b: int, p: Seq<u8>, e: u32, px: int)
    requires
        a <= b,
        like_later(t, b, p, e, px),
    ensures
        like_later(t, a, p, e, px),
{
    let k = choose|k: int| b <= k <= t.len() && #[trigger] like_at(t, k, p, e, px);
    assert(a <= k <= t.len() && like_at(t, k, p, e, px));
}

/// At a `%`, matching from `tx` is finding a later suffix that matches what
/// follows the `%`.
proof fn lemma_like_at_run(t: Seq<u8>, tx: int, p: Seq<u8>, e: u32, px: int)
    requires
        0 <= tx <= t.len(),
        0 <= px < p.len(),
        p[px] == ANY_RUN,
    ensures
        like_at(t, tx, p, e, px) == like_later(t, tx, p, e, px + 1),
    decreases t.len() - tx,
{
    lemma_like_at_step(t, tx, p, e, px);
    lemma_like_later_unfold(t, tx, p, e, px + 1);
    if tx < t.len() {
        lemma_like_at_run(t, tx + 1, p, e, px);
    } else {
        lemma_like_later_unfold(t, tx + 1, p, e, px + 1);
    }
}

/// The number of pattern bytes that the token under the cursor `px` spans.
spec fn like_width(p: Seq<u8>, e: u32, px: int) -> int {
    if p[px] != ANY_RUN && p[px] != ANY_BYTE && p[px] == e && px + 1 < p.len() {
        2
    } else {
        1
    }
}

/// A token other than `%` takes exactly one byte, so a search that reaches it
/// goes on one byte further behind it.
proof fn lemma_like_later_advance(t: Seq<u8>, tx: int, p: Seq<u8>, e: u32, px: int)
    requires
        0 <= tx,
        0 <= px < p.len(),
        p[px] != ANY_RUN,
        like_later(t, tx, p, e, px),
    ensures
        like_later(t, tx + 1, p, e, px + like_width(p, e, px)),
{
    let k = choose|k: int| tx <= k <= t.len() && #[trigger] like_at(t, k, p, e, px);
    lemma_like_at_step(t, k, p, e, px);
    assert(like_at(t, k + 1, p, e, px + like_width(p, e, px)));
}

/// What is still untried behind the checkpoint: a longer run for the `%` at
/// `next_px`, which then ends at `next_tx` or later. No checkpoint, no
/// alternative.
spec fn like_retry(t: Seq<u8>, next_tx: int, p: Seq<u8>, e: u32, next_px: int) -> bool {
    next_tx > 0 && like_later(t, next_tx, p, e, next_px + 1)
}

/// Matches `target` against `pattern` with two cursors and a single
/// checkpoint: the last `%` seen and the target position from which to try
/// it again.
///
/// The result is always `Ok`, and it says whether the tokens of the pattern
/// accept the target. The loop ends on every input.
pub fn like_optimize(target: &[u8], pattern: &[u8], escape: u32) -> (r: Result<bool, ()>)
    ensures
        r == Ok::<bool, ()>(like_matches(target@, pattern@, escape)),
{
    let ghost t = target@;
    let ghost p = pattern@;
    let mut px: usize = 0;
    let mut tx: usize = 0;
    let mut next_px: usize = 0;
    let mut next_tx: usize = 0;
    proof {
        assert(p.skip(0) =~= p);
        assert(t.skip(0) =~= t);
    }
    while px < pattern.len() || tx < target.len()
        invariant
            t == target@,
            p == pattern@,
            px <= p.len(),
            tx <= t.len(),
            next_tx <= t.len(),
            next_tx > 0 ==> next_px < p.len() && p[next_px as int] == ANY_RUN,
            next_tx > 0 ==> next_px < px || (next_px == px && next_tx == tx),
            next_tx > 0 && next_px < px ==> next_tx <= tx + 1,
            like_matches(t, p, escape) == (like_at(t, tx as int, p, escape, px as int)
                || like_retry(t, next_tx as int, p, escape, next_px as int)),
            like_retry(t, next_tx as int, p, escape, next_px as int) ==> like_later(
                t,
                tx as int,
                p,
                escape,
                px as int,
            ),
        decreases
            if next_tx == 0 {
                t.len() - tx
            } else if next_px == px {
                t.len() - next_tx
            } else {
                t.len() + 1 - next_tx
            },
            p.len() - px,
    {
        proof {
            lemma_like_at_step(t, tx as int, p, escape, px as int);
        }
        if px < pattern.len() {
            let c = pattern[px];
            if c == ANY_BYTE {
                if tx < target.len() {
                    proof {
                        if like_retry(t, next_tx as int, p, escape, next_px as int) {
                            lemma_like_later_advance(t, tx as int, p, escape, px as int);
                        }
                    }
                    px += 1;
                    tx += 1;
                    continue ;
                }
            } else if c == ANY_RUN {
                proof {
                    lemma_like_at_run(t, tx as int, p, escape, px as int);
                    lemma_like_later_unfold(t, tx as int, p, escape, px + 1);
                    lemma_like_later_unfold(t, tx + 1, p, escape, px + 1);
                    if like_retry(t, next_tx as int, p, escape, next_px as int) {
                        let k = choose|k: int|
                            tx <= k <= t.len() && #[trigger] like_at(t, k, p, escape, px as int);
                        lemma_like_at_run(t, k, p, escape, px as int);
                        lemma_like_later_weaken(t, tx as int, k, p, escape, px + 1);
                    }
                }
                next_px = px;
                // A checkpoint taken at the end of the target can never be
                // resumed, so none is kept there.
                next_tx = if tx < target.len() {
                    tx + 1
                } else {
                    0
                };
                px += 1;
                continue ;
            } else {
                let mut pc = c;
                let ghost at = px;
                if pc as u32 == escape && px + 1 < pattern.len() {
                    px += 1;
                    pc = pattern[px];
                }
                if tx < target.len() && target[tx] == pc {
                    proof {
                        if like_retry(t, next_tx as int, p, escape, next_px as int) {
                            lemma_like_later_advance(t, tx as int, p, escape, at as int);
                        }
                    }
                    tx += 1;
                    px += 1;
                    continue ;
                }
            }
        }
        // Mismatch: resume behind the checkpoint, if there is one.
        if 0 < next_tx && next_tx <= target.len() {
            proof {
                lemma_like_at_run(t, next_tx as int, p, escape, next_px as int);
                assert(like_at(t, next_tx as int, p, escape, next_px as int) ==> like_later(
                    t,
                    next_tx as int,
                    p,
                    escape,
                    next_px as int,
                ));
            }
            px = next_px;
            tx = next_tx;
            continue ;
        }
        return Ok(false);
    }
    proof {
        lemma_like_at_step(t, tx as int, p, escape, px as int);
    }
    Ok(px == pattern.len())
}

} // verus!
