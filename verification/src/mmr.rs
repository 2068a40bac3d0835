//! The greedy shape of maximal-marginal-relevance reranking: the best-scored post
//! leads, a chooser picks each next post from those left, and the posts never picked
//! follow in score order.
use vstd::prelude::*;
use crate::candidate::{by_score, lemma_by_score, score_key, sort_by_score, PostCandidate};
use crate::ordering::{gathered, is_index_perm, is_reordering, lemma_reordering_refl, lemma_reordering_trans};

verus! {

/// Positions in the score-sorted list of `n` posts after the given picks: those
/// chosen so far (the best-scored first, then one per pick) and those left, in
/// order. Each pick is an index into the posts left at its step.
pub open spec fn mmr_positions(n: nat, picks: Seq<usize>) -> (Seq<usize>, Seq<usize>)
    decreases picks.len(),
{
    if picks.len() == 0 {
        (seq![0usize], Seq::new((n - 1) as nat, |i: int| (i + 1) as usize))
    } else {
        let prev = mmr_positions(n, picks.drop_last());
        let i = picks.last() as int;
        (prev.0.push(prev.1[i]), prev.1.remove(i))
    }
}

/// Every pick indexes the posts left at its step.
pub open spec fn picks_valid(n: nat, picks: Seq<usize>) -> bool
    decreases picks.len(),
{
    picks.len() == 0 || (picks_valid(n, picks.drop_last()) && picks.last() < mmr_positions(
        n,
        picks.drop_last(),
    ).1.len())
}

/// The slate the picks make of the score-sorted posts: the chosen posts in the
/// order chosen, then those left in score order.
pub open spec fn mmr_slate(sorted: Seq<PostCandidate>, picks: Seq<usize>) -> Seq<PostCandidate> {
    let pos = mmr_positions(sorted.len(), picks);
    gathered(sorted, pos.0 + pos.1)
}

proof fn lemma_positions_step(n: nat, picks: Seq<usize>, i: usize)
    requires
        1 <= n <= usize::MAX,
        picks_valid(n, picks),
        i < mmr_positions(n, picks).1.len(),
    ensures
        picks_valid(n, picks.push(i)),
        mmr_positions(n, picks.push(i)) == (
            mmr_positions(n, picks).0.push(mmr_positions(n, picks).1[i as int]),
            mmr_positions(n, picks).1.remove(i as int),
        ),
{
    assert(picks.push(i).drop_last() =~= picks);
}

/// What the picks keep true of the positions: the chosen ones start at the
/// best-scored post, chosen and left together list every position once, and
/// those left stay ascending.
pub proof fn lemma_mmr_positions(n: nat, picks: Seq<usize>)
    requires
        1 <= n <= usize::MAX,
        picks_valid(n, picks),
    ensures
        mmr_positions(n, picks).0.len() == picks.len() + 1,
        mmr_positions(n, picks).0.len() + mmr_positions(n, picks).1.len() == n,
        mmr_positions(n, picks).0[0] == 0,
        is_index_perm(mmr_positions(n, picks).0 + mmr_positions(n, picks).1, n),
        forall|a: int, b: int|
            0 <= a < b < mmr_positions(n, picks).1.len() ==> #[trigger] mmr_positions(n, picks).1[a]
                < #[trigger] mmr_positions(n, picks).1[b],
    decreases picks.len(),
{
    let pos = mmr_positions(n, picks);
    if picks.len() == 0 {
        let c = pos.0 + pos.1;
        assert forall|x: int, y: int| 0 <= x < c.len() && 0 <= y < c.len() && x != y implies c[x]
            != c[y] by {
            assert(c[x] == x as usize);
            assert(c[y] == y as usize);
        }
        assert forall|t: int| 0 <= t < c.len() implies #[trigger] c[t] < n by {
            assert(c[t] == t as usize);
        }
    } else {
        let prev_picks = picks.drop_last();
        lemma_mmr_positions(n, prev_picks);
        let p = mmr_positions(n, prev_picks);
        let i = picks.last() as int;
        let l0 = p.0.len() as int;
        p.1.remove_ensures(i);
        let c = p.0 + p.1;
        let d = pos.0 + pos.1;
        assert(pos.0 == p.0.push(p.1[i]));
        assert(pos.1 == p.1.remove(i));
        // `d` is `c` with one entry moved from `l0 + i` to `l0`.
        let f = |t: int|
            if t < l0 {
                t
            } else if t == l0 {
                l0 + i
            } else if t <= l0 + i {
                t - 1
            } else {
                t
            };
        assert forall|t: int| 0 <= t < d.len() implies #[trigger] d[t] == c[f(t)] by {
            if t < l0 {
                assert(d[t] == pos.0[t]);
                assert(pos.0[t] == p.0[t]);
            } else if t == l0 {
                assert(d[t] == pos.0[t]);
            } else if t <= l0 + i {
                assert(d[t] == pos.1[t - l0 - 1]);
                assert(pos.1[t - l0 - 1] == p.1[t - l0 - 1]);
                assert(c[t - 1] == p.1[t - 1 - l0]);
            } else {
                assert(d[t] == pos.1[t - l0 - 1]);
                assert(pos.1[t - l0 - 1] == p.1[t - l0]);
            }
        }
        assert(d.len() == c.len());
        assert forall|x: int, y: int| 0 <= x < d.len() && 0 <= y < d.len() && x != y implies d[x]
            != d[y] by {
            assert(d[x] == c[f(x)]);
            assert(d[y] == c[f(y)]);
        }
        assert forall|t: int| 0 <= t < d.len() implies #[trigger] d[t] < n by {
            assert(d[t] == c[f(t)]);
        }
        assert(pos.0[0] == p.0[0]);
        assert forall|a: int, b: int| 0 <= a < b < pos.1.len() implies #[trigger] pos.1[a]
            < #[trigger] pos.1[b] by {
            let ia = if a < i {
                a
            } else {
                a + 1
            };
            let ib = if b < i {
                b
            } else {
                b + 1
            };
            assert(pos.1[a] == p.1[ia]);
            assert(pos.1[b] == p.1[ib]);
        }
    }
}

/// The chooser, handed the posts chosen so far and those left, returned `choice`.
pub open spec fn step_chosen<F: Fn(&Vec<PostCandidate>, &Vec<PostCandidate>) -> usize>(
    pick: F,
    sorted: Seq<PostCandidate>,
    prior: Seq<usize>,
    choice: usize,
) -> bool {
    exists|sel: Vec<PostCandidate>, rem: Vec<PostCandidate>|
        {
            &&& sel@ == gathered(sorted, mmr_positions(sorted.len(), prior).0)
            &&& rem@ == gathered(sorted, mmr_positions(sorted.len(), prior).1)
            &&& #[trigger] pick.ensures((&sel, &rem), choice)
        }
}

/// Each pick is what the chooser returned at its step.
pub open spec fn chosen_by<F: Fn(&Vec<PostCandidate>, &Vec<PostCandidate>) -> usize>(
    pick: F,
    sorted: Seq<PostCandidate>,
    picks: Seq<usize>,
) -> bool {
    forall|j: int| 0 <= j < picks.len() ==> #[trigger] step_chosen(pick, sorted, picks.take(j), picks[j])
}

/// Greedy reranking: the posts sorted by score, the best-scored one first; then,
/// until `min(k, len)` posts are chosen, `pick` is handed the chosen posts and
/// those left and names the index of the next one among those left; the posts
/// never picked follow in score order.
pub fn mmr_order<F>(candidates: Vec<PostCandidate>, k: usize, pick: F) -> (ordered: Vec<PostCandidate>)
    where F: Fn(&Vec<PostCandidate>, &Vec<PostCandidate>) -> usize
    requires
        forall|sel: &Vec<PostCandidate>, rem: &Vec<PostCandidate>| #[trigger] pick.requires((sel, rem)),
        forall|sel: &Vec<PostCandidate>, rem: &Vec<PostCandidate>, i: usize|
            #[trigger] pick.ensures((sel, rem), i) && rem.len() > 0 ==> i < rem.len(),
    ensures
        is_reordering(ordered@, candidates@),
        candidates@.len() <= 1 || k == 0 ==> ordered@ == candidates@,
        !(candidates@.len() <= 1 || k == 0) ==> exists|picks: Seq<usize>|
            {
                &&& picks.len() + 1 == (if k < candidates@.len() {
                    k as nat
                } else {
                    candidates@.len()
                })
                &&& picks_valid(candidates@.len(), picks)
                &&& chosen_by(pick, by_score(candidates@), picks)
                &&& #[trigger] mmr_slate(by_score(candidates@), picks) == ordered@
            },
{
    if candidates.len() <= 1 || k == 0 {
        proof {
            lemma_reordering_refl(candidates@);
        }
        return candidates;
    }
    let ghost input = candidates@;
    let sorted = sort_by_score(candidates);
    proof {
        lemma_by_score(input);
    }
    let ghost s = sorted@;
    let n = sorted.len();
    let m = if k < n {
        k
    } else {
        n
    };
    let mut rest = sorted;
    let first = rest.remove(0);
    let mut selected: Vec<PostCandidate> = Vec::new();
    selected.push(first);
    let ghost mut picks: Seq<usize> = Seq::empty();
    proof {
        let pos = mmr_positions(n as nat, picks);
        assert(selected@ =~= gathered(s, pos.0));
        assert(rest@ =~= gathered(s, pos.1));
    }
    while selected.len() < m
        invariant
            n == s.len(),
            n == input.len(),
            s == by_score(input),
            1 <= m <= n,
            picks_valid(n as nat, picks),
            selected.len() == picks.len() + 1,
            selected.len() <= m,
            selected@ == gathered(s, mmr_positions(n as nat, picks).0),
            rest@ == gathered(s, mmr_positions(n as nat, picks).1),
            chosen_by(pick, s, picks),
            forall|sel: &Vec<PostCandidate>, rem: &Vec<PostCandidate>| #[trigger] pick.requires((sel, rem)),
            forall|sel: &Vec<PostCandidate>, rem: &Vec<PostCandidate>, i: usize|
                #[trigger] pick.ensures((sel, rem), i) && rem.len() > 0 ==> i < rem.len(),
        decreases m - selected.len(),
    {
        proof {
            lemma_mmr_positions(n as nat, picks);
        }
        let ghost sel_before = selected;
        let ghost rest_before = rest;
        let i = pick(&selected, &rest);
        let c = rest.remove(i);
        selected.push(c);
        proof {
            let old_picks = picks;
            let pos = mmr_positions(n as nat, old_picks);
            lemma_positions_step(n as nat, old_picks, i);
            picks = old_picks.push(i);
            assert(selected@ =~= gathered(s, mmr_positions(n as nat, picks).0));
            assert(rest@ =~= gathered(s, mmr_positions(n as nat, picks).1));
            assert(step_chosen(pick, s, old_picks, i)) by {
                assert(pick.ensures((&sel_before, &rest_before), i));
            }
            assert forall|j: int| 0 <= j < picks.len() implies #[trigger] step_chosen(
                pick,
                s,
                picks.take(j),
                picks[j],
            ) by {
                if j < old_picks.len() {
                    assert(picks.take(j) =~= old_picks.take(j));
                    assert(step_chosen(pick, s, old_picks.take(j), old_picks[j]));
                } else {
                    assert(picks.take(j) =~= old_picks);
                }
            }
        }
    }
    selected.append(&mut rest);
    proof {
        lemma_mmr_positions(n as nat, picks);
        let pos = mmr_positions(n as nat, picks);
        assert(selected@ =~= gathered(s, pos.0 + pos.1));
        assert(selected@ == mmr_slate(by_score(input), picks));
        assert(is_reordering(selected@, s));
        lemma_reordering_trans(input, s, selected@);
    }
    selected
}

/// The greedy slate starts at the best-scored post, holds every post once, and
/// the posts never picked follow in score order.
pub proof fn lemma_mmr_slate_shape(s: Seq<PostCandidate>, picks: Seq<usize>)
    requires
        1 <= s.len() <= usize::MAX,
        picks_valid(s.len(), picks),
    ensures
        is_reordering(mmr_slate(by_score(s), picks), s),
        mmr_slate(by_score(s), picks)[0] == by_score(s)[0],
        forall|j: int|
            0 <= j < s.len() ==> score_key(mmr_slate(by_score(s), picks)[0]) >= score_key(
                #[trigger] mmr_slate(by_score(s), picks)[j],
            ),
        forall|a: int, b: int|
            picks.len() + 1 <= a < b < s.len() ==> score_key(#[trigger] mmr_slate(by_score(s), picks)[a])
                >= score_key(#[trigger] mmr_slate(by_score(s), picks)[b]),
{
    let sorted = by_score(s);
    lemma_by_score(s);
    lemma_mmr_positions(s.len(), picks);
    let pos = mmr_positions(s.len(), picks);
    let c = pos.0 + pos.1;
    let res = mmr_slate(sorted, picks);
    assert(is_reordering(res, sorted));
    lemma_reordering_trans(s, sorted, res);
    assert(c[0] == 0);
    assert(res[0] == sorted[0]);
    assert forall|j: int| 0 <= j < s.len() implies score_key(res[0]) >= score_key(#[trigger] res[j]) by {
        assert(res[j] == sorted[c[j] as int]);
        if c[j] > 0 {
            assert(score_key(sorted[0]) >= score_key(sorted[c[j] as int]));
        }
    }
    assert forall|a: int, b: int| picks.len() + 1 <= a < b < s.len() implies score_key(#[trigger] res[a])
        >= score_key(#[trigger] res[b]) by {
        let l0 = pos.0.len() as int;
        assert(c[a] == pos.1[a - l0]);
        assert(c[b] == pos.1[b - l0]);
        assert(pos.1[a - l0] < pos.1[b - l0]);
        assert(res[a] == sorted[c[a] as int]);
        assert(res[b] == sorted[c[b] as int]);
    }
}

} // verus!
