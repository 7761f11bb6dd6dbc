use vstd::prelude::*;

verus! {

/// The smallest contribution among the first `n` that is above `prev`.
pub open spec fn next_level(cs: Seq<u32>, prev: int, n: int) -> Option<int>
    decreases n,
{
    if n <= 0 {
        None
    } else {
        let rest = next_level(cs, prev, n - 1);
        let c = cs[n - 1] as int;
        if c > prev && (rest is None || c < rest->0) {
            Some(c)
        } else {
            rest
        }
    }
}

/// How many of the first `n` players put in at least `level`.
pub open spec fn participants(cs: Seq<u32>, level: int, n: int) -> nat
    decreases n,
{
    if n <= 0 {
        0
    } else {
        participants(cs, level, n - 1) + (if cs[n - 1] >= level { 1nat } else { 0nat })
    }
}

/// Player `j` paid into the pot up to `level` and did not fold: they may win it.
pub open spec fn eligible(cs: Seq<u32>, fs: Seq<bool>, level: int, j: int) -> bool {
    cs[j] >= level && !fs[j]
}

/// The best score among the first `n` players eligible for the pot at `level`.
pub open spec fn top_score(cs: Seq<u32>, fs: Seq<bool>, ss: Seq<u64>, level: int, n: int) -> Option<
    u64,
>
    decreases n,
{
    if n <= 0 {
        None
    } else {
        let rest = top_score(cs, fs, ss, level, n - 1);
        if eligible(cs, fs, level, n - 1) && (rest is None || ss[n - 1] > rest->0) {
            Some(ss[n - 1])
        } else {
            rest
        }
    }
}

pub open spec fn is_winner(
    cs: Seq<u32>,
    fs: Seq<bool>,
    ss: Seq<u64>,
    level: int,
    top: u64,
    j: int,
) -> bool {
    eligible(cs, fs, level, j) && ss[j] == top
}

/// How many of the first `n` players share the best score `top` at `level`.
pub open spec fn winner_count(
    cs: Seq<u32>,
    fs: Seq<bool>,
    ss: Seq<u64>,
    level: int,
    top: u64,
    n: int,
) -> nat
    decreases n,
{
    if n <= 0 {
        0
    } else {
        winner_count(cs, fs, ss, level, top, n - 1) + (if is_winner(cs, fs, ss, level, top, n - 1) {
            1nat
        } else {
            0nat
        })
    }
}

/// The lowest seat among the first `n` with the best score `top` at `level`.
pub open spec fn first_winner(
    cs: Seq<u32>,
    fs: Seq<bool>,
    ss: Seq<u64>,
    level: int,
    top: u64,
    n: int,
) -> Option<int>
    decreases n,
{
    if n <= 0 {
        None
    } else {
        let rest = first_winner(cs, fs, ss, level, top, n - 1);
        if rest is Some {
            rest
        } else if is_winner(cs, fs, ss, level, top, n - 1) {
            Some(n - 1)
        } else {
            None
        }
    }
}

/// The chips of the side pot between `prev` and `level`: what each player
/// paid into that slice.
pub open spec fn level_amount(cs: Seq<u32>, level: int, prev: int) -> int {
    (level - prev) * participants(cs, level, cs.len() as int)
}

/// What player `j` wins of the side pot between `prev` and `level`: the best
/// eligible scores split it evenly, the lowest seat among them taking the
/// odd chips; nobody takes it when every contributor folded.
pub open spec fn level_share(
    cs: Seq<u32>,
    fs: Seq<bool>,
    ss: Seq<u64>,
    level: int,
    prev: int,
    j: int,
) -> int {
    let n = cs.len() as int;
    match top_score(cs, fs, ss, level, n) {
        None => 0,
        Some(top) => if is_winner(cs, fs, ss, level, top, j) {
            let k = winner_count(cs, fs, ss, level, top, n) as int;
            let amount = level_amount(cs, level, prev);
            amount / k + (if first_winner(cs, fs, ss, level, top, n) == Some(j) {
                amount % k
            } else {
                0
            })
        } else {
            0
        },
    }
}

/// What player `j` wins of the side pots above contribution level `prev`.
pub open spec fn payout_from(cs: Seq<u32>, fs: Seq<bool>, ss: Seq<u64>, prev: int, j: int) -> int
    decreases u32::MAX - prev,
{
    match next_level(cs, prev, cs.len() as int) {
        None => 0,
        Some(level) => if prev < level <= u32::MAX {
            level_share(cs, fs, ss, level, prev, j) + payout_from(cs, fs, ss, level, j)
        } else {
            0
        },
    }
}

/// The sum of a sequence of chip counts.
pub open spec fn total(s: Seq<u32>) -> int
    decreases s.len(),
{
    if s.len() == 0 {
        0
    } else {
        total(s.drop_last()) + s.last()
    }
}

/// The contributions, each capped at `cap`, summed over the first `n`.
pub open spec fn capped_total(cs: Seq<u32>, cap: int, n: int) -> int
    decreases n,
{
    if n <= 0 {
        0
    } else {
        capped_total(cs, cap, n - 1) + (if cs[n - 1] <= cap { cs[n - 1] as int } else { cap })
    }
}

/// Some player who did not fold put in as much as anyone: every side pot
/// has someone to win it.
pub open spec fn contested(cs: Seq<u32>, fs: Seq<bool>) -> bool {
    exists|w: int|
        0 <= w < cs.len() && !fs[w] && forall|j: int| 0 <= j < cs.len() ==> #[trigger] cs[j] <= cs[w]
}

proof fn lemma_total_update(s: Seq<u32>, i: int, v: u32)
    requires
        0 <= i < s.len(),
    ensures
        total(s.update(i, v)) == total(s) - s[i] + v,
    decreases s.len(),
{
    if i < s.len() - 1 {
        assert(s.update(i, v).drop_last() =~= s.drop_last().update(i, v));
        lemma_total_update(s.drop_last(), i, v);
    } else {
        assert(s.update(i, v).drop_last() =~= s.drop_last());
    }
}

proof fn lemma_total_bounds(s: Seq<u32>, i: int)
    requires
        0 <= i < s.len(),
    ensures
        0 <= s[i] <= total(s),
    decreases s.len(),
{
    lemma_total_nonneg(s);
    if i < s.len() - 1 {
        lemma_total_bounds(s.drop_last(), i);
    } else {
        lemma_total_nonneg(s.drop_last());
    }
}

proof fn lemma_total_nonneg(s: Seq<u32>)
    ensures
        total(s) >= 0,
    decreases s.len(),
{
    if s.len() > 0 {
        lemma_total_nonneg(s.drop_last());
    }
}

pub(crate) proof fn lemma_capped_total_le(cs: Seq<u32>, cap: int, n: int)
    requires
        0 <= n <= cs.len(),
        cap >= 0,
    ensures
        0 <= capped_total(cs, cap, n) <= total(cs.take(n)),
    decreases n,
{
    if n > 0 {
        lemma_capped_total_le(cs, cap, n - 1);
        assert(cs.take(n).drop_last() =~= cs.take(n - 1));
    }
}

/// Capping at a level no contribution exceeds leaves every contribution whole.
proof fn lemma_capped_total_all(cs: Seq<u32>, cap: int, n: int)
    requires
        0 <= n <= cs.len(),
        forall|j: int| 0 <= j < n ==> #[trigger] cs[j] <= cap,
    ensures
        capped_total(cs, cap, n) == total(cs.take(n)),
    decreases n,
{
    if n > 0 {
        lemma_capped_total_all(cs, cap, n - 1);
        assert(cs.take(n).drop_last() =~= cs.take(n - 1));
    }
}

/// The side pot between two levels holds at most what the contributions
/// gain from raising the cap between them, and exactly that when no
/// contribution lies strictly between the levels.
proof fn lemma_level_amount(cs: Seq<u32>, prev: int, level: int, n: int)
    requires
        0 <= prev < level,
        0 <= n <= cs.len(),
    ensures
        (level - prev) * participants(cs, level, n) <= capped_total(cs, level, n) - capped_total(
            cs,
            prev,
            n,
        ),
        (forall|j: int| 0 <= j < n ==> #[trigger] cs[j] <= prev || cs[j] >= level) ==> (level
            - prev) * participants(cs, level, n) == capped_total(cs, level, n) - capped_total(
            cs,
            prev,
            n,
        ),
    decreases n,
{
    if n > 0 {
        lemma_level_amount(cs, prev, level, n - 1);
        let p = participants(cs, level, n - 1);
        let c = cs[n - 1] as int;
        assert((level - prev) * (p + 1) == (level - prev) * p + (level - prev)) by (nonlinear_arith);
        if forall|j: int| 0 <= j < n ==> #[trigger] cs[j] <= prev || cs[j] >= level {
            assert(forall|j: int| 0 <= j < n - 1 ==> #[trigger] cs[j] <= prev || cs[j] >= level);
            assert(cs[n - 1] <= prev || cs[n - 1] >= level);
        }
    }
}

proof fn lemma_winner_count_mono(
    cs: Seq<u32>,
    fs: Seq<bool>,
    ss: Seq<u64>,
    level: int,
    top: u64,
    m: int,
    n: int,
)
    requires
        0 <= m <= n,
    ensures
        winner_count(cs, fs, ss, level, top, m) <= winner_count(cs, fs, ss, level, top, n),
    decreases n - m,
{
    if n > m {
        lemma_winner_count_mono(cs, fs, ss, level, top, m, n - 1);
    }
}

proof fn lemma_next_level_props(cs: Seq<u32>, prev: int, n: int)
    requires
        0 <= n <= cs.len(),
    ensures
        next_level(cs, prev, n) matches Some(l) ==> prev < l <= u32::MAX && exists|j: int|
            0 <= j < n && cs[j] == l,
        next_level(cs, prev, n) matches Some(l) ==> forall|j: int|
            0 <= j < n ==> #[trigger] cs[j] <= prev || cs[j] >= l,
        next_level(cs, prev, n) is None ==> forall|j: int| 0 <= j < n ==> #[trigger] cs[j] <= prev,
    decreases n,
{
    if n > 0 {
        lemma_next_level_props(cs, prev, n - 1);
        if let Some(l) = next_level(cs, prev, n) {
            if let Some(l0) = next_level(cs, prev, n - 1) {
                if l == l0 {
                    let j = choose|j: int| 0 <= j < n - 1 && cs[j] == l0;
                    assert(0 <= j < n && cs[j] == l);
                } else {
                    assert(cs[n - 1] == l);
                }
            } else {
                assert(cs[n - 1] == l);
            }
        }
    }
}

proof fn lemma_top_score_props(cs: Seq<u32>, fs: Seq<bool>, ss: Seq<u64>, level: int, n: int)
    requires
        0 <= n <= cs.len(),
        fs.len() == cs.len(),
        ss.len() == cs.len(),
    ensures
        top_score(cs, fs, ss, level, n) is None <==> forall|j: int|
            0 <= j < n ==> !#[trigger] eligible(cs, fs, level, j),
        top_score(cs, fs, ss, level, n) matches Some(t) ==> forall|j: int|
            0 <= j < n && #[trigger] eligible(cs, fs, level, j) ==> ss[j] <= t,
        top_score(cs, fs, ss, level, n) matches Some(t) ==> exists|j: int|
            0 <= j < n && #[trigger] eligible(cs, fs, level, j) && ss[j] == t,
    decreases n,
{
    if n > 0 {
        lemma_top_score_props(cs, fs, ss, level, n - 1);
        if let Some(t) = top_score(cs, fs, ss, level, n) {
            if eligible(cs, fs, level, n - 1) && ss[n - 1] == t {
            } else {
                let j = choose|j: int|
                    0 <= j < n - 1 && #[trigger] eligible(cs, fs, level, j) && ss[j] == t;
                assert(0 <= j < n && eligible(cs, fs, level, j) && ss[j] == t);
            }
        }
    }
}

/// Once a prefix holds a winner, the first winner of any longer prefix is
/// that same seat.
proof fn lemma_first_winner_stable(
    cs: Seq<u32>,
    fs: Seq<bool>,
    ss: Seq<u64>,
    level: int,
    top: u64,
    m: int,
    n: int,
)
    requires
        0 <= m <= n,
        first_winner(cs, fs, ss, level, top, m) is Some,
    ensures
        first_winner(cs, fs, ss, level, top, n) == first_winner(cs, fs, ss, level, top, m),
    decreases n - m,
{
    if n > m {
        lemma_first_winner_stable(cs, fs, ss, level, top, m, n - 1);
    }
}

proof fn lemma_first_winner_is_winner(
    cs: Seq<u32>,
    fs: Seq<bool>,
    ss: Seq<u64>,
    level: int,
    top: u64,
    n: int,
)
    ensures
        first_winner(cs, fs, ss, level, top, n) matches Some(f) ==> 0 <= f < n && is_winner(
            cs,
            fs,
            ss,
            level,
            top,
            f,
        ),
        first_winner(cs, fs, ss, level, top, n) is None <==> winner_count(cs, fs, ss, level, top, n)
            == 0,
    decreases n,
{
    if n > 0 {
        lemma_first_winner_is_winner(cs, fs, ss, level, top, n - 1);
    }
}

/// The side pots: what each player wins at showdown, given what each put in
/// (`contributions`), who folded, and each player's score. Pots are formed at
/// each distinct contribution level; folded players fund them but cannot win.
pub fn side_pot_payouts(
    contributions: &Vec<u32>,
    folded: &Vec<bool>,
    scores: &Vec<u64>,
) -> (payouts: Vec<u32>)
    requires
        contributions@.len() == folded@.len() == scores@.len(),
        contributions@.len() <= u32::MAX,
        total(contributions@) <= u32::MAX,
    ensures
        payouts@.len() == contributions@.len(),
        forall|j: int|
            0 <= j < payouts@.len() ==> #[trigger] payouts@[j] == payout_from(
                contributions@,
                folded@,
                scores@,
                0,
                j,
            ),
        total(payouts@) <= total(contributions@),
        contested(contributions@, folded@) ==> total(payouts@) == total(contributions@),
{
    let ghost cs = contributions@;
    let ghost fs = folded@;
    let ghost ss = scores@;
    let n = contributions.len();
    let mut payouts: Vec<u32> = Vec::new();
    let mut q: usize = 0;
    while q < n
        invariant
            q <= n,
            payouts@.len() == q,
            forall|j: int| 0 <= j < q ==> #[trigger] payouts@[j] == 0,
            total(payouts@) == 0,
        decreases n - q,
    {
        let ghost prev = payouts@;
        payouts.push(0);
        assert(payouts@.drop_last() == prev);
        q = q + 1;
    }
    assert(cs.take(n as int) =~= cs);
    proof {
        lemma_capped_total_le(cs, 0, n as int);
        lemma_capped_total_nonneg_zero(cs, n as int);
    }
    let mut previous: u32 = 0;
    loop
        invariant
            n == cs.len() == fs.len() == ss.len() == payouts@.len(),
            n <= u32::MAX,
            cs == contributions@,
            fs == folded@,
            ss == scores@,
            total(cs) <= u32::MAX,
            cs.take(n as int) == cs,
            forall|j: int|
                0 <= j < n ==> #[trigger] payouts@[j] + payout_from(cs, fs, ss, previous as int, j)
                    == payout_from(cs, fs, ss, 0, j),
            total(payouts@) <= capped_total(cs, previous as int, n as int),
            contested(cs, fs) ==> total(payouts@) == capped_total(cs, previous as int, n as int),
        ensures
            payouts@.len() == n,
            forall|j: int|
                0 <= j < n ==> #[trigger] payouts@[j] == payout_from(cs, fs, ss, 0, j),
            total(payouts@) <= total(cs),
            contested(cs, fs) ==> total(payouts@) == total(cs),
        decreases u32::MAX - previous,
    {
        let next = find_next_level(contributions, previous);
        proof {
            lemma_next_level_props(cs, previous as int, n as int);
        }
        match next {
            None => {
                proof {
                    lemma_capped_total_all(cs, previous as int, n as int);
                    assert forall|j: int| 0 <= j < n implies #[trigger] payouts@[j] == payout_from(cs, fs, ss, 0, j) by {
                        assert(payout_from(cs, fs, ss, previous as int, j) == 0);
                    }
                }
                break;
            },
            Some(level) => {
                proof {
                    lemma_level_amount(cs, previous as int, level as int, n as int);
                    lemma_capped_total_le(cs, level as int, n as int);
                }
                let count = count_participants(contributions, level);
                proof {
                    lemma_capped_total_le(cs, previous as int, n as int);
                    assert((level - previous) * count <= u32::MAX);
                }
                let amount: u32 = (level - previous) * (count as u32);
                assert(amount == level_amount(cs, level as int, previous as int));
                let top = best_eligible(contributions, folded, scores, level);
                proof {
                    lemma_top_score_props(cs, fs, ss, level as int, n as int);
                }
                let ghost before = payouts@;
                match top {
                    None => {
                        assert forall|j: int| 0 <= j < n implies #[trigger] payouts@[j] + payout_from(cs, fs, ss, level as int, j)
                            == payout_from(cs, fs, ss, 0, j) by {
                            assert(payout_from(cs, fs, ss, previous as int, j) == level_share(cs, fs, ss, level as int, previous as int, j) + payout_from(cs, fs, ss, level as int, j));
                        }
                        proof {
                            if contested(cs, fs) {
                                let w = choose|w: int|
                                    0 <= w < cs.len() && !fs[w] && forall|j: int| 0 <= j < cs.len() ==> #[trigger] cs[j] <= cs[w];
                                let j = choose|j: int| 0 <= j < n && cs[j] == level;
                                assert(cs[j] <= cs[w]);
                                assert(eligible(cs, fs, level as int, w));
                            }
                        }
                    },
                    Some(best) => {
                        let winners = count_winners(contributions, folded, scores, level, best);
                        proof {
                            lemma_first_winner_is_winner(cs, fs, ss, level as int, best, n as int);
                            assert(top_score(cs, fs, ss, level as int, n as int) == Some(best));
                            let w = choose|j: int|
                                0 <= j < n && #[trigger] eligible(cs, fs, level as int, j) && ss[j] == best;
                            lemma_winner_count_positive(cs, fs, ss, level as int, best, n as int, w);
                        }
                        let share = amount / (winners as u32);
                        let remainder = amount % (winners as u32);
                        proof {
                            vstd::arithmetic::div_mod::lemma_fundamental_div_mod(amount as int, winners as int);
                        }
                        let mut seen_first = false;
                        let mut j: usize = 0;
                        let ghost mut added: int = 0;
                        while j < n
                            invariant
                                j <= n,
                                n == cs.len() == fs.len() == ss.len() == payouts@.len() == before.len(),
                                n <= u32::MAX,
                                cs == contributions@,
                                fs == folded@,
                                ss == scores@,
                                winners == winner_count(cs, fs, ss, level as int, best, n as int) > 0,
                                winners <= n,
                                share == amount / (winners as u32),
                                remainder == amount % (winners as u32),
                                amount == winners * share + remainder,
                                amount == level_amount(cs, level as int, previous as int),
                                seen_first == (first_winner(cs, fs, ss, level as int, best, j as int) is Some),
                                first_winner(cs, fs, ss, level as int, best, n as int) is Some,
                                added == winner_count(cs, fs, ss, level as int, best, j as int) * share + (if seen_first { remainder as int } else { 0 }),
                                total(payouts@) == total(before) + added,
                                total(before) + amount <= total(cs),
                                total(cs) <= u32::MAX,
                                forall|i: int| 0 <= i < j ==> #[trigger] payouts@[i] == before[i] + level_share(cs, fs, ss, level as int, previous as int, i),
                                forall|i: int| j <= i < n ==> #[trigger] payouts@[i] == before[i],
                                top_score(cs, fs, ss, level as int, n as int) == Some(best),
                            decreases n - j,
                        {
                            proof {
                                lemma_winner_count_mono(cs, fs, ss, level as int, best, j + 1, n as int);
                                assert(winner_count(cs, fs, ss, level as int, best, j + 1) * share <= winners * share) by (nonlinear_arith)
                                    requires
                                        winner_count(cs, fs, ss, level as int, best, j + 1) <= winners,
                                ;
                                assert((winner_count(cs, fs, ss, level as int, best, j as int) + 1) * share == winner_count(cs, fs, ss, level as int, best, j as int) * share + share) by (nonlinear_arith);
                                if first_winner(cs, fs, ss, level as int, best, j + 1) is Some {
                                    lemma_first_winner_stable(cs, fs, ss, level as int, best, j + 1, n as int);
                                }
                                if first_winner(cs, fs, ss, level as int, best, j as int) is Some {
                                    lemma_first_winner_stable(cs, fs, ss, level as int, best, j as int, n as int);
                                    lemma_first_winner_is_winner(cs, fs, ss, level as int, best, j as int);
                                }
                                lemma_total_bounds(payouts@, j as int);
                            }
                            if contributions[j] >= level && !folded[j] && scores[j] == best {
                                let ghost was_seen = seen_first;
                                let extra: u32 = if seen_first { 0 } else { remainder };
                                let old_payout = payouts[j];
                                proof {
                                    lemma_total_update(payouts@, j as int, (old_payout + share + extra) as u32);
                                }
                                payouts.set(j, old_payout + share + extra);
                                proof {
                                    added = added + share + extra;
                                }
                                seen_first = true;
                                assert(is_winner(cs, fs, ss, level as int, best, j as int));
                                assert(first_winner(cs, fs, ss, level as int, best, n as int) == Some(j as int) <==> !was_seen);
                                assert(level_amount(cs, level as int, previous as int) / (winner_count(cs, fs, ss, level as int, best, n as int) as int) == share as int);
                                assert(level_share(cs, fs, ss, level as int, previous as int, j as int) == share + extra);
                                assert(payouts@[j as int] == before[j as int] + level_share(cs, fs, ss, level as int, previous as int, j as int));
                            } else {
                                assert(!is_winner(cs, fs, ss, level as int, best, j as int));
                                assert(level_share(cs, fs, ss, level as int, previous as int, j as int) == 0);
                            }
                            j = j + 1;
                        }
                        assert(first_winner(cs, fs, ss, level as int, best, n as int) is Some);
                        assert(added == amount);
                        assert forall|i: int| 0 <= i < n implies #[trigger] payouts@[i] + payout_from(cs, fs, ss, level as int, i)
                            == payout_from(cs, fs, ss, 0, i) by {
                            assert(payout_from(cs, fs, ss, previous as int, i) == level_share(cs, fs, ss, level as int, previous as int, i) + payout_from(cs, fs, ss, level as int, i));
                        }
                    },
                }
                previous = level;
            },
        }
    }
    payouts
}

proof fn lemma_capped_total_nonneg_zero(cs: Seq<u32>, n: int)
    requires
        0 <= n <= cs.len(),
    ensures
        capped_total(cs, 0, n) == 0,
    decreases n,
{
    if n > 0 {
        lemma_capped_total_nonneg_zero(cs, n - 1);
    }
}

proof fn lemma_winner_count_positive(
    cs: Seq<u32>,
    fs: Seq<bool>,
    ss: Seq<u64>,
    level: int,
    top: u64,
    n: int,
    w: int,
)
    requires
        0 <= w < n,
        is_winner(cs, fs, ss, level, top, w),
    ensures
        winner_count(cs, fs, ss, level, top, n) > 0,
    decreases n,
{
    if w < n - 1 {
        lemma_winner_count_positive(cs, fs, ss, level, top, n - 1, w);
    }
}

/// The smallest contribution above `previous`, if any.
fn find_next_level(contributions: &Vec<u32>, previous: u32) -> (level: Option<u32>)
    ensures
        level matches Some(l) ==> next_level(contributions@, previous as int, contributions@.len() as int) == Some(l as int),
        level is None ==> next_level(contributions@, previous as int, contributions@.len() as int) is None,
{
    let mut best: Option<u32> = None;
    let mut j: usize = 0;
    while j < contributions.len()
        invariant
            j <= contributions@.len(),
            best matches Some(l) ==> next_level(contributions@, previous as int, j as int) == Some(l as int),
            best is None ==> next_level(contributions@, previous as int, j as int) is None,
        decreases contributions@.len() - j,
    {
        let c = contributions[j];
        if c > previous {
            match best {
                None => {
                    best = Some(c);
                },
                Some(b) => {
                    if c < b {
                        best = Some(c);
                    }
                },
            }
        }
        j = j + 1;
    }
    best
}

fn count_participants(contributions: &Vec<u32>, level: u32) -> (count: usize)
    ensures
        count == participants(contributions@, level as int, contributions@.len() as int),
        count <= contributions@.len(),
{
    let mut count: usize = 0;
    let mut j: usize = 0;
    while j < contributions.len()
        invariant
            j <= contributions@.len(),
            count == participants(contributions@, level as int, j as int),
            count <= j,
        decreases contributions@.len() - j,
    {
        if contributions[j] >= level {
            count = count + 1;
        }
        j = j + 1;
    }
    count
}

fn best_eligible(contributions: &Vec<u32>, folded: &Vec<bool>, scores: &Vec<u64>, level: u32) -> (top: Option<u64>)
    requires
        contributions@.len() == folded@.len() == scores@.len(),
    ensures
        top == top_score(contributions@, folded@, scores@, level as int, contributions@.len() as int),
{
    let mut top: Option<u64> = None;
    let mut j: usize = 0;
    while j < contributions.len()
        invariant
            j <= contributions@.len() == folded@.len() == scores@.len(),
            top == top_score(contributions@, folded@, scores@, level as int, j as int),
        decreases contributions@.len() - j,
    {
        if contributions[j] >= level && !folded[j] {
            match top {
                None => {
                    top = Some(scores[j]);
                },
                Some(t) => {
                    if scores[j] > t {
                        top = Some(scores[j]);
                    }
                },
            }
        }
        j = j + 1;
    }
    top
}

fn count_winners(contributions: &Vec<u32>, folded: &Vec<bool>, scores: &Vec<u64>, level: u32, best: u64) -> (count: usize)
    requires
        contributions@.len() == folded@.len() == scores@.len(),
    ensures
        count == winner_count(contributions@, folded@, scores@, level as int, best, contributions@.len() as int),
        count <= contributions@.len(),
{
    let mut count: usize = 0;
    let mut j: usize = 0;
    while j < contributions.len()
        invariant
            j <= contributions@.len() == folded@.len() == scores@.len(),
            count == winner_count(contributions@, folded@, scores@, level as int, best, j as int),
            count <= j,
        decreases contributions@.len() - j,
    {
        if contributions[j] >= level && !folded[j] && scores[j] == best {
            count = count + 1;
        }
        j = j + 1;
    }
    count
}

proof fn lemma_capped_total_mono(cs: Seq<u32>, low: int, high: int, n: int)
    requires
        0 <= low <= high,
        0 <= n <= cs.len(),
    ensures
        capped_total(cs, low, n) <= capped_total(cs, high, n),
    decreases n,
{
    if n > 0 {
        lemma_capped_total_mono(cs, low, high, n - 1);
    }
}

/// What seat `j` wins of the side pots above `prev`: nothing once `prev`
/// reaches its own contribution, and otherwise at most what every seat put
/// in between `prev` and that contribution.
proof fn lemma_payout_bounded(cs: Seq<u32>, fs: Seq<bool>, ss: Seq<u64>, prev: int, j: int)
    requires
        0 <= j < cs.len(),
        fs.len() == cs.len(),
        ss.len() == cs.len(),
        0 <= prev,
    ensures
        0 <= payout_from(cs, fs, ss, prev, j),
        payout_from(cs, fs, ss, prev, j) <= if prev < cs[j] {
            capped_total(cs, cs[j] as int, cs.len() as int) - capped_total(cs, prev, cs.len() as int)
        } else {
            0
        },
        fs[j] ==> payout_from(cs, fs, ss, prev, j) == 0,
    decreases u32::MAX - prev,
{
    let n = cs.len() as int;
    lemma_next_level_props(cs, prev, n);
    match next_level(cs, prev, n) {
        None => {
            if prev < cs[j] {
                assert(cs[j] <= prev);
            }
        },
        Some(level) => {
            lemma_payout_bounded(cs, fs, ss, level, j);
            lemma_level_amount(cs, prev, level, n);
            let amount = level_amount(cs, level, prev);
            assert(amount >= 0) by (nonlinear_arith)
                requires
                    amount == (level - prev) * participants(cs, level, n),
                    level > prev,
            ;
            let share = level_share(cs, fs, ss, level, prev, j);
            if let Some(top) = top_score(cs, fs, ss, level, n) {
                if is_winner(cs, fs, ss, level, top, j) {
                    lemma_winner_count_positive(cs, fs, ss, level, top, n, j);
                    let k = winner_count(cs, fs, ss, level, top, n) as int;
                    assert(amount / k + amount % k <= amount) by (nonlinear_arith)
                        requires
                            k >= 1,
                            amount >= 0,
                    ;
                    assert(0 <= amount / k) by (nonlinear_arith)
                        requires
                            k >= 1,
                            amount >= 0,
                    ;
                    assert(0 <= amount % k) by (nonlinear_arith)
                        requires
                            k >= 1,
                    ;
                    assert(0 <= share <= amount);
                }
            }
            if level <= cs[j] {
                if level < cs[j] {
                    lemma_capped_total_mono(cs, level, cs[j] as int, n);
                }
            } else {
                assert(cs[j] <= prev);
                assert(share == 0);
            }
        },
    }
}

/// Side pots: a seat that folded wins nothing, and a seat wins at most what
/// the seats put in up to its own contribution: an all-in player can only
/// win what each opponent matched of its stake.
pub proof fn lemma_side_pot_limits(cs: Seq<u32>, fs: Seq<bool>, ss: Seq<u64>, j: int)
    requires
        0 <= j < cs.len(),
        fs.len() == cs.len(),
        ss.len() == cs.len(),
    ensures
        0 <= payout_from(cs, fs, ss, 0, j) <= capped_total(cs, cs[j] as int, cs.len() as int),
        fs[j] ==> payout_from(cs, fs, ss, 0, j) == 0,
{
    lemma_payout_bounded(cs, fs, ss, 0, j);
    lemma_capped_total_nonneg_zero(cs, cs.len() as int);
}

} // verus!
