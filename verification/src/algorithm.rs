//! The computer's strategy for the ball-taking game.
//!
//! Two players take turns removing balls from a common pile; each move takes
//! one of the allowed amounts, and the player who takes the last ball wins.
//! For every pile size the strategy table says how many balls to take so that
//! the opponent is left in a losing position, or 0 when no such move exists.
use vstd::prelude::*;

verus! {

/// How many balls to take from a pile of `n` balls, scanning the allowed
/// amounts from the last one back to the first and picking the first amount
/// `j` that fits in the pile and leaves the opponent a pile from which there
/// is no winning move (`winning_take(.., n - j) == 0`). An amount of 0 always
/// qualifies and yields 0. With no qualifying amount the result is 0.
pub open spec fn winning_take(allowed: Seq<u32>, n: nat) -> u32
    decreases n, allowed.len() + 1,
{
    if n == 0 {
        0
    } else {
        take_among(allowed, n, allowed.len())
    }
}

/// The scan of `winning_take` restricted to the first `k` allowed amounts,
/// taken from index `k - 1` down to index 0.
pub open spec fn take_among(allowed: Seq<u32>, n: nat, k: nat) -> u32
    decreases n, k,
{
    if k == 0 {
        0
    } else {
        let j: u32 = allowed[k - 1];
        if j <= n && (j == 0 || winning_take(allowed, (n - j) as nat) == 0) {
            j
        } else {
            take_among(allowed, n, (k - 1) as nat)
        }
    }
}

/// The strategy table for piles of `1..=ball_count` balls: entry `i` is
/// `winning_take(allowed, i + 1)`.
pub open spec fn strategy_table(ball_count: nat, allowed: Seq<u32>) -> Seq<u32> {
    Seq::new(ball_count, |i: int| winning_take(allowed, (i + 1) as nat))
}

/// Amounts sorted from smallest to largest.
pub open spec fn ascending(allowed: Seq<u32>) -> bool {
    forall|p: int, q: int| 0 <= p <= q < allowed.len() ==> allowed[p] <= allowed[q]
}

/// What the scan over the first `k` amounts yields.
proof fn lemma_take_among(allowed: Seq<u32>, n: nat, k: nat)
    requires
        k <= allowed.len(),
    ensures
        take_among(allowed, n, k) <= n,
        take_among(allowed, n, k) != 0 ==> exists|m: int|
            0 <= m < k && #[trigger] allowed[m] == take_among(allowed, n, k) && winning_take(
                allowed,
                (n - allowed[m]) as nat,
            ) == 0,
        (forall|q: int| 0 <= q < k ==> #[trigger] allowed[q] != 0) && take_among(allowed, n, k)
            == 0 ==> forall|q: int|
            0 <= q < k && #[trigger] allowed[q] <= n ==> winning_take(
                allowed,
                (n - allowed[q]) as nat,
            ) != 0,
        ascending(allowed) ==> forall|q: int|
            0 <= q < k && #[trigger] allowed[q] <= n && take_among(allowed, n, k) < allowed[q]
                ==> winning_take(allowed, (n - allowed[q]) as nat) != 0,
    decreases k,
{
    if k > 0 {
        lemma_take_among(allowed, n, (k - 1) as nat);
        let j: u32 = allowed[k - 1];
        if j <= n && (j == 0 || winning_take(allowed, (n - j) as nat) == 0) {
            assert(take_among(allowed, n, k) == j);
            if j != 0 {
                assert(allowed[k - 1] == take_among(allowed, n, k));
            }
            if ascending(allowed) {
                assert forall|q: int| 0 <= q < k implies #[trigger] allowed[q] <= j by {
                    assert(allowed[q] <= allowed[k - 1]);
                }
            }
        }
    }
}

/// A nonzero take never exceeds the pile, is one of the allowed amounts, and
/// leaves the opponent a pile from which there is no winning move.
pub proof fn lemma_winning_take_leaves_losing_pile(allowed: Seq<u32>, n: nat)
    ensures
        winning_take(allowed, n) <= n,
        winning_take(allowed, n) != 0 ==> allowed.contains(winning_take(allowed, n))
            && winning_take(allowed, (n - winning_take(allowed, n)) as nat) == 0,
{
    if n > 0 {
        lemma_take_among(allowed, n, allowed.len());
    }
}

/// When 0 is not an allowed amount, a pile with no winning move is a losing
/// pile: every allowed amount that fits leaves the opponent a pile from which
/// a winning move exists.
pub proof fn lemma_losing_pile_has_no_winning_move(allowed: Seq<u32>, n: nat, j: u32)
    requires
        !allowed.contains(0),
        allowed.contains(j),
        j <= n,
        winning_take(allowed, n) == 0,
    ensures
        winning_take(allowed, (n - j) as nat) != 0,
{
    let q: int = choose|q: int| 0 <= q < allowed.len() && allowed[q] == j;
    assert forall|p: int| 0 <= p < allowed.len() implies #[trigger] allowed[p] != 0 by {
        if allowed[p] == 0 {
            assert(allowed.contains(0));
        }
    }
    if n > 0 {
        lemma_take_among(allowed, n, allowed.len());
        assert(allowed[q] <= n);
    }
}

/// With the amounts sorted from smallest to largest, the take is at least as
/// large as any allowed amount that fits and leaves a losing pile: it is the
/// largest winning move.
pub proof fn lemma_ascending_takes_largest(allowed: Seq<u32>, n: nat, j: u32)
    requires
        ascending(allowed),
        allowed.contains(j),
        j <= n,
        winning_take(allowed, (n - j) as nat) == 0,
    ensures
        j <= winning_take(allowed, n),
{
    let q: int = choose|q: int| 0 <= q < allowed.len() && allowed[q] == j;
    if n > 0 {
        lemma_take_among(allowed, n, allowed.len());
        assert(allowed[q] <= n);
    }
}

/// The allowed amounts that fit in a pile of `n` balls, in their order.
pub open spec fn amounts_within(allowed: Seq<u32>, n: nat) -> Seq<u32> {
    allowed.filter(|j: u32| j <= n)
}

/// The scan over the first `k` amounts agrees with the scan over those of
/// them that fit in a pile of `n`, for a pile `m <= n` whose smaller piles
/// already agree.
proof fn lemma_scan_within(allowed: Seq<u32>, n: nat, m: nat, k: nat)
    requires
        0 < m <= n,
        k <= allowed.len(),
        forall|x: nat| x < m ==> #[trigger] winning_take(allowed, x) == winning_take(
            amounts_within(allowed, n),
            x,
        ),
    ensures
        take_among(allowed, m, k) == take_among(
            amounts_within(allowed, n),
            m,
            allowed.take(k as int).filter(|j: u32| j <= n).len(),
        ),
    decreases k,
{
    let p = |j: u32| j <= n;
    let f = amounts_within(allowed, n);
    if k == 0 {
        assert(allowed.take(0) =~= Seq::<u32>::empty());
        reveal(Seq::filter);
    } else {
        lemma_scan_within(allowed, n, m, (k - 1) as nat);
        let j = allowed[k - 1];
        let before = allowed.take(k - 1);
        assert(allowed.take(k as int) =~= before.push(j));
        before.lemma_filter_push(j, p);
        assert(allowed =~= allowed.take(k as int) + allowed.skip(k as int));
        Seq::filter_distributes_over_add(allowed.take(k as int), allowed.skip(k as int), p);
        let len = before.filter(p).len();
        if j <= n {
            assert(f[len as int] == allowed.take(k as int).filter(p)[len as int]);
            assert(f[len as int] == j);
            if j > 0 && j <= m {
                assert(winning_take(allowed, (m - j) as nat) == winning_take(f, (m - j) as nat));
            }
        }
    }
}

/// Amounts larger than the pile never matter: for every pile of at most `n`
/// balls the take is the same when only the amounts that fit in `n` are
/// allowed.
pub proof fn lemma_large_amounts_ignored(allowed: Seq<u32>, n: nat, m: nat)
    requires
        m <= n,
    ensures
        winning_take(allowed, m) == winning_take(amounts_within(allowed, n), m),
    decreases m,
{
    if m > 0 {
        assert forall|x: nat| x < m implies #[trigger] winning_take(allowed, x) == winning_take(
            amounts_within(allowed, n),
            x,
        ) by {
            lemma_large_amounts_ignored(allowed, n, x);
        }
        lemma_scan_within(allowed, n, m, allowed.len());
        assert(allowed.take(allowed.len() as int) =~= allowed);
    }
}

/// The strategy table for `ball_count` balls is the same when only the
/// amounts that fit in `ball_count` are allowed.
pub proof fn lemma_table_ignores_large_amounts(ball_count: nat, allowed: Seq<u32>)
    ensures
        strategy_table(ball_count, allowed) == strategy_table(
            ball_count,
            amounts_within(allowed, ball_count),
        ),
{
    assert forall|i: int| 0 <= i < ball_count implies #[trigger] strategy_table(
        ball_count,
        allowed,
    )[i] == strategy_table(ball_count, amounts_within(allowed, ball_count))[i] by {
        lemma_large_amounts_ignored(allowed, ball_count, (i + 1) as nat);
    }
    assert(strategy_table(ball_count, allowed) =~= strategy_table(
        ball_count,
        amounts_within(allowed, ball_count),
    ));
}

/// The computer keeps the win: from a pile where it has a winning move, it
/// takes its move; whatever allowed amount the opponent then takes (0 not
/// being allowed), the computer again has a winning move.
pub proof fn lemma_winning_side_stays_winning(allowed: Seq<u32>, pile: nat, reply: u32)
    requires
        !allowed.contains(0),
        winning_take(allowed, pile) != 0,
        allowed.contains(reply),
        reply + winning_take(allowed, pile) <= pile,
    ensures
        winning_take(allowed, (pile - winning_take(allowed, pile) - reply) as nat) != 0,
{
    lemma_winning_take_leaves_losing_pile(allowed, pile);
    lemma_losing_pile_has_no_winning_move(
        allowed,
        (pile - winning_take(allowed, pile)) as nat,
        reply,
    );
}

/// The amount at index `q` fits in a pile of `n` balls and leaves the
/// opponent a pile with no winning move (an amount of 0 always qualifies
/// when it is listed).
pub open spec fn qualifies(allowed: Seq<u32>, n: nat, q: int) -> bool {
    allowed[q] <= n && (allowed[q] == 0 || winning_take(allowed, (n - allowed[q]) as nat) == 0)
}

proof fn lemma_scan_is_last_qualifying(allowed: Seq<u32>, n: nat, k: nat)
    requires
        k <= allowed.len(),
    ensures
        (exists|q: int| 0 <= q < k && #[trigger] qualifies(allowed, n, q)) ==> exists|m: int|
            0 <= m < k && #[trigger] qualifies(allowed, n, m) && allowed[m] == take_among(
                allowed,
                n,
                k,
            ) && forall|q: int| m < q < k ==> !#[trigger] qualifies(allowed, n, q),
        (forall|q: int| 0 <= q < k ==> !#[trigger] qualifies(allowed, n, q)) ==> take_among(
            allowed,
            n,
            k,
        ) == 0,
    decreases k,
{
    if k > 0 {
        lemma_scan_is_last_qualifying(allowed, n, (k - 1) as nat);
        let last = (k - 1) as int;
        if qualifies(allowed, n, last) {
            assert(allowed[last] == take_among(allowed, n, k));
        } else {
            assert(take_among(allowed, n, k) == take_among(allowed, n, (k - 1) as nat));
            if exists|q: int| 0 <= q < k && #[trigger] qualifies(allowed, n, q) {
                let q = choose|q: int| 0 <= q < k && #[trigger] qualifies(allowed, n, q);
                assert(q < k - 1);
                let m = choose|m: int|
                    0 <= m < k - 1 && #[trigger] qualifies(allowed, n, m) && allowed[m]
                        == take_among(allowed, n, (k - 1) as nat) && forall|q2: int|
                        m < q2 < k - 1 ==> !#[trigger] qualifies(allowed, n, q2);
                assert forall|q2: int| m < q2 < k implies !#[trigger] qualifies(allowed, n, q2) by {
                    if q2 == k - 1 {
                    }
                }
            }
        }
    }
}

/// For a nonempty pile, the take is the amount of largest index among those
/// that qualify (fit and leave a losing pile, or are 0), and 0 when none
/// qualifies.
pub proof fn lemma_take_is_last_qualifying(allowed: Seq<u32>, n: nat)
    requires
        n > 0,
    ensures
        (exists|q: int| 0 <= q < allowed.len() && #[trigger] qualifies(allowed, n, q))
            ==> exists|m: int|
            0 <= m < allowed.len() && #[trigger] qualifies(allowed, n, m) && allowed[m]
                == winning_take(allowed, n) && forall|q: int|
                m < q < allowed.len() ==> !#[trigger] qualifies(allowed, n, q),
        (forall|q: int| 0 <= q < allowed.len() ==> !#[trigger] qualifies(allowed, n, q))
            ==> winning_take(allowed, n) == 0,
{
    lemma_scan_is_last_qualifying(allowed, n, allowed.len());
}

/// Builds the strategy table for piles of `1..=ball_count` balls: entry `i`
/// is how many balls to take from a pile of `i + 1` balls, as `winning_take`
/// states.
pub fn calculate_strategy(ball_count: u32, allowed_range: &Vec<u32>) -> (strategy: Vec<u32>)
    ensures
        strategy@ == strategy_table(ball_count as nat, allowed_range@),
{
    // Entry `p - 1` holds the take for a pile of `p` balls; an empty pile
    // has no move, so it needs no entry.
    let n: usize = ball_count as usize;
    let mut table: Vec<u32> = vec![0u32; n];
    let len: usize = allowed_range.len();
    let mut i: u64 = 1;
    while i <= ball_count as u64
        invariant
            1 <= i <= ball_count as int + 1,
            table@.len() == n,
            n == ball_count,
            len == allowed_range@.len(),
            forall|m: int| 1 <= m < i ==> #[trigger] table@[m - 1] == winning_take(allowed_range@, m as nat),
            forall|m: int| i <= m <= n ==> #[trigger] table@[m - 1] == 0,
        decreases ball_count as int + 1 - i,
    {
        let ghost a = allowed_range@;
        let mut k: usize = len;
        while k > 0
            invariant_except_break
                table@[i - 1] == 0,
                winning_take(a, i as nat) == take_among(a, i as nat, k as nat),
            invariant
                k <= len,
                len == a.len(),
                a == allowed_range@,
                1 <= i <= ball_count,
                table@.len() == n,
                n == ball_count,
                forall|m: int| 1 <= m < i ==> #[trigger] table@[m - 1] == winning_take(a, m as nat),
                forall|m: int| i < m <= n ==> #[trigger] table@[m - 1] == 0,
            ensures
                table@[i - 1] == winning_take(a, i as nat),
            decreases k,
        {
            let j: u32 = allowed_range[k - 1];
            if i >= j as u64 {
                let rest: u64 = i - j as u64;
                if rest == 0 || table[(rest - 1) as usize] == 0 {
                    // The entry read is the take for the smaller pile; for an
                    // amount of 0 it is the current entry, still 0.
                    assert(rest == 0 ==> winning_take(a, rest as nat) == 0);
                    assert(rest > 0 ==> table@[rest - 1] == winning_take(a, rest as nat) || rest == i);
                    assert(take_among(a, i as nat, k as nat) == j);
                    table.set((i - 1) as usize, j);
                    break;
                }
            }
            k = k - 1;
        }
        i = i + 1;
    }
    assert forall|p: int| 0 <= p < n implies #[trigger] table@[p] == winning_take(
        allowed_range@,
        (p + 1) as nat,
    ) by {
        let m: int = p + 1;
        assert(table@[m - 1] == winning_take(allowed_range@, m as nat));
    }
    assert(table@ =~= strategy_table(ball_count as nat, allowed_range@));
    table
}

/// A table for fewer balls is the start of the table for more balls: the
/// move for a pile never depends on how many balls the game started with.
pub proof fn lemma_table_prefix(n: nat, m: nat, allowed: Seq<u32>)
    requires
        n <= m,
    ensures
        strategy_table(n, allowed) == strategy_table(m, allowed).take(n as int),
{
    assert(strategy_table(n, allowed) =~= strategy_table(m, allowed).take(n as int));
}

} // verus!
