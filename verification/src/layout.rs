//! Arranging the balls of a game in a triangle: row `i` (counted from 0) has
//! room for `i + 1` balls, and the balls fill the rows from the last (the
//! widest) back to the first.
use vstd::prelude::*;
use crate::game::MAX_BALLS;

verus! {

/// `1 + 2 + .. + m`, the number of balls in a full triangle of `m` rows.
pub open spec fn triangle(m: nat) -> nat
    decreases m,
{
    if m == 0 {
        0
    } else {
        m + triangle((m - 1) as nat)
    }
}

/// A triangle with more rows holds at least as many balls.
pub proof fn lemma_triangle_monotonic(a: nat, b: nat)
    requires
        a <= b,
    ensures
        triangle(a) <= triangle(b),
    decreases b,
{
    if a < b {
        lemma_triangle_monotonic(a, (b - 1) as nat);
    }
}

/// The closed form of `triangle`: `m * (m + 1) / 2`.
pub proof fn lemma_triangle_formula(m: nat)
    ensures
        2 * triangle(m) == m * (m + 1),
    decreases m,
{
    if m > 0 {
        let k = (m - 1) as nat;
        lemma_triangle_formula(k);
        assert(triangle(m) == m + triangle(k));
        assert(2 * m + k * (k + 1) == m * (m + 1)) by (nonlinear_arith)
            requires
                k + 1 == m,
        ;
        assert(2 * triangle(k) == k * (k + 1));
        assert(2 * triangle(m) == 2 * m + k * (k + 1));
    } else {
        assert(m * (m + 1) == 0) by (nonlinear_arith)
            requires
                m == 0,
        ;
    }
}

/// The number of rows needed to hold `ball_count` balls: the smallest `rows`
/// with `triangle(rows) >= ball_count`.
pub fn row_count(ball_count: u32) -> (rows: u32)
    requires
        ball_count <= MAX_BALLS,
    ensures
        triangle(rows as nat) >= ball_count,
        rows == 0 || triangle((rows - 1) as nat) < ball_count,
{
    let mut rows: u32 = 0;
    let mut room: u32 = 0;
    while room < ball_count
        invariant
            room == triangle(rows as nat),
            rows == 0 || triangle((rows - 1) as nat) < ball_count,
            ball_count <= MAX_BALLS,
            rows <= room,
            rows <= MAX_BALLS,
        decreases MAX_BALLS - rows,
    {
        rows = rows + 1;
        room = room + rows;
    }
    rows
}

/// How many balls end up in row `i` of `row_count` rows when `ball_count`
/// balls fill the rows from the last back to the first: what is left after
/// the rows below it are full, but at least 0 and at most `i + 1`.
pub open spec fn row_fill(ball_count: nat, row_count: nat, i: nat) -> nat {
    let room_below: int = triangle(row_count) - triangle(i + 1);
    if ball_count <= room_below {
        0
    } else if ball_count - room_below >= i + 1 {
        i + 1
    } else {
        (ball_count - room_below) as nat
    }
}

/// The number of balls in each of the `row_count` rows.
pub open spec fn arrangement(ball_count: nat, row_count: nat) -> Seq<u32> {
    Seq::new(row_count, |i: int| row_fill(ball_count, row_count, i as nat) as u32)
}

/// The sum of a list of counts.
pub open spec fn sum(s: Seq<u32>) -> int
    decreases s.len(),
{
    if s.len() == 0 {
        0
    } else {
        sum(s.drop_last()) + s.last()
    }
}

proof fn lemma_sum_update(s: Seq<u32>, r: int, v: u32)
    requires
        0 <= r < s.len(),
    ensures
        sum(s.update(r, v)) == sum(s) - s[r] + v,
    decreases s.len(),
{
    if r == s.len() - 1 {
        assert(s.update(r, v).drop_last() =~= s.drop_last());
    } else {
        lemma_sum_update(s.drop_last(), r, v);
        assert(s.update(r, v).drop_last() =~= s.drop_last().update(r, v));
    }
}

/// Places `ball_count` balls in `row_count` rows, one at a time, each in the
/// last row that is not yet full. Row `i` ends up with
/// `row_fill(ball_count, row_count, i)` balls, never more than `i + 1`, and
/// all balls are placed when the rows have room for them.
pub fn arrange_rows(ball_count: u32, row_count: u32) -> (rows: Vec<u32>)
    ensures
        rows@ == arrangement(ball_count as nat, row_count as nat),
        forall|i: int| 0 <= i < rows@.len() ==> #[trigger] rows@[i] <= i + 1,
        forall|i: int, j: int|
            0 <= i < j < rows@.len() && #[trigger] rows@[i] > 0 ==> #[trigger] rows@[j] == j + 1,
        sum(rows@) == if ball_count <= triangle(row_count as nat) {
            ball_count as int
        } else {
            triangle(row_count as nat) as int
        },
{
    let ghost big_r = row_count as nat;
    let mut arr: Vec<u32> = vec![0u32; row_count as usize];
    let mut placed: u32 = 0;
    assert(sum(arr@) == 0) by {
        lemma_sum_zero(arr@);
    }
    assert(arr@ =~= arrangement(0, big_r)) by {
        assert forall|q: int| 0 <= q < big_r implies #[trigger] arr@[q] == row_fill(0, big_r, q as nat) by {
            lemma_triangle_monotonic((q + 1) as nat, big_r);
        }
    }
    while placed < ball_count
        invariant
            placed <= ball_count,
            arr@ == arrangement(placed as nat, big_r),
            big_r == row_count,
            sum(arr@) == if placed <= triangle(big_r) {
                placed as int
            } else {
                triangle(big_r) as int
            },
        decreases ball_count - placed,
    {
        let ghost b = placed as nat;
        let mut k: u32 = row_count;
        while k > 0
            invariant_except_break
                arr@ == arrangement(b, big_r),
            invariant
                k <= row_count,
                big_r == row_count,
                b == placed,
                b < ball_count,
                forall|q: nat| k <= q < big_r ==> b >= triangle(big_r) - #[trigger] triangle(q),
            ensures
                k == 0 ==> arr@ == arrangement(b, big_r) && b >= triangle(big_r) - triangle(0),
                k > 0 ==> arr@ == arrangement(b + 1, big_r) && b < triangle(big_r) && sum(arr@)
                    == sum(arrangement(b, big_r)) + 1,
            decreases k,
        {
            let r: u32 = k - 1;
            proof {
                lemma_triangle_monotonic((r + 1) as nat, big_r);
            }
            if arr[r as usize] < k {
                let ghost old_arr = arr@;
                arr.set(r as usize, arr[r as usize] + 1);
                proof {
                    assert forall|q: int| 0 <= q < big_r implies #[trigger] arr@[q] == row_fill(
                        b + 1,
                        big_r,
                        q as nat,
                    ) by {
                        if q < r {
                            lemma_triangle_monotonic((q + 1) as nat, r as nat);
                        } else if q > r {
                            assert(b >= triangle(big_r) - triangle(q as nat));
                        }
                    }
                    assert(arr@ =~= arrangement(b + 1, big_r));
                    lemma_sum_update(old_arr, r as int, (old_arr[r as int] + 1) as u32);
                    lemma_triangle_monotonic(r as nat, big_r);
                }
                break;
            }
            k = r;
        }
        if k == 0 {
            assert(arrangement(b, big_r) =~= arrangement(b + 1, big_r)) by {
                assert forall|q: int| 0 <= q < big_r implies #[trigger] row_fill(b, big_r, q as nat)
                    == row_fill(b + 1, big_r, q as nat) by {
                    lemma_triangle_monotonic(q as nat, big_r);
                    lemma_triangle_monotonic((q + 1) as nat, big_r);
                }
            }
        }
        placed = placed + 1;
    }
    assert forall|i: int| 0 <= i < arr@.len() implies #[trigger] arr@[i] <= i + 1 by {
        assert(arr@[i] == row_fill(ball_count as nat, big_r, i as nat));
    }
    assert forall|i: int, j: int|
        0 <= i < j < arr@.len() && #[trigger] arr@[i] > 0 implies #[trigger] arr@[j] == j + 1 by {
        assert(arr@[i] == row_fill(ball_count as nat, big_r, i as nat));
        assert(arr@[j] == row_fill(ball_count as nat, big_r, j as nat));
        lemma_triangle_monotonic((i + 1) as nat, j as nat);
        lemma_triangle_monotonic((j + 1) as nat, big_r);
    }
    arr
}

proof fn lemma_sum_zero(s: Seq<u32>)
    requires
        forall|i: int| 0 <= i < s.len() ==> s[i] == 0,
    ensures
        sum(s) == 0,
    decreases s.len(),
{
    if s.len() > 0 {
        lemma_sum_zero(s.drop_last());
    }
}

} // verus!
