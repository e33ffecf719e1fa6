//! Collatz sequences.
use vstd::prelude::*;

verus! {

/// One Collatz step: halve an even number, map an odd `x` to `3x + 1`.
pub open spec fn collatz_step(x: int) -> int {
    if x % 2 == 0 {
        x / 2
    } else {
        3 * x + 1
    }
}

/// The value reached from `n` after `k` steps.
pub open spec fn collatz_iter(n: int, k: nat) -> int
    decreases k,
{
    if k == 0 {
        n
    } else {
        collatz_step(collatz_iter(n, (k - 1) as nat))
    }
}

/// The sequence from `n` first meets 1 after `k` steps, and every value on
/// the way fits in an `i32`.
pub open spec fn stops_at(n: int, k: nat) -> bool {
    &&& collatz_iter(n, k) == 1
    &&& forall|j: nat| j < k ==> #[trigger] collatz_iter(n, j) != 1
    &&& forall|j: nat| j <= k ==> i32::MIN <= #[trigger] collatz_iter(n, j) <= i32::MAX
}

/// The sequence from `n` reaches 1 without leaving the `i32` range.
pub open spec fn reaches_one(n: int) -> bool {
    exists|k: nat| stops_at(n, k)
}

/// Number of steps from `n` to 1.
pub open spec fn stopping_time(n: int) -> nat {
    choose|k: nat| stops_at(n, k)
}

/// Length of the sequence from `n` down to 1, both ends included.
pub open spec fn collatz_len(n: int) -> nat {
    stopping_time(n) + 1
}

/// A sequence reaches 1 after only one number of steps.
pub proof fn lemma_stops_at_unique(n: int, k1: nat, k2: nat)
    requires
        stops_at(n, k1),
        stops_at(n, k2),
    ensures
        k1 == k2,
{
    if k1 < k2 {
        assert(collatz_iter(n, k1) != 1);
    } else if k2 < k1 {
        assert(collatz_iter(n, k2) != 1);
    }
}

/// From a value that is not positive, the sequence never becomes positive.
proof fn lemma_nonpositive_stays(n: int, k: nat)
    requires
        n <= 0,
    ensures
        collatz_iter(n, k) <= 0,
    decreases k,
{
    if k > 0 {
        lemma_nonpositive_stays(n, (k - 1) as nat);
    }
}

/// The Collatz sequence from `n` down to the first 1.
pub fn collatz_conjecture(n: i32) -> (v: Vec<i32>)
    requires
        reaches_one(n as int),
    ensures
        v@.len() == collatz_len(n as int),
        forall|i: int| 0 <= i < v@.len() ==> #[trigger] v@[i] == collatz_iter(n as int, i as nat),
        v@.last() == 1,
        forall|i: int| 0 <= i < v@.len() - 1 ==> #[trigger] v@[i] != 1,
{
    let ghost k = stopping_time(n as int);
    proof {
        if n <= 0 {
            lemma_nonpositive_stays(n as int, k);
        }
    }
    let mut v = vec![n];
    let mut next_step = n;
    let ghost mut i: nat = 0;
    while next_step != 1
        invariant
            stops_at(n as int, k),
            k == stopping_time(n as int),
            n > 0,
            i <= k,
            v@.len() == i + 1,
            next_step == collatz_iter(n as int, i),
            forall|j: int| 0 <= j <= i ==> #[trigger] v@[j] == collatz_iter(n as int, j as nat),
        decreases k - i,
    {
        proof {
            assert(i < k);
            assert(i32::MIN <= collatz_iter(n as int, i + 1) <= i32::MAX);
            assert(collatz_iter(n as int, i + 1) == collatz_step(next_step as int));
            if next_step <= 0 {
                lemma_nonpositive_stays(next_step as int, (k - i) as nat);
                lemma_iter_shift(n as int, i, (k - i) as nat);
            }
        }
        let x = next_step as u32;
        if x % 2 == 0 {
            next_step = (x / 2) as i32;
        } else {
            next_step = 3 * next_step + 1;
        }
        v.push(next_step);
        proof {
            i = i + 1;
        }
    }
    proof {
        lemma_stops_at_unique(n as int, i, k);
        assert forall|j: int| 0 <= j < v@.len() - 1 implies #[trigger] v@[j] != 1 by {
            assert(collatz_iter(n as int, j as nat) != 1);
        }
    }
    v
}

/// Taking `a` steps and then `b` more is taking `a + b` steps.
proof fn lemma_iter_shift(n: int, a: nat, b: nat)
    ensures
        collatz_iter(collatz_iter(n, a), b) == collatz_iter(n, a + b),
    decreases b,
{
    if b > 0 {
        lemma_iter_shift(n, a, (b - 1) as nat);
    }
}

/// The start in `4..=100004` with the longest sequence; the smallest such
/// start when several tie.
pub fn longest_collatz() -> (r: i32)
    requires
        forall|i: int| 4 <= i <= 100_004 ==> reaches_one(i) && collatz_len(i) <= i32::MAX,
    ensures
        4 <= r <= 100_004,
        forall|i: int| 4 <= i <= 100_004 ==> collatz_len(i) <= collatz_len(r as int),
        forall|i: int| 4 <= i < r ==> collatz_len(i) < collatz_len(r as int),
{
    let mut longest_index: i32 = 0;
    let mut longest_long: i32 = 0;
    let mut i: i32 = 4;
    while i <= 100_004
        invariant
            4 <= i <= 100_005,
            forall|j: int| 4 <= j <= 100_004 ==> reaches_one(j) && collatz_len(j) <= i32::MAX,
            i == 4 ==> longest_long == 0,
            i > 4 ==> 4 <= longest_index < i,
            i > 4 ==> longest_long == collatz_len(longest_index as int),
            forall|j: int| 4 <= j < i ==> collatz_len(j) <= longest_long,
            forall|j: int| 4 <= j < longest_index ==> collatz_len(j) < longest_long,
            0 <= longest_long,
        decreases 100_005 - i,
    {
        assert(reaches_one(i as int) && collatz_len(i as int) <= i32::MAX);
        let collatz = collatz_conjecture(i);
        if collatz.len() > longest_long as usize {
            longest_long = collatz.len() as i32;
            longest_index = i;
        }
        i += 1;
    }
    longest_index
}

/// The sequence from `n` reaches 1 within `fuel` steps without leaving the
/// `i32` range.
pub open spec fn stops_within(n: int, fuel: nat) -> bool {
    exists|k: nat| k <= fuel && stops_at(n, k)
}

/// The number of steps from `n` to 1, when the sequence gets there within
/// `fuel` steps without leaving the `i32` range; `None` otherwise.
pub fn steps_to_one(n: i32, fuel: u32) -> (r: Option<u32>)
    ensures
        r matches Some(k) ==> k <= fuel && stops_at(n as int, k as nat),
        r is None ==> forall|k: nat| k <= fuel ==> !stops_at(n as int, k),
{
    if n <= 0 {
        proof {
            assert forall|k: nat| k <= fuel implies !stops_at(n as int, k) by {
                lemma_nonpositive_stays(n as int, k);
            }
        }
        return None;
    }
    let mut x: i32 = n;
    let mut i: u32 = 0;
    while x != 1
        invariant
            n > 0,
            i <= fuel,
            x > 0,
            x == collatz_iter(n as int, i as nat),
            forall|j: nat| j < i ==> #[trigger] collatz_iter(n as int, j) != 1,
            forall|j: nat| j <= i ==> i32::MIN <= #[trigger] collatz_iter(n as int, j) <= i32::MAX,
        decreases fuel - i,
    {
        if i == fuel {
            proof {
                assert forall|k: nat| k <= fuel implies !stops_at(n as int, k) by {
                    if stops_at(n as int, k) {
                        assert(collatz_iter(n as int, k) == 1);
                    }
                }
            }
            return None;
        }
        let u = x as u32;
        let next: u64 = if u % 2 == 0 {
            (u / 2) as u64
        } else {
            3 * (u as u64) + 1
        };
        proof {
            assert(collatz_iter(n as int, (i + 1) as nat) == collatz_step(x as int));
            assert(next == collatz_step(x as int));
        }
        if next > 2147483647 {
            proof {
                assert forall|k: nat| k <= fuel implies !stops_at(n as int, k) by {
                    if stops_at(n as int, k) {
                        if k <= i {
                            assert(collatz_iter(n as int, k) == 1);
                        } else {
                            assert(collatz_iter(n as int, (i + 1) as nat) <= i32::MAX);
                        }
                    }
                }
            }
            return None;
        }
        x = next as i32;
        i += 1;
    }
    Some(i)
}

/// Longest sequence over the starts `4..=100004`, after checking that each
/// of them reaches 1 within 10 000 steps without leaving the `i32` range:
/// `None` exactly when one of them does not.
pub fn checked_longest_collatz() -> (r: Option<i32>)
    ensures
        r is Some <==> forall|i: int| 4 <= i <= 100_004 ==> #[trigger] stops_within(i, 10_000),
        r matches Some(x) ==> {
            &&& 4 <= x <= 100_004
            &&& forall|i: int| 4 <= i <= 100_004 ==> collatz_len(i) <= collatz_len(x as int)
            &&& forall|i: int| 4 <= i < x ==> collatz_len(i) < collatz_len(x as int)
        },
{
    let mut i: i32 = 4;
    while i <= 100_004
        invariant
            4 <= i <= 100_005,
            forall|j: int| 4 <= j < i ==> #[trigger] stops_within(j, 10_000),
        decreases 100_005 - i,
    {
        match steps_to_one(i, 10_000) {
            None => {
                proof {
                    assert(!stops_within(i as int, 10_000));
                }
                return None;
            },
            Some(k) => {
                proof {
                    assert(stops_at(i as int, k as nat));
                    assert(stops_within(i as int, 10_000));
                }
            },
        }
        i += 1;
    }
    proof {
        assert forall|j: int| 4 <= j <= 100_004 implies reaches_one(j) && collatz_len(j) <= i32::MAX by {
            assert(stops_within(j, 10_000));
            let k = choose|k: nat| k <= 10_000 && stops_at(j, k);
            assert(reaches_one(j));
            lemma_stops_at_unique(j, k, stopping_time(j));
        }
    }
    Some(longest_collatz())
}

} // verus!
