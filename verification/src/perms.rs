//! The permutation engine: a lazy, forward-only stream of every ordered
//! arrangement of `k` distinct digits from 0..=9, together with the
//! leading-zero filter.
//!
//! Arrangement number `n` is decoded from `n` in a mixed radix: position `i`
//! picks the `n_i`-th entry of a shrinking pool of unused digits, so the
//! stream enumerates each arrangement exactly once.

use vstd::prelude::*;
use vstd::arithmetic::div_mod::{
    lemma_fundamental_div_mod,
    lemma_div_multiples_vanish,
    lemma_mod_division_less_than_divisor,
};

verus! {

/// Falling factorial: `m * (m-1) * ... * (m-c+1)`.
pub open spec fn fall(m: int, c: int) -> int
    decreases c,
{
    if c <= 0 {
        1
    } else {
        m * fall(m - 1, c - 1)
    }
}

pub open spec fn fact(n: int) -> int
    decreases n,
{
    if n <= 0 {
        1
    } else {
        n * fact(n - 1)
    }
}

/// Number of ordered arrangements of `k` distinct digits out of ten.
pub open spec fn perm_count(k: int) -> int {
    fall(10, k)
}

pub open spec fn digit_pool() -> Seq<u8> {
    seq![0u8, 1u8, 2u8, 3u8, 4u8, 5u8, 6u8, 7u8, 8u8, 9u8]
}

/// Decode `r` in mixed radix against a pool of unused digits: each step
/// takes entry `r % pool.len()` and continues with `r / pool.len()`.
pub open spec fn sel(pool: Seq<u8>, r: int, c: int) -> Seq<u8>
    decreases c,
{
    if c <= 0 {
        Seq::empty()
    } else {
        let m = pool.len() as int;
        if m <= 0 {
            Seq::empty()
        } else {
            let idx = r % m;
            seq![pool[idx]] + sel(pool.remove(idx), r / m, c - 1)
        }
    }
}

/// Arrangement number `n` of the stream for `k` letters.
pub open spec fn spec_perm_at(n: int, k: int) -> Seq<u8> {
    sel(digit_pool(), n, k)
}

pub proof fn lemma_fall_pos(m: int, c: int)
    requires
        0 <= c <= m,
    ensures
        fall(m, c) >= 1,
    decreases c,
{
    if c > 0 {
        lemma_fall_pos(m - 1, c - 1);
        assert(m * fall(m - 1, c - 1) >= 1) by (nonlinear_arith)
            requires
                m >= 1,
                fall(m - 1, c - 1) >= 1,
        ;
    }
}

/// `fall(m, c + 1) == fall(m, c) * (m - c)`: one more position multiplies by
/// the next factor down.
pub proof fn lemma_fall_next(m: int, c: int)
    requires
        0 <= c,
    ensures
        fall(m, c + 1) == fall(m, c) * (m - c),
    decreases c,
{
    if c == 0 {
        assert(fall(m - 1, 0) == 1);
        assert(fall(m, 1) == m * fall(m - 1, 0));
    } else {
        lemma_fall_next(m - 1, c - 1);
        assert(fall(m - 1, c) == fall(m - 1, c - 1) * (m - c));
        assert(fall(m, c + 1) == m * fall(m - 1, c));
        assert(m * (fall(m - 1, c - 1) * (m - c)) == (m * fall(m - 1, c - 1)) * (m - c))
            by (nonlinear_arith);
        assert(fall(m, c) == m * fall(m - 1, c - 1));
    }
}

pub proof fn lemma_fall_10_bounded(c: int)
    requires
        0 <= c <= 10,
    ensures
        fall(10, c) <= 3628800,
    decreases 10 - c,
{
    if c == 10 {
        assert(fall(10, 10) == 3628800) by {
            reveal_with_fuel(fall, 11);
        }
    } else {
        lemma_fall_10_bounded(c + 1);
        lemma_fall_next(10, c);
        lemma_fall_pos(10, c);
        assert(fall(10, c) * (10 - c) >= fall(10, c) * 1) by (nonlinear_arith)
            requires fall(10, c) >= 1 && 10 - c >= 1;
    }
}

/// `perm_count(k) * (10 - k)! == 10!`: the stream size is `10! / (10-k)!`.
pub proof fn lemma_perm_count_fact(k: int)
    requires
        0 <= k <= 10,
    ensures
        perm_count(k) * fact(10 - k) == fact(10),
    decreases k,
{
    if k == 0 {
    } else {
        lemma_perm_count_fact(k - 1);
        lemma_fall_next(10, k - 1);
        assert(fact(11 - k) == (11 - k) * fact(10 - k));
        assert((fall(10, k - 1) * (11 - k)) * fact(10 - k) == fall(10, k - 1) * ((11 - k) * fact(
            10 - k,
        ))) by (nonlinear_arith);
    }
}

/// Removing an entry from a duplicate-free pool keeps it duplicate-free,
/// keeps membership, and removes the chosen entry entirely.
pub proof fn lemma_remove_keeps(pool: Seq<u8>, idx: int)
    requires
        pool.no_duplicates(),
        0 <= idx < pool.len(),
    ensures
        pool.remove(idx).no_duplicates(),
        forall|x: u8| pool.remove(idx).contains(x) ==> pool.contains(x),
        !pool.remove(idx).contains(pool[idx]),
{
    pool.remove_ensures(idx);
    let rem = pool.remove(idx);
    assert forall|i: int, j: int| 0 <= i < j < rem.len() implies rem[i] != rem[j] by {
        let pi: int = if i < idx {
            i
        } else {
            i + 1
        };
        let pj: int = if j < idx {
            j
        } else {
            j + 1
        };
        assert(rem[i] == pool[pi] && rem[j] == pool[pj]);
    }
    assert forall|x: u8| rem.contains(x) implies pool.contains(x) by {
        let i = choose|i: int| 0 <= i < rem.len() && rem[i] == x;
        if i < idx {
            assert(pool[i] == x);
        } else {
            assert(pool[i + 1] == x);
        }
    }
    if rem.contains(pool[idx]) {
        let i = choose|i: int| 0 <= i < rem.len() && rem[i] == pool[idx];
        if i < idx {
            assert(pool[i] == pool[idx]);
        } else {
            assert(pool[i + 1] == pool[idx]);
        }
    }
}

/// Every decoded arrangement has length `c`, draws only from the pool, and
/// repeats no digit.
pub proof fn lemma_sel_shape(pool: Seq<u8>, r: int, c: int)
    requires
        pool.no_duplicates(),
        0 <= c <= pool.len(),
    ensures
        sel(pool, r, c).len() == c,
        sel(pool, r, c).no_duplicates(),
        forall|x: u8| sel(pool, r, c).contains(x) ==> pool.contains(x),
    decreases c,
{
    if c > 0 {
        let m = pool.len() as int;
        lemma_mod_division_less_than_divisor(r, m);
        let idx = r % m;
        lemma_remove_keeps(pool, idx);
        lemma_sel_shape(pool.remove(idx), r / m, c - 1);
        let tail = sel(pool.remove(idx), r / m, c - 1);
        let s = sel(pool, r, c);
        assert(s == seq![pool[idx]] + tail);
        assert forall|i: int, j: int| 0 <= i < j < s.len() implies s[i] != s[j] by {
            if i == 0 {
                assert(s[j] == tail[j - 1]);
                assert(tail.contains(tail[j - 1]));
            } else {
                assert(s[i] == tail[i - 1] && s[j] == tail[j - 1]);
            }
        }
        assert forall|x: u8| s.contains(x) implies pool.contains(x) by {
            let i = choose|i: int| 0 <= i < s.len() && s[i] == x;
            if i == 0 {
                assert(pool.contains(pool[idx]));
            } else {
                assert(tail[i - 1] == x);
                assert(tail.contains(x));
            }
        }
    }
}

/// Distinct stream indices decode to distinct arrangements.
pub proof fn lemma_sel_injective(pool: Seq<u8>, r1: int, r2: int, c: int)
    requires
        pool.no_duplicates(),
        0 <= c <= pool.len(),
        0 <= r1 < fall(pool.len() as int, c),
        0 <= r2 < fall(pool.len() as int, c),
        sel(pool, r1, c) == sel(pool, r2, c),
    ensures
        r1 == r2,
    decreases c,
{
    if c <= 0 {
    } else {
        let m = pool.len() as int;
        lemma_mod_division_less_than_divisor(r1, m);
        lemma_mod_division_less_than_divisor(r2, m);
        let idx1 = r1 % m;
        let idx2 = r2 % m;
        let s1 = sel(pool, r1, c);
        let s2 = sel(pool, r2, c);
        let tail1 = sel(pool.remove(idx1), r1 / m, c - 1);
        let tail2 = sel(pool.remove(idx2), r2 / m, c - 1);
        assert(s1 == seq![pool[idx1]] + tail1);
        assert(s2 == seq![pool[idx2]] + tail2);
        assert(pool[idx1] == s1[0] && pool[idx2] == s2[0]);
        assert(idx1 == idx2);
        assert(tail1 =~= tail2) by {
            lemma_remove_keeps(pool, idx1);
            lemma_sel_shape(pool.remove(idx1), r1 / m, c - 1);
            lemma_sel_shape(pool.remove(idx2), r2 / m, c - 1);
            assert(forall|j: int| 0 <= j < tail1.len() ==> tail1[j] == s1[j + 1]);
            assert(forall|j: int| 0 <= j < tail2.len() ==> tail2[j] == s2[j + 1]);
        }
        assert(fall(m, c) == m * fall(m - 1, c - 1)) by {
        }
        lemma_fundamental_div_mod(r1, m);
        lemma_fundamental_div_mod(r2, m);
        assert(r1 / m >= 0 && r1 / m < fall(m - 1, c - 1)) by (nonlinear_arith)
            requires
                m > 0,
                0 <= r1 < m * fall(m - 1, c - 1),
                r1 == m * (r1 / m) + (r1 % m),
                0 <= r1 % m < m,
        ;
        assert(r2 / m >= 0 && r2 / m < fall(m - 1, c - 1)) by (nonlinear_arith)
            requires
                m > 0,
                0 <= r2 < m * fall(m - 1, c - 1),
                r2 == m * (r2 / m) + (r2 % m),
                0 <= r2 % m < m,
        ;
        lemma_remove_keeps(pool, idx1);
        pool.remove_ensures(idx1);
        lemma_sel_injective(pool.remove(idx1), r1 / m, r2 / m, c - 1);
        assert(r1 == r2);
    }
}

/// The digit pool really holds the ten digits once each.
pub proof fn lemma_digit_pool_distinct()
    ensures
        digit_pool().no_duplicates(),
        digit_pool().len() == 10,
{
    let p = digit_pool();
    assert forall|i: int, j: int| 0 <= i < j < p.len() implies p[i] != p[j] by {
        assert(p[i] == i as u8 && p[j] == j as u8);
    }
}

/// Law of the permutation engine: for a letter count `k` the stream — entry
/// `n` is arrangement `spec_perm_at(n, k)` — holds exactly `10! / (10-k)!`
/// entries, every entry is `k` pairwise-distinct digits, and no entry
/// repeats.
pub proof fn lemma_perm_stream_complete(k: int)
    requires
        0 <= k <= 10,
    ensures
        ({
            let all = Seq::new(perm_count(k) as nat, |n: int| spec_perm_at(n, k));
            &&& all.len() * fact(10 - k) == fact(10)
            &&& forall|n: int|
                0 <= n < all.len() ==> (#[trigger] all[n]).len() == k && all[n].no_duplicates()
            &&& forall|n1: int, n2: int| 0 <= n1 < n2 < all.len() ==> all[n1] != all[n2]
        }),
{
    lemma_digit_pool_distinct();
    lemma_fall_pos(10, k);
    lemma_perm_count_fact(k);
    let all = Seq::new(perm_count(k) as nat, |n: int| spec_perm_at(n, k));
    assert(all.len() == perm_count(k));
    assert forall|n: int| 0 <= n < all.len() implies (#[trigger] all[n]).len() == k
        && all[n].no_duplicates() by {
        lemma_sel_shape(digit_pool(), n, k);
    }
    assert forall|n1: int, n2: int| 0 <= n1 < n2 < all.len() implies all[n1] != all[n2] by {
        if all[n1] == all[n2] {
            lemma_sel_injective(digit_pool(), n1, n2, k);
        }
    }
}

/// The lazy, forward-only generator over the stream: `new` starts it and
/// `next` hands out arrangement `next_index` until `total` are gone.
pub struct PermGenerator {
    pub letter_count: usize,
    pub next_index: usize,
    pub total: usize,
}

impl PermGenerator {
    pub open spec fn wf(&self) -> bool {
        &&& self.letter_count <= 10
        &&& self.total == perm_count(self.letter_count as int)
        &&& self.next_index <= self.total
    }

    pub fn new(letter_count: usize) -> (r: PermGenerator)
        requires
            letter_count <= 10,
        ensures
            r.wf(),
            r.letter_count == letter_count,
            r.next_index == 0,
    {
        let mut total: usize = 1;
        let mut i: usize = 0;
        while i < letter_count
            invariant
                0 <= i <= letter_count <= 10,
                total == fall(10, i as int),
            decreases letter_count - i,
        {
            proof {
                lemma_fall_next(10, i as int);
                lemma_fall_10_bounded(i as int + 1);
                lemma_fall_pos(10, i as int + 1);
            }
            total = total * (10 - i);
            i += 1;
        }
        PermGenerator { letter_count, next_index: 0, total }
    }

    /// Yield the next arrangement, or `None` once the stream is exhausted.
    pub fn next(&mut self) -> (r: Option<Vec<u8>>)
        requires
            old(self).wf(),
        ensures
            final(self).wf(),
            final(self).letter_count == old(self).letter_count,
            final(self).total == old(self).total,
            old(self).next_index < old(self).total ==> {
                &&& r matches Some(p)
                &&& p@ == spec_perm_at(
                    old(self).next_index as int,
                    old(self).letter_count as int,
                )
                &&& final(self).next_index == old(self).next_index + 1
            },
            old(self).next_index >= old(self).total ==> r is None && final(self).next_index == old(
                self,
            ).next_index,
    {
        if self.next_index < self.total {
            let p = perm_at(self.next_index, self.letter_count);
            self.next_index = self.next_index + 1;
            Some(p)
        } else {
            None
        }
    }
}

/// Decode arrangement number `n` for `k` letters.
pub fn perm_at(n: usize, k: usize) -> (r: Vec<u8>)
    requires
        k <= 10,
    ensures
        r@ == spec_perm_at(n as int, k as int),
{
    let mut pool: Vec<u8> = vec![0u8, 1u8, 2u8, 3u8, 4u8, 5u8, 6u8, 7u8, 8u8, 9u8];
    proof {
        assert(pool@ =~= digit_pool());
    }
    let mut out: Vec<u8> = Vec::new();
    let mut rem: usize = n;
    let mut i: usize = 0;
    while i < k
        invariant
            0 <= i <= k <= 10,
            pool@.len() == 10 - i,
            spec_perm_at(n as int, k as int) == out@ + sel(pool@, rem as int, (k - i) as int),
        decreases k - i,
    {
        let ghost prev_pool = pool@;
        let ghost prev_out = out@;
        let ghost prev_rem = rem as int;
        let m = pool.len();
        let idx = rem % m;
        proof {
            lemma_mod_division_less_than_divisor(prev_rem, m as int);
        }
        let d = pool.remove(idx);
        out.push(d);
        rem = rem / m;
        proof {
            let c = (k - i) as int;
            assert(sel(prev_pool, prev_rem, c) == seq![prev_pool[idx as int]] + sel(
                prev_pool.remove(idx as int),
                prev_rem / m as int,
                c - 1,
            ));
            assert(out@ + sel(pool@, rem as int, c - 1) =~= prev_out + sel(prev_pool, prev_rem, c));
        }
        i += 1;
    }
    proof {
        assert(out@ + sel(pool@, rem as int, 0) =~= out@);
    }
    out
}

/// True when no leading variable is assigned the digit 0.
pub open spec fn spec_valid(perm: Seq<u8>, firsts: Seq<usize>) -> bool {
    forall|i: int| 0 <= i < firsts.len() ==> perm[#[trigger] firsts[i] as int] != 0
}

/// The predicate the leading-zero filter keeps.
pub open spec fn keep_pred(firsts: Seq<usize>) -> spec_fn(Seq<u8>) -> bool {
    |p: Seq<u8>| spec_valid(p, firsts)
}

/// Drop arrangements that assign 0 to a variable that starts an operand
/// word.
pub fn valid_perm(perm: &Vec<u8>, first_vars: &Vec<usize>) -> (r: bool)
    requires
        forall|i: int| 0 <= i < first_vars@.len() ==> #[trigger] first_vars@[i] < perm@.len(),
    ensures
        r == spec_valid(perm@, first_vars@),
{
    let mut i: usize = 0;
    let nf = first_vars.len();
    while i < nf
        invariant
            0 <= i <= nf,
            nf == first_vars@.len(),
            forall|j: int| 0 <= j < first_vars@.len() ==> #[trigger] first_vars@[j] < perm@.len(),
            forall|j: int| 0 <= j < i ==> perm@[#[trigger] first_vars@[j] as int] != 0,
        decreases nf - i,
    {
        if perm[first_vars[i]] == 0 {
            return false;
        }
        i += 1;
    }
    true
}

/// Law of the leading-zero filter: what it keeps plus what it rejects is
/// everything — its output count equals the total count minus the count of
/// arrangements that put 0 on a leading position.
pub proof fn lemma_filter_count(arrs: Seq<Seq<u8>>, firsts: Seq<usize>)
    ensures
        arrs.filter(keep_pred(firsts)).len() == arrs.len() - arrs.filter(
            |p: Seq<u8>| !spec_valid(p, firsts),
        ).len(),
    decreases arrs.len(),
{
    reveal(Seq::filter);
    if arrs.len() > 0 {
        lemma_filter_count(arrs.drop_last(), firsts);
    }
}

} // verus!
