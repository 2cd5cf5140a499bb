//! Sums over sequences: the doubled even numbers of a list, and a
//! hand-written counting range.

use vstd::prelude::*;

verus! {

/// What a number adds to the sum of doubled evens: twice itself when even.
pub open spec fn doubled_if_even(n: u32) -> nat {
    if n % 2 == 0 {
        (2 * n) as nat
    } else {
        0
    }
}

/// The sum of twice each even number of `s`.
pub open spec fn doubled_even_sum(s: Seq<u32>) -> nat
    decreases s.len(),
{
    if s.len() == 0 {
        0
    } else {
        doubled_even_sum(s.drop_last()) + doubled_if_even(s.last())
    }
}

/// A prefix never sums to more than the whole.
pub proof fn lemma_doubled_even_sum_prefix(s: Seq<u32>, i: int)
    requires
        0 <= i <= s.len(),
    ensures
        doubled_even_sum(s.take(i)) <= doubled_even_sum(s),
    decreases s.len() - i,
{
    if i < s.len() {
        lemma_doubled_even_sum_prefix(s, i + 1);
        assert(s.take(i + 1).drop_last() =~= s.take(i));
    } else {
        assert(s.take(i) =~= s);
    }
}

/// Whether the sum of doubled evens of `numbers` fits in a `u32`.
pub fn doubled_even_sum_fits(numbers: &[u32]) -> (r: bool)
    ensures
        r == (doubled_even_sum(numbers@) <= u32::MAX),
{
    let mut sum: u64 = 0;
    let mut i: usize = 0;
    while i < numbers.len()
        invariant
            i <= numbers@.len(),
            sum == doubled_even_sum(numbers@.take(i as int)),
            sum <= u32::MAX,
        decreases numbers@.len() - i,
    {
        proof {
            assert(numbers@.take(i + 1).drop_last() =~= numbers@.take(i as int));
        }
        let n = numbers[i];
        if n % 2 == 0 {
            sum = sum + n as u64 * 2;
        }
        i = i + 1;
        if sum > 0xffff_ffff {
            proof {
                lemma_doubled_even_sum_prefix(numbers@, i as int);
            }
            return false;
        }
    }
    assert(numbers@.take(i as int) =~= numbers@);
    true
}

/// Keeps the even numbers, doubles them, and adds them up.
pub fn sum_of_doubled_evens(numbers: &[u32]) -> (r: u32)
    requires
        doubled_even_sum(numbers@) <= u32::MAX,
    ensures
        r == doubled_even_sum(numbers@),
{
    let mut sum: u32 = 0;
    let mut i: usize = 0;
    while i < numbers.len()
        invariant
            i <= numbers@.len(),
            sum == doubled_even_sum(numbers@.take(i as int)),
            doubled_even_sum(numbers@) <= u32::MAX,
        decreases numbers@.len() - i,
    {
        proof {
            assert(numbers@.take(i + 1).drop_last() =~= numbers@.take(i as int));
            lemma_doubled_even_sum_prefix(numbers@, i + 1);
        }
        let n = numbers[i];
        if n % 2 == 0 {
            sum = sum + n * 2;
        }
        i = i + 1;
    }
    assert(numbers@.take(i as int) =~= numbers@);
    sum
}

/// The sum of the numbers from `start` up to, not including, `end`.
pub open spec fn range_total(start: nat, end: nat) -> nat
    decreases end - start,
{
    if start >= end {
        0
    } else {
        start + range_total(start + 1, end)
    }
}

/// The sum of the numbers from `start` up to `end`, in closed form.
pub proof fn lemma_range_total_closed_form(start: nat, end: nat)
    requires
        start <= end,
    ensures
        2 * range_total(start, end) == (end - start) * (start + end - 1),
    decreases end - start,
{
    if start < end {
        lemma_range_total_closed_form(start + 1, end);
        assert((end - (start + 1)) * ((start + 1) + end - 1) == (end - start - 1) * (start + end));
        assert(2 * start + (end - start - 1) * (start + end) == (end - start) * (start + end - 1))
            by (nonlinear_arith);
    } else {
        assert((end - start) * (start + end - 1) == 0) by (nonlinear_arith)
            requires
                start == end,
        ;
    }
}

/// Counts from `current` up to, not including, `end`.
pub struct MyRange {
    pub current: u32,
    pub end: u32,
}

impl MyRange {
    /// The next number, or `None` once `end` is reached.
    pub fn next(&mut self) -> (r: Option<u32>)
        ensures
            old(self).current < old(self).end ==> r == Some(old(self).current) && final(self).current
                == old(self).current + 1,
            old(self).current >= old(self).end ==> r is None && final(self).current
                == old(self).current,
            final(self).end == old(self).end,
    {
        if self.current < self.end {
            let result = self.current;
            self.current = self.current + 1;
            Some(result)
        } else {
            None
        }
    }

    /// Whether the numbers the range still yields add up within a `u32`.
    pub fn sum_fits(&self) -> (r: bool)
        ensures
            r == (range_total(self.current as nat, self.end as nat) <= u32::MAX),
    {
        if self.current >= self.end {
            return true;
        }
        let a = self.current as u128;
        let b = self.end as u128;
        proof {
            lemma_range_total_closed_form(a as nat, b as nat);
            assert((b - a) * (a + b - 1) <= 0x1_0000_0000 * 0x2_0000_0000) by (nonlinear_arith)
                requires
                    a < b <= 0xffff_ffff,
            ;
        }
        (b - a) * (a + b - 1) / 2 <= 0xffff_ffff
    }

    /// Adds up every number the range still yields.
    pub fn sum(self) -> (r: u32)
        requires
            range_total(self.current as nat, self.end as nat) <= u32::MAX,
        ensures
            r == range_total(self.current as nat, self.end as nat),
    {
        let mut range = self;
        let ghost total = range_total(self.current as nat, self.end as nat);
        let mut sum: u32 = 0;
        loop
            invariant
                sum + range_total(range.current as nat, range.end as nat) == total,
                total <= u32::MAX,
                total == range_total(self.current as nat, self.end as nat),
            decreases range.end - range.current,
        {
            match range.next() {
                Some(n) => {
                    sum = sum + n;
                },
                None => {
                    return sum;
                },
            }
        }
    }
}

} // verus!
