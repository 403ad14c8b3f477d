//! Exclusive prefix sums on the host.
use vstd::prelude::*;

verus! {

/// Sum of the first `i` numbers.
pub open spec fn sum_before(s: Seq<u32>, i: int) -> int
    decreases i,
{
    if i <= 0 { 0 } else { sum_before(s, i - 1) + s[i - 1] }
}

/// Sums of prefixes grow with the prefix.
pub proof fn lemma_sum_before_monotone(s: Seq<u32>, i: int, j: int)
    requires
        0 <= i <= j <= s.len(),
    ensures
        0 <= sum_before(s, i) <= sum_before(s, j),
    decreases j,
{
    if j > i {
        lemma_sum_before_monotone(s, i, j - 1);
    } else if i > 0 {
        lemma_sum_before_monotone(s, 0, i - 1);
    }
}

/// For each position, the sum of the numbers before it.
pub fn prefix_sum_on_cpu(numbers: &[u32]) -> (r: Vec<u32>)
    requires
        sum_before(numbers@, numbers@.len() as int) <= u32::MAX,
    ensures
        r.len() == numbers@.len(),
        forall|i: int| 0 <= i < r.len() ==> #[trigger] r[i] == sum_before(numbers@, i),
{
    let n = numbers.len();
    let mut out: Vec<u32> = Vec::new();
    let mut acc: u32 = 0;
    for i in 0..n
        invariant
            n == numbers@.len(),
            sum_before(numbers@, n as int) <= u32::MAX,
            out.len() == i,
            acc == sum_before(numbers@, i as int),
            forall|j: int| 0 <= j < i ==> #[trigger] out[j] == sum_before(numbers@, j),
    {
        out.push(acc);
        proof {
            lemma_sum_before_monotone(numbers@, i + 1, n as int);
        }
        acc = acc + numbers[i];
    }
    out
}

} // verus!
