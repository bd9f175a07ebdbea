use vstd::prelude::*;
use vstd::string::StringSliceAdditionalSpecFns;
use crate::text::{lines, views, all_digits, is_digit, split_lines};

verus! {

/// The index of the first largest byte of `s[lo .. hi]`.
pub open spec fn first_max(s: Seq<u8>, lo: int, hi: int) -> int
    decreases hi - lo,
{
    if hi - lo <= 1 {
        lo
    } else {
        let j = first_max(s, lo + 1, hi);
        if s[lo] >= s[j] { lo } else { j }
    }
}

/// Picks `k` more digits of `s` from `start` on: each time the first largest
/// digit that still leaves room for the remaining picks, appended to `acc`.
pub open spec fn bank_value(s: Seq<u8>, k: nat, start: int, acc: int) -> int
    decreases k,
{
    if k == 0 {
        acc
    } else {
        let idx = first_max(s, start, s.len() - (k - 1));
        bank_value(s, (k - 1) as nat, idx + 1, acc * 10 + (s[idx] - 48))
    }
}

/// The joltage of one bank of digits, if the line is a run of at least `k`
/// digits.
pub open spec fn line_joltage(line: Seq<u8>, k: nat) -> Option<int> {
    if all_digits(line) && line.len() >= k {
        Some(bank_value(line, k, 0, 0))
    } else {
        None
    }
}

/// The joltages of all banks added up, if every line is a bank.
pub open spec fn joltage_total(ls: Seq<Seq<u8>>, k: nat) -> Option<int>
    decreases ls.len(),
{
    if ls.len() == 0 {
        Some(0)
    } else {
        match (joltage_total(ls.drop_last(), k), line_joltage(ls.last(), k)) {
            (Some(a), Some(b)) => Some(a + b),
            _ => None,
        }
    }
}

proof fn lemma_first_max_range(s: Seq<u8>, lo: int, hi: int)
    requires
        lo < hi,
    ensures
        lo <= first_max(s, lo, hi) < hi,
    decreases hi - lo,
{
    if hi - lo > 1 {
        lemma_first_max_range(s, lo + 1, hi);
    }
}

proof fn lemma_bank_value_grows(s: Seq<u8>, k: nat, start: int, acc: int)
    requires
        all_digits(s),
        acc >= 0,
        0 <= start,
        start + k <= s.len(),
    ensures
        bank_value(s, k, start, acc) >= acc,
    decreases k,
{
    if k > 0 {
        let idx = first_max(s, start, s.len() - (k - 1));
        lemma_first_max_range(s, start, s.len() - (k - 1));
        assert(is_digit(s[idx]));
        lemma_bank_value_grows(s, (k - 1) as nat, idx + 1, acc * 10 + (s[idx] - 48));
    }
}

/// The joltage of one bank, or `None` when the line is not a run of at
/// least `k` digits or the joltage exceeds `u64`.
pub fn bank_joltage(line: &[u8], k: usize) -> (r: Option<u64>)
    ensures
        line_joltage(line@, k as nat) is Some ==> line_joltage(line@, k as nat).unwrap() >= 0,
        line_joltage(line@, k as nat) is None ==> r is None,
        line_joltage(line@, k as nat) is Some && line_joltage(line@, k as nat).unwrap() <= u64::MAX ==> r == Some(
            line_joltage(line@, k as nat).unwrap() as u64,
        ),
        line_joltage(line@, k as nat) is Some && line_joltage(line@, k as nat).unwrap() > u64::MAX ==> r is None,
{
    let n = line.len();
    if n < k {
        return None;
    }
    proof {
        if all_digits(line@) {
            lemma_bank_value_grows(line@, k as nat, 0, 0);
        }
    }
    let mut t: usize = 0;
    while t < n
        invariant
            t <= n == line@.len(),
            forall|u: int| 0 <= u < t ==> is_digit(#[trigger] line@[u]),
        decreases n - t,
    {
        if line[t] < 48 || line[t] > 57 {
            return None;
        }
        t = t + 1;
    }
    let ghost s = line@;
    let mut sol: u64 = 0;
    let mut start: usize = 0;
    let mut i: usize = k;
    proof { lemma_bank_value_grows(s, k as nat, 0, 0); }
    while i > 0
        invariant
            n == s.len(),
            s == line@,
            all_digits(s),
            i <= k <= n,
            start + i <= n,
            bank_value(s, i as nat, start as int, sol as int) == bank_value(s, k as nat, 0, 0),
        decreases i,
    {
        let hi: usize = n - (i - 1);
        let mut best: usize = hi - 1;
        let mut j: usize = hi - 1;
        while j > start
            invariant
                start < hi <= n,
                n == line@.len(),
                start <= j <= best < hi,
                s == line@,
                best == first_max(s, j as int, hi as int),
            decreases j,
        {
            if line[j - 1] >= line[best] {
                best = j - 1;
            }
            j = j - 1;
        }
        proof {
            lemma_first_max_range(s, start as int, hi as int);
            assert(is_digit(s[best as int]));
            lemma_bank_value_grows(s, (i - 1) as nat, best + 1, sol * 10 + (s[best as int] - 48));
        }
        let d: u64 = (line[best] - 48) as u64;
        match sol.checked_mul(10) {
            Some(m) => match m.checked_add(d) {
                Some(v) => {
                    sol = v;
                },
                None => {
                    return None;
                },
            },
            None => {
                return None;
            },
        }
        start = best + 1;
        i = i - 1;
    }
    Some(sol)
}

proof fn lemma_total_prefix(ls: Seq<Seq<u8>>, k: nat, i: int)
    requires
        0 <= i <= ls.len(),
        joltage_total(ls, k) is Some,
    ensures
        joltage_total(ls.take(i), k) is Some,
        joltage_total(ls.take(i), k).unwrap() <= joltage_total(ls, k).unwrap(),
        forall|t: int| 0 <= t < ls.len() ==> (#[trigger] line_joltage(ls[t], k)) is Some,
    decreases ls.len(),
{
    if ls.len() > 0 {
        let d = ls.drop_last();
        if i == ls.len() {
            lemma_total_prefix(d, k, 0);
            assert(ls.take(i) =~= ls);
        } else {
            lemma_total_prefix(d, k, i);
            assert(d.take(i) =~= ls.take(i));
        }
        let b = line_joltage(ls.last(), k).unwrap();
        assert(b >= 0) by {
            lemma_bank_value_grows(ls.last(), k, 0, 0);
        }
        assert forall|t: int| 0 <= t < ls.len() implies (#[trigger] line_joltage(ls[t], k)) is Some by {
            if t < ls.len() - 1 {
                assert(d[t] == ls[t]);
            }
        }
    } else {
        assert(ls.take(i) =~= ls);
    }
}

/// The total joltage of the banks in `input`, one per line, each using
/// `joltage_nums` batteries; `None` when a line is not a bank or the total
/// exceeds `u64`.
pub fn solve_joltage(input: &str, joltage_nums: usize) -> (r: Option<u64>)
    ensures
        joltage_total(lines(input.spec_bytes()), joltage_nums as nat) is None ==> r is None,
        joltage_total(lines(input.spec_bytes()), joltage_nums as nat) is Some ==> {
            let t = joltage_total(lines(input.spec_bytes()), joltage_nums as nat).unwrap();
            &&& t <= u64::MAX ==> r == Some(t as u64)
            &&& t > u64::MAX ==> r is None
        },
{
    let ls = split_lines(input.as_bytes());
    let ghost lv = lines(input.spec_bytes());
    let ghost k = joltage_nums as nat;
    let mut total: u64 = 0;
    let mut i: usize = 0;
    assert(views(ls@).len() == ls@.len());
    assert(lv.take(0) =~= Seq::<Seq<u8>>::empty());
    while i < ls.len()
        invariant
            views(ls@) == lv,
            lv == lines(input.spec_bytes()),
            ls@.len() == lv.len(),
            i <= lv.len(),
            k == joltage_nums,
            joltage_total(lv.take(i as int), k) == Some(total as int),
        decreases lv.len() - i,
    {
        assert(ls@[i as int]@ == lv[i as int]);
        proof {
            assert(lv.take(i + 1).drop_last() =~= lv.take(i as int));
            assert(lv.take(i + 1).last() == lv[i as int]);
            if joltage_total(lv, k) is Some {
                lemma_total_prefix(lv, k, i + 1);
            }
        }
        let bank = bank_joltage(ls[i].as_slice(), joltage_nums);
        match bank {
            Some(v) => match total.checked_add(v) {
                Some(t) => {
                    assert(line_joltage(lv[i as int], k) == Some(v as int));
                    total = t;
                },
                None => {
                    assert(line_joltage(lv[i as int], k) == Some(v as int));
                    return None;
                },
            },
            None => {
                proof {
                    if joltage_total(lv, k) is Some {
                        let b = line_joltage(lv[i as int], k).unwrap();
                        assert(b >= 0) by {
                            lemma_bank_value_grows(lv[i as int], k, 0, 0);
                        }
                    }
                }
                return None;
            },
        }
        i = i + 1;
    }
    proof { assert(lv.take(i as int) =~= lv); }
    Some(total)
}

/// The total joltage with two batteries per bank.
pub fn part_one(input: &str) -> (r: Option<u64>)
    ensures
        r == solve_joltage_spec(input.spec_bytes(), 2),
{
    solve_joltage(input, 2)
}

/// The total joltage with twelve batteries per bank.
pub fn part_two(input: &str) -> (r: Option<u64>)
    ensures
        r == solve_joltage_spec(input.spec_bytes(), 12),
{
    solve_joltage(input, 12)
}

/// What `solve_joltage` returns.
pub open spec fn solve_joltage_spec(s: Seq<u8>, k: nat) -> Option<u64> {
    match joltage_total(lines(s), k) {
        Some(t) => if t <= u64::MAX { Some(t as u64) } else { None },
        None => None,
    }
}

} // verus!
