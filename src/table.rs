use crate::machine::Op;
use std::collections::VecDeque;
use vstd::prelude::*;

verus! {

/// How many values of `s` lie below `v`.
pub open spec fn count_below(s: Seq<i32>, v: i32) -> nat
    decreases s.len(),
{
    if s.len() == 0 {
        0
    } else {
        count_below(s.drop_last(), v) + if s.last() < v {
            1nat
        } else {
            0nat
        }
    }
}

/// The rank pattern of `s`, shifted so that the first position has rank 0:
/// position `i` holds `(rank(i) + n - rank(0)) mod n`, where `rank(i)` counts
/// the values below `s[i]`.
pub open spec fn pattern(s: Seq<i32>) -> Seq<int> {
    Seq::new(
        s.len(),
        |i: int|
            (count_below(s, s[i]) + (s.len() - count_below(s, s[0]))) % (s.len() as int),
    )
}

/// A pattern read as a decimal numeral, first position most significant.
pub open spec fn numeral(p: Seq<int>) -> int
    decreases p.len(),
{
    if p.len() == 0 {
        0
    } else {
        numeral(p.drop_last()) * 10 + p.last()
    }
}

/// Ten to the power `k`.
pub open spec fn pow10(k: nat) -> nat
    decreases k,
{
    if k == 0 {
        1
    } else {
        10 * pow10((k - 1) as nat)
    }
}

/// The stored solution for the pattern whose numeral is `c` (its leading 0 dropped).
pub open spec fn entry_for_numeral(c: int) -> Seq<Op> {
    if c == 1243 || c == 132 {
        seq![Op::Rra, Op::Rra, Op::Sa]
    } else if c == 1324 {
        seq![Op::Ra, Op::Ra, Op::Sa]
    } else if c == 1342 {
        seq![Op::Rra, Op::Sa, Op::Ra, Op::Sa]
    } else if c == 1423 {
        seq![Op::Ra, Op::Sa, Op::Rra, Op::Sa]
    } else if c == 1432 {
        seq![Op::Rra, Op::Rra, Op::Sa, Op::Rra, Op::Sa, Op::Ra, Op::Sa]
    } else if c == 2134 || c == 213 {
        seq![Op::Ra, Op::Sa]
    } else if c == 2143 {
        seq![Op::Ra, Op::Sa, Op::Ra, Op::Ra, Op::Sa]
    } else if c == 2314 {
        seq![Op::Ra, Op::Ra, Op::Sa, Op::Rra, Op::Sa]
    } else if c == 2341 || c == 231 {
        seq![Op::Rra, Op::Sa]
    } else if c == 2413 {
        seq![Op::Sa, Op::Ra, Op::Sa, Op::Rra, Op::Rra, Op::Sa]
    } else if c == 2431 {
        seq![Op::Rra, Op::Sa, Op::Rra, Op::Rra, Op::Sa]
    } else if c == 3124 {
        seq![Op::Sa, Op::Rra, Op::Sa]
    } else if c == 3142 {
        seq![Op::Sa, Op::Rra, Op::Rra, Op::Sa, Op::Ra, Op::Sa]
    } else if c == 3214 {
        seq![Op::Sa, Op::Rra, Op::Sa, Op::Rra, Op::Rra, Op::Sa]
    } else if c == 3241 {
        seq![Op::Ra, Op::Sa, Op::Rra, Op::Rra, Op::Sa]
    } else if c == 3412 {
        seq![Op::Sa, Op::Ra, Op::Sa]
    } else if c == 3421 {
        seq![Op::Rra, Op::Sa, Op::Rra, Op::Sa, Op::Ra, Op::Sa]
    } else if c == 4123 || c == 312 || c == 21 {
        seq![Op::Sa]
    } else if c == 4132 || c == 321 {
        seq![Op::Sa, Op::Rra, Op::Rra, Op::Sa]
    } else if c == 4213 {
        seq![Op::Sa, Op::Ra, Op::Ra, Op::Sa]
    } else if c == 4231 {
        seq![Op::Sa, Op::Rra, Op::Sa, Op::Ra, Op::Sa]
    } else if c == 4312 {
        seq![Op::Sa, Op::Ra, Op::Sa, Op::Rra, Op::Sa]
    } else if c == 4321 {
        seq![Op::Sa, Op::Ra, Op::Ra, Op::Sa, Op::Ra, Op::Sa, Op::Rra, Op::Sa]
    } else {
        seq![]
    }
}

/// The small-case table: for a shifted rank pattern of length 2 to 5, the
/// instructions (`sa`, `ra`, `rra` only) that bring A into ascending cyclic order.
pub open spec fn table_entry(p: Seq<int>) -> Seq<Op> {
    if 2 <= p.len() <= 5 {
        entry_for_numeral(numeral(p))
    } else {
        seq![]
    }
}

/// At most all values lie below `v`, and fewer when `v` itself is one of them.
pub proof fn lemma_count_below_bound(s: Seq<i32>, v: i32)
    ensures
        count_below(s, v) <= s.len(),
        s.contains(v) ==> count_below(s, v) < s.len(),
    decreases s.len(),
{
    if s.len() > 0 {
        lemma_count_below_bound(s.drop_last(), v);
        if s.contains(v) && s.last() != v {
            let k = choose|k: int| 0 <= k < s.len() && s[k] == v;
            assert(s.drop_last()[k] == v);
        }
    }
}

proof fn lemma_pow10_small(k: nat)
    requires
        k <= 5,
    ensures
        pow10(k) <= 100000,
{
    reveal_with_fuel(pow10, 6);
}

/// Counts the values of `s` below `v`.
fn count_less(s: &VecDeque<i32>, v: i32) -> (r: usize)
    ensures
        r == count_below(s@, v),
{
    let n = s.len();
    let mut i: usize = 0;
    let mut c: usize = 0;
    while i < n
        invariant
            n == s@.len(),
            i <= n,
            c == count_below(s@.take(i as int), v),
            c <= i,
        decreases n - i,
    {
        assert(s@.take(i as int + 1).drop_last() =~= s@.take(i as int));
        if s[i] < v {
            c = c + 1;
        }
        i = i + 1;
    }
    assert(s@.take(n as int) =~= s@);
    c
}

/// The shifted rank pattern of a stack.
pub fn get_order(stack: &VecDeque<i32>) -> (r: Vec<usize>)
    ensures
        r@.len() == stack@.len(),
        forall|i: int| 0 <= i < r@.len() ==> r@[i] as int == #[trigger] pattern(stack@)[i],
{
    let n = stack.len();
    let mut r: Vec<usize> = Vec::new();
    if n == 0 {
        return r;
    }
    proof {
        lemma_count_below_bound(stack@, stack@[0]);
    }
    let first = count_less(stack, stack[0]);
    let mut i: usize = 0;
    while i < n
        invariant
            n == stack@.len(),
            n > 0,
            first == count_below(stack@, stack@[0]),
            first < n,
            i <= n,
            r@.len() == i,
            forall|k: int| 0 <= k < i ==> r@[k] as int == #[trigger] pattern(stack@)[k],
        decreases n - i,
    {
        proof {
            lemma_count_below_bound(stack@, stack@[i as int]);
            assert(stack@.contains(stack@[i as int]));
        }
        let c = count_less(stack, stack[i]);
        let v = if c >= first {
            c - first
        } else {
            c + (n - first)
        };
        assert(v as int == (c + (n - first)) % (n as int)) by {
            if c >= first {
                vstd::arithmetic::div_mod::lemma_mod_add_multiples_vanish(c - first, n as int);
                vstd::arithmetic::div_mod::lemma_small_mod((c - first) as nat, n as nat);
            } else {
                vstd::arithmetic::div_mod::lemma_small_mod(v as nat, n as nat);
            }
        }
        r.push(v);
        i = i + 1;
    }
    r
}

/// The shifted rank pattern of a short stack read as a decimal numeral.
fn pattern_numeral(p: &Vec<usize>) -> (r: u64)
    requires
        p@.len() <= 5,
        forall|i: int| 0 <= i < p@.len() ==> p@[i] < 10,
    ensures
        r == numeral(p@.map_values(|x: usize| x as int)),
{
    let ghost q = p@.map_values(|x: usize| x as int);
    let mut acc: u64 = 0;
    let mut k: usize = 0;
    while k < p.len()
        invariant
            p@.len() <= 5,
            forall|i: int| 0 <= i < p@.len() ==> p@[i] < 10,
            q == p@.map_values(|x: usize| x as int),
            k <= p@.len(),
            acc == numeral(q.take(k as int)),
            acc < pow10(k as nat),
        decreases p@.len() - k,
    {
        proof {
            lemma_pow10_small(k as nat);
            assert(q.take(k as int + 1).drop_last() =~= q.take(k as int));
        }
        acc = acc * 10 + p[k] as u64;
        k = k + 1;
    }
    assert(q.take(k as int) =~= q);
    acc
}

/// The instructions stored for the pattern numeral `c`.
fn entry_for(c: u64) -> (r: Vec<Op>)
    ensures
        r@ == entry_for_numeral(c as int),
{
    let r = if c == 1243 || c == 132 {
        vec![Op::Rra, Op::Rra, Op::Sa]
    } else if c == 1324 {
        vec![Op::Ra, Op::Ra, Op::Sa]
    } else if c == 1342 {
        vec![Op::Rra, Op::Sa, Op::Ra, Op::Sa]
    } else if c == 1423 {
        vec![Op::Ra, Op::Sa, Op::Rra, Op::Sa]
    } else if c == 1432 {
        vec![Op::Rra, Op::Rra, Op::Sa, Op::Rra, Op::Sa, Op::Ra, Op::Sa]
    } else if c == 2134 || c == 213 {
        vec![Op::Ra, Op::Sa]
    } else if c == 2143 {
        vec![Op::Ra, Op::Sa, Op::Ra, Op::Ra, Op::Sa]
    } else if c == 2314 {
        vec![Op::Ra, Op::Ra, Op::Sa, Op::Rra, Op::Sa]
    } else if c == 2341 || c == 231 {
        vec![Op::Rra, Op::Sa]
    } else if c == 2413 {
        vec![Op::Sa, Op::Ra, Op::Sa, Op::Rra, Op::Rra, Op::Sa]
    } else if c == 2431 {
        vec![Op::Rra, Op::Sa, Op::Rra, Op::Rra, Op::Sa]
    } else if c == 3124 {
        vec![Op::Sa, Op::Rra, Op::Sa]
    } else if c == 3142 {
        vec![Op::Sa, Op::Rra, Op::Rra, Op::Sa, Op::Ra, Op::Sa]
    } else if c == 3214 {
        vec![Op::Sa, Op::Rra, Op::Sa, Op::Rra, Op::Rra, Op::Sa]
    } else if c == 3241 {
        vec![Op::Ra, Op::Sa, Op::Rra, Op::Rra, Op::Sa]
    } else if c == 3412 {
        vec![Op::Sa, Op::Ra, Op::Sa]
    } else if c == 3421 {
        vec![Op::Rra, Op::Sa, Op::Rra, Op::Sa, Op::Ra, Op::Sa]
    } else if c == 4123 || c == 312 || c == 21 {
        vec![Op::Sa]
    } else if c == 4132 || c == 321 {
        vec![Op::Sa, Op::Rra, Op::Rra, Op::Sa]
    } else if c == 4213 {
        vec![Op::Sa, Op::Ra, Op::Ra, Op::Sa]
    } else if c == 4231 {
        vec![Op::Sa, Op::Rra, Op::Sa, Op::Ra, Op::Sa]
    } else if c == 4312 {
        vec![Op::Sa, Op::Ra, Op::Sa, Op::Rra, Op::Sa]
    } else if c == 4321 {
        vec![Op::Sa, Op::Ra, Op::Ra, Op::Sa, Op::Ra, Op::Sa, Op::Rra, Op::Sa]
    } else {
        vec![]
    };
    r
}

/// The table's instructions for the stack `a`: empty unless A holds 2 to 5 values.
pub fn small_case_ops(a: &VecDeque<i32>) -> (r: Vec<Op>)
    ensures
        r@ == table_entry(pattern(a@)),
{
    let n = a.len();
    if n < 2 || n > 5 {
        return Vec::new();
    }
    let p = get_order(a);
    let ghost q = p@.map_values(|x: usize| x as int);
    assert(q =~= pattern(a@)) by {
        assert forall|i: int| 0 <= i < q.len() implies q[i] == pattern(a@)[i] by {
            assert(p@[i] as int == pattern(a@)[i]);
        }
    }
    assert forall|i: int| 0 <= i < p@.len() implies p@[i] < 10 by {
        assert(p@[i] as int == pattern(a@)[i]);
    }
    let c = pattern_numeral(&p);
    entry_for(c)
}

} // verus!
