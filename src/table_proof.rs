use crate::cost::{key, Direction};
use crate::machine::{push_onto, rot_down, run, swap_top, valid_run, Op, Pair};
use crate::order::{contents, cyc_sorted, lemma_rot_up_contents, split_sorted};
use crate::table::{
    count_below, entry_for_numeral, lemma_count_below_bound, numeral, pattern, table_entry,
};
use vstd::arithmetic::div_mod::{lemma_mod_add_multiples_vanish, lemma_small_mod};
use vstd::multiset::Multiset;
use vstd::prelude::*;
use vstd::seq_lib::lemma_multiset_commutative;

verus! {

/// `x + k` taken back into `0..n`, for `x` and `k` in `0..n`.
pub open spec fn shifted(x: int, k: int, n: int) -> int {
    if x + k < n {
        x + k
    } else {
        x + k - n
    }
}

/// Replaying one more instruction.
proof fn lemma_run_push(st: Pair, ops: Seq<Op>, op: Op)
    ensures
        run(st, ops.push(op)) == op.step(run(st, ops)),
{
    assert(ops.push(op).drop_last() =~= ops);
}

proof fn lemma_swap_contents(s: Seq<i32>)
    ensures
        swap_top(s).to_multiset() == s.to_multiset(),
{
    if s.len() >= 2 {
        assert(s =~= seq![s[0]] + (seq![s[1]] + s.skip(2)));
        assert(swap_top(s) =~= seq![s[1]] + (seq![s[0]] + s.skip(2)));
        lemma_multiset_commutative(seq![s[0]], seq![s[1]] + s.skip(2));
        lemma_multiset_commutative(seq![s[1]], s.skip(2));
        lemma_multiset_commutative(seq![s[1]], seq![s[0]] + s.skip(2));
        lemma_multiset_commutative(seq![s[0]], s.skip(2));
    }
}

proof fn lemma_rot_down_contents(s: Seq<i32>)
    ensures
        rot_down(s).to_multiset() == s.to_multiset(),
{
    if s.len() > 0 {
        assert(s =~= s.drop_last() + seq![s.last()]);
        lemma_multiset_commutative(s.drop_last(), seq![s.last()]);
        lemma_multiset_commutative(seq![s.last()], s.drop_last());
    }
}

proof fn lemma_push_contents(from: Seq<i32>, to: Seq<i32>)
    ensures
        push_onto(from, to).0.to_multiset().add(push_onto(from, to).1.to_multiset())
            == from.to_multiset().add(to.to_multiset()),
{
    if from.len() > 0 {
        assert(from =~= seq![from[0]] + from.skip(1));
        lemma_multiset_commutative(seq![from[0]], from.skip(1));
        lemma_multiset_commutative(seq![from[0]], to);
        assert(push_onto(from, to).0.to_multiset().add(push_onto(from, to).1.to_multiset())
            =~= from.to_multiset().add(to.to_multiset()));
    }
}

/// No instruction creates or loses a value.
pub proof fn lemma_step_contents(st: Pair, op: Op)
    ensures
        contents(op.step(st)) == contents(st),
{
    broadcast use vstd::multiset::group_multiset_axioms;

    let (a, b) = st;
    lemma_swap_contents(a);
    lemma_swap_contents(b);
    lemma_rot_up_contents(a);
    lemma_rot_up_contents(b);
    lemma_rot_down_contents(a);
    lemma_rot_down_contents(b);
    lemma_push_contents(a, b);
    lemma_push_contents(b, a);
    if op == Op::Pa {
        let (nb, na) = push_onto(b, a);
        let (x, y) = (na.to_multiset(), nb.to_multiset());
        assert forall|v: i32| x.add(y).count(v) == y.add(x).count(v) by {
            vstd::multiset::axiom_multiset_add(x, y, v);
            vstd::multiset::axiom_multiset_add(y, x, v);
        }
        assert(x.add(y) =~= y.add(x));
        let (a0, b0) = (a.to_multiset(), b.to_multiset());
        assert forall|v: i32| a0.add(b0).count(v) == b0.add(a0).count(v) by {
            vstd::multiset::axiom_multiset_add(a0, b0, v);
            vstd::multiset::axiom_multiset_add(b0, a0, v);
        }
        assert(a0.add(b0) =~= b0.add(a0));
    }
}

/// Replaying instructions keeps the values on the two stacks.
pub proof fn lemma_run_contents(st: Pair, ops: Seq<Op>)
    ensures
        contents(run(st, ops)) == contents(st),
    decreases ops.len(),
{
    if ops.len() > 0 {
        lemma_run_contents(st, ops.drop_last());
        lemma_step_contents(run(st, ops.drop_last()), ops.last());
    }
}

/// Counting the values below grows with the bound, strictly across a value of `s`.
proof fn lemma_count_mono(s: Seq<i32>, v: i32, w: i32)
    requires
        v < w,
    ensures
        count_below(s, v) <= count_below(s, w),
        s.contains(v) ==> count_below(s, v) < count_below(s, w),
    decreases s.len(),
{
    if s.len() > 0 {
        lemma_count_mono(s.drop_last(), v, w);
        if s.contains(v) && s.last() != v {
            let k = choose|k: int| 0 <= k < s.len() && s[k] == v;
            assert(s.drop_last()[k] == v);
        }
    }
}

proof fn lemma_numeral_2(q: Seq<int>)
    requires
        q.len() == 2,
    ensures
        numeral(q) == q[0] * 10 + q[1],
{
    let q1 = q.drop_last();
    let q0 = q1.drop_last();
    assert(numeral(q0) == 0);
    assert(numeral(q1) == numeral(q0) * 10 + q1.last());
    assert(numeral(q) == numeral(q1) * 10 + q.last());
}

proof fn lemma_numeral_3(q: Seq<int>)
    requires
        q.len() == 3,
    ensures
        numeral(q) == q[0] * 100 + q[1] * 10 + q[2],
{
    lemma_numeral_2(q.drop_last());
    assert(numeral(q) == numeral(q.drop_last()) * 10 + q.last());
}

proof fn lemma_numeral_4(q: Seq<int>)
    requires
        q.len() == 4,
    ensures
        numeral(q) == q[0] * 1000 + q[1] * 100 + q[2] * 10 + q[3],
{
    lemma_numeral_3(q.drop_last());
    assert(numeral(q) == numeral(q.drop_last()) * 10 + q.last());
}

proof fn lemma_numeral_5(q: Seq<int>)
    requires
        q.len() == 5,
    ensures
        numeral(q) == q[0] * 10000 + q[1] * 1000 + q[2] * 100 + q[3] * 10 + q[4],
{
    lemma_numeral_4(q.drop_last());
    assert(numeral(q) == numeral(q.drop_last()) * 10 + q.last());
}

/// The same multiset added to both sides cancels.
proof fn lemma_add_cancel(x: Multiset<i32>, y: Multiset<i32>, z: Multiset<i32>)
    requires
        x.add(z) == y.add(z),
    ensures
        x == y,
{
    broadcast use vstd::multiset::group_multiset_axioms;

    assert forall|v: i32| x.count(v) == y.count(v) by {
        vstd::multiset::axiom_multiset_add(x, z, v);
        vstd::multiset::axiom_multiset_add(y, z, v);
    }
    assert(x =~= y);
}

/// Along `s`, each key is below the next, except across position `m`.
proof fn lemma_chain_le(s: Seq<i32>, m: int, p: int, q: int)
    requires
        0 <= p <= q < s.len(),
        forall|t: int|
            0 <= t < s.len() - 1 && t + 1 != m ==> #[trigger] s[t] < s[t + 1],
        m <= p || q < m,
    ensures
        p < q ==> s[p] < s[q],
    decreases q - p,
{
    if p < q {
        lemma_chain_le(s, m, p, q - 1);
        assert(s[q - 1] < s[q]);
    }
}

/// Ascending along the sequence except across `m`, and wrapping round from the last
/// value to the first when `m` is inside: split-sorted at `m`.
proof fn lemma_chain(s: Seq<i32>, m: int)
    requires
        0 <= m <= s.len(),
        forall|t: int|
            0 <= t < s.len() - 1 && t + 1 != m ==> #[trigger] s[t] < s[t + 1],
        0 < m < s.len() ==> s[s.len() - 1] < s[0],
    ensures
        split_sorted(s, m, Direction::Ba),
{
    let n = s.len() as int;
    assert forall|p: int, q: int|
        0 <= p < q < n && (q < m || m <= p) implies key(#[trigger] s[p], Direction::Ba) < key(
        #[trigger] s[q],
        Direction::Ba,
    ) by {
        lemma_chain_le(s, m, p, q);
    }
    assert forall|p: int, q: int| 0 <= p < m <= q < n implies key(
        #[trigger] s[p],
        Direction::Ba,
    ) > key(#[trigger] s[q], Direction::Ba) by {
        lemma_chain_le(s, m, q, n - 1);
        lemma_chain_le(s, m, 0, p);
    }
}

/// The chain condition for a sequence of 2 values, checked pair by pair.
proof fn lemma_chain_2(s: Seq<i32>, m: int)
    requires
        s.len() == 2,
        0 <= m <= 2,
        m != 1 ==> s[0] < s[1],
        0 < m < 2 ==> s[1] < s[0],
    ensures
        split_sorted(s, m, Direction::Ba),
{
    assert forall|t: int| 0 <= t < 1 && t + 1 != m implies #[trigger] s[t] < s[t + 1] by {
        if t == 0 {
        }
    }
    lemma_chain(s, m);
}

/// The chain condition for a sequence of 3 values, checked pair by pair.
proof fn lemma_chain_3(s: Seq<i32>, m: int)
    requires
        s.len() == 3,
        0 <= m <= 3,
        m != 1 ==> s[0] < s[1],
        m != 2 ==> s[1] < s[2],
        0 < m < 3 ==> s[2] < s[0],
    ensures
        split_sorted(s, m, Direction::Ba),
{
    assert forall|t: int| 0 <= t < 2 && t + 1 != m implies #[trigger] s[t] < s[t + 1] by {
        if t == 0 {
        } else if t == 1 {
        }
    }
    lemma_chain(s, m);
}

/// The chain condition for a sequence of 4 values, checked pair by pair.
proof fn lemma_chain_4(s: Seq<i32>, m: int)
    requires
        s.len() == 4,
        0 <= m <= 4,
        m != 1 ==> s[0] < s[1],
        m != 2 ==> s[1] < s[2],
        m != 3 ==> s[2] < s[3],
        0 < m < 4 ==> s[3] < s[0],
    ensures
        split_sorted(s, m, Direction::Ba),
{
    assert forall|t: int| 0 <= t < 3 && t + 1 != m implies #[trigger] s[t] < s[t + 1] by {
        if t == 0 {
        } else if t == 1 {
        } else if t == 2 {
        }
    }
    lemma_chain(s, m);
}

/// The chain condition for a sequence of 5 values, checked pair by pair.
proof fn lemma_chain_5(s: Seq<i32>, m: int)
    requires
        s.len() == 5,
        0 <= m <= 5,
        m != 1 ==> s[0] < s[1],
        m != 2 ==> s[1] < s[2],
        m != 3 ==> s[2] < s[3],
        m != 4 ==> s[3] < s[4],
        0 < m < 5 ==> s[4] < s[0],
    ensures
        split_sorted(s, m, Direction::Ba),
{
    assert forall|t: int| 0 <= t < 4 && t + 1 != m implies #[trigger] s[t] < s[t + 1] by {
        if t == 0 {
        } else if t == 1 {
        } else if t == 2 {
        } else if t == 3 {
        }
    }
    lemma_chain(s, m);
}
/// Pattern 0 1: the stored instructions, the order of A they leave, and that
/// this order is ascending up to a rotation whatever the shift `k` of the ranks.
#[verifier::spinoff_prover]
#[verifier::rlimit(60)]
proof fn lemma_case_01(a: Seq<i32>, b: Seq<i32>, r: Seq<int>, k: int)
    requires
        a.len() == 2,
        r.len() == 2,
        0 <= k < 2,
        forall|i: int, j: int|
            0 <= i < 2 && 0 <= j < 2 ==> (#[trigger] a[i] < #[trigger] a[j] <==> r[i] < r[j]),
        r[0] == shifted(0, k, 2),
        r[1] == shifted(1, k, 2),
    ensures
        run((a, b), Seq::<Op>::empty()) == (seq![a[0], a[1]], b),
        cyc_sorted(seq![a[0], a[1]], Direction::Ba),
{
    let st = (a, b);
    let e0 = Seq::<Op>::empty();
    assert(run(st, e0) == st);
    assert(a =~= seq![a[0], a[1]]);
    assert(e0 =~= Seq::<Op>::empty());
    let s = seq![a[0], a[1]];
    if k == 0 {
        lemma_chain_2(s, 0);
    }
    if k == 1 {
        lemma_chain_2(s, 1);
    }
}

/// Pattern 0 1 2: the stored instructions, the order of A they leave, and that
/// this order is ascending up to a rotation whatever the shift `k` of the ranks.
#[verifier::spinoff_prover]
#[verifier::rlimit(60)]
proof fn lemma_case_012(a: Seq<i32>, b: Seq<i32>, r: Seq<int>, k: int)
    requires
        a.len() == 3,
        r.len() == 3,
        0 <= k < 3,
        forall|i: int, j: int|
            0 <= i < 3 && 0 <= j < 3 ==> (#[trigger] a[i] < #[trigger] a[j] <==> r[i] < r[j]),
        r[0] == shifted(0, k, 3),
        r[1] == shifted(1, k, 3),
        r[2] == shifted(2, k, 3),
    ensures
        run((a, b), Seq::<Op>::empty()) == (seq![a[0], a[1], a[2]], b),
        cyc_sorted(seq![a[0], a[1], a[2]], Direction::Ba),
{
    let st = (a, b);
    let e0 = Seq::<Op>::empty();
    assert(run(st, e0) == st);
    assert(a =~= seq![a[0], a[1], a[2]]);
    assert(e0 =~= Seq::<Op>::empty());
    let s = seq![a[0], a[1], a[2]];
    if k == 0 {
        lemma_chain_3(s, 0);
    }
    if k == 1 {
        lemma_chain_3(s, 2);
    }
    if k == 2 {
        lemma_chain_3(s, 1);
    }
}

/// Pattern 0 2 1: the stored instructions, the order of A they leave, and that
/// this order is ascending up to a rotation whatever the shift `k` of the ranks.
#[verifier::spinoff_prover]
#[verifier::rlimit(60)]
proof fn lemma_case_021(a: Seq<i32>, b: Seq<i32>, r: Seq<int>, k: int)
    requires
        a.len() == 3,
        r.len() == 3,
        0 <= k < 3,
        forall|i: int, j: int|
            0 <= i < 3 && 0 <= j < 3 ==> (#[trigger] a[i] < #[trigger] a[j] <==> r[i] < r[j]),
        r[0] == shifted(0, k, 3),
        r[1] == shifted(2, k, 3),
        r[2] == shifted(1, k, 3),
    ensures
        run((a, b), seq![Op::Sa]) == (seq![a[1], a[0], a[2]], b),
        cyc_sorted(seq![a[1], a[0], a[2]], Direction::Ba),
{
    let st = (a, b);
    let e0 = Seq::<Op>::empty();
    assert(run(st, e0) == st);
    assert(a =~= seq![a[0], a[1], a[2]]);
    let e1 = e0.push(Op::Sa);
    lemma_run_push(st, e0, Op::Sa);
    assert(run(st, e1).0 =~= seq![a[1], a[0], a[2]]);
    assert(e1 =~= seq![Op::Sa]);
    let s = seq![a[1], a[0], a[2]];
    if k == 0 {
        lemma_chain_3(s, 1);
    }
    if k == 1 {
        lemma_chain_3(s, 0);
    }
    if k == 2 {
        lemma_chain_3(s, 2);
    }
}

/// Pattern 0 1 2 3: the stored instructions, the order of A they leave, and that
/// this order is ascending up to a rotation whatever the shift `k` of the ranks.
#[verifier::spinoff_prover]
#[verifier::rlimit(60)]
proof fn lemma_case_0123(a: Seq<i32>, b: Seq<i32>, r: Seq<int>, k: int)
    requires
        a.len() == 4,
        r.len() == 4,
        0 <= k < 4,
        forall|i: int, j: int|
            0 <= i < 4 && 0 <= j < 4 ==> (#[trigger] a[i] < #[trigger] a[j] <==> r[i] < r[j]),
        r[0] == shifted(0, k, 4),
        r[1] == shifted(1, k, 4),
        r[2] == shifted(2, k, 4),
        r[3] == shifted(3, k, 4),
    ensures
        run((a, b), Seq::<Op>::empty()) == (seq![a[0], a[1], a[2], a[3]], b),
        cyc_sorted(seq![a[0], a[1], a[2], a[3]], Direction::Ba),
{
    let st = (a, b);
    let e0 = Seq::<Op>::empty();
    assert(run(st, e0) == st);
    assert(a =~= seq![a[0], a[1], a[2], a[3]]);
    assert(e0 =~= Seq::<Op>::empty());
    let s = seq![a[0], a[1], a[2], a[3]];
    if k == 0 {
        lemma_chain_4(s, 0);
    }
    if k == 1 {
        lemma_chain_4(s, 3);
    }
    if k == 2 {
        lemma_chain_4(s, 2);
    }
    if k == 3 {
        lemma_chain_4(s, 1);
    }
}

/// Pattern 0 1 3 2: the stored instructions, the order of A they leave, and that
/// this order is ascending up to a rotation whatever the shift `k` of the ranks.
#[verifier::spinoff_prover]
#[verifier::rlimit(60)]
proof fn lemma_case_0132(a: Seq<i32>, b: Seq<i32>, r: Seq<int>, k: int)
    requires
        a.len() == 4,
        r.len() == 4,
        0 <= k < 4,
        forall|i: int, j: int|
            0 <= i < 4 && 0 <= j < 4 ==> (#[trigger] a[i] < #[trigger] a[j] <==> r[i] < r[j]),
        r[0] == shifted(0, k, 4),
        r[1] == shifted(1, k, 4),
        r[2] == shifted(3, k, 4),
        r[3] == shifted(2, k, 4),
    ensures
        run((a, b), seq![Op::Rra, Op::Rra, Op::Sa]) == (seq![a[3], a[2], a[0], a[1]], b),
        cyc_sorted(seq![a[3], a[2], a[0], a[1]], Direction::Ba),
{
    let st = (a, b);
    let e0 = Seq::<Op>::empty();
    assert(run(st, e0) == st);
    assert(a =~= seq![a[0], a[1], a[2], a[3]]);
    let e1 = e0.push(Op::Rra);
    lemma_run_push(st, e0, Op::Rra);
    assert(run(st, e1).0 =~= seq![a[3], a[0], a[1], a[2]]);
    let e2 = e1.push(Op::Rra);
    lemma_run_push(st, e1, Op::Rra);
    assert(run(st, e2).0 =~= seq![a[2], a[3], a[0], a[1]]);
    let e3 = e2.push(Op::Sa);
    lemma_run_push(st, e2, Op::Sa);
    assert(run(st, e3).0 =~= seq![a[3], a[2], a[0], a[1]]);
    assert(e3 =~= seq![Op::Rra, Op::Rra, Op::Sa]);
    let s = seq![a[3], a[2], a[0], a[1]];
    if k == 0 {
        lemma_chain_4(s, 2);
    }
    if k == 1 {
        lemma_chain_4(s, 1);
    }
    if k == 2 {
        lemma_chain_4(s, 0);
    }
    if k == 3 {
        lemma_chain_4(s, 3);
    }
}

/// Pattern 0 2 1 3: the stored instructions, the order of A they leave, and that
/// this order is ascending up to a rotation whatever the shift `k` of the ranks.
#[verifier::spinoff_prover]
#[verifier::rlimit(60)]
proof fn lemma_case_0213(a: Seq<i32>, b: Seq<i32>, r: Seq<int>, k: int)
    requires
        a.len() == 4,
        r.len() == 4,
        0 <= k < 4,
        forall|i: int, j: int|
            0 <= i < 4 && 0 <= j < 4 ==> (#[trigger] a[i] < #[trigger] a[j] <==> r[i] < r[j]),
        r[0] == shifted(0, k, 4),
        r[1] == shifted(2, k, 4),
        r[2] == shifted(1, k, 4),
        r[3] == shifted(3, k, 4),
    ensures
        run((a, b), seq![Op::Ra, Op::Sa]) == (seq![a[2], a[1], a[3], a[0]], b),
        cyc_sorted(seq![a[2], a[1], a[3], a[0]], Direction::Ba),
{
    let st = (a, b);
    let e0 = Seq::<Op>::empty();
    assert(run(st, e0) == st);
    assert(a =~= seq![a[0], a[1], a[2], a[3]]);
    let e1 = e0.push(Op::Ra);
    lemma_run_push(st, e0, Op::Ra);
    assert(run(st, e1).0 =~= seq![a[1], a[2], a[3], a[0]]);
    let e2 = e1.push(Op::Sa);
    lemma_run_push(st, e1, Op::Sa);
    assert(run(st, e2).0 =~= seq![a[2], a[1], a[3], a[0]]);
    assert(e2 =~= seq![Op::Ra, Op::Sa]);
    let s = seq![a[2], a[1], a[3], a[0]];
    if k == 0 {
        lemma_chain_4(s, 3);
    }
    if k == 1 {
        lemma_chain_4(s, 2);
    }
    if k == 2 {
        lemma_chain_4(s, 1);
    }
    if k == 3 {
        lemma_chain_4(s, 0);
    }
}

/// Pattern 0 2 3 1: the stored instructions, the order of A they leave, and that
/// this order is ascending up to a rotation whatever the shift `k` of the ranks.
#[verifier::spinoff_prover]
#[verifier::rlimit(60)]
proof fn lemma_case_0231(a: Seq<i32>, b: Seq<i32>, r: Seq<int>, k: int)
    requires
        a.len() == 4,
        r.len() == 4,
        0 <= k < 4,
        forall|i: int, j: int|
            0 <= i < 4 && 0 <= j < 4 ==> (#[trigger] a[i] < #[trigger] a[j] <==> r[i] < r[j]),
        r[0] == shifted(0, k, 4),
        r[1] == shifted(2, k, 4),
        r[2] == shifted(3, k, 4),
        r[3] == shifted(1, k, 4),
    ensures
        run((a, b), seq![Op::Rra, Op::Sa]) == (seq![a[0], a[3], a[1], a[2]], b),
        cyc_sorted(seq![a[0], a[3], a[1], a[2]], Direction::Ba),
{
    let st = (a, b);
    let e0 = Seq::<Op>::empty();
    assert(run(st, e0) == st);
    assert(a =~= seq![a[0], a[1], a[2], a[3]]);
    let e1 = e0.push(Op::Rra);
    lemma_run_push(st, e0, Op::Rra);
    assert(run(st, e1).0 =~= seq![a[3], a[0], a[1], a[2]]);
    let e2 = e1.push(Op::Sa);
    lemma_run_push(st, e1, Op::Sa);
    assert(run(st, e2).0 =~= seq![a[0], a[3], a[1], a[2]]);
    assert(e2 =~= seq![Op::Rra, Op::Sa]);
    let s = seq![a[0], a[3], a[1], a[2]];
    if k == 0 {
        lemma_chain_4(s, 0);
    }
    if k == 1 {
        lemma_chain_4(s, 3);
    }
    if k == 2 {
        lemma_chain_4(s, 2);
    }
    if k == 3 {
        lemma_chain_4(s, 1);
    }
}

/// Pattern 0 3 1 2: the stored instructions, the order of A they leave, and that
/// this order is ascending up to a rotation whatever the shift `k` of the ranks.
#[verifier::spinoff_prover]
#[verifier::rlimit(60)]
proof fn lemma_case_0312(a: Seq<i32>, b: Seq<i32>, r: Seq<int>, k: int)
    requires
        a.len() == 4,
        r.len() == 4,
        0 <= k < 4,
        forall|i: int, j: int|
            0 <= i < 4 && 0 <= j < 4 ==> (#[trigger] a[i] < #[trigger] a[j] <==> r[i] < r[j]),
        r[0] == shifted(0, k, 4),
        r[1] == shifted(3, k, 4),
        r[2] == shifted(1, k, 4),
        r[3] == shifted(2, k, 4),
    ensures
        run((a, b), seq![Op::Sa]) == (seq![a[1], a[0], a[2], a[3]], b),
        cyc_sorted(seq![a[1], a[0], a[2], a[3]], Direction::Ba),
{
    let st = (a, b);
    let e0 = Seq::<Op>::empty();
    assert(run(st, e0) == st);
    assert(a =~= seq![a[0], a[1], a[2], a[3]]);
    let e1 = e0.push(Op::Sa);
    lemma_run_push(st, e0, Op::Sa);
    assert(run(st, e1).0 =~= seq![a[1], a[0], a[2], a[3]]);
    assert(e1 =~= seq![Op::Sa]);
    let s = seq![a[1], a[0], a[2], a[3]];
    if k == 0 {
        lemma_chain_4(s, 1);
    }
    if k == 1 {
        lemma_chain_4(s, 0);
    }
    if k == 2 {
        lemma_chain_4(s, 3);
    }
    if k == 3 {
        lemma_chain_4(s, 2);
    }
}

/// Pattern 0 3 2 1: the stored instructions, the order of A they leave, and that
/// this order is ascending up to a rotation whatever the shift `k` of the ranks.
#[verifier::spinoff_prover]
#[verifier::rlimit(60)]
proof fn lemma_case_0321(a: Seq<i32>, b: Seq<i32>, r: Seq<int>, k: int)
    requires
        a.len() == 4,
        r.len() == 4,
        0 <= k < 4,
        forall|i: int, j: int|
            0 <= i < 4 && 0 <= j < 4 ==> (#[trigger] a[i] < #[trigger] a[j] <==> r[i] < r[j]),
        r[0] == shifted(0, k, 4),
        r[1] == shifted(3, k, 4),
        r[2] == shifted(2, k, 4),
        r[3] == shifted(1, k, 4),
    ensures
        run((a, b), seq![Op::Sa, Op::Rra, Op::Rra, Op::Sa]) == (seq![a[3], a[2], a[1], a[0]], b),
        cyc_sorted(seq![a[3], a[2], a[1], a[0]], Direction::Ba),
{
    let st = (a, b);
    let e0 = Seq::<Op>::empty();
    assert(run(st, e0) == st);
    assert(a =~= seq![a[0], a[1], a[2], a[3]]);
    let e1 = e0.push(Op::Sa);
    lemma_run_push(st, e0, Op::Sa);
    assert(run(st, e1).0 =~= seq![a[1], a[0], a[2], a[3]]);
    let e2 = e1.push(Op::Rra);
    lemma_run_push(st, e1, Op::Rra);
    assert(run(st, e2).0 =~= seq![a[3], a[1], a[0], a[2]]);
    let e3 = e2.push(Op::Rra);
    lemma_run_push(st, e2, Op::Rra);
    assert(run(st, e3).0 =~= seq![a[2], a[3], a[1], a[0]]);
    let e4 = e3.push(Op::Sa);
    lemma_run_push(st, e3, Op::Sa);
    assert(run(st, e4).0 =~= seq![a[3], a[2], a[1], a[0]]);
    assert(e4 =~= seq![Op::Sa, Op::Rra, Op::Rra, Op::Sa]);
    let s = seq![a[3], a[2], a[1], a[0]];
    if k == 0 {
        lemma_chain_4(s, 3);
    }
    if k == 1 {
        lemma_chain_4(s, 2);
    }
    if k == 2 {
        lemma_chain_4(s, 1);
    }
    if k == 3 {
        lemma_chain_4(s, 0);
    }
}

/// Pattern 0 1 2 3 4: the stored instructions, the order of A they leave, and that
/// this order is ascending up to a rotation whatever the shift `k` of the ranks.
#[verifier::spinoff_prover]
#[verifier::rlimit(60)]
proof fn lemma_case_01234(a: Seq<i32>, b: Seq<i32>, r: Seq<int>, k: int)
    requires
        a.len() == 5,
        r.len() == 5,
        0 <= k < 5,
        forall|i: int, j: int|
            0 <= i < 5 && 0 <= j < 5 ==> (#[trigger] a[i] < #[trigger] a[j] <==> r[i] < r[j]),
        r[0] == shifted(0, k, 5),
        r[1] == shifted(1, k, 5),
        r[2] == shifted(2, k, 5),
        r[3] == shifted(3, k, 5),
        r[4] == shifted(4, k, 5),
    ensures
        run((a, b), Seq::<Op>::empty()) == (seq![a[0], a[1], a[2], a[3], a[4]], b),
        cyc_sorted(seq![a[0], a[1], a[2], a[3], a[4]], Direction::Ba),
{
    let st = (a, b);
    let e0 = Seq::<Op>::empty();
    assert(run(st, e0) == st);
    assert(a =~= seq![a[0], a[1], a[2], a[3], a[4]]);
    assert(e0 =~= Seq::<Op>::empty());
    let s = seq![a[0], a[1], a[2], a[3], a[4]];
    if k == 0 {
        lemma_chain_5(s, 0);
    }
    if k == 1 {
        lemma_chain_5(s, 4);
    }
    if k == 2 {
        lemma_chain_5(s, 3);
    }
    if k == 3 {
        lemma_chain_5(s, 2);
    }
    if k == 4 {
        lemma_chain_5(s, 1);
    }
}

/// Pattern 0 1 2 4 3: the stored instructions, the order of A they leave, and that
/// this order is ascending up to a rotation whatever the shift `k` of the ranks.
#[verifier::spinoff_prover]
#[verifier::rlimit(60)]
proof fn lemma_case_01243(a: Seq<i32>, b: Seq<i32>, r: Seq<int>, k: int)
    requires
        a.len() == 5,
        r.len() == 5,
        0 <= k < 5,
        forall|i: int, j: int|
            0 <= i < 5 && 0 <= j < 5 ==> (#[trigger] a[i] < #[trigger] a[j] <==> r[i] < r[j]),
        r[0] == shifted(0, k, 5),
        r[1] == shifted(1, k, 5),
        r[2] == shifted(2, k, 5),
        r[3] == shifted(4, k, 5),
        r[4] == shifted(3, k, 5),
    ensures
        run((a, b), seq![Op::Rra, Op::Rra, Op::Sa]) == (seq![a[4], a[3], a[0], a[1], a[2]], b),
        cyc_sorted(seq![a[4], a[3], a[0], a[1], a[2]], Direction::Ba),
{
    let st = (a, b);
    let e0 = Seq::<Op>::empty();
    assert(run(st, e0) == st);
    assert(a =~= seq![a[0], a[1], a[2], a[3], a[4]]);
    let e1 = e0.push(Op::Rra);
    lemma_run_push(st, e0, Op::Rra);
    assert(run(st, e1).0 =~= seq![a[4], a[0], a[1], a[2], a[3]]);
    let e2 = e1.push(Op::Rra);
    lemma_run_push(st, e1, Op::Rra);
    assert(run(st, e2).0 =~= seq![a[3], a[4], a[0], a[1], a[2]]);
    let e3 = e2.push(Op::Sa);
    lemma_run_push(st, e2, Op::Sa);
    assert(run(st, e3).0 =~= seq![a[4], a[3], a[0], a[1], a[2]]);
    assert(e3 =~= seq![Op::Rra, Op::Rra, Op::Sa]);
    let s = seq![a[4], a[3], a[0], a[1], a[2]];
    if k == 0 {
        lemma_chain_5(s, 2);
    }
    if k == 1 {
        lemma_chain_5(s, 1);
    }
    if k == 2 {
        lemma_chain_5(s, 0);
    }
    if k == 3 {
        lemma_chain_5(s, 4);
    }
    if k == 4 {
        lemma_chain_5(s, 3);
    }
}

/// Pattern 0 1 3 2 4: the stored instructions, the order of A they leave, and that
/// this order is ascending up to a rotation whatever the shift `k` of the ranks.
#[verifier::spinoff_prover]
#[verifier::rlimit(60)]
proof fn lemma_case_01324(a: Seq<i32>, b: Seq<i32>, r: Seq<int>, k: int)
    requires
        a.len() == 5,
        r.len() == 5,
        0 <= k < 5,
        forall|i: int, j: int|
            0 <= i < 5 && 0 <= j < 5 ==> (#[trigger] a[i] < #[trigger] a[j] <==> r[i] < r[j]),
        r[0] == shifted(0, k, 5),
        r[1] == shifted(1, k, 5),
        r[2] == shifted(3, k, 5),
        r[3] == shifted(2, k, 5),
        r[4] == shifted(4, k, 5),
    ensures
        run((a, b), seq![Op::Ra, Op::Ra, Op::Sa]) == (seq![a[3], a[2], a[4], a[0], a[1]], b),
        cyc_sorted(seq![a[3], a[2], a[4], a[0], a[1]], Direction::Ba),
{
    let st = (a, b);
    let e0 = Seq::<Op>::empty();
    assert(run(st, e0) == st);
    assert(a =~= seq![a[0], a[1], a[2], a[3], a[4]]);
    let e1 = e0.push(Op::Ra);
    lemma_run_push(st, e0, Op::Ra);
    assert(run(st, e1).0 =~= seq![a[1], a[2], a[3], a[4], a[0]]);
    let e2 = e1.push(Op::Ra);
    lemma_run_push(st, e1, Op::Ra);
    assert(run(st, e2).0 =~= seq![a[2], a[3], a[4], a[0], a[1]]);
    let e3 = e2.push(Op::Sa);
    lemma_run_push(st, e2, Op::Sa);
    assert(run(st, e3).0 =~= seq![a[3], a[2], a[4], a[0], a[1]]);
    assert(e3 =~= seq![Op::Ra, Op::Ra, Op::Sa]);
    let s = seq![a[3], a[2], a[4], a[0], a[1]];
    if k == 0 {
        lemma_chain_5(s, 3);
    }
    if k == 1 {
        lemma_chain_5(s, 2);
    }
    if k == 2 {
        lemma_chain_5(s, 1);
    }
    if k == 3 {
        lemma_chain_5(s, 0);
    }
    if k == 4 {
        lemma_chain_5(s, 4);
    }
}

/// Pattern 0 1 3 4 2: the stored instructions, the order of A they leave, and that
/// this order is ascending up to a rotation whatever the shift `k` of the ranks.
#[verifier::spinoff_prover]
#[verifier::rlimit(60)]
proof fn lemma_case_01342(a: Seq<i32>, b: Seq<i32>, r: Seq<int>, k: int)
    requires
        a.len() == 5,
        r.len() == 5,
        0 <= k < 5,
        forall|i: int, j: int|
            0 <= i < 5 && 0 <= j < 5 ==> (#[trigger] a[i] < #[trigger] a[j] <==> r[i] < r[j]),
        r[0] == shifted(0, k, 5),
        r[1] == shifted(1, k, 5),
        r[2] == shifted(3, k, 5),
        r[3] == shifted(4, k, 5),
        r[4] == shifted(2, k, 5),
    ensures
        run((a, b), seq![Op::Rra, Op::Sa, Op::Ra, Op::Sa]) == (
            seq![a[1], a[4], a[2], a[3], a[0]],
            b,
        ),
        cyc_sorted(seq![a[1], a[4], a[2], a[3], a[0]], Direction::Ba),
{
    let st = (a, b);
    let e0 = Seq::<Op>::empty();
    assert(run(st, e0) == st);
    assert(a =~= seq![a[0], a[1], a[2], a[3], a[4]]);
    let e1 = e0.push(Op::Rra);
    lemma_run_push(st, e0, Op::Rra);
    assert(run(st, e1).0 =~= seq![a[4], a[0], a[1], a[2], a[3]]);
    let e2 = e1.push(Op::Sa);
    lemma_run_push(st, e1, Op::Sa);
    assert(run(st, e2).0 =~= seq![a[0], a[4], a[1], a[2], a[3]]);
    let e3 = e2.push(Op::Ra);
    lemma_run_push(st, e2, Op::Ra);
    assert(run(st, e3).0 =~= seq![a[4], a[1], a[2], a[3], a[0]]);
    let e4 = e3.push(Op::Sa);
    lemma_run_push(st, e3, Op::Sa);
    assert(run(st, e4).0 =~= seq![a[1], a[4], a[2], a[3], a[0]]);
    assert(e4 =~= seq![Op::Rra, Op::Sa, Op::Ra, Op::Sa]);
    let s = seq![a[1], a[4], a[2], a[3], a[0]];
    if k == 0 {
        lemma_chain_5(s, 4);
    }
    if k == 1 {
        lemma_chain_5(s, 3);
    }
    if k == 2 {
        lemma_chain_5(s, 2);
    }
    if k == 3 {
        lemma_chain_5(s, 1);
    }
    if k == 4 {
        lemma_chain_5(s, 0);
    }
}

/// Pattern 0 1 4 2 3: the stored instructions, the order of A they leave, and that
/// this order is ascending up to a rotation whatever the shift `k` of the ranks.
#[verifier::spinoff_prover]
#[verifier::rlimit(60)]
proof fn lemma_case_01423(a: Seq<i32>, b: Seq<i32>, r: Seq<int>, k: int)
    requires
        a.len() == 5,
        r.len() == 5,
        0 <= k < 5,
        forall|i: int, j: int|
            0 <= i < 5 && 0 <= j < 5 ==> (#[trigger] a[i] < #[trigger] a[j] <==> r[i] < r[j]),
        r[0] == shifted(0, k, 5),
        r[1] == shifted(1, k, 5),
        r[2] == shifted(4, k, 5),
        r[3] == shifted(2, k, 5),
        r[4] == shifted(3, k, 5),
    ensures
        run((a, b), seq![Op::Ra, Op::Sa, Op::Rra, Op::Sa]) == (
            seq![a[2], a[0], a[1], a[3], a[4]],
            b,
        ),
        cyc_sorted(seq![a[2], a[0], a[1], a[3], a[4]], Direction::Ba),
{
    let st = (a, b);
    let e0 = Seq::<Op>::empty();
    assert(run(st, e0) == st);
    assert(a =~= seq![a[0], a[1], a[2], a[3], a[4]]);
    let e1 = e0.push(Op::Ra);
    lemma_run_push(st, e0, Op::Ra);
    assert(run(st, e1).0 =~= seq![a[1], a[2], a[3], a[4], a[0]]);
    let e2 = e1.push(Op::Sa);
    lemma_run_push(st, e1, Op::Sa);
    assert(run(st, e2).0 =~= seq![a[2], a[1], a[3], a[4], a[0]]);
    let e3 = e2.push(Op::Rra);
    lemma_run_push(st, e2, Op::Rra);
    assert(run(st, e3).0 =~= seq![a[0], a[2], a[1], a[3], a[4]]);
    let e4 = e3.push(Op::Sa);
    lemma_run_push(st, e3, Op::Sa);
    assert(run(st, e4).0 =~= seq![a[2], a[0], a[1], a[3], a[4]]);
    assert(e4 =~= seq![Op::Ra, Op::Sa, Op::Rra, Op::Sa]);
    let s = seq![a[2], a[0], a[1], a[3], a[4]];
    if k == 0 {
        lemma_chain_5(s, 1);
    }
    if k == 1 {
        lemma_chain_5(s, 0);
    }
    if k == 2 {
        lemma_chain_5(s, 4);
    }
    if k == 3 {
        lemma_chain_5(s, 3);
    }
    if k == 4 {
        lemma_chain_5(s, 2);
    }
}

/// Pattern 0 1 4 3 2: the stored instructions, the order of A they leave, and that
/// this order is ascending up to a rotation whatever the shift `k` of the ranks.
#[verifier::spinoff_prover]
#[verifier::rlimit(60)]
proof fn lemma_case_01432(a: Seq<i32>, b: Seq<i32>, r: Seq<int>, k: int)
    requires
        a.len() == 5,
        r.len() == 5,
        0 <= k < 5,
        forall|i: int, j: int|
            0 <= i < 5 && 0 <= j < 5 ==> (#[trigger] a[i] < #[trigger] a[j] <==> r[i] < r[j]),
        r[0] == shifted(0, k, 5),
        r[1] == shifted(1, k, 5),
        r[2] == shifted(4, k, 5),
        r[3] == shifted(3, k, 5),
        r[4] == shifted(2, k, 5),
    ensures
        run((a, b), seq![Op::Rra, Op::Rra, Op::Sa, Op::Rra, Op::Sa, Op::Ra, Op::Sa]) == (
            seq![a[3], a[2], a[0], a[1], a[4]],
            b,
        ),
        cyc_sorted(seq![a[3], a[2], a[0], a[1], a[4]], Direction::Ba),
{
    let st = (a, b);
    let e0 = Seq::<Op>::empty();
    assert(run(st, e0) == st);
    assert(a =~= seq![a[0], a[1], a[2], a[3], a[4]]);
    let e1 = e0.push(Op::Rra);
    lemma_run_push(st, e0, Op::Rra);
    assert(run(st, e1).0 =~= seq![a[4], a[0], a[1], a[2], a[3]]);
    let e2 = e1.push(Op::Rra);
    lemma_run_push(st, e1, Op::Rra);
    assert(run(st, e2).0 =~= seq![a[3], a[4], a[0], a[1], a[2]]);
    let e3 = e2.push(Op::Sa);
    lemma_run_push(st, e2, Op::Sa);
    assert(run(st, e3).0 =~= seq![a[4], a[3], a[0], a[1], a[2]]);
    let e4 = e3.push(Op::Rra);
    lemma_run_push(st, e3, Op::Rra);
    assert(run(st, e4).0 =~= seq![a[2], a[4], a[3], a[0], a[1]]);
    let e5 = e4.push(Op::Sa);
    lemma_run_push(st, e4, Op::Sa);
    assert(run(st, e5).0 =~= seq![a[4], a[2], a[3], a[0], a[1]]);
    let e6 = e5.push(Op::Ra);
    lemma_run_push(st, e5, Op::Ra);
    assert(run(st, e6).0 =~= seq![a[2], a[3], a[0], a[1], a[4]]);
    let e7 = e6.push(Op::Sa);
    lemma_run_push(st, e6, Op::Sa);
    assert(run(st, e7).0 =~= seq![a[3], a[2], a[0], a[1], a[4]]);
    assert(e7 =~= seq![Op::Rra, Op::Rra, Op::Sa, Op::Rra, Op::Sa, Op::Ra, Op::Sa]);
    let s = seq![a[3], a[2], a[0], a[1], a[4]];
    if k == 0 {
        lemma_chain_5(s, 2);
    }
    if k == 1 {
        lemma_chain_5(s, 1);
    }
    if k == 2 {
        lemma_chain_5(s, 0);
    }
    if k == 3 {
        lemma_chain_5(s, 4);
    }
    if k == 4 {
        lemma_chain_5(s, 3);
    }
}

/// Pattern 0 2 1 3 4: the stored instructions, the order of A they leave, and that
/// this order is ascending up to a rotation whatever the shift `k` of the ranks.
#[verifier::spinoff_prover]
#[verifier::rlimit(60)]
proof fn lemma_case_02134(a: Seq<i32>, b: Seq<i32>, r: Seq<int>, k: int)
    requires
        a.len() == 5,
        r.len() == 5,
        0 <= k < 5,
        forall|i: int, j: int|
            0 <= i < 5 && 0 <= j < 5 ==> (#[trigger] a[i] < #[trigger] a[j] <==> r[i] < r[j]),
        r[0] == shifted(0, k, 5),
        r[1] == shifted(2, k, 5),
        r[2] == shifted(1, k, 5),
        r[3] == shifted(3, k, 5),
        r[4] == shifted(4, k, 5),
    ensures
        run((a, b), seq![Op::Ra, Op::Sa]) == (seq![a[2], a[1], a[3], a[4], a[0]], b),
        cyc_sorted(seq![a[2], a[1], a[3], a[4], a[0]], Direction::Ba),
{
    let st = (a, b);
    let e0 = Seq::<Op>::empty();
    assert(run(st, e0) == st);
    assert(a =~= seq![a[0], a[1], a[2], a[3], a[4]]);
    let e1 = e0.push(Op::Ra);
    lemma_run_push(st, e0, Op::Ra);
    assert(run(st, e1).0 =~= seq![a[1], a[2], a[3], a[4], a[0]]);
    let e2 = e1.push(Op::Sa);
    lemma_run_push(st, e1, Op::Sa);
    assert(run(st, e2).0 =~= seq![a[2], a[1], a[3], a[4], a[0]]);
    assert(e2 =~= seq![Op::Ra, Op::Sa]);
    let s = seq![a[2], a[1], a[3], a[4], a[0]];
    if k == 0 {
        lemma_chain_5(s, 4);
    }
    if k == 1 {
        lemma_chain_5(s, 3);
    }
    if k == 2 {
        lemma_chain_5(s, 2);
    }
    if k == 3 {
        lemma_chain_5(s, 1);
    }
    if k == 4 {
        lemma_chain_5(s, 0);
    }
}

/// Pattern 0 2 1 4 3: the stored instructions, the order of A they leave, and that
/// this order is ascending up to a rotation whatever the shift `k` of the ranks.
#[verifier::spinoff_prover]
#[verifier::rlimit(60)]
proof fn lemma_case_02143(a: Seq<i32>, b: Seq<i32>, r: Seq<int>, k: int)
    requires
        a.len() == 5,
        r.len() == 5,
        0 <= k < 5,
        forall|i: int, j: int|
            0 <= i < 5 && 0 <= j < 5 ==> (#[trigger] a[i] < #[trigger] a[j] <==> r[i] < r[j]),
        r[0] == shifted(0, k, 5),
        r[1] == shifted(2, k, 5),
        r[2] == shifted(1, k, 5),
        r[3] == shifted(4, k, 5),
        r[4] == shifted(3, k, 5),
    ensures
        run((a, b), seq![Op::Ra, Op::Sa, Op::Ra, Op::Ra, Op::Sa]) == (
            seq![a[4], a[3], a[0], a[2], a[1]],
            b,
        ),
        cyc_sorted(seq![a[4], a[3], a[0], a[2], a[1]], Direction::Ba),
{
    let st = (a, b);
    let e0 = Seq::<Op>::empty();
    assert(run(st, e0) == st);
    assert(a =~= seq![a[0], a[1], a[2], a[3], a[4]]);
    let e1 = e0.push(Op::Ra);
    lemma_run_push(st, e0, Op::Ra);
    assert(run(st, e1).0 =~= seq![a[1], a[2], a[3], a[4], a[0]]);
    let e2 = e1.push(Op::Sa);
    lemma_run_push(st, e1, Op::Sa);
    assert(run(st, e2).0 =~= seq![a[2], a[1], a[3], a[4], a[0]]);
    let e3 = e2.push(Op::Ra);
    lemma_run_push(st, e2, Op::Ra);
    assert(run(st, e3).0 =~= seq![a[1], a[3], a[4], a[0], a[2]]);
    let e4 = e3.push(Op::Ra);
    lemma_run_push(st, e3, Op::Ra);
    assert(run(st, e4).0 =~= seq![a[3], a[4], a[0], a[2], a[1]]);
    let e5 = e4.push(Op::Sa);
    lemma_run_push(st, e4, Op::Sa);
    assert(run(st, e5).0 =~= seq![a[4], a[3], a[0], a[2], a[1]]);
    assert(e5 =~= seq![Op::Ra, Op::Sa, Op::Ra, Op::Ra, Op::Sa]);
    let s = seq![a[4], a[3], a[0], a[2], a[1]];
    if k == 0 {
        lemma_chain_5(s, 2);
    }
    if k == 1 {
        lemma_chain_5(s, 1);
    }
    if k == 2 {
        lemma_chain_5(s, 0);
    }
    if k == 3 {
        lemma_chain_5(s, 4);
    }
    if k == 4 {
        lemma_chain_5(s, 3);
    }
}

/// Pattern 0 2 3 1 4: the stored instructions, the order of A they leave, and that
/// this order is ascending up to a rotation whatever the shift `k` of the ranks.
#[verifier::spinoff_prover]
#[verifier::rlimit(60)]
proof fn lemma_case_02314(a: Seq<i32>, b: Seq<i32>, r: Seq<int>, k: int)
    requires
        a.len() == 5,
        r.len() == 5,
        0 <= k < 5,
        forall|i: int, j: int|
            0 <= i < 5 && 0 <= j < 5 ==> (#[trigger] a[i] < #[trigger] a[j] <==> r[i] < r[j]),
        r[0] == shifted(0, k, 5),
        r[1] == shifted(2, k, 5),
        r[2] == shifted(3, k, 5),
        r[3] == shifted(1, k, 5),
        r[4] == shifted(4, k, 5),
    ensures
        run((a, b), seq![Op::Ra, Op::Ra, Op::Sa, Op::Rra, Op::Sa]) == (
            seq![a[3], a[1], a[2], a[4], a[0]],
            b,
        ),
        cyc_sorted(seq![a[3], a[1], a[2], a[4], a[0]], Direction::Ba),
{
    let st = (a, b);
    let e0 = Seq::<Op>::empty();
    assert(run(st, e0) == st);
    assert(a =~= seq![a[0], a[1], a[2], a[3], a[4]]);
    let e1 = e0.push(Op::Ra);
    lemma_run_push(st, e0, Op::Ra);
    assert(run(st, e1).0 =~= seq![a[1], a[2], a[3], a[4], a[0]]);
    let e2 = e1.push(Op::Ra);
    lemma_run_push(st, e1, Op::Ra);
    assert(run(st, e2).0 =~= seq![a[2], a[3], a[4], a[0], a[1]]);
    let e3 = e2.push(Op::Sa);
    lemma_run_push(st, e2, Op::Sa);
    assert(run(st, e3).0 =~= seq![a[3], a[2], a[4], a[0], a[1]]);
    let e4 = e3.push(Op::Rra);
    lemma_run_push(st, e3, Op::Rra);
    assert(run(st, e4).0 =~= seq![a[1], a[3], a[2], a[4], a[0]]);
    let e5 = e4.push(Op::Sa);
    lemma_run_push(st, e4, Op::Sa);
    assert(run(st, e5).0 =~= seq![a[3], a[1], a[2], a[4], a[0]]);
    assert(e5 =~= seq![Op::Ra, Op::Ra, Op::Sa, Op::Rra, Op::Sa]);
    let s = seq![a[3], a[1], a[2], a[4], a[0]];
    if k == 0 {
        lemma_chain_5(s, 4);
    }
    if k == 1 {
        lemma_chain_5(s, 3);
    }
    if k == 2 {
        lemma_chain_5(s, 2);
    }
    if k == 3 {
        lemma_chain_5(s, 1);
    }
    if k == 4 {
        lemma_chain_5(s, 0);
    }
}

/// Pattern 0 2 3 4 1: the stored instructions, the order of A they leave, and that
/// this order is ascending up to a rotation whatever the shift `k` of the ranks.
#[verifier::spinoff_prover]
#[verifier::rlimit(60)]
proof fn lemma_case_02341(a: Seq<i32>, b: Seq<i32>, r: Seq<int>, k: int)
    requires
        a.len() == 5,
        r.len() == 5,
        0 <= k < 5,
        forall|i: int, j: int|
            0 <= i < 5 && 0 <= j < 5 ==> (#[trigger] a[i] < #[trigger] a[j] <==> r[i] < r[j]),
        r[0] == shifted(0, k, 5),
        r[1] == shifted(2, k, 5),
        r[2] == shifted(3, k, 5),
        r[3] == shifted(4, k, 5),
        r[4] == shifted(1, k, 5),
    ensures
        run((a, b), seq![Op::Rra, Op::Sa]) == (seq![a[0], a[4], a[1], a[2], a[3]], b),
        cyc_sorted(seq![a[0], a[4], a[1], a[2], a[3]], Direction::Ba),
{
    let st = (a, b);
    let e0 = Seq::<Op>::empty();
    assert(run(st, e0) == st);
    assert(a =~= seq![a[0], a[1], a[2], a[3], a[4]]);
    let e1 = e0.push(Op::Rra);
    lemma_run_push(st, e0, Op::Rra);
    assert(run(st, e1).0 =~= seq![a[4], a[0], a[1], a[2], a[3]]);
    let e2 = e1.push(Op::Sa);
    lemma_run_push(st, e1, Op::Sa);
    assert(run(st, e2).0 =~= seq![a[0], a[4], a[1], a[2], a[3]]);
    assert(e2 =~= seq![Op::Rra, Op::Sa]);
    let s = seq![a[0], a[4], a[1], a[2], a[3]];
    if k == 0 {
        lemma_chain_5(s, 0);
    }
    if k == 1 {
        lemma_chain_5(s, 4);
    }
    if k == 2 {
        lemma_chain_5(s, 3);
    }
    if k == 3 {
        lemma_chain_5(s, 2);
    }
    if k == 4 {
        lemma_chain_5(s, 1);
    }
}

/// Pattern 0 2 4 1 3: the stored instructions, the order of A they leave, and that
/// this order is ascending up to a rotation whatever the shift `k` of the ranks.
#[verifier::spinoff_prover]
#[verifier::rlimit(60)]
proof fn lemma_case_02413(a: Seq<i32>, b: Seq<i32>, r: Seq<int>, k: int)
    requires
        a.len() == 5,
        r.len() == 5,
        0 <= k < 5,
        forall|i: int, j: int|
            0 <= i < 5 && 0 <= j < 5 ==> (#[trigger] a[i] < #[trigger] a[j] <==> r[i] < r[j]),
        r[0] == shifted(0, k, 5),
        r[1] == shifted(2, k, 5),
        r[2] == shifted(4, k, 5),
        r[3] == shifted(1, k, 5),
        r[4] == shifted(3, k, 5),
    ensures
        run((a, b), seq![Op::Sa, Op::Ra, Op::Sa, Op::Rra, Op::Rra, Op::Sa]) == (
            seq![a[1], a[4], a[2], a[0], a[3]],
            b,
        ),
        cyc_sorted(seq![a[1], a[4], a[2], a[0], a[3]], Direction::Ba),
{
    let st = (a, b);
    let e0 = Seq::<Op>::empty();
    assert(run(st, e0) == st);
    assert(a =~= seq![a[0], a[1], a[2], a[3], a[4]]);
    let e1 = e0.push(Op::Sa);
    lemma_run_push(st, e0, Op::Sa);
    assert(run(st, e1).0 =~= seq![a[1], a[0], a[2], a[3], a[4]]);
    let e2 = e1.push(Op::Ra);
    lemma_run_push(st, e1, Op::Ra);
    assert(run(st, e2).0 =~= seq![a[0], a[2], a[3], a[4], a[1]]);
    let e3 = e2.push(Op::Sa);
    lemma_run_push(st, e2, Op::Sa);
    assert(run(st, e3).0 =~= seq![a[2], a[0], a[3], a[4], a[1]]);
    let e4 = e3.push(Op::Rra);
    lemma_run_push(st, e3, Op::Rra);
    assert(run(st, e4).0 =~= seq![a[1], a[2], a[0], a[3], a[4]]);
    let e5 = e4.push(Op::Rra);
    lemma_run_push(st, e4, Op::Rra);
    assert(run(st, e5).0 =~= seq![a[4], a[1], a[2], a[0], a[3]]);
    let e6 = e5.push(Op::Sa);
    lemma_run_push(st, e5, Op::Sa);
    assert(run(st, e6).0 =~= seq![a[1], a[4], a[2], a[0], a[3]]);
    assert(e6 =~= seq![Op::Sa, Op::Ra, Op::Sa, Op::Rra, Op::Rra, Op::Sa]);
    let s = seq![a[1], a[4], a[2], a[0], a[3]];
    if k == 0 {
        lemma_chain_5(s, 3);
    }
    if k == 1 {
        lemma_chain_5(s, 2);
    }
    if k == 2 {
        lemma_chain_5(s, 1);
    }
    if k == 3 {
        lemma_chain_5(s, 0);
    }
    if k == 4 {
        lemma_chain_5(s, 4);
    }
}

/// Pattern 0 2 4 3 1: the stored instructions, the order of A they leave, and that
/// this order is ascending up to a rotation whatever the shift `k` of the ranks.
#[verifier::spinoff_prover]
#[verifier::rlimit(60)]
proof fn lemma_case_02431(a: Seq<i32>, b: Seq<i32>, r: Seq<int>, k: int)
    requires
        a.len() == 5,
        r.len() == 5,
        0 <= k < 5,
        forall|i: int, j: int|
            0 <= i < 5 && 0 <= j < 5 ==> (#[trigger] a[i] < #[trigger] a[j] <==> r[i] < r[j]),
        r[0] == shifted(0, k, 5),
        r[1] == shifted(2, k, 5),
        r[2] == shifted(4, k, 5),
        r[3] == shifted(3, k, 5),
        r[4] == shifted(1, k, 5),
    ensures
        run((a, b), seq![Op::Rra, Op::Sa, Op::Rra, Op::Rra, Op::Sa]) == (
            seq![a[3], a[2], a[0], a[4], a[1]],
            b,
        ),
        cyc_sorted(seq![a[3], a[2], a[0], a[4], a[1]], Direction::Ba),
{
    let st = (a, b);
    let e0 = Seq::<Op>::empty();
    assert(run(st, e0) == st);
    assert(a =~= seq![a[0], a[1], a[2], a[3], a[4]]);
    let e1 = e0.push(Op::Rra);
    lemma_run_push(st, e0, Op::Rra);
    assert(run(st, e1).0 =~= seq![a[4], a[0], a[1], a[2], a[3]]);
    let e2 = e1.push(Op::Sa);
    lemma_run_push(st, e1, Op::Sa);
    assert(run(st, e2).0 =~= seq![a[0], a[4], a[1], a[2], a[3]]);
    let e3 = e2.push(Op::Rra);
    lemma_run_push(st, e2, Op::Rra);
    assert(run(st, e3).0 =~= seq![a[3], a[0], a[4], a[1], a[2]]);
    let e4 = e3.push(Op::Rra);
    lemma_run_push(st, e3, Op::Rra);
    assert(run(st, e4).0 =~= seq![a[2], a[3], a[0], a[4], a[1]]);
    let e5 = e4.push(Op::Sa);
    lemma_run_push(st, e4, Op::Sa);
    assert(run(st, e5).0 =~= seq![a[3], a[2], a[0], a[4], a[1]]);
    assert(e5 =~= seq![Op::Rra, Op::Sa, Op::Rra, Op::Rra, Op::Sa]);
    let s = seq![a[3], a[2], a[0], a[4], a[1]];
    if k == 0 {
        lemma_chain_5(s, 2);
    }
    if k == 1 {
        lemma_chain_5(s, 1);
    }
    if k == 2 {
        lemma_chain_5(s, 0);
    }
    if k == 3 {
        lemma_chain_5(s, 4);
    }
    if k == 4 {
        lemma_chain_5(s, 3);
    }
}

/// Pattern 0 3 1 2 4: the stored instructions, the order of A they leave, and that
/// this order is ascending up to a rotation whatever the shift `k` of the ranks.
#[verifier::spinoff_prover]
#[verifier::rlimit(60)]
proof fn lemma_case_03124(a: Seq<i32>, b: Seq<i32>, r: Seq<int>, k: int)
    requires
        a.len() == 5,
        r.len() == 5,
        0 <= k < 5,
        forall|i: int, j: int|
            0 <= i < 5 && 0 <= j < 5 ==> (#[trigger] a[i] < #[trigger] a[j] <==> r[i] < r[j]),
        r[0] == shifted(0, k, 5),
        r[1] == shifted(3, k, 5),
        r[2] == shifted(1, k, 5),
        r[3] == shifted(2, k, 5),
        r[4] == shifted(4, k, 5),
    ensures
        run((a, b), seq![Op::Sa, Op::Rra, Op::Sa]) == (seq![a[1], a[4], a[0], a[2], a[3]], b),
        cyc_sorted(seq![a[1], a[4], a[0], a[2], a[3]], Direction::Ba),
{
    let st = (a, b);
    let e0 = Seq::<Op>::empty();
    assert(run(st, e0) == st);
    assert(a =~= seq![a[0], a[1], a[2], a[3], a[4]]);
    let e1 = e0.push(Op::Sa);
    lemma_run_push(st, e0, Op::Sa);
    assert(run(st, e1).0 =~= seq![a[1], a[0], a[2], a[3], a[4]]);
    let e2 = e1.push(Op::Rra);
    lemma_run_push(st, e1, Op::Rra);
    assert(run(st, e2).0 =~= seq![a[4], a[1], a[0], a[2], a[3]]);
    let e3 = e2.push(Op::Sa);
    lemma_run_push(st, e2, Op::Sa);
    assert(run(st, e3).0 =~= seq![a[1], a[4], a[0], a[2], a[3]]);
    assert(e3 =~= seq![Op::Sa, Op::Rra, Op::Sa]);
    let s = seq![a[1], a[4], a[0], a[2], a[3]];
    if k == 0 {
        lemma_chain_5(s, 2);
    }
    if k == 1 {
        lemma_chain_5(s, 1);
    }
    if k == 2 {
        lemma_chain_5(s, 0);
    }
    if k == 3 {
        lemma_chain_5(s, 4);
    }
    if k == 4 {
        lemma_chain_5(s, 3);
    }
}

/// Pattern 0 3 1 4 2: the stored instructions, the order of A they leave, and that
/// this order is ascending up to a rotation whatever the shift `k` of the ranks.
#[verifier::spinoff_prover]
#[verifier::rlimit(60)]
proof fn lemma_case_03142(a: Seq<i32>, b: Seq<i32>, r: Seq<int>, k: int)
    requires
        a.len() == 5,
        r.len() == 5,
        0 <= k < 5,
        forall|i: int, j: int|
            0 <= i < 5 && 0 <= j < 5 ==> (#[trigger] a[i] < #[trigger] a[j] <==> r[i] < r[j]),
        r[0] == shifted(0, k, 5),
        r[1] == shifted(3, k, 5),
        r[2] == shifted(1, k, 5),
        r[3] == shifted(4, k, 5),
        r[4] == shifted(2, k, 5),
    ensures
        run((a, b), seq![Op::Sa, Op::Rra, Op::Rra, Op::Sa, Op::Ra, Op::Sa]) == (
            seq![a[1], a[3], a[0], a[2], a[4]],
            b,
        ),
        cyc_sorted(seq![a[1], a[3], a[0], a[2], a[4]], Direction::Ba),
{
    let st = (a, b);
    let e0 = Seq::<Op>::empty();
    assert(run(st, e0) == st);
    assert(a =~= seq![a[0], a[1], a[2], a[3], a[4]]);
    let e1 = e0.push(Op::Sa);
    lemma_run_push(st, e0, Op::Sa);
    assert(run(st, e1).0 =~= seq![a[1], a[0], a[2], a[3], a[4]]);
    let e2 = e1.push(Op::Rra);
    lemma_run_push(st, e1, Op::Rra);
    assert(run(st, e2).0 =~= seq![a[4], a[1], a[0], a[2], a[3]]);
    let e3 = e2.push(Op::Rra);
    lemma_run_push(st, e2, Op::Rra);
    assert(run(st, e3).0 =~= seq![a[3], a[4], a[1], a[0], a[2]]);
    let e4 = e3.push(Op::Sa);
    lemma_run_push(st, e3, Op::Sa);
    assert(run(st, e4).0 =~= seq![a[4], a[3], a[1], a[0], a[2]]);
    let e5 = e4.push(Op::Ra);
    lemma_run_push(st, e4, Op::Ra);
    assert(run(st, e5).0 =~= seq![a[3], a[1], a[0], a[2], a[4]]);
    let e6 = e5.push(Op::Sa);
    lemma_run_push(st, e5, Op::Sa);
    assert(run(st, e6).0 =~= seq![a[1], a[3], a[0], a[2], a[4]]);
    assert(e6 =~= seq![Op::Sa, Op::Rra, Op::Rra, Op::Sa, Op::Ra, Op::Sa]);
    let s = seq![a[1], a[3], a[0], a[2], a[4]];
    if k == 0 {
        lemma_chain_5(s, 2);
    }
    if k == 1 {
        lemma_chain_5(s, 1);
    }
    if k == 2 {
        lemma_chain_5(s, 0);
    }
    if k == 3 {
        lemma_chain_5(s, 4);
    }
    if k == 4 {
        lemma_chain_5(s, 3);
    }
}

/// Pattern 0 3 2 1 4: the stored instructions, the order of A they leave, and that
/// this order is ascending up to a rotation whatever the shift `k` of the ranks.
#[verifier::spinoff_prover]
#[verifier::rlimit(60)]
proof fn lemma_case_03214(a: Seq<i32>, b: Seq<i32>, r: Seq<int>, k: int)
    requires
        a.len() == 5,
        r.len() == 5,
        0 <= k < 5,
        forall|i: int, j: int|
            0 <= i < 5 && 0 <= j < 5 ==> (#[trigger] a[i] < #[trigger] a[j] <==> r[i] < r[j]),
        r[0] == shifted(0, k, 5),
        r[1] == shifted(3, k, 5),
        r[2] == shifted(2, k, 5),
        r[3] == shifted(1, k, 5),
        r[4] == shifted(4, k, 5),
    ensures
        run((a, b), seq![Op::Sa, Op::Rra, Op::Sa, Op::Rra, Op::Rra, Op::Sa]) == (
            seq![a[3], a[2], a[1], a[4], a[0]],
            b,
        ),
        cyc_sorted(seq![a[3], a[2], a[1], a[4], a[0]], Direction::Ba),
{
    let st = (a, b);
    let e0 = Seq::<Op>::empty();
    assert(run(st, e0) == st);
    assert(a =~= seq![a[0], a[1], a[2], a[3], a[4]]);
    let e1 = e0.push(Op::Sa);
    lemma_run_push(st, e0, Op::Sa);
    assert(run(st, e1).0 =~= seq![a[1], a[0], a[2], a[3], a[4]]);
    let e2 = e1.push(Op::Rra);
    lemma_run_push(st, e1, Op::Rra);
    assert(run(st, e2).0 =~= seq![a[4], a[1], a[0], a[2], a[3]]);
    let e3 = e2.push(Op::Sa);
    lemma_run_push(st, e2, Op::Sa);
    assert(run(st, e3).0 =~= seq![a[1], a[4], a[0], a[2], a[3]]);
    let e4 = e3.push(Op::Rra);
    lemma_run_push(st, e3, Op::Rra);
    assert(run(st, e4).0 =~= seq![a[3], a[1], a[4], a[0], a[2]]);
    let e5 = e4.push(Op::Rra);
    lemma_run_push(st, e4, Op::Rra);
    assert(run(st, e5).0 =~= seq![a[2], a[3], a[1], a[4], a[0]]);
    let e6 = e5.push(Op::Sa);
    lemma_run_push(st, e5, Op::Sa);
    assert(run(st, e6).0 =~= seq![a[3], a[2], a[1], a[4], a[0]]);
    assert(e6 =~= seq![Op::Sa, Op::Rra, Op::Sa, Op::Rra, Op::Rra, Op::Sa]);
    let s = seq![a[3], a[2], a[1], a[4], a[0]];
    if k == 0 {
        lemma_chain_5(s, 4);
    }
    if k == 1 {
        lemma_chain_5(s, 3);
    }
    if k == 2 {
        lemma_chain_5(s, 2);
    }
    if k == 3 {
        lemma_chain_5(s, 1);
    }
    if k == 4 {
        lemma_chain_5(s, 0);
    }
}

/// Pattern 0 3 2 4 1: the stored instructions, the order of A they leave, and that
/// this order is ascending up to a rotation whatever the shift `k` of the ranks.
#[verifier::spinoff_prover]
#[verifier::rlimit(60)]
proof fn lemma_case_03241(a: Seq<i32>, b: Seq<i32>, r: Seq<int>, k: int)
    requires
        a.len() == 5,
        r.len() == 5,
        0 <= k < 5,
        forall|i: int, j: int|
            0 <= i < 5 && 0 <= j < 5 ==> (#[trigger] a[i] < #[trigger] a[j] <==> r[i] < r[j]),
        r[0] == shifted(0, k, 5),
        r[1] == shifted(3, k, 5),
        r[2] == shifted(2, k, 5),
        r[3] == shifted(4, k, 5),
        r[4] == shifted(1, k, 5),
    ensures
        run((a, b), seq![Op::Ra, Op::Sa, Op::Rra, Op::Rra, Op::Sa]) == (
            seq![a[0], a[4], a[2], a[1], a[3]],
            b,
        ),
        cyc_sorted(seq![a[0], a[4], a[2], a[1], a[3]], Direction::Ba),
{
    let st = (a, b);
    let e0 = Seq::<Op>::empty();
    assert(run(st, e0) == st);
    assert(a =~= seq![a[0], a[1], a[2], a[3], a[4]]);
    let e1 = e0.push(Op::Ra);
    lemma_run_push(st, e0, Op::Ra);
    assert(run(st, e1).0 =~= seq![a[1], a[2], a[3], a[4], a[0]]);
    let e2 = e1.push(Op::Sa);
    lemma_run_push(st, e1, Op::Sa);
    assert(run(st, e2).0 =~= seq![a[2], a[1], a[3], a[4], a[0]]);
    let e3 = e2.push(Op::Rra);
    lemma_run_push(st, e2, Op::Rra);
    assert(run(st, e3).0 =~= seq![a[0], a[2], a[1], a[3], a[4]]);
    let e4 = e3.push(Op::Rra);
    lemma_run_push(st, e3, Op::Rra);
    assert(run(st, e4).0 =~= seq![a[4], a[0], a[2], a[1], a[3]]);
    let e5 = e4.push(Op::Sa);
    lemma_run_push(st, e4, Op::Sa);
    assert(run(st, e5).0 =~= seq![a[0], a[4], a[2], a[1], a[3]]);
    assert(e5 =~= seq![Op::Ra, Op::Sa, Op::Rra, Op::Rra, Op::Sa]);
    let s = seq![a[0], a[4], a[2], a[1], a[3]];
    if k == 0 {
        lemma_chain_5(s, 0);
    }
    if k == 1 {
        lemma_chain_5(s, 4);
    }
    if k == 2 {
        lemma_chain_5(s, 3);
    }
    if k == 3 {
        lemma_chain_5(s, 2);
    }
    if k == 4 {
        lemma_chain_5(s, 1);
    }
}

/// Pattern 0 3 4 1 2: the stored instructions, the order of A they leave, and that
/// this order is ascending up to a rotation whatever the shift `k` of the ranks.
#[verifier::spinoff_prover]
#[verifier::rlimit(60)]
proof fn lemma_case_03412(a: Seq<i32>, b: Seq<i32>, r: Seq<int>, k: int)
    requires
        a.len() == 5,
        r.len() == 5,
        0 <= k < 5,
        forall|i: int, j: int|
            0 <= i < 5 && 0 <= j < 5 ==> (#[trigger] a[i] < #[trigger] a[j] <==> r[i] < r[j]),
        r[0] == shifted(0, k, 5),
        r[1] == shifted(3, k, 5),
        r[2] == shifted(4, k, 5),
        r[3] == shifted(1, k, 5),
        r[4] == shifted(2, k, 5),
    ensures
        run((a, b), seq![Op::Sa, Op::Ra, Op::Sa]) == (seq![a[2], a[0], a[3], a[4], a[1]], b),
        cyc_sorted(seq![a[2], a[0], a[3], a[4], a[1]], Direction::Ba),
{
    let st = (a, b);
    let e0 = Seq::<Op>::empty();
    assert(run(st, e0) == st);
    assert(a =~= seq![a[0], a[1], a[2], a[3], a[4]]);
    let e1 = e0.push(Op::Sa);
    lemma_run_push(st, e0, Op::Sa);
    assert(run(st, e1).0 =~= seq![a[1], a[0], a[2], a[3], a[4]]);
    let e2 = e1.push(Op::Ra);
    lemma_run_push(st, e1, Op::Ra);
    assert(run(st, e2).0 =~= seq![a[0], a[2], a[3], a[4], a[1]]);
    let e3 = e2.push(Op::Sa);
    lemma_run_push(st, e2, Op::Sa);
    assert(run(st, e3).0 =~= seq![a[2], a[0], a[3], a[4], a[1]]);
    assert(e3 =~= seq![Op::Sa, Op::Ra, Op::Sa]);
    let s = seq![a[2], a[0], a[3], a[4], a[1]];
    if k == 0 {
        lemma_chain_5(s, 1);
    }
    if k == 1 {
        lemma_chain_5(s, 0);
    }
    if k == 2 {
        lemma_chain_5(s, 4);
    }
    if k == 3 {
        lemma_chain_5(s, 3);
    }
    if k == 4 {
        lemma_chain_5(s, 2);
    }
}

/// Pattern 0 3 4 2 1: the stored instructions, the order of A they leave, and that
/// this order is ascending up to a rotation whatever the shift `k` of the ranks.
#[verifier::spinoff_prover]
#[verifier::rlimit(60)]
proof fn lemma_case_03421(a: Seq<i32>, b: Seq<i32>, r: Seq<int>, k: int)
    requires
        a.len() == 5,
        r.len() == 5,
        0 <= k < 5,
        forall|i: int, j: int|
            0 <= i < 5 && 0 <= j < 5 ==> (#[trigger] a[i] < #[trigger] a[j] <==> r[i] < r[j]),
        r[0] == shifted(0, k, 5),
        r[1] == shifted(3, k, 5),
        r[2] == shifted(4, k, 5),
        r[3] == shifted(2, k, 5),
        r[4] == shifted(1, k, 5),
    ensures
        run((a, b), seq![Op::Rra, Op::Sa, Op::Rra, Op::Sa, Op::Ra, Op::Sa]) == (
            seq![a[4], a[3], a[1], a[2], a[0]],
            b,
        ),
        cyc_sorted(seq![a[4], a[3], a[1], a[2], a[0]], Direction::Ba),
{
    let st = (a, b);
    let e0 = Seq::<Op>::empty();
    assert(run(st, e0) == st);
    assert(a =~= seq![a[0], a[1], a[2], a[3], a[4]]);
    let e1 = e0.push(Op::Rra);
    lemma_run_push(st, e0, Op::Rra);
    assert(run(st, e1).0 =~= seq![a[4], a[0], a[1], a[2], a[3]]);
    let e2 = e1.push(Op::Sa);
    lemma_run_push(st, e1, Op::Sa);
    assert(run(st, e2).0 =~= seq![a[0], a[4], a[1], a[2], a[3]]);
    let e3 = e2.push(Op::Rra);
    lemma_run_push(st, e2, Op::Rra);
    assert(run(st, e3).0 =~= seq![a[3], a[0], a[4], a[1], a[2]]);
    let e4 = e3.push(Op::Sa);
    lemma_run_push(st, e3, Op::Sa);
    assert(run(st, e4).0 =~= seq![a[0], a[3], a[4], a[1], a[2]]);
    let e5 = e4.push(Op::Ra);
    lemma_run_push(st, e4, Op::Ra);
    assert(run(st, e5).0 =~= seq![a[3], a[4], a[1], a[2], a[0]]);
    let e6 = e5.push(Op::Sa);
    lemma_run_push(st, e5, Op::Sa);
    assert(run(st, e6).0 =~= seq![a[4], a[3], a[1], a[2], a[0]]);
    assert(e6 =~= seq![Op::Rra, Op::Sa, Op::Rra, Op::Sa, Op::Ra, Op::Sa]);
    let s = seq![a[4], a[3], a[1], a[2], a[0]];
    if k == 0 {
        lemma_chain_5(s, 4);
    }
    if k == 1 {
        lemma_chain_5(s, 3);
    }
    if k == 2 {
        lemma_chain_5(s, 2);
    }
    if k == 3 {
        lemma_chain_5(s, 1);
    }
    if k == 4 {
        lemma_chain_5(s, 0);
    }
}

/// Pattern 0 4 1 2 3: the stored instructions, the order of A they leave, and that
/// this order is ascending up to a rotation whatever the shift `k` of the ranks.
#[verifier::spinoff_prover]
#[verifier::rlimit(60)]
proof fn lemma_case_04123(a: Seq<i32>, b: Seq<i32>, r: Seq<int>, k: int)
    requires
        a.len() == 5,
        r.len() == 5,
        0 <= k < 5,
        forall|i: int, j: int|
            0 <= i < 5 && 0 <= j < 5 ==> (#[trigger] a[i] < #[trigger] a[j] <==> r[i] < r[j]),
        r[0] == shifted(0, k, 5),
        r[1] == shifted(4, k, 5),
        r[2] == shifted(1, k, 5),
        r[3] == shifted(2, k, 5),
        r[4] == shifted(3, k, 5),
    ensures
        run((a, b), seq![Op::Sa]) == (seq![a[1], a[0], a[2], a[3], a[4]], b),
        cyc_sorted(seq![a[1], a[0], a[2], a[3], a[4]], Direction::Ba),
{
    let st = (a, b);
    let e0 = Seq::<Op>::empty();
    assert(run(st, e0) == st);
    assert(a =~= seq![a[0], a[1], a[2], a[3], a[4]]);
    let e1 = e0.push(Op::Sa);
    lemma_run_push(st, e0, Op::Sa);
    assert(run(st, e1).0 =~= seq![a[1], a[0], a[2], a[3], a[4]]);
    assert(e1 =~= seq![Op::Sa]);
    let s = seq![a[1], a[0], a[2], a[3], a[4]];
    if k == 0 {
        lemma_chain_5(s, 1);
    }
    if k == 1 {
        lemma_chain_5(s, 0);
    }
    if k == 2 {
        lemma_chain_5(s, 4);
    }
    if k == 3 {
        lemma_chain_5(s, 3);
    }
    if k == 4 {
        lemma_chain_5(s, 2);
    }
}

/// Pattern 0 4 1 3 2: the stored instructions, the order of A they leave, and that
/// this order is ascending up to a rotation whatever the shift `k` of the ranks.
#[verifier::spinoff_prover]
#[verifier::rlimit(60)]
proof fn lemma_case_04132(a: Seq<i32>, b: Seq<i32>, r: Seq<int>, k: int)
    requires
        a.len() == 5,
        r.len() == 5,
        0 <= k < 5,
        forall|i: int, j: int|
            0 <= i < 5 && 0 <= j < 5 ==> (#[trigger] a[i] < #[trigger] a[j] <==> r[i] < r[j]),
        r[0] == shifted(0, k, 5),
        r[1] == shifted(4, k, 5),
        r[2] == shifted(1, k, 5),
        r[3] == shifted(3, k, 5),
        r[4] == shifted(2, k, 5),
    ensures
        run((a, b), seq![Op::Sa, Op::Rra, Op::Rra, Op::Sa]) == (
            seq![a[4], a[3], a[1], a[0], a[2]],
            b,
        ),
        cyc_sorted(seq![a[4], a[3], a[1], a[0], a[2]], Direction::Ba),
{
    let st = (a, b);
    let e0 = Seq::<Op>::empty();
    assert(run(st, e0) == st);
    assert(a =~= seq![a[0], a[1], a[2], a[3], a[4]]);
    let e1 = e0.push(Op::Sa);
    lemma_run_push(st, e0, Op::Sa);
    assert(run(st, e1).0 =~= seq![a[1], a[0], a[2], a[3], a[4]]);
    let e2 = e1.push(Op::Rra);
    lemma_run_push(st, e1, Op::Rra);
    assert(run(st, e2).0 =~= seq![a[4], a[1], a[0], a[2], a[3]]);
    let e3 = e2.push(Op::Rra);
    lemma_run_push(st, e2, Op::Rra);
    assert(run(st, e3).0 =~= seq![a[3], a[4], a[1], a[0], a[2]]);
    let e4 = e3.push(Op::Sa);
    lemma_run_push(st, e3, Op::Sa);
    assert(run(st, e4).0 =~= seq![a[4], a[3], a[1], a[0], a[2]]);
    assert(e4 =~= seq![Op::Sa, Op::Rra, Op::Rra, Op::Sa]);
    let s = seq![a[4], a[3], a[1], a[0], a[2]];
    if k == 0 {
        lemma_chain_5(s, 3);
    }
    if k == 1 {
        lemma_chain_5(s, 2);
    }
    if k == 2 {
        lemma_chain_5(s, 1);
    }
    if k == 3 {
        lemma_chain_5(s, 0);
    }
    if k == 4 {
        lemma_chain_5(s, 4);
    }
}

/// Pattern 0 4 2 1 3: the stored instructions, the order of A they leave, and that
/// this order is ascending up to a rotation whatever the shift `k` of the ranks.
#[verifier::spinoff_prover]
#[verifier::rlimit(60)]
proof fn lemma_case_04213(a: Seq<i32>, b: Seq<i32>, r: Seq<int>, k: int)
    requires
        a.len() == 5,
        r.len() == 5,
        0 <= k < 5,
        forall|i: int, j: int|
            0 <= i < 5 && 0 <= j < 5 ==> (#[trigger] a[i] < #[trigger] a[j] <==> r[i] < r[j]),
        r[0] == shifted(0, k, 5),
        r[1] == shifted(4, k, 5),
        r[2] == shifted(2, k, 5),
        r[3] == shifted(1, k, 5),
        r[4] == shifted(3, k, 5),
    ensures
        run((a, b), seq![Op::Sa, Op::Ra, Op::Ra, Op::Sa]) == (
            seq![a[3], a[2], a[4], a[1], a[0]],
            b,
        ),
        cyc_sorted(seq![a[3], a[2], a[4], a[1], a[0]], Direction::Ba),
{
    let st = (a, b);
    let e0 = Seq::<Op>::empty();
    assert(run(st, e0) == st);
    assert(a =~= seq![a[0], a[1], a[2], a[3], a[4]]);
    let e1 = e0.push(Op::Sa);
    lemma_run_push(st, e0, Op::Sa);
    assert(run(st, e1).0 =~= seq![a[1], a[0], a[2], a[3], a[4]]);
    let e2 = e1.push(Op::Ra);
    lemma_run_push(st, e1, Op::Ra);
    assert(run(st, e2).0 =~= seq![a[0], a[2], a[3], a[4], a[1]]);
    let e3 = e2.push(Op::Ra);
    lemma_run_push(st, e2, Op::Ra);
    assert(run(st, e3).0 =~= seq![a[2], a[3], a[4], a[1], a[0]]);
    let e4 = e3.push(Op::Sa);
    lemma_run_push(st, e3, Op::Sa);
    assert(run(st, e4).0 =~= seq![a[3], a[2], a[4], a[1], a[0]]);
    assert(e4 =~= seq![Op::Sa, Op::Ra, Op::Ra, Op::Sa]);
    let s = seq![a[3], a[2], a[4], a[1], a[0]];
    if k == 0 {
        lemma_chain_5(s, 4);
    }
    if k == 1 {
        lemma_chain_5(s, 3);
    }
    if k == 2 {
        lemma_chain_5(s, 2);
    }
    if k == 3 {
        lemma_chain_5(s, 1);
    }
    if k == 4 {
        lemma_chain_5(s, 0);
    }
}

/// Pattern 0 4 2 3 1: the stored instructions, the order of A they leave, and that
/// this order is ascending up to a rotation whatever the shift `k` of the ranks.
#[verifier::spinoff_prover]
#[verifier::rlimit(60)]
proof fn lemma_case_04231(a: Seq<i32>, b: Seq<i32>, r: Seq<int>, k: int)
    requires
        a.len() == 5,
        r.len() == 5,
        0 <= k < 5,
        forall|i: int, j: int|
            0 <= i < 5 && 0 <= j < 5 ==> (#[trigger] a[i] < #[trigger] a[j] <==> r[i] < r[j]),
        r[0] == shifted(0, k, 5),
        r[1] == shifted(4, k, 5),
        r[2] == shifted(2, k, 5),
        r[3] == shifted(3, k, 5),
        r[4] == shifted(1, k, 5),
    ensures
        run((a, b), seq![Op::Sa, Op::Rra, Op::Sa, Op::Ra, Op::Sa]) == (
            seq![a[0], a[4], a[2], a[3], a[1]],
            b,
        ),
        cyc_sorted(seq![a[0], a[4], a[2], a[3], a[1]], Direction::Ba),
{
    let st = (a, b);
    let e0 = Seq::<Op>::empty();
    assert(run(st, e0) == st);
    assert(a =~= seq![a[0], a[1], a[2], a[3], a[4]]);
    let e1 = e0.push(Op::Sa);
    lemma_run_push(st, e0, Op::Sa);
    assert(run(st, e1).0 =~= seq![a[1], a[0], a[2], a[3], a[4]]);
    let e2 = e1.push(Op::Rra);
    lemma_run_push(st, e1, Op::Rra);
    assert(run(st, e2).0 =~= seq![a[4], a[1], a[0], a[2], a[3]]);
    let e3 = e2.push(Op::Sa);
    lemma_run_push(st, e2, Op::Sa);
    assert(run(st, e3).0 =~= seq![a[1], a[4], a[0], a[2], a[3]]);
    let e4 = e3.push(Op::Ra);
    lemma_run_push(st, e3, Op::Ra);
    assert(run(st, e4).0 =~= seq![a[4], a[0], a[2], a[3], a[1]]);
    let e5 = e4.push(Op::Sa);
    lemma_run_push(st, e4, Op::Sa);
    assert(run(st, e5).0 =~= seq![a[0], a[4], a[2], a[3], a[1]]);
    assert(e5 =~= seq![Op::Sa, Op::Rra, Op::Sa, Op::Ra, Op::Sa]);
    let s = seq![a[0], a[4], a[2], a[3], a[1]];
    if k == 0 {
        lemma_chain_5(s, 0);
    }
    if k == 1 {
        lemma_chain_5(s, 4);
    }
    if k == 2 {
        lemma_chain_5(s, 3);
    }
    if k == 3 {
        lemma_chain_5(s, 2);
    }
    if k == 4 {
        lemma_chain_5(s, 1);
    }
}

/// Pattern 0 4 3 1 2: the stored instructions, the order of A they leave, and that
/// this order is ascending up to a rotation whatever the shift `k` of the ranks.
#[verifier::spinoff_prover]
#[verifier::rlimit(60)]
proof fn lemma_case_04312(a: Seq<i32>, b: Seq<i32>, r: Seq<int>, k: int)
    requires
        a.len() == 5,
        r.len() == 5,
        0 <= k < 5,
        forall|i: int, j: int|
            0 <= i < 5 && 0 <= j < 5 ==> (#[trigger] a[i] < #[trigger] a[j] <==> r[i] < r[j]),
        r[0] == shifted(0, k, 5),
        r[1] == shifted(4, k, 5),
        r[2] == shifted(3, k, 5),
        r[3] == shifted(1, k, 5),
        r[4] == shifted(2, k, 5),
    ensures
        run((a, b), seq![Op::Sa, Op::Ra, Op::Sa, Op::Rra, Op::Sa]) == (
            seq![a[2], a[1], a[0], a[3], a[4]],
            b,
        ),
        cyc_sorted(seq![a[2], a[1], a[0], a[3], a[4]], Direction::Ba),
{
    let st = (a, b);
    let e0 = Seq::<Op>::empty();
    assert(run(st, e0) == st);
    assert(a =~= seq![a[0], a[1], a[2], a[3], a[4]]);
    let e1 = e0.push(Op::Sa);
    lemma_run_push(st, e0, Op::Sa);
    assert(run(st, e1).0 =~= seq![a[1], a[0], a[2], a[3], a[4]]);
    let e2 = e1.push(Op::Ra);
    lemma_run_push(st, e1, Op::Ra);
    assert(run(st, e2).0 =~= seq![a[0], a[2], a[3], a[4], a[1]]);
    let e3 = e2.push(Op::Sa);
    lemma_run_push(st, e2, Op::Sa);
    assert(run(st, e3).0 =~= seq![a[2], a[0], a[3], a[4], a[1]]);
    let e4 = e3.push(Op::Rra);
    lemma_run_push(st, e3, Op::Rra);
    assert(run(st, e4).0 =~= seq![a[1], a[2], a[0], a[3], a[4]]);
    let e5 = e4.push(Op::Sa);
    lemma_run_push(st, e4, Op::Sa);
    assert(run(st, e5).0 =~= seq![a[2], a[1], a[0], a[3], a[4]]);
    assert(e5 =~= seq![Op::Sa, Op::Ra, Op::Sa, Op::Rra, Op::Sa]);
    let s = seq![a[2], a[1], a[0], a[3], a[4]];
    if k == 0 {
        lemma_chain_5(s, 2);
    }
    if k == 1 {
        lemma_chain_5(s, 1);
    }
    if k == 2 {
        lemma_chain_5(s, 0);
    }
    if k == 3 {
        lemma_chain_5(s, 4);
    }
    if k == 4 {
        lemma_chain_5(s, 3);
    }
}

/// Pattern 0 4 3 2 1: the stored instructions, the order of A they leave, and that
/// this order is ascending up to a rotation whatever the shift `k` of the ranks.
#[verifier::spinoff_prover]
#[verifier::rlimit(60)]
proof fn lemma_case_04321(a: Seq<i32>, b: Seq<i32>, r: Seq<int>, k: int)
    requires
        a.len() == 5,
        r.len() == 5,
        0 <= k < 5,
        forall|i: int, j: int|
            0 <= i < 5 && 0 <= j < 5 ==> (#[trigger] a[i] < #[trigger] a[j] <==> r[i] < r[j]),
        r[0] == shifted(0, k, 5),
        r[1] == shifted(4, k, 5),
        r[2] == shifted(3, k, 5),
        r[3] == shifted(2, k, 5),
        r[4] == shifted(1, k, 5),
    ensures
        run((a, b), seq![Op::Sa, Op::Ra, Op::Ra, Op::Sa, Op::Ra, Op::Sa, Op::Rra, Op::Sa]) == (
            seq![a[4], a[3], a[2], a[1], a[0]],
            b,
        ),
        cyc_sorted(seq![a[4], a[3], a[2], a[1], a[0]], Direction::Ba),
{
    let st = (a, b);
    let e0 = Seq::<Op>::empty();
    assert(run(st, e0) == st);
    assert(a =~= seq![a[0], a[1], a[2], a[3], a[4]]);
    let e1 = e0.push(Op::Sa);
    lemma_run_push(st, e0, Op::Sa);
    assert(run(st, e1).0 =~= seq![a[1], a[0], a[2], a[3], a[4]]);
    let e2 = e1.push(Op::Ra);
    lemma_run_push(st, e1, Op::Ra);
    assert(run(st, e2).0 =~= seq![a[0], a[2], a[3], a[4], a[1]]);
    let e3 = e2.push(Op::Ra);
    lemma_run_push(st, e2, Op::Ra);
    assert(run(st, e3).0 =~= seq![a[2], a[3], a[4], a[1], a[0]]);
    let e4 = e3.push(Op::Sa);
    lemma_run_push(st, e3, Op::Sa);
    assert(run(st, e4).0 =~= seq![a[3], a[2], a[4], a[1], a[0]]);
    let e5 = e4.push(Op::Ra);
    lemma_run_push(st, e4, Op::Ra);
    assert(run(st, e5).0 =~= seq![a[2], a[4], a[1], a[0], a[3]]);
    let e6 = e5.push(Op::Sa);
    lemma_run_push(st, e5, Op::Sa);
    assert(run(st, e6).0 =~= seq![a[4], a[2], a[1], a[0], a[3]]);
    let e7 = e6.push(Op::Rra);
    lemma_run_push(st, e6, Op::Rra);
    assert(run(st, e7).0 =~= seq![a[3], a[4], a[2], a[1], a[0]]);
    let e8 = e7.push(Op::Sa);
    lemma_run_push(st, e7, Op::Sa);
    assert(run(st, e8).0 =~= seq![a[4], a[3], a[2], a[1], a[0]]);
    assert(e8 =~= seq![Op::Sa, Op::Ra, Op::Ra, Op::Sa, Op::Ra, Op::Sa, Op::Rra, Op::Sa]);
    let s = seq![a[4], a[3], a[2], a[1], a[0]];
    if k == 0 {
        lemma_chain_5(s, 4);
    }
    if k == 1 {
        lemma_chain_5(s, 3);
    }
    if k == 2 {
        lemma_chain_5(s, 2);
    }
    if k == 3 {
        lemma_chain_5(s, 1);
    }
    if k == 4 {
        lemma_chain_5(s, 0);
    }
}

/// A stack of 2 values, identified by its shifted pattern `q`: the table's entry
/// keeps B and the values of A, and leaves A ascending up to a rotation.
proof fn lemma_table_len_2(a: Seq<i32>, b: Seq<i32>, r: Seq<int>, k: int, q: Seq<int>)
    requires
        a.len() == 2,
        r.len() == 2,
        q.len() == 2,
        0 <= k < 2,
        forall|i: int, j: int|
            0 <= i < 2 && 0 <= j < 2 ==> (#[trigger] a[i] < #[trigger] a[j] <==> r[i] < r[j]),
        forall|i: int| 0 <= i < 2 ==> #[trigger] r[i] == shifted(q[i], k, 2),
        forall|i: int| 0 <= i < 2 ==> 0 <= #[trigger] q[i] < 2,
        forall|i: int, j: int| 0 <= i < j < 2 ==> q[i] != q[j],
        q[0] == 0,
    ensures
        run((a, b), table_entry(q)).1 == b,
        run((a, b), table_entry(q)).0.to_multiset() == a.to_multiset(),
        cyc_sorted(run((a, b), table_entry(q)).0, Direction::Ba),
{
    lemma_numeral_2(q);
    if q[1] == 1 {
        assert(numeral(q) == 1);
        lemma_case_01(a, b, r, k);
    }
    lemma_run_contents((a, b), table_entry(q));
    lemma_add_cancel(run((a, b), table_entry(q)).0.to_multiset(), a.to_multiset(), b.to_multiset());
}

/// A stack of 3 values, identified by its shifted pattern `q`: the table's entry
/// keeps B and the values of A, and leaves A ascending up to a rotation.
proof fn lemma_table_len_3(a: Seq<i32>, b: Seq<i32>, r: Seq<int>, k: int, q: Seq<int>)
    requires
        a.len() == 3,
        r.len() == 3,
        q.len() == 3,
        0 <= k < 3,
        forall|i: int, j: int|
            0 <= i < 3 && 0 <= j < 3 ==> (#[trigger] a[i] < #[trigger] a[j] <==> r[i] < r[j]),
        forall|i: int| 0 <= i < 3 ==> #[trigger] r[i] == shifted(q[i], k, 3),
        forall|i: int| 0 <= i < 3 ==> 0 <= #[trigger] q[i] < 3,
        forall|i: int, j: int| 0 <= i < j < 3 ==> q[i] != q[j],
        q[0] == 0,
    ensures
        run((a, b), table_entry(q)).1 == b,
        run((a, b), table_entry(q)).0.to_multiset() == a.to_multiset(),
        cyc_sorted(run((a, b), table_entry(q)).0, Direction::Ba),
{
    lemma_numeral_3(q);
    if q[1] == 1 && q[2] == 2 {
        assert(numeral(q) == 12);
        lemma_case_012(a, b, r, k);
    } else if q[1] == 2 && q[2] == 1 {
        assert(numeral(q) == 21);
        lemma_case_021(a, b, r, k);
    }
    lemma_run_contents((a, b), table_entry(q));
    lemma_add_cancel(run((a, b), table_entry(q)).0.to_multiset(), a.to_multiset(), b.to_multiset());
}

/// A stack of 4 values, identified by its shifted pattern `q`: the table's entry
/// keeps B and the values of A, and leaves A ascending up to a rotation.
proof fn lemma_table_len_4(a: Seq<i32>, b: Seq<i32>, r: Seq<int>, k: int, q: Seq<int>)
    requires
        a.len() == 4,
        r.len() == 4,
        q.len() == 4,
        0 <= k < 4,
        forall|i: int, j: int|
            0 <= i < 4 && 0 <= j < 4 ==> (#[trigger] a[i] < #[trigger] a[j] <==> r[i] < r[j]),
        forall|i: int| 0 <= i < 4 ==> #[trigger] r[i] == shifted(q[i], k, 4),
        forall|i: int| 0 <= i < 4 ==> 0 <= #[trigger] q[i] < 4,
        forall|i: int, j: int| 0 <= i < j < 4 ==> q[i] != q[j],
        q[0] == 0,
    ensures
        run((a, b), table_entry(q)).1 == b,
        run((a, b), table_entry(q)).0.to_multiset() == a.to_multiset(),
        cyc_sorted(run((a, b), table_entry(q)).0, Direction::Ba),
{
    lemma_numeral_4(q);
    if q[1] == 1 && q[2] == 2 && q[3] == 3 {
        assert(numeral(q) == 123);
        lemma_case_0123(a, b, r, k);
    } else if q[1] == 1 && q[2] == 3 && q[3] == 2 {
        assert(numeral(q) == 132);
        lemma_case_0132(a, b, r, k);
    } else if q[1] == 2 && q[2] == 1 && q[3] == 3 {
        assert(numeral(q) == 213);
        lemma_case_0213(a, b, r, k);
    } else if q[1] == 2 && q[2] == 3 && q[3] == 1 {
        assert(numeral(q) == 231);
        lemma_case_0231(a, b, r, k);
    } else if q[1] == 3 && q[2] == 1 && q[3] == 2 {
        assert(numeral(q) == 312);
        lemma_case_0312(a, b, r, k);
    } else if q[1] == 3 && q[2] == 2 && q[3] == 1 {
        assert(numeral(q) == 321);
        lemma_case_0321(a, b, r, k);
    }
    lemma_run_contents((a, b), table_entry(q));
    lemma_add_cancel(run((a, b), table_entry(q)).0.to_multiset(), a.to_multiset(), b.to_multiset());
}

/// A stack of 5 values, identified by its shifted pattern `q`: the table's entry
/// keeps B and the values of A, and leaves A ascending up to a rotation.
proof fn lemma_table_len_5(a: Seq<i32>, b: Seq<i32>, r: Seq<int>, k: int, q: Seq<int>)
    requires
        a.len() == 5,
        r.len() == 5,
        q.len() == 5,
        0 <= k < 5,
        forall|i: int, j: int|
            0 <= i < 5 && 0 <= j < 5 ==> (#[trigger] a[i] < #[trigger] a[j] <==> r[i] < r[j]),
        forall|i: int| 0 <= i < 5 ==> #[trigger] r[i] == shifted(q[i], k, 5),
        forall|i: int| 0 <= i < 5 ==> 0 <= #[trigger] q[i] < 5,
        forall|i: int, j: int| 0 <= i < j < 5 ==> q[i] != q[j],
        q[0] == 0,
    ensures
        run((a, b), table_entry(q)).1 == b,
        run((a, b), table_entry(q)).0.to_multiset() == a.to_multiset(),
        cyc_sorted(run((a, b), table_entry(q)).0, Direction::Ba),
{
    lemma_numeral_5(q);
    if q[1] == 1 && q[2] == 2 && q[3] == 3 && q[4] == 4 {
        assert(numeral(q) == 1234);
        lemma_case_01234(a, b, r, k);
    } else if q[1] == 1 && q[2] == 2 && q[3] == 4 && q[4] == 3 {
        assert(numeral(q) == 1243);
        lemma_case_01243(a, b, r, k);
    } else if q[1] == 1 && q[2] == 3 && q[3] == 2 && q[4] == 4 {
        assert(numeral(q) == 1324);
        lemma_case_01324(a, b, r, k);
    } else if q[1] == 1 && q[2] == 3 && q[3] == 4 && q[4] == 2 {
        assert(numeral(q) == 1342);
        lemma_case_01342(a, b, r, k);
    } else if q[1] == 1 && q[2] == 4 && q[3] == 2 && q[4] == 3 {
        assert(numeral(q) == 1423);
        lemma_case_01423(a, b, r, k);
    } else if q[1] == 1 && q[2] == 4 && q[3] == 3 && q[4] == 2 {
        assert(numeral(q) == 1432);
        lemma_case_01432(a, b, r, k);
    } else if q[1] == 2 && q[2] == 1 && q[3] == 3 && q[4] == 4 {
        assert(numeral(q) == 2134);
        lemma_case_02134(a, b, r, k);
    } else if q[1] == 2 && q[2] == 1 && q[3] == 4 && q[4] == 3 {
        assert(numeral(q) == 2143);
        lemma_case_02143(a, b, r, k);
    } else if q[1] == 2 && q[2] == 3 && q[3] == 1 && q[4] == 4 {
        assert(numeral(q) == 2314);
        lemma_case_02314(a, b, r, k);
    } else if q[1] == 2 && q[2] == 3 && q[3] == 4 && q[4] == 1 {
        assert(numeral(q) == 2341);
        lemma_case_02341(a, b, r, k);
    } else if q[1] == 2 && q[2] == 4 && q[3] == 1 && q[4] == 3 {
        assert(numeral(q) == 2413);
        lemma_case_02413(a, b, r, k);
    } else if q[1] == 2 && q[2] == 4 && q[3] == 3 && q[4] == 1 {
        assert(numeral(q) == 2431);
        lemma_case_02431(a, b, r, k);
    } else if q[1] == 3 && q[2] == 1 && q[3] == 2 && q[4] == 4 {
        assert(numeral(q) == 3124);
        lemma_case_03124(a, b, r, k);
    } else if q[1] == 3 && q[2] == 1 && q[3] == 4 && q[4] == 2 {
        assert(numeral(q) == 3142);
        lemma_case_03142(a, b, r, k);
    } else if q[1] == 3 && q[2] == 2 && q[3] == 1 && q[4] == 4 {
        assert(numeral(q) == 3214);
        lemma_case_03214(a, b, r, k);
    } else if q[1] == 3 && q[2] == 2 && q[3] == 4 && q[4] == 1 {
        assert(numeral(q) == 3241);
        lemma_case_03241(a, b, r, k);
    } else if q[1] == 3 && q[2] == 4 && q[3] == 1 && q[4] == 2 {
        assert(numeral(q) == 3412);
        lemma_case_03412(a, b, r, k);
    } else if q[1] == 3 && q[2] == 4 && q[3] == 2 && q[4] == 1 {
        assert(numeral(q) == 3421);
        lemma_case_03421(a, b, r, k);
    } else if q[1] == 4 && q[2] == 1 && q[3] == 2 && q[4] == 3 {
        assert(numeral(q) == 4123);
        lemma_case_04123(a, b, r, k);
    } else if q[1] == 4 && q[2] == 1 && q[3] == 3 && q[4] == 2 {
        assert(numeral(q) == 4132);
        lemma_case_04132(a, b, r, k);
    } else if q[1] == 4 && q[2] == 2 && q[3] == 1 && q[4] == 3 {
        assert(numeral(q) == 4213);
        lemma_case_04213(a, b, r, k);
    } else if q[1] == 4 && q[2] == 2 && q[3] == 3 && q[4] == 1 {
        assert(numeral(q) == 4231);
        lemma_case_04231(a, b, r, k);
    } else if q[1] == 4 && q[2] == 3 && q[3] == 1 && q[4] == 2 {
        assert(numeral(q) == 4312);
        lemma_case_04312(a, b, r, k);
    } else if q[1] == 4 && q[2] == 3 && q[3] == 2 && q[4] == 1 {
        assert(numeral(q) == 4321);
        lemma_case_04321(a, b, r, k);
    }
    lemma_run_contents((a, b), table_entry(q));
    lemma_add_cancel(run((a, b), table_entry(q)).0.to_multiset(), a.to_multiset(), b.to_multiset());
}

/// Instructions that only swap or rotate A.
pub open spec fn a_only(ops: Seq<Op>) -> bool {
    forall|i: int| 0 <= i < ops.len() ==> #[trigger] ops[i] == Op::Sa || ops[i] == Op::Ra || ops[i]
        == Op::Rra
}

/// The stored entries only swap or rotate A.
#[verifier::rlimit(60)]
pub proof fn lemma_entries_a_only(c: int)
    ensures
        a_only(entry_for_numeral(c)),
{
}

/// Swaps and rotations of an A of two or more elements find their operands and keep
/// A's length.
proof fn lemma_a_only_valid(st: Pair, ops: Seq<Op>)
    requires
        st.0.len() >= 2,
        a_only(ops),
    ensures
        valid_run(st, ops),
        run(st, ops).0.len() == st.0.len(),
    decreases ops.len(),
{
    if ops.len() > 0 {
        assert(a_only(ops.drop_last()));
        lemma_a_only_valid(st, ops.drop_last());
        assert(ops[ops.len() - 1] == Op::Sa || ops[ops.len() - 1] == Op::Ra || ops[ops.len() - 1]
            == Op::Rra);
    }
}

/// The table's entry only swaps or rotates A.
pub proof fn lemma_table_a_only(a: Seq<i32>)
    ensures
        a_only(table_entry(pattern(a))),
{
    if 2 <= pattern(a).len() <= 5 {
        lemma_entries_a_only(numeral(pattern(a)));
    }
}

/// Every instruction of the table's entry finds its operands.
pub proof fn lemma_table_valid(st: Pair)
    ensures
        valid_run(st, table_entry(pattern(st.0))),
{
    let q = pattern(st.0);
    if 2 <= q.len() <= 5 {
        lemma_entries_a_only(numeral(q));
        lemma_a_only_valid(st, table_entry(q));
    } else {
        assert(valid_run(st, Seq::<Op>::empty()));
    }
}

/// The small-case table brings every stack A of at most five distinct values into
/// ascending order up to a rotation, using A alone.
pub proof fn lemma_table_sorts(a: Seq<i32>, b: Seq<i32>)
    requires
        a.len() <= 5,
        a.no_duplicates(),
    ensures
        run((a, b), table_entry(pattern(a))).1 == b,
        run((a, b), table_entry(pattern(a))).0.to_multiset() == a.to_multiset(),
        cyc_sorted(run((a, b), table_entry(pattern(a))).0, Direction::Ba),
{
    let n = a.len() as int;
    let q = pattern(a);
    if n < 2 {
        assert(run((a, b), Seq::<Op>::empty()) == (a, b));
        assert(split_sorted(a, 0, Direction::Ba));
        return;
    }
    let r = Seq::new(n as nat, |i: int| count_below(a, a[i]) as int);
    let k = r[0];
    assert forall|i: int| 0 <= i < n implies 0 <= #[trigger] r[i] < n by {
        lemma_count_below_bound(a, a[i]);
        assert(a.contains(a[i]));
    }
    assert forall|i: int, j: int| 0 <= i < n && 0 <= j < n implies (#[trigger] a[i]
        < #[trigger] a[j] <==> r[i] < r[j]) by {
        if a[i] < a[j] {
            assert(a.contains(a[i]));
            lemma_count_mono(a, a[i], a[j]);
        } else if a[j] < a[i] {
            assert(a.contains(a[j]));
            lemma_count_mono(a, a[j], a[i]);
        } else if i != j {
            assert(a[i] != a[j]);
        }
    }
    assert forall|i: int| 0 <= i < n implies #[trigger] r[i] == shifted(q[i], k, n) && 0 <= q[i]
        < n by {
        let ri = r[i];
        if ri >= k {
            lemma_mod_add_multiples_vanish(ri - k, n);
            lemma_small_mod((ri - k) as nat, n as nat);
            assert(ri + (n - k) == n + (ri - k));
        } else {
            lemma_small_mod((ri + (n - k)) as nat, n as nat);
        }
    }
    assert forall|i: int, j: int| 0 <= i < j < n implies q[i] != q[j] by {
        assert(r[i] == shifted(q[i], k, n));
        assert(r[j] == shifted(q[j], k, n));
        assert(a[i] != a[j]);
        assert(!(a[i] < a[j] && a[j] < a[i]));
    }
    assert(q[0] == 0) by {
        assert(r[0] == shifted(q[0], k, n));
    }
    if n == 2 {
        lemma_table_len_2(a, b, r, k, q);
    } else if n == 3 {
        lemma_table_len_3(a, b, r, k, q);
    } else if n == 4 {
        lemma_table_len_4(a, b, r, k, q);
    } else {
        lemma_table_len_5(a, b, r, k, q);
    }
}

} // verus!
