use crate::cost::{
    best_moves, candidate, dst_of, get_best_ops, is_candidate, is_place, lemma_moves_shape,
    lemma_phase_concat, moves_ops, phase_ops, place, push_op, repeat, src_of, Direction,
};
use crate::machine::{
    count_op, lemma_count_absent, lemma_count_concat, lemma_run_concat, lemma_valid_concat, run,
    valid_run, Op, Pair, Stacks,
};
use crate::order::{
    ascending, contents, cyc_sorted, distinct, lemma_move_keeps, lemma_rotl_keeps,
    lemma_parts_distinct, phase_ready, split_sorted,
};
use crate::rotation::{
    lemma_move_effect, lemma_rotl_wrap, lemma_rotl_zero, lemma_run_repeat, lemma_valid_repeat,
    rotate_pair, rotl,
};
use crate::table::{pattern, small_case_ops, table_entry};
use crate::table_proof::{a_only, lemma_table_a_only, lemma_table_sorts, lemma_table_valid};
use std::collections::VecDeque;
use vstd::arithmetic::div_mod::{lemma_mod_bound, lemma_small_mod};
use vstd::prelude::*;

verus! {

/// The budget for comparing tied moves that the command line uses.
pub const BACK_TRACK: usize = 5;

/// The search: its instruction list so far and its budget for comparing tied moves.
pub struct Solver {
    pub ops: Vec<Op>,
    pub budget: usize,
}

/// The state that a phase must reach: `until` elements left on the source (all of
/// them if there were no more), and the same values as `start`, none repeated.
pub open spec fn phase_end(start: Pair, end: Pair, dir: Direction, until: usize) -> bool {
    &&& src_of(end, dir).len() == if src_of(start, dir).len() <= until {
        src_of(start, dir).len()
    } else {
        until as nat
    }
    &&& distinct(contents(end))
    &&& contents(end) == contents(start)
    &&& end.0.len() + end.1.len() == start.0.len() + start.1.len()
}

/// The instructions that `solve` records for A (B empty) with the given budget: the
/// search from A to B down to five elements, the table's entry for what is left in A,
/// the search from B back to A, and the closing rotation.
pub open spec fn solution(a: Seq<i32>, budget: nat) -> Seq<Op> {
    let st0 = (a, Seq::<i32>::empty());
    let t1 = search(st0, Direction::Ab, 5, budget, a.len());
    let st1 = run(st0, t1);
    let t2 = table_entry(pattern(st1.0));
    let st2 = run(st1, t2);
    let t3 = search(st2, Direction::Ba, 0, budget, st2.1.len());
    let st3 = run(st2, t3);
    t1 + t2 + t3 + align_ops(st3.0)
}

/// Where `start` has the phase's order, `end` has it too.
#[verifier::opaque]
pub open spec fn keeps_order(start: Pair, end: Pair, dir: Direction) -> bool {
    phase_ready(start, dir) ==> phase_ready(end, dir)
}

proof fn lemma_keeps_order_refl(st: Pair, dir: Direction)
    ensures
        keeps_order(st, st, dir),
{
    reveal(keeps_order);
}

proof fn lemma_keeps_order_trans(x: Pair, y: Pair, z: Pair, dir: Direction)
    requires
        keeps_order(x, y, dir),
        keeps_order(y, z, dir),
    ensures
        keeps_order(x, z, dir),
{
    reveal(keeps_order);
}

/// The shortest length among the candidates of source elements `0..k` (`k >= 1`).
pub open spec fn min_cand_len(st: Pair, dir: Direction, k: nat) -> nat
    decreases k,
{
    if k <= 1 {
        candidate(st, dir, 0).len()
    } else {
        let m = min_cand_len(st, dir, (k - 1) as nat);
        let l = candidate(st, dir, k - 1).len();
        if l < m {
            l
        } else {
            m
        }
    }
}

/// The instructions that the search returns: nothing once the source holds at most
/// `until` elements; otherwise the best of the cheapest candidates, each followed by
/// the search from the state it leaves with one less budget. `fuel` is the number
/// of elements on the source.
#[verifier::opaque]
pub open spec fn search(st: Pair, dir: Direction, until: nat, budget: nat, fuel: nat) -> Seq<Op>
    decreases fuel, 1nat, 0nat,
{
    if fuel == 0 || src_of(st, dir).len() <= until {
        seq![]
    } else {
        match pick(st, dir, until, budget, fuel, src_of(st, dir).len()) {
            Some(s) => s,
            None => seq![],
        }
    }
}

/// The search's choice among the candidates of source elements `0..k`, in source order:
/// a cheapest candidate followed by its continuation, replaced only by a strictly
/// shorter one; with no budget left, the first cheapest candidate alone is tried.
#[verifier::opaque]
pub open spec fn pick(
    st: Pair,
    dir: Direction,
    until: nat,
    budget: nat,
    fuel: nat,
    k: nat,
) -> Option<Seq<Op>>
    decreases fuel, 0nat, k,
{
    if k == 0 || fuel == 0 {
        None
    } else {
        let prev = pick(st, dir, until, budget, fuel, (k - 1) as nat);
        let c = candidate(st, dir, k - 1);
        if c.len() != min_cand_len(st, dir, src_of(st, dir).len()) || (budget == 0
            && prev is Some) {
            prev
        } else {
            let next_budget: nat = if budget > 0 {
                (budget - 1) as nat
            } else {
                0
            };
            let b = c + search(run(st, c), dir, until, next_budget, (fuel - 1) as nat);
            match prev {
                Some(p) => if p.len() <= b.len() {
                    prev
                } else {
                    Some(b)
                },
                None => Some(b),
            }
        }
    }
}

/// Performing one cheapest candidate keeps the values, and the phase's order where
/// there was one, and takes one element off the source.
proof fn lemma_candidate_keeps(st: Pair, dir: Direction, i: int, ops: Seq<Op>)
    requires
        distinct(contents(st)),
        0 <= i < src_of(st, dir).len(),
        is_candidate(st, dir, i, ops),
        st.0.len() + st.1.len() <= usize::MAX,
    ensures
        keeps_order(st, run(st, ops), dir),
        distinct(contents(run(st, ops))),
        contents(run(st, ops)) == contents(st),
        src_of(run(st, ops), dir).len() == src_of(st, dir).len() - 1,
        run(st, ops).0.len() + run(st, ops).1.len() == st.0.len() + st.1.len(),
        valid_run(st, ops),
{
    let j = choose|j: int|
        is_place(dst_of(st, dir), src_of(st, dir)[i], dir, j) && ops == moves_ops(
            best_moves(i, src_of(st, dir).len() as int, j, dst_of(st, dir).len() as int),
            dir,
        );
    lemma_move_effect(st, dir, i, j);
    lemma_move_keeps(st, dir, i, j);
    reveal(keeps_order);
    let nx = run(st, ops);
    vstd::seq_lib::lemma_multiset_commutative(st.0, st.1);
    vstd::seq_lib::lemma_multiset_commutative(nx.0, nx.1);
    broadcast use vstd::seq_lib::group_to_multiset_ensures;

    assert(contents(nx).len() == contents(st).len());
}

/// Once the source holds at most `until` elements the search returns nothing.
proof fn lemma_search_done(st: Pair, dir: Direction, until: nat, budget: nat, fuel: nat)
    requires
        src_of(st, dir).len() <= until,
    ensures
        search(st, dir, until, budget, fuel) == Seq::<Op>::empty(),
{
    reveal(search);
}

/// Before any candidate there is no choice.
proof fn lemma_pick_none(st: Pair, dir: Direction, until: nat, budget: nat, fuel: nat)
    ensures
        pick(st, dir, until, budget, fuel, 0) is None,
{
    reveal(pick);
}

/// `search` when the source holds more than `until`: the choice among all candidates.
proof fn lemma_search_unfold(st: Pair, dir: Direction, until: nat, budget: nat, fuel: nat)
    requires
        src_of(st, dir).len() > until,
        fuel > 0,
    ensures
        search(st, dir, until, budget, fuel) == match pick(
            st,
            dir,
            until,
            budget,
            fuel,
            src_of(st, dir).len(),
        ) {
            Some(s) => s,
            None => seq![],
        },
{
    reveal(search);
    reveal(pick);
}

/// A candidate that is not tried leaves the choice as it was.
proof fn lemma_pick_skip(st: Pair, dir: Direction, until: nat, budget: nat, fuel: nat, c: nat)
    requires
        fuel > 0,
        candidate(st, dir, c as int).len() != min_cand_len(st, dir, src_of(st, dir).len()) || (
        budget == 0 && pick(st, dir, until, budget, fuel, c) is Some),
    ensures
        pick(st, dir, until, budget, fuel, c + 1) == pick(st, dir, until, budget, fuel, c),
{
    reveal(search);
    reveal(pick);
}

/// A tried candidate, followed by the search from the state it leaves, replaces the
/// choice when there is none yet or when it is strictly shorter.
proof fn lemma_pick_try(
    st: Pair,
    dir: Direction,
    until: nat,
    budget: nat,
    fuel: nat,
    c: nat,
    rest: Seq<Op>,
)
    requires
        fuel > 0,
        candidate(st, dir, c as int).len() == min_cand_len(st, dir, src_of(st, dir).len()),
        budget > 0 || pick(st, dir, until, budget, fuel, c) is None,
        rest == search(
            run(st, candidate(st, dir, c as int)),
            dir,
            until,
            if budget > 0 {
                (budget - 1) as nat
            } else {
                0nat
            },
            (fuel - 1) as nat,
        ),
    ensures
        pick(st, dir, until, budget, fuel, c + 1) == match pick(st, dir, until, budget, fuel, c) {
            Some(p) => if p.len() <= (candidate(st, dir, c as int) + rest).len() {
                Some(p)
            } else {
                Some(candidate(st, dir, c as int) + rest)
            },
            None => Some(candidate(st, dir, c as int) + rest),
        },
{
    reveal(search);
    reveal(pick);
}

/// A solution's shape: `k` pushes to B and `k` back to A, no instruction on B alone
/// but rotations, no `ss`, and every `pb` before every `sa` and every `pa`.
pub open spec fn solution_shape(e: Seq<Op>, k: nat) -> bool {
    &&& count_op(e, Op::Pb) == k
    &&& count_op(e, Op::Pa) == k
    &&& forall|i: int| 0 <= i < e.len() ==> #[trigger] e[i] != Op::Sb && e[i] != Op::Ss
    &&& forall|i: int, j: int|
        0 <= i < e.len() && 0 <= j < e.len() && #[trigger] e[i] == Op::Pb && (#[trigger] e[j]
            == Op::Sa || e[j] == Op::Pa) ==> i < j
}

/// Candidate `i` is one of the cheapest.
pub open spec fn is_tie(st: Pair, dir: Direction, i: int) -> bool {
    candidate(st, dir, i).len() == min_cand_len(st, dir, src_of(st, dir).len())
}

/// Budget one less, not below zero.
pub open spec fn less(budget: nat) -> nat {
    if budget > 0 {
        (budget - 1) as nat
    } else {
        0
    }
}

/// Candidate `i` followed by the search from the state it leaves.
pub open spec fn branch(
    st: Pair,
    dir: Direction,
    until: nat,
    budget: nat,
    fuel: nat,
    i: int,
) -> Seq<Op> {
    candidate(st, dir, i) + search(
        run(st, candidate(st, dir, i)),
        dir,
        until,
        less(budget),
        (fuel - 1) as nat,
    )
}

/// One more candidate in the choice, in terms of its branch.
proof fn lemma_pick_step(st: Pair, dir: Direction, until: nat, budget: nat, fuel: nat, k: nat)
    requires
        fuel > 0,
    ensures
        pick(st, dir, until, budget, fuel, k + 1) == if !is_tie(st, dir, k as int) || (budget == 0
            && pick(st, dir, until, budget, fuel, k) is Some) {
            pick(st, dir, until, budget, fuel, k)
        } else {
            match pick(st, dir, until, budget, fuel, k) {
                Some(p) => if p.len() <= branch(st, dir, until, budget, fuel, k as int).len() {
                    Some(p)
                } else {
                    Some(branch(st, dir, until, budget, fuel, k as int))
                },
                None => Some(branch(st, dir, until, budget, fuel, k as int)),
            }
        },
{
    let skipped = !is_tie(st, dir, k as int) || (budget == 0 && pick(
        st,
        dir,
        until,
        budget,
        fuel,
        k,
    ) is Some);
    if skipped {
        lemma_pick_skip(st, dir, until, budget, fuel, k);
    } else {
        let rest = search(
            run(st, candidate(st, dir, k as int)),
            dir,
            until,
            less(budget),
            (fuel - 1) as nat,
        );
        lemma_pick_try(st, dir, until, budget, fuel, k, rest);
    }
}

/// What the choice among candidates `0..k` is: a cheapest candidate's branch, the
/// first one when no budget is left, otherwise no longer than any cheapest branch.
proof fn lemma_pick_props(st: Pair, dir: Direction, until: nat, budget: nat, fuel: nat, k: nat)
    requires
        fuel > 0,
    ensures
        (exists|i: int| 0 <= i < k && #[trigger] is_tie(st, dir, i)) ==> pick(
            st,
            dir,
            until,
            budget,
            fuel,
            k,
        ) is Some,
        pick(st, dir, until, budget, fuel, k) matches Some(p) ==> exists|i: int|
            0 <= i < k && #[trigger] is_tie(st, dir, i) && p == branch(
                st,
                dir,
                until,
                budget,
                fuel,
                i,
            ),
        budget > 0 ==> (pick(st, dir, until, budget, fuel, k) matches Some(p) ==> forall|i: int|
            0 <= i < k && #[trigger] is_tie(st, dir, i) ==> p.len() <= branch(
                st,
                dir,
                until,
                budget,
                fuel,
                i,
            ).len()),
    decreases k,
{
    if k == 0 {
        lemma_pick_none(st, dir, until, budget, fuel);
    } else {
        let j = k - 1;
        lemma_pick_props(st, dir, until, budget, fuel, j as nat);
        lemma_pick_step(st, dir, until, budget, fuel, j as nat);
        let prev = pick(st, dir, until, budget, fuel, j as nat);
        let cur = pick(st, dir, until, budget, fuel, k);
        let b = branch(st, dir, until, budget, fuel, j);
        assert(less(budget) == if budget > 0 {
            (budget - 1) as nat
        } else {
            0nat
        });
        assert(b == candidate(st, dir, j) + search(
            run(st, candidate(st, dir, j)),
            dir,
            until,
            if budget > 0 {
                (budget - 1) as nat
            } else {
                0nat
            },
            (fuel - 1) as nat,
        ));
        assert(((k - 1) as nat) == j);
        if !is_tie(st, dir, j) || (budget == 0 && prev is Some) {
            assert(cur == prev);
            if prev is Some {
                let w = choose|i: int|
                    0 <= i < j && #[trigger] is_tie(st, dir, i) && prev->Some_0 == branch(
                        st,
                        dir,
                        until,
                        budget,
                        fuel,
                        i,
                    );
                assert(0 <= w < k && is_tie(st, dir, w));
            }
        } else {
            if prev is Some {
                let p = prev->Some_0;
                if p.len() <= b.len() {
                    assert(cur == prev);
                    let w = choose|i: int|
                        0 <= i < j && #[trigger] is_tie(st, dir, i) && p == branch(
                            st,
                            dir,
                            until,
                            budget,
                            fuel,
                            i,
                        );
                    assert(0 <= w < k && is_tie(st, dir, w));
                } else {
                    assert(cur == Some(b));
                    assert(0 <= j < k && is_tie(st, dir, j));
                }
            } else {
                assert(cur == Some(b));
                assert(0 <= j < k && is_tie(st, dir, j));
                assert forall|i: int| 0 <= i < j implies !#[trigger] is_tie(st, dir, i) by {}
            }
        }
    }
}

/// A larger budget never gives a longer list: the search with budget `g2` is at most
/// as long as with `g1 <= g2`, and the greedy search (budget 0) bounds them all.
pub proof fn lemma_budget_monotone(
    st: Pair,
    dir: Direction,
    until: nat,
    g1: nat,
    g2: nat,
    fuel: nat,
)
    requires
        g1 <= g2,
    ensures
        search(st, dir, until, g2, fuel).len() <= search(st, dir, until, g1, fuel).len(),
    decreases fuel,
{
    reveal(search);
    let ns = src_of(st, dir).len();
    if fuel > 0 && ns > until && g1 != g2 {
        lemma_search_unfold(st, dir, until, g1, fuel);
        lemma_search_unfold(st, dir, until, g2, fuel);
        lemma_pick_props(st, dir, until, g1, fuel, ns);
        lemma_pick_props(st, dir, until, g2, fuel, ns);
        let p1 = pick(st, dir, until, g1, fuel, ns);
        let p2 = pick(st, dir, until, g2, fuel, ns);
        if p1 is Some {
            let v1 = p1->Some_0;
            let i = choose|i: int|
                0 <= i < ns && #[trigger] is_tie(st, dir, i) && v1 == branch(
                    st,
                    dir,
                    until,
                    g1,
                    fuel,
                    i,
                );
            let c = candidate(st, dir, i);
            lemma_budget_monotone(run(st, c), dir, until, less(g1), less(g2), (fuel - 1) as nat);
            assert(p2 is Some);
            let v2 = p2->Some_0;
            assert(v2.len() <= branch(st, dir, until, g2, fuel, i).len());
            assert(search(st, dir, until, g1, fuel) == v1);
            assert(search(st, dir, until, g2, fuel) == v2);
        } else {
            assert forall|i: int| 0 <= i < ns implies !#[trigger] is_tie(st, dir, i) by {}
            assert(p2 is None);
        }
    }
}

/// `m` is the first position of the smallest value of `s`.
pub open spec fn is_first_min(s: Seq<i32>, m: int) -> bool {
    &&& 0 <= m < s.len()
    &&& forall|k: int| 0 <= k < s.len() ==> s[m] <= s[k]
    &&& forall|k: int| 0 <= k < m ==> s[k] > s[m]
}

pub open spec fn min_index(s: Seq<i32>) -> int {
    choose|m: int| is_first_min(s, m)
}

/// The closing rotation of A: its smallest value brought to the top the shorter way.
pub open spec fn align_ops(a: Seq<i32>) -> Seq<Op> {
    if a.len() == 0 {
        seq![]
    } else if min_index(a) < a.len() - min_index(a) {
        repeat(Op::Ra, min_index(a) as nat)
    } else {
        repeat(Op::Rra, (a.len() - min_index(a)) as nat)
    }
}

proof fn lemma_first_min_unique(s: Seq<i32>, m: int)
    requires
        is_first_min(s, m),
    ensures
        min_index(s) == m,
{
    let c = min_index(s);
    assert(is_first_min(s, c));
    if c < m {
        assert(s[c] > s[m]);
    } else if m < c {
        assert(s[m] > s[c]);
    }
}

/// The closing rotation turns A so that its smallest value leads.
proof fn lemma_align_effect(st: Pair, m: int)
    requires
        is_first_min(st.0, m),
    ensures
        run(st, align_ops(st.0)) == (rotl(st.0, min_index(st.0)), st.1),
{
    let a = st.0;
    let n = a.len() as int;
    lemma_rotl_zero(st.0);
    lemma_rotl_zero(st.1);
    assert(rotate_pair(st, 0, 0) == st);
    lemma_first_min_unique(a, m);
    let mi = min_index(a);
    if mi < n - mi {
        lemma_run_repeat(st, Op::Ra, mi as nat, 0, 0);
    } else {
        lemma_run_repeat(st, Op::Rra, (n - mi) as nat, 0, 0);
        lemma_rotl_wrap(a, mi);
    }
}

/// The instructions for a stack of at most five values: the table's entry for
/// its pattern, then the closing rotation.
pub open spec fn small_solution(a: Seq<i32>) -> Seq<Op> {
    let t = table_entry(pattern(a));
    t + align_ops(run((a, Seq::<i32>::empty()), t).0)
}

/// A rotation of an ascending sequence that starts at its smallest value is ascending.
proof fn lemma_min_first_ascending(c: Seq<i32>)
    requires
        cyc_sorted(c, Direction::Ba),
        forall|k: int| 0 <= k < c.len() ==> c[0] <= #[trigger] c[k],
    ensures
        ascending(c),
{
    let m = choose|m: int| split_sorted(c, m, Direction::Ba);
    if 0 < m < c.len() {
        assert(c[0] > c[m]);
    }
    assert(split_sorted(c, 0, Direction::Ba));
}

/// No value repeats in `a` exactly when it does not in its multiset.
proof fn lemma_distinct_seq(a: Seq<i32>)
    ensures
        a.no_duplicates() <==> distinct(a.to_multiset()),
{
    if a.no_duplicates() {
        a.lemma_multiset_has_no_duplicates();
        assert forall|v: i32| #[trigger] a.to_multiset().count(v) <= 1 by {
            if a.to_multiset().count(v) > 0 {
                assert(a.to_multiset().contains(v));
            }
        }
    }
    if distinct(a.to_multiset()) {
        assert forall|x: i32| a.to_multiset().contains(x) implies a.to_multiset().count(x) == 1 by {
            assert(a.to_multiset().count(x) <= 1);
        }
        a.lemma_multiset_has_no_duplicates_conv();
    }
}

/// The closing rotation of a rotated ascending A, with B empty, leaves A ascending.
proof fn lemma_closing_rotation(st: Pair)
    requires
        st.1.len() == 0,
        cyc_sorted(st.0, Direction::Ba),
        st.0.len() > 0 ==> is_first_min(st.0, min_index(st.0)),
    ensures
        ascending(run(st, align_ops(st.0)).0),
        run(st, align_ops(st.0)).1 == st.1,
        run(st, align_ops(st.0)).0.to_multiset() == st.0.to_multiset(),
{
    let a = st.0;
    if a.len() == 0 {
        assert(run(st, align_ops(a)) == st);
    } else {
        let mi = min_index(a);
        let n = a.len() as int;
        lemma_align_effect(st, mi);
        lemma_rotl_keeps(a, mi as nat, Direction::Ba);
        let c = rotl(a, mi);
        lemma_small_mod(mi as nat, n as nat);
        assert(c[0] == a[mi]);
        assert forall|k: int| 0 <= k < c.len() implies c[0] <= #[trigger] c[k] by {
            lemma_mod_bound(k + mi, n);
        }
        lemma_min_first_ascending(c);
    }
}

/// The shape of a full solution: `k` pushes to B among rotations, the table's swaps
/// and rotations of A, `k` pushes back among rotations, then rotations of A.
proof fn lemma_solution_shape(
    t1: Seq<Op>,
    t2: Seq<Op>,
    t3: Seq<Op>,
    t4: Seq<Op>,
    k: nat,
)
    requires
        phase_ops(t1, Direction::Ab),
        count_op(t1, Op::Pb) == k,
        a_only(t2),
        phase_ops(t3, Direction::Ba),
        count_op(t3, Op::Pa) == k,
        forall|i: int| 0 <= i < t4.len() ==> #[trigger] t4[i] == Op::Ra || t4[i] == Op::Rra,
    ensures
        solution_shape(t1 + t2 + t3 + t4, k),
{
    let e = t1 + t2 + t3 + t4;
    assert forall|i: int| 0 <= i < t1.len() implies #[trigger] t1[i] != Op::Pa && t1[i] != Op::Sa
        && t1[i] != Op::Sb && t1[i] != Op::Ss by {
        assert(match t1[i] {
            Op::Ra | Op::Rb | Op::Rr | Op::Rra | Op::Rrb | Op::Rrr => true,
            o => o == Op::Pb,
        });
    }
    assert forall|i: int| 0 <= i < t2.len() implies #[trigger] t2[i] != Op::Pa && t2[i] != Op::Pb
        && t2[i] != Op::Sb && t2[i] != Op::Ss by {}
    assert forall|i: int| 0 <= i < t3.len() implies #[trigger] t3[i] != Op::Pb && t3[i] != Op::Sa
        && t3[i] != Op::Sb && t3[i] != Op::Ss by {
        assert(match t3[i] {
            Op::Ra | Op::Rb | Op::Rr | Op::Rra | Op::Rrb | Op::Rrr => true,
            o => o == Op::Pa,
        });
    }
    lemma_count_absent(t2, Op::Pb);
    lemma_count_absent(t3, Op::Pb);
    lemma_count_absent(t4, Op::Pb);
    lemma_count_absent(t1, Op::Pa);
    lemma_count_absent(t2, Op::Pa);
    lemma_count_absent(t4, Op::Pa);
    lemma_count_concat(t1, t2, Op::Pb);
    lemma_count_concat(t1 + t2, t3, Op::Pb);
    lemma_count_concat(t1 + t2 + t3, t4, Op::Pb);
    lemma_count_concat(t1, t2, Op::Pa);
    lemma_count_concat(t1 + t2, t3, Op::Pa);
    lemma_count_concat(t1 + t2 + t3, t4, Op::Pa);
    let (l1, l2, l3) = (t1.len() as int, t2.len() as int, t3.len() as int);
    assert forall|i: int| 0 <= i < e.len() implies #[trigger] e[i] != Op::Sb && e[i] != Op::Ss
        && (e[i] == Op::Pb ==> i < l1) && ((e[i] == Op::Sa || e[i] == Op::Pa) ==> i >= l1) by {
        if i < l1 {
            assert(e[i] == t1[i]);
        } else if i < l1 + l2 {
            assert(e[i] == t2[i - l1]);
        } else if i < l1 + l2 + l3 {
            assert(e[i] == t3[i - l1 - l2]);
        } else {
            assert(e[i] == t4[i - l1 - l2 - l3]);
        }
    }
}

/// Copies the two stacks.
fn copy_stacks(s: &Stacks) -> (r: Stacks)
    ensures
        r@ == s@,
{
    let mut a: VecDeque<i32> = VecDeque::new();
    let mut b: VecDeque<i32> = VecDeque::new();
    let mut i: usize = 0;
    while i < s.a.len()
        invariant
            i <= s.a@.len(),
            a@ =~= s.a@.take(i as int),
        decreases s.a@.len() - i,
    {
        a.push_back(s.a[i]);
        i = i + 1;
    }
    let mut k: usize = 0;
    while k < s.b.len()
        invariant
            k <= s.b@.len(),
            b@ =~= s.b@.take(k as int),
        decreases s.b@.len() - k,
    {
        b.push_back(s.b[k]);
        k = k + 1;
    }
    assert(a@ =~= s.a@);
    assert(b@ =~= s.b@);
    Stacks { a, b }
}

/// Performs `ops` in order.
fn apply_all(stacks: &mut Stacks, ops: &Vec<Op>)
    ensures
        final(stacks)@ == run(old(stacks)@, ops@),
{
    let mut i: usize = 0;
    while i < ops.len()
        invariant
            i <= ops@.len(),
            stacks@ == run(old(stacks)@, ops@.take(i as int)),
        decreases ops@.len() - i,
    {
        assert(ops@.take(i as int + 1).drop_last() =~= ops@.take(i as int));
        stacks.apply(ops[i]);
        i = i + 1;
    }
    assert(ops@.take(i as int) =~= ops@);
}

/// `x` followed by `y`.
fn concat_ops(x: &Vec<Op>, y: &Vec<Op>) -> (r: Vec<Op>)
    ensures
        r@ == x@ + y@,
{
    let mut r: Vec<Op> = Vec::new();
    let mut i: usize = 0;
    while i < x.len()
        invariant
            i <= x@.len(),
            r@ =~= x@.take(i as int),
        decreases x@.len() - i,
    {
        r.push(x[i]);
        i = i + 1;
    }
    let mut k: usize = 0;
    while k < y.len()
        invariant
            k <= y@.len(),
            r@ =~= x@ + y@.take(k as int),
        decreases y@.len() - k,
    {
        r.push(y[k]);
        k = k + 1;
    }
    r
}

impl Solver {
    /// A solver with no instructions yet and the given budget.
    pub fn new(budget: usize) -> (r: Solver)
        ensures
            r.ops@.len() == 0,
            r.budget == budget,
    {
        Solver { ops: Vec::new(), budget }
    }

    /// Sorts A (B empty at the start) and records the instructions: a phase that moves
    /// all but five elements to B, the small-case table on what is left in A, a phase
    /// that moves everything back, and the closing rotation.
    #[verifier::rlimit(40)]
    pub fn solve(&mut self, stacks: &mut Stacks)
        requires
            old(stacks)@.1.len() == 0,
            old(stacks)@.0.no_duplicates(),
        ensures
            final(self).budget == old(self).budget,
            final(self).ops@.len() >= old(self).ops@.len(),
            final(self).ops@.take(old(self).ops@.len() as int) == old(self).ops@,
            final(stacks)@ == run(old(stacks)@, final(self).ops@.skip(old(self).ops@.len() as int)),
            final(self).ops@.skip(old(self).ops@.len() as int) == solution(
                old(stacks)@.0,
                old(self).budget as nat,
            ),
            valid_run(old(stacks)@, final(self).ops@.skip(old(self).ops@.len() as int)),
            solution_shape(
                final(self).ops@.skip(old(self).ops@.len() as int),
                if old(stacks)@.0.len() > 5 {
                    (old(stacks)@.0.len() - 5) as nat
                } else {
                    0nat
                },
            ),
            ascending(final(stacks)@.0),
            final(stacks)@.1.len() == 0,
            final(stacks)@.0.to_multiset() == old(stacks)@.0.to_multiset(),
            old(stacks)@.0.len() <= 5 ==> final(self).ops@.skip(old(self).ops@.len() as int)
                == small_solution(old(stacks)@.0),
            old(stacks)@.0.len() <= 1 ==> final(self).ops@ == old(self).ops@,
    {
        let ghost st0 = stacks@;
        let ghost o0 = self.ops@;
        let n = stacks.a.len();
        proof {
            broadcast use vstd::multiset::group_multiset_axioms;

            broadcast use vstd::seq_lib::group_to_multiset_ensures;

            assert(stacks.b@.to_multiset().len() == 0);
            vstd::multiset::lemma_multiset_empty_len(stacks.b@.to_multiset());
            lemma_distinct_seq(st0.0);
            assert(contents(st0) =~= st0.0.to_multiset());
            assert(split_sorted(st0.1, 0, Direction::Ab));
        }
        self.big_sort(stacks, Direction::Ab, 5);
        let ghost st1 = stacks@;
        let ghost o1 = self.ops@;
        proof {
            broadcast use vstd::multiset::group_multiset_axioms;

            assert(o1 =~= o0 + o1.skip(o0.len() as int));
            assert forall|v: i32| #[trigger] st1.0.to_multiset().count(v) <= 1 by {
                assert(contents(st1).count(v) <= 1);
            }
            lemma_distinct_seq(st1.0);
            lemma_table_sorts(st1.0, st1.1);
        }
        self.sort_upto_5(stacks);
        let ghost st2 = stacks@;
        let ghost o2 = self.ops@;
        proof {
            broadcast use vstd::seq_lib::group_to_multiset_ensures;

            assert(contents(st2) == contents(st1));
            assert(st2.0.to_multiset().len() == st1.0.to_multiset().len());
            assert(st2.0.len() == st1.0.len());
        }
        self.big_sort(stacks, Direction::Ba, 0);
        let ghost st3 = stacks@;
        let ghost o3 = self.ops@;
        proof {
            assert(o3 =~= o2 + o3.skip(o2.len() as int));
        }
        self.final_rot(stacks);
        let ghost st4 = stacks@;
        proof {
            broadcast use vstd::multiset::group_multiset_axioms;

            let t1 = o1.skip(o0.len() as int);
            let t2 = table_entry(pattern(st1.0));
            let t3 = o3.skip(o2.len() as int);
            let t4 = align_ops(st3.0);
            assert(self.ops@ =~= o0 + (t1 + t2 + t3 + t4));
            assert(self.ops@.skip(o0.len() as int) =~= t1 + t2 + t3 + t4);
            assert(self.ops@.take(o0.len() as int) =~= o0);
            lemma_run_concat(st0, t1 + t2 + t3, t4);
            lemma_run_concat(st0, t1 + t2, t3);
            lemma_run_concat(st0, t1, t2);
            lemma_valid_concat(st0, t1, t2);
            lemma_valid_concat(st0, t1 + t2, t3);
            lemma_valid_concat(st0, t1 + t2 + t3, t4);
            assert(st0.1 =~= Seq::<i32>::empty());
            assert(t1 + t2 + t3 + t4 == solution(st0.0, self.budget as nat));
            lemma_table_a_only(st1.0);
            let k: nat = if n > 5 {
                (n - 5) as nat
            } else {
                0nat
            };
            assert(count_op(t1, Op::Pb) == k);
            assert(st1.1.len() == k);
            assert(count_op(t3, Op::Pa) == k);
            lemma_solution_shape(t1, t2, t3, t4, k);
            lemma_closing_rotation(st3);
            broadcast use vstd::seq_lib::group_to_multiset_ensures;

            assert(st3.1.to_multiset().len() == 0);
            vstd::multiset::lemma_multiset_empty_len(st3.1.to_multiset());
            assert(contents(st3) =~= st3.0.to_multiset());
            if n <= 5 {
                assert(o1 == o0);
                assert(t1 =~= Seq::<Op>::empty());
                assert(run(st0, t1) == st0);
                assert(st1 == st0);
                assert(st0.1 =~= Seq::<i32>::empty());
                assert(st2 == run((st0.0, Seq::<i32>::empty()), t2));
                assert(o3 == o2);
                assert(t3 =~= Seq::<Op>::empty());
                assert(run(st2, t3) == st2);
                assert(st3 == st2);
                assert(t1 + t2 + t3 + t4 =~= t2 + t4);
            }
            if n <= 1 {
                assert(t2.len() == 0);
                if n == 1 {
                    assert(is_first_min(st3.0, 0));
                    lemma_first_min_unique(st3.0, 0);
                }
                assert(t4.len() == 0);
                assert(self.ops@ =~= o0);
            }
        }
    }

    /// The symbols of the recorded instructions, in order.
    pub fn names(&self) -> (r: Vec<&'static str>)
        ensures
            r@.len() == self.ops@.len(),
            forall|i: int| 0 <= i < r@.len() ==> (#[trigger] r@[i])@ == self.ops@[i].spec_name(),
    {
        let mut r: Vec<&'static str> = Vec::new();
        let mut i: usize = 0;
        while i < self.ops.len()
            invariant
                i <= self.ops@.len(),
                r@.len() == i,
                forall|k: int| 0 <= k < i ==> (#[trigger] r@[k])@ == self.ops@[k].spec_name(),
            decreases self.ops@.len() - i,
        {
            r.push(self.ops[i].name());
            i = i + 1;
        }
        r
    }

    /// Records `op` and performs it.
    fn push_exec(&mut self, stacks: &mut Stacks, op: Op)
        ensures
            final(self).ops@ == old(self).ops@.push(op),
            final(self).budget == old(self).budget,
            final(stacks)@ == op.step(old(stacks)@),
    {
        self.ops.push(op);
        stacks.apply(op);
    }

    /// Moves elements from the source until at most `until` are left, and returns
    /// the instructions. Among the cheapest moves it tries each in source order (only
    /// the first when the budget is spent), searches on with one less budget, and keeps
    /// the shortest result, the earliest on a tie.
    #[verifier::rlimit(100)]
    fn rec_sort(stacks: &Stacks, dir: Direction, until: usize, budget: usize) -> (r: Vec<Op>)
        requires
            distinct(contents(stacks@)),
            stacks@.0.len() + stacks@.1.len() <= usize::MAX,
        ensures
            r@ == search(
                stacks@,
                dir,
                until as nat,
                budget as nat,
                src_of(stacks@, dir).len(),
            ),
            phase_end(stacks@, run(stacks@, r@), dir, until),
            keeps_order(stacks@, run(stacks@, r@), dir),
            valid_run(stacks@, r@),
            phase_ops(r@, dir),
            count_op(r@, push_op(dir)) == src_of(stacks@, dir).len() - src_of(
                run(stacks@, r@),
                dir,
            ).len(),
        decreases src_of(stacks@, dir).len(),
    {
        let ns = match dir {
            Direction::Ab => stacks.a.len(),
            Direction::Ba => stacks.b.len(),
        };
        if ns <= until {
            assert(run(stacks@, Seq::<Op>::empty()) == stacks@);
            proof {
                lemma_search_done(stacks@, dir, until as nat, budget as nat, ns as nat);
                assert(valid_run(stacks@, Seq::<Op>::empty()));
                assert(count_op(Seq::<Op>::empty(), push_op(dir)) == 0);
                lemma_keeps_order_refl(stacks@, dir);
            }
            return Vec::new();
        }
        let ghost st = stacks@;
        let ghost u = until as nat;
        let ghost g = budget as nat;
        proof {
            lemma_parts_distinct(st);
        }
        let best = get_best_ops(stacks, dir);
        let mut min_len = best[0].len();
        let ghost mut min_at: int = 0;
        let mut k: usize = 1;
        while k < best.len()
            invariant
                best@.len() == ns,
                ns == src_of(st, dir).len(),
                1 <= k <= ns,
                0 <= min_at < k,
                best@[min_at]@.len() == min_len,
                forall|i: int| 0 <= i < ns ==> #[trigger] best@[i]@ == candidate(st, dir, i),
                min_len == min_cand_len(st, dir, k as nat),
            decreases ns - k,
        {
            if best[k].len() < min_len {
                min_len = best[k].len();
                proof {
                    min_at = k as int;
                }
            }
            k = k + 1;
        }
        let next_budget = if budget > 0 {
            budget - 1
        } else {
            0
        };
        let mut solution: Option<Vec<Op>> = None;
        let mut c: usize = 0;
        proof {
            lemma_pick_none(st, dir, u, g, ns as nat);
        }
        while c < best.len()
            invariant
                st == stacks@,
                u == until as nat,
                g == budget as nat,
                best@.len() == ns,
                ns == src_of(st, dir).len(),
                ns > until,
                distinct(contents(st)),
                st.0.len() + st.1.len() <= usize::MAX,
                forall|i: int| 0 <= i < ns ==> is_candidate(st, dir, i, #[trigger] best@[i]@),
                forall|i: int| 0 <= i < ns ==> #[trigger] best@[i]@ == candidate(st, dir, i),
                min_len == min_cand_len(st, dir, ns as nat),
                next_budget as nat == if g > 0 {
                    (g - 1) as nat
                } else {
                    0nat
                },
                0 <= min_at < ns,
                best@[min_at]@.len() == min_len,
                c <= ns,
                c > min_at ==> solution is Some,
                pick(st, dir, u, g, ns as nat, c as nat) == match solution {
                    Some(v) => Some(v@),
                    None => None::<Seq<Op>>,
                },
                solution matches Some(v) ==> phase_end(st, run(st, v@), dir, until),
                solution matches Some(v) ==> keeps_order(st, run(st, v@), dir),
                solution matches Some(v) ==> valid_run(st, v@),
                solution matches Some(v) ==> phase_ops(v@, dir),
                solution matches Some(v) ==> count_op(v@, push_op(dir)) == ns - until,
            decreases ns - c,
        {
            let this_len = best[c].len();
            assert(best@[c as int]@ == candidate(st, dir, c as int));
            let tried = this_len == min_len && (budget > 0 || solution.is_none());
            if tried {
                let choice = &best[c];
                let mut next = copy_stacks(stacks);
                apply_all(&mut next, choice);
                proof {
                    lemma_candidate_keeps(st, dir, c as int, choice@);
                }
                let rest = Solver::rec_sort(&next, dir, until, next_budget);
                let branch = concat_ops(choice, &rest);
                proof {
                    lemma_run_concat(st, choice@, rest@);
                    lemma_valid_concat(st, choice@, rest@);
                    lemma_keeps_order_trans(st, next@, run(next@, rest@), dir);
                    lemma_moves_shape(
                        best_moves(
                            c as int,
                            ns as int,
                            place(dst_of(st, dir), src_of(st, dir)[c as int], dir),
                            dst_of(st, dir).len() as int,
                        ),
                        dir,
                    );
                    lemma_phase_concat(choice@, rest@, dir);
                    lemma_count_concat(choice@, rest@, push_op(dir));
                    assert(src_of(next@, dir).len() == (ns - 1) as nat);
                }
                proof {
                    assert(next@ == run(st, candidate(st, dir, c as int)));
                    assert(src_of(next@, dir).len() == (ns as nat - 1) as nat);
                    let nb: nat = if g > 0 {
                        (g - 1) as nat
                    } else {
                        0nat
                    };
                    assert(next_budget as nat == nb);
                    assert(until as nat == u);
                    assert(rest@ == search(next@, dir, u, nb, src_of(next@, dir).len()));
                    lemma_pick_try(st, dir, u, g, ns as nat, c as nat, rest@);
                }
                let keep = match &solution {
                    Some(s) => s.len() <= branch.len(),
                    None => false,
                };
                if !keep {
                    solution = Some(branch);
                }
            } else {
                proof {
                    let prev = pick(st, dir, u, g, ns as nat, c as nat);
                    assert(this_len != min_len || (g == 0 && prev is Some));
                    assert(min_cand_len(st, dir, src_of(st, dir).len()) == min_len);
                    lemma_pick_skip(st, dir, u, g, ns as nat, c as nat);
                }
            }
            c = c + 1;
        }
        proof {
            lemma_search_unfold(st, dir, u, g, ns as nat);
        }
        match solution {
            Some(v) => v,
            None => Vec::new(),
        }
    }

    /// Runs one phase in direction `dir` down to `until` elements on the source,
    /// performing and recording its instructions.
    fn big_sort(&mut self, stacks: &mut Stacks, dir: Direction, until: usize)
        requires
            distinct(contents(old(stacks)@)),
            old(stacks)@.0.len() + old(stacks)@.1.len() <= usize::MAX,
        ensures
            final(self).budget == old(self).budget,
            final(self).ops@.len() >= old(self).ops@.len(),
            final(self).ops@.take(old(self).ops@.len() as int) == old(self).ops@,
            final(stacks)@ == run(old(stacks)@, final(self).ops@.skip(old(self).ops@.len() as int)),
            final(self).ops@.skip(old(self).ops@.len() as int) == search(
                old(stacks)@,
                dir,
                until as nat,
                old(self).budget as nat,
                src_of(old(stacks)@, dir).len(),
            ),
            phase_end(old(stacks)@, final(stacks)@, dir, until),
            phase_ready(old(stacks)@, dir) ==> phase_ready(final(stacks)@, dir),
            valid_run(old(stacks)@, final(self).ops@.skip(old(self).ops@.len() as int)),
            phase_ops(final(self).ops@.skip(old(self).ops@.len() as int), dir),
            count_op(final(self).ops@.skip(old(self).ops@.len() as int), push_op(dir)) == src_of(
                old(stacks)@,
                dir,
            ).len() - src_of(final(stacks)@, dir).len(),
            src_of(old(stacks)@, dir).len() <= until ==> final(self).ops@ == old(self).ops@,
    {
        let ops = Solver::rec_sort(stacks, dir, until, self.budget);
        proof {
            reveal(keeps_order);
            if src_of(stacks@, dir).len() <= until {
                let ns = src_of(stacks@, dir).len();
                lemma_search_done(stacks@, dir, until as nat, self.budget as nat, ns);
            }
        }
        apply_all(stacks, &ops);
        let ghost before = self.ops@;
        let mut i: usize = 0;
        while i < ops.len()
            invariant
                i <= ops@.len(),
                self.budget == old(self).budget,
                self.ops@ =~= before + ops@.take(i as int),
            decreases ops@.len() - i,
        {
            self.ops.push(ops[i]);
            i = i + 1;
        }
        assert(self.ops@.skip(before.len() as int) =~= ops@);
        assert(self.ops@.take(before.len() as int) =~= before);
        assert(ops@.len() == 0 ==> self.ops@ =~= before);
    }

    /// Applies the small-case table to A, performing and recording its instructions.
    fn sort_upto_5(&mut self, stacks: &mut Stacks)
        ensures
            final(self).budget == old(self).budget,
            final(self).ops@ == old(self).ops@ + table_entry(pattern(old(stacks)@.0)),
            final(stacks)@ == run(old(stacks)@, table_entry(pattern(old(stacks)@.0))),
            valid_run(old(stacks)@, table_entry(pattern(old(stacks)@.0))),
    {
        proof {
            lemma_table_valid(stacks@);
        }
        let ops = small_case_ops(&stacks.a);
        apply_all(stacks, &ops);
        let ghost before = self.ops@;
        let mut i: usize = 0;
        while i < ops.len()
            invariant
                i <= ops@.len(),
                self.budget == old(self).budget,
                self.ops@ =~= before + ops@.take(i as int),
            decreases ops@.len() - i,
        {
            self.ops.push(ops[i]);
            i = i + 1;
        }
        assert(ops@.take(ops@.len() as int) =~= ops@);
    }

    /// Turns A the shorter way until its smallest value is on top, performing and
    /// recording the rotations.
    fn final_rot(&mut self, stacks: &mut Stacks)
        ensures
            final(self).budget == old(self).budget,
            final(self).ops@ == old(self).ops@ + align_ops(old(stacks)@.0),
            final(stacks)@ == run(old(stacks)@, align_ops(old(stacks)@.0)),
            old(stacks)@.0.len() > 0 ==> is_first_min(old(stacks)@.0, min_index(old(stacks)@.0)),
            valid_run(old(stacks)@, align_ops(old(stacks)@.0)),
    {
        let n = stacks.a.len();
        if n == 0 {
            assert(run(stacks@, Seq::<Op>::empty()) == stacks@);
            assert(valid_run(stacks@, Seq::<Op>::empty()));
            assert(self.ops@ =~= self.ops@ + Seq::<Op>::empty());
            return ;
        }
        let mut m: usize = 0;
        let mut k: usize = 1;
        while k < n
            invariant
                n == stacks.a@.len(),
                1 <= k <= n,
                m < k,
                forall|q: int| 0 <= q < k ==> stacks.a@[m as int] <= stacks.a@[q],
                forall|q: int| 0 <= q < m ==> stacks.a@[q] > stacks.a@[m as int],
            decreases n - k,
        {
            if stacks.a[k] < stacks.a[m] {
                m = k;
            }
            k = k + 1;
        }
        proof {
            lemma_first_min_unique(stacks.a@, m as int);
        }
        let (op, count) = if m < n - m {
            (Op::Ra, m)
        } else {
            (Op::Rra, n - m)
        };
        let ghost st0 = stacks@;
        let ghost before = self.ops@;
        proof {
            lemma_rotl_zero(st0.0);
            lemma_rotl_zero(st0.1);
            assert(rotate_pair(st0, 0, 0) == st0);
            lemma_valid_repeat(st0, op, count as nat, 0, 0);
        }
        let mut i: usize = 0;
        while i < count
            invariant
                i <= count,
                self.budget == old(self).budget,
                self.ops@ =~= before + repeat(op, i as nat),
                stacks@ == run(st0, repeat(op, i as nat)),
            decreases count - i,
        {
            assert(repeat(op, (i + 1) as nat).drop_last() =~= repeat(op, i as nat));
            self.push_exec(stacks, op);
            i = i + 1;
        }
    }
}

} // verus!
