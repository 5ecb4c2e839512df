use crate::cost::{
    best_moves, down_moves, dst_down_op, dst_of, dst_up_op, is_place, moves_ops, push_op,
    repeat, separate_moves, src_down_op, src_of, src_up_op, up_moves, Direction, Moves,
};
use crate::machine::{
    lemma_run_concat, lemma_valid_concat, push_onto, rot_down, rot_up, run, valid_run, Op, Pair,
};
use vstd::arithmetic::div_mod::{
    lemma_mod_add_multiples_vanish, lemma_mod_sub_multiples_vanish, lemma_small_mod,
};
use vstd::prelude::*;

verus! {

/// `s` rotated so that position `k` (taken modulo the length) comes first.
pub open spec fn rotl(s: Seq<i32>, k: int) -> Seq<i32> {
    if s.len() == 0 {
        s
    } else {
        Seq::new(s.len(), |t: int| s[(t + k) % (s.len() as int)])
    }
}

/// Both stacks rotated, A by `da` and B by `db`.
pub open spec fn rotate_pair(st: Pair, da: int, db: int) -> Pair {
    (rotl(st.0, da), rotl(st.1, db))
}

/// How far a rotation instruction turns A.
pub open spec fn turn_a(op: Op) -> int {
    match op {
        Op::Ra | Op::Rr => 1,
        Op::Rra | Op::Rrr => -1,
        _ => 0,
    }
}

/// How far a rotation instruction turns B.
pub open spec fn turn_b(op: Op) -> int {
    match op {
        Op::Rb | Op::Rr => 1,
        Op::Rrb | Op::Rrr => -1,
        _ => 0,
    }
}

/// `c` turns by `t`, for `t` one of -1, 0, 1.
pub open spec fn times_turn(c: int, t: int) -> int {
    if t > 0 {
        c
    } else if t < 0 {
        -c
    } else {
        0
    }
}

/// One of the six rotation instructions.
pub open spec fn is_rotation(op: Op) -> bool {
    match op {
        Op::Ra | Op::Rb | Op::Rr | Op::Rra | Op::Rrb | Op::Rrr => true,
        _ => false,
    }
}

/// Turning by nothing leaves the sequence as it is.
pub proof fn lemma_rotl_zero(s: Seq<i32>)
    ensures
        rotl(s, 0) == s,
{
    if s.len() > 0 {
        assert forall|t: int| 0 <= t < s.len() implies rotl(s, 0)[t] == s[t] by {
            lemma_small_mod(t as nat, s.len());
        }
        assert(rotl(s, 0) =~= s);
    }
}

/// One more turn up.
pub proof fn lemma_rotl_up(s: Seq<i32>, k: int)
    ensures
        rot_up(rotl(s, k)) == rotl(s, k + 1),
{
    if s.len() > 0 {
        let n = s.len() as int;
        let r = rotl(s, k);
        assert forall|t: int| 0 <= t < n implies rot_up(r)[t] == rotl(s, k + 1)[t] by {
            if t == n - 1 {
                lemma_mod_add_multiples_vanish(k, n);
                assert(t + (k + 1) == n + k);
            } else {
                assert((t + 1) + k == t + (k + 1));
            }
        }
        assert(rot_up(r) =~= rotl(s, k + 1));
    }
}

/// One more turn down.
pub proof fn lemma_rotl_down(s: Seq<i32>, k: int)
    ensures
        rot_down(rotl(s, k)) == rotl(s, k - 1),
{
    if s.len() > 0 {
        let n = s.len() as int;
        let r = rotl(s, k);
        assert forall|t: int| 0 <= t < n implies rot_down(r)[t] == rotl(s, k - 1)[t] by {
            if t == 0 {
                lemma_mod_add_multiples_vanish(k - 1, n);
                assert((n - 1) + k == n + (k - 1));
            } else {
                assert((t - 1) + k == t + (k - 1));
            }
        }
        assert(rot_down(r) =~= rotl(s, k - 1));
    }
}

/// Turning by `k - n` is turning by `k`.
pub proof fn lemma_rotl_wrap(s: Seq<i32>, k: int)
    ensures
        rotl(s, k - s.len()) == rotl(s, k),
{
    if s.len() > 0 {
        let n = s.len() as int;
        assert forall|t: int| 0 <= t < n implies rotl(s, k - n)[t] == rotl(s, k)[t] by {
            lemma_mod_sub_multiples_vanish(t + k, n);
            assert(t + (k - n) == (t + k) - n);
        }
        assert(rotl(s, k - n) =~= rotl(s, k));
    }
}

/// A rotation instruction adds its turns to both stacks.
pub proof fn lemma_step_rotation(st: Pair, op: Op, da: int, db: int)
    requires
        is_rotation(op),
    ensures
        op.step(rotate_pair(st, da, db)) == rotate_pair(st, da + turn_a(op), db + turn_b(op)),
{
    lemma_rotl_up(st.0, da);
    lemma_rotl_up(st.1, db);
    lemma_rotl_down(st.0, da);
    lemma_rotl_down(st.1, db);
    assert(da + 0 == da);
    assert(db + 0 == db);
}

/// `c` copies of one rotation instruction turn each stack `c` times as far.
pub proof fn lemma_run_repeat(st: Pair, op: Op, c: nat, da: int, db: int)
    requires
        is_rotation(op),
    ensures
        run(rotate_pair(st, da, db), repeat(op, c)) == rotate_pair(
            st,
            da + times_turn(c as int, turn_a(op)),
            db + times_turn(c as int, turn_b(op)),
        ),
    decreases c,
{
    if c == 0 {
        assert(run(rotate_pair(st, da, db), repeat(op, c)) == rotate_pair(st, da, db));
    } else {
        assert(repeat(op, c).drop_last() =~= repeat(op, (c - 1) as nat));
        lemma_run_repeat(st, op, (c - 1) as nat, da, db);
        lemma_step_rotation(
            st,
            op,
            da + times_turn(c - 1, turn_a(op)),
            db + times_turn(c - 1, turn_b(op)),
        );
    }
}

/// Repeating a rotation whose stacks hold two elements each is valid.
pub proof fn lemma_valid_repeat(st: Pair, op: Op, c: nat, da: int, db: int)
    requires
        is_rotation(op),
        c == 0 || op.has_operands(st),
    ensures
        valid_run(rotate_pair(st, da, db), repeat(op, c)),
    decreases c,
{
    if c > 0 {
        assert(repeat(op, c).drop_last() =~= repeat(op, (c - 1) as nat));
        lemma_valid_repeat(st, op, (c - 1) as nat, da, db);
        lemma_run_repeat(st, op, (c - 1) as nat, da, db);
    }
}

/// The pair after moving source element `i` to the front of destination element `j`:
/// both stacks turned so that those elements lead, then the push.
pub open spec fn moved(st: Pair, dir: Direction, i: int, j: int) -> Pair {
    let s = rotl(src_of(st, dir), i);
    let d = rotl(dst_of(st, dir), j);
    match dir {
        Direction::Ab => (s.skip(1), seq![s[0]] + d),
        Direction::Ba => (seq![s[0]] + d, s.skip(1)),
    }
}

/// The rotations of a move, without its push.
pub open spec fn turns(m: Moves, dir: Direction) -> Seq<Op> {
    repeat(Op::Rr, m.both_up as nat) + repeat(Op::Rrr, m.both_down as nat) + repeat(
        src_up_op(dir),
        m.src_up as nat,
    ) + repeat(src_down_op(dir), m.src_down as nat) + repeat(dst_up_op(dir), m.dst_up as nat)
        + repeat(dst_down_op(dir), m.dst_down as nat)
}

/// How far the rotations of a move turn the source and the destination.
pub open spec fn net_src(m: Moves) -> int {
    m.both_up - m.both_down + m.src_up - m.src_down
}

pub open spec fn net_dst(m: Moves) -> int {
    m.both_up - m.both_down + m.dst_up - m.dst_down
}

/// Extending a replay that has only turned the stacks by one more block of a rotation.
proof fn lemma_run_block(st: Pair, prefix: Seq<Op>, op: Op, c: nat, da: int, db: int)
    requires
        is_rotation(op),
        run(st, prefix) == rotate_pair(st, da, db),
    ensures
        run(st, prefix + repeat(op, c)) == rotate_pair(
            st,
            da + times_turn(c as int, turn_a(op)),
            db + times_turn(c as int, turn_b(op)),
        ),
{
    lemma_run_concat(st, prefix, repeat(op, c));
    lemma_run_repeat(st, op, c, da, db);
}

proof fn lemma_valid_block(st: Pair, prefix: Seq<Op>, op: Op, c: nat, da: int, db: int)
    requires
        is_rotation(op),
        run(st, prefix) == rotate_pair(st, da, db),
        valid_run(st, prefix),
        c == 0 || op.has_operands(st),
    ensures
        valid_run(st, prefix + repeat(op, c)),
{
    lemma_valid_repeat(st, op, c, da, db);
    lemma_valid_concat(st, prefix, repeat(op, c));
}

/// The counts of a move turn only stacks that hold two elements.
pub open spec fn moves_fit(m: Moves, ns: int, nd: int) -> bool {
    &&& (m.src_up > 0 || m.src_down > 0 || m.both_up > 0 || m.both_down > 0) ==> ns >= 2
    &&& (m.dst_up > 0 || m.dst_down > 0 || m.both_up > 0 || m.both_down > 0) ==> nd >= 2
}

/// The cheapest move never turns a stack of fewer than two elements.
proof fn lemma_best_fits(i: int, ns: int, j: int, nd: int)
    requires
        0 <= i < ns,
        0 <= j < nd || (j == 0 && nd == 0),
        ns + nd <= usize::MAX,
    ensures
        moves_fit(best_moves(i, ns, j, nd), ns, nd),
{
    let s = separate_moves(i, ns, j, nd);
    let u = up_moves(i, j);
    let d = down_moves(i, ns, j, nd);
    assert(best_moves(i, ns, j, nd) == s || best_moves(i, ns, j, nd) == u || best_moves(
        i,
        ns,
        j,
        nd,
    ) == d);
}

/// The first two blocks of a move: the shared rotations.
proof fn lemma_run_shared(st: Pair, m: Moves)
    requires
        (m.both_up > 0 || m.both_down > 0) ==> st.0.len() >= 2 && st.1.len() >= 2,
    ensures
        run(st, repeat(Op::Rr, m.both_up as nat) + repeat(Op::Rrr, m.both_down as nat))
            == rotate_pair(st, m.both_up - m.both_down, m.both_up - m.both_down),
        valid_run(st, repeat(Op::Rr, m.both_up as nat) + repeat(Op::Rrr, m.both_down as nat)),
{
    let e = Seq::<Op>::empty();
    let r1 = repeat(Op::Rr, m.both_up as nat);
    lemma_rotl_zero(st.0);
    lemma_rotl_zero(st.1);
    assert(run(st, e) == rotate_pair(st, 0, 0));
    assert(e + r1 =~= r1);
    lemma_run_block(st, e, Op::Rr, m.both_up as nat, 0, 0);
    lemma_run_block(st, r1, Op::Rrr, m.both_down as nat, m.both_up as int, m.both_up as int);
    assert(valid_run(st, e));
    lemma_valid_block(st, e, Op::Rr, m.both_up as nat, 0, 0);
    lemma_valid_block(st, r1, Op::Rrr, m.both_down as nat, m.both_up as int, m.both_up as int);
}

proof fn lemma_run_turns_ab(st: Pair, m: Moves)
    requires
        moves_fit(m, st.0.len() as int, st.1.len() as int),
    ensures
        valid_run(st, turns(m, Direction::Ab)),
        run(st, turns(m, Direction::Ab)) == rotate_pair(st, net_src(m), net_dst(m)),
{
    let dir = Direction::Ab;
    let r12 = repeat(Op::Rr, m.both_up as nat) + repeat(Op::Rrr, m.both_down as nat);
    let r3 = repeat(Op::Ra, m.src_up as nat);
    let r4 = repeat(Op::Rra, m.src_down as nat);
    let r5 = repeat(Op::Rb, m.dst_up as nat);
    let (c3, c4, c5) = (m.src_up as int, m.src_down as int, m.dst_up as int);
    let x = m.both_up - m.both_down;
    lemma_run_shared(st, m);
    lemma_run_block(st, r12, Op::Ra, m.src_up as nat, x, x);
    lemma_run_block(st, r12 + r3, Op::Rra, m.src_down as nat, x + c3, x);
    lemma_run_block(st, r12 + r3 + r4, Op::Rb, m.dst_up as nat, x + c3 - c4, x);
    lemma_run_block(st, r12 + r3 + r4 + r5, Op::Rrb, m.dst_down as nat, x + c3 - c4, x + c5);
    lemma_valid_block(st, r12, Op::Ra, m.src_up as nat, x, x);
    lemma_valid_block(st, r12 + r3, Op::Rra, m.src_down as nat, x + c3, x);
    lemma_valid_block(st, r12 + r3 + r4, Op::Rb, m.dst_up as nat, x + c3 - c4, x);
    lemma_valid_block(st, r12 + r3 + r4 + r5, Op::Rrb, m.dst_down as nat, x + c3 - c4, x + c5);
    assert(turns(m, dir) == r12 + r3 + r4 + r5 + repeat(Op::Rrb, m.dst_down as nat));
}

proof fn lemma_run_turns_ba(st: Pair, m: Moves)
    requires
        moves_fit(m, st.1.len() as int, st.0.len() as int),
    ensures
        valid_run(st, turns(m, Direction::Ba)),
        run(st, turns(m, Direction::Ba)) == rotate_pair(st, net_dst(m), net_src(m)),
{
    let dir = Direction::Ba;
    let r12 = repeat(Op::Rr, m.both_up as nat) + repeat(Op::Rrr, m.both_down as nat);
    let r3 = repeat(Op::Rb, m.src_up as nat);
    let r4 = repeat(Op::Rrb, m.src_down as nat);
    let r5 = repeat(Op::Ra, m.dst_up as nat);
    let (c3, c4, c5) = (m.src_up as int, m.src_down as int, m.dst_up as int);
    let x = m.both_up - m.both_down;
    lemma_run_shared(st, m);
    lemma_run_block(st, r12, Op::Rb, m.src_up as nat, x, x);
    lemma_run_block(st, r12 + r3, Op::Rrb, m.src_down as nat, x, x + c3);
    lemma_run_block(st, r12 + r3 + r4, Op::Ra, m.dst_up as nat, x, x + c3 - c4);
    lemma_run_block(st, r12 + r3 + r4 + r5, Op::Rra, m.dst_down as nat, x + c5, x + c3 - c4);
    lemma_valid_block(st, r12, Op::Rb, m.src_up as nat, x, x);
    lemma_valid_block(st, r12 + r3, Op::Rrb, m.src_down as nat, x, x + c3);
    lemma_valid_block(st, r12 + r3 + r4, Op::Ra, m.dst_up as nat, x, x + c3 - c4);
    lemma_valid_block(st, r12 + r3 + r4 + r5, Op::Rra, m.dst_down as nat, x + c5, x + c3 - c4);
    assert(turns(m, dir) == r12 + r3 + r4 + r5 + repeat(Op::Rra, m.dst_down as nat));
}

/// The cheapest move turns the source by `i` or `i - ns` and the destination by
/// `j` or `j - nd`.
proof fn lemma_best_nets(i: int, ns: int, j: int, nd: int)
    requires
        0 <= i < ns,
        0 <= j < nd || (j == 0 && nd == 0),
        ns + nd <= usize::MAX,
    ensures
        net_src(best_moves(i, ns, j, nd)) == i || net_src(best_moves(i, ns, j, nd)) == i - ns,
        net_dst(best_moves(i, ns, j, nd)) == j || net_dst(best_moves(i, ns, j, nd)) == j - nd,
{
    let s = separate_moves(i, ns, j, nd);
    let u = up_moves(i, j);
    let d = down_moves(i, ns, j, nd);
    assert(best_moves(i, ns, j, nd) == s || best_moves(i, ns, j, nd) == u || best_moves(
        i,
        ns,
        j,
        nd,
    ) == d);
}

/// What the instructions of a cheapest move do: source element `i` ends on top
/// of the destination, in front of destination element `j`.
pub proof fn lemma_move_effect(st: Pair, dir: Direction, i: int, j: int)
    requires
        0 <= i < src_of(st, dir).len(),
        is_place(dst_of(st, dir), src_of(st, dir)[i], dir, j),
        st.0.len() + st.1.len() <= usize::MAX,
    ensures
        run(
            st,
            moves_ops(
                best_moves(i, src_of(st, dir).len() as int, j, dst_of(st, dir).len() as int),
                dir,
            ),
        ) == moved(st, dir, i, j),
        valid_run(
            st,
            moves_ops(
                best_moves(i, src_of(st, dir).len() as int, j, dst_of(st, dir).len() as int),
                dir,
            ),
        ),
{
    let ns = src_of(st, dir).len() as int;
    let nd = dst_of(st, dir).len() as int;
    let m = best_moves(i, ns, j, nd);
    lemma_best_nets(i, ns, j, nd);
    lemma_best_fits(i, ns, j, nd);
    match dir {
        Direction::Ab => lemma_run_turns_ab(st, m),
        Direction::Ba => lemma_run_turns_ba(st, m),
    }
    assert(moves_ops(m, dir) == turns(m, dir) + seq![push_op(dir)]);
    lemma_run_concat(st, turns(m, dir), seq![push_op(dir)]);
    let t = run(st, turns(m, dir));
    assert(run(t, seq![push_op(dir)]) == push_op(dir).step(t)) by {
        assert(seq![push_op(dir)].drop_last() =~= Seq::<Op>::empty());
        assert(run(t, Seq::<Op>::empty()) == t);
    }
    let s = src_of(st, dir);
    let d = dst_of(st, dir);
    lemma_rotl_wrap(s, i);
    lemma_rotl_wrap(d, j);
    assert(rotl(s, net_src(m)) == rotl(s, i));
    assert(rotl(d, net_dst(m)) == rotl(d, j));
    let rs = rotl(s, i);
    assert(rs.len() == s.len());
    assert(push_onto(rs, rotl(d, j)) == (rs.skip(1), seq![rs[0]] + rotl(d, j)));
    assert(push_op(dir).has_operands(t));
    assert(valid_run(t, seq![push_op(dir)])) by {
        assert(seq![push_op(dir)].drop_last() =~= Seq::<Op>::empty());
        assert(run(t, Seq::<Op>::empty()) == t);
        assert(valid_run(t, Seq::<Op>::empty()));
    }
    lemma_valid_concat(st, turns(m, dir), seq![push_op(dir)]);
}

} // verus!
