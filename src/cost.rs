use crate::machine::{count_op, lemma_count_absent, lemma_count_concat, Op, Pair, Stacks};
use std::collections::VecDeque;
use vstd::prelude::*;

verus! {

/// Which way elements travel: from A to B, or from B back to A.
#[derive(Clone, Copy, Debug, PartialEq, Eq, Structural)]
pub enum Direction {
    Ab,
    Ba,
}

/// The stack that elements leave.
pub open spec fn src_of(st: Pair, dir: Direction) -> Seq<i32> {
    match dir {
        Direction::Ab => st.0,
        Direction::Ba => st.1,
    }
}

/// The stack that elements enter.
pub open spec fn dst_of(st: Pair, dir: Direction) -> Seq<i32> {
    match dir {
        Direction::Ab => st.1,
        Direction::Ba => st.0,
    }
}

/// The order that the destination stack keeps: descending for B, ascending for A.
pub open spec fn key(x: i32, dir: Direction) -> int {
    match dir {
        Direction::Ab => -(x as int),
        Direction::Ba => x as int,
    }
}

/// `j` is where `x` goes in `d`: the element with the smallest key above `x`'s key
/// (the largest value below `x` on B, the smallest value above `x` on A); when there
/// is none, the element with the smallest key (B's maximum, A's minimum); 0 when `d` is empty.
pub open spec fn is_place(d: Seq<i32>, x: i32, dir: Direction, j: int) -> bool {
    if d.len() == 0 {
        j == 0
    } else {
        &&& 0 <= j < d.len()
        &&& if exists|k: int| 0 <= k < d.len() && key(#[trigger] d[k], dir) > key(x, dir) {
            &&& key(d[j], dir) > key(x, dir)
            &&& forall|k: int|
                0 <= k < d.len() && key(#[trigger] d[k], dir) > key(x, dir) ==> key(d[j], dir)
                    <= key(d[k], dir)
        } else {
            forall|k: int| 0 <= k < d.len() ==> key(d[j], dir) <= key(#[trigger] d[k], dir)
        }
    }
}

/// Rotation and push counts for moving one element: `both_up` counts `rr`,
/// `both_down` counts `rrr`, the others rotate the source or the destination alone.
#[derive(Clone, Copy, Debug, PartialEq, Eq, Structural)]
pub struct Moves {
    pub src_up: usize,
    pub src_down: usize,
    pub dst_up: usize,
    pub dst_down: usize,
    pub both_up: usize,
    pub both_down: usize,
}

impl Moves {
    /// The number of rotation instructions.
    pub open spec fn cost(self) -> int {
        self.src_up + self.src_down + self.dst_up + self.dst_down + self.both_up + self.both_down
    }
}

/// Moves from six counts.
pub open spec fn moves_of(
    src_up: int,
    src_down: int,
    dst_up: int,
    dst_down: int,
    both_up: int,
    both_down: int,
) -> Moves {
    Moves {
        src_up: src_up as usize,
        src_down: src_down as usize,
        dst_up: dst_up as usize,
        dst_down: dst_down as usize,
        both_up: both_up as usize,
        both_down: both_down as usize,
    }
}

/// Each stack rotated its own shorter way.
pub open spec fn separate_moves(i: int, ns: int, j: int, nd: int) -> Moves {
    moves_of(
        if i < ns - i { i } else { 0 },
        if i < ns - i { 0 } else { ns - i },
        if j < nd - j { j } else { 0 },
        if j < nd - j { 0 } else { nd - j },
        0,
        0,
    )
}

/// Both stacks rotated up, sharing `rr` as far as they go together.
pub open spec fn up_moves(i: int, j: int) -> Moves {
    if i < j {
        moves_of(0, 0, j - i, 0, i, 0)
    } else {
        moves_of(i - j, 0, 0, 0, j, 0)
    }
}

/// Both stacks rotated down, sharing `rrr` as far as they go together.
pub open spec fn down_moves(i: int, ns: int, j: int, nd: int) -> Moves {
    if ns - i < nd - j {
        moves_of(0, 0, 0, (nd - j) - (ns - i), 0, ns - i)
    } else {
        moves_of(0, (ns - i) - (nd - j), 0, 0, 0, nd - j)
    }
}

/// The cheapest of the three ways to bring source element `i` and destination
/// element `j` to the tops; on a tie the earlier of separate, up, down.
pub open spec fn best_moves(i: int, ns: int, j: int, nd: int) -> Moves {
    let s = separate_moves(i, ns, j, nd);
    let u = up_moves(i, j);
    let d = down_moves(i, ns, j, nd);
    if s.cost() <= u.cost() && s.cost() <= d.cost() {
        s
    } else if u.cost() <= d.cost() {
        u
    } else {
        d
    }
}

/// `n` copies of `op`.
pub open spec fn repeat(op: Op, n: nat) -> Seq<Op> {
    Seq::new(n, |_i: int| op)
}

pub open spec fn src_up_op(dir: Direction) -> Op {
    match dir {
        Direction::Ab => Op::Ra,
        Direction::Ba => Op::Rb,
    }
}

pub open spec fn src_down_op(dir: Direction) -> Op {
    match dir {
        Direction::Ab => Op::Rra,
        Direction::Ba => Op::Rrb,
    }
}

pub open spec fn dst_up_op(dir: Direction) -> Op {
    match dir {
        Direction::Ab => Op::Rb,
        Direction::Ba => Op::Ra,
    }
}

pub open spec fn dst_down_op(dir: Direction) -> Op {
    match dir {
        Direction::Ab => Op::Rrb,
        Direction::Ba => Op::Rra,
    }
}

pub open spec fn push_op(dir: Direction) -> Op {
    match dir {
        Direction::Ab => Op::Pb,
        Direction::Ba => Op::Pa,
    }
}

/// The instructions of a move: shared rotations, then the source's, then the
/// destination's, then the push.
pub open spec fn moves_ops(m: Moves, dir: Direction) -> Seq<Op> {
    repeat(Op::Rr, m.both_up as nat) + repeat(Op::Rrr, m.both_down as nat) + repeat(
        src_up_op(dir),
        m.src_up as nat,
    ) + repeat(src_down_op(dir), m.src_down as nat) + repeat(dst_up_op(dir), m.dst_up as nat)
        + repeat(dst_down_op(dir), m.dst_down as nat) + seq![push_op(dir)]
}

/// Instructions of a phase in direction `dir`: rotations and that direction's push.
pub open spec fn phase_ops(ops: Seq<Op>, dir: Direction) -> bool {
    forall|i: int|
        0 <= i < ops.len() ==> match #[trigger] ops[i] {
            Op::Ra | Op::Rb | Op::Rr | Op::Rra | Op::Rrb | Op::Rrr => true,
            o => o == push_op(dir),
        }
}

/// Two lists of a phase's instructions make one.
pub proof fn lemma_phase_concat(x: Seq<Op>, y: Seq<Op>, dir: Direction)
    requires
        phase_ops(x, dir),
        phase_ops(y, dir),
    ensures
        phase_ops(x + y, dir),
{
    assert forall|i: int| 0 <= i < (x + y).len() implies match #[trigger] (x + y)[i] {
        Op::Ra | Op::Rb | Op::Rr | Op::Rra | Op::Rrb | Op::Rrr => true,
        o => o == push_op(dir),
    } by {
        if i < x.len() {
            assert((x + y)[i] == x[i]);
        } else {
            assert((x + y)[i] == y[i - x.len()]);
        }
    }
}

/// A move rotates and then pushes once.
pub proof fn lemma_moves_shape(m: Moves, dir: Direction)
    ensures
        phase_ops(moves_ops(m, dir), dir),
        count_op(moves_ops(m, dir), push_op(dir)) == 1,
{
    let t = repeat(Op::Rr, m.both_up as nat) + repeat(Op::Rrr, m.both_down as nat) + repeat(
        src_up_op(dir),
        m.src_up as nat,
    ) + repeat(src_down_op(dir), m.src_down as nat) + repeat(dst_up_op(dir), m.dst_up as nat)
        + repeat(dst_down_op(dir), m.dst_down as nat);
    assert(moves_ops(m, dir) == t + seq![push_op(dir)]);
    assert forall|i: int| 0 <= i < t.len() implies #[trigger] t[i] != push_op(dir) && match t[i] {
        Op::Ra | Op::Rb | Op::Rr | Op::Rra | Op::Rrb | Op::Rrr => true,
        _ => false,
    } by {}
    lemma_count_absent(t, push_op(dir));
    lemma_count_concat(t, seq![push_op(dir)], push_op(dir));
    assert(count_op(seq![push_op(dir)], push_op(dir)) == 1) by {
        assert(seq![push_op(dir)].drop_last() =~= Seq::<Op>::empty());
        assert(count_op(Seq::<Op>::empty(), push_op(dir)) == 0);
    }
}

/// Whether `u` has a larger key than `v`.
fn key_above(u: i32, v: i32, dir: Direction) -> (r: bool)
    ensures
        r == (key(u, dir) > key(v, dir)),
{
    match dir {
        Direction::Ab => u < v,
        Direction::Ba => u > v,
    }
}

/// Where `x` goes in the destination stack `d`.
fn place_of(d: &VecDeque<i32>, x: i32, dir: Direction) -> (r: usize)
    ensures
        is_place(d@, x, dir, r as int),
{
    let n = d.len();
    if n == 0 {
        return 0;
    }
    let mut found = false;
    let mut best: usize = 0;
    let mut low: usize = 0;
    let mut k: usize = 0;
    while k < n
        invariant
            n == d@.len(),
            n > 0,
            k <= n,
            low < n,
            best < n,
            forall|q: int| 0 <= q < k ==> key(d@[low as int], dir) <= key(#[trigger] d@[q], dir),
            found ==> key(d@[best as int], dir) > key(x, dir),
            found ==> forall|q: int|
                0 <= q < k && key(#[trigger] d@[q], dir) > key(x, dir) ==> key(d@[best as int], dir)
                    <= key(d@[q], dir),
            !found ==> forall|q: int| 0 <= q < k ==> key(#[trigger] d@[q], dir) <= key(x, dir),
        decreases n - k,
    {
        if key_above(d[low], d[k], dir) {
            low = k;
        }
        if key_above(d[k], x, dir) {
            if !found || key_above(d[best], d[k], dir) {
                best = k;
            }
            found = true;
        }
        k = k + 1;
    }
    if found {
        best
    } else {
        low
    }
}

/// For each source element, top first, where it goes in the destination.
fn get_places(stacks: &Stacks, dir: Direction) -> (r: Vec<usize>)
    ensures
        r@.len() == src_of(stacks@, dir).len(),
        forall|i: int|
            0 <= i < r@.len() ==> is_place(
                dst_of(stacks@, dir),
                src_of(stacks@, dir)[i],
                dir,
                #[trigger] r@[i] as int,
            ),
{
    let (src, dst) = match dir {
        Direction::Ab => (&stacks.a, &stacks.b),
        Direction::Ba => (&stacks.b, &stacks.a),
    };
    let n = src.len();
    let mut r: Vec<usize> = Vec::new();
    let mut i: usize = 0;
    while i < n
        invariant
            n == src@.len(),
            src@ == src_of(stacks@, dir),
            dst@ == dst_of(stacks@, dir),
            i <= n,
            r@.len() == i,
            forall|k: int|
                0 <= k < i ==> is_place(dst@, src@[k], dir, #[trigger] r@[k] as int),
        decreases n - i,
    {
        let p = place_of(dst, src[i], dir);
        r.push(p);
        i = i + 1;
    }
    r
}

fn total(m: &Moves) -> (r: usize)
    requires
        m.cost() <= usize::MAX,
    ensures
        r == m.cost(),
{
    m.src_up + m.src_down + m.dst_up + m.dst_down + m.both_up + m.both_down
}

/// The cheapest way to bring source element `i` and destination element `j` to the tops.
fn choose_moves(i: usize, ns: usize, j: usize, nd: usize) -> (r: Moves)
    requires
        i < ns,
        j < nd || j == 0,
        ns + nd <= usize::MAX,
    ensures
        r == best_moves(i as int, ns as int, j as int, nd as int),
{
    let (ru, rd, du, dd) = (i, ns - i, j, if j < nd { nd - j } else { 0 });
    assert(dd == nd - j);
    let s = Moves {
        src_up: if ru < rd { ru } else { 0 },
        src_down: if ru < rd { 0 } else { rd },
        dst_up: if du < dd { du } else { 0 },
        dst_down: if du < dd { 0 } else { dd },
        both_up: 0,
        both_down: 0,
    };
    let u = if ru < du {
        Moves { src_up: 0, src_down: 0, dst_up: du - ru, dst_down: 0, both_up: ru, both_down: 0 }
    } else {
        Moves { src_up: ru - du, src_down: 0, dst_up: 0, dst_down: 0, both_up: du, both_down: 0 }
    };
    let d = if rd < dd {
        Moves { src_up: 0, src_down: 0, dst_up: 0, dst_down: dd - rd, both_up: 0, both_down: rd }
    } else {
        Moves { src_up: 0, src_down: rd - dd, dst_up: 0, dst_down: 0, both_up: 0, both_down: dd }
    };
    let (cs, cu, cd) = (total(&s), total(&u), total(&d));
    if cs <= cu && cs <= cd {
        s
    } else if cu <= cd {
        u
    } else {
        d
    }
}

/// Appends `n` copies of `op`.
fn push_repeat(v: &mut Vec<Op>, op: Op, n: usize)
    ensures
        final(v)@ == old(v)@ + repeat(op, n as nat),
{
    let mut k: usize = 0;
    while k < n
        invariant
            k <= n,
            v@ =~= old(v)@ + repeat(op, k as nat),
        decreases n - k,
    {
        v.push(op);
        k = k + 1;
    }
}

/// The instructions of the moves `m` in direction `dir`, ending with the push.
fn op_conv(m: Moves, dir: Direction) -> (r: Vec<Op>)
    ensures
        r@ == moves_ops(m, dir),
{
    let mut r: Vec<Op> = Vec::new();
    push_repeat(&mut r, Op::Rr, m.both_up);
    push_repeat(&mut r, Op::Rrr, m.both_down);
    match dir {
        Direction::Ab => {
            push_repeat(&mut r, Op::Ra, m.src_up);
            push_repeat(&mut r, Op::Rra, m.src_down);
            push_repeat(&mut r, Op::Rb, m.dst_up);
            push_repeat(&mut r, Op::Rrb, m.dst_down);
            r.push(Op::Pb);
        },
        Direction::Ba => {
            push_repeat(&mut r, Op::Rb, m.src_up);
            push_repeat(&mut r, Op::Rrb, m.src_down);
            push_repeat(&mut r, Op::Ra, m.dst_up);
            push_repeat(&mut r, Op::Rra, m.dst_down);
            r.push(Op::Pa);
        },
    }
    assert(r@ =~= moves_ops(m, dir));
    r
}

/// A cheapest instruction list that moves source element `i` to the destination.
pub open spec fn is_candidate(st: Pair, dir: Direction, i: int, ops: Seq<Op>) -> bool {
    exists|j: int|
        is_place(dst_of(st, dir), src_of(st, dir)[i], dir, j) && ops == moves_ops(
            best_moves(i, src_of(st, dir).len() as int, j, dst_of(st, dir).len() as int),
            dir,
        )
}

/// Where `x` goes in `d`; the index is unique when `d` holds no value twice.
pub open spec fn place(d: Seq<i32>, x: i32, dir: Direction) -> int {
    choose|j: int| is_place(d, x, dir, j)
}

/// The cheapest instruction list that moves source element `i` to the destination.
pub open spec fn candidate(st: Pair, dir: Direction, i: int) -> Seq<Op> {
    moves_ops(
        best_moves(
            i,
            src_of(st, dir).len() as int,
            place(dst_of(st, dir), src_of(st, dir)[i], dir),
            dst_of(st, dir).len() as int,
        ),
        dir,
    )
}

/// In a stack without repeated values there is one place for `x`.
pub proof fn lemma_place_unique(d: Seq<i32>, x: i32, dir: Direction, j: int)
    requires
        is_place(d, x, dir, j),
        d.no_duplicates(),
    ensures
        place(d, x, dir) == j,
{
    let p = place(d, x, dir);
    assert(is_place(d, x, dir, p));
    if d.len() > 0 && p != j {
        assert(key(d[p], dir) <= key(d[j], dir));
        assert(key(d[j], dir) <= key(d[p], dir));
        assert(d[p] != d[j]);
    }
}

/// For each source element, top first, a cheapest instruction list that moves it.
pub fn get_best_ops(stacks: &Stacks, dir: Direction) -> (r: Vec<Vec<Op>>)
    requires
        stacks@.0.len() + stacks@.1.len() <= usize::MAX,
    ensures
        r@.len() == src_of(stacks@, dir).len(),
        forall|i: int| 0 <= i < r@.len() ==> is_candidate(stacks@, dir, i, #[trigger] r@[i]@),
        dst_of(stacks@, dir).no_duplicates() ==> forall|i: int|
            0 <= i < r@.len() ==> #[trigger] r@[i]@ == candidate(stacks@, dir, i),
{
    let places = get_places(stacks, dir);
    let ns = match dir {
        Direction::Ab => stacks.a.len(),
        Direction::Ba => stacks.b.len(),
    };
    let nd = match dir {
        Direction::Ab => stacks.b.len(),
        Direction::Ba => stacks.a.len(),
    };
    let mut r: Vec<Vec<Op>> = Vec::new();
    let mut i: usize = 0;
    while i < ns
        invariant
            ns == src_of(stacks@, dir).len(),
            nd == dst_of(stacks@, dir).len(),
            ns + nd <= usize::MAX,
            places@.len() == ns,
            forall|k: int|
                0 <= k < ns ==> is_place(
                    dst_of(stacks@, dir),
                    src_of(stacks@, dir)[k],
                    dir,
                    #[trigger] places@[k] as int,
                ),
            i <= ns,
            r@.len() == i,
            forall|k: int| 0 <= k < i ==> is_candidate(stacks@, dir, k, #[trigger] r@[k]@),
            dst_of(stacks@, dir).no_duplicates() ==> forall|k: int|
                0 <= k < i ==> #[trigger] r@[k]@ == candidate(stacks@, dir, k),
        decreases ns - i,
    {
        let j = places[i];
        assert(is_place(dst_of(stacks@, dir), src_of(stacks@, dir)[i as int], dir, j as int));
        let m = choose_moves(i, ns, j, nd);
        let ops = op_conv(m, dir);
        proof {
            if dst_of(stacks@, dir).no_duplicates() {
                lemma_place_unique(
                    dst_of(stacks@, dir),
                    src_of(stacks@, dir)[i as int],
                    dir,
                    j as int,
                );
            }
        }
        r.push(ops);
        i = i + 1;
    }
    r
}

} // verus!
