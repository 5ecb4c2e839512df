use std::collections::VecDeque;
use vstd::prelude::*;

verus! {

/// One of the eleven primitive instructions over the two stacks.
#[derive(Clone, Copy, Debug, PartialEq, Eq, Structural)]
pub enum Op {
    Sa,
    Sb,
    Ra,
    Rb,
    Rra,
    Rrb,
    Ss,
    Rr,
    Rrr,
    Pa,
    Pb,
}

/// Errors reported by the stack machine and by stack construction.
#[derive(Clone, Copy, Debug, PartialEq, Eq, Structural)]
pub enum StackError {
    /// A token of the input is not an integer.
    InvalidInput,
    /// The input holds the same value twice.
    DuplicateValue,
    /// An instruction name is none of the eleven.
    UnknownOperation,
}

/// A pair of stacks, as sequences of values: (A, B).
pub type Pair = (Seq<i32>, Seq<i32>);

/// Exchanges the first two elements; a shorter sequence is left as it is.
pub open spec fn swap_top(s: Seq<i32>) -> Seq<i32> {
    if s.len() < 2 {
        s
    } else {
        seq![s[1], s[0]] + s.skip(2)
    }
}

/// The first element moves to the back.
pub open spec fn rot_up(s: Seq<i32>) -> Seq<i32> {
    if s.len() == 0 {
        s
    } else {
        s.skip(1).push(s[0])
    }
}

/// The last element moves to the front.
pub open spec fn rot_down(s: Seq<i32>) -> Seq<i32> {
    if s.len() == 0 {
        s
    } else {
        seq![s.last()] + s.drop_last()
    }
}

/// Moves the first element of `from` onto the front of `to`; nothing happens when `from` is empty.
pub open spec fn push_onto(from: Seq<i32>, to: Seq<i32>) -> (Seq<i32>, Seq<i32>) {
    if from.len() == 0 {
        (from, to)
    } else {
        (from.skip(1), seq![from[0]] + to)
    }
}

impl Op {
    /// The effect of one instruction on the pair (A, B).
    pub open spec fn step(self, st: Pair) -> Pair {
        let (a, b) = st;
        match self {
            Op::Sa => (swap_top(a), b),
            Op::Sb => (a, swap_top(b)),
            Op::Ss => (swap_top(a), swap_top(b)),
            Op::Ra => (rot_up(a), b),
            Op::Rb => (a, rot_up(b)),
            Op::Rr => (rot_up(a), rot_up(b)),
            Op::Rra => (rot_down(a), b),
            Op::Rrb => (a, rot_down(b)),
            Op::Rrr => (rot_down(a), rot_down(b)),
            Op::Pa => {
                let (nb, na) = push_onto(b, a);
                (na, nb)
            },
            Op::Pb => push_onto(a, b),
        }
    }

    /// The instruction whose effect cancels this one.
    pub open spec fn spec_inverse(self) -> Op {
        match self {
            Op::Ra => Op::Rra,
            Op::Rb => Op::Rrb,
            Op::Rr => Op::Rrr,
            Op::Rra => Op::Ra,
            Op::Rrb => Op::Rb,
            Op::Rrr => Op::Rr,
            Op::Pa => Op::Pb,
            Op::Pb => Op::Pa,
            _ => self,
        }
    }

    /// An instruction moves something only when its source stack holds an element.
    pub open spec fn enabled(self, st: Pair) -> bool {
        match self {
            Op::Pa => st.1.len() > 0,
            Op::Pb => st.0.len() > 0,
            _ => true,
        }
    }

    /// The instruction finds what it works on: two elements on each stack that it swaps
    /// or rotates, one on the stack that it pushes from.
    pub open spec fn has_operands(self, st: Pair) -> bool {
        match self {
            Op::Sa | Op::Ra | Op::Rra => st.0.len() >= 2,
            Op::Sb | Op::Rb | Op::Rrb => st.1.len() >= 2,
            Op::Ss | Op::Rr | Op::Rrr => st.0.len() >= 2 && st.1.len() >= 2,
            Op::Pa => st.1.len() >= 1,
            Op::Pb => st.0.len() >= 1,
        }
    }

    /// The instruction's name, as the characters of its symbol.
    pub open spec fn spec_name(self) -> Seq<char> {
        match self {
            Op::Sa => seq!['s', 'a'],
            Op::Sb => seq!['s', 'b'],
            Op::Ra => seq!['r', 'a'],
            Op::Rb => seq!['r', 'b'],
            Op::Rra => seq!['r', 'r', 'a'],
            Op::Rrb => seq!['r', 'r', 'b'],
            Op::Ss => seq!['s', 's'],
            Op::Rr => seq!['r', 'r'],
            Op::Rrr => seq!['r', 'r', 'r'],
            Op::Pa => seq!['p', 'a'],
            Op::Pb => seq!['p', 'b'],
        }
    }

    #[verifier::when_used_as_spec(spec_inverse)]
    pub fn inverse(self) -> (r: Op)
        ensures
            r == self.spec_inverse(),
    {
        match self {
            Op::Ra => Op::Rra,
            Op::Rb => Op::Rrb,
            Op::Rr => Op::Rrr,
            Op::Rra => Op::Ra,
            Op::Rrb => Op::Rb,
            Op::Rrr => Op::Rr,
            Op::Pa => Op::Pb,
            Op::Pb => Op::Pa,
            _ => self,
        }
    }

    /// The symbol of the instruction, such as `"rra"`.
    pub fn name(self) -> (r: &'static str)
        ensures
            r@ == self.spec_name(),
    {
        proof {
            reveal_strlit("sa");
            reveal_strlit("sb");
            reveal_strlit("ra");
            reveal_strlit("rb");
            reveal_strlit("rra");
            reveal_strlit("rrb");
            reveal_strlit("ss");
            reveal_strlit("rr");
            reveal_strlit("rrr");
            reveal_strlit("pa");
            reveal_strlit("pb");
        }
        let r = match self {
            Op::Sa => "sa",
            Op::Sb => "sb",
            Op::Ra => "ra",
            Op::Rb => "rb",
            Op::Rra => "rra",
            Op::Rrb => "rrb",
            Op::Ss => "ss",
            Op::Rr => "rr",
            Op::Rrr => "rrr",
            Op::Pa => "pa",
            Op::Pb => "pb",
        };
        assert(r@ =~= self.spec_name());
        r
    }

    /// The instruction whose symbol is `s`, if there is one.
    pub fn from_name(s: &str) -> (r: Option<Op>)
        ensures
            r == op_named(s@),
    {
        let n = s.unicode_len();
        if n == 2 {
            let c0 = s.get_char(0);
            let c1 = s.get_char(1);
            if c0 == 's' && c1 == 'a' {
                Some(Op::Sa)
            } else if c0 == 's' && c1 == 'b' {
                Some(Op::Sb)
            } else if c0 == 's' && c1 == 's' {
                Some(Op::Ss)
            } else if c0 == 'r' && c1 == 'a' {
                Some(Op::Ra)
            } else if c0 == 'r' && c1 == 'b' {
                Some(Op::Rb)
            } else if c0 == 'r' && c1 == 'r' {
                Some(Op::Rr)
            } else if c0 == 'p' && c1 == 'a' {
                Some(Op::Pa)
            } else if c0 == 'p' && c1 == 'b' {
                Some(Op::Pb)
            } else {
                None
            }
        } else if n == 3 {
            let c0 = s.get_char(0);
            let c1 = s.get_char(1);
            let c2 = s.get_char(2);
            if c0 == 'r' && c1 == 'r' && c2 == 'a' {
                Some(Op::Rra)
            } else if c0 == 'r' && c1 == 'r' && c2 == 'b' {
                Some(Op::Rrb)
            } else if c0 == 'r' && c1 == 'r' && c2 == 'r' {
                Some(Op::Rrr)
            } else {
                None
            }
        } else {
            None
        }
    }
}

/// The instruction named by the characters `s`, if any.
pub open spec fn op_named(s: Seq<char>) -> Option<Op> {
    if s.len() == 2 {
        if s[0] == 's' && s[1] == 'a' {
            Some(Op::Sa)
        } else if s[0] == 's' && s[1] == 'b' {
            Some(Op::Sb)
        } else if s[0] == 's' && s[1] == 's' {
            Some(Op::Ss)
        } else if s[0] == 'r' && s[1] == 'a' {
            Some(Op::Ra)
        } else if s[0] == 'r' && s[1] == 'b' {
            Some(Op::Rb)
        } else if s[0] == 'r' && s[1] == 'r' {
            Some(Op::Rr)
        } else if s[0] == 'p' && s[1] == 'a' {
            Some(Op::Pa)
        } else if s[0] == 'p' && s[1] == 'b' {
            Some(Op::Pb)
        } else {
            None
        }
    } else if s.len() == 3 && s[0] == 'r' && s[1] == 'r' {
        if s[2] == 'a' {
            Some(Op::Rra)
        } else if s[2] == 'b' {
            Some(Op::Rrb)
        } else if s[2] == 'r' {
            Some(Op::Rrr)
        } else {
            None
        }
    } else {
        None
    }
}

/// Each instruction is found again from its name.
pub proof fn lemma_name_round_trip(op: Op)
    ensures
        op_named(op.spec_name()) == Some(op),
{
}

/// The pair reached from `st` by the instructions of `ops`, first to last.
pub open spec fn run(st: Pair, ops: Seq<Op>) -> Pair
    decreases ops.len(),
{
    if ops.len() == 0 {
        st
    } else {
        ops.last().step(run(st, ops.drop_last()))
    }
}

/// Every instruction of `ops`, replayed from `st`, finds its operands.
pub open spec fn valid_run(st: Pair, ops: Seq<Op>) -> bool
    decreases ops.len(),
{
    ops.len() == 0 || (valid_run(st, ops.drop_last()) && ops.last().has_operands(
        run(st, ops.drop_last()),
    ))
}

/// Two valid replays in a row make one.
pub proof fn lemma_valid_concat(st: Pair, x: Seq<Op>, y: Seq<Op>)
    requires
        valid_run(st, x),
        valid_run(run(st, x), y),
    ensures
        valid_run(st, x + y),
    decreases y.len(),
{
    if y.len() == 0 {
        assert(x + y =~= x);
    } else {
        assert((x + y).drop_last() =~= x + y.drop_last());
        lemma_valid_concat(st, x, y.drop_last());
        lemma_run_concat(st, x, y.drop_last());
    }
}

/// How many times `op` occurs in `ops`.
pub open spec fn count_op(ops: Seq<Op>, op: Op) -> nat
    decreases ops.len(),
{
    if ops.len() == 0 {
        0
    } else {
        count_op(ops.drop_last(), op) + if ops.last() == op {
            1nat
        } else {
            0nat
        }
    }
}

/// Occurrences add up over a concatenation.
pub proof fn lemma_count_concat(x: Seq<Op>, y: Seq<Op>, op: Op)
    ensures
        count_op(x + y, op) == count_op(x, op) + count_op(y, op),
    decreases y.len(),
{
    if y.len() == 0 {
        assert(x + y =~= x);
    } else {
        assert((x + y).drop_last() =~= x + y.drop_last());
        lemma_count_concat(x, y.drop_last(), op);
    }
}

/// A list without `op` counts none of it.
pub proof fn lemma_count_absent(x: Seq<Op>, op: Op)
    requires
        forall|i: int| 0 <= i < x.len() ==> x[i] != op,
    ensures
        count_op(x, op) == 0,
    decreases x.len(),
{
    if x.len() > 0 {
        lemma_count_absent(x.drop_last(), op);
    }
}

/// Replaying `x` then `y` is replaying their concatenation.
pub proof fn lemma_run_concat(st: Pair, x: Seq<Op>, y: Seq<Op>)
    ensures
        run(st, x + y) == run(run(st, x), y),
    decreases y.len(),
{
    if y.len() == 0 {
        assert(x + y =~= x);
    } else {
        assert((x + y).drop_last() =~= x + y.drop_last());
        lemma_run_concat(st, x, y.drop_last());
    }
}

/// Undoing an instruction right after it restores the pair, wherever the
/// instruction had an element to move.
pub proof fn lemma_undo_restores(st: Pair, op: Op)
    requires
        op.enabled(st),
    ensures
        op.spec_inverse().step(op.step(st)) == st,
{
    let (a, b) = st;
    match op {
        Op::Sa | Op::Ss => {
            assert(swap_top(swap_top(a)) =~= a);
            assert(swap_top(swap_top(b)) =~= b);
        },
        Op::Sb => {
            assert(swap_top(swap_top(b)) =~= b);
        },
        Op::Ra | Op::Rr | Op::Rra | Op::Rrr => {
            assert(rot_down(rot_up(a)) =~= a);
            assert(rot_up(rot_down(a)) =~= a);
            assert(rot_down(rot_up(b)) =~= b);
            assert(rot_up(rot_down(b)) =~= b);
        },
        Op::Rb | Op::Rrb => {
            assert(rot_down(rot_up(b)) =~= b);
            assert(rot_up(rot_down(b)) =~= b);
        },
        Op::Pa => {
            assert((seq![b[0]] + a).skip(1) =~= a);
            assert(seq![b[0]] + b.skip(1) =~= b);
        },
        Op::Pb => {
            assert((seq![a[0]] + b).skip(1) =~= b);
            assert(seq![a[0]] + a.skip(1) =~= a);
        },
    }
}

/// The two stacks; the first element of each is its top.
pub struct Stacks {
    pub a: VecDeque<i32>,
    pub b: VecDeque<i32>,
}

impl View for Stacks {
    type V = Pair;

    open spec fn view(&self) -> Pair {
        (self.a@, self.b@)
    }
}

fn swap_front(s: &mut VecDeque<i32>)
    ensures
        final(s)@ == swap_top(old(s)@),
{
    if s.len() >= 2 {
        let x = s.pop_front().unwrap();
        let y = s.pop_front().unwrap();
        s.push_front(x);
        s.push_front(y);
        assert(s@ =~= swap_top(old(s)@));
    }
}

fn rotate_up(s: &mut VecDeque<i32>)
    ensures
        final(s)@ == rot_up(old(s)@),
{
    if let Some(x) = s.pop_front() {
        s.push_back(x);
        assert(s@ =~= rot_up(old(s)@));
    }
}

fn rotate_down(s: &mut VecDeque<i32>)
    ensures
        final(s)@ == rot_down(old(s)@),
{
    if let Some(x) = s.pop_back() {
        s.push_front(x);
        assert(s@ =~= rot_down(old(s)@));
    }
}

fn move_top(from: &mut VecDeque<i32>, to: &mut VecDeque<i32>)
    ensures
        (final(from)@, final(to)@) == push_onto(old(from)@, old(to)@),
{
    if let Some(x) = from.pop_front() {
        to.push_front(x);
        assert(from@ =~= old(from)@.skip(1));
    }
}

impl Stacks {
    /// Stacks with `values` on A (first value on top) and B empty; refused when a value repeats.
    pub fn new(values: &Vec<i32>) -> (r: Result<Stacks, StackError>)
        ensures
            r is Ok <==> values@.no_duplicates(),
            r is Err ==> r == Err::<Stacks, StackError>(StackError::DuplicateValue),
            r matches Ok(s) ==> s@ == (values@, Seq::<i32>::empty()),
    {
        let mut a: VecDeque<i32> = VecDeque::new();
        let mut i: usize = 0;
        while i < values.len()
            invariant
                i <= values.len(),
                a@ =~= values@.take(i as int),
            decreases values.len() - i,
        {
            a.push_back(values[i]);
            i = i + 1;
        }
        assert(a@ =~= values@);
        match Stacks::check_dup(&a) {
            Ok(()) => Ok(Stacks { a, b: VecDeque::new() }),
            Err(e) => Err(e),
        }
    }

    /// Succeeds exactly when no value occurs twice in `stack`.
    pub fn check_dup(stack: &VecDeque<i32>) -> (r: Result<(), StackError>)
        ensures
            r is Ok <==> stack@.no_duplicates(),
            r is Err ==> r == Err::<(), StackError>(StackError::DuplicateValue),
    {
        let n = stack.len();
        let mut i: usize = 0;
        while i < n
            invariant
                n == stack@.len(),
                i <= n,
                forall|p: int, q: int| 0 <= p < q < i ==> stack@[p] != stack@[q],
            decreases n - i,
        {
            let mut j: usize = 0;
            while j < i
                invariant
                    n == stack@.len(),
                    j <= i < n,
                    forall|q: int| 0 <= q < j ==> stack@[q] != stack@[i as int],
                decreases i - j,
            {
                if stack[j] == stack[i] {
                    return Err(StackError::DuplicateValue);
                }
                j = j + 1;
            }
            i = i + 1;
        }
        Ok(())
    }

    /// Performs one instruction. A swap or rotation of a stack too short for it,
    /// and a push from an empty stack, leave the stacks as they are.
    pub fn apply(&mut self, op: Op)
        ensures
            final(self)@ == op.step(old(self)@),
    {
        match op {
            Op::Sa => swap_front(&mut self.a),
            Op::Sb => swap_front(&mut self.b),
            Op::Ss => {
                swap_front(&mut self.a);
                swap_front(&mut self.b);
            },
            Op::Ra => rotate_up(&mut self.a),
            Op::Rb => rotate_up(&mut self.b),
            Op::Rr => {
                rotate_up(&mut self.a);
                rotate_up(&mut self.b);
            },
            Op::Rra => rotate_down(&mut self.a),
            Op::Rrb => rotate_down(&mut self.b),
            Op::Rrr => {
                rotate_down(&mut self.a);
                rotate_down(&mut self.b);
            },
            Op::Pa => move_top(&mut self.b, &mut self.a),
            Op::Pb => move_top(&mut self.a, &mut self.b),
        }
    }

    /// Performs the instruction named `op`; an unknown name changes nothing and is an error.
    pub fn exec(&mut self, op: &str) -> (r: Result<(), StackError>)
        ensures
            match op_named(op@) {
                Some(o) => r is Ok && final(self)@ == o.step(old(self)@),
                None => r == Err::<(), StackError>(StackError::UnknownOperation) && final(self)@
                    == old(self)@,
            },
    {
        match Op::from_name(op) {
            Some(o) => {
                self.apply(o);
                Ok(())
            },
            None => Err(StackError::UnknownOperation),
        }
    }

    /// Performs the inverse of the instruction named `op`; an unknown name changes
    /// nothing and is an error.
    pub fn unexec(&mut self, op: &str) -> (r: Result<(), StackError>)
        ensures
            match op_named(op@) {
                Some(o) => r is Ok && final(self)@ == o.spec_inverse().step(old(self)@),
                None => r == Err::<(), StackError>(StackError::UnknownOperation) && final(self)@
                    == old(self)@,
            },
    {
        match Op::from_name(op) {
            Some(o) => {
                self.apply(o.inverse());
                Ok(())
            },
            None => Err(StackError::UnknownOperation),
        }
    }
}

} // verus!
