use push_swap::machine::{Op, StackError, Stacks};
use push_swap::solver::{Solver, BACK_TRACK};
use push_swap::table::small_case_ops;
use std::collections::VecDeque;

/// A small deterministic generator, so that every run sees the same inputs.
struct Lcg(u64);

impl Lcg {
    fn next(&mut self) -> u64 {
        self.0 = self.0.wrapping_mul(6364136223846793005).wrapping_add(1442695040888963407);
        self.0 >> 33
    }

    fn shuffle(&mut self, v: &mut Vec<i32>) {
        for i in (1..v.len()).rev() {
            let j = (self.next() % (i as u64 + 1)) as usize;
            v.swap(i, j);
        }
    }
}

fn solve_values(values: &[i32]) -> (Stacks, Vec<&'static str>) {
    let mut stacks = Stacks::new(&values.to_vec()).unwrap();
    let mut solver = Solver::new(BACK_TRACK);
    solver.solve(&mut stacks);
    (stacks, solver.names())
}

fn replay(values: &[i32], names: &[&str]) -> Stacks {
    let mut stacks = Stacks::new(&values.to_vec()).unwrap();
    for name in names {
        stacks.exec(name).unwrap();
    }
    stacks
}

fn is_ascending(s: &VecDeque<i32>) -> bool {
    (1..s.len()).all(|i| s[i] > s[i - 1])
}

fn rand_nb_utils(size: i32, space: i32, rng: &mut Lcg) {
    let mut values: Vec<i32> = (size / 2 - size..size / 2).map(|x| x * space).collect();
    rng.shuffle(&mut values);
    let (stacks, names) = solve_values(&values);
    assert_eq!(is_ascending(&stacks.a), true);
    assert_eq!(stacks.b.len(), 0);
    assert_eq!(stacks.a.len(), values.len());
}

#[test]
fn rand_nb() {
    let mut rng = Lcg(7);
    for i in 0..100 {
        let space = (rng.next() % 4) as i32 + 1;
        rand_nb_utils(i, space, &mut rng);
    }
}

#[test]
fn replay_of_solution_sorts() {
    let mut rng = Lcg(42);
    for size in [0, 1, 2, 3, 5, 6, 7, 10, 25, 60, 120, 200] {
        let mut values: Vec<i32> = (0..size).map(|x| x * 3 - 100).collect();
        rng.shuffle(&mut values);
        let (solved, names) = solve_values(&values);
        let replayed = replay(&values, &names);
        assert_eq!(replayed.a, solved.a);
        assert!(replayed.b.is_empty());
        assert!(is_ascending(&replayed.a));
        let mut sorted = values.clone();
        sorted.sort();
        assert_eq!(replayed.a.iter().copied().collect::<Vec<i32>>(), sorted);
    }
}

#[test]
fn scenario_swap_two_first() {
    let (stacks, names) = solve_values(&[2, 1, 3]);
    assert_eq!(names, vec!["sa"]);
    assert_eq!(stacks.a, VecDeque::from(vec![1, 2, 3]));
}

#[test]
fn scenario_rotate_once() {
    let (stacks, names) = solve_values(&[3, 1, 2]);
    assert_eq!(names, vec!["ra"]);
    assert_eq!(stacks.a, VecDeque::from(vec![1, 2, 3]));
}

#[test]
fn scenario_already_sorted() {
    let (_, names) = solve_values(&[1, 2, 3, 4, 5]);
    assert!(names.is_empty());
}

#[test]
fn scenario_five_values() {
    // Pattern 4 0 2 1 3 shifts to 0 1 3 2 4, whose entry is ra ra sa; the
    // closing rotation then brings 10 to the top.
    let (stacks, names) = solve_values(&[50, 10, 30, 20, 40]);
    assert_eq!(names, vec!["ra", "ra", "sa", "rra"]);
    assert_eq!(stacks.a, VecDeque::from(vec![10, 20, 30, 40, 50]));
}

#[test]
fn small_inputs_need_no_instruction() {
    assert!(solve_values(&[]).1.is_empty());
    assert!(solve_values(&[42]).1.is_empty());
    assert!(solve_values(&[-7]).1.is_empty());
}

#[test]
fn every_small_permutation_is_sorted() {
    fn perms(v: Vec<i32>) -> Vec<Vec<i32>> {
        if v.len() <= 1 {
            return vec![v];
        }
        let mut out = Vec::new();
        for i in 0..v.len() {
            let mut rest = v.clone();
            let x = rest.remove(i);
            for mut p in perms(rest) {
                p.insert(0, x);
                out.push(p);
            }
        }
        out
    }
    for n in 2..=6 {
        for p in perms((0..n).map(|x| x * 10).collect()) {
            let (stacks, names) = solve_values(&p);
            assert!(is_ascending(&stacks.a), "{:?} -> {:?}", p, names);
            assert!(stacks.b.is_empty());
            if n <= 5 {
                assert!(names.iter().all(|o| *o == "sa" || *o == "ra" || *o == "rra"));
            }
        }
    }
}

#[test]
fn duplicates_are_rejected() {
    assert_eq!(Stacks::new(&vec![1, 2, 1]).err(), Some(StackError::DuplicateValue));
    assert_eq!(Stacks::new(&vec![5, 5]).err(), Some(StackError::DuplicateValue));
    assert!(Stacks::new(&vec![1, 2, 3]).is_ok());
    assert_eq!(Stacks::check_dup(&VecDeque::from(vec![3, 1, 3])), Err(StackError::DuplicateValue));
    assert_eq!(Stacks::check_dup(&VecDeque::new()), Ok(()));
}

#[test]
fn unknown_operation_is_an_error() {
    let mut stacks = Stacks::new(&vec![1, 2, 3]).unwrap();
    assert_eq!(stacks.exec("rx"), Err(StackError::UnknownOperation));
    assert_eq!(stacks.exec(""), Err(StackError::UnknownOperation));
    assert_eq!(stacks.exec("rrrr"), Err(StackError::UnknownOperation));
    assert_eq!(stacks.unexec("pc"), Err(StackError::UnknownOperation));
    assert_eq!(stacks.a, VecDeque::from(vec![1, 2, 3]));
}

fn state(a: &[i32], b: &[i32]) -> Stacks {
    Stacks { a: VecDeque::from(a.to_vec()), b: VecDeque::from(b.to_vec()) }
}

#[test]
fn operation_effects() {
    let cases: Vec<(&str, Vec<i32>, Vec<i32>)> = vec![
        ("sa", vec![2, 1, 3], vec![4, 5, 6]),
        ("sb", vec![1, 2, 3], vec![5, 4, 6]),
        ("ss", vec![2, 1, 3], vec![5, 4, 6]),
        ("ra", vec![2, 3, 1], vec![4, 5, 6]),
        ("rb", vec![1, 2, 3], vec![5, 6, 4]),
        ("rr", vec![2, 3, 1], vec![5, 6, 4]),
        ("rra", vec![3, 1, 2], vec![4, 5, 6]),
        ("rrb", vec![1, 2, 3], vec![6, 4, 5]),
        ("rrr", vec![3, 1, 2], vec![6, 4, 5]),
        ("pa", vec![4, 1, 2, 3], vec![5, 6]),
        ("pb", vec![2, 3], vec![1, 4, 5, 6]),
    ];
    for (name, a, b) in cases {
        let mut s = state(&[1, 2, 3], &[4, 5, 6]);
        s.exec(name).unwrap();
        assert_eq!(s.a, VecDeque::from(a), "{}", name);
        assert_eq!(s.b, VecDeque::from(b), "{}", name);
    }
}

#[test]
fn short_stacks_are_left_alone() {
    let mut s = state(&[1], &[]);
    for name in ["sa", "sb", "ss", "ra", "rb", "rra", "rrb", "rr", "rrr", "pa"] {
        s.exec(name).unwrap();
        assert_eq!(s.a, VecDeque::from(vec![1]));
        assert!(s.b.is_empty());
    }
}

#[test]
fn undo_restores_every_operation() {
    let names = ["sa", "sb", "ss", "ra", "rb", "rr", "rra", "rrb", "rrr", "pa", "pb"];
    for name in names {
        let mut s = state(&[1, 2, 3, 7], &[4, 5, 6]);
        s.exec(name).unwrap();
        s.unexec(name).unwrap();
        assert_eq!(s.a, VecDeque::from(vec![1, 2, 3, 7]), "{}", name);
        assert_eq!(s.b, VecDeque::from(vec![4, 5, 6]), "{}", name);
    }
}

#[test]
fn names_round_trip() {
    let ops = [
        Op::Sa, Op::Sb, Op::Ra, Op::Rb, Op::Rra, Op::Rrb, Op::Ss, Op::Rr, Op::Rrr, Op::Pa, Op::Pb,
    ];
    for op in ops {
        assert_eq!(Op::from_name(op.name()), Some(op));
        assert_eq!(op.inverse().inverse(), op);
    }
    assert_eq!(Op::Ra.inverse(), Op::Rra);
    assert_eq!(Op::Pa.inverse(), Op::Pb);
    assert_eq!(Op::Ss.inverse(), Op::Ss);
    assert_eq!(Op::Rrr.name(), "rrr");
    assert_eq!(Op::from_name("ab"), None);
}

#[test]
fn solver_starts_empty_and_appends() {
    let mut solver = Solver::new(0);
    assert!(solver.ops.is_empty());
    assert_eq!(solver.budget, 0);
    let mut stacks = Stacks::new(&vec![9, 3, 7, 1, 5, 8, 2]).unwrap();
    solver.solve(&mut stacks);
    assert!(is_ascending(&stacks.a));
    assert_eq!(stacks.a.len(), 7);
    assert_eq!(solver.names().len(), solver.ops.len());
}

#[test]
fn any_budget_sorts() {
    let mut rng = Lcg(3);
    for size in [8, 15, 30] {
        let mut values: Vec<i32> = (0..size).collect();
        rng.shuffle(&mut values);
        for budget in [0, 1, BACK_TRACK] {
            let mut solver = Solver::new(budget);
            let mut stacks = Stacks::new(&values).unwrap();
            solver.solve(&mut stacks);
            assert!(is_ascending(&stacks.a));
            assert!(stacks.b.is_empty());
            assert_eq!(solver.budget, budget);
        }
    }
}

fn apply_small(s: &[usize], op: Op) -> Vec<usize> {
    let mut v = s.to_vec();
    match op {
        Op::Sa => v.swap(0, 1),
        Op::Ra => v.rotate_left(1),
        Op::Rra => v.rotate_right(1),
        _ => unreachable!(),
    }
    v
}

fn in_rotated_order(s: &[usize]) -> bool {
    let n = s.len();
    (0..n).all(|i| s[(i + 1) % n] == (s[i] + 1) % n)
}

/// The fewest `sa`/`ra`/`rra` that bring the ranks `s` into ascending order up to a rotation.
fn shortest(s: &[usize]) -> usize {
    let mut seen = std::collections::HashSet::new();
    let mut layer = vec![s.to_vec()];
    seen.insert(s.to_vec());
    let mut depth = 0;
    loop {
        if layer.iter().any(|x| in_rotated_order(x)) {
            return depth;
        }
        let mut next = Vec::new();
        for x in &layer {
            for op in [Op::Sa, Op::Ra, Op::Rra] {
                let y = apply_small(x, op);
                if seen.insert(y.clone()) {
                    next.push(y);
                }
            }
        }
        layer = next;
        depth += 1;
    }
}

#[test]
fn table_entries_are_shortest() {
    fn perms(v: Vec<usize>) -> Vec<Vec<usize>> {
        if v.len() <= 1 {
            return vec![v];
        }
        let mut out = Vec::new();
        for i in 0..v.len() {
            let mut rest = v.clone();
            let x = rest.remove(i);
            for mut p in perms(rest) {
                p.insert(0, x);
                out.push(p);
            }
        }
        out
    }
    for n in 2..=5 {
        for ranks in perms((0..n).collect()) {
            let a: VecDeque<i32> = ranks.iter().map(|r| *r as i32 * 7 - 11).collect();
            let ops = small_case_ops(&a);
            let mut s = ranks.clone();
            for op in &ops {
                s = apply_small(&s, *op);
            }
            assert!(in_rotated_order(&s), "{:?}", ranks);
            assert_eq!(ops.len(), shortest(&ranks), "{:?}", ranks);
        }
    }
    // The entry for pattern 0 4 2 1 3.
    assert_eq!(
        small_case_ops(&VecDeque::from(vec![1, 5, 3, 2, 4])),
        vec![Op::Sa, Op::Ra, Op::Ra, Op::Sa]
    );
}

#[test]
fn solution_shape_matches_the_phases() {
    let mut rng = Lcg(11);
    for size in [6usize, 9, 17, 40, 90] {
        let mut values: Vec<i32> = (0..size as i32).map(|x| x * 5 - 40).collect();
        rng.shuffle(&mut values);
        let (_, names) = solve_values(&values);
        let pb = names.iter().filter(|o| **o == "pb").count();
        let pa = names.iter().filter(|o| **o == "pa").count();
        assert_eq!(pb, size - 5);
        assert_eq!(pa, size - 5);
        assert!(names.iter().all(|o| *o != "sb" && *o != "ss"));
        let last_pb = names.iter().rposition(|o| *o == "pb").unwrap();
        let first_sa_or_pa = names.iter().position(|o| *o == "sa" || *o == "pa").unwrap();
        assert!(last_pb < first_sa_or_pa);
    }
}
