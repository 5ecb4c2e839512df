use crate::cost::{dst_of, is_place, key, src_of, Direction};
use crate::machine::{rot_up, Pair};
use crate::rotation::{lemma_rotl_up, lemma_rotl_zero, moved, rotl};
use vstd::arithmetic::div_mod::lemma_small_mod;
use vstd::multiset::Multiset;
use vstd::prelude::*;

verus! {

/// `s` is two runs ascending in key, split at `m`, with every key of the first run
/// above every key of the second: a rotation of a strictly ascending sequence.
pub open spec fn split_sorted(s: Seq<i32>, m: int, dir: Direction) -> bool {
    &&& 0 <= m <= s.len()
    &&& forall|p: int, q: int|
        0 <= p < q < s.len() && (q < m || m <= p) ==> key(#[trigger] s[p], dir) < key(
            #[trigger] s[q],
            dir,
        )
    &&& forall|p: int, q: int|
        0 <= p < m <= q < s.len() ==> key(#[trigger] s[p], dir) > key(#[trigger] s[q], dir)
}

/// `s` is strictly ascending in key up to a rotation.
pub open spec fn cyc_sorted(s: Seq<i32>, dir: Direction) -> bool {
    exists|m: int| split_sorted(s, m, dir)
}

/// Strictly ascending in value, top first.
pub open spec fn ascending(s: Seq<i32>) -> bool {
    forall|p: int, q: int| 0 <= p < q < s.len() ==> s[p] < s[q]
}

/// All values on the two stacks, with their multiplicities.
pub open spec fn contents(st: Pair) -> Multiset<i32> {
    st.0.to_multiset().add(st.1.to_multiset())
}

/// No value occurs twice.
pub open spec fn distinct(ms: Multiset<i32>) -> bool {
    forall|v: i32| #[trigger] ms.count(v) <= 1
}

/// What holds throughout a phase in direction `dir`: the destination is in
/// rotated order and no value repeats.
pub open spec fn phase_ready(st: Pair, dir: Direction) -> bool {
    cyc_sorted(dst_of(st, dir), dir) && distinct(contents(st))
}

/// Without a repeated value on the two stacks, neither stack repeats a value.
pub proof fn lemma_parts_distinct(st: Pair)
    requires
        distinct(contents(st)),
    ensures
        st.0.no_duplicates(),
        st.1.no_duplicates(),
{
    broadcast use vstd::multiset::group_multiset_axioms;

    assert forall|x: i32| st.0.to_multiset().contains(x) implies st.0.to_multiset().count(x)
        == 1 by {
        assert(contents(st).count(x) <= 1);
    }
    assert forall|x: i32| st.1.to_multiset().contains(x) implies st.1.to_multiset().count(x)
        == 1 by {
        assert(contents(st).count(x) <= 1);
    }
    st.0.lemma_multiset_has_no_duplicates_conv();
    st.1.lemma_multiset_has_no_duplicates_conv();
}

/// Turning up keeps the rotated order.
pub proof fn lemma_rot_up_sorted(s: Seq<i32>, dir: Direction)
    requires
        cyc_sorted(s, dir),
    ensures
        cyc_sorted(rot_up(s), dir),
{
    if s.len() > 0 {
        let n = s.len() as int;
        let m = choose|m: int| split_sorted(s, m, dir);
        let r = rot_up(s);
        assert forall|t: int| 0 <= t < n - 1 implies r[t] == s[t + 1] by {}
        assert(r[n - 1] == s[0]);
        if m == 0 || m == n {
            assert(split_sorted(s, 0, dir));
            assert(split_sorted(r, n - 1, dir));
        } else {
            assert(split_sorted(r, m - 1, dir));
        }
    }
}

/// Turning up keeps the values.
pub proof fn lemma_rot_up_contents(s: Seq<i32>)
    ensures
        rot_up(s).to_multiset() == s.to_multiset(),
{
    broadcast use vstd::seq_lib::group_to_multiset_ensures;

    if s.len() > 0 {
        assert(s =~= seq![s[0]] + s.skip(1));
        vstd::seq_lib::lemma_multiset_commutative(seq![s[0]], s.skip(1));
        vstd::seq_lib::lemma_multiset_commutative(s.skip(1), seq![s[0]]);
        assert(s.skip(1).push(s[0]) =~= s.skip(1) + seq![s[0]]);
    }
}

/// Turning forward by `k` keeps the rotated order and the values.
pub proof fn lemma_rotl_keeps(s: Seq<i32>, k: nat, dir: Direction)
    ensures
        rotl(s, k as int).to_multiset() == s.to_multiset(),
        cyc_sorted(s, dir) ==> cyc_sorted(rotl(s, k as int), dir),
    decreases k,
{
    if k == 0 {
        lemma_rotl_zero(s);
    } else {
        lemma_rotl_keeps(s, (k - 1) as nat, dir);
        lemma_rotl_up(s, k - 1);
        lemma_rot_up_contents(rotl(s, k - 1));
        if cyc_sorted(s, dir) {
            lemma_rot_up_sorted(rotl(s, k - 1), dir);
        }
    }
}

/// Putting `x` in front of `c`, whose first element is where `x` belongs, keeps
/// the rotated order.
pub proof fn lemma_insert_front(c: Seq<i32>, x: i32, dir: Direction)
    requires
        cyc_sorted(c, dir),
        !c.contains(x),
        c.len() > 0 ==> is_place(c, x, dir, 0),
    ensures
        cyc_sorted(seq![x] + c, dir),
{
    let n = c.len() as int;
    let e = seq![x] + c;
    assert forall|t: int| 0 <= t < n implies e[t + 1] == c[t] by {}
    assert forall|t: int| 0 <= t < n implies key(c[t], dir) != key(x, dir) by {
        if key(c[t], dir) == key(x, dir) {
            assert(c[t] == x);
        }
    }
    if n == 0 {
        assert(split_sorted(e, 0, dir));
    } else {
        let m = choose|m: int| split_sorted(c, m, dir);
        if exists|k: int| 0 <= k < n && key(#[trigger] c[k], dir) > key(x, dir) {
            if m == 0 || m == n {
                assert(split_sorted(c, 0, dir));
                assert(split_sorted(e, 0, dir));
            } else {
                assert forall|t: int| m <= t < n implies key(c[t], dir) < key(x, dir) by {
                    assert(key(c[0], dir) > key(c[t], dir));
                }
                assert(split_sorted(e, m + 1, dir));
            }
        } else {
            if 0 < m < n {
                assert(key(c[0], dir) > key(c[m], dir));
            }
            assert(split_sorted(c, 0, dir));
            assert(split_sorted(e, 1, dir));
        }
    }
}

/// One move keeps the values on the stacks, and the phase's order where there was one.
pub proof fn lemma_move_keeps(st: Pair, dir: Direction, i: int, j: int)
    requires
        distinct(contents(st)),
        0 <= i < src_of(st, dir).len(),
        is_place(dst_of(st, dir), src_of(st, dir)[i], dir, j),
    ensures
        phase_ready(st, dir) ==> phase_ready(moved(st, dir, i, j), dir),
        distinct(contents(moved(st, dir, i, j))),
        contents(moved(st, dir, i, j)) == contents(st),
        src_of(moved(st, dir, i, j), dir).len() == src_of(st, dir).len() - 1,
{
    broadcast use vstd::seq_lib::group_to_multiset_ensures;

    let s = src_of(st, dir);
    let d = dst_of(st, dir);
    let x = s[i];
    let rs = rotl(s, i);
    let rd = rotl(d, j);
    lemma_rotl_keeps(s, i as nat, dir);
    lemma_rotl_keeps(d, j as nat, dir);
    lemma_small_mod(i as nat, s.len());
    assert(rs[0] == x);
    assert(s.contains(x));
    assert(s.to_multiset().count(x) >= 1);
    assert(contents(st).count(x) <= 1);
    assert(d.to_multiset().count(x) == 0);
    assert(!rd.contains(x));
    if rd.len() > 0 {
        lemma_small_mod(j as nat, d.len());
        assert(rd[0] == d[j]);
        assert forall|k: int| 0 <= k < rd.len() implies d.contains(#[trigger] rd[k]) by {
            assert(rd.contains(rd[k]));
        }
        assert forall|k: int| 0 <= k < d.len() implies rd.contains(#[trigger] d[k]) by {
            assert(d.contains(d[k]));
            assert(d.to_multiset().count(d[k]) > 0);
            assert(rd.to_multiset().count(d[k]) > 0);
        }
        if exists|k: int| 0 <= k < d.len() && key(#[trigger] d[k], dir) > key(x, dir) {
            let k0 = choose|k: int| 0 <= k < d.len() && key(#[trigger] d[k], dir) > key(x, dir);
            assert(rd.contains(d[k0]));
        }
        if exists|k: int| 0 <= k < rd.len() && key(#[trigger] rd[k], dir) > key(x, dir) {
            let k0 = choose|k: int| 0 <= k < rd.len() && key(#[trigger] rd[k], dir) > key(x, dir);
            assert(d.contains(rd[k0]));
        }
        assert(is_place(rd, x, dir, 0));
    }
    if cyc_sorted(d, dir) {
        lemma_insert_front(rd, x, dir);
    }
    assert(rs =~= seq![x] + rs.skip(1));
    vstd::seq_lib::lemma_multiset_commutative(seq![x], rs.skip(1));
    vstd::seq_lib::lemma_multiset_commutative(seq![x], rd);
    let out = moved(st, dir, i, j);
    assert(contents(out) =~= contents(st));
}

} // verus!
