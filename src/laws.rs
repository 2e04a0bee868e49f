use vstd::prelude::*;
use crate::collatz::{
    is_canonical_cycle, is_cycle, is_first_min, iterate, lemma_iterate_add, rotate, step_value,
    values,
};
use crate::sweep::{classifies, ints, is_sweep, Sweep};

verus! {

/// Where each element of a rotation comes from.
pub proof fn lemma_rotate_index<T>(s: Seq<T>, k: int)
    requires
        0 <= k < s.len(),
    ensures
        rotate(s, k).len() == s.len(),
        forall|j: int|
            0 <= j < s.len() ==> #[trigger] rotate(s, k)[j] == s[if j + k < s.len() {
                j + k
            } else {
                j + k - s.len()
            }],
{
    let n = s.len() as int;
    assert forall|j: int| 0 <= j < n implies #[trigger] rotate(s, k)[j] == s[if j + k < n {
        j + k
    } else {
        j + k - n
    }] by {
        if j + k < n {
            assert(rotate(s, k)[j] == s.subrange(k, n)[j]);
        } else {
            assert(rotate(s, k)[j] == s.subrange(0, k)[j - (n - k)]);
        }
    }
}

/// Canonical form does not depend on the rotation it starts from: for a
/// sequence of distinct values, the rotation of `s` that starts at its least
/// element equals the one of any rotation of `s`, and its first element is
/// the least.
pub proof fn lemma_canonical_rotation_invariant(s: Seq<int>, j: int, k1: int, k2: int)
    requires
        forall|x: int, y: int| 0 <= x < s.len() && 0 <= y < s.len() && x != y ==> s[x] != s[y],
        0 <= j < s.len(),
        is_first_min(s, k1),
        is_first_min(rotate(s, j), k2),
    ensures
        rotate(s, k1) == rotate(rotate(s, j), k2),
        forall|i: int| 0 <= i < s.len() ==> rotate(s, k1)[0] <= #[trigger] rotate(s, k1)[i],
{
    let n = s.len() as int;
    let r = rotate(s, j);
    lemma_rotate_index(s, j);
    lemma_rotate_index(s, k1);
    lemma_rotate_index(r, k2);
    let t = if k2 + j < n { k2 + j } else { k2 + j - n };
    assert(r[k2] == s[t]);
    assert forall|y: int| 0 <= y < n implies s[t] <= #[trigger] s[y] by {
        let z = if y - j >= 0 { y - j } else { y - j + n };
        assert(r[z] == s[y]);
    }
    if t != k1 {
        assert(s[t] <= s[k1]);
        assert(s[k1] <= s[t]);
    }
    assert forall|i: int| 0 <= i < n implies #[trigger] rotate(s, k1)[i] == rotate(r, k2)[i] by {
        let u = if i + k2 < n { i + k2 } else { i + k2 - n };
        assert(rotate(r, k2)[i] == r[u]);
        assert(r[u] == s[if u + j < n { u + j } else { u + j - n }]);
    }
    assert(rotate(s, k1) =~= rotate(r, k2));
    assert forall|i: int| 0 <= i < n implies rotate(s, k1)[0] <= #[trigger] rotate(s, k1)[i] by {
        assert(rotate(s, k1)[i] == s[if i + k1 < n { i + k1 } else { i + k1 - n }]);
    }
}

/// Along a cycle, the map walks the cycle's elements in order.
pub proof fn lemma_iterate_on_cycle(c: Seq<int>, a: int, p: int, m: int, i: int, t: nat)
    requires
        is_cycle(c, a, p, m),
        0 <= i < c.len(),
    ensures
        iterate(c[i], a, p, m, t) == c[(i + t) % (c.len() as int)],
    decreases t,
{
    let n = c.len() as int;
    if t > 0 {
        lemma_iterate_on_cycle(c, a, p, m, i, (t - 1) as nat);
        let q = (i + t - 1) % n;
        assert(0 <= q < n);
        if q < n - 1 {
            assert(c[q + 1] == step_value(c[q], a, p, m));
            assert((i + t) % n == q + 1) by {
                vstd::arithmetic::div_mod::lemma_add_mod_noop(i + t - 1, 1, n);
                vstd::arithmetic::div_mod::lemma_small_mod(1, n as nat);
                vstd::arithmetic::div_mod::lemma_small_mod((q + 1) as nat, n as nat);
            }
        } else {
            assert((i + t) % n == 0) by {
                vstd::arithmetic::div_mod::lemma_add_mod_noop(i + t - 1, 1, n);
                if n > 1 {
                    vstd::arithmetic::div_mod::lemma_small_mod(1, n as nat);
                }
                vstd::arithmetic::div_mod::lemma_mod_self_0(n);
            }
        }
    } else {
        vstd::arithmetic::div_mod::lemma_small_mod(i as nat, n as nat);
    }
}

/// A starting value reaches one cycle only: two keys that both classify `x`
/// are equal.
pub proof fn lemma_classification_unique(x: int, k1: int, k2: int, a: int, p: int, m: int)
    requires
        classifies(x, k1, a, p, m),
        classifies(x, k2, a, p, m),
    ensures
        k1 == k2,
{
    let c1 = choose|c: Seq<int>| #[trigger] is_canonical_cycle(c, a, p, m) && c[0] == k1;
    let c2 = choose|c: Seq<int>| #[trigger] is_canonical_cycle(c, a, p, m) && c[0] == k2;
    let j1 = choose|j: nat| #[trigger] iterate(x, a, p, m, j) == k1;
    let j2 = choose|j: nat| #[trigger] iterate(x, a, p, m, j) == k2;
    let l1 = c1.len() as int;
    let l2 = c2.len() as int;
    lemma_iterate_add(x, a, p, m, j1, j2);
    lemma_iterate_add(x, a, p, m, j2, j1);
    assert(j1 + j2 == j2 + j1);
    lemma_iterate_on_cycle(c1, a, p, m, 0, j2);
    lemma_iterate_on_cycle(c2, a, p, m, 0, j1);
    let i1 = (0 + j2 as int) % l1;
    let i2 = (0 + j1 as int) % l2;
    let v = c1[i1];
    assert(v == c2[i2]);
    // k2 lies on c1
    let d2 = (l2 - i2) as nat;
    lemma_iterate_on_cycle(c2, a, p, m, i2, d2);
    lemma_iterate_on_cycle(c1, a, p, m, i1, d2);
    vstd::arithmetic::div_mod::lemma_mod_self_0(l2);
    assert(c2[(i2 + d2 as int) % l2] == k2);
    let y1 = (i1 + d2 as int) % l1;
    assert(k2 == c1[y1]);
    assert(k1 <= c1[y1]);
    // k1 lies on c2
    let d1 = (l1 - i1) as nat;
    lemma_iterate_on_cycle(c1, a, p, m, i1, d1);
    lemma_iterate_on_cycle(c2, a, p, m, i2, d1);
    vstd::arithmetic::div_mod::lemma_mod_self_0(l1);
    assert(c1[(i1 + d1 as int) % l1] == k1);
    let y2 = (i2 + d1 as int) % l2;
    assert(k1 == c2[y2]);
    assert(k2 <= c2[y2]);
}

/// A canonical cycle is fixed by its least element.
pub proof fn lemma_canonical_cycle_unique(c1: Seq<int>, c2: Seq<int>, a: int, p: int, m: int)
    requires
        is_canonical_cycle(c1, a, p, m),
        is_canonical_cycle(c2, a, p, m),
        c1[0] == c2[0],
    ensures
        c1 == c2,
{
    let l1 = c1.len() as int;
    let l2 = c2.len() as int;
    assert forall|t: int| 0 <= t < l1 && t < l2 implies c1[t] == c2[t] by {
        lemma_iterate_on_cycle(c1, a, p, m, 0, t as nat);
        lemma_iterate_on_cycle(c2, a, p, m, 0, t as nat);
        vstd::arithmetic::div_mod::lemma_small_mod(t as nat, l1 as nat);
        vstd::arithmetic::div_mod::lemma_small_mod(t as nat, l2 as nat);
    }
    if l1 < l2 {
        lemma_iterate_on_cycle(c1, a, p, m, 0, l1 as nat);
        lemma_iterate_on_cycle(c2, a, p, m, 0, l1 as nat);
        vstd::arithmetic::div_mod::lemma_mod_self_0(l1);
        vstd::arithmetic::div_mod::lemma_small_mod(l1 as nat, l2 as nat);
        assert(c2[l1] == c2[0]);
    } else if l2 < l1 {
        lemma_iterate_on_cycle(c1, a, p, m, 0, l2 as nat);
        lemma_iterate_on_cycle(c2, a, p, m, 0, l2 as nat);
        vstd::arithmetic::div_mod::lemma_mod_self_0(l2);
        vstd::arithmetic::div_mod::lemma_small_mod(l2 as nat, l1 as nat);
        assert(c1[l2] == c1[0]);
    }
    assert(c1 =~= c2);
}

/// Two strictly increasing sequences with the same elements are equal.
pub proof fn lemma_sorted_unique(s1: Seq<int>, s2: Seq<int>)
    requires
        forall|i: int, j: int| 0 <= i < j < s1.len() ==> #[trigger] s1[i] < #[trigger] s1[j],
        forall|i: int, j: int| 0 <= i < j < s2.len() ==> #[trigger] s2[i] < #[trigger] s2[j],
        forall|v: int| #![trigger s1.contains(v)] #![trigger s2.contains(v)] s1.contains(v) <==> s2.contains(v),
    ensures
        s1 == s2,
    decreases s1.len(),
{
    if s1.len() == 0 {
        if s2.len() > 0 {
            assert(s2.contains(s2[0]));
        }
        assert(s1 =~= s2);
    } else {
        assert(s1.contains(s1[0]));
        assert(s2.len() > 0);
        assert(s2.contains(s2[0]));
        let i2 = choose|i: int| 0 <= i < s2.len() && s2[i] == s1[0];
        let i1 = choose|i: int| 0 <= i < s1.len() && s1[i] == s2[0];
        if i1 > 0 {
            assert(s1[0] < s1[i1]);
        }
        if i2 > 0 {
            assert(s2[0] < s2[i2]);
        }
        assert(s1[0] == s2[0]);
        let t1 = s1.drop_first();
        let t2 = s2.drop_first();
        assert forall|v: int| #![trigger t1.contains(v)] #![trigger t2.contains(v)] t1.contains(v) <==> t2.contains(v) by {
            if t1.contains(v) {
                let i = choose|i: int| 0 <= i < t1.len() && t1[i] == v;
                assert(s1[i + 1] == v);
                assert(s1.contains(v));
                let j = choose|j: int| 0 <= j < s2.len() && s2[j] == v;
                assert(s1[0] < s1[i + 1]);
                assert(j != 0);
                assert(t2[j - 1] == v);
            }
            if t2.contains(v) {
                let i = choose|i: int| 0 <= i < t2.len() && t2[i] == v;
                assert(s2[i + 1] == v);
                assert(s2.contains(v));
                let j = choose|j: int| 0 <= j < s1.len() && s1[j] == v;
                assert(s2[0] < s2[i + 1]);
                assert(j != 0);
                assert(t1[j - 1] == v);
            }
        }
        lemma_sorted_unique(t1, t2);
        assert(s1 =~= seq![s1[0]] + t1);
        assert(s2 =~= seq![s2[0]] + t2);
    }
}

/// A sweep's outcome depends on its inputs alone: any two complete sweeps
/// of the same starting values, multiplier and modulus agree on the starting
/// values, on the key of every starting value, and on the stored cycles in
/// key order, whatever order the work was done in.
pub proof fn lemma_sweep_deterministic(s1: Sweep, s2: Sweep, n: int, a: int, p: int, m: int)
    requires
        is_sweep(s1, n, a, p, m),
        is_sweep(s2, n, a, p, m),
    ensures
        s1.starts@ == s2.starts@,
        values(s1.cycle_mins@) == values(s2.cycle_mins@),
        s1.registry.key_values() == s2.registry.key_values(),
        s1.registry.cycle_values() == s2.registry.cycle_values(),
{
    assert(ints(s1.starts@).len() == s1.starts@.len());
    assert(ints(s2.starts@).len() == s2.starts@.len());
    assert forall|i: int| 0 <= i < s1.starts@.len() implies s1.starts@[i] == s2.starts@[i] by {
        assert(ints(s1.starts@)[i] == ints(s2.starts@)[i]);
    }
    assert(s1.starts@ =~= s2.starts@);
    assert forall|i: int| 0 <= i < s1.cycle_mins@.len() implies values(s1.cycle_mins@)[i] == values(
        s2.cycle_mins@,
    )[i] by {
        lemma_classification_unique(
            s1.starts@[i] as int,
            s1.cycle_mins@[i].value(),
            s2.cycle_mins@[i].value(),
            a,
            p,
            m,
        );
    }
    assert(values(s1.cycle_mins@) =~= values(s2.cycle_mins@));
    let k1 = s1.registry.key_values();
    let k2 = s2.registry.key_values();
    assert forall|v: int| #![trigger k1.contains(v)] #![trigger k2.contains(v)] k1.contains(v) <==> k2.contains(v) by {
        assert(k1.contains(v) <==> values(s1.cycle_mins@).contains(v));
        assert(k2.contains(v) <==> values(s2.cycle_mins@).contains(v));
    }
    assert forall|i: int, j: int| 0 <= i < j < k1.len() implies #[trigger] k1[i] < #[trigger] k1[j] by {
        assert(s1.registry.keys@[i].value() < s1.registry.keys@[j].value());
    }
    assert forall|i: int, j: int| 0 <= i < j < k2.len() implies #[trigger] k2[i] < #[trigger] k2[j] by {
        assert(s2.registry.keys@[i].value() < s2.registry.keys@[j].value());
    }
    lemma_sorted_unique(k1, k2);
    let cv1 = s1.registry.cycle_values();
    let cv2 = s2.registry.cycle_values();
    assert forall|i: int| 0 <= i < cv1.len() implies cv1[i] == cv2[i] by {
        assert(k1[i] == k2[i]);
        assert(s1.registry.cycles@[i]@[0] == s1.registry.keys@[i]);
        assert(s2.registry.cycles@[i]@[0] == s2.registry.keys@[i]);
        assert(is_canonical_cycle(values(s1.registry.cycles@[i]@), a, p, m));
        assert(is_canonical_cycle(values(s2.registry.cycles@[i]@), a, p, m));
        lemma_canonical_cycle_unique(
            values(s1.registry.cycles@[i]@),
            values(s2.registry.cycles@[i]@),
            a,
            p,
            m,
        );
    }
    assert(cv1 =~= cv2);
}

} // verus!
