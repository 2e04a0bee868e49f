use vstd::prelude::*;
use crate::magnitude::{lemma_value_injective, round_up, Unsigned};

verus! {

/// Removes every factor `p` from `v`.
pub open spec fn strip(v: int, p: int) -> int
    decreases v,
    via strip_decreases
{
    if v > 0 && p >= 2 && v % p == 0 {
        strip(v / p, p)
    } else {
        v
    }
}

#[via_fn]
proof fn strip_decreases(v: int, p: int) {
    if v > 0 && p >= 2 && v % p == 0 {
        assert(v / p < v) by (nonlinear_arith)
            requires v > 0, p >= 2;
    }
}

/// One transition of the map: multiply by `a`, round up to a multiple of `m`
/// (the modulus `p^e`), then strip every factor `p`.
pub open spec fn step_value(v: int, a: int, p: int, m: int) -> int {
    strip(round_up(v * a, m), p)
}

/// The intermediate value of a transition exceeds the widest representation.
pub open spec fn overflows(v: int, a: int, m: int) -> bool {
    round_up(v * a, m) > u128::MAX
}

/// The value after `k` transitions from `v`.
pub open spec fn iterate(v: int, a: int, p: int, m: int, k: nat) -> int
    decreases k,
{
    if k == 0 {
        v
    } else {
        step_value(iterate(v, a, p, m, (k - 1) as nat), a, p, m)
    }
}

/// The values of a sequence of magnitudes.
pub open spec fn values(s: Seq<Unsigned>) -> Seq<int> {
    s.map_values(|u: Unsigned| u.value())
}

pub open spec fn all_wf(s: Seq<Unsigned>) -> bool {
    forall|i: int| 0 <= i < s.len() ==> #[trigger] s[i].wf()
}

/// `c` is a closed orbit of the map with pairwise distinct elements.
pub open spec fn is_cycle(c: Seq<int>, a: int, p: int, m: int) -> bool {
    &&& c.len() > 0
    &&& forall|i: int| 0 <= i < c.len() - 1 ==> c[i + 1] == step_value(#[trigger] c[i], a, p, m)
    &&& step_value(c[c.len() - 1], a, p, m) == c[0]
    &&& forall|i: int, j: int| 0 <= i < c.len() && 0 <= j < c.len() && i != j ==> c[i] != c[j]
}

/// The sequence `s` rotated to start at index `k`.
pub open spec fn rotate<T>(s: Seq<T>, k: int) -> Seq<T> {
    s.subrange(k, s.len() as int) + s.subrange(0, k)
}

/// `k` is the first index of a least element of `s`.
pub open spec fn is_first_min(s: Seq<int>, k: int) -> bool {
    &&& 0 <= k < s.len()
    &&& forall|j: int| 0 <= j < s.len() ==> s[k] <= #[trigger] s[j]
    &&& forall|j: int| 0 <= j < k ==> s[k] < #[trigger] s[j]
}

/// `c` is a cycle in canonical form: its least element comes first.
pub open spec fn is_canonical_cycle(c: Seq<int>, a: int, p: int, m: int) -> bool {
    &&& is_cycle(c, a, p, m)
    &&& is_first_min(c, 0)
}

/// Errors of the cycle search.
#[derive(Clone, Copy, Debug, PartialEq, Eq, Structural)]
pub enum CycleError {
    /// An intermediate value exceeded the widest representation.
    Overflow,
    /// The two cursors did not meet within the allowed number of steps.
    StepLimit,
}

/// One transition of the map on a magnitude; `None` where an intermediate
/// value exceeds the widest representation.
pub fn collatz_step(n: &Unsigned, a: u64, p: u64, m: u64) -> (r: Option<Unsigned>)
    requires
        n.wf(),
        p >= 2,
        m > 0,
    ensures
        r.is_some() <==> !overflows(n.value(), a as int, m as int),
        r.is_some() ==> r.unwrap().wf() && r.unwrap().value() == step_value(
            n.value(),
            a as int,
            p as int,
            m as int,
        ),
{
    let t = match n.multiply_by_small(a) {
        Some(t) => t,
        None => {
            assert(n.value() * a >= 0) by (nonlinear_arith)
                requires n.value() >= 0, a >= 0;
            return None;
        },
    };
    let r = match t.round_up_to_multiple(m) {
        Some(r) => r,
        None => return None,
    };
    assert(n.value() * a >= 0) by (nonlinear_arith)
        requires n.value() >= 0, a >= 0;
    let mut cur = r;
    while cur.to_u128() > 0 && cur.is_divisible_by(p)
        invariant
            cur.wf(),
            p >= 2,
            cur.value() >= 0,
            strip(cur.value(), p as int) == strip(r.value(), p as int),
        decreases cur.value(),
    {
        let ghost v = cur.value();
        cur = cur.divide_by_small(p);
        assert(v / (p as int) < v) by (nonlinear_arith)
            requires v > 0, p >= 2;
    }
    Some(cur)
}

/// Running `j + k` transitions is running `j`, then `k`.
pub proof fn lemma_iterate_add(v: int, a: int, p: int, m: int, j: nat, k: nat)
    ensures
        iterate(v, a, p, m, j + k) == iterate(iterate(v, a, p, m, j), a, p, m, k),
    decreases k,
{
    if k > 0 {
        lemma_iterate_add(v, a, p, m, j, (k - 1) as nat);
        assert((j + k - 1) as nat == j + (k - 1) as nat);
    }
}

/// Before the first return to `x`, the orbit of `x` visits no value twice.
proof fn lemma_first_return_distinct(x: int, a: int, p: int, m: int, len: nat, j1: nat, j2: nat)
    requires
        iterate(x, a, p, m, len) == x,
        forall|j: nat| 0 < j < len ==> iterate(x, a, p, m, j) != x,
        j1 < j2 < len,
    ensures
        iterate(x, a, p, m, j1) != iterate(x, a, p, m, j2),
{
    let d = (len - j2) as nat;
    if iterate(x, a, p, m, j1) == iterate(x, a, p, m, j2) {
        lemma_iterate_add(x, a, p, m, j2, d);
        lemma_iterate_add(x, a, p, m, j1, d);
        assert(j2 + d == len);
        let t = (j1 + d) as nat;
        assert(0 < t < len);
        assert(iterate(x, a, p, m, t) == x);
    }
}

/// Rotates `cycle` so that its first least element comes first.
pub fn canonicalize(cycle: &Vec<Unsigned>) -> (r: Vec<Unsigned>)
    requires
        cycle@.len() > 0,
        all_wf(cycle@),
    ensures
        exists|k: int| is_first_min(values(cycle@), k) && r@ == rotate(cycle@, k),
        all_wf(r@),
{
    let n = cycle.len();
    let mut k: usize = 0;
    let mut i: usize = 1;
    while i < n
        invariant
            n == cycle@.len(),
            1 <= i <= n,
            0 <= k < i,
            all_wf(cycle@),
            forall|j: int| 0 <= j < i ==> cycle@[k as int].value() <= #[trigger] cycle@[j].value(),
            forall|j: int| 0 <= j < k ==> cycle@[k as int].value() < #[trigger] cycle@[j].value(),
        decreases n - i,
    {
        if cycle[i].less_than(&cycle[k]) {
            k = i;
        }
        i += 1;
    }
    let mut r: Vec<Unsigned> = Vec::new();
    let mut j: usize = k;
    while j < n
        invariant
            n == cycle@.len(),
            k <= j <= n,
            r@ == cycle@.subrange(k as int, j as int),
        decreases n - j,
    {
        r.push(cycle[j]);
        j += 1;
    }
    let mut j: usize = 0;
    while j < k
        invariant
            n == cycle@.len(),
            k < n,
            0 <= j <= k,
            r@ == cycle@.subrange(k as int, n as int) + cycle@.subrange(0, j as int),
        decreases k - j,
    {
        r.push(cycle[j]);
        j += 1;
    }
    assert(is_first_min(values(cycle@), k as int));
    assert(r@ == rotate(cycle@, k as int));
    r
}


/// Rotating a cycle gives a cycle.
pub proof fn lemma_rotate_cycle(c: Seq<int>, a: int, p: int, m: int, k: int)
    requires
        is_cycle(c, a, p, m),
        0 <= k < c.len(),
    ensures
        is_cycle(rotate(c, k), a, p, m),
        forall|j: int| 0 <= j < c.len() ==> #[trigger] rotate(c, k)[j] == c[if j + k < c.len() { j + k } else { j + k - c.len() }],
{
    let n = c.len() as int;
    let r = rotate(c, k);
    assert(r.len() == n);
    assert forall|j: int| 0 <= j < n implies #[trigger] r[j] == c[if j + k < n { j + k } else { j + k - n }] by {
        if j + k < n {
            assert(r[j] == c.subrange(k, n)[j]);
        } else {
            assert(r[j] == c.subrange(0, k)[j - (n - k)]);
        }
    }
    assert forall|i: int| 0 <= i < r.len() - 1 implies r[i + 1] == step_value(#[trigger] r[i], a, p, m) by {
        assert(r[i] == c[if i + k < n { i + k } else { i + k - n }]);
        assert(r[i + 1] == c[if i + 1 + k < n { i + 1 + k } else { i + 1 + k - n }]);
        if i + k < n - 1 {
            assert(c[i + k + 1] == step_value(c[i + k], a, p, m));
        } else if i + k == n - 1 {
        } else {
            assert(c[i + k - n + 1] == step_value(c[i + k - n], a, p, m));
        }
    }
    assert(r[n - 1] == c[if n - 1 + k < n { n - 1 + k } else { n - 1 + k - n }]);
    assert(r[0] == c[k]);
    if k > 0 {
        assert(c[k] == step_value(c[k - 1], a, p, m));
    }
    assert forall|i: int, j: int| 0 <= i < r.len() && 0 <= j < r.len() && i != j implies r[i] != r[j] by {
        assert(r[i] == c[if i + k < n { i + k } else { i + k - n }]);
        assert(r[j] == c[if j + k < n { j + k } else { j + k - n }]);
    }
}

/// The values of a rotation are the rotation of the values.
proof fn lemma_values_rotate(s: Seq<Unsigned>, k: int)
    requires
        0 <= k <= s.len(),
    ensures
        values(rotate(s, k)) == rotate(values(s), k),
{
    assert(values(rotate(s, k)) =~= rotate(values(s), k));
}

/// Follows the trajectory of `n0` with a slow and a fast cursor until they
/// meet, extracts the cycle through the meeting value, and returns it in
/// canonical form. At most `max_steps` rounds are run.
#[verifier::loop_isolation(false)]
pub fn find_cycle(n0: &Unsigned, a: u64, p: u64, m: u64, max_steps: u64) -> (r: Result<
    Vec<Unsigned>,
    CycleError,
>)
    requires
        n0.wf(),
        p >= 2,
        m > 0,
    ensures
        r matches Ok(c) ==> {
            &&& all_wf(c@)
            &&& is_canonical_cycle(values(c@), a as int, p as int, m as int)
            &&& exists|k: nat| iterate(n0.value(), a as int, p as int, m as int, k) == c@[0].value()
        },
        r == Err::<Vec<Unsigned>, CycleError>(CycleError::Overflow) ==> exists|k: nat|
            overflows(#[trigger] iterate(n0.value(), a as int, p as int, m as int, k), a as int, m as int),
        r == Err::<Vec<Unsigned>, CycleError>(CycleError::StepLimit) ==> forall|j: nat|
            1 <= j <= max_steps ==> #[trigger] iterate(n0.value(), a as int, p as int, m as int, j)
                != iterate(n0.value(), a as int, p as int, m as int, 2 * j),
{
    let ghost x = n0.value();
    let ghost ai = a as int;
    let ghost pi = p as int;
    let ghost mi = m as int;
    let mut slow = *n0;
    let mut fast = *n0;
    let mut i: u64 = 0;
    loop
        invariant
            i <= max_steps,
            slow.wf(),
            fast.wf(),
            p >= 2,
            m > 0,
            slow.value() == iterate(x, ai, pi, mi, i as nat),
            fast.value() == iterate(x, ai, pi, mi, 2 * i as nat),
            forall|j: nat| 1 <= j <= i ==> #[trigger] iterate(x, ai, pi, mi, j) != iterate(x, ai, pi, mi, 2 * j),
        decreases max_steps - i,
    {
        if i >= max_steps {
            return Err(CycleError::StepLimit);
        }
        slow = match collatz_step(&slow, a, p, m) {
            Some(v) => v,
            None => {
                assert(overflows(iterate(x, ai, pi, mi, i as nat), ai, mi));
                return Err(CycleError::Overflow);
            },
        };
        let f1 = match collatz_step(&fast, a, p, m) {
            Some(v) => v,
            None => {
                assert(overflows(iterate(x, ai, pi, mi, 2 * i as nat), ai, mi));
                return Err(CycleError::Overflow);
            },
        };
        assert(f1.value() == iterate(x, ai, pi, mi, (2 * i + 1) as nat));
        fast = match collatz_step(&f1, a, p, m) {
            Some(v) => v,
            None => {
                assert(overflows(iterate(x, ai, pi, mi, (2 * i + 1) as nat), ai, mi));
                return Err(CycleError::Overflow);
            },
        };
        assert(fast.value() == iterate(x, ai, pi, mi, (2 * i + 2) as nat));
        i = i + 1;
        assert(2 * (i as nat) == (2 * (i - 1) + 2) as nat);
        if slow == fast {
            break;
        }
        proof {
            lemma_value_injective(slow, fast);
        }
    }
    let meet = slow;
    let ghost mv = meet.value();
    proof {
        lemma_iterate_add(x, ai, pi, mi, i as nat, i as nat);
        assert((i + i) as nat == 2 * i as nat);
    }
    let mut cycle: Vec<Unsigned> = Vec::new();
    cycle.push(meet);
    let mut cur = match collatz_step(&meet, a, p, m) {
        Some(v) => v,
        None => {
            assert(overflows(iterate(x, ai, pi, mi, i as nat), ai, mi));
            return Err(CycleError::Overflow);
        },
    };
    assert(iterate(mv, ai, pi, mi, 0) == mv);
    assert(cur.value() == iterate(mv, ai, pi, mi, 1));
    assert(iterate(mv, ai, pi, mi, i as nat) == iterate(x, ai, pi, mi, 2 * i as nat));
    while cur != meet
        invariant
            meet.wf(),
            cur.wf(),
            p >= 2,
            m > 0,
            mv == meet.value(),
            mv == iterate(x, ai, pi, mi, i as nat),
            iterate(mv, ai, pi, mi, i as nat) == mv,
            1 <= cycle@.len() <= i,
            all_wf(cycle@),
            forall|j: int| 0 <= j < cycle@.len() ==> #[trigger] cycle@[j].value() == iterate(mv, ai, pi, mi, j as nat),
            cur.value() == iterate(mv, ai, pi, mi, cycle@.len()),
            forall|j: nat| 0 < j < cycle@.len() ==> #[trigger] iterate(mv, ai, pi, mi, j) != mv,
        decreases i - cycle@.len(),
    {
        proof {
            lemma_value_injective(cur, meet);
        }
        let ghost len = cycle@.len();
        cycle.push(cur);
        cur = match collatz_step(&cur, a, p, m) {
            Some(v) => v,
            None => {
                proof {
                    lemma_iterate_add(x, ai, pi, mi, i as nat, len);
                    assert(overflows(iterate(x, ai, pi, mi, (i + len) as nat), ai, mi));
                }
                return Err(CycleError::Overflow);
            },
        };
        assert(cur.value() == step_value(iterate(mv, ai, pi, mi, len), ai, pi, mi));
        assert(cur.value() == iterate(mv, ai, pi, mi, (len + 1) as nat));
    }
    let ghost len = cycle@.len();
    let ghost c = values(cycle@);
    proof {
        assert forall|j: int| 0 <= j < c.len() implies c[j] == iterate(mv, ai, pi, mi, j as nat) by {
            assert(cycle@[j].value() == iterate(mv, ai, pi, mi, j as nat));
        }
        assert forall|j1: int, j2: int| 0 <= j1 < c.len() && 0 <= j2 < c.len() && j1 != j2 implies c[j1] != c[j2] by {
            if j1 < j2 {
                lemma_first_return_distinct(mv, ai, pi, mi, len, j1 as nat, j2 as nat);
            } else {
                lemma_first_return_distinct(mv, ai, pi, mi, len, j2 as nat, j1 as nat);
            }
        }
        assert forall|j: int| 0 <= j < c.len() - 1 implies c[j + 1] == step_value(#[trigger] c[j], ai, pi, mi) by {
            assert(c[j + 1] == iterate(mv, ai, pi, mi, (j + 1) as nat));
        }
        assert(step_value(c[len - 1], ai, pi, mi) == iterate(mv, ai, pi, mi, len));
        assert(is_cycle(c, ai, pi, mi));
    }
    let canon = canonicalize(&cycle);
    proof {
        let k = choose|k: int| is_first_min(values(cycle@), k) && canon@ == rotate(cycle@, k);
        lemma_values_rotate(cycle@, k);
        lemma_rotate_cycle(c, ai, pi, mi, k);
        let rc = values(canon@);
        assert forall|j: int| 0 <= j < rc.len() implies rc[0] <= #[trigger] rc[j] by {
            assert(rc[j] == c[if j + k < c.len() { j + k } else { j + k - c.len() }]);
        }
        assert(is_first_min(rc, 0));
        lemma_iterate_add(x, ai, pi, mi, i as nat, k as nat);
        assert(rc[0] == c[k]);
        assert(canon@[0].value() == iterate(x, ai, pi, mi, (i + k) as nat));
    }
    Ok(canon)
}

} // verus!
