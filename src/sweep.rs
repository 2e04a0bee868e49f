use vstd::prelude::*;
use vstd::arithmetic::power::{lemma_pow_increases, pow};
use crate::collatz::{
    all_wf, find_cycle, is_canonical_cycle, iterate, overflows, values, CycleError,
};
use crate::magnitude::Unsigned;
use crate::registry::{count, count_of, Registry};

verus! {

/// The starting values of a sweep up to `n`: those not divisible by `p`.
pub open spec fn start_values(n: int, p: int) -> Seq<int>
    decreases n,
{
    if n <= 0 {
        Seq::empty()
    } else {
        start_values(n - 1, p) + if n % p != 0 { seq![n] } else { Seq::empty() }
    }
}

/// `k` is the least element of a cycle that the trajectory of `x` reaches.
pub open spec fn classifies(x: int, k: int, a: int, p: int, m: int) -> bool {
    &&& exists|c: Seq<int>| #[trigger] is_canonical_cycle(c, a, p, m) && c[0] == k
    &&& exists|j: nat| #[trigger] iterate(x, a, p, m, j) == k
}

/// Every stored cycle is a canonical cycle of the map.
pub open spec fn holds_cycles_of(reg: Registry, a: int, p: int, m: int) -> bool {
    &&& reg.wf()
    &&& forall|i: int|
        0 <= i < reg.cycles@.len() ==> is_canonical_cycle(
            #[trigger] values(reg.cycles@[i]@),
            a,
            p,
            m,
        )
}

/// What an error of the cycle search on `x` says of its trajectory.
pub open spec fn explains(x: int, err: CycleError, a: int, p: int, m: int, max_steps: int) -> bool {
    match err {
        CycleError::Overflow => exists|k: nat| overflows(#[trigger] iterate(x, a, p, m, k), a, m),
        CycleError::StepLimit => forall|j: nat|
            1 <= j <= max_steps ==> #[trigger] iterate(x, a, p, m, j) != iterate(x, a, p, m, 2 * j),
    }
}

/// `p^e`, or `None` where it exceeds `u64`.
pub fn modulus(p: u64, e: u32) -> (r: Option<u64>)
    requires
        p >= 2,
    ensures
        r.is_some() <==> pow(p as int, e as nat) <= u64::MAX,
        r.is_some() ==> r.unwrap() == pow(p as int, e as nat),
{
    let mut acc: u64 = 1;
    let mut i: u32 = 0;
    proof {
        reveal(pow);
    }
    while i < e
        invariant
            0 <= i <= e,
            p >= 2,
            acc == pow(p as int, i as nat),
        decreases e - i,
    {
        proof {
            reveal(pow);
            assert(pow(p as int, (i + 1) as nat) == p * pow(p as int, i as nat));
        }
        let ghost next = pow(p as int, (i + 1) as nat);
        assert(next == acc * p) by (nonlinear_arith)
            requires next == p * pow(p as int, i as nat), acc == pow(p as int, i as nat);
        match acc.checked_mul(p) {
            Some(v) => acc = v,
            None => {
                proof {
                    lemma_pow_increases(p as nat, (i + 1) as nat, e as nat);
                }
                return None;
            },
        }
        i += 1;
    }
    Some(acc)
}

/// Classifies the starting value `x`: finds the cycle its trajectory reaches,
/// stores it unless its key is known, and appends the key to `cycle_mins`.
pub fn extended_collatz(
    x: u64,
    a: u64,
    p: u64,
    m: u64,
    max_steps: u64,
    cycle_mins: &mut Vec<Unsigned>,
    registry: &mut Registry,
) -> (r: Result<(), CycleError>)
    requires
        holds_cycles_of(*old(registry), a as int, p as int, m as int),
        p >= 2,
        m > 0,
    ensures
        holds_cycles_of(*final(registry), a as int, p as int, m as int),
        r is Ok ==> {
            &&& final(cycle_mins)@.len() == old(cycle_mins)@.len() + 1
            &&& final(cycle_mins)@.drop_last() == old(cycle_mins)@
            &&& final(cycle_mins)@.last().wf()
            &&& classifies(x as int, final(cycle_mins)@.last().value(), a as int, p as int, m as int)
            &&& final(registry).key_values().contains(final(cycle_mins)@.last().value())
            &&& forall|v: int|
                #[trigger] final(registry).key_values().contains(v) <==> (old(
                    registry,
                ).key_values().contains(v) || v == final(cycle_mins)@.last().value())
        },
        r matches Err(err) ==> {
            &&& final(cycle_mins)@ == old(cycle_mins)@
            &&& *final(registry) == *old(registry)
            &&& explains(x as int, err, a as int, p as int, m as int, max_steps as int)
        },
{
    let start = Unsigned::from_u64(x);
    let cycle = match find_cycle(&start, a, p, m, max_steps) {
        Ok(c) => c,
        Err(err) => return Err(err),
    };
    let ghost c = values(cycle@);
    let ghost old_reg = *registry;
    let key = registry.insert_if_absent(cycle);
    proof {
        assert(is_canonical_cycle(c, a as int, p as int, m as int) && c[0] == key.value());
        let ks = old_reg.key_values();
        let nks = registry.key_values();
        if ks.contains(key.value()) {
            assert(nks == ks);
        } else {
            let pos = choose|pos: int|
                {
                    &&& 0 <= pos <= old_reg.keys@.len()
                    &&& registry.keys@ == old_reg.keys@.insert(pos, key)
                    &&& registry.cycles@ == old_reg.cycles@.insert(pos, cycle)
                };
            assert(nks =~= ks.insert(pos, key.value()));
            assert(nks[pos] == key.value());
            assert forall|v: int| #[trigger] nks.contains(v) <==> (ks.contains(v) || v == key.value()) by {
                if nks.contains(v) {
                    let j = choose|j: int| 0 <= j < nks.len() && nks[j] == v;
                    if j < pos {
                        assert(ks[j] == v);
                    } else if j > pos {
                        assert(ks[j - 1] == v);
                    }
                }
                if ks.contains(v) {
                    let j = choose|j: int| 0 <= j < ks.len() && ks[j] == v;
                    if j < pos {
                        assert(nks[j] == v);
                    } else {
                        assert(nks[j + 1] == v);
                    }
                }
            }
            assert forall|i: int| 0 <= i < registry.cycles@.len() implies is_canonical_cycle(
                #[trigger] values(registry.cycles@[i]@),
                a as int,
                p as int,
                m as int,
            ) by {
                if i > pos {
                    assert(registry.cycles@[i] == old_reg.cycles@[i - 1]);
                } else if i < pos {
                    assert(registry.cycles@[i] == old_reg.cycles@[i]);
                }
            }
        }
    }
    cycle_mins.push(key);
    proof {
        assert(cycle_mins@.drop_last() =~= old(cycle_mins)@);
    }
    Ok(())
}

/// The values of a sequence of `u64`.
pub open spec fn ints(s: Seq<u64>) -> Seq<int> {
    s.map_values(|x: u64| x as int)
}

/// The outcome of a sweep for one multiplier.
pub struct Sweep {
    /// The starting values, increasing.
    pub starts: Vec<u64>,
    /// For each starting value, the key of the cycle that it reaches.
    pub cycle_mins: Vec<Unsigned>,
    /// The distinct cycles found, by key.
    pub registry: Registry,
}

/// Errors of a sweep.
#[derive(Clone, Copy, Debug, PartialEq, Eq, Structural)]
pub enum SweepError {
    /// The modulus `p^e` exceeds `u64`.
    ModulusTooLarge,
    /// The cycle search failed for this starting value.
    Cycle(u64, CycleError),
}

/// `s` is the complete and correct sweep of the starting values up to `n`.
pub open spec fn is_sweep(s: Sweep, n: int, a: int, p: int, m: int) -> bool {
    &&& ints(s.starts@) == start_values(n, p)
    &&& s.cycle_mins@.len() == s.starts@.len()
    &&& all_wf(s.cycle_mins@)
    &&& forall|i: int|
        0 <= i < s.starts@.len() ==> classifies(
            s.starts@[i] as int,
            #[trigger] s.cycle_mins@[i].value(),
            a,
            p,
            m,
        )
    &&& holds_cycles_of(s.registry, a, p, m)
    &&& forall|v: int| #[trigger]
        s.registry.key_values().contains(v) <==> values(s.cycle_mins@).contains(v)
}

/// Classifies every starting value from 1 to `n` not divisible by `p` under
/// the multiplier `a` and the modulus `p^e`, collecting the distinct cycles.
pub fn process_collatz(a: u64, n: u64, p: u64, e: u32, max_steps: u64) -> (r: Result<
    Sweep,
    SweepError,
>)
    requires
        p >= 2,
    ensures
        r matches Ok(s) ==> pow(p as int, e as nat) <= u64::MAX && is_sweep(
            s,
            n as int,
            a as int,
            p as int,
            pow(p as int, e as nat),
        ),
        (r == Err::<Sweep, SweepError>(SweepError::ModulusTooLarge)) <==> pow(p as int, e as nat)
            > u64::MAX,
        r matches Err(SweepError::Cycle(x, err)) ==> start_values(n as int, p as int).contains(
            x as int,
        ) && explains(x as int, err, a as int, p as int, pow(p as int, e as nat), max_steps as int),
{
    let m = match modulus(p, e) {
        Some(m) => m,
        None => return Err(SweepError::ModulusTooLarge),
    };
    proof {
        lemma_pow_positive(p as int, e as nat);
    }
    let ghost (ai, pi, mi) = (a as int, p as int, m as int);
    let mut starts: Vec<u64> = Vec::new();
    let mut cycle_mins: Vec<Unsigned> = Vec::new();
    let mut registry = Registry::new();
    let mut x: u64 = 0;
    while x < n
        invariant
            0 <= x <= n,
            p >= 2,
            m > 0,
            ai == a as int,
            pi == p as int,
            mi == m as int,
            mi == pow(p as int, e as nat),
            ints(starts@) == start_values(x as int, pi),
            cycle_mins@.len() == starts@.len(),
            all_wf(cycle_mins@),
            forall|i: int|
                0 <= i < starts@.len() ==> classifies(
                    starts@[i] as int,
                    #[trigger] cycle_mins@[i].value(),
                    ai,
                    pi,
                    mi,
                ),
            holds_cycles_of(registry, ai, pi, mi),
            forall|v: int| #[trigger]
                registry.key_values().contains(v) <==> values(cycle_mins@).contains(v),
        decreases n - x,
    {
        x += 1;
        if x % p != 0 {
            let ghost old_mins = cycle_mins@;
            let ghost old_reg = registry;
            match extended_collatz(x, a, p, m, max_steps, &mut cycle_mins, &mut registry) {
                Ok(()) => {},
                Err(err) => {
                    proof {
                        assert(start_values(x as int, pi) == start_values(x - 1, pi) + seq![
                            x as int,
                        ]);
                        assert(start_values(x as int, pi).last() == x as int);
                        lemma_start_values_grow(x as int, n as int, pi);
                    }
                    return Err(SweepError::Cycle(x, err));
                },
            }
            starts.push(x);
            proof {
                let k = cycle_mins@.last();
                assert(cycle_mins@ =~= old_mins.push(k));
                assert(ints(starts@) =~= start_values(x as int, pi));
                assert(values(cycle_mins@) =~= values(old_mins).push(k.value()));
                assert forall|v: int| #[trigger]
                    registry.key_values().contains(v) <==> values(cycle_mins@).contains(v) by {
                    if values(cycle_mins@).contains(v) && v != k.value() {
                        let j = choose|j: int| 0 <= j < cycle_mins@.len() && values(cycle_mins@)[j] == v;
                        assert(values(old_mins)[j] == v);
                    }
                    if old_reg.key_values().contains(v) {
                        let j = choose|j: int| 0 <= j < old_mins.len() && values(old_mins)[j] == v;
                        assert(values(cycle_mins@)[j] == v);
                    }
                    assert(values(cycle_mins@)[cycle_mins@.len() - 1] == k.value());
                }
                assert forall|i: int| 0 <= i < starts@.len() implies classifies(
                    starts@[i] as int,
                    #[trigger] cycle_mins@[i].value(),
                    ai,
                    pi,
                    mi,
                ) by {
                    if i < starts@.len() - 1 {
                        assert(cycle_mins@[i] == old_mins[i]);
                    }
                }
            }
        } else {
            proof {
                assert(ints(starts@) =~= start_values(x as int, pi));
            }
        }
    }
    Ok(Sweep { starts, cycle_mins, registry })
}

proof fn lemma_pow_positive(p: int, e: nat)
    requires
        p >= 2,
    ensures
        pow(p, e) > 0,
    decreases e,
{
    reveal(pow);
    if e > 0 {
        lemma_pow_positive(p, (e - 1) as nat);
        assert(p * pow(p, (e - 1) as nat) > 0) by (nonlinear_arith)
            requires p >= 2, pow(p, (e - 1) as nat) > 0;
    }
}

/// The last starting value up to `x` stays a starting value up to any `n >= x`.
proof fn lemma_start_values_grow(x: int, n: int, p: int)
    requires
        1 <= x <= n,
        start_values(x, p).len() > 0,
        start_values(x, p).last() == x,
    ensures
        start_values(n, p).contains(x),
    decreases n - x,
{
    if n == x {
        assert(start_values(x, p)[start_values(x, p).len() - 1] == x);
    } else {
        lemma_start_values_grow(x, n - 1, p);
        let s = start_values(n - 1, p);
        let j = choose|j: int| 0 <= j < s.len() && s[j] == x;
        assert(start_values(n, p)[j] == x);
    }
}

impl Sweep {
    /// The classification table is worth writing only where more than one
    /// distinct cycle was found.
    pub fn has_several_cycles(&self) -> (r: bool)
        ensures
            r == (self.registry.keys@.len() > 1),
    {
        self.registry.len() > 1
    }

    /// For each stored key, in key order, how many starting values reach it.
    pub fn cycle_counts(&self) -> (r: Vec<usize>)
        requires
            self.registry.wf(),
            all_wf(self.cycle_mins@),
        ensures
            r@.len() == self.registry.keys@.len(),
            forall|i: int|
                0 <= i < r@.len() ==> #[trigger] r@[i] == count(
                    values(self.cycle_mins@),
                    self.registry.keys@[i].value(),
                ),
    {
        let keys = self.registry.keys();
        let mut r: Vec<usize> = Vec::new();
        let mut i: usize = 0;
        while i < keys.len()
            invariant
                keys@ == self.registry.keys@,
                self.registry.wf(),
                all_wf(self.cycle_mins@),
                0 <= i <= keys@.len(),
                r@.len() == i,
                forall|j: int|
                    0 <= j < i ==> #[trigger] r@[j] == count(
                        values(self.cycle_mins@),
                        self.registry.keys@[j].value(),
                    ),
            decreases keys@.len() - i,
        {
            let c = count_of(&self.cycle_mins, &keys[i]);
            r.push(c);
            i += 1;
        }
        r
    }
}

} // verus!
