use vstd::prelude::*;

verus! {

/// An unsigned integer held in the narrowest representation that fits it.
#[derive(Clone, Copy, Debug, PartialEq, Eq, Structural, Hash, PartialOrd, Ord)]
pub enum Unsigned {
    U64(u64),
    U128(u128),
}

/// The smallest multiple of `m` that is at least `v`.
pub open spec fn round_up(v: int, m: int) -> int {
    if v % m == 0 {
        v
    } else {
        v + (m - v % m)
    }
}

impl Unsigned {
    /// The numeric value, whatever the representation.
    pub open spec fn value(&self) -> int {
        match self {
            Unsigned::U64(u) => *u as int,
            Unsigned::U128(u) => *u as int,
        }
    }

    /// The representation is the narrowest that holds the value.
    pub open spec fn wf(&self) -> bool {
        match self {
            Unsigned::U64(_) => true,
            Unsigned::U128(u) => *u > u64::MAX,
        }
    }

    pub fn from_u64(u: u64) -> (r: Unsigned)
        ensures
            r.wf(),
            r.value() == u as int,
    {
        Unsigned::U64(u)
    }

    /// The narrowest representation of a `u128`.
    pub fn from_u128(u: u128) -> (r: Unsigned)
        ensures
            r.wf(),
            r.value() == u as int,
    {
        if u <= u64::MAX as u128 {
            Unsigned::U64(u as u64)
        } else {
            Unsigned::U128(u)
        }
    }

    /// The value as a `u128`, which holds every representation.
    pub fn to_u128(&self) -> (r: u128)
        ensures
            r as int == self.value(),
    {
        match self {
            Unsigned::U64(u) => *u as u128,
            Unsigned::U128(u) => *u,
        }
    }

    pub fn is_even(&self) -> (r: bool)
        ensures
            r == (self.value() % 2 == 0),
    {
        self.is_divisible_by(2)
    }

    pub fn is_divisible_by(&self, k: u64) -> (r: bool)
        requires
            k > 0,
        ensures
            r == (self.value() % (k as int) == 0),
    {
        match self {
            Unsigned::U64(u) => *u % k == 0,
            Unsigned::U128(u) => *u % (k as u128) == 0,
        }
    }

    /// Exact product, widened where the narrow representation would overflow;
    /// `None` where the product exceeds the widest representation.
    pub fn multiply_by_small(&self, k: u64) -> (r: Option<Unsigned>)
        requires
            self.wf(),
        ensures
            r.is_some() <==> self.value() * k <= u128::MAX,
            r.is_some() ==> r.unwrap().wf() && r.unwrap().value() == self.value() * k,
    {
        let u = self.to_u128();
        match u.checked_mul(k as u128) {
            Some(v) => Some(Unsigned::from_u128(v)),
            None => None,
        }
    }

    /// The smallest multiple of `m` that is not below the value; `None` where
    /// it exceeds the widest representation.
    pub fn round_up_to_multiple(&self, m: u64) -> (r: Option<Unsigned>)
        requires
            self.wf(),
            m > 0,
        ensures
            r.is_some() <==> round_up(self.value(), m as int) <= u128::MAX,
            r.is_some() ==> r.unwrap().wf() && r.unwrap().value() == round_up(
                self.value(),
                m as int,
            ),
    {
        let u = self.to_u128();
        let rem = u % (m as u128);
        if rem == 0 {
            Some(*self)
        } else {
            match u.checked_add(m as u128 - rem) {
                Some(v) => Some(Unsigned::from_u128(v)),
                None => None,
            }
        }
    }

    /// Exact quotient by a divisor of the value, in the narrowest representation.
    pub fn divide_by_small(&self, k: u64) -> (r: Unsigned)
        requires
            self.wf(),
            k > 0,
            self.value() % (k as int) == 0,
        ensures
            r.wf(),
            r.value() == self.value() / (k as int),
    {
        match self {
            Unsigned::U64(u) => Unsigned::U64(*u / k),
            Unsigned::U128(u) => Unsigned::from_u128(*u / (k as u128)),
        }
    }

    /// Comparison by value, across representations.
    pub fn less_than(&self, other: &Unsigned) -> (r: bool)
        requires
            self.wf(),
            other.wf(),
        ensures
            r == (self.value() < other.value()),
    {
        match (self, other) {
            (Unsigned::U64(x), Unsigned::U64(y)) => *x < *y,
            (Unsigned::U64(_), Unsigned::U128(_)) => true,
            (Unsigned::U128(_), Unsigned::U64(_)) => false,
            (Unsigned::U128(x), Unsigned::U128(y)) => *x < *y,
        }
    }

    /// Equality by value, across representations.
    pub fn equals(&self, other: &Unsigned) -> (r: bool)
        requires
            self.wf(),
            other.wf(),
        ensures
            r == (self.value() == other.value()),
    {
        !self.less_than(other) && !other.less_than(self)
    }
}

/// Two well-formed magnitudes are the same value exactly when they are the
/// same representation.
pub proof fn lemma_value_injective(x: Unsigned, y: Unsigned)
    requires
        x.wf(),
        y.wf(),
    ensures
        (x.value() == y.value()) <==> (x == y),
{
}

} // verus!
