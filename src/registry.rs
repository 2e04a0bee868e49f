use vstd::prelude::*;
use crate::collatz::{all_wf, values};
use crate::magnitude::{lemma_value_injective, Unsigned};

verus! {

/// Stored cycles, one per distinct key, ordered by key.
pub struct Registry {
    pub keys: Vec<Unsigned>,
    pub cycles: Vec<Vec<Unsigned>>,
}

/// How many elements of `s` equal `k`.
pub open spec fn count(s: Seq<int>, k: int) -> nat
    decreases s.len(),
{
    if s.len() == 0 {
        0
    } else {
        count(s.drop_last(), k) + if s.last() == k { 1nat } else { 0nat }
    }
}

impl Registry {
    /// The keys, in increasing order.
    pub open spec fn key_values(&self) -> Seq<int> {
        values(self.keys@)
    }

    /// The stored cycles, in the order of their keys.
    pub open spec fn cycle_values(&self) -> Seq<Seq<int>> {
        self.cycles@.map_values(|c: Vec<Unsigned>| values(c@))
    }

    pub open spec fn wf(&self) -> bool {
        &&& self.keys@.len() == self.cycles@.len()
        &&& all_wf(self.keys@)
        &&& forall|i: int, j: int|
            0 <= i < j < self.keys@.len() ==> #[trigger] self.keys@[i].value() < #[trigger] self.keys@[j].value()
        &&& forall|i: int|
            0 <= i < self.cycles@.len() ==> {
                &&& (#[trigger] self.cycles@[i])@.len() > 0
                &&& self.cycles@[i]@[0] == self.keys@[i]
                &&& all_wf(self.cycles@[i]@)
            }
    }

    pub fn new() -> (r: Registry)
        ensures
            r.wf(),
            r.key_values().len() == 0,
    {
        Registry { keys: Vec::new(), cycles: Vec::new() }
    }

    pub fn len(&self) -> (r: usize)
        ensures
            r == self.keys@.len(),
    {
        self.keys.len()
    }

    pub fn keys(&self) -> (r: &Vec<Unsigned>)
        ensures
            r@ == self.keys@,
    {
        &self.keys
    }

    pub fn cycles(&self) -> (r: &Vec<Vec<Unsigned>>)
        ensures
            r@ == self.cycles@,
    {
        &self.cycles
    }

    /// Stores `cycle` under its first element, unless that key is present; in
    /// either case returns the key. An existing entry is never changed.
    pub fn insert_if_absent(&mut self, cycle: Vec<Unsigned>) -> (r: Unsigned)
        requires
            old(self).wf(),
            cycle@.len() > 0,
            all_wf(cycle@),
        ensures
            final(self).wf(),
            r == cycle@[0],
            final(self).key_values().contains(r.value()),
            old(self).key_values().contains(r.value()) ==> final(self).keys@ == old(self).keys@
                && final(self).cycles@ == old(self).cycles@,
            !old(self).key_values().contains(r.value()) ==> exists|pos: int|
                {
                    &&& 0 <= pos <= old(self).keys@.len()
                    &&& final(self).keys@ == old(self).keys@.insert(pos, r)
                    &&& final(self).cycles@ == old(self).cycles@.insert(pos, cycle)
                },
    {
        let key = cycle[0];
        let n = self.keys.len();
        let mut pos: usize = 0;
        while pos < n && self.keys[pos].less_than(&key)
            invariant
                n == self.keys@.len(),
                self.wf(),
                key.wf(),
                0 <= pos <= n,
                forall|j: int| 0 <= j < pos ==> #[trigger] self.keys@[j].value() < key.value(),
            decreases n - pos,
        {
            pos += 1;
        }
        if pos < n && self.keys[pos] == key {
            assert(self.key_values()[pos as int] == key.value());
            return key;
        }
        proof {
            if pos < n {
                lemma_value_injective(self.keys@[pos as int], key);
            }
            assert forall|j: int| 0 <= j < n implies self.key_values()[j] != key.value() by {
                if j >= pos {
                    if j > pos {
                        assert(self.keys@[pos as int].value() < self.keys@[j].value());
                    }
                }
            }
            assert(!self.key_values().contains(key.value()));
        }
        self.keys.insert(pos, key);
        self.cycles.insert(pos, cycle);
        proof {
            assert(self.key_values()[pos as int] == key.value());
            let ks = self.keys@;
            assert forall|i: int, j: int| 0 <= i < j < ks.len() implies #[trigger] ks[i].value() < #[trigger] ks[j].value() by {
                let o = old(self).keys@;
                if j < pos {
                } else if j == pos {
                } else if i < pos {
                    assert(ks[j] == o[j - 1]);
                    if j - 1 > pos {
                        assert(o[pos as int].value() < o[j - 1].value());
                    }
                } else if i == pos {
                    assert(ks[j] == o[j - 1]);
                    if j - 1 > pos {
                        assert(o[pos as int].value() < o[j - 1].value());
                    }
                } else {
                    assert(ks[j] == o[j - 1]);
                    assert(ks[i] == o[i - 1]);
                }
            }
            assert forall|i: int| 0 <= i < self.cycles@.len() implies {
                &&& (#[trigger] self.cycles@[i])@.len() > 0
                &&& self.cycles@[i]@[0] == self.keys@[i]
                &&& all_wf(self.cycles@[i]@)
            } by {
                if i > pos {
                    assert(self.cycles@[i] == old(self).cycles@[i - 1]);
                }
            }
        }
        key
    }
}

/// How many entries of `mins` equal `key`.
pub fn count_of(mins: &Vec<Unsigned>, key: &Unsigned) -> (r: usize)
    requires
        all_wf(mins@),
        key.wf(),
    ensures
        r == count(values(mins@), key.value()),
{
    let mut c: usize = 0;
    let mut i: usize = 0;
    while i < mins.len()
        invariant
            0 <= i <= mins@.len(),
            all_wf(mins@),
            key.wf(),
            c == count(values(mins@).subrange(0, i as int), key.value()),
            c <= i,
        decreases mins@.len() - i,
    {
        let ghost s = values(mins@).subrange(0, i as int + 1);
        assert(s.drop_last() == values(mins@).subrange(0, i as int));
        if mins[i].equals(key) {
            c += 1;
        }
        i += 1;
    }
    assert(values(mins@).subrange(0, mins@.len() as int) == values(mins@));
    c
}

} // verus!
