use vstd::prelude::*;
use vstd::set_lib::{lemma_int_range, lemma_len_subset, set_int_range};
use crate::field::Felt;
use crate::types::{Cell, LowerError, Operand, Tables, advice_at, ADVICE_COLUMNS};

verus! {

/// Hands out memory addresses to representatives in the order in which they
/// are first used, and keeps the memory image that these addresses index.
pub struct Allocator {
    /// The address of each representative, by representative index.
    pub slots: Vec<Option<usize>>,
    /// The cell of the representative stored at each address.
    pub owners: Vec<Cell>,
    /// The index of the representative stored at each address.
    pub owner_index: Vec<usize>,
    /// The value stored at each address.
    pub memory: Vec<Felt>,
    /// The number of addresses that can be handed out.
    pub capacity: usize,
}

/// While some representative has no address, fewer addresses are given out
/// than there are representatives.
proof fn lemma_room_left(al: &Allocator, t: &Tables, reps: Seq<Cell>, k: int)
    requires
        al.wf(t, reps),
        0 <= k < reps.len(),
        al.slots@[k] is None,
    ensures
        al.memory@.len() < reps.len(),
{
    let s = al.owner_index@.map_values(|i: usize| i as int).push(k);
    assert forall|a: int, b: int| 0 <= a < s.len() && 0 <= b < s.len() && a != b implies s[a] != s[b] by {
        if a < al.memory@.len() && b < al.memory@.len() {
            assert(al.slots@[al.owner_index@[a] as int] == Some(a as usize));
            assert(al.slots@[al.owner_index@[b] as int] == Some(b as usize));
        } else if a < al.memory@.len() {
            assert(al.slots@[al.owner_index@[a] as int] == Some(a as usize));
        } else if b < al.memory@.len() {
            assert(al.slots@[al.owner_index@[b] as int] == Some(b as usize));
        }
    }
    assert(s.no_duplicates());
    s.unique_seq_to_set();
    let range = set_int_range(0, reps.len() as int);
    assert forall|x: int| s.to_set().contains(x) implies range.contains(x) by {
        assert(s.contains(x));
        let p = choose|p: int| 0 <= p < s.len() && s[p] == x;
        if p < al.memory@.len() {
            let q = al.owner_index@[p];
        }
    }
    lemma_int_range(0, reps.len() as int);
    lemma_len_subset(s.to_set(), range);
}

/// No two addresses hold the same representative.
pub proof fn lemma_owners_distinct(al: &Allocator, t: &Tables, reps: Seq<Cell>)
    requires
        al.wf(t, reps),
        crate::types::strictly_sorted(reps),
    ensures
        al.owners@.no_duplicates(),
{
    assert forall|a: int, b: int| 0 <= a < al.owners@.len() && 0 <= b < al.owners@.len() && a != b
        implies al.owners@[a] != al.owners@[b] by {
        let ka = al.owner_index@[a] as int;
        let kb = al.owner_index@[b] as int;
        if ka < kb {
            assert(crate::types::cell_lt(reps[ka], reps[kb]));
        } else if kb < ka {
            assert(crate::types::cell_lt(reps[kb], reps[ka]));
        }
    }
}

impl Allocator {
    /// The allocator's tables agree with one another, its memory holds the
    /// advice value of each address's owner, and it is within capacity.
    pub open spec fn wf(&self, t: &Tables, reps: Seq<Cell>) -> bool {
        &&& self.slots@.len() == reps.len()
        &&& self.owners@.len() == self.memory@.len()
        &&& self.owner_index@.len() == self.memory@.len()
        &&& self.memory@.len() <= self.capacity
        &&& forall|k: int| 0 <= k < self.slots@.len() && (#[trigger] self.slots@[k]) is Some ==> {
            let a = self.slots@[k].unwrap() as int;
            a < self.memory@.len() && self.owner_index@[a] == k
        }
        &&& forall|a: int| 0 <= a < self.memory@.len() ==> {
            let k = #[trigger] self.owner_index@[a] as int;
            &&& k < reps.len()
            &&& self.slots@[k] == Some(a as usize)
            &&& self.owners@[a] == reps[k]
            &&& advice_at(t, self.owners@[a]) == Some(self.memory@[a])
        }
    }

    /// Every address that `self` gave out is given out alike by `later`, with
    /// the same value in memory.
    pub open spec fn extended_by(&self, later: &Allocator) -> bool {
        &&& later.capacity == self.capacity
        &&& later.slots@.len() == self.slots@.len()
        &&& self.memory@.len() <= later.memory@.len()
        &&& forall|k: int| 0 <= k < self.slots@.len() && (#[trigger] self.slots@[k]) is Some
            ==> later.slots@[k] == self.slots@[k]
        &&& forall|a: int| 0 <= a < self.memory@.len() ==> {
            &&& #[trigger] later.memory@[a] == self.memory@[a]
            &&& later.owners@[a] == self.owners@[a]
            &&& later.owner_index@[a] == self.owner_index@[a]
        }
    }

    /// An allocator with no address given out, for `count` representatives.
    pub fn new(count: usize, capacity: usize) -> (r: Allocator)
        ensures
            r.slots@.len() == count,
            forall|k: int| 0 <= k < count ==> #[trigger] r.slots@[k] is None,
            r.memory@.len() == 0,
            r.owners@.len() == 0,
            r.owner_index@.len() == 0,
            r.capacity == capacity,
    {
        let mut slots: Vec<Option<usize>> = Vec::new();
        let mut k: usize = 0;
        while k < count
            invariant
                0 <= k <= count,
                slots@.len() == k,
                forall|p: int| 0 <= p < k ==> #[trigger] slots@[p] is None,
            decreases count - k,
        {
            slots.push(None);
            k += 1;
        }
        Allocator { slots, owners: Vec::new(), owner_index: Vec::new(), memory: Vec::new(), capacity }
    }

    /// The address of a memory operand: the one it already has, or else the
    /// next free address, which then holds the representative's advice value.
    pub fn allocate_or_get(&mut self, t: &Tables, reps: &Vec<Cell>, op: Operand) -> (r: Result<usize, LowerError>)
        requires
            old(self).wf(t, reps@),
            crate::types::strictly_sorted(reps@),
            op matches Operand::Memory { rep, index } ==> index < reps@.len() && reps@[index as int] == rep,
        ensures
            r == Err::<usize, LowerError>(LowerError::CapacityOverflow) ==> old(self).memory@.len() >= old(self).capacity
                && (op matches Operand::Memory { rep, .. } && !old(self).owners@.contains(rep)),
            final(self).wf(t, reps@),
            old(self).extended_by(final(self)),
            r == Err::<usize, LowerError>(LowerError::CapacityOverflow) ==> reps@.len() > old(self).capacity,
            match op {
                Operand::Constant(_) => r == Err::<usize, LowerError>(LowerError::UnsupportedOperand)
                    && *final(self) == *old(self),
                Operand::Memory { rep, index } => match old(self).slots@[index as int] {
                    Some(a) => r == Ok::<usize, LowerError>(a) && *final(self) == *old(self),
                    None => if rep.column >= ADVICE_COLUMNS || rep.column >= t.advice@.len()
                        || rep.row >= t.advice@[rep.column as int]@.len() {
                        r == Err::<usize, LowerError>(LowerError::LayoutMismatch) && *final(self) == *old(self)
                    } else if advice_at(t, rep) is None {
                        r == Err::<usize, LowerError>(LowerError::UnassignedAdvice) && *final(self) == *old(self)
                    } else if old(self).memory@.len() >= old(self).capacity {
                        r == Err::<usize, LowerError>(LowerError::CapacityOverflow) && *final(self) == *old(self)
                    } else {
                        &&& r == Ok::<usize, LowerError>(old(self).memory@.len() as usize)
                        &&& final(self).memory@ == old(self).memory@.push(advice_at(t, rep).unwrap())
                        &&& final(self).owners@ == old(self).owners@.push(rep)
                        &&& final(self).slots@ == old(self).slots@.update(index as int, Some(old(self).memory@.len() as usize))
                    },
                },
            },
    {
        match op {
            Operand::Constant(_) => Err(LowerError::UnsupportedOperand),
            Operand::Memory { rep, index } => {
                if let Some(a) = self.slots[index] {
                    return Ok(a);
                }
                if rep.column >= ADVICE_COLUMNS || rep.column >= t.advice.len() || rep.row >= t.advice[rep.column].len() {
                    return Err(LowerError::LayoutMismatch);
                }
                let v = match t.advice[rep.column][rep.row] {
                    Some(v) => v,
                    None => {
                        return Err(LowerError::UnassignedAdvice);
                    },
                };
                if self.memory.len() >= self.capacity {
                    proof {
                        lemma_room_left(self, t, reps@, index as int);
                        if self.owners@.contains(rep) {
                            let a = choose|a: int| 0 <= a < self.owners@.len() && self.owners@[a] == rep;
                            let k = self.owner_index@[a] as int;
                            if k < index {
                                assert(crate::types::cell_lt(reps@[k], reps@[index as int]));
                            } else if k > index {
                                assert(crate::types::cell_lt(reps@[index as int], reps@[k]));
                            }
                        }
                    }
                    return Err(LowerError::CapacityOverflow);
                }
                let a = self.memory.len();
                let ghost before = *self;
                self.memory.push(v);
                self.owners.push(rep);
                self.owner_index.push(index);
                self.slots.set(index, Some(a));
                proof {
                    assert forall|k: int| 0 <= k < self.slots@.len() && (#[trigger] self.slots@[k]) is Some implies {
                        let b = self.slots@[k].unwrap() as int;
                        b < self.memory@.len() && self.owner_index@[b] == k
                    } by {
                        if k != index {
                            assert(before.slots@[k] is Some);
                        }
                    }
                    assert forall|b: int| 0 <= b < self.memory@.len() implies {
                        let k = #[trigger] self.owner_index@[b] as int;
                        &&& k < reps@.len()
                        &&& self.slots@[k] == Some(b as usize)
                        &&& self.owners@[b] == reps@[k]
                        &&& advice_at(t, self.owners@[b]) == Some(self.memory@[b])
                    } by {
                        if b < a {
                            assert(before.owner_index@[b] == self.owner_index@[b]);
                            let k = before.owner_index@[b] as int;
                            assert(before.slots@[k] == Some(b as usize));
                            assert(k != index);
                        }
                    }
                    assert forall|k: int| 0 <= k < before.slots@.len() && (#[trigger] before.slots@[k]) is Some
                        implies self.slots@[k] == before.slots@[k] by {
                        if k == index {
                            assert(false);
                        }
                    }
                }
                Ok(a)
            },
        }
    }
}

/// Once a representative has an address, every later state of the allocator
/// gives it that same address and keeps that value at it: extension is
/// transitive, and each call of `allocate_or_get` extends.
pub proof fn law_addresses_stable(a1: &Allocator, a2: &Allocator, a3: &Allocator)
    requires
        a1.extended_by(a2),
        a2.extended_by(a3),
    ensures
        a1.extended_by(a3),
{
    assert forall|k: int| 0 <= k < a1.slots@.len() && (#[trigger] a1.slots@[k]) is Some
        implies a3.slots@[k] == a1.slots@[k] by {
        assert(a2.slots@[k] == a1.slots@[k]);
    }
    assert forall|a: int| 0 <= a < a1.memory@.len() implies {
        &&& #[trigger] a3.memory@[a] == a1.memory@[a]
        &&& a3.owners@[a] == a1.owners@[a]
        &&& a3.owner_index@[a] == a1.owner_index@[a]
    } by {
        assert(a2.memory@[a] == a1.memory@[a]);
    }
}

} // verus!
