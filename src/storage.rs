//! Sparse backing store of an array: a sequence of slots, each a hole or a
//! present value.

use vstd::prelude::*;
use crate::value::{Val, Value};

verus! {

/// The model of a slot: `None` is a hole.
pub open spec fn slot_view(s: Option<Value>) -> Option<Val> {
    match s {
        Some(v) => Some(v@),
        None => None,
    }
}

/// The value a slot yields when read without fallback: a hole reads as the
/// absent-marker value.
pub open spec fn slot_or_undefined(s: Option<Val>) -> Val {
    match s {
        Some(v) => v,
        None => Val::Undefined,
    }
}

pub open spec fn holes(n: nat) -> Seq<Option<Val>> {
    Seq::new(n, |i: int| None)
}

/// `st` cut to `n` slots, or grown to `n` with holes.
pub open spec fn resized(st: Seq<Option<Val>>, n: nat) -> Seq<Option<Val>> {
    if n <= st.len() {
        st.subrange(0, n as int)
    } else {
        st + holes((n - st.len()) as nat)
    }
}

pub open spec fn present(vs: Seq<Val>) -> Seq<Option<Val>> {
    Seq::new(vs.len(), |i: int| Some(vs[i]))
}

/// Copies a slot.
pub fn duplicate_slot(s: &Option<Value>) -> (r: Option<Value>)
    ensures
        slot_view(r) == slot_view(*s),
{
    match s {
        Some(v) => Some(v.duplicate()),
        None => None,
    }
}

/// Sparse array storage. Its length is the number of slots, whatever number
/// of them hold a value.
#[derive(Clone, Debug, PartialEq)]
pub struct ArrayStorage {
    storage: Vec<Option<Value>>,
}

impl View for ArrayStorage {
    type V = Seq<Option<Val>>;

    closed spec fn view(&self) -> Seq<Option<Val>> {
        self.storage@.map_values(|s: Option<Value>| slot_view(s))
    }
}

impl ArrayStorage {
    /// Storage of `length` holes.
    pub fn new(length: usize) -> (r: ArrayStorage)
        ensures
            r@ == holes(length as nat),
    {
        let mut storage: Vec<Option<Value>> = Vec::new();
        while storage.len() < length
            invariant
                storage.len() <= length,
                storage@.map_values(|s: Option<Value>| slot_view(s)) =~= holes(
                    storage.len() as nat,
                ),
            decreases length - storage.len(),
        {
            let ghost before = storage@.map_values(|s: Option<Value>| slot_view(s));
            storage.push(None);
            assert(storage@.map_values(|s: Option<Value>| slot_view(s)) =~= before.push(None));
            assert(storage@.map_values(|s: Option<Value>| slot_view(s)) =~= holes(
                storage.len() as nat,
            ));
        }
        ArrayStorage { storage }
    }

    /// Storage holding each of `values`, with no holes.
    pub fn from_args(values: &[Value]) -> (r: ArrayStorage)
        ensures
            r@ == present(values@.map_values(|v: Value| v@)),
    {
        let mut storage: Vec<Option<Value>> = Vec::new();
        let mut i: usize = 0;
        while i < values.len()
            invariant
                i <= values@.len(),
                storage@.len() == i,
                forall|k: int| 0 <= k < i ==> slot_view(#[trigger] storage@[k]) == Some(values@[k]@),
            decreases values@.len() - i,
        {
            storage.push(Some(values[i].duplicate()));
            i = i + 1;
        }
        let r = ArrayStorage { storage };
        assert(r@ =~= present(values@.map_values(|v: Value| v@)));
        r
    }

    /// Storage made of the given slots.
    pub fn from_storage(storage: Vec<Option<Value>>) -> (r: ArrayStorage)
        ensures
            r@ == storage@.map_values(|s: Option<Value>| slot_view(s)),
    {
        ArrayStorage { storage }
    }

    /// A copy of the storage.
    pub fn duplicate(&self) -> (r: ArrayStorage)
        ensures
            r@ == self@,
    {
        let mut storage: Vec<Option<Value>> = Vec::new();
        let mut i: usize = 0;
        while i < self.storage.len()
            invariant
                i <= self@.len(),
                storage@.len() == i,
                forall|k: int| 0 <= k < i ==> slot_view(#[trigger] storage@[k]) == self@[k],
            decreases self@.len() - i,
        {
            storage.push(duplicate_slot(&self.storage[i]));
            i = i + 1;
        }
        let r = ArrayStorage { storage };
        assert(r@ =~= self@);
        r
    }

    pub fn length(&self) -> (r: usize)
        ensures
            r == self@.len(),
    {
        self.storage.len()
    }

    /// The slot at `i`; a hole, or `None`, past the end.
    pub fn get(&self, i: usize) -> (r: Option<Value>)
        ensures
            slot_view(r) == if i < self@.len() {
                self@[i as int]
            } else {
                None
            },
    {
        if i < self.storage.len() {
            duplicate_slot(&self.storage[i])
        } else {
            None
        }
    }

    /// Stores `v` at `i`, growing the storage with holes up to `i`.
    pub fn set(&mut self, i: usize, v: Value)
        requires
            i < usize::MAX,
        ensures
            final(self)@ == if i < old(self)@.len() {
                old(self)@.update(i as int, Some(v@))
            } else {
                old(self)@ + holes((i - old(self)@.len()) as nat) + seq![Some(v@)]
            },
    {
        let ghost old_view = self@;
        if i >= self.storage.len() {
            while self.storage.len() < i
                invariant
                    old_view.len() <= self@.len() <= i,
                    self@ =~= old_view + holes((self@.len() - old_view.len()) as nat),
                decreases i - self@.len(),
            {
                let ghost before = self@;
                self.storage.push(None);
                assert(self@ =~= before.push(None));
                assert(self@ =~= old_view + holes((self@.len() - old_view.len()) as nat));
            }
            self.storage.push(Some(v));
            assert(self@ =~= old_view + holes((i - old_view.len()) as nat) + seq![Some(v@)]);
        } else {
            self.storage.set(i, Some(v));
            assert(self@ =~= old_view.update(i as int, Some(v@)));
        }
    }

    /// Truncates to `n` slots, or grows to `n` with holes.
    pub fn set_length(&mut self, n: usize)
        ensures
            final(self)@ == resized(old(self)@, n as nat),
    {
        let ghost old_view = self@;
        if n <= self.storage.len() {
            self.storage.truncate(n);
            assert(self@ =~= old_view.subrange(0, n as int));
        } else {
            while self.storage.len() < n
                invariant
                    old_view.len() <= self@.len() <= n,
                    self@ =~= old_view + holes((self@.len() - old_view.len()) as nat),
                decreases n - self@.len(),
            {
                let ghost before = self@;
                self.storage.push(None);
                assert(self@ =~= before.push(None));
                assert(self@ =~= old_view + holes((self@.len() - old_view.len()) as nat));
            }
        }
    }

    /// Appends the slots of `other`, holes included.
    pub fn append(&mut self, other: &ArrayStorage)
        ensures
            final(self)@ == old(self)@ + other@,
    {
        let ghost old_view = self@;
        let mut i: usize = 0;
        while i < other.storage.len()
            invariant
                i <= other@.len(),
                self@ =~= old_view + other@.subrange(0, i as int),
            decreases other@.len() - i,
        {
            let ghost before = self@;
            self.storage.push(duplicate_slot(&other.storage[i]));
            assert(self@ =~= before.push(other@[i as int]));
            i = i + 1;
            assert(self@ =~= old_view + other@.subrange(0, i as int));
        }
        assert(other@.subrange(0, i as int) =~= other@);
    }

    pub fn push(&mut self, v: Value)
        ensures
            final(self)@ == old(self)@.push(Some(v@)),
    {
        self.storage.push(Some(v));
        assert(self@ =~= old(self)@.push(Some(v@)));
    }

    pub fn push_hole(&mut self)
        ensures
            final(self)@ == old(self)@.push(None),
    {
        self.storage.push(None);
        assert(self@ =~= old(self)@.push(None));
    }

    /// Removes the last slot and yields its value; a hole, or an empty
    /// storage, yields the absent-marker value.
    pub fn pop(&mut self) -> (r: Value)
        ensures
            old(self)@.len() == 0 ==> final(self)@ == old(self)@ && r@ == Val::Undefined,
            old(self)@.len() > 0 ==> final(self)@ == old(self)@.drop_last() && r@
                == slot_or_undefined(old(self)@.last()),
    {
        match self.storage.pop() {
            Some(Some(v)) => {
                assert(self@ =~= old(self)@.drop_last());
                v
            },
            Some(None) => {
                assert(self@ =~= old(self)@.drop_last());
                Value::Undefined
            },
            None => Value::Undefined,
        }
    }

    /// Removes the first slot and yields its value; a hole, or an empty
    /// storage, yields the absent-marker value.
    pub fn shift(&mut self) -> (r: Value)
        ensures
            old(self)@.len() == 0 ==> final(self)@ == old(self)@ && r@ == Val::Undefined,
            old(self)@.len() > 0 ==> final(self)@ == old(self)@.drop_first() && r@
                == slot_or_undefined(old(self)@[0]),
    {
        if self.storage.len() == 0 {
            return Value::Undefined;
        }
        let first = self.storage.remove(0);
        assert(self@ =~= old(self)@.drop_first());
        match first {
            Some(v) => v,
            None => Value::Undefined,
        }
    }

    /// Inserts `v` before the first slot.
    pub fn unshift(&mut self, v: Value)
        ensures
            final(self)@ == seq![Some(v@)] + old(self)@,
    {
        self.storage.insert(0, Some(v));
        assert(self@ =~= seq![Some(v@)] + old(self)@);
    }
}

} // verus!
