//! The UI context: one environment slot per type, filled on first use and
//! kept for the context's lifetime.

use vstd::prelude::*;

verus! {

#[verifier::external_type_specification]
#[verifier::external_body]
pub struct ExTypeId(std::any::TypeId);

/// A boxed value of some `'static` type. Its contents are hidden from
/// Verus, which cannot declare the `dyn Any` it holds.
#[verifier::external_body]
pub struct Slot {
    value: Box<dyn std::any::Any>,
}

/// `TypeId::of::<T>()`. Nothing is claimed of the identifier it returns.
#[verifier::external_body]
fn type_key<T: 'static>() -> std::any::TypeId {
    std::any::TypeId::of::<T>()
}

/// `TypeId`'s `==`: two identifiers compare equal exactly when they are
/// the same value, as std documents for type identifiers.
#[verifier::external_body]
fn same_type(a: &std::any::TypeId, b: &std::any::TypeId) -> (r: bool)
    ensures
        r == (*a == *b),
{
    *a == *b
}

/// `Box::new` into a `Box<dyn Any>`. Nothing is claimed of the slot.
#[verifier::external_body]
fn slot_of<T: 'static>(value: T) -> Slot {
    Slot { value: Box::new(value) }
}

/// `<dyn Any>::downcast_ref::<T>`: the slot's value when it is a `T`.
/// Nothing is claimed of the result, which depends on the hidden type of
/// the slot's value.
#[verifier::external_body]
fn slot_value<T: 'static>(slot: &Slot) -> Option<&T> {
    slot.value.downcast_ref::<T>()
}

/// The environment of a UI thread: at most one slot per type, in the order
/// they were first set.
pub struct UiCtx {
    slots: Vec<(std::any::TypeId, Slot)>,
}

/// The type identifiers of some slots, in order.
pub open spec fn slot_keys(slots: Seq<(std::any::TypeId, Slot)>) -> Seq<std::any::TypeId> {
    slots.map_values(|e: (std::any::TypeId, Slot)| e.0)
}

/// What setting a value whose type has identifier `key` makes of the slots
/// `before`: they stay as they are when they hold a slot for `key`, else a
/// slot for `key` is appended.
pub open spec fn set_outcome(
    before: Seq<(std::any::TypeId, Slot)>,
    after: Seq<(std::any::TypeId, Slot)>,
    key: std::any::TypeId,
) -> bool {
    if slot_keys(before).contains(key) {
        after == before
    } else {
        &&& after.len() == before.len() + 1
        &&& after.drop_last() == before
        &&& after.last().0 == key
    }
}

impl UiCtx {
    /// The slots, in the order they were first set.
    pub closed spec fn slots(&self) -> Seq<(std::any::TypeId, Slot)> {
        self.slots@
    }

    /// No two slots are for the same type.
    #[verifier::type_invariant]
    closed spec fn keys_distinct(&self) -> bool {
        slot_keys(self.slots@).no_duplicates()
    }

    /// A COLD context: every env slot downstream (typefaces, font
    /// collections, shapers) starts empty and pays its full resolution
    /// cost on first use. Mint one per UI thread or effect handler and
    /// KEEP it — a ctx minted per row or per frame is the classic
    /// cold-cache bug.
    pub fn cold() -> (ctx: Self)
        ensures
            ctx.slots() == Seq::<(std::any::TypeId, Slot)>::empty(),
    {
        UiCtx { slots: Vec::new() }
    }

    /// The index of the slot for `key`, if there is one.
    fn position(&self, key: &std::any::TypeId) -> (r: Option<usize>)
        ensures
            r matches Some(i) ==> i < self.slots().len() && self.slots()[i as int].0 == *key,
            r is None ==> !slot_keys(self.slots()).contains(*key),
    {
        let mut k: usize = 0;
        while k < self.slots.len()
            invariant
                k <= self.slots@.len(),
                forall|i: int| 0 <= i < k ==> self.slots@[i].0 != *key,
            decreases self.slots.len() - k,
        {
            if same_type(&self.slots[k].0, key) {
                return Some(k);
            }
            k = k + 1;
        }
        proof {
            if slot_keys(self.slots@).contains(*key) {
                let i = slot_keys(self.slots@).index_of(*key);
                assert(self.slots@[i].0 == *key);
            }
        }
        None
    }

    /// Stores `value` as the slot for its type, unless the context already
    /// holds one: the first value set for a type stays.
    pub fn set<T: 'static>(&mut self, value: T)
        ensures
            exists|key: std::any::TypeId|
                #[trigger] set_outcome(old(self).slots(), final(self).slots(), key),
            old(self).slots().is_prefix_of(final(self).slots()),
            final(self).slots().len() <= old(self).slots().len() + 1,
            final(self).slots().len() == old(self).slots().len() + 1 ==> !slot_keys(
                old(self).slots(),
            ).contains(final(self).slots().last().0),
    {
        proof {
            use_type_invariant(&*self);
        }
        let key = type_key::<T>();
        match self.position(&key) {
            Some(index) => {
                assert(self.slots@.is_prefix_of(self.slots@)) by {
                    assert(self.slots@.take(self.slots@.len() as int) =~= self.slots@);
                }
                assert(slot_keys(self.slots@)[index as int] == key);
                assert(set_outcome(self.slots@, self.slots@, key));
            },
            None => {
                let ghost before = self.slots@;
                let slot = slot_of(value);
                let mut slots: Vec<(std::any::TypeId, Slot)> = Vec::new();
                std::mem::swap(&mut slots, &mut self.slots);
                slots.push((key, slot));
                proof {
                    assert(slot_keys(slots@) =~= slot_keys(before).push(key));
                    assert(slots@.take(before.len() as int) =~= before);
                    assert(slots@.drop_last() =~= before);
                    assert(set_outcome(before, slots@, key));
                }
                self.slots = slots;
            },
        }
        assert(set_outcome(old(self).slots(), self.slots(), key));
    }

    /// The value stored for type `T`, if any.
    pub fn get<T: 'static>(&self) -> (r: Option<&T>)
        ensures
            self.slots().len() == 0 ==> r is None,
    {
        let key = type_key::<T>();
        match self.position(&key) {
            Some(index) => slot_value::<T>(&self.slots[index].1),
            None => None,
        }
    }
}

} // verus!
