use vstd::prelude::*;

verus! {

/// A slot that holds at most one boxed value and keeps the first value it was
/// given: later writes are dropped and every reader sees the first one.
pub struct LazySlot<T> {
    /// The value, once one was given.
    pub value: Option<Box<T>>,
}

/// What a slot holds after a write of `value`, given what it held `before`.
pub open spec fn after_try_set<T>(before: Option<T>, value: T) -> Option<T> {
    match before {
        Some(kept) => Some(kept),
        None => Some(value),
    }
}

impl<T> LazySlot<T> {
    /// The value held, if any.
    pub open spec fn view(&self) -> Option<T> {
        match self.value {
            Some(b) => Some(*b),
            None => None,
        }
    }

    /// An empty slot.
    pub fn new() -> (slot: Self)
        ensures
            slot@ is None,
    {
        LazySlot { value: None }
    }

    /// The value held, if any. Never changes the slot.
    pub fn get(&self) -> (r: Option<&T>)
        ensures
            r is Some == self@ is Some,
            r is Some ==> *r->0 == self@->0,
    {
        match &self.value {
            Some(b) => Some(&**b),
            None => None,
        }
    }

    /// The value held, if any, for changing it in place. Whether the slot is
    /// full cannot be changed through the result.
    pub fn get_mut(&mut self) -> (r: Option<&mut T>)
        ensures
            r is Some == old(self)@ is Some,
            r is Some ==> *r->0 == old(self)@->0 && final(self)@ == Some(*final(r->0)),
            r is None ==> final(self)@ is None,
    {
        match &mut self.value {
            Some(b) => Some(&mut **b),
            None => None,
        }
    }

    /// Stores `value` if the slot is empty and drops it otherwise. Returns the
    /// value that the slot holds from now on.
    pub fn try_set(&mut self, value: Box<T>) -> (r: &T)
        ensures
            final(self)@ == after_try_set(old(self)@, *value),
            Some(*r) == final(self)@,
    {
        if self.value.is_none() {
            self.value = Some(value);
        }
        match &self.value {
            Some(b) => &**b,
            None => unreached(),
        }
    }
}

impl<T> Default for LazySlot<T> {
    fn default() -> (slot: Self)
        ensures
            slot@ is None,
    {
        LazySlot::new()
    }
}

/// The first write wins: a second write leaves the slot as the first one
/// left it, whatever the two values are.
pub proof fn lemma_first_write_wins<T>(before: Option<T>, first: T, second: T)
    ensures
        after_try_set(after_try_set(before, first), second) == after_try_set(before, first),
        before is None ==> after_try_set(after_try_set(before, first), second) == Some(first),
        before is Some ==> after_try_set(after_try_set(before, first), second) == before,
{
}

} // verus!
