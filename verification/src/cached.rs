use vstd::prelude::*;
use core::fmt::Debug;

verus! {

/// Helper for caching a value when the value is optionally present in the 'unused'
/// state.
#[derive(Clone, Debug)]
pub enum Cached<T: Clone + Debug> {
    Empty,
    Unused(T),
    Used(T),
}

impl<T: Clone + Debug> Cached<T> {
    /// The value, when it is in use.
    pub fn get(&self) -> (r: Option<&T>)
        ensures
            r == match *self {
                Cached::Used(t) => Some(&t),
                _ => None,
            },
    {
        match self {
            Self::Empty | Self::Unused(_) => None,
            Self::Used(t) => Some(t),
        }
    }

    /// The value to modify in place, when it is in use.
    pub fn get_mut(&mut self) -> (r: Option<&mut T>)
        ensures
            match *old(self) {
                Cached::Used(t) => r matches Some(m) && *m == t && *final(self) == Cached::Used(
                    *final(m),
                ),
                _ => r is None && *final(self) == *old(self),
            },
    {
        match self {
            Self::Empty | Self::Unused(_) => None,
            Self::Used(t) => Some(t),
        }
    }

    pub fn is_unused(&self) -> (r: bool)
        ensures
            r == !(*self is Used),
    {
        match self {
            Self::Empty | Self::Unused(_) => true,
            Self::Used(_) => false,
        }
    }

    pub fn is_used(&self) -> (r: bool)
        ensures
            r == (*self is Used),
    {
        match self {
            Self::Empty | Self::Unused(_) => false,
            Self::Used(_) => true,
        }
    }

    /// Takes an unused value, leaving the cache empty.
    pub fn take_unused(&mut self) -> (r: Option<T>)
        ensures
            match *old(self) {
                Cached::Unused(t) => *final(self) == Cached::<T>::Empty,
                _ => *final(self) == *old(self),
            },
            r == spec_take_unused(*old(self)),
    {
        if self.is_unused() && !(matches!(*self, Self::Empty)) {
            let mut taken = Self::Empty;
            core::mem::swap(self, &mut taken);
            match taken {
                Self::Unused(val) => Some(val),
                _ => None,
            }
        } else {
            None
        }
    }

    /// Takes a used value, leaving the cache empty.
    pub fn take_used(&mut self) -> (r: Option<T>)
        ensures
            match *old(self) {
                Cached::Used(t) => r == Some(t) && *final(self) == Cached::<T>::Empty,
                _ => r is None && *final(self) == *old(self),
            },
    {
        if self.is_used() {
            let mut taken = Self::Empty;
            core::mem::swap(self, &mut taken);
            match taken {
                Self::Used(val) => Some(val),
                _ => None,
            }
        } else {
            None
        }
    }

    /// Marks a used value as unused, keeping it for reuse.
    pub fn set_unused(&mut self)
        ensures
            *final(self) == spec_set_unused(*old(self)),
    {
        if self.is_used() {
            let val = self.take_used();
            match val {
                Some(v) => {
                    *self = Self::Unused(v);
                },
                None => {},
            }
        }
    }

    /// Stores a value in use.
    pub fn set_used(&mut self, val: T)
        ensures
            *final(self) == Cached::Used(val),
    {
        *self = Self::Used(val);
    }
}

/// What `set_unused` leaves.
pub open spec fn spec_set_unused<T: Clone + Debug>(c: Cached<T>) -> Cached<T> {
    match c {
        Cached::Used(t) => Cached::Unused(t),
        other => other,
    }
}

/// What `take_unused` returns.
pub open spec fn spec_take_unused<T: Clone + Debug>(c: Cached<T>) -> Option<T> {
    match c {
        Cached::Unused(t) => Some(t),
        _ => None,
    }
}

/// A value set in use, then marked unused, is the one taken back for reuse, and
/// taking it leaves nothing in use.
pub proof fn lemma_cached_reuse<T: Clone + Debug>(c: Cached<T>, val: T)
    ensures
        spec_take_unused(spec_set_unused(Cached::Used(val))) == Some(val),
        spec_set_unused(c) !is Used,
{
}

} // verus!
