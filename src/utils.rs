//! Values that are either owned or borrowed.
use vstd::prelude::*;

verus! {

/// An owned or mutably borrowed value.
pub enum Owm<'a, T> {
    Owned(T),
    Borrowed(&'a mut T),
}

impl<'a, T> Owm<'a, T> {
    /// The value, owned or borrowed.
    pub open spec fn value(&self) -> T {
        match self {
            Owm::Owned(v) => *v,
            Owm::Borrowed(v) => **v,
        }
    }

    /// Read access to the value.
    pub fn get(&self) -> (r: &T)
        ensures
            *r == self.value(),
    {
        match self {
            Owm::Owned(v) => v,
            Owm::Borrowed(v) => v,
        }
    }

    /// Write access to the value.
    pub fn get_mut(&mut self) -> (r: &mut T)
        ensures
            *r == old(self).value(),
            final(self).value() == *final(r),
    {
        match self {
            Owm::Owned(v) => v,
            Owm::Borrowed(v) => v,
        }
    }
}

/// A read-only borrowed value, or an owned one kept on the heap.
pub enum Rop<'a, T> {
    Owned(Box<T>),
    Borrowed(&'a T),
}

impl<'a, T> Rop<'a, T> {
    /// The value, owned or borrowed.
    pub open spec fn value(&self) -> T {
        match self {
            Rop::Owned(b) => **b,
            Rop::Borrowed(v) => **v,
        }
    }

    /// Wrap a borrowed value.
    pub fn from_ref(r: &'a T) -> (s: Self)
        ensures
            s.value() == *r,
            s is Borrowed,
    {
        Rop::Borrowed(r)
    }

    /// Wrap an owned value.
    pub fn from_owned(v: T) -> (s: Self)
        ensures
            s.value() == v,
            s is Owned,
    {
        Rop::Owned(Box::new(v))
    }

    /// Read access to the value.
    pub fn get(&self) -> (r: &T)
        ensures
            *r == self.value(),
    {
        match self {
            Rop::Owned(b) => b,
            Rop::Borrowed(v) => v,
        }
    }
}

} // verus!
