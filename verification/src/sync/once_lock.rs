//! A cell that is initialized exactly once.
use vstd::prelude::*;

verus! {

/// A cell which can be written to only once.
///
/// Whoever shares it between threads guards it with a lock.
pub struct OnceLock<T> {
    inner: Option<T>,
}

impl<T> OnceLock<T> {
    /// The contained value, if there is one.
    pub closed spec fn value(self) -> Option<T> {
        self.inner
    }

    /// Creates a new, empty `OnceLock`.
    pub fn new() -> (r: Self)
        ensures
            r.value() is None,
    {
        OnceLock { inner: None }
    }

    /// Gets a reference to the contained value, if it has been initialized.
    pub fn get(&self) -> (r: Option<&T>)
        ensures
            match r {
                Some(value) => self.value() == Some(*value),
                None => self.value() is None,
            },
    {
        match &self.inner {
            Some(value) => Some(value),
            None => None,
        }
    }

    /// Gets a mutable reference to the contained value, if it has been initialized.
    pub fn get_mut(&mut self) -> (r: Option<&mut T>)
        ensures
            match r {
                Some(value) => old(self).value() == Some(*value) && final(self).value() == Some(
                    *final(value),
                ),
                None => old(self).value() is None && final(self).value() is None,
            },
    {
        match &mut self.inner {
            Some(value) => Some(value),
            None => None,
        }
    }

    /// Gets the contained value, or initializes it with a closure if it is empty.
    pub fn get_or_init<F: FnOnce() -> T>(&mut self, f: F) -> (r: &T)
        requires
            old(self).value() is None ==> f.requires(()),
        ensures
            final(self).value() == Some(*r),
            match old(self).value() {
                Some(value) => *r == value,
                None => f.ensures((), *r),
            },
    {
        if self.inner.is_none() {
            self.inner = Some(f());
        }
        match &self.inner {
            Some(value) => value,
            None => vstd::pervasive::unreached(),
        }
    }

    /// Attempts to set the value of the `OnceLock`.
    ///
    /// If the cell is already initialized, the given value is returned in an `Err`.
    pub fn set(&mut self, value: T) -> (r: core::result::Result<(), T>)
        ensures
            match r {
                Ok(_) => old(self).value() is None && final(self).value() == Some(value),
                Err(v) => {
                    &&& old(self).value() is Some
                    &&& v == value
                    &&& final(self).value() == old(self).value()
                },
            },
    {
        if self.inner.is_some() {
            Err(value)
        } else {
            self.inner = Some(value);
            Ok(())
        }
    }
}

impl<T> Default for OnceLock<T> {
    fn default() -> (r: Self)
        ensures
            r.value() is None,
    {
        Self::new()
    }
}

} // verus!
