//! Values that are made once, on first use.

use vstd::prelude::*;

verus! {

/// A cell that is empty or holds a value, and is filled at most once.
pub struct OnceCell<T> {
    inner: Option<T>,
}

impl<T> View for OnceCell<T> {
    type V = Option<T>;

    closed spec fn view(&self) -> Option<T> {
        self.inner
    }
}

impl<T> OnceCell<T> {
    /// An empty cell.
    pub fn new() -> (c: OnceCell<T>)
        ensures
            c@ is None,
    {
        OnceCell { inner: None }
    }

    /// The value, if the cell holds one.
    pub fn get(&self) -> (r: Option<&T>)
        ensures
            r == (match self@ {
                Some(v) => Some(&v),
                None => None,
            }),
    {
        self.inner.as_ref()
    }

    /// Tests whether the cell holds a value.
    pub fn is_set(&self) -> (r: bool)
        ensures
            r == self@.is_some(),
    {
        self.inner.is_some()
    }

    /// The value, to be changed in place, if the cell holds one.
    pub fn get_mut(&mut self) -> (r: Option<&mut T>)
        ensures
            old(self)@ is None ==> r is None && final(self)@ is None,
            old(self)@ is Some ==> r is Some && *r.unwrap() == old(self)@.unwrap() && final(self)@
                == Some(*final(r.unwrap())),
    {
        self.inner.as_mut()
    }

    /// Fills an empty cell. A cell that holds a value keeps it, and the
    /// new value comes back.
    pub fn set(&mut self, value: T) -> (r: Result<(), T>)
        ensures
            old(self)@ is None ==> r is Ok && final(self)@ == Some(value),
            old(self)@ is Some ==> r == Err::<(), T>(value) && final(self)@ == old(self)@,
    {
        if self.inner.is_some() {
            return Err(value);
        }
        self.inner = Some(value);
        Ok(())
    }

    /// The value of the cell; an empty cell is first filled with what `f`
    /// makes.
    pub fn get_or_init<F: FnOnce() -> T>(&mut self, f: F) -> (r: &T)
        requires
            old(self)@ is None ==> f.requires(()),
        ensures
            final(self)@ == Some(*r),
            old(self)@ is Some ==> final(self)@ == old(self)@,
            old(self)@ is None ==> f.ensures((), *r),
    {
        if self.inner.is_none() {
            let value = f();
            self.inner = Some(value);
        }
        self.inner.as_ref().unwrap()
    }

    /// The value of the cell; an empty cell is first filled with what `f`
    /// makes, and stays empty where `f` fails.
    pub fn get_or_try_init<F: FnOnce() -> Result<T, E>, E>(&mut self, f: F) -> (r: Result<&T, E>)
        requires
            old(self)@ is None ==> f.requires(()),
        ensures
            old(self)@ is Some ==> final(self)@ == old(self)@ && (match r {
                Ok(v) => Some(*v) == old(self)@,
                Err(_) => false,
            }),
            old(self)@ is None ==> (match r {
                Ok(v) => final(self)@ == Some(*v) && f.ensures((), Ok::<T, E>(*v)),
                Err(e) => final(self)@ is None && f.ensures((), Err::<T, E>(e)),
            }),
    {
        if self.inner.is_none() {
            match f() {
                Ok(value) => {
                    self.inner = Some(value);
                },
                Err(e) => {
                    return Err(e);
                },
            }
        }
        Ok(self.inner.as_ref().unwrap())
    }
}

/// A value that is made by `init` when it is first asked for.
pub struct Lazy<T, F> {
    cell: OnceCell<T>,
    init: Option<F>,
}

impl<T, F: FnOnce() -> T> Lazy<T, F> {
    /// The value, if it was made.
    pub closed spec fn value(&self) -> Option<T> {
        self.cell@
    }

    /// The function that makes the value, until it was used.
    pub closed spec fn maker(&self) -> Option<F> {
        self.init
    }

    /// Either the value was made, or the function to make it is there.
    pub open spec fn wf(&self) -> bool {
        self.value() is Some || (self.maker() matches Some(f) && f.requires(()))
    }

    /// A value that `init` will make.
    pub fn new(init: F) -> (l: Lazy<T, F>)
        requires
            init.requires(()),
        ensures
            l.value() is None,
            l.maker() == Some(init),
            l.wf(),
    {
        Lazy { cell: OnceCell::new(), init: Some(init) }
    }

    /// The value; it is made now if it was not made before.
    pub fn force(&mut self) -> (r: &T)
        requires
            old(self).wf(),
        ensures
            final(self).value() == Some(*r),
            final(self).wf(),
            old(self).value() is Some ==> final(self).value() == old(self).value(),
            old(self).value() is None ==> old(self).maker().unwrap().ensures((), *r),
    {
        if !self.cell.is_set() {
            let f = self.init.take().unwrap();
            let _ = self.cell.set(f());
        }
        self.cell.get().unwrap()
    }
}

} // verus!
