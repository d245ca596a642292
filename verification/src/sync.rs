//! Cells initialized at most once: [`OnceLock`] and [`LazyLock`], which
//! runs its initializer on first use.  Exclusive access is given by
//! `&mut`.
use vstd::prelude::*;

verus! {

/// A cell written at most once.
pub struct OnceLock<T> {
    value: Option<T>,
}

impl<T> OnceLock<T> {
    /// What the cell holds, if it was initialized.
    pub closed spec fn contents(&self) -> Option<T> {
        self.value
    }

    /// An empty cell.
    pub fn new() -> (r: OnceLock<T>)
        ensures
            r.contents() == None::<T>,
    {
        OnceLock { value: None }
    }

    /// The value, if the cell was initialized.
    pub fn get(&self) -> (r: Option<&T>)
        ensures
            match self.contents() {
                Some(v) => r == Some(&v),
                None => r is None,
            },
    {
        match &self.value {
            Some(v) => Some(v),
            None => None,
        }
    }

    /// The value; when the cell is empty it is first set to what `f`
    /// returns.  `f` runs only then.
    pub fn get_or_init<F: FnOnce() -> T>(&mut self, f: F) -> (r: &T)
        requires
            old(self).contents() is None ==> f.requires(()),
        ensures
            final(self).contents() == Some(*r),
            old(self).contents() is Some ==> final(self).contents() == old(self).contents(),
            old(self).contents() is None ==> f.ensures((), *r),
    {
        if self.value.is_none() {
            let v = f();
            self.value = Some(v);
        }
        self.value.as_ref().unwrap()
    }
}

/// A value computed by `init` on first use.
pub struct LazyLock<T, F> {
    cell: OnceLock<T>,
    init: Option<F>,
}

impl<T, F: FnOnce() -> T> LazyLock<T, F> {
    /// The value, if it was computed.
    pub closed spec fn contents(&self) -> Option<T> {
        self.cell.contents()
    }

    /// The initializer, while it has not run.
    pub closed spec fn initializer(&self) -> Option<F> {
        self.init
    }

    /// The cell holds a value or still has its initializer.
    pub closed spec fn wf(&self) -> bool {
        self.cell.contents() is Some || self.init is Some
    }

    /// A cell that computes its value with `f` on first use.
    pub fn new(f: F) -> (r: LazyLock<T, F>)
        ensures
            r.wf(),
            r.contents() == None::<T>,
            r.initializer() == Some(f),
    {
        LazyLock { cell: OnceLock::new(), init: Some(f) }
    }

    /// The value: on first use, what the initializer returns.
    pub fn force(&mut self) -> (r: &T)
        requires
            old(self).wf(),
            old(self).contents() is None ==> old(self).initializer()->Some_0.requires(()),
        ensures
            final(self).wf(),
            final(self).contents() == Some(*r),
            old(self).contents() is Some ==> final(self).contents() == old(self).contents(),
            old(self).contents() is None ==> old(self).initializer()->Some_0.ensures((), *r),
    {
        if self.cell.value.is_none() {
            let f = self.init.take().unwrap();
            let v = f();
            self.cell.value = Some(v);
        }
        self.cell.value.as_ref().unwrap()
    }
}

} // verus!
