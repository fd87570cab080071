use vstd::prelude::*;

verus! {

/// Flag value marking a live exclusive borrow. Any smaller value counts
/// the live shared borrows.
pub const WRITER: usize = usize::MAX;

/// A shared borrow may be taken while no exclusive borrow is live.
pub open spec fn can_read(flag: usize) -> bool {
    flag != WRITER
}

/// An exclusive borrow may be taken only from the free state.
pub open spec fn can_write(flag: usize) -> bool {
    flag == 0
}

/// A container pairing one value with a borrow flag, enforcing "many
/// readers xor one writer" at run time: the flag is 0 when free, counts
/// the live shared borrows, and is `WRITER` while an exclusive borrow is
/// live. Shared state makes the flag an atomic; this sequential model
/// tracks the same transitions through exclusive access.
pub struct Cell<T> {
    flag: usize,
    inner: T,
}

/// A shared borrow of a `Cell`: hand it back with [`Cell::release`] to
/// decrement the flag, as dropping a shared guard does.
pub struct Ref {
    mark: bool,
}

/// An exclusive borrow of a `Cell`: hand it back with
/// [`Cell::release_mut`] to reset the flag, as dropping an exclusive
/// guard does.
pub struct RefMut {
    mark: bool,
}

impl Ref {
    /// Create the accounting token for one shared borrow.
    pub fn new() -> (r: Ref) {
        Ref { mark: true }
    }
}

impl RefMut {
    /// Create the accounting token for one exclusive borrow.
    pub fn new() -> (r: RefMut) {
        RefMut { mark: true }
    }
}

impl<T> Cell<T> {
    /// The current borrow flag.
    pub closed spec fn flag(&self) -> usize {
        self.flag
    }

    /// The stored value.
    pub closed spec fn value(&self) -> T {
        self.inner
    }

    /// Create a new cell in the free state.
    pub fn new(inner: T) -> (c: Cell<T>)
        ensures
            c.flag() == 0,
            c.value() == inner,
    {
        Cell { flag: 0, inner }
    }

    /// Consumes this cell and returns ownership of the value.
    pub fn into_inner(self) -> (r: T)
        ensures
            r == self.value(),
    {
        self.inner
    }

    /// Take a shared read lock if no writer holds the flag, incrementing
    /// the read count by one.
    fn check_flag_read(&mut self) -> (r: bool)
        ensures
            r == can_read(old(self).flag()),
            r ==> final(self).flag() == old(self).flag() + 1,
            !r ==> final(self).flag() == old(self).flag(),
            final(self).value() == old(self).value(),
    {
        if self.flag == WRITER {
            false
        } else {
            self.flag = self.flag + 1;
            true
        }
    }

    /// Take the write lock if the flag is free, setting the writer
    /// sentinel.
    fn check_flag_write(&mut self) -> (r: bool)
        ensures
            r == can_write(old(self).flag()),
            r ==> final(self).flag() == WRITER,
            !r ==> final(self).flag() == old(self).flag(),
            final(self).value() == old(self).value(),
    {
        if self.flag == 0 {
            self.flag = WRITER;
            true
        } else {
            false
        }
    }

    /// Take a shared borrow. The caller must know no exclusive borrow is
    /// live; otherwise use [`Cell::try_borrow`].
    pub fn borrow(&mut self) -> (r: Ref)
        requires
            can_read(old(self).flag()),
        ensures
            final(self).flag() == old(self).flag() + 1,
            final(self).value() == old(self).value(),
    {
        let granted = self.check_flag_read();
        proof {
            assert(granted);
        }
        Ref::new()
    }

    /// Take a shared borrow, or nothing while an exclusive borrow is
    /// live.
    pub fn try_borrow(&mut self) -> (r: Option<Ref>)
        ensures
            r is Some == can_read(old(self).flag()),
            r is Some ==> final(self).flag() == old(self).flag() + 1,
            r is None ==> final(self).flag() == old(self).flag(),
            final(self).value() == old(self).value(),
    {
        if self.check_flag_read() {
            Some(Ref::new())
        } else {
            None
        }
    }

    /// Take the exclusive borrow. The caller must know the cell is free;
    /// otherwise use [`Cell::try_borrow_mut`].
    pub fn borrow_mut(&mut self) -> (r: RefMut)
        requires
            can_write(old(self).flag()),
        ensures
            final(self).flag() == WRITER,
            final(self).value() == old(self).value(),
    {
        let granted = self.check_flag_write();
        proof {
            assert(granted);
        }
        RefMut::new()
    }

    /// Take the exclusive borrow, or nothing unless the cell is free.
    pub fn try_borrow_mut(&mut self) -> (r: Option<RefMut>)
        ensures
            r is Some == can_write(old(self).flag()),
            r is Some ==> final(self).flag() == WRITER,
            r is None ==> final(self).flag() == old(self).flag(),
            final(self).value() == old(self).value(),
    {
        if self.check_flag_write() {
            Some(RefMut::new())
        } else {
            None
        }
    }

    /// Read the value while a shared borrow is live (or the cell is
    /// free): closed to readers only while a writer holds the flag.
    pub fn get(&self) -> (r: &T)
        requires
            can_read(self.flag()),
        ensures
            *r == self.value(),
    {
        &self.inner
    }

    /// Replace the value through a live exclusive borrow.
    pub fn set(&mut self, value: T)
        requires
            old(self).flag() == WRITER,
        ensures
            final(self).flag() == WRITER,
            final(self).value() == value,
    {
        self.inner = value;
    }

    /// Gets exclusive access to the value, bypassing the flag: exclusive
    /// access is checked at compile time here.
    pub fn get_mut(&mut self) -> (r: &mut T)
        ensures
            *r == old(self).value(),
            final(self).value() == *final(r),
            final(self).flag() == old(self).flag(),
    {
        &mut self.inner
    }

    /// Return a shared borrow, decrementing the flag as the guard's drop
    /// does.
    pub fn release(&mut self, guard: Ref)
        requires
            0 < old(self).flag(),
        ensures
            final(self).flag() == old(self).flag() - 1,
            final(self).value() == old(self).value(),
    {
        self.flag = self.flag - 1;
    }

    /// Return the exclusive borrow, resetting the flag to free as the
    /// guard's drop does.
    pub fn release_mut(&mut self, guard: RefMut)
        ensures
            final(self).flag() == 0,
            final(self).value() == old(self).value(),
    {
        self.flag = 0;
    }
}

/// Writer exclusivity: the exclusive path opens exactly from the free
/// state, and while the writer sentinel is set no borrow of either mode
/// can succeed; resetting the flag to free reopens both paths.
pub proof fn lemma_writer_exclusivity(flag: usize)
    ensures
        can_write(flag) <==> flag == 0,
        flag != 0 ==> !can_write(flag),
        !can_read(WRITER) && !can_write(WRITER),
        can_read(0) && can_write(0),
{
}

/// Borrow exclusivity: with fewer than `WRITER - 1` shared borrows
/// outstanding another shared borrow succeeds and observes the same
/// value; while any borrow is outstanding the writer path is closed;
/// once the flag is back to the free state both paths are open; and
/// while a writer holds the flag no borrow of either mode succeeds.
pub proof fn lemma_borrow_exclusivity(flag: usize)
    requires
        flag < WRITER - 1,
    ensures
        can_read(flag),
        can_read((flag + 1) as usize),
        !can_write((flag + 1) as usize),
        flag > 0 ==> !can_write(flag),
        can_read(0) && can_write(0),
        !can_read(WRITER) && !can_write(WRITER),
{
}

} // verus!
