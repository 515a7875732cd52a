use vstd::prelude::*;

verus! {

/// The kinds of readiness an event source asks to be told about.
///
/// An `Interest` is never empty: every constructor sets at least one kind,
/// `add` keeps them, and `remove` reports an empty result as `None`.
#[derive(Clone, Copy, Debug, PartialEq, Eq, Structural, Hash)]
pub struct Interest {
    readable: bool,
    writable: bool,
    priority: bool,
}

impl Interest {
    /// Whether readable readiness is asked for.
    pub closed spec fn wants_read(self) -> bool {
        self.readable
    }

    /// Whether writable readiness is asked for.
    pub closed spec fn wants_write(self) -> bool {
        self.writable
    }

    /// Whether priority readiness is asked for.
    pub closed spec fn wants_priority(self) -> bool {
        self.priority
    }

    /// At least one kind of readiness is asked for.
    pub open spec fn nonempty(self) -> bool {
        self.wants_read() || self.wants_write() || self.wants_priority()
    }

    /// Interest in readable readiness only.
    pub fn readable() -> (r: Interest)
        ensures
            r.wants_read(),
            !r.wants_write(),
            !r.wants_priority(),
    {
        Interest { readable: true, writable: false, priority: false }
    }

    /// Interest in writable readiness only.
    pub fn writable() -> (r: Interest)
        ensures
            !r.wants_read(),
            r.wants_write(),
            !r.wants_priority(),
    {
        Interest { readable: false, writable: true, priority: false }
    }

    /// Interest in priority readiness only.
    pub fn priority() -> (r: Interest)
        ensures
            !r.wants_read(),
            !r.wants_write(),
            r.wants_priority(),
    {
        Interest { readable: false, writable: false, priority: true }
    }

    /// The union of two interests.
    pub fn add(self, other: Interest) -> (r: Interest)
        ensures
            r.wants_read() == (self.wants_read() || other.wants_read()),
            r.wants_write() == (self.wants_write() || other.wants_write()),
            r.wants_priority() == (self.wants_priority() || other.wants_priority()),
    {
        Interest {
            readable: self.readable || other.readable,
            writable: self.writable || other.writable,
            priority: self.priority || other.priority,
        }
    }

    /// The kinds of `self` that are not in `other`; `None` when none is left.
    pub fn remove(self, other: Interest) -> (r: Option<Interest>)
        ensures
            match r {
                Some(i) => {
                    &&& i.nonempty()
                    &&& i.wants_read() == (self.wants_read() && !other.wants_read())
                    &&& i.wants_write() == (self.wants_write() && !other.wants_write())
                    &&& i.wants_priority() == (self.wants_priority() && !other.wants_priority())
                },
                None => {
                    &&& !(self.wants_read() && !other.wants_read())
                    &&& !(self.wants_write() && !other.wants_write())
                    &&& !(self.wants_priority() && !other.wants_priority())
                },
            },
    {
        let readable = self.readable && !other.readable;
        let writable = self.writable && !other.writable;
        let priority = self.priority && !other.priority;
        if readable || writable || priority {
            Some(Interest { readable, writable, priority })
        } else {
            None
        }
    }

    /// Returns true if the value includes readable readiness.
    pub fn is_readable(self) -> (r: bool)
        ensures
            r == self.wants_read(),
    {
        self.readable
    }

    /// Returns true if the value includes writable readiness.
    pub fn is_writable(self) -> (r: bool)
        ensures
            r == self.wants_write(),
    {
        self.writable
    }

    /// Returns true if the value includes priority readiness.
    pub fn is_priority(self) -> (r: bool)
        ensures
            r == self.wants_priority(),
    {
        self.priority
    }
}

} // verus!
