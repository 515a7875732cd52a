use vstd::prelude::*;

verus! {

/// Associates readiness events with the event source that produced them.
#[derive(Clone, Copy, Debug, PartialEq, Eq, Structural, Hash)]
pub struct Token(pub usize);

} // verus!
