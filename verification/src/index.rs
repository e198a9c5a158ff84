use vstd::prelude::*;

verus! {

/// A position as an integer.
pub open spec fn ix(i: usize) -> int {
    i as int
}

/// A position as a natural number.
pub open spec fn nat_of(i: usize) -> nat {
    i as nat
}

/// A signed machine integer as an integer.
pub open spec fn isx(i: isize) -> int {
    i as int
}

/// A length as an integer.
pub open spec fn nx(n: nat) -> int {
    n as int
}

} // verus!
