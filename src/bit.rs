use vstd::prelude::*;

verus! {

/// A tristate signal value.
#[derive(Debug, PartialEq, Eq, Structural, Clone, Copy)]
pub enum Bit {
    /// Low, 0.
    L,
    /// High, 1.
    H,
    /// Undefined: an unknown or floating signal.
    X,
}

/// The universal gate on any number of inputs: High when some input is Low,
/// otherwise Undefined when some input is Undefined, otherwise Low.
pub open spec fn nand_of(input: Seq<Bit>) -> Bit {
    if exists|i: int| 0 <= i < input.len() && input[i] == Bit::L {
        Bit::H
    } else if exists|i: int| 0 <= i < input.len() && input[i] == Bit::X {
        Bit::X
    } else {
        Bit::L
    }
}

/// Two-input disjunction over tristate values: High when either side is
/// High, Low when both are Low, otherwise Undefined.
pub open spec fn or_of(a: Bit, b: Bit) -> Bit {
    if a == Bit::H || b == Bit::H {
        Bit::H
    } else if a == Bit::L && b == Bit::L {
        Bit::L
    } else {
        Bit::X
    }
}

} // verus!
