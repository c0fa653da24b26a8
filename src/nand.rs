use vstd::prelude::*;

use crate::bit::{nand_of, Bit};

verus! {

/// The universal gate with a fixed number of inputs and one output.
pub struct Nand {
    num_inputs: usize,
}

impl Nand {
    /// The number of inputs this gate was made with.
    pub closed spec fn arity(&self) -> nat {
        self.num_inputs as nat
    }

    pub fn new(num_inputs: usize) -> (r: Self)
        ensures
            r.arity() == num_inputs,
    {
        Self { num_inputs }
    }

    /// One output: `nand_of` the inputs.
    pub fn update(&self, input: &[Bit]) -> (r: Vec<Bit>)
        requires
            input@.len() == self.arity(),
        ensures
            r@ == seq![nand_of(input@)],
    {
        let mut x = Bit::L;
        let mut i: usize = 0;
        while i < input.len()
            invariant
                0 <= i <= input@.len(),
                forall|k: int| 0 <= k < i ==> input@[k] != Bit::L,
                x == Bit::X <==> exists|k: int| 0 <= k < i && input@[k] == Bit::X,
                x == Bit::L || x == Bit::X,
            decreases input@.len() - i,
        {
            match input[i] {
                Bit::L => {
                    return vec![Bit::H];
                },
                Bit::X => {
                    x = Bit::X;
                },
                Bit::H => {},
            }
            i += 1;
        }
        vec![x]
    }

    pub fn num_inputs(&self) -> (r: usize)
        ensures
            r == self.arity(),
    {
        self.num_inputs
    }

    pub fn num_outputs(&self) -> (r: usize)
        ensures
            r == 1,
    {
        1
    }

    pub fn name(&self) -> (r: &'static str)
        ensures
            r@ == "NAND"@,
    {
        "NAND"
    }
}

} // verus!
