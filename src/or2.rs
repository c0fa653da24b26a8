use vstd::prelude::*;

use crate::bit::{nand_of, or_of, Bit};
use crate::nand::Nand;

verus! {

/// Two-input disjunction built from three universal gates:
/// `a OR b == NOT(a) NAND NOT(b)`.
pub struct Or2 {
    in_a: Nand,
    in_b: Nand,
    out: Nand,
}

impl Or2 {
    #[verifier::type_invariant]
    spec fn wf(&self) -> bool {
        self.in_a.arity() == 1 && self.in_b.arity() == 1 && self.out.arity() == 2
    }

    pub fn new() -> Self {
        Self { in_a: Nand::new(1), in_b: Nand::new(1), out: Nand::new(2) }
    }

    /// One output: `or_of` the two inputs.
    pub fn update(&self, input: &[Bit]) -> (r: Vec<Bit>)
        requires
            input@.len() == 2,
        ensures
            r@ == seq![or_of(input@[0], input@[1])],
    {
        proof {
            use_type_invariant(self);
        }
        let a = input[0];
        let na = self.in_a.update(&[a]);
        let not_a = na[0];
        let b = input[1];
        let nb = self.in_b.update(&[b]);
        let not_b = nb[0];
        let r = self.out.update(&[not_a, not_b]);
        proof {
            assert(seq![a][0] == a);
            assert(seq![b][0] == b);
            assert(seq![not_a, not_b][0] == not_a);
            assert(seq![not_a, not_b][1] == not_b);
        }
        r
    }

    pub fn num_inputs(&self) -> (r: usize)
        ensures
            r == 2,
    {
        2
    }

    pub fn num_outputs(&self) -> (r: usize)
        ensures
            r == 1,
    {
        1
    }

    pub fn name(&self) -> (r: &'static str)
        ensures
            r@ == "OR2"@,
    {
        "OR2"
    }
}

} // verus!
