use vstd::prelude::*;

use crate::bit::Bit;
use crate::circuit::Component;
use crate::model::{arity_in, comp_step, CompModel};
use crate::trace::{
    changes, declarations, declare, decls_model, emit, trace_steps, trail, DeclModel, Declaration,
    SignalChange,
};

verus! {

/// What one tick leaves in the trace: the value of every traced signal and
/// the auxiliary clock.
#[derive(Debug)]
pub struct Tick {
    pub changes: Vec<SignalChange>,
    pub clock: Bit,
}

/// The plain data of a value-change trace: the header's declarations, the
/// initial value of each declared signal, then one block per tick.
#[derive(Debug)]
pub struct Trace {
    pub declarations: Vec<Declaration>,
    pub initial: Vec<SignalChange>,
    pub initial_clock: Bit,
    pub ticks: Vec<Tick>,
}

pub open spec fn inputs_model(inputs: Seq<Vec<Bit>>) -> Seq<Seq<Bit>> {
    inputs.map_values(|v: Vec<Bit>| v@)
}

/// The component after ticks `0 .. t` of `inputs`.
pub open spec fn run(c: CompModel, inputs: Seq<Seq<Bit>>, t: nat) -> CompModel
    decreases t,
{
    if t == 0 {
        c
    } else {
        comp_step(run(c, inputs, (t - 1) as nat), inputs[t - 1]).0
    }
}

/// The auxiliary clock at tick `t`: High, then Low, alternating.
pub open spec fn clock_at(t: nat) -> Bit {
    if t % 2 == 0 {
        Bit::H
    } else {
        Bit::L
    }
}

/// An undefined initial value for each declared signal, in declaration
/// order.
pub open spec fn initial_values(d: Seq<DeclModel>) -> Seq<SignalChange>
    decreases d.len(),
{
    if d.len() == 0 {
        Seq::empty()
    } else {
        initial_values(d.drop_last()) + match d.last() {
            DeclModel::Wire(id, _) => seq![SignalChange { id, value: Bit::X }],
            _ => Seq::empty(),
        }
    }
}

fn undefined_values(d: &Vec<Declaration>) -> (r: Vec<SignalChange>)
    ensures
        r@ == initial_values(decls_model(d@)),
{
    let mut out: Vec<SignalChange> = Vec::new();
    let mut i: usize = 0;
    while i < d.len()
        invariant
            0 <= i <= d@.len(),
            out@ == initial_values(decls_model(d@).take(i as int)),
        decreases d@.len() - i,
    {
        proof {
            assert(decls_model(d@).take(i + 1).drop_last() =~= decls_model(d@).take(i as int));
        }
        match &d[i] {
            Declaration::Wire(id, _) => {
                out.push(SignalChange { id: *id, value: Bit::X });
            },
            _ => {},
        }
        proof {
            let s = initial_values(decls_model(d@).take(i + 1));
            assert(out@ =~= s);
        }
        i += 1;
    }
    proof {
        assert(decls_model(d@).take(d@.len() as int) =~= decls_model(d@));
    }
    out
}

/// Runs `ticks` ticks of `c` on `inputs` and records the trace: the
/// declarations of the circuit as it stood before the first tick, an
/// undefined initial value for every declared signal and a Low clock, then
/// for each tick the values after its update and the clock value.
pub fn simulation_trace(c: &mut Component, inputs: &Vec<Vec<Bit>>, ticks: usize, hide_nand: bool)
    -> (r: Trace)
    requires
        old(c).wf(),
        ticks <= inputs@.len(),
        forall|t: int| 0 <= t < ticks ==> (#[trigger] inputs@[t])@.len() == arity_in(old(c).model()),
    ensures
        final(c).wf(),
        final(c).model() == run(old(c).model(), inputs_model(inputs@), ticks as nat),
        decls_model(r.declarations@) == declarations(trail(old(c).model(), hide_nand)),
        r.initial@ == initial_values(declarations(trail(old(c).model(), hide_nand))),
        r.initial_clock == Bit::L,
        r.ticks@.len() == ticks,
        forall|t: int|
            0 <= t < ticks ==> {
                &&& (#[trigger] r.ticks@[t]).changes@ == changes(
                    trail(run(old(c).model(), inputs_model(inputs@), (t + 1) as nat), hide_nand),
                )
                &&& r.ticks@[t].clock == clock_at(t as nat)
            },
{
    let ghost c0 = c.model();
    let ghost ins = inputs_model(inputs@);
    let steps = trace_steps(c, hide_nand);
    let declarations = declare(&steps);
    let initial = undefined_values(&declarations);
    let mut out: Vec<Tick> = Vec::new();
    let mut clk_on = true;
    let mut t: usize = 0;
    while t < ticks
        invariant
            0 <= t <= ticks,
            ticks <= inputs@.len(),
            ins == inputs_model(inputs@),
            forall|u: int| 0 <= u < ticks ==> (#[trigger] inputs@[u])@.len() == arity_in(c0),
            c.wf(),
            c.model() == run(c0, ins, t as nat),
            arity_in(c.model()) == arity_in(c0),
            clk_on == (t % 2 == 0),
            out@.len() == t,
            forall|u: int|
                0 <= u < t ==> {
                    &&& (#[trigger] out@[u]).changes@ == changes(
                        trail(run(c0, ins, (u + 1) as nat), hide_nand),
                    )
                    &&& out@[u].clock == clock_at(u as nat)
                },
        decreases ticks - t,
    {
        let _ = c.update(inputs[t].as_slice());
        proof {
            assert(ins[t as int] == inputs@[t as int]@);
        }
        let s = trace_steps(c, hide_nand);
        let values = emit(&s);
        let clock = if clk_on {
            Bit::H
        } else {
            Bit::L
        };
        out.push(Tick { changes: values, clock });
        clk_on = !clk_on;
        t += 1;
    }
    Trace { declarations, initial, initial_clock: Bit::L, ticks: out }
}

} // verus!
