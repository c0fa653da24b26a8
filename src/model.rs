use vstd::prelude::*;

use crate::bit::{nand_of, or_of, Bit};

verus! {

/// The destination of one wire: an input slot of a record.
#[derive(Debug, PartialEq, Eq, Structural, Clone, Copy)]
pub struct Index {
    pub comp_id: usize,
    pub input_id: usize,
}

impl Index {
    pub fn new(comp_id: usize, input_id: usize) -> (r: Self)
        ensures
            r.comp_id == comp_id,
            r.input_id == input_id,
    {
        Self { comp_id, input_id }
    }
}

/// `n` undefined values.
pub open spec fn undefined(n: nat) -> Seq<Bit> {
    Seq::new(n, |i: int| Bit::X)
}

/// `n` empty fan-out lists.
pub open spec fn unwired(n: nat) -> Seq<Seq<Index>> {
    Seq::new(n, |i: int| Seq::<Index>::empty())
}

/// The mathematical value of a component.
pub enum CompModel {
    /// A universal gate with the given number of inputs.
    Nand(nat),
    /// The two-input disjunction gate.
    Or2,
    /// A composite circuit.
    Circuit(CircuitModel),
}

/// The mathematical value of a wired record. `gate` is `None` for the
/// boundary record, whose output stands for the circuit's external inputs
/// and whose input stands for its external outputs.
pub struct RecordModel {
    pub gate: Option<CompModel>,
    pub input: Seq<Bit>,
    pub output: Seq<Bit>,
    pub wires: Seq<Seq<Index>>,
}

/// The mathematical value of a composite circuit.
pub struct CircuitModel {
    pub records: Seq<RecordModel>,
    pub num_inputs: nat,
    pub num_outputs: nat,
    pub name: Seq<char>,
}

pub open spec fn arity_in(c: CompModel) -> nat {
    match c {
        CompModel::Nand(n) => n,
        CompModel::Or2 => 2,
        CompModel::Circuit(m) => m.num_inputs,
    }
}

pub open spec fn arity_out(c: CompModel) -> nat {
    match c {
        CompModel::Nand(_) => 1,
        CompModel::Or2 => 1,
        CompModel::Circuit(m) => m.num_outputs,
    }
}

/// The shape of one record inside a circuit: the boundary at index 0 and
/// gates elsewhere, vector lengths matching arities, wires landing in
/// A wire that ends in no existing slot is never driven.
pub open spec fn record_shape(m: CircuitModel, k: int) -> bool {
    let r = m.records[k];
    if k == 0 {
        &&& r.gate is None
        &&& r.input.len() == m.num_outputs
        &&& r.output.len() == m.num_inputs
        &&& r.wires.len() == m.num_inputs
    } else {
        &&& r.gate is Some
        &&& r.input.len() == arity_in(r.gate->0)
        &&& r.output.len() == arity_out(r.gate->0)
        &&& r.wires.len() == arity_out(r.gate->0)
    }
}

/// The display name of a component.
pub open spec fn comp_name(c: CompModel) -> Seq<char> {
    match c {
        CompModel::Nand(_) => "NAND"@,
        CompModel::Or2 => "OR2"@,
        CompModel::Circuit(m) => m.name,
    }
}

/// Well-formedness of a component, nested circuits included.
pub open spec fn comp_wf(c: CompModel) -> bool
    decreases c,
{
    match c {
        CompModel::Nand(_) => true,
        CompModel::Or2 => true,
        CompModel::Circuit(m) => {
            &&& m.records.len() >= 1
            &&& forall|k: int| 0 <= k < m.records.len() ==> #[trigger] record_shape(m, k)
            &&& forall|k: int|
                1 <= k < m.records.len() && m.records[k].gate is Some ==> comp_wf(
                    #[trigger] m.records[k].gate->0,
                )
        },
    }
}

/// Drives value `v` into the slot that wire `w` ends in.
pub open spec fn drive(recs: Seq<RecordModel>, w: Index, v: Bit) -> Seq<RecordModel> {
    if w.comp_id < recs.len() && w.input_id < recs[w.comp_id as int].input.len() {
        let r = recs[w.comp_id as int];
        recs.update(
            w.comp_id as int,
            RecordModel { input: r.input.update(w.input_id as int, v), ..r },
        )
    } else {
        recs
    }
}

/// Drives `v` along each of `targets`, in order.
pub open spec fn drive_all(recs: Seq<RecordModel>, targets: Seq<Index>, v: Bit) -> Seq<
    RecordModel,
>
    decreases targets.len(),
{
    if targets.len() == 0 {
        recs
    } else {
        drive(drive_all(recs, targets.drop_last(), v), targets.last(), v)
    }
}

/// Drives output slot `o` of `vals` along `wires[o]`, for each `o` in order.
pub open spec fn drive_outputs(
    recs: Seq<RecordModel>,
    wires: Seq<Seq<Index>>,
    vals: Seq<Bit>,
) -> Seq<RecordModel>
    decreases wires.len(),
{
    if wires.len() == 0 {
        recs
    } else {
        let o = wires.len() - 1;
        drive_all(drive_outputs(recs, wires.drop_last(), vals), wires[o], vals[o])
    }
}

/// Propagation of record `c`: its output values copied into every input
/// slot that its wires reach.
pub open spec fn propagate(recs: Seq<RecordModel>, c: int) -> Seq<RecordModel> {
    drive_outputs(recs, recs[c].wires, recs[c].output)
}

/// Propagation of records `1 .. n`, in order.
pub open spec fn propagate_upto(recs: Seq<RecordModel>, n: int) -> Seq<RecordModel>
    decreases n,
{
    if n <= 1 {
        recs
    } else {
        propagate(propagate_upto(recs, n - 1), n - 1)
    }
}

/// The inject phase: the external inputs become the boundary's output,
/// then the boundary propagates.
pub open spec fn inject(recs: Seq<RecordModel>, input: Seq<Bit>) -> Seq<RecordModel> {
    propagate(recs.update(0, RecordModel { output: input, ..recs[0] }), 0)
}

/// The evaluate phase for records `1 .. n`: each gate of `orig` is run on
/// the input that `cur` holds for it, and nothing is propagated.
pub open spec fn evaluate_upto(orig: Seq<RecordModel>, cur: Seq<RecordModel>, n: int) -> Seq<
    RecordModel,
>
    decreases orig, n,
{
    if n <= 1 || n > orig.len() {
        cur
    } else {
        let prev = evaluate_upto(orig, cur, n - 1);
        let k = n - 1;
        match orig[k].gate {
            Some(g) => {
                let res = comp_step(g, cur[k].input);
                prev.update(k, RecordModel { gate: Some(res.0), output: res.1, ..prev[k] })
            },
            None => prev,
        }
    }
}

/// One tick of a composite circuit: inject, evaluate, propagate. The
/// external outputs are the boundary record's input after propagation.
pub open spec fn circuit_step(m: CircuitModel, input: Seq<Bit>) -> (CircuitModel, Seq<Bit>)
    decreases m, 0int,
{
    let n = m.records.len() as int;
    let injected = inject(m.records, input);
    let evaluated = evaluate_upto(m.records, injected, n);
    let propagated = propagate_upto(evaluated, n);
    (CircuitModel { records: propagated, ..m }, propagated[0].input)
}

/// One evaluation of a component: its new value and its outputs.
pub open spec fn comp_step(c: CompModel, input: Seq<Bit>) -> (CompModel, Seq<Bit>)
    decreases c, 0int,
{
    match c {
        CompModel::Nand(_) => (c, seq![nand_of(input)]),
        CompModel::Or2 => (c, seq![or_of(input[0], input[1])]),
        CompModel::Circuit(m) => {
            let res = circuit_step(m, input);
            (CompModel::Circuit(res.0), res.1)
        },
    }
}

} // verus!
