use vstd::prelude::*;

use crate::bit::Bit;
use crate::model::{
    comp_name, undefined, unwired,
    arity_in, arity_out, circuit_step, comp_step, comp_wf, drive, drive_all, drive_outputs,
    evaluate_upto, inject, propagate, propagate_upto, record_shape, CircuitModel, CompModel, Index,
    RecordModel,
};
use crate::nand::Nand;
use crate::or2::Or2;

verus! {

/// A component that can be evaluated: a leaf gate or a nested circuit.
pub enum Component {
    Nand(Nand),
    Or2(Or2),
    Circuit(Box<Composite>),
}

/// A component together with its current input and output vectors and its
/// fan-out: for each output slot, the input slots that it drives. The
/// boundary record of a circuit holds no component.
pub struct CompIo {
    pub(crate) comp: Option<Component>,
    pub(crate) input: Vec<Bit>,
    pub(crate) output: Vec<Bit>,
    pub(crate) connections: Vec<Vec<Index>>,
}

/// A circuit made of wired records. Record 0 is the boundary: its output
/// holds the circuit's external inputs and its input the external outputs.
pub struct Composite {
    components: Vec<CompIo>,
    num_inputs: usize,
    num_outputs: usize,
    name: String,
}

impl Component {
    pub open spec fn model(&self) -> CompModel
        decreases self,
    {
        match self {
            Component::Nand(g) => CompModel::Nand(g.arity()),
            Component::Or2(_) => CompModel::Or2,
            Component::Circuit(b) => CompModel::Circuit(b.model()),
        }
    }

    pub open spec fn wf(&self) -> bool {
        comp_wf(self.model())
    }
}

impl CompIo {
    pub closed spec fn model(&self) -> RecordModel
        decreases self,
    {
        RecordModel {
            gate: match self.comp {
                Some(c) => Some(c.model()),
                None => None,
            },
            input: self.input@,
            output: self.output@,
            wires: self.connections@.map_values(|v: Vec<Index>| v@),
        }
    }
}

/// `n` undefined values.
fn undefined_bits(n: usize) -> (r: Vec<Bit>)
    ensures
        r@ == undefined(n as nat),
{
    let mut r: Vec<Bit> = Vec::new();
    let mut i: usize = 0;
    while i < n
        invariant
            0 <= i <= n,
            r@ == undefined(i as nat),
        decreases n - i,
    {
        r.push(Bit::X);
        proof {
            assert(r@ =~= undefined((i + 1) as nat));
        }
        i += 1;
    }
    r
}

/// `n` empty fan-out lists.
fn no_connections(n: usize) -> (r: Vec<Vec<Index>>)
    ensures
        r@.map_values(|v: Vec<Index>| v@) == unwired(n as nat),
        r@.len() == n,
{
    let mut r: Vec<Vec<Index>> = Vec::new();
    let mut i: usize = 0;
    while i < n
        invariant
            0 <= i <= n,
            r@.len() == i,
            forall|j: int| 0 <= j < i ==> (#[trigger] r@[j])@ == Seq::<Index>::empty(),
        decreases n - i,
    {
        r.push(Vec::new());
        i += 1;
    }
    proof {
        assert(r@.map_values(|v: Vec<Index>| v@) =~= unwired(n as nat));
    }
    r
}

impl CompIo {
    /// A record for `comp`, with undefined inputs and outputs and no wires.
    pub fn new(comp: Component) -> (r: Self)
        requires
            comp.wf(),
        ensures
            r.model() == (RecordModel {
                gate: Some(comp.model()),
                input: undefined(arity_in(comp.model())),
                output: undefined(arity_out(comp.model())),
                wires: unwired(arity_out(comp.model())),
            }),
    {
        let input = undefined_bits(comp.num_inputs());
        let output = undefined_bits(comp.num_outputs());
        let connections = no_connections(comp.num_outputs());
        Self { comp: Some(comp), input, output, connections }
    }

    /// The boundary record of a circuit with the given external arities:
    /// its output carries the external inputs and its input the external
    /// outputs.
    pub fn c_zero(num_inputs: usize, num_outputs: usize) -> (r: Self)
        ensures
            r.model() == (RecordModel {
                gate: None,
                input: undefined(num_outputs as nat),
                output: undefined(num_inputs as nat),
                wires: unwired(num_inputs as nat),
            }),
    {
        let input = undefined_bits(num_outputs);
        let output = undefined_bits(num_inputs);
        let connections = no_connections(num_inputs);
        Self { comp: None, input, output, connections }
    }

    /// Wires output slot `output_id` of this record to the input slot `to`.
    pub fn add_connection(&mut self, output_id: usize, to: Index)
        requires
            output_id < old(self).model().wires.len(),
        ensures
            final(self).model() == (RecordModel {
                wires: old(self).model().wires.update(
                    output_id as int,
                    old(self).model().wires[output_id as int].push(to),
                ),
                ..old(self).model()
            }),
    {
        let list = &mut self.connections[output_id];
        list.push(to);
        proof {
            assert(self.connections@.map_values(|v: Vec<Index>| v@) =~= old(self).model().wires.update(
                output_id as int,
                old(self).model().wires[output_id as int].push(to),
            ));
        }
    }

    /// Whether this record is a boundary record for a circuit with the
    /// given external arities.
    pub fn fits_boundary(&self, num_inputs: usize, num_outputs: usize) -> (r: bool)
        ensures
            r == ({
                &&& self.model().gate is None
                &&& self.model().input.len() == num_outputs
                &&& self.model().output.len() == num_inputs
                &&& self.model().wires.len() == num_inputs
            }),
    {
        self.comp.is_none() && self.input.len() == num_outputs && self.output.len() == num_inputs
            && self.connections.len() == num_inputs
    }
}

/// What the model of a record says of its component and port values.
pub(crate) proof fn lemma_record_model(r: &CompIo)
    ensures
        r.model().gate == (match r.comp {
            Some(c) => Some(c.model()),
            None => None,
        }),
        r.model().input == r.input@,
        r.model().output == r.output@,
{
}

/// The models of a sequence of records.
pub closed spec fn records_model(v: Seq<CompIo>) -> Seq<RecordModel>
    decreases v,
{
    if v.len() == 0 {
        Seq::empty()
    } else {
        records_model(v.subrange(0, v.len() - 1)).push(v[v.len() - 1].model())
    }
}

pub proof fn lemma_records_model(v: Seq<CompIo>)
    ensures
        records_model(v).len() == v.len(),
        forall|i: int| 0 <= i < v.len() ==> #[trigger] records_model(v)[i] == v[i].model(),
    decreases v.len(),
{
    if v.len() > 0 {
        lemma_records_model(v.subrange(0, v.len() - 1));
    }
}

impl Composite {
    pub closed spec fn model(&self) -> CircuitModel
        decreases self,
    {
        CircuitModel {
            records: records_model(self.components@),
            num_inputs: self.num_inputs as nat,
            num_outputs: self.num_outputs as nat,
            name: self.name@,
        }
    }
}

/// `b` differs from `a` at most in the values held by input vectors.
spec fn same_but_inputs(a: Seq<CompIo>, b: Seq<CompIo>) -> bool {
    &&& b.len() == a.len()
    &&& forall|k: int|
        0 <= k < a.len() ==> {
            &&& (#[trigger] b[k]).comp == a[k].comp
            &&& b[k].output == a[k].output
            &&& b[k].connections == a[k].connections
            &&& b[k].input@.len() == a[k].input@.len()
        }
}

/// Drives `v` into the slot that `w` ends in; a wire to no slot drives
/// nothing.
fn drive_exec(recs: &mut Vec<CompIo>, w: Index, v: Bit)
    ensures
        records_model(final(recs)@) == drive(records_model(old(recs)@), w, v),
        same_but_inputs(old(recs)@, final(recs)@),
{
    proof {
        lemma_records_model(old(recs)@);
    }
    if w.comp_id < recs.len() && w.input_id < recs[w.comp_id].input.len() {
        let r = &mut recs[w.comp_id];
        r.input.set(w.input_id, v);
        proof {
            lemma_records_model(recs@);
            let a = records_model(recs@);
            let b = drive(records_model(old(recs)@), w, v);
            assert(a.len() == b.len());
            assert forall|i: int| 0 <= i < a.len() implies a[i] == b[i] by {
                if i == w.comp_id as int {
                    assert(a[i].wires =~= b[i].wires);
                }
            }
            assert(a =~= b);
        }
    }
}

/// Propagation of record `c`: each of its output values is copied into the
/// input slots that its wires reach.
fn propagate_from(recs: &mut Vec<CompIo>, c: usize)
    requires
        c < old(recs)@.len(),
        old(recs)@[c as int].output@.len() == old(recs)@[c as int].connections@.len(),
    ensures
        records_model(final(recs)@) == propagate(records_model(old(recs)@), c as int),
        same_but_inputs(old(recs)@, final(recs)@),
{
    proof {
        lemma_records_model(recs@);
    }
    let ghost m0 = records_model(recs@);
    let ghost ws = m0[c as int].wires;
    let ghost vs = m0[c as int].output;
    let n_out = recs[c].connections.len();
    let mut o: usize = 0;
    while o < n_out
        invariant
            0 <= o <= n_out,
            n_out == ws.len(),
            ws == m0[c as int].wires,
            vs == m0[c as int].output,
            m0 == records_model(old(recs)@),
            c < old(recs)@.len(),
            old(recs)@[c as int].output@.len() == old(recs)@[c as int].connections@.len(),
            old(recs)@[c as int].model() == m0[c as int],
            same_but_inputs(old(recs)@, recs@),
            records_model(recs@) == drive_outputs(m0, ws.take(o as int), vs),
        decreases n_out - o,
    {
        let n_t = recs[c].connections[o].len();
        let ghost before = records_model(recs@);
        let mut t: usize = 0;
        while t < n_t
            invariant
                0 <= t <= n_t,
                o < n_out,
                n_out == ws.len(),
                n_t == ws[o as int].len(),
                ws == m0[c as int].wires,
                vs == m0[c as int].output,
                c < old(recs)@.len(),
                old(recs)@[c as int].output@.len() == old(recs)@[c as int].connections@.len(),
                old(recs)@[c as int].model() == m0[c as int],
                same_but_inputs(old(recs)@, recs@),
                records_model(recs@) == drive_all(before, ws[o as int].take(t as int), vs[o as int]),
            decreases n_t - t,
        {
            let w = recs[c].connections[o][t];
            let v = recs[c].output[o];
            drive_exec(recs, w, v);
            proof {
                assert(ws[o as int].take(t + 1).drop_last() =~= ws[o as int].take(t as int));
            }
            t += 1;
        }
        proof {
            assert(ws[o as int].take(n_t as int) =~= ws[o as int]);
            assert(ws.take(o + 1).drop_last() =~= ws.take(o as int));
        }
        o += 1;
    }
    proof {
        assert(ws.take(n_out as int) =~= ws);
    }
}

/// Every record's output vector is as long as its fan-out table.
spec fn outputs_fit(recs: Seq<CompIo>) -> bool {
    forall|k: int|
        0 <= k < recs.len() ==> (#[trigger] recs[k]).output@.len() == recs[k].connections@.len()
}

/// The propagate phase: records `1 .. n` propagate in order.
fn propagate_signals(recs: &mut Vec<CompIo>)
    requires
        outputs_fit(old(recs)@),
    ensures
        records_model(final(recs)@) == propagate_upto(
            records_model(old(recs)@),
            old(recs)@.len() as int,
        ),
        same_but_inputs(old(recs)@, final(recs)@),
{
    let n = recs.len();
    let mut c: usize = 1;
    while c < n
        invariant
            1 <= c,
            c <= n || n == 0,
            n == old(recs)@.len(),
            outputs_fit(old(recs)@),
            same_but_inputs(old(recs)@, recs@),
            records_model(recs@) == propagate_upto(records_model(old(recs)@), c as int),
        decreases n - c,
    {
        propagate_from(recs, c);
        c += 1;
    }
}

/// A copy of a slice of values.
pub(crate) fn copy_bits(s: &[Bit]) -> (r: Vec<Bit>)
    ensures
        r@ == s@,
{
    let mut r: Vec<Bit> = Vec::new();
    let mut i: usize = 0;
    while i < s.len()
        invariant
            0 <= i <= s@.len(),
            r@ == s@.take(i as int),
        decreases s@.len() - i,
    {
        r.push(s[i]);
        proof {
            assert(s@.take(i + 1) =~= s@.take(i as int).push(s@[i as int]));
        }
        i += 1;
    }
    proof {
        assert(s@.take(s@.len() as int) =~= s@);
    }
    r
}

/// The inject phase: the external inputs become the boundary's output,
/// then the boundary propagates.
fn propagate_input(recs: &mut Vec<CompIo>, input: &[Bit])
    requires
        old(recs)@.len() >= 1,
        input@.len() == old(recs)@[0].connections@.len(),
    ensures
        records_model(final(recs)@) == inject(records_model(old(recs)@), input@),
        final(recs)@.len() == old(recs)@.len(),
        final(recs)@[0].output@ == input@,
        forall|k: int|
            0 <= k < old(recs)@.len() ==> {
                &&& (#[trigger] final(recs)@[k]).comp == old(recs)@[k].comp
                &&& k != 0 ==> final(recs)@[k].output == old(recs)@[k].output
                &&& final(recs)@[k].connections == old(recs)@[k].connections
                &&& final(recs)@[k].input@.len() == old(recs)@[k].input@.len()
            },
{
    let v = copy_bits(input);
    let r = &mut recs[0];
    r.output = v;
    proof {
        lemma_records_model(old(recs)@);
        lemma_records_model(recs@);
        let a = records_model(recs@);
        let m = records_model(old(recs)@);
        let b = m.update(0, RecordModel { output: input@, ..m[0] });
        assert(a.len() == b.len());
        assert forall|i: int| 0 <= i < a.len() implies a[i] == b[i] by {
            if i == 0 {
                assert(a[i].wires =~= b[i].wires);
            }
        }
        assert(a =~= b);
    }
    propagate_from(recs, 0);
}

/// The evaluate phase: each gate of records `1 ..` is run on the input it
/// holds now, and its result is stored as its output; nothing propagates.
/// `orig` holds the gates as they stood before the tick.
fn update_components(recs: &mut Vec<CompIo>, Ghost(orig): Ghost<Seq<RecordModel>>)
    requires
        old(recs)@.len() >= 1,
        orig.len() == old(recs)@.len(),
        forall|k: int|
            1 <= k < orig.len() ==> {
                &&& (#[trigger] orig[k]).gate is Some
                &&& orig[k].gate == old(recs)@[k].model().gate
                &&& comp_wf(orig[k].gate->0)
                &&& old(recs)@[k].input@.len() == arity_in(orig[k].gate->0)
            },
    ensures
        records_model(final(recs)@) == evaluate_upto(
            orig,
            records_model(old(recs)@),
            orig.len() as int,
        ),
        final(recs)@.len() == old(recs)@.len(),
        final(recs)@[0] == old(recs)@[0],
        forall|k: int|
            0 <= k < orig.len() ==> {
                &&& (#[trigger] final(recs)@[k]).input == old(recs)@[k].input
                &&& final(recs)@[k].connections == old(recs)@[k].connections
            },
        forall|k: int|
            1 <= k < orig.len() ==> {
                &&& (#[trigger] final(recs)@[k]).comp is Some
                &&& final(recs)@[k].comp->0.wf()
                &&& arity_in(final(recs)@[k].comp->0.model()) == arity_in(orig[k].gate->0)
                &&& arity_out(final(recs)@[k].comp->0.model()) == arity_out(orig[k].gate->0)
                &&& final(recs)@[k].output@.len() == arity_out(orig[k].gate->0)
            },
    decreases orig,
{
    let n = recs.len();
    let ghost start = recs@;
    let mut k: usize = 1;
    while k < n
        invariant
            1 <= k <= n,
            n == orig.len(),
            n == start.len(),
            recs@.len() == n,
            start == old(recs)@,
            records_model(recs@) == evaluate_upto(orig, records_model(start), k as int),
            recs@[0] == start[0],
            forall|j: int|
                1 <= j < orig.len() ==> {
                    &&& (#[trigger] orig[j]).gate is Some
                    &&& orig[j].gate == start[j].model().gate
                    &&& comp_wf(orig[j].gate->0)
                    &&& start[j].input@.len() == arity_in(orig[j].gate->0)
                },
            forall|j: int| k <= j < n ==> #[trigger] recs@[j] == start[j],
            forall|j: int|
                0 <= j < n ==> {
                    &&& (#[trigger] recs@[j]).input == start[j].input
                    &&& recs@[j].connections == start[j].connections
                },
            forall|j: int|
                1 <= j < k ==> {
                    &&& (#[trigger] recs@[j]).comp is Some
                    &&& recs@[j].comp->0.wf()
                    &&& arity_in(recs@[j].comp->0.model()) == arity_in(orig[j].gate->0)
                    &&& arity_out(recs@[j].comp->0.model()) == arity_out(orig[j].gate->0)
                    &&& recs@[j].output@.len() == arity_out(orig[j].gate->0)
                },
        decreases n - k,
    {
        let ghost prev = recs@;
        proof {
            lemma_records_model(prev);
            lemma_records_model(start);
            assert(start[k as int].model().gate == orig[k as int].gate);
            assert(prev[k as int] == start[k as int]);
            assert(prev[k as int].comp is Some);
        }
        let inp = copy_bits(recs[k].input.as_slice());
        let r = &mut recs[k];
        match &mut r.comp {
            Some(g) => {
                proof {
                    assert(decreases_to!(orig => orig[k as int]));
                    assert(decreases_to!(orig[k as int] => orig[k as int].gate));
                    assert(decreases_to!(orig[k as int].gate => orig[k as int].gate->0));
                }
                let out = g.update(inp.as_slice());
                r.output = out;
            },
            None => {},
        }
        proof {
            lemma_records_model(recs@);
            let a = records_model(recs@);
            let pm = records_model(prev);
            let res = comp_step(orig[k as int].gate->0, records_model(start)[k as int].input);
            let b = pm.update(
                k as int,
                RecordModel { gate: Some(res.0), output: res.1, ..pm[k as int] },
            );
            assert(a.len() == b.len());
            assert forall|i: int| 0 <= i < a.len() implies a[i] == b[i] by {
                if i == k as int {
                    assert(a[i].wires =~= b[i].wires);
                } else {
                    assert(recs@[i] == prev[i]);
                }
            }
            assert(a =~= b);
        }
        k += 1;
    }
}

impl Component {
    pub fn num_inputs(&self) -> (r: usize)
        ensures
            r == arity_in(self.model()),
    {
        match self {
            Component::Nand(g) => g.num_inputs(),
            Component::Or2(g) => g.num_inputs(),
            Component::Circuit(b) => b.num_inputs(),
        }
    }

    pub fn num_outputs(&self) -> (r: usize)
        ensures
            r == arity_out(self.model()),
    {
        match self {
            Component::Nand(g) => g.num_outputs(),
            Component::Or2(g) => g.num_outputs(),
            Component::Circuit(b) => b.num_outputs(),
        }
    }

    pub fn name(&self) -> (r: &str)
        ensures
            r@ == comp_name(self.model()),
    {
        match self {
            Component::Nand(g) => g.name(),
            Component::Or2(g) => g.name(),
            Component::Circuit(b) => b.name(),
        }
    }

    /// Evaluates the component on `input`: its new value and outputs are
    /// those of `comp_step`.
    pub fn update(&mut self, input: &[Bit]) -> (r: Vec<Bit>)
        requires
            old(self).wf(),
            input@.len() == arity_in(old(self).model()),
        ensures
            final(self).wf(),
            (final(self).model(), r@) == comp_step(old(self).model(), input@),
            arity_in(final(self).model()) == arity_in(old(self).model()),
            arity_out(final(self).model()) == arity_out(old(self).model()),
            r@.len() == arity_out(old(self).model()),
        decreases old(self).model(),
    {
        match self {
            Component::Nand(g) => g.update(input),
            Component::Or2(g) => g.update(input),
            Component::Circuit(b) => {
                proof {
                    assert(decreases_to!(old(self).model() => b.model()));
                }
                b.update(input)
            },
        }
    }
}

impl Composite {
    pub open spec fn wf(&self) -> bool {
        comp_wf(CompModel::Circuit(self.model()))
    }

    /// A circuit from its records: record 0 must be the boundary record for
    /// the given external arities and every other record a gate.
    pub fn new(components: Vec<CompIo>, num_inputs: usize, num_outputs: usize, name: &str) -> (r:
        Self)
        requires
            comp_wf(
                CompModel::Circuit(
                    CircuitModel {
                        records: records_model(components@),
                        num_inputs: num_inputs as nat,
                        num_outputs: num_outputs as nat,
                        name: name@,
                    },
                ),
            ),
        ensures
            r.wf(),
            r.model() == (CircuitModel {
                records: records_model(components@),
                num_inputs: num_inputs as nat,
                num_outputs: num_outputs as nat,
                name: name@,
            }),
    {
        let name = name.to_owned();
        Self { components, num_inputs, num_outputs, name }
    }

    /// The records of this circuit.
    pub fn components_ref(&self) -> (r: &Vec<CompIo>)
        ensures
            records_model(r@) == self.model().records,
    {
        &self.components
    }

    pub fn num_inputs(&self) -> (r: usize)
        ensures
            r == self.model().num_inputs,
    {
        self.num_inputs
    }

    pub fn num_outputs(&self) -> (r: usize)
        ensures
            r == self.model().num_outputs,
    {
        self.num_outputs
    }

    pub fn name(&self) -> (r: &str)
        ensures
            r@ == self.model().name,
    {
        self.name.as_str()
    }

    /// The external outputs: the boundary record's input.
    fn output(&self) -> (r: Vec<Bit>)
        requires
            self.components@.len() >= 1,
        ensures
            r@ == self.model().records[0].input,
    {
        proof {
            lemma_records_model(self.components@);
        }
        copy_bits(self.components[0].input.as_slice())
    }

    /// One tick: inject the external inputs, evaluate every gate from the
    /// values that stood before, then propagate. Returns the external
    /// outputs.
    pub fn update(&mut self, input: &[Bit]) -> (r: Vec<Bit>)
        requires
            old(self).wf(),
            input@.len() == old(self).model().num_inputs,
        ensures
            final(self).wf(),
            (final(self).model(), r@) == circuit_step(old(self).model(), input@),
            final(self).model().num_inputs == old(self).model().num_inputs,
            final(self).model().num_outputs == old(self).model().num_outputs,
            r@.len() == old(self).model().num_outputs,
        decreases old(self).model(),
    {
        let ghost m = self.model();
        proof {
            lemma_records_model(self.components@);
            assert(record_shape(m, 0));
        }
        propagate_input(&mut self.components, input);
        proof {
            lemma_records_model(self.components@);
            assert forall|k: int| 1 <= k < m.records.len() implies {
                &&& (#[trigger] m.records[k]).gate is Some
                &&& m.records[k].gate == self.components@[k].model().gate
                &&& comp_wf(m.records[k].gate->0)
                &&& self.components@[k].input@.len() == arity_in(m.records[k].gate->0)
            } by {
                assert(record_shape(m, k));
            }
            assert(decreases_to!(m => m.records));
        }
        update_components(&mut self.components, Ghost(m.records));
        proof {
            lemma_records_model(self.components@);
            assert forall|k: int| 0 <= k < self.components@.len() implies (
            #[trigger] self.components@[k]).output@.len()
                == self.components@[k].connections@.len() by {
                assert(record_shape(m, k));
            }
        }
        propagate_signals(&mut self.components);
        let r = self.output();
        proof {
            lemma_records_model(self.components@);
            let f = self.model();
            assert forall|k: int| 0 <= k < f.records.len() implies #[trigger] record_shape(f, k) by {
                assert(record_shape(m, k));
                assert(f.records[k].wires.len() == m.records[k].wires.len());
            }
            assert forall|k: int|
                1 <= k < f.records.len() && f.records[k].gate is Some implies comp_wf(
                #[trigger] f.records[k].gate->0,
            ) by {}
        }
        r
    }
}

} // verus!
