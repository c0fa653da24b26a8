use vstd::prelude::*;

use crate::bit::Bit;
use crate::circuit::{copy_bits, lemma_record_model, lemma_records_model, records_model, CompIo, Component};
use crate::model::{comp_name, CompModel, RecordModel};

verus! {

/// The identity of one trace signal: an instance number, one per visited
/// record, and a port ordinal, inputs first and then outputs.
#[derive(Debug, PartialEq, Eq, Structural, Clone, Copy, Hash)]
pub struct InstanceIndex {
    pub instance_id: usize,
    pub port_id: usize,
}

impl InstanceIndex {
    pub fn new(instance_id: usize, port_id: usize) -> (r: Self)
        ensures
            r.instance_id == instance_id,
            r.port_id == port_id,
    {
        Self { instance_id, port_id }
    }
}

/// One record met by the traversal, with the values of its ports.
#[derive(Debug)]
pub struct Visit {
    pub instance: usize,
    pub name: String,
    pub inputs: Vec<Bit>,
    pub outputs: Vec<Bit>,
}

/// A step of the traversal: a record is entered, with its nested records
/// following, or the most recently entered record is left.
#[derive(Debug)]
pub enum Step {
    Enter(Visit),
    Leave,
}

pub struct VisitModel {
    pub instance: usize,
    pub name: Seq<char>,
    pub inputs: Seq<Bit>,
    pub outputs: Seq<Bit>,
}

pub enum StepModel {
    Enter(VisitModel),
    Leave,
}

impl Step {
    pub open spec fn model(&self) -> StepModel {
        match self {
            Step::Enter(v) => StepModel::Enter(
                VisitModel {
                    instance: v.instance,
                    name: v.name@,
                    inputs: v.inputs@,
                    outputs: v.outputs@,
                },
            ),
            Step::Leave => StepModel::Leave,
        }
    }
}

pub open spec fn steps_model(s: Seq<Step>) -> Seq<StepModel> {
    s.map_values(|x: Step| x.model())
}

/// Whether the trace leaves out records holding `g`: universal gates are
/// left out when `hide_nand` is set.
pub open spec fn hidden(g: CompModel, hide_nand: bool) -> bool {
    hide_nand && g is Nand
}

/// The steps of the records nested in `c`, numbered from `j`, and the next
/// free instance number.
pub open spec fn comp_trail(c: CompModel, j: nat, hide_nand: bool) -> (Seq<StepModel>, nat)
    decreases c, 0int,
{
    match c {
        CompModel::Circuit(m) => records_trail(m.records, m.records.len() as int, j, hide_nand),
        _ => (Seq::empty(), j),
    }
}

/// The steps of records `1 .. n` of `recs`, numbered from `j`, and the next
/// free instance number.
pub open spec fn records_trail(recs: Seq<RecordModel>, n: int, j: nat, hide_nand: bool) -> (Seq<
    StepModel,
>, nat)
    decreases recs, n,
{
    if n <= 1 || n > recs.len() {
        (Seq::empty(), j)
    } else {
        let prev = records_trail(recs, n - 1, j, hide_nand);
        let r = recs[n - 1];
        match r.gate {
            Some(g) => {
                if hidden(g, hide_nand) {
                    prev
                } else {
                    let inner = comp_trail(g, prev.1 + 1, hide_nand);
                    let v = VisitModel {
                        instance: prev.1 as usize,
                        name: comp_name(g),
                        inputs: r.input,
                        outputs: r.output,
                    };
                    (prev.0 + seq![StepModel::Enter(v)] + inner.0 + seq![StepModel::Leave], inner.1)
                }
            },
            None => prev,
        }
    }
}

/// The whole traversal of a root component: for a circuit, its boundary as
/// instance 0 (external inputs as its inputs, external outputs as its
/// outputs) enclosing every visible record at every depth; nothing for a
/// leaf gate.
pub open spec fn trail(c: CompModel, hide_nand: bool) -> Seq<StepModel> {
    match c {
        CompModel::Circuit(m) => {
            let root = VisitModel {
                instance: 0,
                name: m.name,
                inputs: m.records[0].output,
                outputs: m.records[0].input,
            };
            seq![StepModel::Enter(root)] + records_trail(
                m.records,
                m.records.len() as int,
                1,
                hide_nand,
            ).0 + seq![StepModel::Leave]
        },
        _ => Seq::empty(),
    }
}

/// Appends the steps of the records nested in `c`.
fn comp_trail_into(c: &Component, j: &mut usize, hide_nand: bool, out: &mut Vec<Step>)
    requires
        *old(j) <= old(out)@.len(),
    ensures
        steps_model(final(out)@) == steps_model(old(out)@) + comp_trail(
            c.model(),
            *old(j) as nat,
            hide_nand,
        ).0,
        *final(j) == comp_trail(c.model(), *old(j) as nat, hide_nand).1,
        *final(j) <= final(out)@.len(),
    decreases c.model(), 1int,
{
    match c {
        Component::Circuit(b) => {
            let recs = b.components_ref();
            proof {
                lemma_records_model(recs@);
                assert(c.model() == CompModel::Circuit(b.model()));
                let cm = c.model();
                assert(decreases_to!(cm => cm->Circuit_0));
                assert(decreases_to!(cm->Circuit_0 => cm->Circuit_0.records));
            }
            records_trail_into(recs, j, hide_nand, out);
        },
        _ => {
            proof {
                assert(steps_model(out@) =~= steps_model(out@) + Seq::<StepModel>::empty());
            }
        },
    }
}

/// Appends the steps of records `1 ..` of `recs`.
fn records_trail_into(recs: &Vec<CompIo>, j: &mut usize, hide_nand: bool, out: &mut Vec<Step>)
    requires
        *old(j) <= old(out)@.len(),
    ensures
        steps_model(final(out)@) == steps_model(old(out)@) + records_trail(
            records_model(recs@),
            recs@.len() as int,
            *old(j) as nat,
            hide_nand,
        ).0,
        *final(j) == records_trail(
            records_model(recs@),
            recs@.len() as int,
            *old(j) as nat,
            hide_nand,
        ).1,
        *final(j) <= final(out)@.len(),
    decreases records_model(recs@), 0int,
{
    proof {
        lemma_records_model(recs@);
    }
    let ghost m = records_model(recs@);
    let ghost j0 = *j as nat;
    let ghost out0 = steps_model(out@);
    let n = recs.len();
    let mut k: usize = 1;
    proof {
        assert(steps_model(out@) =~= out0 + records_trail(m, 1, j0, hide_nand).0);
    }
    while k < n
        invariant
            1 <= k,
            k <= n || n == 0,
            n == recs@.len(),
            m == records_model(recs@),
            m.len() == n,
            forall|i: int| 0 <= i < n ==> #[trigger] m[i] == recs@[i].model(),
            steps_model(out@) == out0 + records_trail(m, k as int, j0, hide_nand).0,
            *j == records_trail(m, k as int, j0, hide_nand).1,
            *j <= out@.len(),
        decreases n - k,
    {
        let r = &recs[k];
        proof {
            lemma_record_model(r);
        }
        match &r.comp {
            Some(g) => {
                let hide = hide_nand && match g {
                    Component::Nand(_) => true,
                    _ => false,
                };
                if !hide {
                    let ghost before = steps_model(out@);
                    let v = Visit {
                        instance: *j,
                        name: g.name().to_owned(),
                        inputs: copy_bits(r.input.as_slice()),
                        outputs: copy_bits(r.output.as_slice()),
                    };
                    out.push(Step::Enter(v));
                    // Reading the length bounds it by `usize::MAX`, which bounds the counters.
                    let _len = out.len();
                    *j = *j + 1;
                    proof {
                        assert(steps_model(out@) =~= before + seq![steps_model(out@).last()]);
                        assert(decreases_to!(m => m[k as int]));
                        assert(decreases_to!(m[k as int] => m[k as int].gate));
                        assert(m[k as int].gate == Some(g.model()));
                        assert(decreases_to!(m[k as int].gate => m[k as int].gate->0));
                    }
                    comp_trail_into(g, j, hide_nand, out);
                    let ghost after_inner = steps_model(out@);
                    out.push(Step::Leave);
                    proof {
                        assert(steps_model(out@) =~= after_inner.push(StepModel::Leave));
                        assert(steps_model(out@) =~= out0 + records_trail(
                            m,
                            k + 1,
                            j0,
                            hide_nand,
                        ).0);
                    }
                }
            },
            None => {},
        }
        k += 1;
    }
}

/// The whole traversal of `c`.
pub fn trace_steps(c: &Component, hide_nand: bool) -> (r: Vec<Step>)
    requires
        c.wf(),
    ensures
        steps_model(r@) == trail(c.model(), hide_nand),
{
    let mut out: Vec<Step> = Vec::new();
    match c {
        Component::Circuit(b) => {
            let recs = b.components_ref();
            proof {
                lemma_records_model(recs@);
                lemma_record_model(&recs@[0]);
            }
            let root = Visit {
                instance: 0,
                name: b.name().to_owned(),
                inputs: copy_bits(recs[0].output.as_slice()),
                outputs: copy_bits(recs[0].input.as_slice()),
            };
            out.push(Step::Enter(root));
            let mut j: usize = 1;
            records_trail_into(recs, &mut j, hide_nand, &mut out);
            let ghost before = steps_model(out@);
            out.push(Step::Leave);
            proof {
                assert(steps_model(out@) =~= before.push(StepModel::Leave));
                assert(steps_model(out@) =~= trail(c.model(), hide_nand));
            }
        },
        _ => {
            proof {
                assert(steps_model(out@) =~= Seq::<StepModel>::empty());
            }
        },
    }
    out
}

/// The decimal digits of `n`, most significant first.
pub open spec fn decimal(n: nat) -> Seq<char>
    decreases n,
{
    let digit = seq!['0', '1', '2', '3', '4', '5', '6', '7', '8', '9'][(n % 10) as int];
    if n < 10 {
        seq![digit]
    } else {
        decimal(n / 10) + seq![digit]
    }
}

/// Relies on `format!` writing a `usize` through `{}` as its decimal digits,
/// with no sign and no padding.
#[verifier::external_body]
fn with_number(prefix: &str, sep: &str, n: usize) -> (r: String)
    ensures
        r@ == prefix@ + sep@ + decimal(n as nat),
{
    format!("{}{}{}", prefix, sep, n)
}

/// One declaration of the trace header.
#[derive(Debug, PartialEq, Eq)]
pub enum Declaration {
    /// Opens a named scope.
    Scope(String),
    /// Declares a one-bit signal with its identity and name.
    Wire(InstanceIndex, String),
    /// Closes the innermost open scope.
    Upscope,
}

pub enum DeclModel {
    Scope(Seq<char>),
    Wire(InstanceIndex, Seq<char>),
    Upscope,
}

impl Declaration {
    pub open spec fn model(&self) -> DeclModel {
        match self {
            Declaration::Scope(s) => DeclModel::Scope(s@),
            Declaration::Wire(id, s) => DeclModel::Wire(*id, s@),
            Declaration::Upscope => DeclModel::Upscope,
        }
    }
}

pub open spec fn decls_model(d: Seq<Declaration>) -> Seq<DeclModel> {
    d.map_values(|x: Declaration| x.model())
}

/// The scope name of a visited record: `{name}-{instance}`.
pub open spec fn instance_name(v: VisitModel) -> Seq<char> {
    v.name + "-"@ + decimal(v.instance as nat)
}

/// The signals of a visited record: `{scope}-i{n}` for each input, then
/// `{scope}-o{n}` for each output, with port ordinals counting on.
pub open spec fn port_wires(v: VisitModel) -> Seq<DeclModel> {
    Seq::new(
        v.inputs.len(),
        |p: int|
            DeclModel::Wire(
                InstanceIndex { instance_id: v.instance, port_id: p as usize },
                instance_name(v) + "-i"@ + decimal(p as nat),
            ),
    ) + Seq::new(
        v.outputs.len(),
        |q: int|
            DeclModel::Wire(
                InstanceIndex { instance_id: v.instance, port_id: (v.inputs.len() + q) as usize },
                instance_name(v) + "-o"@ + decimal(q as nat),
            ),
    )
}

pub open spec fn step_declarations(s: StepModel) -> Seq<DeclModel> {
    match s {
        StepModel::Enter(v) => seq![DeclModel::Scope(instance_name(v))] + port_wires(v),
        StepModel::Leave => seq![DeclModel::Upscope],
    }
}

/// The declaration pass over a traversal.
pub open spec fn declarations(steps: Seq<StepModel>) -> Seq<DeclModel>
    decreases steps.len(),
{
    if steps.len() == 0 {
        Seq::empty()
    } else {
        declarations(steps.drop_last()) + step_declarations(steps.last())
    }
}

/// A new value of one signal.
#[derive(Debug, PartialEq, Eq, Structural, Clone, Copy)]
pub struct SignalChange {
    pub id: InstanceIndex,
    pub value: Bit,
}

/// The values of a visited record's ports: inputs, then outputs.
pub open spec fn visit_changes(v: VisitModel) -> Seq<SignalChange> {
    Seq::new(
        v.inputs.len(),
        |p: int|
            SignalChange {
                id: InstanceIndex { instance_id: v.instance, port_id: p as usize },
                value: v.inputs[p],
            },
    ) + Seq::new(
        v.outputs.len(),
        |q: int|
            SignalChange {
                id: InstanceIndex { instance_id: v.instance, port_id: (v.inputs.len() + q) as usize },
                value: v.outputs[q],
            },
    )
}

pub open spec fn step_changes(s: StepModel) -> Seq<SignalChange> {
    match s {
        StepModel::Enter(v) => visit_changes(v),
        StepModel::Leave => Seq::empty(),
    }
}

/// The emission pass over a traversal.
pub open spec fn changes(steps: Seq<StepModel>) -> Seq<SignalChange>
    decreases steps.len(),
{
    if steps.len() == 0 {
        Seq::empty()
    } else {
        changes(steps.drop_last()) + step_changes(steps.last())
    }
}

/// The declaration pass: a scope per visited record with a signal per port,
/// closed after the records nested in it.
pub fn declare(steps: &Vec<Step>) -> (r: Vec<Declaration>)
    ensures
        decls_model(r@) == declarations(steps_model(steps@)),
{
    let mut out: Vec<Declaration> = Vec::new();
    let mut i: usize = 0;
    while i < steps.len()
        invariant
            0 <= i <= steps@.len(),
            decls_model(out@) == declarations(steps_model(steps@).take(i as int)),
        decreases steps@.len() - i,
    {
        let ghost before = decls_model(out@);
        match &steps[i] {
            Step::Enter(v) => {
                let ghost vm = VisitModel {
                    instance: v.instance,
                    name: v.name@,
                    inputs: v.inputs@,
                    outputs: v.outputs@,
                };
                let scope = with_number(v.name.as_str(), "-", v.instance);
                out.push(Declaration::Scope(scope.clone()));
                let ghost base = out@.len();
                let mut port: usize = 0;
                let mut p: usize = 0;
                while p < v.inputs.len()
                    invariant
                        0 <= p <= v.inputs@.len(),
                        port == p,
                        vm.instance == v.instance,
                        vm.inputs == v.inputs@,
                        vm.outputs == v.outputs@,
                        out@.len() == base + p,
                        scope@ == instance_name(vm),
                        decls_model(out@) == before + seq![DeclModel::Scope(instance_name(vm))]
                            + port_wires(vm).take(p as int),
                    decreases v.inputs@.len() - p,
                {
                    let name = with_number(scope.as_str(), "-i", p);
                    let ghost prev = decls_model(out@);
                    let ghost d = DeclModel::Wire(InstanceIndex { instance_id: v.instance, port_id: p }, name@);
                    out.push(Declaration::Wire(InstanceIndex::new(v.instance, port), name));
                    proof {
                        assert(port_wires(vm)[p as int] == d);
                        assert(decls_model(out@) =~= prev.push(d));
                        assert(port_wires(vm).take(p + 1) =~= port_wires(vm).take(p as int).push(d));
                        assert(decls_model(out@) =~= before + seq![
                            DeclModel::Scope(instance_name(vm)),
                        ] + port_wires(vm).take(p + 1));
                    }
                    // Reading the length bounds it by `usize::MAX`, which bounds the counters.
                    let _len = out.len();
                    port += 1;
                    p += 1;
                }
                let mut q: usize = 0;
                while q < v.outputs.len()
                    invariant
                        0 <= q <= v.outputs@.len(),
                        port == v.inputs@.len() + q,
                        vm.instance == v.instance,
                        vm.inputs == v.inputs@,
                        vm.outputs == v.outputs@,
                        out@.len() == base + port,
                        base >= 1,
                        scope@ == instance_name(vm),
                        decls_model(out@) == before + seq![DeclModel::Scope(instance_name(vm))]
                            + port_wires(vm).take((v.inputs@.len() + q) as int),
                    decreases v.outputs@.len() - q,
                {
                    let name = with_number(scope.as_str(), "-o", q);
                    let ghost prev = decls_model(out@);
                    let ghost d = DeclModel::Wire(InstanceIndex { instance_id: v.instance, port_id: port }, name@);
                    out.push(Declaration::Wire(InstanceIndex::new(v.instance, port), name));
                    proof {
                        let k = v.inputs@.len() + q;
                        assert(port_wires(vm)[k] == d);
                        assert(decls_model(out@) =~= prev.push(d));
                        assert(port_wires(vm).take(k + 1) =~= port_wires(vm).take(k).push(d));
                        assert(decls_model(out@) =~= before + seq![
                            DeclModel::Scope(instance_name(vm)),
                        ] + port_wires(vm).take((v.inputs@.len() + q + 1) as int));
                    }
                    // Reading the length bounds it by `usize::MAX`, which bounds the counters.
                    let _len = out.len();
                    port += 1;
                    q += 1;
                }
                proof {
                    assert(port_wires(vm).take((v.inputs@.len() + v.outputs@.len()) as int) =~= port_wires(
                        vm,
                    ));
                }
            },
            Step::Leave => {
                out.push(Declaration::Upscope);
            },
        }
        proof {
            let s = steps_model(steps@);
            assert(s.take(i + 1).drop_last() =~= s.take(i as int));
            assert(decls_model(out@) =~= before + step_declarations(s[i as int]));
        }
        i += 1;
    }
    proof {
        assert(steps_model(steps@).take(steps@.len() as int) =~= steps_model(steps@));
    }
    out
}

/// The emission pass: the current value of every port of every visited
/// record, in traversal order.
pub fn emit(steps: &Vec<Step>) -> (r: Vec<SignalChange>)
    ensures
        r@ == changes(steps_model(steps@)),
{
    let mut out: Vec<SignalChange> = Vec::new();
    let mut i: usize = 0;
    while i < steps.len()
        invariant
            0 <= i <= steps@.len(),
            out@ == changes(steps_model(steps@).take(i as int)),
        decreases steps@.len() - i,
    {
        let ghost before = out@;
        match &steps[i] {
            Step::Enter(v) => {
                let ghost vm = VisitModel {
                    instance: v.instance,
                    name: v.name@,
                    inputs: v.inputs@,
                    outputs: v.outputs@,
                };
                let ghost base = out@.len();
                let mut port: usize = 0;
                let mut p: usize = 0;
                while p < v.inputs.len()
                    invariant
                        0 <= p <= v.inputs@.len(),
                        port == p,
                        vm.instance == v.instance,
                        vm.inputs == v.inputs@,
                        vm.outputs == v.outputs@,
                        out@.len() == base + p,
                        out@ == before + visit_changes(vm).take(p as int),
                    decreases v.inputs@.len() - p,
                {
                    let ghost prev = out@;
                    out.push(SignalChange { id: InstanceIndex::new(v.instance, port), value: v.inputs[p] });
                    proof {
                        assert(visit_changes(vm)[p as int] == out@.last());
                        assert(visit_changes(vm).take(p + 1) =~= visit_changes(vm).take(p as int).push(out@.last()));
                        assert(out@ =~= before + visit_changes(vm).take(p + 1));
                    }
                    // Reading the length bounds it by `usize::MAX`, which bounds the counters.
                    let _len = out.len();
                    port += 1;
                    p += 1;
                }
                let mut q: usize = 0;
                while q < v.outputs.len()
                    invariant
                        0 <= q <= v.outputs@.len(),
                        port == v.inputs@.len() + q,
                        vm.instance == v.instance,
                        vm.inputs == v.inputs@,
                        vm.outputs == v.outputs@,
                        out@.len() == base + port,
                        out@ == before + visit_changes(vm).take((v.inputs@.len() + q) as int),
                    decreases v.outputs@.len() - q,
                {
                    let ghost prev = out@;
                    out.push(SignalChange { id: InstanceIndex::new(v.instance, port), value: v.outputs[q] });
                    proof {
                        let k = v.inputs@.len() + q;
                        assert(visit_changes(vm)[k] == out@.last());
                        assert(visit_changes(vm).take(k + 1) =~= visit_changes(vm).take(k).push(out@.last()));
                        assert(out@ =~= before + visit_changes(vm).take((v.inputs@.len() + q + 1) as int));
                    }
                    // Reading the length bounds it by `usize::MAX`, which bounds the counters.
                    let _len = out.len();
                    port += 1;
                    q += 1;
                }
                proof {
                    assert(visit_changes(vm).take((v.inputs@.len() + v.outputs@.len()) as int) =~= visit_changes(vm));
                }
            },
            Step::Leave => {},
        }
        proof {
            let s = steps_model(steps@);
            assert(s.take(i + 1).drop_last() =~= s.take(i as int));
            assert(out@ =~= before + step_changes(s[i as int]));
        }
        i += 1;
    }
    proof {
        assert(steps_model(steps@).take(steps@.len() as int) =~= steps_model(steps@));
    }
    out
}

} // verus!
