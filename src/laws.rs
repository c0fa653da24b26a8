use vstd::prelude::*;

use crate::bit::{nand_of, or_of, Bit};
use crate::model::{
    arity_in, arity_out, circuit_step, comp_name, comp_step, comp_wf, drive, drive_all,
    drive_outputs, evaluate_upto, inject, propagate_upto, record_shape, CircuitModel, CompModel,
    Index, RecordModel,
};
use crate::driver::run;
use crate::trace::{
    changes, comp_trail, declarations, hidden, records_trail, step_changes, step_declarations,
    trail, visit_changes, DeclModel, InstanceIndex, SignalChange, StepModel, VisitModel,
};

verus! {

/// Truth table of the universal gate: the output is High exactly when some
/// input is Low, Undefined exactly when no input is Low and some input is
/// Undefined, and Low exactly when every input is High; with no inputs it
/// is Low.
pub proof fn lemma_nand_truth_table(input: Seq<Bit>)
    ensures
        nand_of(input) == Bit::H <==> exists|i: int| 0 <= i < input.len() && input[i] == Bit::L,
        nand_of(input) == Bit::X <==> (forall|i: int| 0 <= i < input.len() ==> input[i] != Bit::L)
            && exists|i: int| 0 <= i < input.len() && input[i] == Bit::X,
        nand_of(input) == Bit::L <==> forall|i: int| 0 <= i < input.len() ==> input[i] == Bit::H,
        input.len() == 0 ==> nand_of(input) == Bit::L,
{
    if forall|i: int| 0 <= i < input.len() ==> input[i] == Bit::H {
        assert(!exists|i: int| 0 <= i < input.len() && input[i] == Bit::L);
        assert(!exists|i: int| 0 <= i < input.len() && input[i] == Bit::X);
    } else {
        let i = choose|i: int| 0 <= i < input.len() && input[i] != Bit::H;
        assert(input[i] == Bit::L || input[i] == Bit::X);
    }
}

/// Disjunction built from universal gates, `NOT(a) NAND NOT(b)`, is the
/// tristate disjunction; on defined values it is the ordinary OR table.
pub proof fn lemma_or_from_nands(a: Bit, b: Bit)
    ensures
        nand_of(seq![nand_of(seq![a]), nand_of(seq![b])]) == or_of(a, b),
        or_of(Bit::L, Bit::L) == Bit::L,
        or_of(Bit::L, Bit::H) == Bit::H,
        or_of(Bit::H, Bit::L) == Bit::H,
        or_of(Bit::H, Bit::H) == Bit::H,
{
    let na = nand_of(seq![a]);
    let nb = nand_of(seq![b]);
    assert(seq![a][0] == a);
    assert(seq![b][0] == b);
    assert(seq![na, nb][0] == na);
    assert(seq![na, nb][1] == nb);
}

/// Driving a wire changes input values only.
proof fn lemma_drive_frame(recs: Seq<RecordModel>, w: Index, v: Bit)
    ensures
        drive(recs, w, v).len() == recs.len(),
        forall|k: int|
            0 <= k < recs.len() ==> {
                &&& (#[trigger] drive(recs, w, v)[k]).output == recs[k].output
                &&& drive(recs, w, v)[k].gate == recs[k].gate
                &&& drive(recs, w, v)[k].wires == recs[k].wires
                &&& drive(recs, w, v)[k].input.len() == recs[k].input.len()
            },
{
}

/// Output values, gates, wires and input lengths of `b` are those of `a`.
pub open spec fn same_frame(a: Seq<RecordModel>, b: Seq<RecordModel>) -> bool {
    &&& b.len() == a.len()
    &&& forall|k: int|
        0 <= k < a.len() ==> {
            &&& (#[trigger] b[k]).output == a[k].output
            &&& b[k].gate == a[k].gate
            &&& b[k].wires == a[k].wires
            &&& b[k].input.len() == a[k].input.len()
        }
}

proof fn lemma_drive_all_frame(recs: Seq<RecordModel>, targets: Seq<Index>, v: Bit)
    ensures
        same_frame(recs, drive_all(recs, targets, v)),
    decreases targets.len(),
{
    if targets.len() > 0 {
        lemma_drive_all_frame(recs, targets.drop_last(), v);
        lemma_drive_frame(drive_all(recs, targets.drop_last(), v), targets.last(), v);
    }
}

proof fn lemma_drive_outputs_frame(
    recs: Seq<RecordModel>,
    wires: Seq<Seq<Index>>,
    vals: Seq<Bit>,
)
    ensures
        same_frame(recs, drive_outputs(recs, wires, vals)),
    decreases wires.len(),
{
    if wires.len() > 0 {
        let o = wires.len() - 1;
        lemma_drive_outputs_frame(recs, wires.drop_last(), vals);
        lemma_drive_all_frame(drive_outputs(recs, wires.drop_last(), vals), wires[o], vals[o]);
    }
}

/// Propagation changes input values only.
pub proof fn lemma_propagate_frame(recs: Seq<RecordModel>, n: int)
    ensures
        same_frame(recs, propagate_upto(recs, n)),
    decreases n,
{
    if n > 1 {
        lemma_propagate_frame(recs, n - 1);
        let p = propagate_upto(recs, n - 1);
        lemma_drive_outputs_frame(p, p[n - 1].wires, p[n - 1].output);
    }
}

/// The phase that runs the gates sets record `k`'s component and output from
/// `orig` and the input held in `cur`, and leaves the rest.
proof fn lemma_evaluate_at(orig: Seq<RecordModel>, cur: Seq<RecordModel>, n: int, k: int)
    requires
        orig.len() == cur.len(),
        n <= orig.len(),
        0 <= k < orig.len(),
    ensures
        evaluate_upto(orig, cur, n).len() == cur.len(),
        evaluate_upto(orig, cur, n)[k].input == cur[k].input,
        evaluate_upto(orig, cur, n)[k].wires == cur[k].wires,
        (1 <= k < n && orig[k].gate is Some) ==> {
            let res = comp_step(orig[k].gate->0, cur[k].input);
            &&& evaluate_upto(orig, cur, n)[k].output == res.1
            &&& evaluate_upto(orig, cur, n)[k].gate == Some(res.0)
        },
        !(1 <= k < n && orig[k].gate is Some) ==> evaluate_upto(orig, cur, n)[k] == cur[k],
    decreases n,
{
    if n > 1 {
        lemma_evaluate_at(orig, cur, n - 1, k);
    }
}

/// Ordering invariant: after a tick, every gate record's output is its
/// gate's result on the input that the record held once the external
/// inputs were injected, before any gate of that tick was evaluated. No
/// output computed in the same tick reaches it.
pub proof fn lemma_outputs_from_injected_inputs(m: CircuitModel, input: Seq<Bit>, k: int)
    requires
        comp_wf(CompModel::Circuit(m)),
        1 <= k < m.records.len(),
    ensures
        circuit_step(m, input).0.records[k].output == comp_step(
            m.records[k].gate->0,
            inject(m.records, input)[k].input,
        ).1,
{
    let n = m.records.len() as int;
    let r0 = m.records[0];
    let recs0 = m.records.update(0, RecordModel { output: input, ..r0 });
    lemma_drive_outputs_frame(recs0, recs0[0].wires, recs0[0].output);
    let injected = inject(m.records, input);
    assert(record_shape(m, k));
    lemma_evaluate_at(m.records, injected, n, k);
    let evaluated = evaluate_upto(m.records, injected, n);
    lemma_propagate_frame(evaluated, n);
}

/// Idempotence under constant input: for a leaf gate, or for a circuit that
/// has settled (a tick with `input` leaves it as it was), a second tick with
/// the same input gives the same outputs and the same state again.
pub proof fn lemma_settled_repeat(c: CompModel, input: Seq<Bit>)
    requires
        c is Nand || c is Or2 || comp_step(c, input).0 == c,
    ensures
        comp_step(comp_step(c, input).0, input) == comp_step(c, input),
{
}

/// The identities of the signals that a sequence of declarations declares.
pub open spec fn declared_ids(d: Seq<DeclModel>) -> Set<InstanceIndex> {
    Set::new(|id: InstanceIndex| exists|i: int| 0 <= i < d.len() && d[i] == DeclModel::Wire(id, #[trigger] d[i]->Wire_1))
}

/// The identities of the signals that a sequence of changes writes.
pub open spec fn changed_ids(c: Seq<SignalChange>) -> Set<InstanceIndex> {
    Set::new(|id: InstanceIndex| exists|i: int| 0 <= i < c.len() && (#[trigger] c[i]).id == id)
}

proof fn lemma_declared_concat(a: Seq<DeclModel>, b: Seq<DeclModel>)
    ensures
        declared_ids(a + b) == declared_ids(a).union(declared_ids(b)),
{
    let ab = a + b;
    assert forall|id: InstanceIndex| declared_ids(ab).contains(id) implies declared_ids(a).union(
        declared_ids(b),
    ).contains(id) by {
        let i = choose|i: int| 0 <= i < ab.len() && ab[i] == DeclModel::Wire(id, #[trigger] ab[i]->Wire_1);
        if i < a.len() {
            assert(a[i] == ab[i]);
        } else {
            assert(b[i - a.len()] == ab[i]);
        }
    }
    assert forall|id: InstanceIndex| declared_ids(a).union(declared_ids(b)).contains(id) implies declared_ids(ab).contains(id) by {
        if declared_ids(a).contains(id) {
            let i = choose|i: int| 0 <= i < a.len() && a[i] == DeclModel::Wire(id, #[trigger] a[i]->Wire_1);
            assert(ab[i] == a[i]);
        } else {
            let i = choose|i: int| 0 <= i < b.len() && b[i] == DeclModel::Wire(id, #[trigger] b[i]->Wire_1);
            assert(ab[a.len() + i] == b[i]);
        }
    }
    assert(declared_ids(ab) =~= declared_ids(a).union(declared_ids(b)));
}

proof fn lemma_changed_concat(a: Seq<SignalChange>, b: Seq<SignalChange>)
    ensures
        changed_ids(a + b) == changed_ids(a).union(changed_ids(b)),
{
    let ab = a + b;
    assert forall|id: InstanceIndex| changed_ids(ab).contains(id) implies changed_ids(a).union(
        changed_ids(b),
    ).contains(id) by {
        let i = choose|i: int| 0 <= i < ab.len() && (#[trigger] ab[i]).id == id;
        if i < a.len() {
            assert(a[i] == ab[i]);
        } else {
            assert(b[i - a.len()] == ab[i]);
        }
    }
    assert forall|id: InstanceIndex| changed_ids(a).union(changed_ids(b)).contains(id) implies changed_ids(ab).contains(id) by {
        if changed_ids(a).contains(id) {
            let i = choose|i: int| 0 <= i < a.len() && (#[trigger] a[i]).id == id;
            assert(ab[i] == a[i]);
        } else {
            let i = choose|i: int| 0 <= i < b.len() && (#[trigger] b[i]).id == id;
            assert(ab[a.len() + i] == b[i]);
        }
    }
    assert(changed_ids(ab) =~= changed_ids(a).union(changed_ids(b)));
}

proof fn lemma_step_ids(s: StepModel)
    ensures
        declared_ids(step_declarations(s)) == changed_ids(step_changes(s)),
{
    let d = step_declarations(s);
    let c = step_changes(s);
    match s {
        StepModel::Enter(v) => {
            assert forall|id: InstanceIndex| declared_ids(d).contains(id) implies changed_ids(c).contains(id) by {
                let i = choose|i: int| 0 <= i < d.len() && d[i] == DeclModel::Wire(id, #[trigger] d[i]->Wire_1);
                assert(i >= 1);
                assert(c[i - 1].id == id);
            }
            assert forall|id: InstanceIndex| changed_ids(c).contains(id) implies declared_ids(d).contains(id) by {
                let i = choose|i: int| 0 <= i < c.len() && (#[trigger] c[i]).id == id;
                assert(d[i + 1] == DeclModel::Wire(id, d[i + 1]->Wire_1));
            }
            assert(declared_ids(d) =~= changed_ids(c));
        },
        StepModel::Leave => {
            assert(declared_ids(d) =~= changed_ids(c));
        },
    }
}

/// Trace identity bijection for one traversal: the declaration pass
/// declares exactly the identities that the emission pass writes.
pub proof fn lemma_declared_ids_are_emitted(steps: Seq<StepModel>)
    ensures
        declared_ids(declarations(steps)) == changed_ids(changes(steps)),
    decreases steps.len(),
{
    if steps.len() == 0 {
        assert(declared_ids(declarations(steps)) =~= changed_ids(changes(steps)));
    } else {
        lemma_declared_ids_are_emitted(steps.drop_last());
        lemma_declared_concat(declarations(steps.drop_last()), step_declarations(steps.last()));
        lemma_changed_concat(changes(steps.drop_last()), step_changes(steps.last()));
        lemma_step_ids(steps.last());
    }
}

/// `b` has the structure of `a`: the same kinds of component, arities,
/// records and vector lengths, whatever values they hold.
pub open spec fn same_shape(a: CompModel, b: CompModel) -> bool
    decreases a,
{
    match a {
        CompModel::Nand(n) => b == CompModel::Nand(n),
        CompModel::Or2 => b is Or2,
        CompModel::Circuit(m) => {
            &&& b is Circuit
            &&& b->Circuit_0.num_inputs == m.num_inputs
            &&& b->Circuit_0.num_outputs == m.num_outputs
            &&& b->Circuit_0.records.len() == m.records.len()
            &&& forall|k: int|
                0 <= k < m.records.len() ==> #[trigger] same_record_shape(
                    m.records[k],
                    b->Circuit_0.records[k],
                )
            &&& forall|k: int|
                0 <= k < m.records.len() && m.records[k].gate is Some ==> same_shape(
                    #[trigger] m.records[k].gate->0,
                    b->Circuit_0.records[k].gate->0,
                )
        },
    }
}

pub open spec fn same_record_shape(a: RecordModel, b: RecordModel) -> bool {
    &&& (a.gate is Some <==> b.gate is Some)
    &&& a.input.len() == b.input.len()
    &&& a.output.len() == b.output.len()
}

/// What of a traversal step the signal identities depend on.
pub open spec fn step_shape(s: StepModel) -> Option<(usize, nat, nat)> {
    match s {
        StepModel::Enter(v) => Some((v.instance, v.inputs.len(), v.outputs.len())),
        StepModel::Leave => None,
    }
}

pub open spec fn trail_shape(s: Seq<StepModel>) -> Seq<Option<(usize, nat, nat)>> {
    s.map_values(|x: StepModel| step_shape(x))
}

proof fn lemma_trail_shape_concat(a: Seq<StepModel>, b: Seq<StepModel>)
    ensures
        trail_shape(a + b) == trail_shape(a) + trail_shape(b),
{
    assert(trail_shape(a + b) =~= trail_shape(a) + trail_shape(b));
}

proof fn lemma_shape_comp_trail(a: CompModel, b: CompModel, j: nat, hide_nand: bool)
    requires
        same_shape(a, b),
    ensures
        comp_trail(a, j, hide_nand).1 == comp_trail(b, j, hide_nand).1,
        trail_shape(comp_trail(a, j, hide_nand).0) == trail_shape(comp_trail(b, j, hide_nand).0),
    decreases a, 0int,
{
    match a {
        CompModel::Circuit(m) => {
            let m2 = b->Circuit_0;
            lemma_shape_records_trail(m.records, m2.records, m.records.len() as int, j, hide_nand);
        },
        _ => {},
    }
}

proof fn lemma_shape_records_trail(
    r1: Seq<RecordModel>,
    r2: Seq<RecordModel>,
    n: int,
    j: nat,
    hide_nand: bool,
)
    requires
        r1.len() == r2.len(),
        forall|k: int| 0 <= k < r1.len() ==> #[trigger] same_record_shape(r1[k], r2[k]),
        forall|k: int|
            0 <= k < r1.len() && r1[k].gate is Some ==> same_shape(
                #[trigger] r1[k].gate->0,
                r2[k].gate->0,
            ),
    ensures
        records_trail(r1, n, j, hide_nand).1 == records_trail(r2, n, j, hide_nand).1,
        trail_shape(records_trail(r1, n, j, hide_nand).0) == trail_shape(
            records_trail(r2, n, j, hide_nand).0,
        ),
    decreases r1, n,
{
    if n <= 1 || n > r1.len() {
    } else {
        lemma_shape_records_trail(r1, r2, n - 1, j, hide_nand);
        let k = n - 1;
        assert(same_record_shape(r1[k], r2[k]));
        let p1 = records_trail(r1, n - 1, j, hide_nand);
        let p2 = records_trail(r2, n - 1, j, hide_nand);
        match r1[k].gate {
            Some(g1) => {
                let g2 = r2[k].gate->0;
                assert(same_shape(g1, g2));
                assert(hidden(g1, hide_nand) == hidden(g2, hide_nand));
                if !hidden(g1, hide_nand) {
                    assert(decreases_to!(r1 => r1[k]));
                    assert(decreases_to!(r1[k] => r1[k].gate));
                    assert(decreases_to!(r1[k].gate => g1));
                    lemma_shape_comp_trail(g1, g2, p1.1 + 1, hide_nand);
                    let i1 = comp_trail(g1, p1.1 + 1, hide_nand);
                    let i2 = comp_trail(g2, p2.1 + 1, hide_nand);
                    let e1 = seq![
                        StepModel::Enter(
                            VisitModel {
                                instance: p1.1 as usize,
                                name: comp_name(g1),
                                inputs: r1[k].input,
                                outputs: r1[k].output,
                            },
                        ),
                    ];
                    let e2 = seq![
                        StepModel::Enter(
                            VisitModel {
                                instance: p2.1 as usize,
                                name: comp_name(g2),
                                inputs: r2[k].input,
                                outputs: r2[k].output,
                            },
                        ),
                    ];
                    let l = seq![StepModel::Leave];
                    lemma_trail_shape_concat(p1.0, e1);
                    lemma_trail_shape_concat(p1.0 + e1, i1.0);
                    lemma_trail_shape_concat(p1.0 + e1 + i1.0, l);
                    lemma_trail_shape_concat(p2.0, e2);
                    lemma_trail_shape_concat(p2.0 + e2, i2.0);
                    lemma_trail_shape_concat(p2.0 + e2 + i2.0, l);
                    assert(trail_shape(e1) =~= trail_shape(e2));
                }
            },
            None => {},
        }
    }
}

/// A tick keeps the structure of a well-formed component and its
/// well-formedness, and yields as many outputs as the component has.
pub proof fn lemma_step_keeps_shape(c: CompModel, input: Seq<Bit>)
    requires
        comp_wf(c),
        input.len() == arity_in(c),
    ensures
        same_shape(c, comp_step(c, input).0),
        comp_wf(comp_step(c, input).0),
        comp_step(c, input).1.len() == arity_out(c),
    decreases c,
{
    match c {
        CompModel::Circuit(m) => {
            let n = m.records.len() as int;
            let r0 = m.records[0];
            let recs0 = m.records.update(0, RecordModel { output: input, ..r0 });
            lemma_drive_outputs_frame(recs0, recs0[0].wires, recs0[0].output);
            let injected = inject(m.records, input);
            let evaluated = evaluate_upto(m.records, injected, n);
            lemma_propagate_frame(evaluated, n);
            let f = circuit_step(m, input).0;
            assert(record_shape(m, 0));
            lemma_evaluate_at(m.records, injected, n, 0);
            assert(f.records.len() == n);
            assert forall|k: int| 0 <= k < n implies {
                &&& #[trigger] same_record_shape(m.records[k], f.records[k])
                &&& record_shape(f, k)
                &&& (m.records[k].gate is Some ==> same_shape(
                    m.records[k].gate->0,
                    f.records[k].gate->0,
                ))
                &&& (1 <= k && f.records[k].gate is Some ==> comp_wf(f.records[k].gate->0))
            } by {
                assert(record_shape(m, k));
                lemma_evaluate_at(m.records, injected, n, k);
                if k >= 1 {
                    let g = m.records[k].gate->0;
                    assert(decreases_to!(m.records => m.records[k]));
                    assert(decreases_to!(m.records[k] => m.records[k].gate));
                    assert(decreases_to!(m.records[k].gate => g));
                    lemma_step_keeps_shape(g, injected[k].input);
                }
            }
            assert forall|k: int|
                1 <= k < f.records.len() && f.records[k].gate is Some implies comp_wf(
                #[trigger] f.records[k].gate->0,
            ) by {
                assert(same_record_shape(m.records[k], f.records[k]));
            }
            assert forall|k: int| 0 <= k < f.records.len() implies #[trigger] record_shape(f, k) by {
                assert(same_record_shape(m.records[k], f.records[k]));
            }
            assert forall|k: int|
                0 <= k < m.records.len() && m.records[k].gate is Some implies same_shape(
                #[trigger] m.records[k].gate->0,
                f.records[k].gate->0,
            ) by {
                assert(same_record_shape(m.records[k], f.records[k]));
            }
        },
        _ => {},
    }
}

proof fn lemma_shape_trail(a: CompModel, b: CompModel, hide_nand: bool)
    requires
        same_shape(a, b),
        comp_wf(a),
    ensures
        trail_shape(trail(a, hide_nand)) == trail_shape(trail(b, hide_nand)),
{
    match a {
        CompModel::Circuit(m) => {
            let m2 = b->Circuit_0;
            let n = m.records.len() as int;
            lemma_shape_records_trail(m.records, m2.records, n, 1, hide_nand);
            assert(same_record_shape(m.records[0], m2.records[0]));
            let t1 = records_trail(m.records, n, 1, hide_nand).0;
            let t2 = records_trail(m2.records, n, 1, hide_nand).0;
            let e1 = seq![
                StepModel::Enter(
                    VisitModel {
                        instance: 0,
                        name: m.name,
                        inputs: m.records[0].output,
                        outputs: m.records[0].input,
                    },
                ),
            ];
            let e2 = seq![
                StepModel::Enter(
                    VisitModel {
                        instance: 0,
                        name: m2.name,
                        inputs: m2.records[0].output,
                        outputs: m2.records[0].input,
                    },
                ),
            ];
            let l = seq![StepModel::Leave];
            lemma_trail_shape_concat(e1, t1);
            lemma_trail_shape_concat(e1 + t1, l);
            lemma_trail_shape_concat(e2, t2);
            lemma_trail_shape_concat(e2 + t2, l);
            assert(trail_shape(e1) =~= trail_shape(e2));
        },
        _ => {
            assert(trail_shape(trail(a, hide_nand)) =~= trail_shape(trail(b, hide_nand)));
        },
    }
}

proof fn lemma_shape_changed_ids(s1: Seq<StepModel>, s2: Seq<StepModel>)
    requires
        trail_shape(s1) == trail_shape(s2),
    ensures
        changed_ids(changes(s1)) == changed_ids(changes(s2)),
    decreases s1.len(),
{
    assert(s1.len() == trail_shape(s1).len());
    if s1.len() == 0 {
        assert(s2.len() == trail_shape(s2).len());
    } else {
        assert(s2.len() == trail_shape(s2).len());
        assert(trail_shape(s1.drop_last()) =~= trail_shape(s1).drop_last());
        assert(trail_shape(s2.drop_last()) =~= trail_shape(s2).drop_last());
        lemma_shape_changed_ids(s1.drop_last(), s2.drop_last());
        lemma_changed_concat(changes(s1.drop_last()), step_changes(s1.last()));
        lemma_changed_concat(changes(s2.drop_last()), step_changes(s2.last()));
        let a = step_changes(s1.last());
        let b = step_changes(s2.last());
        assert(step_shape(s1.last()) == trail_shape(s1)[s1.len() - 1]);
        assert(step_shape(s2.last()) == trail_shape(s2)[s2.len() - 1]);
        assert(a.len() == b.len());
        assert forall|i: int| 0 <= i < a.len() implies a[i].id == b[i].id by {}
        assert forall|id: InstanceIndex| changed_ids(a).contains(id) implies changed_ids(b).contains(id) by {
            let i = choose|i: int| 0 <= i < a.len() && (#[trigger] a[i]).id == id;
            assert(b[i].id == id);
        }
        assert forall|id: InstanceIndex| changed_ids(b).contains(id) implies changed_ids(a).contains(id) by {
            let i = choose|i: int| 0 <= i < b.len() && (#[trigger] b[i]).id == id;
            assert(a[i].id == id);
        }
        assert(changed_ids(a) =~= changed_ids(b));
    }
}

proof fn lemma_run_keeps_shape(c: CompModel, inputs: Seq<Seq<Bit>>, t: nat, hide_nand: bool)
    requires
        comp_wf(c),
        forall|u: int| 0 <= u < t ==> (#[trigger] inputs[u]).len() == arity_in(c),
    ensures
        comp_wf(run(c, inputs, t)),
        arity_in(run(c, inputs, t)) == arity_in(c),
        trail_shape(trail(run(c, inputs, t), hide_nand)) == trail_shape(trail(c, hide_nand)),
    decreases t,
{
    if t > 0 {
        let t1 = (t - 1) as nat;
        lemma_run_keeps_shape(c, inputs, t1, hide_nand);
        let prev = run(c, inputs, t1);
        assert(inputs[t1 as int].len() == arity_in(c));
        lemma_step_keeps_shape(prev, inputs[t - 1]);
        lemma_shape_trail(prev, run(c, inputs, t), hide_nand);
        let next = run(c, inputs, t);
        assert(arity_in(next) == arity_in(prev)) by {
            match prev {
                CompModel::Circuit(_) => {},
                _ => {},
            }
        }
    }
}

/// Trace identity bijection: for a well-formed component, the identities
/// that the declaration pass declares before the first tick are exactly
/// those that the emission pass writes after any number of ticks, for any
/// choice of hidden gates.
pub proof fn lemma_trace_identity_bijection(
    c: CompModel,
    inputs: Seq<Seq<Bit>>,
    t: nat,
    hide_nand: bool,
)
    requires
        comp_wf(c),
        forall|u: int| 0 <= u < t ==> (#[trigger] inputs[u]).len() == arity_in(c),
    ensures
        declared_ids(declarations(trail(c, hide_nand))) == changed_ids(
            changes(trail(run(c, inputs, t), hide_nand)),
        ),
{
    lemma_run_keeps_shape(c, inputs, t, hide_nand);
    lemma_declared_ids_are_emitted(trail(c, hide_nand));
    lemma_shape_changed_ids(trail(run(c, inputs, t), hide_nand), trail(c, hide_nand));
}

/// The writes that driving `v` along `targets` performs, in order.
pub open spec fn writes_of(targets: Seq<Index>, v: Bit) -> Seq<(Index, Bit)> {
    targets.map_values(|t: Index| (t, v))
}

/// The writes that driving each output slot along its wires performs.
pub open spec fn output_writes(wires: Seq<Seq<Index>>, vals: Seq<Bit>) -> Seq<
    (Index, Bit),
>
    decreases wires.len(),
{
    if wires.len() == 0 {
        Seq::empty()
    } else {
        output_writes(wires.drop_last(), vals) + writes_of(wires.last(), vals[wires.len() - 1])
    }
}

/// The writes that propagation of records `1 .. n` performs.
pub open spec fn prop_writes(recs: Seq<RecordModel>, n: int) -> Seq<(Index, Bit)>
    decreases n,
{
    if n <= 1 {
        Seq::empty()
    } else {
        prop_writes(recs, n - 1) + output_writes(recs[n - 1].wires, recs[n - 1].output)
    }
}

/// Performs `ws` in order.
pub open spec fn apply_writes(recs: Seq<RecordModel>, ws: Seq<(Index, Bit)>) -> Seq<
    RecordModel,
>
    decreases ws.len(),
{
    if ws.len() == 0 {
        recs
    } else {
        drive(apply_writes(recs, ws.drop_last()), ws.last().0, ws.last().1)
    }
}

/// The value of the last write of `ws` into slot `s` of record `c`.
pub open spec fn last_write(ws: Seq<(Index, Bit)>, c: int, s: int) -> Option<Bit>
    decreases ws.len(),
{
    if ws.len() == 0 {
        None
    } else if ws.last().0.comp_id == c && ws.last().0.input_id == s {
        Some(ws.last().1)
    } else {
        last_write(ws.drop_last(), c, s)
    }
}

pub open spec fn slot_after(recs: Seq<RecordModel>, ws: Seq<(Index, Bit)>, c: int, s: int) -> Bit {
    match last_write(ws, c, s) {
        Some(b) => b,
        None => recs[c].input[s],
    }
}

proof fn lemma_apply_concat(
    recs: Seq<RecordModel>,
    a: Seq<(Index, Bit)>,
    b: Seq<(Index, Bit)>,
)
    ensures
        apply_writes(recs, a + b) == apply_writes(apply_writes(recs, a), b),
    decreases b.len(),
{
    if b.len() == 0 {
        assert(a + b =~= a);
    } else {
        assert((a + b).drop_last() =~= a + b.drop_last());
        lemma_apply_concat(recs, a, b.drop_last());
        assert((a + b).last() == b.last());
    }
}

proof fn lemma_drive_all_writes(recs: Seq<RecordModel>, t: Seq<Index>, v: Bit)
    ensures
        drive_all(recs, t, v) == apply_writes(recs, writes_of(t, v)),
    decreases t.len(),
{
    if t.len() > 0 {
        assert(writes_of(t, v).drop_last() =~= writes_of(t.drop_last(), v));
        lemma_drive_all_writes(recs, t.drop_last(), v);
    }
}

proof fn lemma_drive_outputs_writes(
    recs: Seq<RecordModel>,
    w: Seq<Seq<Index>>,
    vals: Seq<Bit>,
)
    ensures
        drive_outputs(recs, w, vals) == apply_writes(recs, output_writes(w, vals)),
    decreases w.len(),
{
    if w.len() > 0 {
        let o = w.len() - 1;
        lemma_drive_outputs_writes(recs, w.drop_last(), vals);
        lemma_drive_all_writes(drive_outputs(recs, w.drop_last(), vals), w[o], vals[o]);
        lemma_apply_concat(recs, output_writes(w.drop_last(), vals), writes_of(w[o], vals[o]));
    }
}

proof fn lemma_propagate_writes(recs: Seq<RecordModel>, n: int)
    requires
        n <= recs.len(),
    ensures
        propagate_upto(recs, n) == apply_writes(recs, prop_writes(recs, n)),
    decreases n,
{
    if n > 1 {
        lemma_propagate_writes(recs, n - 1);
        lemma_propagate_frame(recs, n - 1);
        let p = propagate_upto(recs, n - 1);
        assert(p[n - 1].wires == recs[n - 1].wires);
        lemma_drive_outputs_writes(p, p[n - 1].wires, p[n - 1].output);
        lemma_apply_concat(
            recs,
            prop_writes(recs, n - 1),
            output_writes(recs[n - 1].wires, recs[n - 1].output),
        );
    }
}

/// Performing writes changes input slots only, each to the last value
/// written into it.
proof fn lemma_apply_pointwise(recs: Seq<RecordModel>, ws: Seq<(Index, Bit)>)
    ensures
        same_frame(recs, apply_writes(recs, ws)),
        forall|c: int, s: int|
            0 <= c < recs.len() && 0 <= s < recs[c].input.len() ==> #[trigger] apply_writes(
                recs,
                ws,
            )[c].input[s] == slot_after(recs, ws, c, s),
    decreases ws.len(),
{
    if ws.len() > 0 {
        lemma_apply_pointwise(recs, ws.drop_last());
        let prev = apply_writes(recs, ws.drop_last());
        lemma_drive_frame(prev, ws.last().0, ws.last().1);
    }
}

proof fn lemma_prop_writes_eq(x: Seq<RecordModel>, y: Seq<RecordModel>, n: int)
    requires
        n <= x.len(),
        n <= y.len(),
        forall|k: int| 1 <= k < n ==> #[trigger] x[k] == y[k],
    ensures
        prop_writes(x, n) == prop_writes(y, n),
    decreases n,
{
    if n > 1 {
        lemma_prop_writes_eq(x, y, n - 1);
        assert(x[n - 1] == y[n - 1]);
    }
}

/// Every write of `ws` goes to the boundary record.
pub open spec fn to_boundary(ws: Seq<(Index, Bit)>) -> bool {
    forall|i: int| 0 <= i < ws.len() ==> (#[trigger] ws[i]).0.comp_id == 0
}

proof fn lemma_to_boundary_misses(ws: Seq<(Index, Bit)>, c: int, s: int)
    requires
        to_boundary(ws),
        c != 0,
    ensures
        last_write(ws, c, s) is None,
    decreases ws.len(),
{
    if ws.len() > 0 {
        assert(ws.last() == ws[ws.len() - 1]);
        assert(to_boundary(ws.drop_last()));
        lemma_to_boundary_misses(ws.drop_last(), c, s);
    }
}

/// Every gate of `m` is a leaf and every wire of a gate ends at the boundary.
pub open spec fn flat(m: CircuitModel) -> bool {
    &&& forall|k: int|
        1 <= k < m.records.len() ==> !((#[trigger] m.records[k]).gate->0 is Circuit)
    &&& forall|k: int, o: int, t: int|
        1 <= k < m.records.len() && 0 <= o < m.records[k].wires.len() && 0 <= t
            < m.records[k].wires[o].len() ==> (#[trigger] m.records[k].wires[o][t]).comp_id == 0
}

proof fn lemma_output_writes_to_boundary(w: Seq<Seq<Index>>, vals: Seq<Bit>)
    requires
        forall|o: int, t: int|
            0 <= o < w.len() && 0 <= t < w[o].len() ==> (#[trigger] w[o][t]).comp_id == 0,
    ensures
        to_boundary(output_writes(w, vals)),
    decreases w.len(),
{
    if w.len() > 0 {
        lemma_output_writes_to_boundary(w.drop_last(), vals);
        let a = output_writes(w.drop_last(), vals);
        let b = writes_of(w.last(), vals[w.len() - 1]);
        assert forall|i: int| 0 <= i < b.len() implies (#[trigger] b[i]).0.comp_id == 0 by {
            assert(w.last() == w[w.len() - 1]);
            assert(b[i].0 == w[w.len() - 1][i]);
        }
        assert forall|i: int| 0 <= i < (a + b).len() implies (#[trigger] (a + b)[i]).0.comp_id
            == 0 by {
            if i < a.len() {
                assert((a + b)[i] == a[i]);
            } else {
                assert((a + b)[i] == b[i - a.len()]);
            }
        }
    }
}

proof fn lemma_prop_writes_to_boundary(recs: Seq<RecordModel>, n: int)
    requires
        n <= recs.len(),
        forall|k: int, o: int, t: int|
            1 <= k < recs.len() && 0 <= o < recs[k].wires.len() && 0 <= t
                < recs[k].wires[o].len() ==> (#[trigger] recs[k].wires[o][t]).comp_id == 0,
    ensures
        to_boundary(prop_writes(recs, n)),
    decreases n,
{
    if n > 1 {
        lemma_prop_writes_to_boundary(recs, n - 1);
        let k = n - 1;
        assert forall|o: int, t: int|
            0 <= o < recs[k].wires.len() && 0 <= t < recs[k].wires[o].len() implies (
            #[trigger] recs[k].wires[o][t]).comp_id == 0 by {}
        lemma_output_writes_to_boundary(recs[k].wires, recs[k].output);
        let a = prop_writes(recs, n - 1);
        let b = output_writes(recs[k].wires, recs[k].output);
        assert forall|i: int| 0 <= i < (a + b).len() implies (#[trigger] (a + b)[i]).0.comp_id
            == 0 by {
            if i < a.len() {
                assert((a + b)[i] == a[i]);
            } else {
                assert((a + b)[i] == b[i - a.len()]);
            }
        }
    }
}

/// Idempotence under constant input for a purely combinational circuit of
/// one level: when every gate is a leaf and every gate output feeds the
/// boundary, one tick with `input` settles the circuit, so a second tick
/// with the same input gives the same external outputs and state.
pub proof fn lemma_flat_circuit_settles(m: CircuitModel, input: Seq<Bit>)
    requires
        comp_wf(CompModel::Circuit(m)),
        input.len() == m.num_inputs,
        flat(m),
    ensures
        circuit_step(circuit_step(m, input).0, input) == circuit_step(m, input),
{
    let r = m.records;
    let n = r.len() as int;
    let a = r.update(0, RecordModel { output: input, ..r[0] });
    let w0 = output_writes(a[0].wires, a[0].output);
    let i1 = inject(r, input);
    lemma_drive_outputs_writes(a, a[0].wires, a[0].output);
    lemma_apply_pointwise(a, w0);
    let e1 = evaluate_upto(r, i1, n);
    lemma_evaluate_at(r, i1, n, 0);
    let pw = prop_writes(e1, n);
    let f1 = propagate_upto(e1, n);
    lemma_propagate_writes(e1, n);
    lemma_apply_pointwise(e1, pw);
    let m1 = circuit_step(m, input).0;
    assert(m1.records == f1);
    assert(record_shape(m, 0));
    // the first tick keeps every component and wire of each gate record
    assert forall|k: int| 1 <= k < n implies {
        &&& (#[trigger] e1[k]).gate == r[k].gate
        &&& e1[k].wires == r[k].wires
        &&& e1[k].input == i1[k].input
        &&& e1[k].output == comp_step(r[k].gate->0, i1[k].input).1
    } by {
        assert(record_shape(m, k));
        lemma_evaluate_at(r, i1, n, k);
        assert(!(r[k].gate->0 is Circuit));
    }
    assert forall|k: int, o: int, t: int|
        1 <= k < e1.len() && 0 <= o < e1[k].wires.len() && 0 <= t < e1[k].wires[o].len() implies (
        #[trigger] e1[k].wires[o][t]).comp_id == 0 by {
        assert(e1[k].wires == r[k].wires);
        assert(r[k].wires[o][t].comp_id == 0);
    }
    lemma_prop_writes_to_boundary(e1, n);
    // second tick
    assert(f1[0].output == input);
    let a2 = f1.update(0, RecordModel { output: input, ..f1[0] });
    assert(a2 =~= f1);
    assert(f1[0].wires == a[0].wires);
    let i2 = inject(f1, input);
    lemma_drive_outputs_writes(f1, f1[0].wires, f1[0].output);
    lemma_apply_pointwise(f1, w0);
    let e2 = evaluate_upto(f1, i2, n);
    lemma_evaluate_at(f1, i2, n, 0);
    // gate records see the same inputs again, so they compute the same
    assert forall|k: int| 1 <= k < n implies #[trigger] e2[k] == e1[k] by {
        assert(record_shape(m, k));
        lemma_evaluate_at(f1, i2, n, k);
        lemma_evaluate_at(r, i1, n, k);
        lemma_to_boundary_misses(pw, k, 0);
        assert(f1[k].gate == e1[k].gate);
        assert(i2[k].input.len() == i1[k].input.len());
        assert forall|s: int| 0 <= s < i2[k].input.len() implies i2[k].input[s] == i1[k].input[s] by {
            lemma_to_boundary_misses(pw, k, s);
            assert(f1[k].input[s] == slot_after(e1, pw, k, s));
        }
        assert(i2[k].input =~= i1[k].input);
        assert(e2[k].wires == e1[k].wires);
    }
    lemma_prop_writes_eq(e2, e1, n);
    let f2 = propagate_upto(e2, n);
    lemma_propagate_writes(e2, n);
    lemma_apply_pointwise(e2, pw);
    assert forall|k: int| 0 <= k < n implies #[trigger] f2[k] == f1[k] by {
        if k == 0 {
            assert(f2[0].input.len() == f1[0].input.len());
            assert forall|s: int| 0 <= s < f2[0].input.len() implies f2[0].input[s] == f1[0].input[s] by {
                assert(f2[0].input[s] == slot_after(e2, pw, 0, s));
                assert(f1[0].input[s] == slot_after(e1, pw, 0, s));
                assert(e2[0] == i2[0]);
                assert(e1[0] == i1[0]);
                assert(i2[0].input[s] == slot_after(f1, w0, 0, s));
                assert(i1[0].input[s] == slot_after(a, w0, 0, s));
            }
            assert(f2[0].input =~= f1[0].input);
        } else {
            assert(e2[k] == e1[k]);
            assert(f2[k].input.len() == f1[k].input.len());
            assert forall|s: int| 0 <= s < f2[k].input.len() implies f2[k].input[s] == f1[k].input[s] by {
                lemma_to_boundary_misses(pw, k, s);
                assert(f2[k].input[s] == slot_after(e2, pw, k, s));
                assert(f1[k].input[s] == slot_after(e1, pw, k, s));
            }
            assert(f2[k].input =~= f1[k].input);
        }
    }
    assert(f2 =~= f1);
}

} // verus!
