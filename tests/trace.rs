use std::collections::HashSet;

use logic_sim::{
    simulation_trace, trace_steps, Bit, CompIo, Component, Composite, Declaration, Index,
    InstanceIndex, Nand, Or2, Step,
};

fn or_circuit() -> Composite {
    let mut c_zero = CompIo::c_zero(2, 1);
    let mut nand_a = CompIo::new(Component::Nand(Nand::new(1)));
    let mut nand_b = CompIo::new(Component::Nand(Nand::new(1)));
    let mut nand_c = CompIo::new(Component::Nand(Nand::new(2)));
    c_zero.add_connection(0, Index::new(1, 0));
    c_zero.add_connection(1, Index::new(2, 0));
    nand_a.add_connection(0, Index::new(3, 0));
    nand_b.add_connection(0, Index::new(3, 1));
    nand_c.add_connection(0, Index::new(0, 0));
    Composite::new(vec![c_zero, nand_a, nand_b, nand_c], 2, 1, "OR2")
}

fn declared(d: &[Declaration]) -> HashSet<InstanceIndex> {
    d.iter()
        .filter_map(|x| match x {
            Declaration::Wire(id, _) => Some(*id),
            _ => None,
        })
        .collect()
}

fn scope(name: &str) -> Declaration {
    Declaration::Scope(name.to_string())
}

fn wire(i: usize, p: usize, name: &str) -> Declaration {
    Declaration::Wire(InstanceIndex::new(i, p), name.to_string())
}

#[test]
fn declarations_follow_the_hierarchy() {
    let mut c = Component::Circuit(Box::new(or_circuit()));
    let trace = simulation_trace(&mut c, &vec![], 0, false);
    let expected = vec![
        scope("OR2-0"),
        wire(0, 0, "OR2-0-i0"),
        wire(0, 1, "OR2-0-i1"),
        wire(0, 2, "OR2-0-o0"),
        scope("NAND-1"),
        wire(1, 0, "NAND-1-i0"),
        wire(1, 1, "NAND-1-o0"),
        Declaration::Upscope,
        scope("NAND-2"),
        wire(2, 0, "NAND-2-i0"),
        wire(2, 1, "NAND-2-o0"),
        Declaration::Upscope,
        scope("NAND-3"),
        wire(3, 0, "NAND-3-i0"),
        wire(3, 1, "NAND-3-i1"),
        wire(3, 2, "NAND-3-o0"),
        Declaration::Upscope,
        Declaration::Upscope,
    ];
    assert_eq!(trace.declarations, expected);
    assert!(trace.ticks.is_empty());
    assert_eq!(trace.initial.len(), 10);
    assert!(trace.initial.iter().all(|ch| ch.value == Bit::X));
    assert_eq!(trace.initial_clock, Bit::L);
}

#[test]
fn two_tick_or_simulation() {
    let mut c = Component::Circuit(Box::new(or_circuit()));
    let inputs = vec![vec![Bit::L, Bit::H], vec![Bit::H, Bit::H]];
    let trace = simulation_trace(&mut c, &inputs, 2, false);
    assert_eq!(trace.ticks.len(), 2);
    let output_of = |t: usize| {
        trace.ticks[t]
            .changes
            .iter()
            .find(|ch| ch.id == InstanceIndex::new(0, 2))
            .unwrap()
            .value
    };
    // The output gate is two levels deep, so the first tick still shows
    // the undefined value that stood before it.
    assert_eq!(output_of(0), Bit::X);
    assert_eq!(output_of(1), Bit::H);
    assert_eq!(trace.ticks[0].clock, Bit::H);
    assert_eq!(trace.ticks[1].clock, Bit::L);
    // The external inputs of each tick are traced as the root's inputs.
    let input_of = |t: usize, p: usize| {
        trace.ticks[t]
            .changes
            .iter()
            .find(|ch| ch.id == InstanceIndex::new(0, p))
            .unwrap()
            .value
    };
    assert_eq!((input_of(0, 0), input_of(0, 1)), (Bit::L, Bit::H));
    assert_eq!((input_of(1, 0), input_of(1, 1)), (Bit::H, Bit::H));
}

#[test]
fn emitted_identities_equal_declared_ones() {
    for hide in [false, true] {
        let mut c_zero = CompIo::c_zero(2, 1);
        let mut inner = CompIo::new(Component::Circuit(Box::new(or_circuit())));
        let gate = CompIo::new(Component::Or2(Or2::new()));
        c_zero.add_connection(0, Index::new(1, 0));
        c_zero.add_connection(1, Index::new(1, 1));
        c_zero.add_connection(0, Index::new(2, 0));
        c_zero.add_connection(1, Index::new(2, 1));
        inner.add_connection(0, Index::new(0, 0));
        let top = Composite::new(vec![c_zero, inner, gate], 2, 1, "TOP");
        let mut c = Component::Circuit(Box::new(top));
        let inputs = vec![vec![Bit::L, Bit::H], vec![Bit::H, Bit::L], vec![Bit::L, Bit::L]];
        let trace = simulation_trace(&mut c, &inputs, 3, hide);
        let ids = declared(&trace.declarations);
        let initial: HashSet<InstanceIndex> = trace.initial.iter().map(|ch| ch.id).collect();
        assert_eq!(ids, initial);
        for tick in &trace.ticks {
            let emitted: HashSet<InstanceIndex> = tick.changes.iter().map(|ch| ch.id).collect();
            assert_eq!(emitted, ids);
            assert_eq!(tick.changes.len(), ids.len());
        }
    }
}

#[test]
fn hiding_universal_gates_keeps_numbering_of_the_rest() {
    let mut c_zero = CompIo::c_zero(2, 1);
    let mut n = CompIo::new(Component::Nand(Nand::new(2)));
    let mut o = CompIo::new(Component::Or2(Or2::new()));
    c_zero.add_connection(0, Index::new(1, 0));
    c_zero.add_connection(1, Index::new(1, 1));
    c_zero.add_connection(0, Index::new(2, 0));
    c_zero.add_connection(1, Index::new(2, 1));
    n.add_connection(0, Index::new(0, 0));
    o.add_connection(0, Index::new(0, 0));
    let mut c = Component::Circuit(Box::new(Composite::new(vec![c_zero, n, o], 2, 1, "MIX")));
    let trace = simulation_trace(&mut c, &vec![vec![Bit::H, Bit::H]], 1, true);
    let scopes: Vec<&Declaration> = trace
        .declarations
        .iter()
        .filter(|d| matches!(d, Declaration::Scope(_)))
        .collect();
    assert_eq!(scopes, vec![&scope("MIX-0"), &scope("OR2-1")]);
    let shown = simulation_trace(&mut c, &vec![], 0, false);
    let all: Vec<&Declaration> = shown
        .declarations
        .iter()
        .filter(|d| matches!(d, Declaration::Scope(_)))
        .collect();
    assert_eq!(all, vec![&scope("MIX-0"), &scope("NAND-1"), &scope("OR2-2")]);
}

#[test]
fn nested_records_are_numbered_depth_first() {
    let mut c_zero = CompIo::c_zero(2, 1);
    let mut inner = CompIo::new(Component::Circuit(Box::new(or_circuit())));
    let last = CompIo::new(Component::Nand(Nand::new(1)));
    c_zero.add_connection(0, Index::new(1, 0));
    c_zero.add_connection(1, Index::new(1, 1));
    inner.add_connection(0, Index::new(2, 0));
    let c = Component::Circuit(Box::new(Composite::new(vec![c_zero, inner, last], 2, 1, "TOP")));
    let steps = trace_steps(&c, false);
    let names: Vec<(usize, String)> = steps
        .iter()
        .filter_map(|s| match s {
            Step::Enter(v) => Some((v.instance, v.name.clone())),
            Step::Leave => None,
        })
        .collect();
    let expected: Vec<(usize, String)> = vec![
        (0, "TOP".to_string()),
        (1, "OR2".to_string()),
        (2, "NAND".to_string()),
        (3, "NAND".to_string()),
        (4, "NAND".to_string()),
        (5, "NAND".to_string()),
    ];
    assert_eq!(names, expected);
    let leaves = steps.iter().filter(|s| matches!(s, Step::Leave)).count();
    assert_eq!(leaves, 6);
}

#[test]
fn leaf_root_declares_nothing() {
    let mut c = Component::Nand(Nand::new(2));
    let trace = simulation_trace(&mut c, &vec![vec![Bit::H, Bit::H]], 1, false);
    assert!(trace.declarations.is_empty());
    assert!(trace.ticks[0].changes.is_empty());
    assert_eq!(trace.ticks[0].clock, Bit::H);
}

#[test]
fn instance_numbers_above_nine_use_all_digits() {
    let mut recs = vec![CompIo::c_zero(0, 0)];
    for _ in 0..11 {
        recs.push(CompIo::new(Component::Nand(Nand::new(0))));
    }
    let mut c = Component::Circuit(Box::new(Composite::new(recs, 0, 0, "W")));
    let trace = simulation_trace(&mut c, &vec![], 0, false);
    assert!(trace.declarations.contains(&scope("NAND-11")));
    assert!(trace.declarations.contains(&wire(10, 0, "NAND-10-o0")));
}
