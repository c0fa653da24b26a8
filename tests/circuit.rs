use logic_sim::{Bit, CompIo, Component, Composite, Index, Nand, Or2};

/// Boundary plus three universal gates: `a OR b == NOT(a) NAND NOT(b)`.
fn or_circuit() -> Composite {
    let mut c_zero = CompIo::c_zero(2, 1);
    let mut nand_a = CompIo::new(Component::Nand(Nand::new(1)));
    let mut nand_b = CompIo::new(Component::Nand(Nand::new(1)));
    let mut nand_c = CompIo::new(Component::Nand(Nand::new(2)));
    c_zero.add_connection(0, Index::new(1, 0));
    c_zero.add_connection(1, Index::new(2, 0));
    nand_a.add_connection(0, Index::new(3, 0));
    nand_b.add_connection(0, Index::new(3, 1));
    nand_c.add_connection(0, Index::new(0, 0));
    assert!(c_zero.fits_boundary(2, 1));
    Composite::new(vec![c_zero, nand_a, nand_b, nand_c], 2, 1, "OR2")
}

#[test]
fn or_circuit_settles_to_high_for_low_high() {
    let mut c = or_circuit();
    // The NAND feeding the boundary is two levels deep: on its first run it
    // reads the undefined values that stood before the tick.
    assert_eq!(c.update(&[Bit::L, Bit::H]), vec![Bit::X]);
    assert_eq!(c.update(&[Bit::L, Bit::H]), vec![Bit::H]);
}

#[test]
fn or_circuit_settles_to_low_for_low_low() {
    let mut c = or_circuit();
    c.update(&[Bit::L, Bit::L]);
    assert_eq!(c.update(&[Bit::L, Bit::L]), vec![Bit::L]);
}

#[test]
fn or_circuit_truth_table_after_settling() {
    let cases = [
        ([Bit::L, Bit::L], Bit::L),
        ([Bit::L, Bit::H], Bit::H),
        ([Bit::H, Bit::L], Bit::H),
        ([Bit::H, Bit::H], Bit::H),
        ([Bit::X, Bit::L], Bit::X),
        ([Bit::X, Bit::H], Bit::H),
    ];
    for (input, expected) in cases {
        let mut c = or_circuit();
        c.update(&input);
        assert_eq!(c.update(&input), vec![expected]);
    }
}

#[test]
fn evaluation_reads_values_from_before_the_tick() {
    let mut c = or_circuit();
    c.update(&[Bit::H, Bit::H]);
    c.update(&[Bit::H, Bit::H]);
    // Settled at High; switching both inputs to Low shows the old value for
    // one more tick, since the output gate still reads last tick's inputs.
    assert_eq!(c.update(&[Bit::L, Bit::L]), vec![Bit::H]);
    assert_eq!(c.update(&[Bit::L, Bit::L]), vec![Bit::L]);
}

#[test]
fn constant_input_gives_constant_output_once_settled() {
    let mut c = or_circuit();
    c.update(&[Bit::H, Bit::L]);
    let first = c.update(&[Bit::H, Bit::L]);
    let second = c.update(&[Bit::H, Bit::L]);
    assert_eq!(first, vec![Bit::H]);
    assert_eq!(first, second);
}

#[test]
fn composite_arity_and_name() {
    let c = or_circuit();
    assert_eq!(c.num_inputs(), 2);
    assert_eq!(c.num_outputs(), 1);
    assert_eq!(c.name(), "OR2");
    let comp = Component::Circuit(Box::new(or_circuit()));
    assert_eq!(comp.num_inputs(), 2);
    assert_eq!(comp.num_outputs(), 1);
    assert_eq!(comp.name(), "OR2");
}

#[test]
fn boundary_check_rejects_wrong_arities() {
    let b = CompIo::c_zero(2, 1);
    assert!(b.fits_boundary(2, 1));
    assert!(!b.fits_boundary(1, 2));
    let g = CompIo::new(Component::Nand(Nand::new(2)));
    assert!(!g.fits_boundary(2, 1));
}

#[test]
fn dangling_output_is_legal() {
    let mut c_zero = CompIo::c_zero(1, 1);
    let mut inv = CompIo::new(Component::Nand(Nand::new(1)));
    let spare = CompIo::new(Component::Nand(Nand::new(1)));
    c_zero.add_connection(0, Index::new(1, 0));
    inv.add_connection(0, Index::new(0, 0));
    let mut c = Composite::new(vec![c_zero, inv, spare], 1, 1, "NOT");
    assert_eq!(c.update(&[Bit::L]), vec![Bit::H]);
    assert_eq!(c.update(&[Bit::H]), vec![Bit::L]);
}

#[test]
fn fan_out_drives_every_target() {
    // One input feeds both inputs of a two-input gate: a NOT.
    let mut c_zero = CompIo::c_zero(1, 1);
    let mut g = CompIo::new(Component::Nand(Nand::new(2)));
    c_zero.add_connection(0, Index::new(1, 0));
    c_zero.add_connection(0, Index::new(1, 1));
    g.add_connection(0, Index::new(0, 0));
    let mut c = Composite::new(vec![c_zero, g], 1, 1, "NOT");
    assert_eq!(c.update(&[Bit::H]), vec![Bit::L]);
    assert_eq!(c.update(&[Bit::L]), vec![Bit::H]);
}

#[test]
fn nested_circuit_evaluates_inside_its_parent() {
    let mut c_zero = CompIo::c_zero(2, 1);
    let mut inner = CompIo::new(Component::Circuit(Box::new(or_circuit())));
    c_zero.add_connection(0, Index::new(1, 0));
    c_zero.add_connection(1, Index::new(1, 1));
    inner.add_connection(0, Index::new(0, 0));
    let mut c = Composite::new(vec![c_zero, inner], 2, 1, "TOP");
    assert_eq!(c.update(&[Bit::L, Bit::H]), vec![Bit::X]);
    assert_eq!(c.update(&[Bit::L, Bit::H]), vec![Bit::H]);
    let mut comp = Component::Or2(Or2::new());
    assert_eq!(comp.update(&[Bit::L, Bit::H]), vec![Bit::H]);
}

#[test]
fn flat_circuit_repeats_its_first_output() {
    // Two leaf gates reading the boundary and writing it back: one level.
    let mut c_zero = CompIo::c_zero(2, 2);
    let mut n = CompIo::new(Component::Nand(Nand::new(2)));
    let mut o = CompIo::new(Component::Or2(Or2::new()));
    c_zero.add_connection(0, Index::new(1, 0));
    c_zero.add_connection(1, Index::new(1, 1));
    c_zero.add_connection(0, Index::new(2, 0));
    c_zero.add_connection(1, Index::new(2, 1));
    n.add_connection(0, Index::new(0, 0));
    o.add_connection(0, Index::new(0, 1));
    let mut c = Composite::new(vec![c_zero, n, o], 2, 2, "FLAT");
    let first = c.update(&[Bit::H, Bit::L]);
    let second = c.update(&[Bit::H, Bit::L]);
    assert_eq!(first, vec![Bit::H, Bit::H]);
    assert_eq!(first, second);
    let third = c.update(&[Bit::H, Bit::H]);
    assert_eq!(third, vec![Bit::L, Bit::H]);
    assert_eq!(c.update(&[Bit::H, Bit::H]), third);
}
