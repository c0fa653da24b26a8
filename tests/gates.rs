use logic_sim::{Bit, Nand, Or2};

#[test]
fn nand_with_no_inputs_is_low() {
    let g = Nand::new(0);
    assert_eq!(g.update(&[]), vec![Bit::L]);
}

#[test]
fn nand_is_high_when_any_input_is_low() {
    let g = Nand::new(3);
    assert_eq!(g.update(&[Bit::H, Bit::L, Bit::X]), vec![Bit::H]);
    assert_eq!(g.update(&[Bit::X, Bit::X, Bit::L]), vec![Bit::H]);
    assert_eq!(Nand::new(1).update(&[Bit::L]), vec![Bit::H]);
}

#[test]
fn nand_is_undefined_without_low_and_with_undefined() {
    let g = Nand::new(2);
    assert_eq!(g.update(&[Bit::X, Bit::H]), vec![Bit::X]);
    assert_eq!(g.update(&[Bit::X, Bit::X]), vec![Bit::X]);
}

#[test]
fn nand_is_low_when_all_inputs_are_high() {
    let g = Nand::new(2);
    assert_eq!(g.update(&[Bit::H, Bit::H]), vec![Bit::L]);
    assert_eq!(Nand::new(1).update(&[Bit::H]), vec![Bit::L]);
}

#[test]
fn nand_arity_and_name() {
    let g = Nand::new(4);
    assert_eq!(g.num_inputs(), 4);
    assert_eq!(g.num_outputs(), 1);
    assert_eq!(g.name(), "NAND");
}

#[test]
fn or2_truth_table_on_defined_values() {
    let g = Or2::new();
    assert_eq!(g.update(&[Bit::L, Bit::L]), vec![Bit::L]);
    assert_eq!(g.update(&[Bit::L, Bit::H]), vec![Bit::H]);
    assert_eq!(g.update(&[Bit::H, Bit::L]), vec![Bit::H]);
    assert_eq!(g.update(&[Bit::H, Bit::H]), vec![Bit::H]);
}

#[test]
fn or2_propagates_undefined() {
    let g = Or2::new();
    assert_eq!(g.update(&[Bit::X, Bit::L]), vec![Bit::X]);
    assert_eq!(g.update(&[Bit::L, Bit::X]), vec![Bit::X]);
    assert_eq!(g.update(&[Bit::X, Bit::X]), vec![Bit::X]);
    assert_eq!(g.update(&[Bit::X, Bit::H]), vec![Bit::H]);
    assert_eq!(g.update(&[Bit::H, Bit::X]), vec![Bit::H]);
    assert_eq!(g.num_inputs(), 2);
    assert_eq!(g.num_outputs(), 1);
    assert_eq!(g.name(), "OR2");
}
