use bit_machine::{BitMachine, ExecError, FinalType, Node, NoJets, Program, Term, TypeShape, Value};

fn unit() -> FinalType {
    FinalType { shape: TypeShape::Unit, bit_width: 0 }
}

fn sum(a: FinalType, b: FinalType) -> FinalType {
    let w = 1 + std::cmp::max(a.bit_width, b.bit_width);
    FinalType { shape: TypeShape::Sum(Box::new(a), Box::new(b)), bit_width: w }
}

fn prod(a: FinalType, b: FinalType) -> FinalType {
    let w = a.bit_width + b.bit_width;
    FinalType { shape: TypeShape::Product(Box::new(a), Box::new(b)), bit_width: w }
}

fn bit() -> FinalType {
    sum(unit(), unit())
}

/// A product tree of `2^depth` bits.
fn word(depth: u32) -> FinalType {
    if depth == 0 {
        bit()
    } else {
        prod(word(depth - 1), word(depth - 1))
    }
}

fn node(term: Term<NoJets>, source_ty: FinalType, target_ty: FinalType) -> Node<NoJets> {
    Node { term, source_ty, target_ty, cmr: [0u8; 32] }
}

fn left(v: Value) -> Value {
    Value::SumL(Box::new(v))
}

fn right(v: Value) -> Value {
    Value::SumR(Box::new(v))
}

fn pair(a: Value, b: Value) -> Value {
    Value::Prod(Box::new(a), Box::new(b))
}

fn program(nodes: Vec<Node<NoJets>>, extra: usize) -> Program<NoJets> {
    Program { nodes, extra_cells_bound: extra, frame_count_bound: 4 }
}

fn run(p: &Program<NoJets>, input: Option<&Value>) -> (Result<Value, ExecError>, BitMachine) {
    let mut m = BitMachine::for_program(p);
    if let Some(v) = input {
        m.input(v).unwrap();
    }
    let r = m.exec(p, &());
    (r, m)
}

fn iden_program(ty: fn() -> FinalType) -> Program<NoJets> {
    program(vec![node(Term::Iden, ty(), ty())], 0)
}

#[test]
fn unit_program_yields_unit_without_frames() {
    let p = program(vec![node(Term::Unit, unit(), unit())], 0);
    let (r, m) = run(&p, None);
    assert_eq!(r, Ok(Value::Unit));
    assert_eq!(m.next_frame_start(), 0);
    assert_eq!(m.read_depth(), 0);
    assert_eq!(m.write_depth(), 0);
}

#[test]
fn left_unit_writes_one_zero_bit() {
    let p = program(vec![node(Term::Unit, unit(), unit()), node(Term::InjL(1), unit(), bit())], 0);
    let (r, m) = run(&p, None);
    assert_eq!(r, Ok(left(Value::Unit)));
    let f = m.active_write_frame().unwrap();
    assert_eq!(f.len, 1);
    assert_eq!(m.arena_bit(f.start), Some(false));
}

#[test]
fn right_unit_writes_one_set_bit() {
    let p = program(vec![node(Term::Unit, unit(), unit()), node(Term::InjR(1), unit(), bit())], 0);
    let (r, m) = run(&p, None);
    assert_eq!(r, Ok(right(Value::Unit)));
    let f = m.active_write_frame().unwrap();
    assert_eq!(m.arena_bit(f.start), Some(true));
}

#[test]
fn iden_round_trips_a_bit() {
    let p = iden_program(bit);
    for v in [left(Value::Unit), right(Value::Unit)] {
        let (r, _) = run(&p, Some(&v));
        assert_eq!(r, Ok(v));
    }
}

#[test]
fn iden_round_trips_a_pair_of_bits() {
    fn ty() -> FinalType {
        prod(bit(), bit())
    }
    let p = iden_program(ty);
    let v = pair(left(Value::Unit), right(Value::Unit));
    let (r, _) = run(&p, Some(&v));
    assert_eq!(r, Ok(pair(left(Value::Unit), right(Value::Unit))));
}

#[test]
fn iden_round_trips_nested_sums() {
    fn ty() -> FinalType {
        sum(bit(), bit())
    }
    let p = iden_program(ty);
    for v in [left(right(Value::Unit)), right(left(Value::Unit))] {
        let (r, _) = run(&p, Some(&v));
        assert_eq!(r, Ok(v));
    }
}

#[test]
fn iden_on_a_padded_value_runs_out_of_input() {
    fn ty() -> FinalType {
        sum(unit(), bit())
    }
    let p = iden_program(ty);
    let (r, _) = run(&p, Some(&left(Value::Unit)));
    assert_eq!(r, Err(ExecError::BoundsFault));
}

#[test]
fn compose_chains_output_to_input() {
    // Comp(Iden, InjR(Iden)) on a bit.
    let p = program(
        vec![
            node(Term::Iden, bit(), bit()),
            node(Term::InjR(1), bit(), sum(unit(), bit())),
            node(Term::Comp(2, 1), bit(), sum(unit(), bit())),
        ],
        1,
    );
    let (r, m) = run(&p, Some(&left(Value::Unit)));
    assert_eq!(r, Ok(right(left(Value::Unit))));
    // The intermediate frame was released.
    assert_eq!(m.read_depth(), 1);
    // The same as running the second half on the first half's output.
    let g = program(
        vec![node(Term::Iden, bit(), bit()), node(Term::InjR(1), bit(), sum(unit(), bit()))],
        0,
    );
    let (first, _) = run(&iden_program(bit), Some(&left(Value::Unit)));
    let (second, _) = run(&g, Some(&first.unwrap()));
    assert_eq!(second, Ok(right(left(Value::Unit))));
}

fn case_program() -> Program<NoJets> {
    // Case(Drop(Iden), InjL(Unit)) over (bit, bit).
    program(
        vec![
            node(Term::Iden, bit(), bit()),
            node(Term::Drop(1), prod(unit(), bit()), bit()),
            node(Term::Unit, prod(unit(), bit()), unit()),
            node(Term::InjL(1), prod(unit(), bit()), bit()),
            node(Term::Case(3, 1), prod(bit(), bit()), bit()),
        ],
        0,
    )
}

#[test]
fn case_on_left_runs_first_branch() {
    let p = case_program();
    let (r, _) = run(&p, Some(&pair(left(Value::Unit), right(Value::Unit))));
    assert_eq!(r, Ok(right(Value::Unit)));
    // The first branch alone on (a, c).
    let f = program(
        vec![node(Term::Iden, bit(), bit()), node(Term::Drop(1), prod(unit(), bit()), bit())],
        0,
    );
    let (alone, _) = run(&f, Some(&pair(Value::Unit, right(Value::Unit))));
    assert_eq!(alone, Ok(right(Value::Unit)));
}

#[test]
fn case_on_right_runs_second_branch() {
    let p = case_program();
    let (r, _) = run(&p, Some(&pair(right(Value::Unit), right(Value::Unit))));
    assert_eq!(r, Ok(left(Value::Unit)));
}

#[test]
fn pair_evaluates_both_children_on_the_same_input() {
    let p = program(vec![node(Term::Iden, bit(), bit()), node(Term::Pair(1, 1), bit(), prod(bit(), bit()))], 0);
    let (r, _) = run(&p, Some(&right(Value::Unit)));
    assert_eq!(r, Ok(pair(right(Value::Unit), right(Value::Unit))));
}

#[test]
fn take_and_drop_select_components() {
    let t = program(vec![node(Term::Iden, bit(), bit()), node(Term::Take(1), prod(bit(), bit()), bit())], 0);
    let (r, _) = run(&t, Some(&pair(left(Value::Unit), right(Value::Unit))));
    assert_eq!(r, Ok(left(Value::Unit)));
    let d = program(vec![node(Term::Iden, bit(), bit()), node(Term::Drop(1), prod(bit(), bit()), bit())], 0);
    let (r, m) = run(&d, Some(&pair(left(Value::Unit), right(Value::Unit))));
    assert_eq!(r, Ok(right(Value::Unit)));
    assert_eq!(m.read_depth(), 1);
}

#[test]
fn witness_writes_its_value() {
    let p = program(vec![node(Term::Witness(right(Value::Unit)), unit(), bit())], 0);
    let (r, _) = run(&p, None);
    assert_eq!(r, Ok(right(Value::Unit)));
}

#[test]
fn hidden_node_aborts() {
    let p = program(vec![node(Term::Hidden([7u8; 32]), unit(), unit())], 0);
    let (r, _) = run(&p, None);
    assert_eq!(r, Err(ExecError::UnreachableNodeFault));
}

#[test]
fn hidden_node_below_an_injection_aborts() {
    let p = program(vec![node(Term::Hidden([0u8; 32]), unit(), unit()), node(Term::InjL(1), unit(), bit())], 0);
    let (r, _) = run(&p, None);
    assert_eq!(r, Err(ExecError::UnreachableNodeFault));
}

#[test]
fn fail_node_aborts() {
    let p = program(vec![node(Term::Fail, unit(), unit())], 0);
    let (r, _) = run(&p, None);
    assert_eq!(r, Err(ExecError::UnreachableNodeFault));
}

#[test]
fn drop_over_a_non_product_is_a_type_fault() {
    let p = program(vec![node(Term::Iden, bit(), bit()), node(Term::Drop(1), bit(), bit())], 0);
    let (r, _) = run(&p, Some(&left(Value::Unit)));
    assert_eq!(r, Err(ExecError::StructuralTypeFault));
}

#[test]
fn injection_into_a_non_sum_is_a_type_fault() {
    let p = program(vec![node(Term::Unit, unit(), unit()), node(Term::InjL(1), unit(), prod(unit(), unit()))], 0);
    let (r, _) = run(&p, None);
    assert_eq!(r, Err(ExecError::StructuralTypeFault));
}

#[test]
fn case_over_a_non_sum_is_a_type_fault() {
    let p = program(
        vec![node(Term::Unit, prod(unit(), bit()), unit()), node(Term::Case(1, 1), prod(prod(unit(), unit()), bit()), unit())],
        0,
    );
    let (r, _) = run(&p, Some(&pair(pair(Value::Unit, Value::Unit), left(Value::Unit))));
    assert_eq!(r, Err(ExecError::StructuralTypeFault));
}

#[test]
fn iden_without_input_underflows() {
    let p = iden_program(bit);
    let (r, _) = run(&p, None);
    assert_eq!(r, Err(ExecError::StackUnderflow));
}

#[test]
fn disconnect_hands_the_digest_to_its_first_child() {
    // s = Pair(Take^9(Iden), Unit) reads the first digest bit;
    // t = InjL(Unit).
    let d = || prod(word(8), unit());
    let mut nodes = vec![node(Term::Iden, bit(), bit())];
    for k in 1..=8u32 {
        nodes.push(node(Term::Take(1), word(k), bit()));
    }
    nodes.push(node(Term::Take(1), d(), bit())); // 9
    nodes.push(node(Term::Unit, d(), unit())); // 10
    nodes.push(node(Term::Pair(2, 1), d(), prod(bit(), unit()))); // 11: s
    nodes.push(node(Term::Unit, unit(), unit())); // 12
    let mut t = node(Term::InjL(1), unit(), bit()); // 13: t
    t.cmr[0] = 0x80;
    nodes.push(t);
    nodes.push(node(Term::Disconnect(3, 1), unit(), prod(bit(), bit()))); // 14
    let p = program(nodes, 512);
    let (r, m) = run(&p, Some(&Value::Unit));
    assert_eq!(r, Ok(pair(right(Value::Unit), left(Value::Unit))));
    assert_eq!(m.read_depth(), 1);
    assert_eq!(m.next_frame_start(), 2);
}
