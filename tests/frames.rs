use bit_machine::{BitMachine, ExecError, Value};

#[test]
fn allocate_commit_release_restores_the_pointer() {
    let mut m = BitMachine::with_capacity(16, 2);
    m.new_frame(3).unwrap();
    assert_eq!(m.next_frame_start(), 3);
    m.new_frame(8).unwrap();
    assert_eq!(m.next_frame_start(), 11);
    m.move_frame().unwrap();
    m.drop_frame().unwrap();
    assert_eq!(m.next_frame_start(), 3);
    m.move_frame().unwrap();
    m.drop_frame().unwrap();
    assert_eq!(m.next_frame_start(), 0);
    assert_eq!(m.read_depth(), 0);
    assert_eq!(m.write_depth(), 0);
}

#[test]
fn arena_is_rounded_up_to_whole_bytes() {
    let mut m = BitMachine::with_capacity(9, 1);
    assert_eq!(m.arena_bit(15), Some(false));
    assert_eq!(m.arena_bit(16), None);
    assert_eq!(m.new_frame(17), Err(ExecError::BoundsFault));
    assert_eq!(m.new_frame(16), Ok(()));
}

#[test]
fn empty_stacks_underflow() {
    let mut m = BitMachine::with_capacity(8, 1);
    assert_eq!(m.move_frame(), Err(ExecError::StackUnderflow));
    assert_eq!(m.drop_frame(), Err(ExecError::StackUnderflow));
    assert_eq!(m.write_bit(true), Err(ExecError::StackUnderflow));
    assert_eq!(m.read_bit(), Err(ExecError::StackUnderflow));
    assert_eq!(m.copy(0), Err(ExecError::StackUnderflow));
    assert_eq!(m.skip(0), Err(ExecError::StackUnderflow));
    assert_eq!(m.fwd(0), Err(ExecError::StackUnderflow));
    assert_eq!(m.back(0), Err(ExecError::StackUnderflow));
}

#[test]
fn releasing_out_of_order_is_an_accounting_fault() {
    let mut m = BitMachine::with_capacity(8, 2);
    m.new_frame(2).unwrap();
    m.new_frame(3).unwrap();
    m.move_frame().unwrap();
    m.move_frame().unwrap();
    assert_eq!(m.drop_frame(), Err(ExecError::FrameAccountingFault));
}

#[test]
fn cursor_cannot_leave_its_frame() {
    let mut m = BitMachine::with_capacity(8, 1);
    m.new_frame(2).unwrap();
    m.write_bit(true).unwrap();
    assert_eq!(m.skip(2), Err(ExecError::BoundsFault));
    m.write_bit(false).unwrap();
    assert_eq!(m.write_bit(false), Err(ExecError::BoundsFault));
    m.move_frame().unwrap();
    assert_eq!(m.back(1), Err(ExecError::BoundsFault));
    assert_eq!(m.read_bit(), Ok(true));
    assert_eq!(m.read_bit(), Ok(false));
    assert_eq!(m.read_bit(), Err(ExecError::BoundsFault));
    m.back(2).unwrap();
    assert_eq!(m.fwd(3), Err(ExecError::BoundsFault));
}

#[test]
fn bits_are_most_significant_first() {
    let mut m = BitMachine::with_capacity(16, 1);
    m.new_frame(12).unwrap();
    m.write_u8(0x81).unwrap();
    assert_eq!(m.arena_bit(0), Some(true));
    assert_eq!(m.arena_bit(1), Some(false));
    assert_eq!(m.arena_bit(7), Some(true));
    m.skip(1).unwrap();
    m.write_bit(true).unwrap();
    assert_eq!(m.arena_bit(8), Some(false));
    assert_eq!(m.arena_bit(9), Some(true));
}

#[test]
fn words_round_trip_big_endian() {
    let mut m = BitMachine::with_capacity(128, 1);
    m.new_frame(120).unwrap();
    m.write_u64(0x0123_4567_89ab_cdef).unwrap();
    m.write_u32(0xdead_beef).unwrap();
    m.write_u16(0xbeef).unwrap();
    m.write_u8(0x5a).unwrap();
    assert_eq!(m.write_u8(1), Err(ExecError::BoundsFault));
    m.move_frame().unwrap();
    assert_eq!(m.read_u64(), Ok(0x0123_4567_89ab_cdef));
    assert_eq!(m.read_u32(), Ok(0xdead_beef));
    assert_eq!(m.read_u16(), Ok(0xbeef));
    assert_eq!(m.read_u8(), Ok(0x5a));
    assert_eq!(m.read_u8(), Err(ExecError::BoundsFault));
    m.back(120).unwrap();
    assert_eq!(m.read_bytes(3), Ok(vec![0x01, 0x23, 0x45]));
    assert_eq!(m.read_u8(), Ok(0x67));
}

#[test]
fn bytes_round_trip() {
    let mut m = BitMachine::with_capacity(256, 1);
    m.new_frame(256).unwrap();
    let bytes: Vec<u8> = (0..32u8).map(|i| i.wrapping_mul(37)).collect();
    m.write_bytes(&bytes).unwrap();
    m.move_frame().unwrap();
    let got = m.read_32bytes().unwrap();
    assert_eq!(got.to_vec(), bytes);
    assert_eq!(m.read_bytes(0), Ok(vec![]));
    assert_eq!(m.read_bytes(1), Err(ExecError::BoundsFault));
}

#[test]
fn copy_moves_only_the_write_cursor() {
    let mut m = BitMachine::with_capacity(16, 2);
    m.new_frame(3).unwrap();
    m.write_bit(true).unwrap();
    m.write_bit(false).unwrap();
    m.write_bit(true).unwrap();
    m.move_frame().unwrap();
    m.new_frame(6).unwrap();
    m.copy(3).unwrap();
    m.copy(3).unwrap();
    assert_eq!(m.copy(1), Err(ExecError::BoundsFault));
    let f = m.active_write_frame().unwrap();
    assert_eq!((f.start, f.len, f.cursor), (3, 6, 6));
    let bits: Vec<Option<bool>> = (3..9).map(|k| m.arena_bit(k)).collect();
    let expect: Vec<Option<bool>> = [true, false, true, true, false, true].iter().map(|b| Some(*b)).collect();
    assert_eq!(bits, expect);
}

#[test]
fn input_installs_a_read_frame() {
    let mut m = BitMachine::with_capacity(8, 1);
    let v = Value::Prod(Box::new(Value::SumR(Box::new(Value::Unit))), Box::new(Value::SumL(Box::new(Value::Unit))));
    assert_eq!(v.len(), 2);
    m.input(&v).unwrap();
    assert_eq!(m.read_depth(), 1);
    assert_eq!(m.write_depth(), 0);
    assert_eq!(m.next_frame_start(), 2);
    assert_eq!(m.read_bit(), Ok(true));
    assert_eq!(m.read_bit(), Ok(false));
}
