//! The Bit Machine: a byte arena, an allocation pointer, and the read and
//! write frame stacks, with its primitive operations.
use vstd::prelude::*;
use vstd::arithmetic::power2::{lemma2_to64, lemma2_to64_rest, lemma_pow2_strictly_increases, lemma_pow2_unfold, pow2};
use crate::types::{decode, encode, lemma_decode_consumed, FinalType, TypeShape, Value};
use crate::frame::{arena_bits, be_bits, bits_value, bytes_bits, copy_bits, read_arena_bit, splice, Frame};

verus! {

/// Why a run was aborted.
#[derive(Clone, Copy, Debug, PartialEq, Eq, Structural)]
pub enum ExecError {
    /// A node's declared type does not have the shape its semantics needs.
    StructuralTypeFault,
    /// A frame operation was issued with no active frame.
    StackUnderflow,
    /// Releasing a frame did not bring the allocation pointer back to its start.
    FrameAccountingFault,
    /// A `Hidden` or `Fail` node was reached.
    UnreachableNodeFault,
    /// A frame would extend past the arena, or a cursor would leave its frame.
    BoundsFault,
}

/// The abstract state of a machine.
pub ghost struct MachineModel {
    /// The arena's bits.
    pub bits: Seq<bool>,
    /// The allocation pointer, in bits.
    pub next: nat,
    pub read: Seq<Frame>,
    pub write: Seq<Frame>,
}

impl MachineModel {
    pub open spec fn wf(self) -> bool {
        &&& self.bits.len() <= usize::MAX
        &&& self.next <= self.bits.len()
        &&& forall|i: int| 0 <= i < self.read.len() ==> (#[trigger] self.read[i]).fits(self.bits.len())
        &&& forall|i: int| 0 <= i < self.write.len() ==> (#[trigger] self.write[i]).fits(self.bits.len())
    }

    /// A machine fresh for `n_bits` bits: the arena rounded up to whole
    /// bytes and zeroed, the allocation pointer at 0, both stacks empty.
    pub open spec fn is_fresh(self, n_bits: nat) -> bool {
        &&& self.bits.len() == (n_bits + 7) / 8 * 8
        &&& forall|k: int| 0 <= k < self.bits.len() ==> !self.bits[k]
        &&& self.next == 0
        &&& self.read.len() == 0
        &&& self.write.len() == 0
    }

    pub open spec fn with_write_top(self, f: Frame) -> MachineModel {
        MachineModel { write: self.write.update(self.write.len() - 1, f), ..self }
    }

    pub open spec fn with_read_top(self, f: Frame) -> MachineModel {
        MachineModel { read: self.read.update(self.read.len() - 1, f), ..self }
    }
}

/// Pushes a write frame of `n` bits at the allocation pointer and advances it.
pub open spec fn new_frame_spec(m: MachineModel, n: nat) -> Result<MachineModel, ExecError> {
    if m.next + n > m.bits.len() {
        Err(ExecError::BoundsFault)
    } else {
        Ok(
            MachineModel {
                next: m.next + n,
                write: m.write.push(Frame { start: m.next as usize, len: n as usize, cursor: 0 }),
                ..m
            },
        )
    }
}

/// Moves the active write frame, cursor reset, to the read stack.
pub open spec fn move_frame_spec(m: MachineModel) -> Result<MachineModel, ExecError> {
    if m.write.len() == 0 {
        Err(ExecError::StackUnderflow)
    } else {
        Ok(
            MachineModel {
                write: m.write.drop_last(),
                read: m.read.push(Frame { cursor: 0, ..m.write.last() }),
                ..m
            },
        )
    }
}

/// Releases the active read frame, which must end at the allocation pointer.
pub open spec fn drop_frame_spec(m: MachineModel) -> Result<MachineModel, ExecError> {
    if m.read.len() == 0 {
        Err(ExecError::StackUnderflow)
    } else if m.next != m.read.last().start + m.read.last().len {
        Err(ExecError::FrameAccountingFault)
    } else {
        Ok(MachineModel { next: m.read.last().start as nat, read: m.read.drop_last(), ..m })
    }
}

/// Writes the bits `s` at the active write frame's cursor.
/// Writing no bits touches no frame.
pub open spec fn write_bits_spec(m: MachineModel, s: Seq<bool>) -> Result<MachineModel, ExecError> {
    if s.len() == 0 {
        Ok(m)
    } else if m.write.len() == 0 {
        Err(ExecError::StackUnderflow)
    } else if m.write.last().cursor + s.len() > m.write.last().len {
        Err(ExecError::BoundsFault)
    } else {
        let w = m.write.last();
        Ok(
            MachineModel {
                bits: splice(m.bits, w.pos(), s),
                ..m.with_write_top(Frame { cursor: (w.cursor + s.len()) as usize, ..w })
            },
        )
    }
}

/// Reads `n` bits at the active read frame's cursor, advancing past them.
pub open spec fn read_bits_spec(m: MachineModel, n: nat) -> Result<(MachineModel, Seq<bool>), ExecError> {
    if m.read.len() == 0 {
        Err(ExecError::StackUnderflow)
    } else if m.read.last().cursor + n > m.read.last().len {
        Err(ExecError::BoundsFault)
    } else {
        let r = m.read.last();
        Ok(
            (
                m.with_read_top(Frame { cursor: (r.cursor + n) as usize, ..r }),
                m.bits.subrange(r.pos(), r.pos() + n),
            ),
        )
    }
}

/// The bit under the active read frame's cursor, which stays.
pub open spec fn peek_bit_spec(m: MachineModel) -> Result<bool, ExecError> {
    if m.read.len() == 0 {
        Err(ExecError::StackUnderflow)
    } else if m.read.last().cursor >= m.read.last().len {
        Err(ExecError::BoundsFault)
    } else {
        Ok(m.bits[m.read.last().pos()])
    }
}

/// Advances the active write frame's cursor by `n` bits.
pub open spec fn skip_spec(m: MachineModel, n: nat) -> Result<MachineModel, ExecError> {
    if m.write.len() == 0 {
        Err(ExecError::StackUnderflow)
    } else if m.write.last().cursor + n > m.write.last().len {
        Err(ExecError::BoundsFault)
    } else {
        let w = m.write.last();
        Ok(m.with_write_top(Frame { cursor: (w.cursor + n) as usize, ..w }))
    }
}

/// Advances the active read frame's cursor by `n` bits.
pub open spec fn fwd_spec(m: MachineModel, n: nat) -> Result<MachineModel, ExecError> {
    if m.read.len() == 0 {
        Err(ExecError::StackUnderflow)
    } else if m.read.last().cursor + n > m.read.last().len {
        Err(ExecError::BoundsFault)
    } else {
        let r = m.read.last();
        Ok(m.with_read_top(Frame { cursor: (r.cursor + n) as usize, ..r }))
    }
}

/// Moves the active read frame's cursor back by `n` bits.
pub open spec fn back_spec(m: MachineModel, n: nat) -> Result<MachineModel, ExecError> {
    if m.read.len() == 0 {
        Err(ExecError::StackUnderflow)
    } else if m.read.last().cursor < n {
        Err(ExecError::BoundsFault)
    } else {
        let r = m.read.last();
        Ok(m.with_read_top(Frame { cursor: (r.cursor - n) as usize, ..r }))
    }
}

/// Copies `n` bits from the active read frame's cursor to the active write
/// frame's cursor; the write cursor advances past them, the read cursor stays.
pub open spec fn copy_spec(m: MachineModel, n: nat) -> Result<MachineModel, ExecError> {
    if m.write.len() == 0 || m.read.len() == 0 {
        Err(ExecError::StackUnderflow)
    } else if m.write.last().cursor + n > m.write.last().len || m.read.last().cursor + n
        > m.read.last().len {
        Err(ExecError::BoundsFault)
    } else {
        let w = m.write.last();
        let r = m.read.last();
        Ok(
            MachineModel {
                bits: copy_bits(m.bits, r.pos(), w.pos(), n),
                ..m.with_write_top(Frame { cursor: (w.cursor + n) as usize, ..w })
            },
        )
    }
}

/// Installs a value as input: a new read frame at the allocation pointer
/// holding the value's encoding, the pointer advanced past it.
pub open spec fn input_spec(m: MachineModel, v: Value) -> Result<MachineModel, ExecError> {
    let enc = encode(v);
    if m.next + enc.len() > m.bits.len() {
        Err(ExecError::BoundsFault)
    } else {
        Ok(
            MachineModel {
                bits: splice(m.bits, m.next as int, enc),
                next: m.next + enc.len(),
                read: m.read.push(Frame { start: m.next as usize, len: enc.len() as usize, cursor: 0 }),
                write: m.write,
            },
        )
    }
}

/// The value of type `t` that the active write frame holds.
pub open spec fn output_spec(m: MachineModel, t: FinalType) -> Result<Value, ExecError> {
    if m.write.len() == 0 {
        Err(ExecError::StackUnderflow)
    } else {
        let f = m.write.last();
        match decode(t, m.bits.subrange(f.start as int, f.start + f.len)) {
            Some((v, _)) => Ok(v),
            None => Err(ExecError::BoundsFault),
        }
    }
}

/// A call's outcome agrees with what the model prescribes; a failed
/// primitive leaves the machine as it was.
pub open spec fn follows(
    r: Result<(), ExecError>,
    before: MachineModel,
    after: MachineModel,
    s: Result<MachineModel, ExecError>,
) -> bool {
    match s {
        Ok(m) => r is Ok && after == m,
        Err(e) => r == Err::<(), ExecError>(e) && after == before,
    }
}

/// A call's outcome agrees with what the model prescribes; after a failure
/// the machine is well-formed but its contents are not specified.
pub open spec fn ends_as(
    r: Result<(), ExecError>,
    after: MachineModel,
    s: Result<MachineModel, ExecError>,
) -> bool {
    match s {
        Ok(m) => r is Ok && after == m,
        Err(e) => r == Err::<(), ExecError>(e),
    }
}

/// Writing two runs of bits one after the other is writing their concatenation.
pub proof fn lemma_write_bits_concat(m: MachineModel, s1: Seq<bool>, s2: Seq<bool>)
    requires
        m.wf(),
    ensures
        write_bits_spec(m, s1 + s2) == match write_bits_spec(m, s1) {
            Ok(m1) => write_bits_spec(m1, s2),
            Err(e) => Err(e),
        },
{
    if s1.len() == 0 {
        assert(s1 + s2 =~= s2);
    } else if s2.len() == 0 {
        assert(s1 + s2 =~= s1);
    } else if write_bits_spec(m, s1) is Ok {
        let w = m.write.last();
        if w.cursor + s1.len() + s2.len() <= w.len {
            let m1 = write_bits_spec(m, s1).unwrap();
            assert(m1.write.last() == Frame { cursor: (w.cursor + s1.len()) as usize, ..w });
            assert(splice(splice(m.bits, w.pos(), s1), w.pos() + s1.len(), s2) =~= splice(
                m.bits,
                w.pos(),
                s1 + s2,
            ));
            assert(m1.write.update(m1.write.len() - 1, Frame { cursor: (w.cursor + s1.len() + s2.len()) as usize, ..w })
                =~= m.write.update(m.write.len() - 1, Frame { cursor: (w.cursor + s1.len() + s2.len()) as usize, ..w }));
        }
    }
}

/// The `n` bytes that the bits from `p` on spell, eight bits each, most
/// significant bit first.
pub open spec fn bytes_at(bits: Seq<bool>, p: int, n: nat) -> Seq<u8> {
    Seq::new(n, |k: int| bits_value(bits.subrange(p + 8 * k, p + 8 * k + 8)) as u8)
}

/// Allocating a frame, committing it, and releasing it brings the
/// allocation pointer and both stacks back to where they were; the pointer
/// stays within the arena throughout.
pub proof fn lemma_frame_nesting(m: MachineModel, n: nat)
    requires
        m.wf(),
        new_frame_spec(m, n) is Ok,
    ensures
        new_frame_spec(m, n).unwrap().next <= m.bits.len(),
        move_frame_spec(new_frame_spec(m, n).unwrap()) is Ok,
        drop_frame_spec(move_frame_spec(new_frame_spec(m, n).unwrap()).unwrap()) is Ok,
        drop_frame_spec(move_frame_spec(new_frame_spec(m, n).unwrap()).unwrap()).unwrap() == m,
{
    let m1 = new_frame_spec(m, n).unwrap();
    let m2 = move_frame_spec(m1).unwrap();
    assert(m1.write.drop_last() =~= m.write);
    assert(m2.read.drop_last() =~= m.read);
}

/// An execution context for one run of a program.
pub struct BitMachine {
    /// The bytes that frames point into; allocated left to right, freed LIFO.
    pub(crate) data: Vec<u8>,
    /// The allocation pointer: first bit not allocated.
    pub(crate) next_frame_start: usize,
    pub(crate) read: Vec<Frame>,
    pub(crate) write: Vec<Frame>,
}

impl View for BitMachine {
    type V = MachineModel;

    closed spec fn view(&self) -> MachineModel {
        MachineModel {
            bits: arena_bits(self.data@),
            next: self.next_frame_start as nat,
            read: self.read@,
            write: self.write@,
        }
    }
}

impl BitMachine {
    pub open spec fn wf(&self) -> bool {
        self@.wf()
    }

    /// A machine whose arena holds `n_bits` bits, rounded up to whole bytes,
    /// all zero, with both stacks empty.
    pub fn with_capacity(n_bits: usize, frames: usize) -> (r: BitMachine)
        requires
            n_bits + 7 <= usize::MAX,
        ensures
            r.wf(),
            r@.is_fresh(n_bits as nat),
    {
        let n_bytes = (n_bits + 7) / 8;
        let data = vec![0u8; n_bytes];
        proof {
            assert forall|k: int| 0 <= k < arena_bits(data@).len() implies !arena_bits(data@)[k] by {
                let b: u8 = data@[k / 8];
                let sh: u8 = (7 - k % 8) as u8;
                assert(b == 0);
                assert((0u8 >> sh) & 1u8 == 0u8) by (bit_vector);
            }
        }
        BitMachine {
            data,
            next_frame_start: 0,
            read: Vec::with_capacity(frames),
            write: Vec::with_capacity(frames),
        }
    }

    /// Pushes a new frame of `len` bits onto the write stack.
    pub fn new_frame(&mut self, len: usize) -> (r: Result<(), ExecError>)
        requires
            old(self).wf(),
        ensures
            final(self).wf(),
            follows(r, old(self)@, final(self)@, new_frame_spec(old(self)@, len as nat)),
    {
        if len > self.data.len() * 8 - self.next_frame_start {
            return Err(ExecError::BoundsFault);
        }
        self.write.push(Frame::new(self.next_frame_start, len));
        self.next_frame_start = self.next_frame_start + len;
        assert(self@.read =~= old(self)@.read);
        Ok(())
    }

    /// Moves the active write frame to the read stack.
    pub fn move_frame(&mut self) -> (r: Result<(), ExecError>)
        requires
            old(self).wf(),
        ensures
            final(self).wf(),
            follows(r, old(self)@, final(self)@, move_frame_spec(old(self)@)),
    {
        match self.write.pop() {
            None => Err(ExecError::StackUnderflow),
            Some(mut f) => {
                f.reset_cursor();
                self.read.push(f);
                Ok(())
            },
        }
    }

    /// Drops the active read frame.
    pub fn drop_frame(&mut self) -> (r: Result<(), ExecError>)
        requires
            old(self).wf(),
        ensures
            final(self).wf(),
            follows(r, old(self)@, final(self)@, drop_frame_spec(old(self)@)),
    {
        if self.read.len() == 0 {
            return Err(ExecError::StackUnderflow);
        }
        let f = self.read[self.read.len() - 1];
        if self.next_frame_start != f.start + f.len {
            return Err(ExecError::FrameAccountingFault);
        }
        self.read.pop();
        self.next_frame_start = self.next_frame_start - f.len;
        Ok(())
    }

    /// Writes one bit to the active write frame.
    pub fn write_bit(&mut self, bit: bool) -> (r: Result<(), ExecError>)
        requires
            old(self).wf(),
        ensures
            final(self).wf(),
            follows(r, old(self)@, final(self)@, write_bits_spec(old(self)@, seq![bit])),
    {
        let n = self.write.len();
        if n == 0 {
            return Err(ExecError::StackUnderflow);
        }
        let mut f = self.write[n - 1];
        if f.cursor >= f.len {
            return Err(ExecError::BoundsFault);
        }
        assert(old(self)@.write[n - 1].fits(old(self)@.bits.len()));
        f.write_bit(bit, &mut self.data);
        self.write.set(n - 1, f);
        proof {
            let w = old(self)@.write.last();
            assert(splice(old(self)@.bits, w.pos(), seq![bit]) =~= old(self)@.bits.update(w.pos(), bit));
            assert(self@.write =~= old(self)@.with_write_top(f).write);
            assert(forall|i: int| 0 <= i < self@.write.len() ==> self@.write[i] == old(self)@.write[i] || i == n - 1);
        }
        Ok(())
    }

    /// Reads one bit from the active read frame.
    pub fn read_bit(&mut self) -> (r: Result<bool, ExecError>)
        requires
            old(self).wf(),
        ensures
            final(self).wf(),
            match read_bits_spec(old(self)@, 1) {
                Ok((m, s)) => r == Ok::<bool, ExecError>(s[0]) && final(self)@ == m,
                Err(e) => r == Err::<bool, ExecError>(e) && final(self)@ == old(self)@,
            },
    {
        let n = self.read.len();
        if n == 0 {
            return Err(ExecError::StackUnderflow);
        }
        let mut f = self.read[n - 1];
        if f.cursor >= f.len {
            return Err(ExecError::BoundsFault);
        }
        assert(old(self)@.read[n - 1].fits(old(self)@.bits.len()));
        let b = f.read_bit(&self.data);
        self.read.set(n - 1, f);
        proof {
            assert(self@.read =~= old(self)@.with_read_top(f).read);
            assert(forall|i: int| 0 <= i < self@.read.len() ==> self@.read[i] == old(self)@.read[i] || i == n - 1);
        }
        Ok(b)
    }

    /// The bit under the active read frame's cursor, which does not move.
    pub fn peek_bit(&self) -> (r: Result<bool, ExecError>)
        requires
            self.wf(),
        ensures
            r == peek_bit_spec(self@),
    {
        let n = self.read.len();
        if n == 0 {
            return Err(ExecError::StackUnderflow);
        }
        let f = self.read[n - 1];
        if f.cursor >= f.len {
            return Err(ExecError::BoundsFault);
        }
        assert(self@.read[n - 1].fits(self@.bits.len()));
        Ok(f.peek_bit(&self.data))
    }

    /// Moves the active write frame's cursor forward by `n` bits.
    pub fn skip(&mut self, n: usize) -> (r: Result<(), ExecError>)
        requires
            old(self).wf(),
        ensures
            final(self).wf(),
            follows(r, old(self)@, final(self)@, skip_spec(old(self)@, n as nat)),
    {
        let k = self.write.len();
        if k == 0 {
            return Err(ExecError::StackUnderflow);
        }
        let mut f = self.write[k - 1];
        if n > f.len - f.cursor {
            return Err(ExecError::BoundsFault);
        }
        f.move_cursor_forward(n);
        self.write.set(k - 1, f);
        proof {
            assert(self@.write =~= old(self)@.with_write_top(f).write);
            assert(forall|i: int| 0 <= i < self@.write.len() ==> self@.write[i] == old(self)@.write[i] || i == k - 1);
        }
        Ok(())
    }

    /// Moves the active read frame's cursor forward by `n` bits.
    pub fn fwd(&mut self, n: usize) -> (r: Result<(), ExecError>)
        requires
            old(self).wf(),
        ensures
            final(self).wf(),
            follows(r, old(self)@, final(self)@, fwd_spec(old(self)@, n as nat)),
    {
        let k = self.read.len();
        if k == 0 {
            return Err(ExecError::StackUnderflow);
        }
        let mut f = self.read[k - 1];
        if n > f.len - f.cursor {
            return Err(ExecError::BoundsFault);
        }
        f.move_cursor_forward(n);
        self.read.set(k - 1, f);
        proof {
            assert(self@.read =~= old(self)@.with_read_top(f).read);
            assert(forall|i: int| 0 <= i < self@.read.len() ==> self@.read[i] == old(self)@.read[i] || i == k - 1);
        }
        Ok(())
    }

    /// Moves the active read frame's cursor back by `n` bits.
    pub fn back(&mut self, n: usize) -> (r: Result<(), ExecError>)
        requires
            old(self).wf(),
        ensures
            final(self).wf(),
            follows(r, old(self)@, final(self)@, back_spec(old(self)@, n as nat)),
    {
        let k = self.read.len();
        if k == 0 {
            return Err(ExecError::StackUnderflow);
        }
        let mut f = self.read[k - 1];
        if n > f.cursor {
            return Err(ExecError::BoundsFault);
        }
        f.move_cursor_backward(n);
        self.read.set(k - 1, f);
        proof {
            assert(self@.read =~= old(self)@.with_read_top(f).read);
            assert(forall|i: int| 0 <= i < self@.read.len() ==> self@.read[i] == old(self)@.read[i] || i == k - 1);
        }
        Ok(())
    }

    /// Copies `n` bits from the active read frame to the active write frame.
    pub fn copy(&mut self, n: usize) -> (r: Result<(), ExecError>)
        requires
            old(self).wf(),
        ensures
            final(self).wf(),
            follows(r, old(self)@, final(self)@, copy_spec(old(self)@, n as nat)),
    {
        let wk = self.write.len();
        let rk = self.read.len();
        if wk == 0 || rk == 0 {
            return Err(ExecError::StackUnderflow);
        }
        let mut w = self.write[wk - 1];
        let rf = self.read[rk - 1];
        if n > w.len - w.cursor || n > rf.len - rf.cursor {
            return Err(ExecError::BoundsFault);
        }
        assert(old(self)@.write[wk - 1].fits(old(self)@.bits.len()));
        assert(old(self)@.read[rk - 1].fits(old(self)@.bits.len()));
        w.copy_from(&rf, n, &mut self.data);
        self.write.set(wk - 1, w);
        proof {
            assert(self@.write =~= old(self)@.with_write_top(w).write);
            assert(forall|i: int| 0 <= i < self@.write.len() ==> self@.write[i] == old(self)@.write[i] || i == wk - 1);
        }
        Ok(())
    }

    /// Writes the encoding of `v` to the active write frame.
    pub fn write_value(&mut self, v: &Value) -> (r: Result<(), ExecError>)
        requires
            old(self).wf(),
        ensures
            final(self).wf(),
            ends_as(r, final(self)@, write_bits_spec(old(self)@, encode(*v))),
        decreases *v,
    {
        match v {
            Value::Unit => Ok(()),
            Value::SumL(a) => {
                proof {
                    lemma_write_bits_concat(self@, seq![false], encode(**a));
                }
                self.write_bit(false)?;
                self.write_value(a)
            },
            Value::SumR(a) => {
                proof {
                    lemma_write_bits_concat(self@, seq![true], encode(**a));
                }
                self.write_bit(true)?;
                self.write_value(a)
            },
            Value::Prod(a, b) => {
                proof {
                    lemma_write_bits_concat(self@, encode(**a), encode(**b));
                }
                self.write_value(a)?;
                self.write_value(b)
            },
        }
    }

    /// Adds a read frame holding `v`, as input to a program.
    pub fn input(&mut self, v: &Value) -> (r: Result<(), ExecError>)
        requires
            old(self).wf(),
            encode(*v).len() <= usize::MAX,
        ensures
            final(self).wf(),
            ends_as(r, final(self)@, input_spec(old(self)@, *v)),
    {
        let n = v.len();
        self.new_frame(n)?;
        let ghost m1 = self@;
        self.write_value(v)?;
        let ghost m2 = self@;
        self.move_frame()?;
        proof {
            let m = old(self)@;
            let f = Frame { start: m.next as usize, len: n, cursor: 0 };
            assert(m1.write.last() == f);
            assert(m2.write.last() == Frame { cursor: n, ..f });
            assert(m2.write.drop_last() =~= m.write);
            assert(self@.write =~= m.write);
            assert(self@.read == m.read.push(f));
            assert(self@.bits == splice(m.bits, m.next as int, encode(*v)));
            assert(self@.next == m.next + n);
        }
        Ok(())
    }

    /// Writes the low `n` bits of `value`, most significant first.
    fn write_word(&mut self, value: u64, n: usize) -> (r: Result<(), ExecError>)
        requires
            old(self).wf(),
            n <= 64,
        ensures
            final(self).wf(),
            follows(r, old(self)@, final(self)@, write_bits_spec(old(self)@, be_bits(value, n as nat))),
    {
        let k = self.write.len();
        if k == 0 {
            if n == 0 {
                return Ok(());
            }
            return Err(ExecError::StackUnderflow);
        }
        let f = self.write[k - 1];
        if f.len - f.cursor < n {
            return Err(ExecError::BoundsFault);
        }
        let ghost s = be_bits(value, n as nat);
        let mut i: usize = 0;
        assert(s.take(0) =~= Seq::<bool>::empty());
        while i < n
            invariant
                self.wf(),
                i <= n <= 64,
                s == be_bits(value, n as nat),
                f == old(self)@.write.last(),
                old(self)@.write.len() > 0,
                f.cursor + n <= f.len,
                old(self)@.wf(),
                write_bits_spec(old(self)@, s.take(i as int)) == Ok::<MachineModel, ExecError>(self@),
            decreases n - i,
        {
            let b = (value >> ((n - 1 - i) as u64)) & 1u64 == 1u64;
            proof {
                lemma_write_bits_concat(old(self)@, s.take(i as int), seq![b]);
                assert(s.take(i as int) + seq![b] =~= s.take(i + 1));
            }
            let _ = self.write_bit(b);
            i = i + 1;
        }
        assert(s.take(n as int) =~= s);
        Ok(())
    }

    /// Reads `n` bits as a number, most significant first.
    fn read_word(&mut self, n: usize) -> (r: Result<u64, ExecError>)
        requires
            old(self).wf(),
            n <= 64,
        ensures
            final(self).wf(),
            match read_bits_spec(old(self)@, n as nat) {
                Ok((m, s)) => r == Ok::<u64, ExecError>(bits_value(s) as u64) && final(self)@ == m
                    && bits_value(s) < pow2(n as nat),
                Err(e) => r == Err::<u64, ExecError>(e) && final(self)@ == old(self)@,
            },
    {
        let k = self.read.len();
        if k == 0 {
            return Err(ExecError::StackUnderflow);
        }
        let mut f = self.read[k - 1];
        if f.len - f.cursor < n {
            return Err(ExecError::BoundsFault);
        }
        assert(old(self)@.read[k - 1].fits(old(self)@.bits.len()));
        let ghost bits = old(self)@.bits;
        let ghost p = f.pos();
        let ghost f0 = f;
        let mut acc: u64 = 0;
        let mut i: usize = 0;
        proof {
            assert(bits.subrange(p, p) =~= Seq::<bool>::empty());
            lemma2_to64();
            lemma2_to64_rest();
        }
        while i < n
            invariant
                i <= n <= 64,
                f0.cursor + i <= usize::MAX,
                f == (Frame { cursor: (f0.cursor + i) as usize, ..f0 }),
                f.cursor + (n - i) <= f.len,
                f.fits(bits.len()),
                bits == arena_bits(self.data@),
                self.data@ == old(self).data@,
                p == f0.pos(),
                acc == bits_value(bits.subrange(p, p + i)),
                acc < pow2(i as nat),
                pow2(63) == 0x8000000000000000,
            decreases n - i,
        {
            let b = f.read_bit(&self.data);
            proof {
                let sub = bits.subrange(p, p + i + 1);
                assert(sub.drop_last() =~= bits.subrange(p, p + i));
                lemma_pow2_unfold((i + 1) as nat);
                if i < 63 {
                    lemma_pow2_strictly_increases(i as nat, 63);
                }
            }
            acc = acc * 2 + if b { 1u64 } else { 0u64 };
            i = i + 1;
        }
        self.read.set(k - 1, f);
        proof {
            assert(self@.read =~= old(self)@.with_read_top(f).read);
            assert(forall|j: int| 0 <= j < self@.read.len() ==> self@.read[j] == old(self)@.read[j] || j == k - 1);
        }
        Ok(acc)
    }

    /// Writes a big-endian `u64` to the active write frame.
    pub fn write_u64(&mut self, value: u64) -> (r: Result<(), ExecError>)
        requires
            old(self).wf(),
        ensures
            final(self).wf(),
            follows(r, old(self)@, final(self)@, write_bits_spec(old(self)@, be_bits(value, 64))),
    {
        self.write_word(value, 64)
    }

    /// Writes a big-endian `u32` to the active write frame.
    pub fn write_u32(&mut self, value: u32) -> (r: Result<(), ExecError>)
        requires
            old(self).wf(),
        ensures
            final(self).wf(),
            follows(r, old(self)@, final(self)@, write_bits_spec(old(self)@, be_bits(value as u64, 32))),
    {
        self.write_word(value as u64, 32)
    }

    /// Writes a big-endian `u16` to the active write frame.
    pub fn write_u16(&mut self, value: u16) -> (r: Result<(), ExecError>)
        requires
            old(self).wf(),
        ensures
            final(self).wf(),
            follows(r, old(self)@, final(self)@, write_bits_spec(old(self)@, be_bits(value as u64, 16))),
    {
        self.write_word(value as u64, 16)
    }

    /// Writes a `u8` to the active write frame.
    pub fn write_u8(&mut self, value: u8) -> (r: Result<(), ExecError>)
        requires
            old(self).wf(),
        ensures
            final(self).wf(),
            follows(r, old(self)@, final(self)@, write_bits_spec(old(self)@, be_bits(value as u64, 8))),
    {
        self.write_word(value as u64, 8)
    }

    /// Reads a big-endian `u64` from the active read frame.
    pub fn read_u64(&mut self) -> (r: Result<u64, ExecError>)
        requires
            old(self).wf(),
        ensures
            final(self).wf(),
            match read_bits_spec(old(self)@, 64) {
                Ok((m, s)) => r == Ok::<u64, ExecError>(bits_value(s) as u64) && final(self)@ == m,
                Err(e) => r == Err::<u64, ExecError>(e) && final(self)@ == old(self)@,
            },
    {
        self.read_word(64)
    }

    /// Reads a big-endian `u32` from the active read frame.
    pub fn read_u32(&mut self) -> (r: Result<u32, ExecError>)
        requires
            old(self).wf(),
        ensures
            final(self).wf(),
            match read_bits_spec(old(self)@, 32) {
                Ok((m, s)) => r == Ok::<u32, ExecError>(bits_value(s) as u32) && final(self)@ == m,
                Err(e) => r == Err::<u32, ExecError>(e) && final(self)@ == old(self)@,
            },
    {
        proof { lemma2_to64(); }
        match self.read_word(32) {
            Ok(v) => Ok(v as u32),
            Err(e) => Err(e),
        }
    }

    /// Reads a big-endian `u16` from the active read frame.
    pub fn read_u16(&mut self) -> (r: Result<u16, ExecError>)
        requires
            old(self).wf(),
        ensures
            final(self).wf(),
            match read_bits_spec(old(self)@, 16) {
                Ok((m, s)) => r == Ok::<u16, ExecError>(bits_value(s) as u16) && final(self)@ == m,
                Err(e) => r == Err::<u16, ExecError>(e) && final(self)@ == old(self)@,
            },
    {
        proof { lemma2_to64(); }
        match self.read_word(16) {
            Ok(v) => Ok(v as u16),
            Err(e) => Err(e),
        }
    }

    /// Reads a `u8` from the active read frame.
    pub fn read_u8(&mut self) -> (r: Result<u8, ExecError>)
        requires
            old(self).wf(),
        ensures
            final(self).wf(),
            match read_bits_spec(old(self)@, 8) {
                Ok((m, s)) => r == Ok::<u8, ExecError>(bits_value(s) as u8) && final(self)@ == m,
                Err(e) => r == Err::<u8, ExecError>(e) && final(self)@ == old(self)@,
            },
    {
        proof { lemma2_to64(); }
        match self.read_word(8) {
            Ok(v) => Ok(v as u8),
            Err(e) => Err(e),
        }
    }

    /// Writes `bytes` to the active write frame, in order.
    pub fn write_bytes(&mut self, bytes: &[u8]) -> (r: Result<(), ExecError>)
        requires
            old(self).wf(),
        ensures
            final(self).wf(),
            follows(r, old(self)@, final(self)@, write_bits_spec(old(self)@, bytes_bits(bytes@))),
    {
        let k = self.write.len();
        if k == 0 {
            if bytes.len() == 0 {
                assert(bytes_bits(bytes@) =~= Seq::<bool>::empty());
                return Ok(());
            }
            return Err(ExecError::StackUnderflow);
        }
        let f = self.write[k - 1];
        if bytes.len() > (f.len - f.cursor) / 8 {
            return Err(ExecError::BoundsFault);
        }
        let mut i: usize = 0;
        assert(bytes_bits(bytes@.take(0)) =~= Seq::<bool>::empty());
        while i < bytes.len()
            invariant
                self.wf(),
                i <= bytes.len(),
                f == old(self)@.write.last(),
                old(self)@.write.len() > 0,
                f.cursor + 8 * bytes.len() <= f.len,
                old(self)@.wf(),
                write_bits_spec(old(self)@, bytes_bits(bytes@.take(i as int))) == Ok::<MachineModel, ExecError>(self@),
            decreases bytes.len() - i,
        {
            let b = bytes[i];
            proof {
                let pre = bytes_bits(bytes@.take(i as int));
                let nxt = bytes_bits(bytes@.take(i + 1));
                lemma_write_bits_concat(old(self)@, pre, be_bits(b as u64, 8));
                assert forall|j: int| 0 <= j < nxt.len() implies nxt[j] == (pre + be_bits(b as u64, 8))[j] by {
                    if j < 8 * i {
                        assert(j / 8 < i) by (nonlinear_arith) requires 0 <= j < 8 * i;
                    } else {
                        assert(j / 8 == i && j % 8 == j - 8 * i) by (nonlinear_arith) requires 8 * i <= j < 8 * i + 8;
                    }
                }
                assert(pre + be_bits(b as u64, 8) =~= nxt);
            }
            let _ = self.write_u8(b);
            i = i + 1;
        }
        assert(bytes@.take(bytes.len() as int) =~= bytes@);
        Ok(())
    }

    /// Decodes a value of type `t` from the arena bits in `[pos, end)`.
    fn decode_bits(&self, pos: usize, end: usize, t: &FinalType) -> (r: Option<(Value, usize)>)
        requires
            self.wf(),
            pos <= end <= self@.bits.len(),
        ensures
            match decode(*t, self@.bits.subrange(pos as int, end as int)) {
                Some((v, n)) => r == Some((v, n as usize)),
                None => r is None,
            },
        decreases *t,
    {
        let ghost bits = self@.bits.subrange(pos as int, end as int);
        proof {
            lemma_decode_consumed(*t, bits);
        }
        match &t.shape {
            TypeShape::Unit => Some((Value::Unit, 0)),
            TypeShape::Sum(l, r) => {
                if pos == end {
                    return None;
                }
                assert(bits.skip(1) =~= self@.bits.subrange(pos + 1, end as int));
                let bit = read_arena_bit(&self.data, pos);
                if !bit {
                    match self.decode_bits(pos + 1, end, l) {
                        Some((a, n)) => Some((Value::SumL(Box::new(a)), n + 1)),
                        None => None,
                    }
                } else {
                    match self.decode_bits(pos + 1, end, r) {
                        Some((b, n)) => Some((Value::SumR(Box::new(b)), n + 1)),
                        None => None,
                    }
                }
            },
            TypeShape::Product(l, r) => {
                match self.decode_bits(pos, end, l) {
                    Some((a, n)) => {
                        proof {
                            lemma_decode_consumed(**l, bits);
                        }
                        assert(bits.skip(n as int) =~= self@.bits.subrange(pos + n, end as int));
                        match self.decode_bits(pos + n, end, r) {
                            Some((b, k)) => Some((Value::Prod(Box::new(a), Box::new(b)), n + k)),
                            None => None,
                        }
                    },
                    None => None,
                }
            },
        }
    }

    /// Decodes the active write frame as a value of type `t`.
    pub fn output_value(&self, t: &FinalType) -> (r: Result<Value, ExecError>)
        requires
            self.wf(),
        ensures
            r == output_spec(self@, *t),
    {
        let k = self.write.len();
        if k == 0 {
            return Err(ExecError::StackUnderflow);
        }
        let f = self.write[k - 1];
        assert(self@.write[k - 1].fits(self@.bits.len()));
        match self.decode_bits(f.start, f.start + f.len, t) {
            Some((v, _)) => Ok(v),
            None => Err(ExecError::BoundsFault),
        }
    }

    /// Reads `n` bytes from the active read frame.
    pub fn read_bytes(&mut self, n: usize) -> (r: Result<Vec<u8>, ExecError>)
        requires
            old(self).wf(),
        ensures
            final(self).wf(),
            n == 0 ==> r is Ok && r.unwrap()@.len() == 0 && final(self)@ == old(self)@,
            n > 0 ==> match read_bits_spec(old(self)@, 8 * n as nat) {
                Ok((m, _)) => r is Ok && r.unwrap()@ == bytes_at(old(self)@.bits, old(self)@.read.last().pos(), n as nat)
                    && final(self)@ == m,
                Err(e) => r == Err::<Vec<u8>, ExecError>(e) && final(self)@ == old(self)@,
            },
    {
        let mut ret: Vec<u8> = Vec::with_capacity(n);
        if n == 0 {
            return Ok(ret);
        }
        let k = self.read.len();
        if k == 0 {
            return Err(ExecError::StackUnderflow);
        }
        let f = self.read[k - 1];
        if n > (f.len - f.cursor) / 8 {
            return Err(ExecError::BoundsFault);
        }
        let ghost m0 = old(self)@;
        let ghost p = f.pos();
        let mut i: usize = 0;
        assert(m0.read.update(m0.read.len() - 1, f) =~= m0.read);
        assert(ret@ =~= bytes_at(m0.bits, p, 0));
        while i < n
            invariant
                self.wf(),
                i <= n,
                m0 == old(self)@,
                m0.read.len() > 0,
                f == m0.read.last(),
                f.cursor + 8 * n <= f.len,
                p == f.pos(),
                self@ == m0.with_read_top(Frame { cursor: (f.cursor + 8 * i) as usize, ..f }),
                ret@ =~= bytes_at(m0.bits, p, i as nat),
            decreases n - i,
        {
            let b = self.read_u8();
            proof {
                assert(m0.with_read_top(Frame { cursor: (f.cursor + 8 * i) as usize, ..f }).read.last()
                    == Frame { cursor: (f.cursor + 8 * i) as usize, ..f });
                assert(m0.with_read_top(Frame { cursor: (f.cursor + 8 * i) as usize, ..f }).with_read_top(
                    Frame { cursor: (f.cursor + 8 * i + 8) as usize, ..f }).read
                    =~= m0.with_read_top(Frame { cursor: (f.cursor + 8 * (i + 1)) as usize, ..f }).read);
            }
            match b {
                Ok(b) => ret.push(b),
                Err(_) => {
                    return Err(ExecError::BoundsFault);
                },
            }
            i = i + 1;
        }
        assert(self@ =~= read_bits_spec(m0, 8 * n as nat).unwrap().0);
        Ok(ret)
    }

    /// Reads 32 bytes from the active read frame.
    pub fn read_32bytes(&mut self) -> (r: Result<[u8; 32], ExecError>)
        requires
            old(self).wf(),
        ensures
            final(self).wf(),
            match read_bits_spec(old(self)@, 256) {
                Ok((m, _)) => r is Ok && r.unwrap()@ == bytes_at(old(self)@.bits, old(self)@.read.last().pos(), 32)
                    && final(self)@ == m,
                Err(e) => r == Err::<[u8; 32], ExecError>(e) && final(self)@ == old(self)@,
            },
    {
        let v = self.read_bytes(32)?;
        let mut ret = [0u8; 32];
        let mut i: usize = 0;
        while i < 32
            invariant
                i <= 32,
                v@.len() == 32,
                forall|j: int| 0 <= j < i ==> ret@[j] == v@[j],
            decreases 32 - i,
        {
            ret[i] = v[i];
            i = i + 1;
        }
        assert(ret@ =~= v@);
        Ok(ret)
    }

    /// The allocation pointer, in bits.
    pub fn next_frame_start(&self) -> (r: usize)
        ensures
            r == self@.next,
    {
        self.next_frame_start
    }

    /// Number of frames on the read stack.
    pub fn read_depth(&self) -> (r: usize)
        ensures
            r == self@.read.len(),
    {
        self.read.len()
    }

    /// Number of frames on the write stack.
    pub fn write_depth(&self) -> (r: usize)
        ensures
            r == self@.write.len(),
    {
        self.write.len()
    }

    /// The active write frame, if any.
    pub fn active_write_frame(&self) -> (r: Option<Frame>)
        ensures
            self@.write.len() == 0 ==> r is None,
            self@.write.len() > 0 ==> r == Some(self@.write.last()),
    {
        if self.write.len() == 0 {
            None
        } else {
            Some(self.write[self.write.len() - 1])
        }
    }

    /// Bit `k` of the arena, if the arena has it.
    pub fn arena_bit(&self, k: usize) -> (r: Option<bool>)
        requires
            self.wf(),
        ensures
            k < self@.bits.len() ==> r == Some(self@.bits[k as int]),
            k >= self@.bits.len() ==> r is None,
    {
        if k / 8 >= self.data.len() {
            None
        } else {
            Some(read_arena_bit(&self.data, k))
        }
    }
}

} // verus!
