//! Bit-level view of the byte arena, and frames: cursor-tracking windows
//! into it that own no storage.
use vstd::prelude::*;

verus! {

/// Bit `k` of the arena, most-significant bit of each byte first.
pub open spec fn arena_bit(data: Seq<u8>, k: int) -> bool {
    (data[k / 8] >> ((7 - k % 8) as u8)) & 1u8 == 1u8
}

/// The arena as a sequence of bits.
pub open spec fn arena_bits(data: Seq<u8>) -> Seq<bool> {
    Seq::new((data.len() * 8) as nat, |k: int| arena_bit(data, k))
}

/// `bits` with the positions from `pos` on replaced by `s`.
pub open spec fn splice(bits: Seq<bool>, pos: int, s: Seq<bool>) -> Seq<bool> {
    Seq::new(bits.len(), |k: int| if pos <= k < pos + s.len() { s[k - pos] } else { bits[k] })
}

/// Copies `n` bits one at a time, in increasing order, from position `p`
/// to position `q`.
pub open spec fn copy_bits(bits: Seq<bool>, p: int, q: int, n: nat) -> Seq<bool>
    decreases n,
{
    if n == 0 {
        bits
    } else {
        let prev = copy_bits(bits, p, q, (n - 1) as nat);
        prev.update(q + n - 1, prev[p + n - 1])
    }
}

/// When the target run lies after the source run, copying bit by bit is
/// copying the source run as a whole.
pub proof fn lemma_copy_bits_disjoint(bits: Seq<bool>, p: int, q: int, n: nat)
    requires
        0 <= p,
        p + n <= q,
        q + n <= bits.len(),
    ensures
        copy_bits(bits, p, q, n).len() == bits.len(),
        forall|k: int|
            0 <= k < bits.len() ==> #[trigger] copy_bits(bits, p, q, n)[k] == if q <= k < q + n {
                bits[p + k - q]
            } else {
                bits[k]
            },
    decreases n,
{
    if n > 0 {
        lemma_copy_bits_disjoint(bits, p, q, (n - 1) as nat);
    }
}

/// The low `n` bits of `v`, most significant first.
pub open spec fn be_bits(v: u64, n: nat) -> Seq<bool> {
    Seq::new(n, |i: int| (v >> ((n - 1 - i) as u64)) & 1u64 == 1u64)
}

/// The bytes `b` as bits, each byte most significant bit first.
pub open spec fn bytes_bits(b: Seq<u8>) -> Seq<bool> {
    Seq::new(8 * b.len(), |k: int| be_bits(b[k / 8] as u64, 8)[k % 8])
}

/// The number that `s` spells in binary, most significant bit first.
pub open spec fn bits_value(s: Seq<bool>) -> nat
    decreases s.len(),
{
    if s.len() == 0 {
        0
    } else {
        2 * bits_value(s.drop_last()) + if s.last() {
            1nat
        } else {
            0nat
        }
    }
}

proof fn lemma_set_bit(byte: u8, i: u8, j: u8)
    requires
        i < 8,
        j < 8,
    ensures
        (((byte | (1u8 << i)) >> j) & 1u8 == 1u8) == (i == j || (byte >> j) & 1u8 == 1u8),
        (((byte & !(1u8 << i)) >> j) & 1u8 == 1u8) == (i != j && (byte >> j) & 1u8 == 1u8),
{
    assert((((byte | (1u8 << i)) >> j) & 1u8 == 1u8) == (i == j || (byte >> j) & 1u8 == 1u8))
        by (bit_vector)
        requires
            i < 8,
            j < 8,
    ;
    assert((((byte & !(1u8 << i)) >> j) & 1u8 == 1u8) == (i != j && (byte >> j) & 1u8 == 1u8))
        by (bit_vector)
        requires
            i < 8,
            j < 8,
    ;
}

/// Reads bit `k` of the arena.
pub fn read_arena_bit(data: &Vec<u8>, k: usize) -> (r: bool)
    requires
        k < data@.len() * 8,
    ensures
        r == arena_bits(data@)[k as int],
{
    ((data[k / 8] >> ((7 - k % 8) as u8)) & 1u8) == 1u8
}

/// Sets bit `k` of the arena to `bit`, leaving every other bit as it was.
pub fn write_arena_bit(data: &mut Vec<u8>, k: usize, bit: bool)
    requires
        k < old(data)@.len() * 8,
    ensures
        final(data)@.len() == old(data)@.len(),
        arena_bits(final(data)@) == arena_bits(old(data)@).update(k as int, bit),
{
    let idx = k / 8;
    let sh = (7 - k % 8) as u8;
    let byte = data[idx];
    let nb = if bit {
        byte | (1u8 << sh)
    } else {
        byte & !(1u8 << sh)
    };
    data.set(idx, nb);
    proof {
        let old_bits = arena_bits(old(data)@);
        let new_bits = arena_bits(data@);
        assert forall|j: int| 0 <= j < new_bits.len() implies new_bits[j] == old_bits.update(
            k as int,
            bit,
        )[j] by {
            if j / 8 == idx as int {
                lemma_set_bit(byte, sh, (7 - j % 8) as u8);
            }
        }
        assert(new_bits =~= old_bits.update(k as int, bit));
    }
}

/// A window of `len` bits starting at bit `start` of the arena, with a
/// cursor in `[0, len]`.
#[derive(Clone, Copy, Debug, PartialEq, Eq)]
pub struct Frame {
    pub start: usize,
    pub len: usize,
    pub cursor: usize,
}

impl Frame {
    /// The frame lies inside an arena of `cap` bits, addressable by `usize`,
    /// and its cursor inside the frame.
    pub open spec fn fits(self, cap: nat) -> bool {
        &&& self.start + self.len <= cap
        &&& self.cursor <= self.len
        &&& cap <= usize::MAX
    }

    /// Arena position of the cursor.
    pub open spec fn pos(self) -> int {
        self.start + self.cursor
    }

    pub fn new(start: usize, len: usize) -> (r: Frame)
        ensures
            r == (Frame { start, len, cursor: 0 }),
    {
        Frame { start, len, cursor: 0 }
    }

    pub fn reset_cursor(&mut self)
        ensures
            *final(self) == (Frame { cursor: 0, ..*old(self) }),
    {
        self.cursor = 0;
    }

    pub fn move_cursor_forward(&mut self, n: usize)
        requires
            old(self).cursor + n <= old(self).len,
        ensures
            *final(self) == (Frame { cursor: (old(self).cursor + n) as usize, ..*old(self) }),
    {
        self.cursor = self.cursor + n;
    }

    pub fn move_cursor_backward(&mut self, n: usize)
        requires
            n <= old(self).cursor,
        ensures
            *final(self) == (Frame { cursor: (old(self).cursor - n) as usize, ..*old(self) }),
    {
        self.cursor = self.cursor - n;
    }

    /// Reads the bit under the cursor without moving it.
    pub fn peek_bit(&self, data: &Vec<u8>) -> (r: bool)
        requires
            self.fits(data@.len() * 8),
            self.cursor < self.len,
        ensures
            r == arena_bits(data@)[self.pos()],
    {
        read_arena_bit(data, self.start + self.cursor)
    }

    /// Reads the bit under the cursor and advances past it.
    pub fn read_bit(&mut self, data: &Vec<u8>) -> (r: bool)
        requires
            old(self).fits(data@.len() * 8),
            old(self).cursor < old(self).len,
        ensures
            r == arena_bits(data@)[old(self).pos()],
            *final(self) == (Frame { cursor: (old(self).cursor + 1) as usize, ..*old(self) }),
    {
        let r = read_arena_bit(data, self.start + self.cursor);
        self.cursor = self.cursor + 1;
        r
    }

    /// Writes `bit` under the cursor and advances past it.
    pub fn write_bit(&mut self, bit: bool, data: &mut Vec<u8>)
        requires
            old(self).fits(old(data)@.len() * 8),
            old(self).cursor < old(self).len,
        ensures
            final(data)@.len() == old(data)@.len(),
            arena_bits(final(data)@) == arena_bits(old(data)@).update(old(self).pos(), bit),
            *final(self) == (Frame { cursor: (old(self).cursor + 1) as usize, ..*old(self) }),
    {
        write_arena_bit(data, self.start + self.cursor, bit);
        self.cursor = self.cursor + 1;
    }

    /// Copies `n` bits from `other`'s cursor to this frame's cursor. Only
    /// this frame's cursor advances.
    pub fn copy_from(&mut self, other: &Frame, n: usize, data: &mut Vec<u8>)
        requires
            old(self).fits(old(data)@.len() * 8),
            other.fits(old(data)@.len() * 8),
            old(self).cursor + n <= old(self).len,
            other.cursor + n <= other.len,
        ensures
            final(data)@.len() == old(data)@.len(),
            arena_bits(final(data)@) == copy_bits(
                arena_bits(old(data)@),
                other.pos(),
                old(self).pos(),
                n as nat,
            ),
            *final(self) == (Frame { cursor: (old(self).cursor + n) as usize, ..*old(self) }),
    {
        let p = other.start + other.cursor;
        let q = self.start + self.cursor;
        let mut i: usize = 0;
        while i < n
            invariant
                i <= n,
                data@.len() == old(data)@.len(),
                p + n <= data@.len() * 8,
                q + n <= data@.len() * 8,
                data@.len() * 8 <= usize::MAX,
                p == other.pos(),
                q == old(self).pos(),
                arena_bits(data@) == copy_bits(arena_bits(old(data)@), p as int, q as int, i as nat),
            decreases n - i,
        {
            let b = read_arena_bit(data, p + i);
            write_arena_bit(data, q + i, b);
            i = i + 1;
        }
        self.cursor = self.cursor + n;
    }
}

} // verus!
