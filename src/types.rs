//! Structural types, values, and the pre-order bit encoding of values.
use vstd::prelude::*;

verus! {

/// The shape of a finalized type.
#[derive(Debug, PartialEq, Eq)]
pub enum TypeShape {
    Unit,
    Sum(Box<FinalType>, Box<FinalType>),
    Product(Box<FinalType>, Box<FinalType>),
}

/// A finalized type together with its precomputed bit width.
#[derive(Debug, PartialEq, Eq)]
pub struct FinalType {
    pub shape: TypeShape,
    pub bit_width: usize,
}

/// Number of bits a value of type `t` occupies in a frame: sums are padded
/// to their wider arm.
pub open spec fn width(t: FinalType) -> nat
    decreases t,
{
    match t.shape {
        TypeShape::Unit => 0,
        TypeShape::Sum(a, b) => 1 + vstd::math::max(width(*a) as int, width(*b) as int) as nat,
        TypeShape::Product(a, b) => width(*a) + width(*b),
    }
}

/// The stored widths agree with the structure, at every level.
pub open spec fn type_wf(t: FinalType) -> bool
    decreases t,
{
    &&& t.bit_width == width(t)
    &&& match t.shape {
        TypeShape::Unit => true,
        TypeShape::Sum(a, b) => type_wf(*a) && type_wf(*b),
        TypeShape::Product(a, b) => type_wf(*a) && type_wf(*b),
    }
}

/// An immutable algebraic value.
#[derive(Debug, PartialEq, Eq)]
pub enum Value {
    Unit,
    SumL(Box<Value>),
    SumR(Box<Value>),
    Prod(Box<Value>, Box<Value>),
}

impl Value {
    /// Length of the value's encoding, in bits.
    pub fn len(&self) -> (r: usize)
        requires
            encode(*self).len() <= usize::MAX,
        ensures
            r == encode(*self).len(),
        decreases *self,
    {
        match self {
            Value::Unit => 0,
            Value::SumL(a) => 1 + a.len(),
            Value::SumR(a) => 1 + a.len(),
            Value::Prod(a, b) => a.len() + b.len(),
        }
    }
}

/// Pre-order, tag-then-payload encoding without padding.
pub open spec fn encode(v: Value) -> Seq<bool>
    decreases v,
{
    match v {
        Value::Unit => Seq::empty(),
        Value::SumL(a) => seq![false] + encode(*a),
        Value::SumR(a) => seq![true] + encode(*a),
        Value::Prod(a, b) => encode(*a) + encode(*b),
    }
}

/// `v` is a value of type `t`.
pub open spec fn has_type(v: Value, t: FinalType) -> bool
    decreases v,
{
    match (v, t.shape) {
        (Value::Unit, TypeShape::Unit) => true,
        (Value::SumL(a), TypeShape::Sum(l, _)) => has_type(*a, *l),
        (Value::SumR(b), TypeShape::Sum(_, r)) => has_type(*b, *r),
        (Value::Prod(a, b), TypeShape::Product(l, r)) => has_type(*a, *l) && has_type(*b, *r),
        _ => false,
    }
}

/// Decodes a value of type `t` from the front of `bits`, with the number of
/// bits consumed; the type, not the bits, says what each bit means.
pub open spec fn decode(t: FinalType, bits: Seq<bool>) -> Option<(Value, nat)>
    decreases t,
{
    match t.shape {
        TypeShape::Unit => Some((Value::Unit, 0)),
        TypeShape::Sum(l, r) => {
            if bits.len() == 0 {
                None
            } else if !bits[0] {
                match decode(*l, bits.skip(1)) {
                    Some((a, n)) => Some((Value::SumL(Box::new(a)), n + 1)),
                    None => None,
                }
            } else {
                match decode(*r, bits.skip(1)) {
                    Some((b, n)) => Some((Value::SumR(Box::new(b)), n + 1)),
                    None => None,
                }
            }
        },
        TypeShape::Product(l, r) => match decode(*l, bits) {
            Some((a, n)) => match decode(*r, bits.skip(n as int)) {
                Some((b, k)) => Some((Value::Prod(Box::new(a), Box::new(b)), n + k)),
                None => None,
            },
            None => None,
        },
    }
}

/// Decoding the encoding of a typed value, whatever follows it, gives the
/// value back and consumes exactly its encoding.
pub proof fn lemma_decode_encode(v: Value, t: FinalType, rest: Seq<bool>)
    requires
        has_type(v, t),
    ensures
        decode(t, encode(v) + rest) == Some((v, encode(v).len())),
    decreases v,
{
    match (v, t.shape) {
        (Value::Unit, TypeShape::Unit) => {
            assert(encode(v) + rest =~= rest);
        },
        (Value::SumL(a), TypeShape::Sum(l, _)) => {
            lemma_decode_encode(*a, *l, rest);
            assert((encode(v) + rest).skip(1) =~= encode(*a) + rest);
        },
        (Value::SumR(b), TypeShape::Sum(_, r)) => {
            lemma_decode_encode(*b, *r, rest);
            assert((encode(v) + rest).skip(1) =~= encode(*b) + rest);
        },
        (Value::Prod(a, b), TypeShape::Product(l, r)) => {
            lemma_decode_encode(*a, *l, encode(*b) + rest);
            assert(encode(v) + rest =~= encode(*a) + (encode(*b) + rest));
            lemma_decode_encode(*b, *r, rest);
            assert((encode(*a) + (encode(*b) + rest)).skip(encode(*a).len() as int) =~= encode(*b)
                + rest);
        },
        _ => {},
    }
}

/// Decoding never consumes more bits than it is given.
pub proof fn lemma_decode_consumed(t: FinalType, bits: Seq<bool>)
    ensures
        decode(t, bits) is Some ==> decode(t, bits).unwrap().1 <= bits.len(),
    decreases t,
{
    match t.shape {
        TypeShape::Unit => {},
        TypeShape::Sum(l, r) => {
            if bits.len() > 0 {
                lemma_decode_consumed(*l, bits.skip(1));
                lemma_decode_consumed(*r, bits.skip(1));
            }
        },
        TypeShape::Product(l, r) => {
            lemma_decode_consumed(*l, bits);
            if decode(*l, bits) is Some {
                let n = decode(*l, bits).unwrap().1;
                lemma_decode_consumed(*r, bits.skip(n as int));
            }
        },
    }
}

/// A typed value's encoding never exceeds its type's width.
pub proof fn lemma_encode_len(v: Value, t: FinalType)
    requires
        has_type(v, t),
    ensures
        encode(v).len() <= width(t),
    decreases v,
{
    match (v, t.shape) {
        (Value::SumL(a), TypeShape::Sum(l, _)) => lemma_encode_len(*a, *l),
        (Value::SumR(b), TypeShape::Sum(_, r)) => lemma_encode_len(*b, *r),
        (Value::Prod(a, b), TypeShape::Product(l, r)) => {
            lemma_encode_len(*a, *l);
            lemma_encode_len(*b, *r);
        },
        _ => {},
    }
}

/// Decoding succeeds on any run of bits at least as long as the type's width.
pub proof fn lemma_decode_total(t: FinalType, bits: Seq<bool>)
    requires
        bits.len() >= width(t),
    ensures
        decode(t, bits) is Some,
        decode(t, bits).unwrap().1 <= width(t),
    decreases t,
{
    match t.shape {
        TypeShape::Unit => {},
        TypeShape::Sum(l, r) => {
            lemma_decode_total(*l, bits.skip(1));
            lemma_decode_total(*r, bits.skip(1));
        },
        TypeShape::Product(l, r) => {
            lemma_decode_total(*l, bits);
            let n = decode(*l, bits).unwrap().1;
            lemma_decode_total(*r, bits.skip(n as int));
        },
    }
}

} // verus!
