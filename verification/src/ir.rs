//! The instruction data model: literals, operand values and instructions,
//! each with the mathematical view that the contracts of the passes speak of.

use vstd::prelude::*;

verus! {

/// The stable identity of an instruction: its slot in the program's arena.
/// It is assigned once, when the instruction is created, and never reused.
#[derive(Copy, Clone, PartialEq, Eq, Hash, PartialOrd, Ord, Debug, Structural)]
pub struct InstRef(pub usize);

/// A 32-bit IEEE-754 number held by its bit pattern, so that equality and
/// hashing are those of the bits. Every NaN is held as one pattern.
#[derive(Copy, Clone, PartialEq, Eq, Hash, PartialOrd, Ord, Debug, Structural)]
pub struct SafeF32(pub u32);

/// The bit pattern that stands for every NaN.
pub const CANONICAL_NAN: u32 = 0x7fc0_0000;

/// The bit pattern of the number one.
pub const ONE_BITS: u32 = 0x3f80_0000;

/// Whether `bits` encodes a NaN: the exponent is all ones and the fraction is
/// not zero.
pub open spec fn is_nan_bits(bits: u32) -> bool {
    (bits % 0x8000_0000) > 0x7f80_0000
}

/// The pattern under which `bits` is stored: itself, or the one NaN.
pub open spec fn canonical_bits(bits: u32) -> u32 {
    if is_nan_bits(bits) {
        CANONICAL_NAN
    } else {
        bits
    }
}

impl SafeF32 {
    /// The stored pattern.
    pub open spec fn bits(self) -> u32 {
        self.0
    }

    /// No NaN but the canonical one is stored.
    pub open spec fn wf(self) -> bool {
        is_nan_bits(self.0) ==> self.0 == CANONICAL_NAN
    }

    /// The number whose pattern is `bits`, with NaN made canonical.
    pub fn from_bits(bits: u32) -> (r: SafeF32)
        ensures
            r.bits() == canonical_bits(bits),
            r.wf(),
    {
        let magnitude: u32 = bits & 0x7fff_ffff;
        assert(magnitude == bits % 0x8000_0000) by (bit_vector)
            requires
                magnitude == bits & 0x7fff_ffff,
        ;
        if magnitude > 0x7f80_0000 {
            SafeF32(CANONICAL_NAN)
        } else {
            SafeF32(bits)
        }
    }

    /// The stored pattern.
    pub fn to_bits(&self) -> (r: u32)
        ensures
            r == self.bits(),
    {
        self.0
    }

    /// Stores the number whose pattern is `bits`, with NaN made canonical.
    pub fn set_bits(&mut self, bits: u32)
        ensures
            final(self).bits() == canonical_bits(bits),
            final(self).wf(),
    {
        *self = SafeF32::from_bits(bits);
    }
}

/// A literal operand.
#[derive(Copy, Clone, PartialEq, Eq, Hash, Debug, Structural)]
pub enum Literal {
    Integer(i32),
    Float(SafeF32),
}

/// An operand of an instruction.
#[derive(Debug, Hash)]
pub enum Value {
    /// A number written in the program.
    Literal(Literal),
    /// The result of another instruction.
    Inst(InstRef),
    /// A named operand: an input, a variable, an output or a constant.
    Variable(String),
}

/// What a [`Value`] is in contracts: names are sequences of characters.
pub enum ValueView {
    Literal(Literal),
    Inst(InstRef),
    Variable(Seq<char>),
}

impl View for Value {
    type V = ValueView;

    open spec fn view(&self) -> ValueView {
        match *self {
            Value::Literal(l) => ValueView::Literal(l),
            Value::Inst(r) => ValueView::Inst(r),
            Value::Variable(name) => ValueView::Variable(name@),
        }
    }
}

impl Clone for Value {
    fn clone(&self) -> (r: Self)
        ensures
            r@ == self@,
    {
        match self {
            Value::Literal(l) => Value::Literal(*l),
            Value::Inst(i) => Value::Inst(*i),
            Value::Variable(name) => Value::Variable(name.clone()),
        }
    }
}

impl PartialEq for Value {
    fn eq(&self, other: &Self) -> (r: bool) {
        match (self, other) {
            (Value::Literal(a), Value::Literal(b)) => *a == *b,
            (Value::Inst(a), Value::Inst(b)) => *a == *b,
            (Value::Variable(a), Value::Variable(b)) => *a == *b,
            _ => false,
        }
    }
}

impl vstd::std_specs::cmp::PartialEqSpecImpl for Value {
    open spec fn obeys_eq_spec() -> bool {
        true
    }

    open spec fn eq_spec(&self, other: &Self) -> bool {
        self@ == other@
    }
}

impl Eq for Value {

}

/// Whether `v` names the instruction `r`.
pub fn names_inst(v: &Value, r: InstRef) -> (b: bool)
    ensures
        b == (v@ == ValueView::Inst(r)),
{
    match v {
        Value::Inst(i) => *i == r,
        _ => false,
    }
}

/// The views of a list of operands, in order.
pub open spec fn values_view(values: Seq<Value>) -> Seq<ValueView> {
    values.map_values(|v: Value| v@)
}

/// A copy of `values` with the same views.
pub fn clone_values(values: &Vec<Value>) -> (r: Vec<Value>)
    ensures
        values_view(r@) == values_view(values@),
{
    let mut out: Vec<Value> = Vec::new();
    let mut i: usize = 0;
    while i < values.len()
        invariant
            i <= values.len(),
            out.len() == i,
            forall|k: int| 0 <= k < i ==> out[k]@ == values[k]@,
        decreases values.len() - i,
    {
        out.push(values[i].clone());
        i += 1;
    }
    assert(values_view(out@) =~= values_view(values@));
    out
}

/// Whether two operand lists are equal, operand by operand.
pub fn values_eq(a: &Vec<Value>, b: &Vec<Value>) -> (r: bool)
    ensures
        r == (values_view(a@) == values_view(b@)),
{
    if a.len() != b.len() {
        assert(values_view(a@).len() != values_view(b@).len());
        return false;
    }
    let mut i: usize = 0;
    while i < a.len()
        invariant
            i <= a.len(),
            a.len() == b.len(),
            forall|k: int| 0 <= k < i ==> a[k]@ == b[k]@,
        decreases a.len() - i,
    {
        if !(a[i] == b[i]) {
            assert(values_view(a@)[i as int] != values_view(b@)[i as int]);
            return false;
        }
        i += 1;
    }
    assert(values_view(a@) =~= values_view(b@));
    true
}

} // verus!
