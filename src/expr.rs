use vstd::prelude::*;

verus! {

/// The integer whose little-endian bytes are `s`.
pub open spec fn le_value(s: Seq<u8>) -> nat
    decreases s.len(),
{
    if s.len() == 0 {
        0
    } else {
        s[0] as nat + 256 * le_value(s.subrange(1, s.len() as int))
    }
}

proof fn lemma_le_value_zero(s: Seq<u8>)
    ensures
        (le_value(s) == 0) == (forall|i: int| 0 <= i < s.len() ==> s[i] == 0),
    decreases s.len(),
{
    if s.len() > 0 {
        let t = s.subrange(1, s.len() as int);
        lemma_le_value_zero(t);
        if le_value(s) == 0 {
            assert forall|i: int| 0 <= i < s.len() implies s[i] == 0 by {
                if i > 0 {
                    assert(s[i] == t[i - 1]);
                }
            }
        }
        if forall|i: int| 0 <= i < s.len() ==> s[i] == 0 {
            assert forall|i: int| 0 <= i < t.len() implies t[i] == 0 by {
                assert(t[i] == s[i + 1]);
            }
        }
    }
}

/// A field element, held as its canonical little-endian byte representation.
///
/// `repr` must be the reduced encoding: the integer it encodes is below the
/// field's order. Only then is the all-zero encoding the one zero element, so
/// that `is_zero` and abstract evaluation classify the element rightly.
#[derive(Debug, Clone)]
pub struct FieldElement {
    pub repr: Vec<u8>,
}

impl FieldElement {
    /// The integer that the representation encodes.
    pub open spec fn value(&self) -> nat {
        le_value(self.repr@)
    }

    /// The element is the field's zero.
    pub fn is_zero(&self) -> (r: bool)
        ensures
            r == (self.value() == 0),
    {
        proof {
            lemma_le_value_zero(self.repr@);
        }
        let mut i: usize = 0;
        while i < self.repr.len()
            invariant
                i <= self.repr@.len(),
                (self.value() == 0) == (forall|j: int|
                    0 <= j < self.repr@.len() ==> self.repr@[j] == 0),
                forall|j: int| 0 <= j < i ==> self.repr@[j] == 0,
            decreases self.repr@.len() - i,
        {
            if self.repr[i] != 0 {
                assert(self.repr@[i as int] != 0);
                return false;
            }
            i = i + 1;
        }
        true
    }
}

/// The kind of a circuit column.
#[derive(Debug, Clone, Copy, PartialEq, Eq, Structural)]
pub enum ColumnKind {
    Advice,
    Fixed,
    Instance,
    Selector,
}

/// A circuit column: its index among the columns of its kind, and the kind.
#[derive(Debug, Clone, Copy, PartialEq, Eq, Structural)]
pub struct Column {
    pub index: usize,
    pub kind: ColumnKind,
}

/// A signed row offset relative to the row at which a constraint is evaluated.
#[derive(Debug, Clone, Copy, PartialEq, Eq, Structural)]
pub struct Rotation(pub i32);

/// A selector, identified by its index.
#[derive(Debug, Clone, Copy, PartialEq, Eq, Structural)]
pub struct Selector(pub usize);

/// A gate polynomial.
#[derive(Debug)]
pub enum Expression {
    Constant(FieldElement),
    Selector(Selector),
    Fixed { column: usize, rotation: Rotation },
    Advice { column: usize, rotation: Rotation },
    Instance { column: usize, rotation: Rotation },
    Negated(Box<Expression>),
    Sum(Box<Expression>, Box<Expression>),
    Product(Box<Expression>, Box<Expression>),
    Scaled(Box<Expression>, FieldElement),
    Challenge(usize),
}

/// What the layout holds in one cell of a column.
#[derive(Debug, Clone)]
pub enum CellValue {
    Unassigned,
    Assigned(FieldElement),
    /// Assigned, but marked invalid by the layout (e.g. conflicting writes).
    Poisoned,
}

} // verus!
