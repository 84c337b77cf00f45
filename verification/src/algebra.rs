use vstd::prelude::*;

verus! {

/// A PDF numeric object.
///
/// Integers are held as `i32`. A real number is held as the decimal text that
/// spelled it in the file (an optional sign, digits and one optional decimal
/// point), so that no floating-point value is needed to carry it.
#[derive(Debug, PartialEq)]
pub enum Number {
    Integer(i32),
    Real(Vec<u8>),
}

/// Mathematical model of a [`Number`].
pub enum NumberV {
    Integer(i32),
    Real(Seq<u8>),
}

impl View for Number {
    type V = NumberV;

    open spec fn view(&self) -> NumberV {
        match self {
            Number::Integer(i) => NumberV::Integer(*i),
            Number::Real(r) => NumberV::Real(r@),
        }
    }
}

/// The models of a sequence of numbers.
pub open spec fn numbers_view(v: Seq<Number>) -> Seq<NumberV> {
    v.map_values(|n: Number| n@)
}

/// A copy of each number of `v`.
pub fn duplicate_numbers(v: &Vec<Number>) -> (r: Vec<Number>)
    ensures
        numbers_view(r@) == numbers_view(v@),
{
    let mut out: Vec<Number> = Vec::new();
    let mut i: usize = 0;
    while i < v.len()
        invariant
            i <= v@.len(),
            out@.len() == i,
            forall|j: int| 0 <= j < i ==> (#[trigger] out@[j])@ == v@[j]@,
        decreases v@.len() - i,
    {
        out.push(v[i].duplicate());
        i = i + 1;
    }
    assert(numbers_view(out@) =~= numbers_view(v@));
    out
}

impl Number {
    /// A copy of this number.
    pub fn duplicate(&self) -> (r: Number)
        ensures
            r@ == self@,
    {
        match self {
            Number::Integer(i) => Number::Integer(*i),
            Number::Real(r) => Number::Real(r.clone()),
        }
    }
}

} // verus!
