use vstd::prelude::*;

verus! {

/// The dimension sizes of an `NDArray`, outermost dimension first.
#[derive(Debug, Clone, PartialEq, Eq)]
pub struct Shape {
    values: Vec<usize>,
}

impl View for Shape {
    type V = Seq<usize>;

    closed spec fn view(&self) -> Seq<usize> {
        self.values@
    }
}

impl Shape {
    /// Wrap a list of dimension sizes as a shape.
    pub fn new(values: Vec<usize>) -> (s: Shape)
        ensures
            s@ == values@,
    {
        Shape { values }
    }

    /// The size of dimension `index`.
    pub fn dim(&self, index: usize) -> (d: usize)
        requires
            index < self@.len(),
        ensures
            d == self@[index as int],
    {
        self.values[index]
    }

    /// The number of dimensions.
    pub fn len(&self) -> (n: usize)
        ensures
            n == self@.len(),
    {
        self.values.len()
    }

    /// The dimension sizes as a plain vector.
    pub fn dims(&self) -> (v: &Vec<usize>)
        ensures
            v@ == self@,
    {
        &self.values
    }
}

} // verus!
