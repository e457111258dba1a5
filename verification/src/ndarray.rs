use vstd::prelude::*;
use vstd::arithmetic::div_mod::lemma_div_multiples_vanish;
use crate::shape::Shape;

verus! {

/// The rows a list of row indices selects out of a row-major buffer of the
/// given row width, in the order the indices are given.
pub open spec fn select_rows<T>(vals: Seq<T>, width: int, idx: Seq<usize>) -> Seq<T>
    decreases idx.len(),
{
    if idx.len() == 0 {
        Seq::empty()
    } else {
        select_rows(vals, width, idx.drop_last()) + vals.subrange(
            (idx.last() as int) * width,
            (idx.last() as int) * width + width,
        )
    }
}

/// The distinct values of a sequence, each in the position of its first
/// occurrence.
pub open spec fn spec_unique<T>(s: Seq<T>) -> Seq<T>
    decreases s.len(),
{
    if s.len() == 0 {
        Seq::empty()
    } else {
        let prefix = spec_unique(s.drop_last());
        if prefix.contains(s.last()) {
            prefix
        } else {
            prefix.push(s.last())
        }
    }
}

pub proof fn lemma_select_rows_len<T>(vals: Seq<T>, width: int, idx: Seq<usize>)
    requires
        width >= 0,
        forall|t: int| 0 <= t < idx.len() ==> (idx[t] as int) * width + width <= vals.len(),
    ensures
        select_rows(vals, width, idx).len() == idx.len() * width,
    decreases idx.len(),
{
    if idx.len() > 0 {
        assert(forall|t: int|
            0 <= t < idx.len() - 1 ==> (idx.drop_last()[t] as int) * width + width <= vals.len());
        lemma_select_rows_len(vals, width, idx.drop_last());
        assert((idx.last() as int) * width >= 0) by (nonlinear_arith)
            requires
                idx.last() as int >= 0,
                width >= 0,
        ;
        assert((idx.len() - 1) * width + width == idx.len() * width) by (nonlinear_arith);
    }
}

/// Each selected row reads back, cell for cell, as the row its index names.
pub proof fn lemma_select_rows_cell<T>(vals: Seq<T>, width: int, idx: Seq<usize>, r: int, j: int)
    requires
        width >= 0,
        0 <= r < idx.len(),
        0 <= j < width,
        forall|t: int| 0 <= t < idx.len() ==> (idx[t] as int) * width + width <= vals.len(),
    ensures
        select_rows(vals, width, idx)[r * width + j] == vals[(idx[r] as int) * width + j],
    decreases idx.len(),
{
    assert(forall|t: int|
        0 <= t < idx.len() - 1 ==> (idx.drop_last()[t] as int) * width + width <= vals.len());
    lemma_select_rows_len(vals, width, idx.drop_last());
    if r == idx.len() - 1 {
        assert(r * width + j - (idx.len() - 1) * width == j);
    } else {
        lemma_select_rows_cell(vals, width, idx.drop_last(), r, j);
        assert(r * width + j < (idx.len() - 1) * width) by (nonlinear_arith)
            requires
                0 <= j < width,
                0 <= r <= idx.len() - 2,
        ;
    }
}

/// The number of cells a shape describes: the product of its dimension sizes.
pub open spec fn spec_product(dims: Seq<usize>) -> int
    decreases dims.len(),
{
    if dims.len() == 0 {
        1
    } else {
        spec_product(dims.drop_last()) * (dims.last() as int)
    }
}

/// Every prefix product of the dimension sizes fits in a machine word, so the
/// size computation of a constructor cannot overflow.
pub open spec fn products_fit(dims: Seq<usize>) -> bool {
    forall|i: int| 0 <= i <= dims.len() ==> spec_product(#[trigger] dims.take(i)) <= usize::MAX
}

/// The row-major linear offset of a multi-index: the last dimension varies
/// fastest.
pub open spec fn spec_offset(shape: Seq<usize>, indices: Seq<usize>) -> int
    recommends
        shape.len() == indices.len(),
    decreases shape.len(),
{
    if shape.len() == 0 {
        0
    } else {
        spec_offset(shape.drop_last(), indices.drop_last()) * (shape.last() as int)
            + indices.last()
    }
}

pub proof fn lemma_product_nonneg(dims: Seq<usize>)
    ensures
        spec_product(dims) >= 0,
    decreases dims.len(),
{
    if dims.len() > 0 {
        lemma_product_nonneg(dims.drop_last());
    }
}

/// Peeling the first dimension off a product.
pub proof fn lemma_product_first(dims: Seq<usize>)
    requires
        dims.len() > 0,
    ensures
        spec_product(dims) == (dims[0] as int) * spec_product(dims.drop_first()),
    decreases dims.len(),
{
    if dims.len() == 1 {
        assert(dims.drop_first() =~= dims.drop_last());
    } else {
        let d0 = dims[0] as int;
        let last = dims.last() as int;
        let mid = spec_product(dims.drop_first().drop_last());
        lemma_product_first(dims.drop_last());
        assert(dims.drop_last().drop_first() =~= dims.drop_first().drop_last());
        assert(dims.drop_last()[0] == dims[0]);
        assert(spec_product(dims.drop_last()) == d0 * mid);
        assert(spec_product(dims) == (d0 * mid) * last);
        assert(spec_product(dims.drop_first()) == mid * last);
        assert((d0 * mid) * last == d0 * (mid * last)) by (nonlinear_arith);
    }
}

/// The product of a single dimension is that dimension.
pub proof fn lemma_product_one(dims: Seq<usize>)
    requires
        dims.len() == 1,
    ensures
        spec_product(dims) == dims[0] as int,
{
    assert(dims.drop_last() =~= Seq::<usize>::empty());
    assert(spec_product(Seq::<usize>::empty()) == 1);
    assert(spec_product(dims) == spec_product(dims.drop_last()) * (dims.last() as int));
}

/// The product of a two dimensional shape is rows times columns.
pub proof fn lemma_product_two(dims: Seq<usize>)
    requires
        dims.len() == 2,
    ensures
        spec_product(dims) == (dims[0] as int) * (dims[1] as int),
{
    lemma_product_one(dims.drop_last());
    assert(dims.drop_last()[0] == dims[0]);
    assert(spec_product(dims) == spec_product(dims.drop_last()) * (dims.last() as int));
}

/// A product splits across a cut into the product of the two parts.
pub proof fn lemma_product_split(dims: Seq<usize>, k: int)
    requires
        0 <= k <= dims.len(),
    ensures
        spec_product(dims) == spec_product(dims.take(k)) * spec_product(dims.skip(k)),
    decreases dims.len() - k,
{
    if k == dims.len() {
        assert(dims.take(k) =~= dims);
        assert(dims.skip(k) =~= Seq::<usize>::empty());
    } else {
        lemma_product_split(dims, k + 1);
        lemma_product_first(dims.skip(k));
        assert(dims.skip(k).drop_first() =~= dims.skip(k + 1));
        assert(dims.skip(k)[0] == dims[k]);
        assert(dims.take(k + 1).drop_last() =~= dims.take(k));
        assert(dims.take(k + 1).last() == dims[k]);
        assert(spec_product(dims.take(k + 1)) == spec_product(dims.take(k)) * (dims[k] as int));
        assert(spec_product(dims.take(k)) * (dims[k] as int) * spec_product(dims.skip(k + 1))
            == spec_product(dims.take(k)) * ((dims[k] as int) * spec_product(dims.skip(k + 1))))
            by (nonlinear_arith);
    }
}

/// A positive product means every dimension is positive.
pub proof fn lemma_product_pos_dims(dims: Seq<usize>)
    requires
        spec_product(dims) > 0,
    ensures
        forall|i: int| 0 <= i < dims.len() ==> dims[i] >= 1,
    decreases dims.len(),
{
    if dims.len() > 0 {
        lemma_product_nonneg(dims.drop_last());
        assert(spec_product(dims) == spec_product(dims.drop_last()) * (dims.last() as int));
        assert(spec_product(dims.drop_last()) > 0 && dims.last() as int > 0) by (nonlinear_arith)
            requires
                spec_product(dims.drop_last()) * (dims.last() as int) > 0,
                spec_product(dims.drop_last()) >= 0,
        ;
        lemma_product_pos_dims(dims.drop_last());
        assert(forall|i: int| 0 <= i < dims.len() - 1 ==> dims.drop_last()[i] == dims[i]);
    }
}

/// A linear offset is never negative.
pub proof fn lemma_offset_nonneg(shape: Seq<usize>, indices: Seq<usize>)
    ensures
        spec_offset(shape, indices) >= 0,
    decreases shape.len(),
{
    if shape.len() > 0 {
        lemma_offset_nonneg(shape.drop_last(), indices.drop_last());
        assert(spec_offset(shape.drop_last(), indices.drop_last()) * (shape.last() as int) >= 0)
            by (nonlinear_arith)
            requires
                spec_offset(shape.drop_last(), indices.drop_last()) >= 0,
        ;
    }
}

/// A dense numeric array of fixed rank: a row-major contiguous buffer together
/// with its shape metadata.
#[derive(Debug, Clone, PartialEq)]
pub struct NDArray<T> {
    shape: Shape,
    size: usize,
    rank: usize,
    values: Vec<T>,
}

/// The mathematical image of an `NDArray`: its dimension sizes and the
/// row-major sequence of its cells.
#[verifier::ext_equal]
pub struct NDArrayView<T> {
    pub shape: Seq<usize>,
    pub values: Seq<T>,
}

impl<T> View for NDArray<T> {
    type V = NDArrayView<T>;

    closed spec fn view(&self) -> NDArrayView<T> {
        NDArrayView { shape: self.shape@, values: self.values@ }
    }
}

impl<T> NDArray<T> {
    /// The cached size and rank agree with the stored shape and buffer.
    pub closed spec fn inv(&self) -> bool {
        &&& self.rank == self.shape@.len()
        &&& self.size as int == spec_product(self.shape@)
        &&& self.size == self.values@.len()
    }

    /// Well-formed: the buffer holds exactly one cell per shape position,
    /// and a machine word can count the cells.
    pub open spec fn wf(&self) -> bool {
        &&& self.inv()
        &&& self@.values.len() == spec_product(self@.shape)
        &&& spec_product(self@.shape) <= usize::MAX
    }
}

impl<T: Copy + Default> NDArray<T> {
    /// Gets the rank of the current array.
    pub fn rank(&self) -> (r: usize)
        requires
            self.wf(),
        ensures
            r == self@.shape.len(),
    {
        self.rank
    }

    /// Returns the shape dimensions of the array.
    pub fn shape(&self) -> (s: &Shape)
        ensures
            s@ == self@.shape,
    {
        &self.shape
    }

    /// Get the values stored in the array.
    pub fn values(&self) -> (v: &Vec<T>)
        ensures
            v@ == self@.values,
    {
        &self.values
    }

    /// Get the current calculated size of the contiguous array.
    pub fn size(&self) -> (n: usize)
        requires
            self.wf(),
        ensures
            n == self@.values.len(),
            n as int == spec_product(self@.shape),
    {
        self.size
    }

    /// Get the value at a linear buffer index.
    pub fn idx(&self, index: usize) -> (v: &T)
        requires
            index < self@.values.len(),
        ensures
            *v == self@.values[index as int],
    {
        &self.values[index]
    }

    /// Create an instance of `NDArray` holding default values, providing the
    /// shape dimensions as parameter. Fails when the shape describes more
    /// cells than a machine word can count.
    pub fn new(shape: Vec<usize>) -> (r: Result<NDArray<T>, String>)
        ensures
            r is Ok <==> products_fit(shape@),
            r matches Ok(nd) ==> {
                &&& nd.wf()
                &&& nd@.shape == shape@
                &&& nd@.values.len() == spec_product(shape@)
                &&& forall|j: int, k: int|
                    0 <= j < nd@.values.len() && 0 <= k < nd@.values.len()
                        ==> nd@.values[j] == nd@.values[k]
            },
    {
        let calculated_rank = shape.len();
        let size_opt = checked_product(&shape);
        let calculated_size = match size_opt {
            Some(s) => s,
            None => {
                return Err("Values don't match size based on dimensions".to_string());
            },
        };
        let fill_value = T::default();
        let mut values: Vec<T> = Vec::new();
        while values.len() < calculated_size
            invariant
                values@.len() <= calculated_size,
                forall|k: int| 0 <= k < values@.len() ==> values@[k] == fill_value,
            decreases calculated_size - values@.len(),
        {
            values.push(fill_value);
        }
        Ok(NDArray { shape: Shape::new(shape), size: calculated_size, rank: calculated_rank, values })
    }

    /// Create an instance of `NDArray`, providing shape dimensions and the
    /// array values as parameters. The values must match the size the shape
    /// describes.
    pub fn array(shape: Vec<usize>, values: Vec<T>) -> (r: Result<NDArray<T>, String>)
        ensures
            r is Ok <==> products_fit(shape@) && values@.len() == spec_product(shape@),
            r matches Ok(nd) ==> {
                &&& nd.wf()
                &&& nd@.shape == shape@
                &&& nd@.values == values@
            },
    {
        let calculated_rank = shape.len();
        let size_opt = checked_product(&shape);
        let calculated_size = match size_opt {
            Some(s) => s,
            None => {
                return Err("Values don't match size based on dimensions".to_string());
            },
        };
        if values.len() != calculated_size {
            return Err("Values don't match size based on dimensions".to_string());
        }
        Ok(NDArray { shape: Shape::new(shape), size: calculated_size, rank: calculated_rank, values })
    }
}

/// The multi-index a row-major linear offset falls at: remainders by the
/// dimension sizes, innermost dimension first, with the leftover quotient in
/// the outermost position.
pub open spec fn spec_unindex(shape: Seq<usize>, index: int) -> Seq<usize>
    decreases shape.len(),
{
    if shape.len() <= 1 {
        seq![index as usize]
    } else {
        spec_unindex(shape.drop_last(), index / (shape.last() as int)).push(
            (index % (shape.last() as int)) as usize,
        )
    }
}

/// Every dimension of a shape with at least one cell admits one as a factor.
pub proof fn lemma_product_min_one(dims: Seq<usize>)
    requires
        forall|i: int| 0 <= i < dims.len() ==> dims[i] >= 1,
    ensures
        spec_product(dims) >= 1,
    decreases dims.len(),
{
    if dims.len() > 0 {
        assert(forall|i: int| 0 <= i < dims.len() - 1 ==> dims.drop_last()[i] == dims[i]);
        lemma_product_min_one(dims.drop_last());
        assert(spec_product(dims.drop_last()) * (dims.last() as int) >= 1) by (nonlinear_arith)
            requires
                spec_product(dims.drop_last()) >= 1,
                dims.last() as int >= 1,
        ;
    }
}

impl<T: Copy + Default> NDArray<T> {
    /// Get the contiguous index of the array cell the provided indices name.
    /// Fails when the index tuple length mismatches the rank or the linear
    /// offset would exceed the buffer.
    pub fn index(&self, indices: Vec<usize>) -> (r: Result<usize, String>)
        requires
            self.wf(),
        ensures
            r is Ok <==> {
                &&& indices@.len() == self@.shape.len()
                &&& self@.values.len() > 0
                &&& spec_offset(self@.shape, indices@) < self@.values.len()
            },
            r matches Ok(off) ==> off as int == spec_offset(self@.shape, indices@),
    {
        if indices.len() != self.rank {
            return Err("Indexing doesn't match rank of ndarray".to_string());
        }
        if self.size == 0 {
            return Err("Index out of bounds".to_string());
        }
        let ghost shp = self.shape@;
        let ghost ind = indices@;
        proof {
            lemma_product_pos_dims(shp);
        }
        let mut stride: usize = 1;
        let mut index: usize = 0;
        let mut counter: usize = self.rank;
        proof {
            assert(shp.take(counter as int) =~= shp);
            assert(ind.take(counter as int) =~= ind);
            assert(shp.skip(counter as int) =~= Seq::<usize>::empty());
        }
        while counter > 0
            invariant
                self.wf(),
                shp == self@.shape,
                ind == indices@,
                ind.len() == shp.len(),
                counter <= shp.len(),
                self@.values.len() > 0,
                self@.values.len() == spec_product(shp),
                forall|i: int| 0 <= i < shp.len() ==> shp[i] >= 1,
                stride as int == spec_product(shp.skip(counter as int)),
                spec_offset(shp, ind) == spec_offset(
                    shp.take(counter as int),
                    ind.take(counter as int),
                ) * spec_product(shp.skip(counter as int)) + index,
            decreases counter,
        {
            let ghost c = counter as int;
            let k = counter - 1;
            proof {
                lemma_offset_nonneg(shp.take(c - 1), ind.take(c - 1));
                lemma_product_nonneg(shp.skip(c));
                lemma_product_split(shp, c - 1);
                lemma_product_min_one(shp.take(c - 1));
                lemma_product_first(shp.skip(c - 1));
                assert(shp.skip(c - 1).drop_first() =~= shp.skip(c));
                assert(shp.skip(c - 1)[0] == shp[c - 1]);
                // the stride for the next round still fits in the buffer size
                assert(spec_product(shp.skip(c - 1)) <= spec_product(shp)) by (nonlinear_arith)
                    requires
                        spec_product(shp) == spec_product(shp.take(c - 1)) * spec_product(
                            shp.skip(c - 1),
                        ),
                        spec_product(shp.take(c - 1)) >= 1,
                        spec_product(shp.skip(c - 1)) >= 0,
                ;
                // unfold the offset of the prefix of length counter
                assert(shp.take(c).drop_last() =~= shp.take(c - 1));
                assert(ind.take(c).drop_last() =~= ind.take(c - 1));
                assert(shp.take(c).last() == shp[c - 1]);
                assert(ind.take(c).last() == ind[c - 1]);
                assert(spec_offset(shp.take(c), ind.take(c)) == spec_offset(
                    shp.take(c - 1),
                    ind.take(c - 1),
                ) * (shp[c - 1] as int) + ind[c - 1]);
                assert((spec_offset(shp.take(c - 1), ind.take(c - 1)) * (shp[c - 1] as int)
                    + ind[c - 1]) * spec_product(shp.skip(c)) == spec_offset(
                    shp.take(c - 1),
                    ind.take(c - 1),
                ) * ((shp[c - 1] as int) * spec_product(shp.skip(c))) + (ind[c - 1] as int)
                    * spec_product(shp.skip(c))) by (nonlinear_arith);
            }
            let temp = match stride.checked_mul(indices[k]) {
                Some(t) => t,
                None => {
                    proof {
                        assert(spec_offset(shp, ind) > usize::MAX) by (nonlinear_arith)
                            requires
                                spec_offset(shp, ind) == spec_offset(
                                    shp.take(c - 1),
                                    ind.take(c - 1),
                                ) * spec_product(shp.skip(c - 1)) + (ind[c - 1] as int)
                                    * spec_product(shp.skip(c)) + index,
                                spec_offset(shp.take(c - 1), ind.take(c - 1)) >= 0,
                                spec_product(shp.skip(c - 1)) >= 0,
                                (ind[c - 1] as int) * spec_product(shp.skip(c)) > usize::MAX,
                                index >= 0,
                        ;
                    }
                    return Err("Index out of bounds".to_string());
                },
            };
            let new_index = match index.checked_add(temp) {
                Some(n) => n,
                None => {
                    proof {
                        assert(spec_offset(shp, ind) > usize::MAX) by (nonlinear_arith)
                            requires
                                spec_offset(shp, ind) == spec_offset(
                                    shp.take(c - 1),
                                    ind.take(c - 1),
                                ) * spec_product(shp.skip(c - 1)) + (ind[c - 1] as int)
                                    * spec_product(shp.skip(c)) + index,
                                spec_offset(shp.take(c - 1), ind.take(c - 1)) >= 0,
                                spec_product(shp.skip(c - 1)) >= 0,
                                (ind[c - 1] as int) * spec_product(shp.skip(c)) + index
                                    > usize::MAX,
                        ;
                    }
                    return Err("Index out of bounds".to_string());
                },
            };
            index = new_index;
            proof {
                assert(spec_product(shp.skip(c - 1)) == (shp[c - 1] as int) * spec_product(
                    shp.skip(c),
                ));
                assert(stride as int * (shp[c - 1] as int) == spec_product(shp.skip(c - 1)))
                    by (nonlinear_arith)
                    requires
                        stride as int == spec_product(shp.skip(c)),
                        spec_product(shp.skip(c - 1)) == (shp[c - 1] as int) * spec_product(
                            shp.skip(c),
                        ),
                ;
                assert(stride as int * (shp[c - 1] as int) <= usize::MAX);
            }
            stride = stride * self.shape.dim(k);
            counter = k;
        }
        proof {
            assert(shp.take(0int) =~= Seq::<usize>::empty());
            assert(ind.take(0int) =~= Seq::<usize>::empty());
            assert(shp.skip(0int) =~= shp);
        }
        if index > self.size - 1 {
            return Err("Index out of bounds".to_string());
        }
        Ok(index)
    }

    /// Get the value the provided indices name. The indices must name a cell
    /// inside the buffer.
    pub fn get(&self, indices: Vec<usize>) -> (v: &T)
        requires
            self.wf(),
            indices@.len() == self@.shape.len(),
            self@.values.len() > 0,
            spec_offset(self@.shape, indices@) < self@.values.len(),
        ensures
            *v == self@.values[spec_offset(self@.shape, indices@)],
    {
        let ghost target = spec_offset(self@.shape, indices@);
        match self.index(indices) {
            Ok(off) => &self.values[off],
            Err(_) => {
                proof {
                    assert(false);
                }
                &self.values[0]
            },
        }
    }

    /// Get the multi-index of a contiguous buffer offset.
    pub fn indices(&self, index: usize) -> (r: Result<Vec<usize>, String>)
        requires
            self.wf(),
        ensures
            r is Ok <==> self@.shape.len() >= 1 && index < self@.values.len(),
            r matches Ok(v) ==> v@ == spec_unindex(self@.shape, index as int),
    {
        if self.size == 0 || index > self.size - 1 {
            return Err("Index out of bounds".to_string());
        }
        if self.rank == 0 {
            return Err("Indexing doesn't match rank of ndarray".to_string());
        }
        let ghost shp = self.shape@;
        proof {
            lemma_product_pos_dims(shp);
        }
        let mut indexs: Vec<usize> = Vec::new();
        while indexs.len() < self.rank
            invariant
                indexs@.len() <= self.rank,
                self.wf(),
            decreases self.rank - indexs@.len(),
        {
            indexs.push(0);
        }
        let mut count: usize = self.rank - 1;
        let mut curr_index: usize = index;
        proof {
            assert(shp.take(count + 1) =~= shp);
            assert(indexs@.skip(count + 1) =~= Seq::<usize>::empty());
            assert(spec_unindex(shp, index as int) + Seq::<usize>::empty() =~= spec_unindex(
                shp,
                index as int,
            ));
        }
        while count > 0
            invariant
                self.wf(),
                shp == self@.shape,
                shp.len() >= 1,
                count < shp.len(),
                indexs@.len() == shp.len(),
                forall|i: int| 0 <= i < shp.len() ==> shp[i] >= 1,
                spec_unindex(shp, index as int) =~= spec_unindex(
                    shp.take(count + 1),
                    curr_index as int,
                ) + indexs@.skip(count + 1),
            decreases count,
        {
            let ghost c = count as int;
            let dim_size = self.shape.dim(count);
            proof {
                assert(shp.take(c + 1).drop_last() =~= shp.take(c));
                assert(shp.take(c + 1).last() == shp[c]);
            }
            indexs.set(count, curr_index % dim_size);
            curr_index = curr_index / dim_size;
            count = count - 1;
            proof {
                assert(spec_unindex(shp, index as int) =~= spec_unindex(
                    shp.take(count + 1),
                    curr_index as int,
                ) + indexs@.skip(count + 1));
            }
        }
        indexs.set(0, curr_index);
        proof {
            assert(shp.take(1int).len() == 1);
            assert(spec_unindex(shp.take(1int), curr_index as int) =~= seq![curr_index]);
            assert(indexs@ =~= seq![curr_index] + indexs@.skip(1int));
        }
        Ok(indexs)
    }

    /// Set the value at a linear buffer index. The index must lie within the
    /// buffer.
    pub fn set_idx(&mut self, idx: usize, value: T) -> (r: Result<(), String>)
        requires
            old(self).wf(),
        ensures
            r is Ok <==> idx < old(self)@.values.len(),
            r is Ok ==> {
                &&& final(self).wf()
                &&& final(self)@.shape == old(self)@.shape
                &&& final(self)@.values == old(self)@.values.update(idx as int, value)
            },
            r is Err ==> *final(self) == *old(self),
    {
        if idx >= self.values.len() {
            return Err("Index out of bounds".to_string());
        }
        self.values.set(idx, value);
        Ok(())
    }

    /// Set the value the provided indices name. The indices must match the
    /// rank of the array and name a cell inside the buffer.
    pub fn set(&mut self, indices: Vec<usize>, value: T) -> (r: Result<(), String>)
        requires
            old(self).wf(),
        ensures
            r is Ok <==> {
                &&& indices@.len() == old(self)@.shape.len()
                &&& old(self)@.values.len() > 0
                &&& spec_offset(old(self)@.shape, indices@) < old(self)@.values.len()
            },
            r is Ok ==> {
                &&& final(self).wf()
                &&& final(self)@.shape == old(self)@.shape
                &&& final(self)@.values == old(self)@.values.update(
                    spec_offset(old(self)@.shape, indices@),
                    value,
                )
            },
            r is Err ==> *final(self) == *old(self),
    {
        if indices.len() != self.rank {
            return Err("Indices length don't match rank of ndarray".to_string());
        }
        let index = match self.index(indices) {
            Ok(off) => off,
            Err(e) => {
                return Err(e);
            },
        };
        self.values.set(index, value);
        Ok(())
    }

    /// Overwrite every cell with the one provided value.
    pub fn fill(&mut self, value: T)
        requires
            old(self).wf(),
        ensures
            final(self).wf(),
            final(self)@.shape == old(self)@.shape,
            final(self)@.values == Seq::new(old(self)@.values.len(), |i: int| value),
    {
        let mut index: usize = 0;
        let n = self.values.len();
        while index < n
            invariant
                self.wf(),
                index <= n,
                n == self@.values.len(),
                self@.shape == old(self)@.shape,
                forall|i: int| 0 <= i < index ==> self@.values[i] == value,
            decreases n - index,
        {
            self.values.set(index, value);
            index = index + 1;
        }
        proof {
            assert(self@.values =~= Seq::new(old(self)@.values.len(), |i: int| value));
        }
    }

    /// Reshape the array to new dimensions. The new shape must match the
    /// rank and size of the array.
    pub fn reshape(&mut self, shape_vals: Vec<usize>) -> (r: Result<(), String>)
        requires
            old(self).wf(),
        ensures
            r is Ok <==> {
                &&& shape_vals@.len() == old(self)@.shape.len()
                &&& products_fit(shape_vals@)
                &&& spec_product(shape_vals@) == old(self)@.values.len()
            },
            r is Ok ==> {
                &&& final(self).wf()
                &&& final(self)@.shape == shape_vals@
                &&& final(self)@.values == old(self)@.values
            },
            r is Err ==> *final(self) == *old(self),
    {
        if shape_vals.len() != self.rank {
            return Err("New Shape values don't match rank of array".to_string());
        }
        let size_validate = match checked_product(&shape_vals) {
            Some(s) => s,
            None => {
                return Err("New Shape values don't match size of array".to_string());
            },
        };
        if size_validate != self.size {
            return Err("New Shape values don't match size of array".to_string());
        }
        self.shape = Shape::new(shape_vals);
        Ok(())
    }

    /// Get one row of a multi dimensional array: the cells whose outermost
    /// coordinate is `index`.
    pub fn rows(&self, index: usize) -> (r: Result<Vec<T>, String>)
        requires
            self.wf(),
        ensures
            r is Ok <==> {
                &&& self@.shape.len() >= 1
                &&& self@.shape[0] > 0
                &&& (spec_product(self@.shape.drop_first()) == 0 || index < self@.shape[0])
            },
            r matches Ok(v) ==> v@ == self@.values.subrange(
                (index as int) * spec_product(self@.shape.drop_first()),
                (index as int) * spec_product(self@.shape.drop_first()) + spec_product(
                    self@.shape.drop_first(),
                ),
            ),
    {
        let ghost shp = self@.shape;
        if self.rank == 0 {
            return Err("Index out of bounds".to_string());
        }
        let dim_shape = self.shape.dim(0);
        if dim_shape == 0 {
            return Err("Index out of bounds".to_string());
        }
        let ghost rest = spec_product(shp.drop_first());
        proof {
            lemma_product_first(shp);
            lemma_product_nonneg(shp.drop_first());
            lemma_div_multiples_vanish(rest, dim_shape as int);
            assert(self.size as int == (dim_shape as int) * rest);
        }
        let result_length = self.size / dim_shape;
        if result_length > 0 && index >= dim_shape {
            return Err("Index out of bounds".to_string());
        }
        let ghost base = (index as int) * rest;
        proof {
            assert(result_length as int == rest);
            if result_length > 0 {
                assert(base + rest <= (dim_shape as int) * rest) by (nonlinear_arith)
                    requires
                        base == (index as int) * rest,
                        index as int + 1 <= dim_shape as int,
                        rest >= 0,
                ;
            } else {
                assert(base == 0) by (nonlinear_arith)
                    requires
                        base == (index as int) * rest,
                        rest == 0,
                        index as int >= 0,
                ;
            }
            assert(self@.values.subrange(base, base) =~= Seq::<T>::empty());
        }
        let mut result: Vec<T> = Vec::new();
        let mut i: usize = 0;
        while i < result_length
            invariant
                self.wf(),
                shp == self@.shape,
                i <= result_length,
                result_length as int == rest,
                base == (index as int) * rest,
                base + rest <= self@.values.len(),
                index as int * result_length as int == base,
                result@ == self@.values.subrange(base, base + i),
            decreases result_length - i,
        {
            let pos = index * result_length + i;
            result.push(self.values[pos]);
            proof {
                assert(self@.values.subrange(base, base + i + 1) =~= self@.values.subrange(
                    base,
                    base + i,
                ).push(self@.values[base + i]));
            }
            i = i + 1;
        }
        Ok(result)
    }

    /// Get one column of a multi dimensional array: the cells whose second
    /// coordinate is `index`.
    pub fn cols(&self, index: usize) -> (r: Result<Vec<T>, String>)
        requires
            self.wf(),
        ensures
            r is Ok <==> {
                &&& self@.shape.len() >= 2
                &&& self@.shape[1] > 0
                &&& (self@.values.len() == 0 || index < self@.shape[1])
            },
            r matches Ok(v) ==> v@ == Seq::new(
                ((self@.values.len() as int) / (self@.shape[1] as int)) as nat,
                |k: int| self@.values[k * (self@.shape[1] as int) + index],
            ),
    {
        let ghost shp = self@.shape;
        if self.rank < 2 {
            return Err("Indexing doesn't match rank of ndarray".to_string());
        }
        let dim_shape = self.shape.dim(1);
        if dim_shape == 0 {
            return Err("Index out of bounds".to_string());
        }
        let ghost d0 = shp[0] as int;
        let ghost rest2 = spec_product(shp.drop_first().drop_first());
        let ghost collen = rest2 * d0;
        proof {
            lemma_product_first(shp);
            lemma_product_first(shp.drop_first());
            lemma_product_nonneg(shp.drop_first().drop_first());
            assert(shp.drop_first()[0] == shp[1]);
            assert(spec_product(shp) == d0 * ((shp[1] as int) * rest2));
            assert(d0 * ((shp[1] as int) * rest2) == (shp[1] as int) * collen) by (nonlinear_arith)
                requires
                    collen == rest2 * d0,
            ;
            assert(collen >= 0) by (nonlinear_arith)
                requires
                    collen == rest2 * d0,
                    rest2 >= 0,
                    d0 >= 0,
            ;
            lemma_div_multiples_vanish(collen, dim_shape as int);
            assert(self.size as int == (dim_shape as int) * collen);
            assert(self.size as int / (dim_shape as int) == collen);
        }
        let result_length = self.size / dim_shape;
        if self.size > 0 && index >= dim_shape {
            return Err("Index out of bounds".to_string());
        }
        let ghost w = dim_shape as int;
        proof {
            assert(result_length as int * w == self@.values.len()) by (nonlinear_arith)
                requires
                    result_length as int == collen,
                    self@.values.len() == (dim_shape as int) * collen,
                    w == dim_shape as int,
            ;
        }
        let mut result: Vec<T> = Vec::new();
        let mut i: usize = 0;
        while i < result_length
            invariant
                self.wf(),
                shp == self@.shape,
                shp.len() >= 2,
                i <= result_length,
                w == self@.shape[1] as int,
                w == dim_shape as int,
                w > 0,
                result_length as int * w == self@.values.len(),
                self@.values.len() > 0 ==> index < w,
                result@ == Seq::new(i as nat, |k: int| self@.values[k * w + index]),
            decreases result_length - i,
        {
            proof {
                assert(self@.values.len() > 0) by (nonlinear_arith)
                    requires
                        result_length as int >= 1,
                        w >= 1,
                        self@.values.len() == result_length as int * w,
                ;
                assert((i as int) * w + index < (result_length as int) * w) by (nonlinear_arith)
                    requires
                        i as int + 1 <= result_length as int,
                        0 <= index,
                        index < w,
                        w >= 1,
                ;
                assert((i as int) * w >= 0) by (nonlinear_arith)
                    requires
                        i as int >= 0,
                        w >= 0,
                ;
            }
            let pos = index + i * dim_shape;
            result.push(self.values[pos]);
            proof {
                assert(result@ =~= Seq::new((i + 1) as nat, |k: int| self@.values[k * w + index]));
            }
            i = i + 1;
        }
        proof {
            if self@.values.len() == 0 {
                assert(result@ =~= Seq::new(
                    ((self@.values.len() as int) / (self@.shape[1] as int)) as nat,
                    |k: int| self@.values[k * (self@.shape[1] as int) + index],
                ));
            }
        }
        Ok(result)
    }

    /// Split a rank-2 array into consecutive chunks of `batch_size` rows, in
    /// the original row order. Fails when the batch size is zero or at least
    /// the row count, or when the array is not of rank 2.
    pub fn batch(&self, batch_size: usize) -> (r: Result<Vec<NDArray<T>>, String>)
        requires
            self.wf(),
        ensures
            r is Ok <==> self@.shape.len() == 2 && 1 <= batch_size < self@.shape[0],
            r matches Ok(v) ==> {
                &&& v@.len() == (self@.shape[0] as int) / (batch_size as int)
                &&& forall|k: int|
                    0 <= k < v@.len() ==> {
                        &&& (#[trigger] v@[k]).wf()
                        &&& v@[k]@.shape == seq![batch_size, self@.shape[1]]
                        &&& v@[k]@.values == self@.values.subrange(
                            k * (batch_size as int) * (self@.shape[1] as int),
                            (k + 1) * (batch_size as int) * (self@.shape[1] as int),
                        )
                    }
            },
    {
        let ghost shp = self@.shape;
        if batch_size == 0 {
            return Err("Batch size out of bounds".to_string());
        }
        if self.rank != 2 {
            return Err("NDArray must be of rank 2".to_string());
        }
        let rows_dim = self.shape.dim(0);
        if batch_size >= rows_dim {
            return Err("Batch size out of bounds".to_string());
        }
        let cols_dim = self.shape.dim(1);
        proof {
            lemma_product_two(shp);
            assert((batch_size as int) * (cols_dim as int) <= (rows_dim as int) * (cols_dim as int))
                by (nonlinear_arith)
                requires
                    batch_size <= rows_dim,
                    cols_dim as int >= 0,
            ;
        }
        let chunk = batch_size * cols_dim;
        let n_batches = rows_dim / batch_size;
        proof {
            vstd::arithmetic::div_mod::lemma_fundamental_div_mod(rows_dim as int, batch_size as int);
            vstd::arithmetic::div_mod::lemma_mod_division_less_than_divisor(
                rows_dim as int,
                batch_size as int,
            );
            assert((n_batches as int) * (chunk as int) <= (rows_dim as int) * (cols_dim as int))
                by (nonlinear_arith)
                requires
                    (batch_size as int) * (n_batches as int) <= rows_dim as int,
                    chunk as int == (batch_size as int) * (cols_dim as int),
                    cols_dim as int >= 0,
                    n_batches as int >= 0,
                    batch_size as int >= 1,
            ;
        }
        let mut batches: Vec<NDArray<T>> = Vec::new();
        let mut k: usize = 0;
        while k < n_batches
            invariant
                self.wf(),
                shp == self@.shape,
                shp.len() == 2,
                k <= n_batches,
                chunk as int == (batch_size as int) * (shp[1] as int),
                cols_dim == shp[1],
                (n_batches as int) * (chunk as int) <= self@.values.len(),
                batches@.len() == k,
                forall|t: int|
                    0 <= t < k ==> {
                        &&& (#[trigger] batches@[t]).wf()
                        &&& batches@[t]@.shape == seq![batch_size, shp[1]]
                        &&& batches@[t]@.values == self@.values.subrange(
                            t * (batch_size as int) * (shp[1] as int),
                            (t + 1) * (batch_size as int) * (shp[1] as int),
                        )
                    },
            decreases n_batches - k,
        {
            proof {
                assert((k as int + 1) * (chunk as int) <= (n_batches as int) * (chunk as int))
                    by (nonlinear_arith)
                    requires
                        k as int + 1 <= n_batches as int,
                        chunk as int >= 0,
                ;
                assert(k as int * (chunk as int) >= 0) by (nonlinear_arith)
                    requires
                        k as int >= 0,
                        chunk as int >= 0,
                ;
                assert((k as int) * (chunk as int) + chunk as int == (k as int + 1) * (
                chunk as int)) by (nonlinear_arith);
            }
            let base = k * chunk;
            proof {
                assert(self@.values.subrange(base as int, base as int) =~= Seq::<T>::empty());
            }
            let mut vals: Vec<T> = Vec::new();
            let mut j: usize = 0;
            while j < chunk
                invariant
                    self.wf(),
                    j <= chunk,
                    base as int == (k as int) * (chunk as int),
                    base + chunk <= self@.values.len(),
                    vals@ == self@.values.subrange(base as int, base as int + j),
                decreases chunk - j,
            {
                vals.push(self.values[base + j]);
                proof {
                    assert(self@.values.subrange(base as int, base as int + j + 1)
                        =~= self@.values.subrange(base as int, base as int + j).push(
                        self@.values[base as int + j],
                    ));
                }
                j = j + 1;
            }
            let shape_vec = vec![batch_size, cols_dim];
            proof {
                assert(shape_vec@ =~= seq![batch_size, cols_dim]);
                lemma_product_two(shape_vec@);
            }
            let nd = NDArray {
                shape: Shape::new(shape_vec),
                size: chunk,
                rank: 2,
                values: vals,
            };
            batches.push(nd);
            proof {
                assert((k as int) * (batch_size as int) * (shp[1] as int) == (k as int) * (
                chunk as int)) by (nonlinear_arith)
                    requires
                        chunk as int == (batch_size as int) * (shp[1] as int),
                ;
                assert((k as int + 1) * (batch_size as int) * (shp[1] as int) == (k as int + 1) * (
                chunk as int)) by (nonlinear_arith)
                    requires
                        chunk as int == (batch_size as int) * (shp[1] as int),
                ;
            }
            k = k + 1;
        }
        Ok(batches)
    }

    /// Extract the one dimensional slice at `index` along dimension
    /// `axis_dim` of a rank-2 array: a row for the outer dimension, a column
    /// for the inner one.
    pub fn axis(&self, axis_dim: usize, index: usize) -> (r: Result<NDArray<T>, String>)
        requires
            self.wf(),
        ensures
            r is Ok <==> self@.shape.len() == 2 && axis_dim <= 1 && index < self@.shape[
                axis_dim as int],
            r matches Ok(nd) ==> {
                &&& nd.wf()
                &&& (axis_dim == 0 ==> nd@.shape == seq![self@.shape[1]] && nd@.values
                    == self@.values.subrange(
                    (index as int) * (self@.shape[1] as int),
                    (index as int) * (self@.shape[1] as int) + (self@.shape[1] as int),
                ))
                &&& (axis_dim == 1 ==> nd@.shape == seq![self@.shape[0]] && nd@.values == Seq::new(
                    self@.shape[0] as nat,
                    |k: int| self@.values[k * (self@.shape[1] as int) + index],
                ))
            },
    {
        let ghost shp = self@.shape;
        if self.rank != 2 {
            return Err("NDArray must be of rank 2".to_string());
        }
        if axis_dim > 1 {
            return Err("Axis dimension out of bounds".to_string());
        }
        let d0 = self.shape.dim(0);
        let d1 = self.shape.dim(1);
        proof {
            lemma_product_two(shp);
        }
        if axis_dim == 0 {
            if index >= d0 {
                return Err("Index out of bounds".to_string());
            }
            proof {
                assert((index as int) * (d1 as int) + (d1 as int) <= (d0 as int) * (d1 as int))
                    by (nonlinear_arith)
                    requires
                        index as int + 1 <= d0 as int,
                        d1 as int >= 0,
                ;
                assert((index as int) * (d1 as int) >= 0) by (nonlinear_arith)
                    requires
                        index as int >= 0,
                        d1 as int >= 0,
                ;
            }
            let base = index * d1;
            let mut vals: Vec<T> = Vec::new();
            let mut j: usize = 0;
            while j < d1
                invariant
                    self.wf(),
                    j <= d1,
                    base as int == (index as int) * (d1 as int),
                    base + d1 <= self@.values.len(),
                    vals@ == self@.values.subrange(base as int, base as int + j),
                decreases d1 - j,
            {
                vals.push(self.values[base + j]);
                proof {
                    assert(self@.values.subrange(base as int, base as int + j + 1)
                        =~= self@.values.subrange(base as int, base as int + j).push(
                        self@.values[base as int + j],
                    ));
                }
                j = j + 1;
            }
            let shape_vec = vec![d1];
            proof {
                assert(shape_vec@ =~= seq![d1]);
                lemma_product_one(shape_vec@);
            }
            Ok(NDArray { shape: Shape::new(shape_vec), size: d1, rank: 1, values: vals })
        } else {
            if index >= d1 {
                return Err("Index out of bounds".to_string());
            }
            let mut vals: Vec<T> = Vec::new();
            let mut kk: usize = 0;
            while kk < d0
                invariant
                    self.wf(),
                    shp == self@.shape,
                    shp.len() == 2,
                    kk <= d0,
                    d0 == shp[0],
                    d1 == shp[1],
                    index < d1,
                    self@.values.len() == (d0 as int) * (d1 as int),
                    vals@ == Seq::new(kk as nat, |k: int| self@.values[k * (d1 as int) + index]),
                decreases d0 - kk,
            {
                proof {
                    assert((kk as int) * (d1 as int) + index < (d0 as int) * (d1 as int))
                        by (nonlinear_arith)
                        requires
                            kk as int + 1 <= d0 as int,
                            0 <= index < d1 as int,
                    ;
                    assert((kk as int) * (d1 as int) >= 0) by (nonlinear_arith)
                        requires
                            kk as int >= 0,
                            d1 as int >= 0,
                    ;
                }
                let pos = kk * d1 + index;
                vals.push(self.values[pos]);
                proof {
                    assert(vals@ =~= Seq::new(
                        (kk + 1) as nat,
                        |k: int| self@.values[k * (d1 as int) + index],
                    ));
                }
                kk = kk + 1;
            }
            let shape_vec = vec![d0];
            proof {
                assert(shape_vec@ =~= seq![d0]);
                lemma_product_one(shape_vec@);
            }
            Ok(NDArray { shape: Shape::new(shape_vec), size: d0, rank: 1, values: vals })
        }
    }

    /// Construct a new rank-2 array holding exactly the rows the index list
    /// names, in the order given.
    pub fn axis_indices(&self, axis_dim: usize, indices: Vec<usize>) -> (r: Result<
        NDArray<T>,
        String,
    >)
        requires
            self.wf(),
        ensures
            r is Ok <==> {
                &&& self@.shape.len() == 2
                &&& axis_dim == 0
                &&& (forall|i: int| 0 <= i < indices@.len() ==> indices@[i] < self@.shape[0])
                &&& indices@.len() * (self@.shape[1] as int) <= usize::MAX
            },
            r matches Ok(nd) ==> {
                &&& nd.wf()
                &&& nd@.shape == seq![indices@.len() as usize, self@.shape[1]]
                &&& nd@.values == select_rows(self@.values, self@.shape[1] as int, indices@)
            },
    {
        let ghost shp = self@.shape;
        if self.rank != 2 {
            return Err("NDArray must be of rank 2".to_string());
        }
        if axis_dim != 0 {
            return Err("Axis dimension out of bounds".to_string());
        }
        let d0 = self.shape.dim(0);
        let d1 = self.shape.dim(1);
        let mut i: usize = 0;
        while i < indices.len()
            invariant
                i <= indices@.len(),
                d0 == shp[0],
                shp == self@.shape,
                forall|t: int| 0 <= t < i ==> indices@[t] < d0,
            decreases indices@.len() - i,
        {
            if indices[i] >= d0 {
                return Err("Index out of bounds".to_string());
            }
            i = i + 1;
        }
        let total = match indices.len().checked_mul(d1) {
            Some(t) => t,
            None => {
                return Err("Index out of bounds".to_string());
            },
        };
        proof {
            lemma_product_two(shp);
        }
        let ghost w = d1 as int;
        let mut vals: Vec<T> = Vec::new();
        let mut r_i: usize = 0;
        while r_i < indices.len()
            invariant
                self.wf(),
                shp == self@.shape,
                shp.len() == 2,
                r_i <= indices@.len(),
                d0 == shp[0],
                d1 == shp[1],
                w == d1 as int,
                self@.values.len() == (d0 as int) * w,
                forall|t: int| 0 <= t < indices@.len() ==> indices@[t] < d0,
                vals@ == select_rows(self@.values, w, indices@.take(r_i as int)),
                vals@.len() == (r_i as int) * w,
            decreases indices@.len() - r_i,
        {
            let ri = indices[r_i];
            proof {
                assert((ri as int) * w + w <= (d0 as int) * w) by (nonlinear_arith)
                    requires
                        ri as int + 1 <= d0 as int,
                        w >= 0,
                ;
                assert((ri as int) * w >= 0) by (nonlinear_arith)
                    requires
                        ri as int >= 0,
                        w >= 0,
                ;
            }
            let base = ri * d1;
            let mut j: usize = 0;
            while j < d1
                invariant
                    self.wf(),
                    j <= d1,
                    w == d1 as int,
                    base as int == (ri as int) * w,
                    base + d1 <= self@.values.len(),
                    vals@ == select_rows(self@.values, w, indices@.take(r_i as int))
                        + self@.values.subrange(base as int, base as int + j),
                decreases d1 - j,
            {
                vals.push(self.values[base + j]);
                proof {
                    assert(self@.values.subrange(base as int, base as int + j + 1)
                        =~= self@.values.subrange(base as int, base as int + j).push(
                        self@.values[base as int + j],
                    ));
                }
                j = j + 1;
            }
            proof {
                assert(indices@.take(r_i + 1).drop_last() =~= indices@.take(r_i as int));
                assert(indices@.take(r_i + 1).last() == indices@[r_i as int]);
                assert(vals@ =~= select_rows(self@.values, w, indices@.take(r_i + 1)));
                assert((r_i as int) * w + w == (r_i as int + 1) * w) by (nonlinear_arith);
            }
            r_i = r_i + 1;
        }
        let n_rows = indices.len();
        let shape_vec = vec![n_rows, d1];
        proof {
            assert(indices@.take(indices@.len() as int) =~= indices@);
            assert(shape_vec@ =~= seq![n_rows, d1]);
            lemma_product_two(shape_vec@);
        }
        Ok(NDArray { shape: Shape::new(shape_vec), size: total, rank: 2, values: vals })
    }
}

impl NDArray<i64> {
    /// The distinct values of the buffer, in the order first encountered.
    pub fn unique(&self) -> (r: Vec<i64>)
        ensures
            r@ == spec_unique(self@.values),
    {
        let mut out: Vec<i64> = Vec::new();
        let mut i: usize = 0;
        while i < self.values.len()
            invariant
                i <= self@.values.len(),
                out@ == spec_unique(self@.values.take(i as int)),
            decreases self@.values.len() - i,
        {
            let x = self.values[i];
            proof {
                assert(self@.values.take(i + 1).drop_last() =~= self@.values.take(i as int));
                assert(self@.values.take(i + 1).last() == x);
            }
            if !contains_val(&out, x) {
                out.push(x);
            }
            i = i + 1;
        }
        proof {
            assert(self@.values.take(self@.values.len() as int) =~= self@.values);
        }
        out
    }
}

/// Whether the vector holds the given value.
fn contains_val(v: &Vec<i64>, x: i64) -> (b: bool)
    ensures
        b == v@.contains(x),
{
    let mut i: usize = 0;
    while i < v.len()
        invariant
            i <= v@.len(),
            forall|k: int| 0 <= k < i ==> v@[k] != x,
        decreases v@.len() - i,
    {
        if v[i] == x {
            return true;
        }
        i = i + 1;
    }
    false
}

/// The product of the dimension sizes, or `None` when some prefix product
/// exceeds a machine word.
fn checked_product(shape: &Vec<usize>) -> (r: Option<usize>)
    ensures
        r is Some <==> products_fit(shape@),
        r matches Some(n) ==> n as int == spec_product(shape@),
{
    let mut acc: usize = 1;
    let mut i: usize = 0;
    while i < shape.len()
        invariant
            i <= shape@.len(),
            acc as int == spec_product(shape@.take(i as int)),
            forall|k: int| 0 <= k <= i ==> spec_product(#[trigger] shape@.take(k)) <= usize::MAX,
        decreases shape@.len() - i,
    {
        let ghost prefix = shape@.take(i as int);
        assert(shape@.take(i + 1).drop_last() =~= prefix);
        assert(shape@.take(i + 1).last() == shape@[i as int]);
        match acc.checked_mul(shape[i]) {
            Some(next) => {
                acc = next;
            },
            None => {
                assert(spec_product(shape@.take(i + 1)) > usize::MAX);
                assert(!products_fit(shape@));
                return None;
            },
        }
        i = i + 1;
    }
    assert(shape@.take(i as int) =~= shape@);
    Some(acc)
}

} // verus!
