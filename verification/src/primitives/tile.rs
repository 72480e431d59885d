use vstd::prelude::*;

use super::elem::Bufferizable;

verus! {

/// The number of entries of an array of the given shape.
pub open spec fn shape_product(shape: Seq<usize>) -> nat
    decreases shape.len(),
{
    if shape.len() == 0 {
        1
    } else {
        (shape_product(shape.drop_last()) * shape.last()) as nat
    }
}

/// A two-dimensional payload. `underlying` holds the entries row by row, or
/// nothing when only timing is simulated. `offset` is the number of leading
/// rows that are data and not padding.
#[derive(Clone, Debug, Default, PartialEq)]
pub struct Tile<T> {
    pub shape: Vec<usize>,
    pub bytes_per_elem: usize,
    pub read_from_mu: bool,
    pub underlying: Option<Vec<T>>,
    pub offset: usize,
}

/// What a tile holds, as mathematical values.
pub struct TileView<T> {
    pub shape: Seq<usize>,
    pub bytes_per_elem: usize,
    pub read_from_mu: bool,
    pub underlying: Option<Seq<T>>,
    pub offset: usize,
}

impl<T> View for Tile<T> {
    type V = TileView<T>;

    open spec fn view(&self) -> TileView<T> {
        TileView {
            shape: self.shape@,
            bytes_per_elem: self.bytes_per_elem,
            read_from_mu: self.read_from_mu,
            underlying: match self.underlying {
                Some(v) => Some(v@),
                None => None,
            },
            offset: self.offset,
        }
    }
}

impl<T> TileView<T> {
    /// Two dimensions, and as many entries as the shape asks for.
    pub open spec fn wf(self) -> bool {
        &&& self.shape.len() == 2
        &&& match self.underlying {
            Some(d) => d.len() == self.shape[0] * self.shape[1],
            None => true,
        }
    }

    /// The size in bytes that bandwidth is charged for.
    pub open spec fn size_in_bytes(self) -> nat {
        self.bytes_per_elem as nat * shape_product(self.shape)
    }

    /// The same tile without its entries.
    pub open spec fn blank(self) -> TileView<T> {
        TileView { underlying: None, ..self }
    }
}

/// The product of `shape` extended by one more axis.
pub proof fn lemma_shape_product_push(shape: Seq<usize>, d: usize)
    ensures
        shape_product(shape.push(d)) == shape_product(shape) * d,
{
    assert(shape.push(d).drop_last() =~= shape);
}

/// Multiplies the entries of `shape`, or gives `None` when the product does
/// not fit.
pub fn checked_shape_product(shape: &Vec<usize>) -> (p: Option<usize>)
    ensures
        p.is_some() <==> shape_product(shape@) <= usize::MAX,
        p.is_some() ==> p.unwrap() == shape_product(shape@),
{
    let mut acc: usize = 1;
    let mut i: usize = 0;
    assert(shape@.subrange(0, 0) =~= Seq::<usize>::empty());
    while i < shape.len()
        invariant
            i <= shape.len(),
            acc == shape_product(shape@.subrange(0, i as int)),
        decreases shape.len() - i,
    {
        proof {
            assert(shape@.subrange(0, i + 1) =~= shape@.subrange(0, i as int).push(shape[i as int]));
            lemma_shape_product_push(shape@.subrange(0, i as int), shape[i as int]);
        }
        match acc.checked_mul(shape[i]) {
            Some(v) => {
                acc = v;
            },
            None => {
                // The running product is too large: it fits again only if a later axis is empty.
                let mut j: usize = i + 1;
                while j < shape.len()
                    invariant
                        i < j <= shape.len(),
                        forall|k: int| i < k < j ==> shape[k] != 0,
                    decreases shape.len() - j,
                {
                    if shape[j] == 0 {
                        proof {
                            lemma_shape_product_zero(shape@, j as int);
                        }
                        return Some(0);
                    }
                    j += 1;
                }
                proof {
                    lemma_shape_product_grows(shape@, i as int + 1);
                }
                return None;
            },
        }
        i += 1;
    }
    assert(shape@.subrange(0, shape.len() as int) =~= shape@);
    Some(acc)
}

/// A shape with an empty axis has no entries.
pub proof fn lemma_shape_product_zero(shape: Seq<usize>, j: int)
    requires
        0 <= j < shape.len(),
        shape[j] == 0,
    ensures
        shape_product(shape) == 0,
    decreases shape.len(),
{
    if j == shape.len() - 1 {
        assert(shape_product(shape.drop_last()) * 0 == 0) by (nonlinear_arith);
    } else {
        lemma_shape_product_zero(shape.drop_last(), j);
        assert(0 * (shape.last() as int) == 0) by (nonlinear_arith);
    }
}

/// A shape with entries has no empty axis.
pub proof fn lemma_shape_product_positive(shape: Seq<usize>)
    requires
        shape_product(shape) > 0,
    ensures
        crate::utils::calculation::all_positive(shape),
{
    if !crate::utils::calculation::all_positive(shape) {
        let k = choose|k: int| 0 <= k < shape.len() && !(#[trigger] shape[k] > 0);
        lemma_shape_product_zero(shape, k);
    }
}

/// Axes without an empty one can only enlarge the product of a prefix.
pub proof fn lemma_shape_product_grows(shape: Seq<usize>, n: int)
    requires
        0 <= n <= shape.len(),
        forall|k: int| n <= k < shape.len() ==> shape[k] != 0,
    ensures
        shape_product(shape) >= shape_product(shape.subrange(0, n)),
    decreases shape.len() - n,
{
    if n == shape.len() {
        assert(shape.subrange(0, n) =~= shape);
    } else {
        lemma_shape_product_grows(shape, n + 1);
        assert(shape.subrange(0, n + 1) =~= shape.subrange(0, n).push(shape[n]));
        lemma_shape_product_push(shape.subrange(0, n), shape[n]);
        let p = shape_product(shape.subrange(0, n));
        let d = shape[n];
        assert(p * d >= p) by (nonlinear_arith)
            requires
                d >= 1,
                p >= 0,
        ;
    }
}

/// A copy of a vector of plain values.
pub fn copy_vec<T: Copy>(v: &Vec<T>) -> (r: Vec<T>)
    ensures
        r@ == v@,
{
    let mut r: Vec<T> = Vec::with_capacity(v.len());
    let mut i: usize = 0;
    while i < v.len()
        invariant
            i <= v.len(),
            r@ == v@.subrange(0, i as int),
        decreases v.len() - i,
    {
        r.push(v[i]);
        assert(v@.subrange(0, i + 1) =~= v@.subrange(0, i as int).push(v[i as int]));
        i += 1;
    }
    assert(v@.subrange(0, v.len() as int) =~= v@);
    r
}

impl<T> Tile<T> {
    /// A tile of the given shape without entries, no row of it padding.
    pub fn new_blank(shape: Vec<usize>, bytes_per_elem: usize, read_from_mu: bool) -> (t: Self)
        requires
            shape.len() >= 1,
        ensures
            t@ == (TileView::<T> {
                shape: shape@,
                bytes_per_elem,
                read_from_mu,
                underlying: None,
                offset: shape[0],
            }),
    {
        let offset = shape[0];
        Tile { shape, bytes_per_elem, read_from_mu, underlying: None, offset }
    }

    /// A tile over the entries `data`, given row by row, no row of it padding.
    /// `None` when `data` does not fill `rows` times `cols` entries.
    pub fn new(rows: usize, cols: usize, data: Vec<T>, bytes_per_elem: usize, read_from_mu: bool) -> (t:
        Option<Self>)
        ensures
            t.is_some() <==> data.len() == rows * cols,
            t.is_some() ==> t.unwrap()@ == (TileView {
                shape: seq![rows, cols],
                bytes_per_elem,
                read_from_mu,
                underlying: Some(data@),
                offset: rows,
            }) && t.unwrap()@.wf(),
    {
        Self::new_padded(rows, cols, data, bytes_per_elem, read_from_mu, rows)
    }

    /// A tile of the given shape without entries, of which the first `offset`
    /// rows are data.
    pub fn new_blank_padded(
        shape: Vec<usize>,
        bytes_per_elem: usize,
        read_from_mu: bool,
        offset: usize,
    ) -> (t: Self)
        ensures
            t@ == (TileView::<T> {
                shape: shape@,
                bytes_per_elem,
                read_from_mu,
                underlying: None,
                offset,
            }),
    {
        Tile { shape, bytes_per_elem, read_from_mu, underlying: None, offset }
    }

    /// A tile over the entries `data`, of which the first `offset` rows are
    /// data. `None` when `data` does not fill `rows` times `cols` entries.
    pub fn new_padded(
        rows: usize,
        cols: usize,
        data: Vec<T>,
        bytes_per_elem: usize,
        read_from_mu: bool,
        offset: usize,
    ) -> (t: Option<Self>)
        ensures
            t.is_some() <==> data.len() == rows * cols,
            t.is_some() ==> t.unwrap()@ == (TileView {
                shape: seq![rows, cols],
                bytes_per_elem,
                read_from_mu,
                underlying: Some(data@),
                offset,
            }) && t.unwrap()@.wf(),
    {
        let fits = match rows.checked_mul(cols) {
            Some(n) => n == data.len(),
            None => false,
        };
        if !fits {
            return None;
        }
        let mut shape: Vec<usize> = Vec::with_capacity(2);
        shape.push(rows);
        shape.push(cols);
        assert(shape@ =~= seq![rows, cols]);
        Some(Tile { shape, bytes_per_elem, read_from_mu, underlying: Some(data), offset })
    }
}

impl<T: Copy> Tile<T> {
    /// A tile whose entries all are `zero`, no row of it padding.
    pub fn new_zero(arr_shape: [usize; 2], zero: T, bytes_per_elem: usize, read_from_mu: bool) -> (t:
        Self)
        requires
            arr_shape[0] * arr_shape[1] <= usize::MAX,
        ensures
            t@ == (TileView {
                shape: seq![arr_shape[0], arr_shape[1]],
                bytes_per_elem,
                read_from_mu,
                underlying: Some(Seq::new((arr_shape[0] * arr_shape[1]) as nat, |i: int| zero)),
                offset: arr_shape[0],
            }),
            t@.wf(),
    {
        Self::new_zero_padded(arr_shape, zero, bytes_per_elem, read_from_mu, arr_shape[0])
    }

    /// A tile whose entries all are `zero`, of which the first `offset` rows
    /// are data.
    pub fn new_zero_padded(
        arr_shape: [usize; 2],
        zero: T,
        bytes_per_elem: usize,
        read_from_mu: bool,
        offset: usize,
    ) -> (t: Self)
        requires
            arr_shape[0] * arr_shape[1] <= usize::MAX,
        ensures
            t@ == (TileView {
                shape: seq![arr_shape[0], arr_shape[1]],
                bytes_per_elem,
                read_from_mu,
                underlying: Some(Seq::new((arr_shape[0] * arr_shape[1]) as nat, |i: int| zero)),
                offset,
            }),
            t@.wf(),
    {
        let n: usize = arr_shape[0] * arr_shape[1];
        let mut data: Vec<T> = Vec::with_capacity(n);
        let mut i: usize = 0;
        while i < n
            invariant
                i <= n,
                data@ == Seq::new(i as nat, |k: int| zero),
            decreases n - i,
        {
            data.push(zero);
            assert(data@ =~= Seq::new((i + 1) as nat, |k: int| zero));
            i += 1;
        }
        let mut shape: Vec<usize> = Vec::with_capacity(2);
        shape.push(arr_shape[0]);
        shape.push(arr_shape[1]);
        assert(shape@ =~= seq![arr_shape[0], arr_shape[1]]);
        Tile { shape, bytes_per_elem, read_from_mu, underlying: Some(data), offset }
    }
}

impl<T> Tile<T> {
    /// A tile with an axis of length zero and therefore no entries: the
    /// starting value of an accumulator that grows by rows or by columns.
    pub fn new_empty(arr_shape: [usize; 2], bytes_per_elem: usize, read_from_mu: bool) -> (t: Self)
        requires
            arr_shape[0] == 0 || arr_shape[1] == 0,
        ensures
            t@ == (TileView::<T> {
                shape: seq![arr_shape[0], arr_shape[1]],
                bytes_per_elem,
                read_from_mu,
                underlying: Some(Seq::empty()),
                offset: arr_shape[0],
            }),
            t@.wf(),
    {
        let mut shape: Vec<usize> = Vec::with_capacity(2);
        shape.push(arr_shape[0]);
        shape.push(arr_shape[1]);
        assert(shape@ =~= seq![arr_shape[0], arr_shape[1]]);
        assert(arr_shape[0] * arr_shape[1] == 0) by (nonlinear_arith)
            requires
                arr_shape[0] == 0 || arr_shape[1] == 0,
        ;
        Tile {
            shape,
            bytes_per_elem,
            read_from_mu,
            underlying: Some(Vec::new()),
            offset: arr_shape[0],
        }
    }
}

impl<T: Copy> Bufferizable for Tile<T> {
    open spec fn spec_size_in_bytes(&self) -> nat {
        self@.size_in_bytes()
    }

    open spec fn spec_read_from_mu(&self) -> bool {
        self.read_from_mu
    }

    open spec fn sized(&self) -> bool {
        &&& shape_product(self.shape@) <= usize::MAX
        &&& self@.size_in_bytes() <= usize::MAX
    }

    fn is_sized(&self) -> (b: bool) {
        match checked_shape_product(&self.shape) {
            Some(total_elems) => self.bytes_per_elem.checked_mul(total_elems).is_some(),
            None => false,
        }
    }

    fn size_in_bytes(&self) -> (n: usize) {
        let total_elems = checked_shape_product(&self.shape);
        self.bytes_per_elem * total_elems.unwrap()
    }

    fn read_from_mu(&self) -> (b: bool) {
        self.read_from_mu
    }

    fn clone_with_updated_read_from_mu(&self, read_from_mu: bool) -> (r: Self)
        ensures
            r@ == (TileView { read_from_mu, ..self@ }),
    {
        let underlying = match &self.underlying {
            Some(v) => Some(copy_vec(v)),
            None => None,
        };
        Tile {
            shape: copy_vec(&self.shape),
            bytes_per_elem: self.bytes_per_elem,
            read_from_mu,
            underlying,
            offset: self.offset,
        }
    }
}

} // verus!
