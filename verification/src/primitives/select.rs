use vstd::prelude::*;

use super::elem::Bufferizable;
use super::tile::copy_vec;

verus! {

/// The positions of `mask` that are set, in ascending order.
pub open spec fn hot_indices(mask: Seq<bool>) -> Seq<usize>
    decreases mask.len(),
{
    if mask.len() == 0 {
        Seq::empty()
    } else if mask.last() {
        hot_indices(mask.drop_last()).push((mask.len() - 1) as usize)
    } else {
        hot_indices(mask.drop_last())
    }
}

/// The entries of `slots` that hold an index, in order.
pub open spec fn present_indices(slots: Seq<Option<usize>>) -> Seq<usize>
    decreases slots.len(),
{
    if slots.len() == 0 {
        Seq::empty()
    } else {
        match slots.last() {
            Some(x) => present_indices(slots.drop_last()).push(x),
            None => present_indices(slots.drop_last()),
        }
    }
}

/// The mask of length `size` that is set exactly at the positions in `sel`.
pub open spec fn mask_of(sel: Seq<usize>, size: nat) -> Seq<bool> {
    Seq::new(size, |i: int| sel.contains(i as usize))
}

/// A selector payload, read as the list of the outputs that it picks.
pub trait SelectAdapter: Sized {
    /// The outputs that the selector picks, as the selector lists them.
    spec fn spec_sel_vec(&self) -> Seq<usize>;

    /// Whether a selector of `size` outputs can hold the picks `sel`.
    spec fn representable(sel: Seq<usize>, size: usize) -> bool;

    fn to_sel_vec(&self) -> (res: Vec<usize>)
        ensures
            res@ == self.spec_sel_vec(),
    ;

    fn from_sel_vec(sel_vec: Vec<usize>, size: usize, read_from_mu: bool) -> (r: Self)
        requires
            Self::representable(sel_vec@, size),
        ensures
            r.spec_sel_vec().to_set() == sel_vec@.to_set(),
    ;
}

/// A selector as a dense mask: output `i` is picked where entry `i` is set.
#[derive(Clone, Debug, Default, PartialEq)]
pub struct MultiHotN {
    underlying: Vec<bool>,
    read_from_mu: bool,
}

impl View for MultiHotN {
    type V = Seq<bool>;

    closed spec fn view(&self) -> Seq<bool> {
        self.underlying@
    }
}

impl MultiHotN {
    /// The flag given at construction, which is also what
    /// `spec_read_from_mu` gives.
    pub closed spec fn from_mu(&self) -> bool {
        self.read_from_mu
    }

    pub fn new(arr: Vec<bool>, read_from_mu: bool) -> (r: Self)
        ensures
            r@ == arr@,
            r.from_mu() == read_from_mu,
            r.spec_read_from_mu() == read_from_mu,
    {
        Self { underlying: arr, read_from_mu }
    }

    pub fn len(&self) -> (n: usize)
        ensures
            n == self@.len(),
    {
        self.underlying.len()
    }

    /// The mask itself.
    pub fn as_vec(&self) -> (v: &Vec<bool>)
        ensures
            v@ == self@,
    {
        &self.underlying
    }

    /// The size that a channel accounts for one selector of this kind.
    pub fn dam_size(&self) -> (n: usize)
        ensures
            n == 64,
    {
        64
    }
}

/// Every listed position is set in the mask made from the list, and the
/// positions read back from that mask are the listed ones.
pub proof fn lemma_hot_indices_of_mask(sel: Seq<usize>, size: nat)
    requires
        forall|k: int| 0 <= k < sel.len() ==> sel[k] < size,
        size <= usize::MAX,
    ensures
        hot_indices(mask_of(sel, size)).to_set() == sel.to_set(),
{
    let m = mask_of(sel, size);
    let h = hot_indices(m);
    lemma_hot_indices_members(m);
    assert forall|x: usize| h.to_set().contains(x) == sel.to_set().contains(x) by {
        assert(h.to_set().contains(x) == h.contains(x));
        assert(sel.to_set().contains(x) == sel.contains(x));
        assert(h.contains(x) <==> (x < m.len() && m[x as int]));
        if sel.contains(x) {
            let k = choose|k: int| 0 <= k < sel.len() && sel[k] == x;
            assert(x < size);
            assert(m[x as int]);
        }
        if x < m.len() {
            assert(m[x as int] == sel.contains(x));
        }
    }
    assert(h.to_set() =~= sel.to_set());
}

/// `hot_indices` lists exactly the set positions, each below the length, in
/// strictly ascending order.
pub proof fn lemma_hot_indices_members(mask: Seq<bool>)
    requires
        mask.len() <= usize::MAX,
    ensures
        forall|x: usize|
            #[trigger] hot_indices(mask).contains(x) <==> (x < mask.len() && mask[x as int]),
        forall|i: int, j: int|
            0 <= i < j < hot_indices(mask).len() ==> hot_indices(mask)[i] < hot_indices(mask)[j],
        hot_indices(mask).len() <= mask.len(),
    decreases mask.len(),
{
    let h = hot_indices(mask);
    if mask.len() == 0 {
        assert(h =~= Seq::<usize>::empty());
    } else {
        let prev = mask.drop_last();
        lemma_hot_indices_members(prev);
        let hp = hot_indices(prev);
        let last = (mask.len() - 1) as usize;
        assert(h == if mask.last() { hp.push(last) } else { hp });
        assert forall|x: usize| #[trigger] h.contains(x) <==> (x < mask.len() && mask[x as int]) by {
            assert(hp.contains(x) <==> (x < prev.len() && prev[x as int]));
            if x < prev.len() {
                assert(prev[x as int] == mask[x as int]);
            }
            if h.contains(x) {
                let k = choose|k: int| 0 <= k < h.len() && h[k] == x;
                if k < hp.len() {
                    assert(hp[k] == x);
                    assert(hp.contains(x));
                } else {
                    assert(mask.last());
                    assert(x == last);
                }
            }
            if x < mask.len() && mask[x as int] {
                if x == last {
                    assert(mask.last());
                    assert(h[h.len() - 1] == x);
                } else {
                    assert(hp.contains(x));
                    let k = choose|k: int| 0 <= k < hp.len() && hp[k] == x;
                    assert(h[k] == x);
                }
            }
        }
        assert forall|i: int, j: int| 0 <= i < j < h.len() implies h[i] < h[j] by {
            if j >= hp.len() {
                assert(h[j] == last);
                assert(h[i] == hp[i]);
                assert(hp.contains(hp[i]));
            } else {
                assert(h[i] == hp[i] && h[j] == hp[j]);
            }
        }
    }
}

impl SelectAdapter for MultiHotN {
    open spec fn spec_sel_vec(&self) -> Seq<usize> {
        hot_indices(self@)
    }

    open spec fn representable(sel: Seq<usize>, size: usize) -> bool {
        forall|k: int| 0 <= k < sel.len() ==> sel[k] < size
    }

    fn to_sel_vec(&self) -> (res: Vec<usize>) {
        let mut res_vec: Vec<usize> = Vec::new();
        let mut idx: usize = 0;
        assert(self@.subrange(0, 0) =~= Seq::<bool>::empty());
        while idx < self.underlying.len()
            invariant
                idx <= self.underlying.len(),
                self@ == self.underlying@,
                res_vec@ == hot_indices(self@.subrange(0, idx as int)),
            decreases self.underlying.len() - idx,
        {
            assert(self@.subrange(0, idx + 1).drop_last() =~= self@.subrange(0, idx as int));
            if self.underlying[idx] {
                res_vec.push(idx);
            }
            idx += 1;
        }
        assert(self@.subrange(0, self@.len() as int) =~= self@);
        res_vec
    }

    fn from_sel_vec(sel_vec: Vec<usize>, size: usize, read_from_mu: bool) -> (r: Self)
        ensures
            r@ == mask_of(sel_vec@, size as nat),
            r.from_mu() == read_from_mu,
            r.spec_read_from_mu() == read_from_mu,
    {
        let mut underlying: Vec<bool> = Vec::with_capacity(size);
        let mut n: usize = 0;
        while n < size
            invariant
                n <= size,
                underlying@ == Seq::new(n as nat, |i: int| false),
            decreases size - n,
        {
            underlying.push(false);
            assert(underlying@ =~= Seq::new((n + 1) as nat, |i: int| false));
            n += 1;
        }
        let mut k: usize = 0;
        assert(underlying@ =~= mask_of(sel_vec@.subrange(0, 0), size as nat));
        while k < sel_vec.len()
            invariant
                k <= sel_vec.len(),
                forall|j: int| 0 <= j < sel_vec.len() ==> sel_vec[j] < size,
                underlying@ == mask_of(sel_vec@.subrange(0, k as int), size as nat),
            decreases sel_vec.len() - k,
        {
            let idx = sel_vec[k];
            underlying.set(idx, true);
            proof {
                let before = sel_vec@.subrange(0, k as int);
                let after = sel_vec@.subrange(0, k + 1);
                assert(after =~= before.push(sel_vec[k as int]));
                assert forall|i: int| 0 <= i < size implies underlying@[i] == mask_of(
                    after,
                    size as nat,
                )[i] by {
                    if before.contains(i as usize) {
                        let w = choose|w: int| 0 <= w < before.len() && before[w] == i as usize;
                        assert(after[w] == i as usize);
                    }
                    if i == idx {
                        assert(after[k as int] == idx);
                    }
                    if after.contains(i as usize) && i != idx {
                        let w = choose|w: int| 0 <= w < after.len() && after[w] == i as usize;
                        assert(w < k);
                        assert(before[w] == i as usize);
                    }
                }
                assert(underlying@ =~= mask_of(after, size as nat));
            }
            k += 1;
        }
        proof {
            assert(sel_vec@.subrange(0, sel_vec.len() as int) =~= sel_vec@);
            lemma_hot_indices_of_mask(sel_vec@, size as nat);
        }
        Self { underlying, read_from_mu }
    }
}

impl Bufferizable for MultiHotN {
    open spec fn spec_size_in_bytes(&self) -> nat {
        self@.len()
    }

    closed spec fn spec_read_from_mu(&self) -> bool {
        self.read_from_mu
    }

    open spec fn sized(&self) -> bool {
        true
    }

    fn is_sized(&self) -> (b: bool) {
        true
    }

    fn size_in_bytes(&self) -> (n: usize) {
        self.underlying.len()
    }

    fn read_from_mu(&self) -> (b: bool) {
        self.read_from_mu
    }

    fn clone_with_updated_read_from_mu(&self, read_from_mu: bool) -> (r: Self)
        ensures
            r@ == self@,
    {
        Self { underlying: copy_vec(&self.underlying), read_from_mu }
    }
}

/// A selector as a short list of picked outputs; an empty slot picks none.
#[derive(Clone, Debug, Default, PartialEq)]
pub struct IndexN {
    underlying: Vec<Option<usize>>,
    read_from_mu: bool,
}

impl View for IndexN {
    type V = Seq<Option<usize>>;

    closed spec fn view(&self) -> Seq<Option<usize>> {
        self.underlying@
    }
}

/// The list of slots that hold the picks `sel`, one each.
pub open spec fn slots_of(sel: Seq<usize>) -> Seq<Option<usize>> {
    Seq::new(sel.len(), |i: int| Some(sel[i]))
}

/// Reading back slots that were filled one for one gives the picks.
pub proof fn lemma_present_indices_of_slots(sel: Seq<usize>)
    ensures
        present_indices(slots_of(sel)) == sel,
    decreases sel.len(),
{
    if sel.len() > 0 {
        lemma_present_indices_of_slots(sel.drop_last());
        assert(slots_of(sel).drop_last() =~= slots_of(sel.drop_last()));
        assert(present_indices(slots_of(sel)) =~= sel);
    } else {
        assert(present_indices(slots_of(sel)) =~= sel);
    }
}

impl IndexN {
    /// The flag given at construction, which is also what
    /// `spec_read_from_mu` gives.
    pub closed spec fn from_mu(&self) -> bool {
        self.read_from_mu
    }

    pub fn new(data: Vec<Option<usize>>, read_from_mu: bool) -> (r: Self)
        ensures
            r@ == data@,
            r.from_mu() == read_from_mu,
            r.spec_read_from_mu() == read_from_mu,
    {
        Self { underlying: data, read_from_mu }
    }

    /// The number of slots.
    pub fn len(&self) -> (n: usize)
        ensures
            n == self@.len(),
    {
        self.underlying.len()
    }

    /// The slots themselves.
    pub fn as_vec(&self) -> (v: &Vec<Option<usize>>)
        ensures
            v@ == self@,
    {
        &self.underlying
    }

    /// The size that a channel accounts for one selector of this kind.
    pub fn dam_size(&self) -> (n: usize)
        ensures
            n == 64,
    {
        64
    }
}

impl SelectAdapter for IndexN {
    open spec fn spec_sel_vec(&self) -> Seq<usize> {
        present_indices(self@)
    }

    open spec fn representable(sel: Seq<usize>, size: usize) -> bool {
        true
    }

    fn to_sel_vec(&self) -> (res: Vec<usize>) {
        let mut res_vec: Vec<usize> = Vec::new();
        let mut i: usize = 0;
        assert(self@.subrange(0, 0) =~= Seq::<Option<usize>>::empty());
        while i < self.underlying.len()
            invariant
                i <= self.underlying.len(),
                self@ == self.underlying@,
                res_vec@ == present_indices(self@.subrange(0, i as int)),
            decreases self.underlying.len() - i,
        {
            assert(self@.subrange(0, i + 1).drop_last() =~= self@.subrange(0, i as int));
            match self.underlying[i] {
                Some(x) => {
                    res_vec.push(x);
                },
                None => {},
            }
            i += 1;
        }
        assert(self@.subrange(0, self@.len() as int) =~= self@);
        res_vec
    }

    fn from_sel_vec(sel_vec: Vec<usize>, size: usize, read_from_mu: bool) -> (r: Self)
        ensures
            r@ == slots_of(sel_vec@),
            r.spec_sel_vec() == sel_vec@,
            r.from_mu() == read_from_mu,
            r.spec_read_from_mu() == read_from_mu,
    {
        let mut underlying: Vec<Option<usize>> = Vec::with_capacity(sel_vec.len());
        let mut i: usize = 0;
        while i < sel_vec.len()
            invariant
                i <= sel_vec.len(),
                underlying@ == slots_of(sel_vec@.subrange(0, i as int)),
            decreases sel_vec.len() - i,
        {
            underlying.push(Some(sel_vec[i]));
            assert(underlying@ =~= slots_of(sel_vec@.subrange(0, i + 1)));
            i += 1;
        }
        proof {
            assert(sel_vec@.subrange(0, sel_vec.len() as int) =~= sel_vec@);
            lemma_present_indices_of_slots(sel_vec@);
        }
        Self { underlying, read_from_mu }
    }
}

impl Bufferizable for IndexN {
    open spec fn spec_size_in_bytes(&self) -> nat {
        (8 * self@.len()) as nat
    }

    closed spec fn spec_read_from_mu(&self) -> bool {
        self.read_from_mu
    }

    open spec fn sized(&self) -> bool {
        8 * self@.len() <= usize::MAX
    }

    fn is_sized(&self) -> (b: bool) {
        self.underlying.len() <= usize::MAX / 8
    }

    fn size_in_bytes(&self) -> (n: usize) {
        8 * self.underlying.len()
    }

    fn read_from_mu(&self) -> (b: bool) {
        self.read_from_mu
    }

    fn clone_with_updated_read_from_mu(&self, read_from_mu: bool) -> (r: Self)
        ensures
            r@ == self@,
    {
        Self { underlying: copy_vec(&self.underlying), read_from_mu }
    }
}

} // verus!
