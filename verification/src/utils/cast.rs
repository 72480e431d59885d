use vstd::prelude::*;
use vstd::std_specs::convert::TryIntoSpec;

verus! {

/// Converts every entry to `usize`. Every entry has to fit.
pub fn to_usize_vec<T: TryInto<usize>>(vec: Vec<T>) -> (res: Vec<usize>)
    requires
        <T as TryIntoSpec<usize>>::obeys_try_into_spec(),
        forall|i: int| 0 <= i < vec.len() ==> (#[trigger] vec[i]).try_into_spec() is Ok,
    ensures
        res.len() == vec.len(),
        forall|i: int| 0 <= i < vec.len() ==> (#[trigger] vec[i]).try_into_spec() == Ok::<usize, T::Error>(res[i]),
{
    let ghost orig = vec@;
    let mut res: Vec<usize> = Vec::new();
    for x in it: vec.into_iter()
        invariant
            <T as TryIntoSpec<usize>>::obeys_try_into_spec(),
            it.seq() == orig,
            forall|i: int| 0 <= i < orig.len() ==> (#[trigger] orig[i]).try_into_spec() is Ok,
            res.len() == it.index(),
            forall|i: int| 0 <= i < res.len() ==> (#[trigger] orig[i]).try_into_spec() == Ok::<usize, T::Error>(res[i]),
    {
        let ghost k = res.len() as int;
        assert(x == orig[k]);
        let converted = match x.try_into() {
            Ok(v) => v,
            Err(_) => vstd::pervasive::unreached(),
        };
        res.push(converted);
    }
    res
}

/// Converts every entry to `u64`. Every entry has to fit.
pub fn to_u64_vec<T: TryInto<u64>>(vec: Vec<T>) -> (res: Vec<u64>)
    requires
        <T as TryIntoSpec<u64>>::obeys_try_into_spec(),
        forall|i: int| 0 <= i < vec.len() ==> (#[trigger] vec[i]).try_into_spec() is Ok,
    ensures
        res.len() == vec.len(),
        forall|i: int| 0 <= i < vec.len() ==> (#[trigger] vec[i]).try_into_spec() == Ok::<u64, T::Error>(res[i]),
{
    let ghost orig = vec@;
    let mut res: Vec<u64> = Vec::new();
    for x in it: vec.into_iter()
        invariant
            <T as TryIntoSpec<u64>>::obeys_try_into_spec(),
            it.seq() == orig,
            forall|i: int| 0 <= i < orig.len() ==> (#[trigger] orig[i]).try_into_spec() is Ok,
            res.len() == it.index(),
            forall|i: int| 0 <= i < res.len() ==> (#[trigger] orig[i]).try_into_spec() == Ok::<u64, T::Error>(res[i]),
    {
        let ghost k = res.len() as int;
        assert(x == orig[k]);
        let converted = match x.try_into() {
            Ok(v) => v,
            Err(_) => vstd::pervasive::unreached(),
        };
        res.push(converted);
    }
    res
}

} // verus!
