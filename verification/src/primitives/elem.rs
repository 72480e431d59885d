use vstd::prelude::*;

verus! {

/// The nesting depth closed by a stream element: `0` closes nothing.
pub type StopType = u32;

/// One element of a flattened nested stream: a value, alone or followed by
/// the stop marker of the outermost dimension that ends right after it.
#[derive(Clone, Copy, PartialEq, PartialOrd, Debug)]
pub enum Elem<ValType> {
    Val(ValType),
    ValStop(ValType, StopType),
}

impl<T> Elem<T> {
    /// The stop level carried by the element, `0` for a bare value.
    pub open spec fn level(self) -> nat {
        match self {
            Elem::Val(_) => 0,
            Elem::ValStop(_, s) => s as nat,
        }
    }

    /// The payload of the element.
    pub open spec fn value(self) -> T {
        match self {
            Elem::Val(x) => x,
            Elem::ValStop(x, _) => x,
        }
    }

    /// The element that carries `x` and closes `level` dimensions; level `0`
    /// is written as a bare value.
    pub open spec fn with_level(x: T, level: nat) -> Elem<T> {
        if level == 0 {
            Elem::Val(x)
        } else {
            Elem::ValStop(x, level as u32)
        }
    }

    /// The stop marker of the element, if it has one.
    pub open spec fn stop(self) -> Option<StopType> {
        match self {
            Elem::Val(_) => None,
            Elem::ValStop(_, s) => Some(s),
        }
    }

    /// The element that carries `x` under the stop marker `stop`.
    pub open spec fn with_stop(x: T, stop: Option<StopType>) -> Elem<T> {
        match stop {
            None => Elem::Val(x),
            Some(s) => Elem::ValStop(x, s),
        }
    }

    /// A bare value or a stop marker of level at least one.
    pub open spec fn canonical(self) -> bool {
        match self {
            Elem::Val(_) => true,
            Elem::ValStop(_, s) => s > 0,
        }
    }

    /// Reads the stop level.
    pub fn stop_level(&self) -> (s: StopType)
        ensures
            s == self.level(),
    {
        match self {
            Elem::Val(_) => 0,
            Elem::ValStop(_, s) => *s,
        }
    }

    /// Reads the stop marker.
    pub fn stop_marker(&self) -> (s: Option<StopType>)
        ensures
            s == self.stop(),
    {
        match self {
            Elem::Val(_) => None,
            Elem::ValStop(_, s) => Some(*s),
        }
    }

    /// Builds the element for a payload and a stop marker.
    pub fn from_stop(x: T, stop: Option<StopType>) -> (e: Elem<T>)
        ensures
            e == Elem::with_stop(x, stop),
            e.value() == x,
            e.stop() == stop,
    {
        match stop {
            None => Elem::Val(x),
            Some(s) => Elem::ValStop(x, s),
        }
    }

    /// Borrows the payload.
    pub fn data(&self) -> (x: &T)
        ensures
            *x == self.value(),
    {
        match self {
            Elem::Val(x) => x,
            Elem::ValStop(x, _) => x,
        }
    }

    /// Takes the payload out.
    pub fn into_data(self) -> (x: T)
        ensures
            x == self.value(),
    {
        match self {
            Elem::Val(x) => x,
            Elem::ValStop(x, _) => x,
        }
    }

    /// Builds the element for a payload and a stop level.
    pub fn from_level(x: T, level: StopType) -> (e: Elem<T>)
        ensures
            e == Elem::with_level(x, level as nat),
            e.value() == x,
            e.level() == level,
            e.canonical(),
    {
        if level == 0 {
            Elem::Val(x)
        } else {
            Elem::ValStop(x, level)
        }
    }

    /// The same element over a borrowed payload.
    pub fn as_ref(&self) -> (e: Elem<&T>)
        ensures
            borrowed(e) == *self,
    {
        match self {
            Elem::Val(x) => Elem::Val(x),
            Elem::ValStop(x, s) => Elem::ValStop(x, *s),
        }
    }
}

/// The default element is a bare value, the default of the payload.
impl<ValType: Default> Default for Elem<ValType> {
    fn default() -> (e: Self)
        ensures
            e is Val,
    {
        Elem::Val(ValType::default())
    }
}

/// The element that a borrowed element stands for.
pub open spec fn borrowed<T>(e: Elem<&T>) -> Elem<T> {
    match e {
        Elem::Val(x) => Elem::Val(*x),
        Elem::ValStop(x, s) => Elem::ValStop(*x, s),
    }
}

/// The stream that a stream of borrowed elements stands for.
pub open spec fn borrowed_stream<T>(s: Seq<Elem<&T>>) -> Seq<Elem<T>> {
    Seq::new(s.len(), |i: int| borrowed(s[i]))
}

/// The stop levels of a stream, in order.
pub open spec fn levels<T>(s: Seq<Elem<T>>) -> Seq<nat> {
    Seq::new(s.len(), |i: int| s[i].level())
}

/// The payloads of a stream, in order.
pub open spec fn values<T>(s: Seq<Elem<T>>) -> Seq<T> {
    Seq::new(s.len(), |i: int| s[i].value())
}

/// Every stop marker of the stream has a level of at least one.
pub open spec fn canonical_stream<T>(s: Seq<Elem<T>>) -> bool {
    forall|i: int| 0 <= i < s.len() ==> (#[trigger] s[i]).canonical()
}

/// Payloads that account for their size and for where they were read from.
pub trait Bufferizable: Sized {
    /// The size in bytes as a number.
    spec fn spec_size_in_bytes(&self) -> nat;

    /// Whether a consumer has to load the payload from a memory unit.
    spec fn spec_read_from_mu(&self) -> bool;

    /// The size in bytes fits the machine word.
    spec fn sized(&self) -> bool;

    /// Whether the size in bytes fits the machine word.
    fn is_sized(&self) -> (b: bool)
        ensures
            b == self.sized(),
    ;

    fn size_in_bytes(&self) -> (n: usize)
        requires
            self.sized(),
        ensures
            n == self.spec_size_in_bytes(),
    ;

    fn read_from_mu(&self) -> (b: bool)
        ensures
            b == self.spec_read_from_mu(),
    ;

    fn clone_with_updated_read_from_mu(&self, read_from_mu: bool) -> (r: Self)
        ensures
            r.spec_read_from_mu() == read_from_mu,
            r.spec_size_in_bytes() == self.spec_size_in_bytes(),
            r.sized() == self.sized(),
    ;
}

} // verus!
