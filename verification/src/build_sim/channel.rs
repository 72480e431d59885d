use std::collections::HashMap;
use vstd::prelude::*;

use crate::operator::ProtocolError;

verus! {

/// The end of a channel that waits in the map for the operator at the other
/// end of the channel to be bound.
pub enum ChanType<S, R> {
    Receiver(R),
    Sender(S),
}

/// What the map holds for one producer: the waiting end of its one stream,
/// or the waiting ends of its streams by stream number.
pub enum ChannelMapEntry<S, R> {
    Single(ChanType<S, R>),
    Broadcast(HashMap<u32, ChanType<S, R>>),
}

/// What the map holds for one producer, as mathematical values.
pub enum EntryView<S, R> {
    Single(ChanType<S, R>),
    Broadcast(Map<u32, ChanType<S, R>>),
}

/// What an entry holds.
pub open spec fn entry_view<S, R>(e: ChannelMapEntry<S, R>) -> EntryView<S, R> {
    match e {
        ChannelMapEntry::Single(c) => EntryView::Single(c),
        ChannelMapEntry::Broadcast(m) => EntryView::Broadcast(m@),
    }
}

/// The capacity of a channel for which none is given.
pub const DEFAULT_CHAN_SIZE: usize = 1024;

/// The capacity to make a channel with.
pub open spec fn chan_capacity(capacity: Option<usize>) -> usize {
    match capacity {
        Some(c) => c,
        None => DEFAULT_CHAN_SIZE,
    }
}

/// The channels between operators while a graph is bound. A channel is made
/// when the first of its two operators is bound; the end for the other
/// operator waits here, under the id of the producer and the number of the
/// stream if the producer has several.
pub struct ChannelMap<S, R> {
    pub map: Option<HashMap<u32, ChannelMapEntry<S, R>>>,
}

impl<S, R> View for ChannelMap<S, R> {
    type V = Map<u32, EntryView<S, R>>;

    open spec fn view(&self) -> Map<u32, EntryView<S, R>> {
        match self.map {
            None => Map::empty(),
            Some(m) => Map::new(|k: u32| m@.contains_key(k), |k: u32| entry_view(m@[k])),
        }
    }
}

/// What asking for the receiving end of the stream `idx` of producer `id` finds
/// in the map `m`: the waiting end, or nothing, or an entry of another
/// kind.
pub open spec fn receiver_lookup<S, R>(m: Map<u32, EntryView<S, R>>, id: u32, idx: Option<u32>) -> Option<Option<R>> {
    if !m.contains_key(id) {
        Some(None)
    } else {
        match (idx, m[id]) {
            (None, EntryView::Single(ChanType::Receiver(x))) => Some(Some(x)),
            (Some(i), EntryView::Broadcast(b)) => if !b.contains_key(i) {
                Some(None)
            } else {
                match b[i] {
                    ChanType::Receiver(x) => Some(Some(x)),
                    _ => None,
                }
            },
            _ => None,
        }
    }
}

/// What asking for the sending end of the stream `idx` of producer `id` finds
/// in the map `m`: the waiting end, or nothing, or an entry of another
/// kind.
pub open spec fn sender_lookup<S, R>(m: Map<u32, EntryView<S, R>>, id: u32, idx: Option<u32>) -> Option<Option<S>> {
    if !m.contains_key(id) {
        Some(None)
    } else {
        match (idx, m[id]) {
            (None, EntryView::Single(ChanType::Sender(x))) => Some(Some(x)),
            (Some(i), EntryView::Broadcast(b)) => if !b.contains_key(i) {
                Some(None)
            } else {
                match b[i] {
                    ChanType::Sender(x) => Some(Some(x)),
                    _ => None,
                }
            },
            _ => None,
        }
    }
}

/// The map `m` without the end of the stream `idx` of producer `id`.
pub open spec fn without_end<S, R>(m: Map<u32, EntryView<S, R>>, id: u32, idx: Option<u32>) -> Map<
    u32,
    EntryView<S, R>,
> {
    match idx {
        None => m.remove(id),
        Some(i) => match m[id] {
            EntryView::Broadcast(b) => m.insert(id, EntryView::Broadcast(b.remove(i))),
            _ => m,
        },
    }
}

/// The map `m` with `end` waiting for the stream `idx` of producer `id`.
pub open spec fn with_end<S, R>(m: Map<u32, EntryView<S, R>>, id: u32, idx: Option<u32>, end: ChanType<S, R>) -> Map<
    u32,
    EntryView<S, R>,
> {
    match idx {
        None => m.insert(id, EntryView::Single(end)),
        Some(i) => if m.contains_key(id) {
            match m[id] {
                EntryView::Broadcast(b) => m.insert(id, EntryView::Broadcast(b.insert(i, end))),
                _ => m,
            }
        } else {
            m.insert(id, EntryView::Broadcast(Map::empty().insert(i, end)))
        },
    }
}

/// The two ends of a channel meet: the sending end that waits since the
/// receiving end was asked for is what asking for the sending end of the
/// same stream finds, and no other stream finds it.
pub proof fn lemma_ends_meet<S, R>(m: Map<u32, EntryView<S, R>>, id: u32, idx: Option<u32>, snd: S)
    requires
        receiver_lookup(m, id, idx) == Some(None::<R>),
    ensures
        sender_lookup(with_end(m, id, idx, ChanType::Sender(snd)), id, idx) == Some(Some(snd)),
        forall|other: u32|
            other != id ==> sender_lookup(with_end(m, id, idx, ChanType::Sender(snd)), other, idx) == sender_lookup(
                m,
                other,
                idx,
            ),
        forall|i: u32, j: u32|
            idx == Some(i) && i != j ==> sender_lookup(with_end(m, id, idx, ChanType::Sender(snd)), id, Some(j))
                == sender_lookup(m, id, Some(j)),
{
}

/// The same for a receiving end that waits since the sending end was asked
/// for.
pub proof fn lemma_ends_meet_receiver<S, R>(m: Map<u32, EntryView<S, R>>, id: u32, idx: Option<u32>, rcv: R)
    requires
        sender_lookup(m, id, idx) == Some(None::<S>),
    ensures
        receiver_lookup(with_end(m, id, idx, ChanType::Receiver(rcv)), id, idx) == Some(Some(rcv)),
        forall|other: u32|
            other != id ==> receiver_lookup(with_end(m, id, idx, ChanType::Receiver(rcv)), other, idx)
                == receiver_lookup(m, other, idx),
        forall|i: u32, j: u32|
            idx == Some(i) && i != j ==> receiver_lookup(
                with_end(m, id, idx, ChanType::Receiver(rcv)),
                id,
                Some(j),
            ) == receiver_lookup(m, id, Some(j)),
{
}

impl<S, R> ChannelMap<S, R> {
    /// A map that holds nothing.
    pub fn new() -> (m: Self)
        ensures
            m@ == Map::<u32, EntryView<S, R>>::empty(),
    {
        ChannelMap { map: None }
    }

    /// Makes the map ready to hold entries; it then holds none.
    pub fn instantiate(&mut self)
        ensures
            final(self)@ == Map::<u32, EntryView<S, R>>::empty(),
            final(self).map is Some,
    {
        self.map = Some(HashMap::new());
        assert(self@ =~= Map::<u32, EntryView<S, R>>::empty());
    }

    /// Whether the receiving end of the stream `idx` of producer `id` can be
    /// asked for: it waits in the map, or nothing waits there; not where
    /// the end was handed out before or the producer is entered with
    /// another number of streams.
    pub fn can_get_receiver(&self, id: u32, idx: Option<u32>) -> (ok: bool)
        ensures
            ok == (receiver_lookup(self@, id, idx) is Some),
    {
        broadcast use vstd::std_specs::hash::group_hash_axioms;

        let chan_map = match &self.map {
            Some(m) => m,
            None => {
                return true;
            },
        };
        match (idx, chan_map.get(&id)) {
            (_, None) => true,
            (None, Some(ChannelMapEntry::Single(ChanType::Receiver(_)))) => true,
            (Some(i), Some(ChannelMapEntry::Broadcast(b))) => match b.get(&i) {
                None => true,
                Some(ChanType::Receiver(_)) => true,
                Some(ChanType::Sender(_)) => false,
            },
            _ => false,
        }
    }

    /// Whether the sending end of the stream `idx` of producer `id` can be
    /// asked for: it waits in the map, or nothing waits there; not where
    /// the end was handed out before or the producer is entered with
    /// another number of streams.
    pub fn can_get_sender(&self, id: u32, idx: Option<u32>) -> (ok: bool)
        ensures
            ok == (sender_lookup(self@, id, idx) is Some),
    {
        broadcast use vstd::std_specs::hash::group_hash_axioms;

        let chan_map = match &self.map {
            Some(m) => m,
            None => {
                return true;
            },
        };
        match (idx, chan_map.get(&id)) {
            (_, None) => true,
            (None, Some(ChannelMapEntry::Single(ChanType::Sender(_)))) => true,
            (Some(i), Some(ChannelMapEntry::Broadcast(b))) => match b.get(&i) {
                None => true,
                Some(ChanType::Sender(_)) => true,
                Some(ChanType::Receiver(_)) => false,
            },
            _ => false,
        }
    }

    /// The receiving end of the stream `idx` of producer `id`. If the end waits
    /// in the map it is taken from there. If nothing waits, `make` makes a
    /// channel of the given capacity, the receiving end of which is returned and
    /// the sending end of which waits in the map from now on. An entry of
    /// another kind under this id is a fault of the graph, which
    /// `can_get_receiver` tells beforehand.
    pub fn get_receiver<F: FnOnce(usize) -> (S, R)>(
        &mut self,
        id: u32,
        idx: Option<u32>,
        capacity: Option<usize>,
        make: F,
    ) -> (r: Result<R, ProtocolError>)
        requires
            receiver_lookup(old(self)@, id, idx) is Some,
            make.requires((chan_capacity(capacity),)),
        ensures
            match receiver_lookup(old(self)@, id, idx) {
                None => r == Err::<R, ProtocolError>(ProtocolError::BadConfig) && final(self)@ == old(self)@,
                Some(Some(x)) => r == Ok::<R, ProtocolError>(x) && final(self)@ == without_end(old(self)@, id, idx),
                Some(None) => exists|snd: S, rcv: R|
                    {
                        &&& #[trigger] make.ensures((chan_capacity(capacity),), (snd, rcv))
                        &&& r == Ok::<R, ProtocolError>(rcv)
                        &&& final(self)@ == with_end(old(self)@, id, idx, ChanType::Sender(snd))
                    },
            },
    {
        broadcast use vstd::std_specs::hash::group_hash_axioms;

        let ghost before = self@;
        let cap = match capacity {
            Some(c) => c,
            None => DEFAULT_CHAN_SIZE,
        };
        let mut chan_map = match self.map.take() {
            Some(m) => m,
            None => HashMap::new(),
        };
        let ghost m0 = chan_map@;
        assert(before =~= Map::new(|k: u32| m0.contains_key(k), |k: u32| entry_view(m0[k])));
        let found = chan_map.remove(&id);
        let ghost mut made: Option<(S, R)> = None;
        let result = match idx {
            None => match found {
                Some(ChannelMapEntry::Single(ChanType::Receiver(x))) => Ok(x),
                None => {
                    let (snd, rcv) = make(cap);
                    proof {
                        made = Some((snd, rcv));
                    }
                    chan_map.insert(id, ChannelMapEntry::Single(ChanType::Sender(snd)));
                    Ok(rcv)
                },
                Some(other) => {
                    chan_map.insert(id, other);
                    Err(ProtocolError::BadConfig)
                },
            },
            Some(stream_idx) => match found {
                Some(ChannelMapEntry::Broadcast(x)) => {
                    let mut x = x;
                    let ghost x0 = x@;
                    match x.remove(&stream_idx) {
                        Some(ChanType::Receiver(e)) => {
                            chan_map.insert(id, ChannelMapEntry::Broadcast(x));
                            Ok(e)
                        },
                        None => {
                            let (snd, rcv) = make(cap);
                            proof {
                                made = Some((snd, rcv));
                            }
                            x.insert(stream_idx, ChanType::Sender(snd));
                            assert(x@ =~= x0.insert(stream_idx, ChanType::Sender(snd)));
                            chan_map.insert(id, ChannelMapEntry::Broadcast(x));
                            Ok(rcv)
                        },
                        Some(other) => {
                            x.insert(stream_idx, other);
                            assert(x@ =~= x0);
                            chan_map.insert(id, ChannelMapEntry::Broadcast(x));
                            Err(ProtocolError::BadConfig)
                        },
                    }
                },
                None => {
                    let (snd, rcv) = make(cap);
                    proof {
                        made = Some((snd, rcv));
                    }
                    let mut broadcast_map: HashMap<u32, ChanType<S, R>> = HashMap::new();
                    broadcast_map.insert(stream_idx, ChanType::Sender(snd));
                    assert(broadcast_map@ =~= Map::<u32, ChanType<S, R>>::empty().insert(
                        stream_idx,
                        ChanType::Sender(snd),
                    ));
                    chan_map.insert(id, ChannelMapEntry::Broadcast(broadcast_map));
                    Ok(rcv)
                },
                Some(other) => {
                    chan_map.insert(id, other);
                    Err(ProtocolError::BadConfig)
                },
            },
        };
        let ghost m1 = chan_map@;
        self.map = Some(chan_map);
        proof {
            let after = self@;
            assert(after =~= Map::new(|k: u32| m1.contains_key(k), |k: u32| entry_view(m1[k])));
            match receiver_lookup(before, id, idx) {
                None => {
                    assert(after =~= before);
                },
                Some(Some(x)) => {
                    assert(after =~= without_end(before, id, idx));
                },
                Some(None) => {
                    let (snd, rcv) = made.unwrap();
                    assert(make.ensures((chan_capacity(capacity),), (snd, rcv)));
                    assert(result == Ok::<R, ProtocolError>(rcv));
                    assert(after =~= with_end(before, id, idx, ChanType::Sender(snd)));
                },
            }
        }
        result
    }

    /// The sending end of the stream `idx` of producer `id`. If the end waits
    /// in the map it is taken from there. If nothing waits, `make` makes a
    /// channel of the given capacity, the sending end of which is returned and
    /// the receiving end of which waits in the map from now on. An entry of
    /// another kind under this id is a fault of the graph, which
    /// `can_get_sender` tells beforehand.
    pub fn get_sender<F: FnOnce(usize) -> (S, R)>(
        &mut self,
        id: u32,
        idx: Option<u32>,
        capacity: Option<usize>,
        make: F,
    ) -> (r: Result<S, ProtocolError>)
        requires
            sender_lookup(old(self)@, id, idx) is Some,
            make.requires((chan_capacity(capacity),)),
        ensures
            match sender_lookup(old(self)@, id, idx) {
                None => r == Err::<S, ProtocolError>(ProtocolError::BadConfig) && final(self)@ == old(self)@,
                Some(Some(x)) => r == Ok::<S, ProtocolError>(x) && final(self)@ == without_end(old(self)@, id, idx),
                Some(None) => exists|snd: S, rcv: R|
                    {
                        &&& #[trigger] make.ensures((chan_capacity(capacity),), (snd, rcv))
                        &&& r == Ok::<S, ProtocolError>(snd)
                        &&& final(self)@ == with_end(old(self)@, id, idx, ChanType::Receiver(rcv))
                    },
            },
    {
        broadcast use vstd::std_specs::hash::group_hash_axioms;

        let ghost before = self@;
        let cap = match capacity {
            Some(c) => c,
            None => DEFAULT_CHAN_SIZE,
        };
        let mut chan_map = match self.map.take() {
            Some(m) => m,
            None => HashMap::new(),
        };
        let ghost m0 = chan_map@;
        assert(before =~= Map::new(|k: u32| m0.contains_key(k), |k: u32| entry_view(m0[k])));
        let found = chan_map.remove(&id);
        let ghost mut made: Option<(S, R)> = None;
        let result = match idx {
            None => match found {
                Some(ChannelMapEntry::Single(ChanType::Sender(x))) => Ok(x),
                None => {
                    let (snd, rcv) = make(cap);
                    proof {
                        made = Some((snd, rcv));
                    }
                    chan_map.insert(id, ChannelMapEntry::Single(ChanType::Receiver(rcv)));
                    Ok(snd)
                },
                Some(other) => {
                    chan_map.insert(id, other);
                    Err(ProtocolError::BadConfig)
                },
            },
            Some(stream_idx) => match found {
                Some(ChannelMapEntry::Broadcast(x)) => {
                    let mut x = x;
                    let ghost x0 = x@;
                    match x.remove(&stream_idx) {
                        Some(ChanType::Sender(e)) => {
                            chan_map.insert(id, ChannelMapEntry::Broadcast(x));
                            Ok(e)
                        },
                        None => {
                            let (snd, rcv) = make(cap);
                            proof {
                                made = Some((snd, rcv));
                            }
                            x.insert(stream_idx, ChanType::Receiver(rcv));
                            assert(x@ =~= x0.insert(stream_idx, ChanType::Receiver(rcv)));
                            chan_map.insert(id, ChannelMapEntry::Broadcast(x));
                            Ok(snd)
                        },
                        Some(other) => {
                            x.insert(stream_idx, other);
                            assert(x@ =~= x0);
                            chan_map.insert(id, ChannelMapEntry::Broadcast(x));
                            Err(ProtocolError::BadConfig)
                        },
                    }
                },
                None => {
                    let (snd, rcv) = make(cap);
                    proof {
                        made = Some((snd, rcv));
                    }
                    let mut broadcast_map: HashMap<u32, ChanType<S, R>> = HashMap::new();
                    broadcast_map.insert(stream_idx, ChanType::Receiver(rcv));
                    assert(broadcast_map@ =~= Map::<u32, ChanType<S, R>>::empty().insert(
                        stream_idx,
                        ChanType::Receiver(rcv),
                    ));
                    chan_map.insert(id, ChannelMapEntry::Broadcast(broadcast_map));
                    Ok(snd)
                },
                Some(other) => {
                    chan_map.insert(id, other);
                    Err(ProtocolError::BadConfig)
                },
            },
        };
        let ghost m1 = chan_map@;
        self.map = Some(chan_map);
        proof {
            let after = self@;
            assert(after =~= Map::new(|k: u32| m1.contains_key(k), |k: u32| entry_view(m1[k])));
            match sender_lookup(before, id, idx) {
                None => {
                    assert(after =~= before);
                },
                Some(Some(x)) => {
                    assert(after =~= without_end(before, id, idx));
                },
                Some(None) => {
                    let (snd, rcv) = made.unwrap();
                    assert(make.ensures((chan_capacity(capacity),), (snd, rcv)));
                    assert(result == Ok::<S, ProtocolError>(snd));
                    assert(after =~= with_end(before, id, idx, ChanType::Receiver(rcv)));
                },
            }
        }
        result
    }

}

} // verus!
