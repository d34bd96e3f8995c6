use std::collections::HashMap;

use vstd::prelude::*;
use vstd::std_specs::iter::IteratorSpec;

verus! {

broadcast use vstd::std_specs::hash::group_hash_axioms;

/// Capacity of the channels made for a program's streams.
pub const DEFAULT_CHAN_SIZE: usize = 8192;

/// One end of a channel waiting for its partner to be asked for.
pub enum ChannelEnd<S, R> {
    Sender(S),
    Receiver(R),
}

/// The answer to a request for one end of the channel with a given id.
pub enum Lookup<T> {
    /// Id 0 names no channel: the end goes nowhere.
    Void,
    /// The end was waiting and is handed out.
    Found(T),
    /// No end was waiting: a new channel was made, its other end parked
    /// under the id, and this end is handed out.
    Fresh(T),
}

/// Asking the registry `parked` for the sending end of channel `id`, where
/// `made` is the channel a fresh lookup makes: the answer and the registry
/// after.  (A receiving end parked under `id` is not asked for a sender.)
pub open spec fn sender_lookup<S, R>(parked: Map<u64, ChannelEnd<S, R>>, id: u64, made: (S, R)) -> (Lookup<S>, Map<
    u64,
    ChannelEnd<S, R>,
>) {
    if id == 0 {
        (Lookup::Void, parked)
    } else if parked.contains_key(id) {
        match parked[id] {
            ChannelEnd::Sender(s) => (Lookup::Found(s), parked.remove(id)),
            ChannelEnd::Receiver(_) => (Lookup::Void, parked),
        }
    } else {
        (Lookup::Fresh(made.0), parked.insert(id, ChannelEnd::Receiver(made.1)))
    }
}

/// Asking the registry `parked` for the receiving end of channel `id`,
/// likewise.  (A sending end parked under `id` is not asked for a
/// receiver.)
pub open spec fn receiver_lookup<S, R>(parked: Map<u64, ChannelEnd<S, R>>, id: u64, made: (S, R)) -> (Lookup<R>, Map<
    u64,
    ChannelEnd<S, R>,
>) {
    if parked.contains_key(id) {
        match parked[id] {
            ChannelEnd::Receiver(x) => (Lookup::Found(x), parked.remove(id)),
            ChannelEnd::Sender(_) => (Lookup::Void, parked),
        }
    } else {
        (Lookup::Fresh(made.1), parked.insert(id, ChannelEnd::Sender(made.0)))
    }
}

/// Law: for a channel id with nothing parked, asking for its sending end
/// and then for its receiving end, in either order, hands out the two ends
/// of the one channel the first lookup made, and leaves the registry as it
/// was; asking twice for the same end without the other in between is not
/// allowed (the parked end is of the other kind).
pub proof fn lemma_channel_ends_meet<S, R>(parked: Map<u64, ChannelEnd<S, R>>, id: u64, m1: (S, R), m2: (S, R))
    requires
        id != 0,
        !parked.contains_key(id),
    ensures
        ({
            let (r1, p1) = sender_lookup(parked, id, m1);
            let (r2, p2) = receiver_lookup(p1, id, m2);
            &&& r1 == Lookup::<S>::Fresh(m1.0)
            &&& r2 == Lookup::<R>::Found(m1.1)
            &&& p2 == parked
            &&& p1[id] is Receiver
        }),
        ({
            let (r1, p1) = receiver_lookup(parked, id, m1);
            let (r2, p2) = sender_lookup(p1, id, m2);
            &&& r1 == Lookup::<R>::Fresh(m1.1)
            &&& r2 == Lookup::<S>::Found(m1.0)
            &&& p2 == parked
            &&& p1[id] is Sender
        }),
{
    assert(parked.insert(id, ChannelEnd::<S, R>::Receiver(m1.1)).remove(id) =~= parked);
    assert(parked.insert(id, ChannelEnd::<S, R>::Sender(m1.0)).remove(id) =~= parked);
}

/// The channel ends of a program under construction, parked by channel id
/// until the operator at the other end asks for them.
pub struct Channels<S, R> {
    map: HashMap<u64, ChannelEnd<S, R>>,
}

impl<S, R> Channels<S, R> {
    /// The parked ends by channel id.
    pub closed spec fn parked(&self) -> Map<u64, ChannelEnd<S, R>> {
        self.map@
    }

    pub fn new() -> (r: Self)
        ensures
            r.parked() == Map::<u64, ChannelEnd<S, R>>::empty(),
    {
        Channels { map: HashMap::new() }
    }

    /// The sending end of channel `id`: id 0 goes nowhere; a parked
    /// sending end is handed out and unparked; otherwise `new_channel` makes
    /// a channel, whose receiving end is parked under `id`.  (A receiving
    /// end parked under `id` cannot be asked for a sender.)
    pub fn get_sender<F: FnOnce() -> (S, R)>(&mut self, id: u64, new_channel: F) -> (r: Lookup<S>)
        requires
            call_requires(new_channel, ()),
            id != 0 && old(self).parked().contains_key(id) ==> old(self).parked()[id] is Sender,
        ensures
            exists|made: (S, R)|
                {
                    &&& (id != 0 && !old(self).parked().contains_key(id) ==> call_ensures(new_channel, (), made))
                    &&& (r, final(self).parked()) == #[trigger] sender_lookup(old(self).parked(), id, made)
                },
    {
        let ghost w: (S, R) = vstd::pervasive::arbitrary();
        if id == 0 {
            assert(sender_lookup(old(self).parked(), id, w) == (Lookup::<S>::Void, self.map@));
            return Lookup::Void;
        }
        match self.map.remove(&id) {
            Some(ChannelEnd::Sender(s)) => {
                let r = Lookup::Found(s);
                assert(sender_lookup(old(self).parked(), id, w) == (r, self.map@));
                r
            },
            Some(ChannelEnd::Receiver(_)) => {
                assert(false);
                Lookup::Void
            },
            None => {
                let pair = new_channel();
                let (snd, rcv) = pair;
                self.map.insert(id, ChannelEnd::Receiver(rcv));
                assert(call_ensures(new_channel, (), (snd, rcv)));
                assert(self.map@ == old(self).parked().insert(id, ChannelEnd::<S, R>::Receiver(rcv)));
                let r = Lookup::Fresh(snd);
                assert(sender_lookup(old(self).parked(), id, (snd, rcv)) == (r, self.map@));
                r
            },
        }
    }

    /// The receiving end of channel `id`: a parked receiving end is handed
    /// out and unparked; otherwise `new_channel` makes a channel, whose
    /// sending end is parked under `id`.  (A sending end parked under `id`
    /// cannot be asked for a receiver.)
    pub fn get_receiver<F: FnOnce() -> (S, R)>(&mut self, id: u64, new_channel: F) -> (r: Lookup<R>)
        requires
            call_requires(new_channel, ()),
            old(self).parked().contains_key(id) ==> old(self).parked()[id] is Receiver,
        ensures
            exists|made: (S, R)|
                {
                    &&& (!old(self).parked().contains_key(id) ==> call_ensures(new_channel, (), made))
                    &&& (r, final(self).parked()) == #[trigger] receiver_lookup(old(self).parked(), id, made)
                },
    {
        let ghost w: (S, R) = vstd::pervasive::arbitrary();
        match self.map.remove(&id) {
            Some(ChannelEnd::Receiver(x)) => {
                let r = Lookup::Found(x);
                assert(receiver_lookup(old(self).parked(), id, w) == (r, self.map@));
                r
            },
            Some(ChannelEnd::Sender(_)) => {
                assert(false);
                Lookup::Void
            },
            None => {
                let pair = new_channel();
                let (snd, rcv) = pair;
                self.map.insert(id, ChannelEnd::Sender(snd));
                assert(call_ensures(new_channel, (), (snd, rcv)));
                assert(self.map@ == old(self).parked().insert(id, ChannelEnd::<S, R>::Sender(snd)));
                let r = Lookup::Fresh(rcv);
                assert(receiver_lookup(old(self).parked(), id, (snd, rcv)) == (r, self.map@));
                r
            },
        }
    }

    /// Parks the receiving end of channel `id` (replacing what was parked).
    pub fn set_receiver(&mut self, id: u64, rcv: R)
        ensures
            final(self).parked() == old(self).parked().insert(id, ChannelEnd::<S, R>::Receiver(rcv)),
    {
        self.map.insert(id, ChannelEnd::Receiver(rcv));
    }

    /// Parks the sending end of channel `id` (replacing what was parked).
    pub fn set_sender(&mut self, id: u64, snd: S)
        ensures
            final(self).parked() == old(self).parked().insert(id, ChannelEnd::<S, R>::Sender(snd)),
    {
        self.map.insert(id, ChannelEnd::Sender(snd));
    }

    /// The id of a sending end still parked, if any: such an end has lost
    /// its receiver.
    pub fn dangling_sender(&self) -> (r: Option<u64>)
        ensures
            match r {
                Some(id) => self.parked().contains_key(id) && self.parked()[id] is Sender,
                None => forall|id: u64| #[trigger] self.parked().contains_key(id) ==> self.parked()[id] is Receiver,
            },
    {
        let ghost p = self.parked();
        let mut ids: Vec<u64> = Vec::new();
        for k in it: self.map.keys()
            invariant
                ids@ == it.seq().take(it.index() as int).map_values(|r: &u64| *r),
        {
            ids.push(*k);
        }
        let ghost ks = vstd::std_specs::hash::spec_keys_iter(&self.map).remaining();
        assert(ids@ =~= ks.unref());
        assert(ids@.to_set() == p.dom());
        let mut i: usize = 0;
        while i < ids.len()
            invariant
                p == self.parked(),
                i <= ids@.len(),
                ids@.to_set() == p.dom(),
                forall|k: int| 0 <= k < i ==> p[#[trigger] ids@[k]] is Receiver,
            decreases ids.len() - i,
        {
            let id = ids[i];
            assert(ids@.to_set().contains(id));
            match self.map.get(&id) {
                Some(ChannelEnd::Sender(_)) => {
                    return Some(id);
                },
                _ => {},
            }
            i = i + 1;
        }
        proof {
            assert forall|id: u64| #[trigger] p.contains_key(id) implies p[id] is Receiver by {
                assert(ids@.to_set().contains(id));
                let k = choose|k: int| 0 <= k < ids@.len() && ids@[k] == id;
                assert(p[ids@[k]] is Receiver);
            }
        }
        None
    }

    /// The receiving ends nobody asked for, each once, in the map's own
    /// order.  (No sending end may be left parked: it would have lost its
    /// receiver.)
    pub fn iter_remainders(self) -> (r: Vec<R>)
        requires
            forall|id: u64| #[trigger] self.parked().contains_key(id) ==> self.parked()[id] is Receiver,
        ensures
            exists|ids: Seq<u64>|
                {
                    &&& ids.no_duplicates()
                    &&& ids.to_set() == self.parked().dom()
                    &&& ids.len() == r@.len()
                    &&& forall|k: int|
                        0 <= k < r@.len() ==> self.parked()[#[trigger] ids[k]] == ChannelEnd::<S, R>::Receiver(r@[k])
                },
    {
        let ghost p = self.parked();
        let mut ids: Vec<u64> = Vec::new();
        for k in it: self.map.keys()
            invariant
                ids@ == it.seq().take(it.index() as int).map_values(|r: &u64| *r),
        {
            ids.push(*k);
        }
        let ghost ks = vstd::std_specs::hash::spec_keys_iter(&self.map).remaining();
        assert(ids@ =~= ks.unref());
        assert(ids@.to_set() == p.dom());
        let mut map = self.map;
        let mut out: Vec<R> = Vec::new();
        let mut i: usize = 0;
        while i < ids.len()
            invariant
                p == self.parked(),
                forall|id: u64| #[trigger] p.contains_key(id) ==> p[id] is Receiver,
                i <= ids@.len(),
                ids@.no_duplicates(),
                ids@.to_set() == p.dom(),
                forall|k: u64| #[trigger] map@.contains_key(k) <==> (p.contains_key(k) && !ids@.take(i as int).contains(k)),
                forall|k: u64| #[trigger] map@.contains_key(k) ==> map@[k] == p[k],
                out@.len() == i,
                forall|k: int| 0 <= k < i ==> p[#[trigger] ids@[k]] == ChannelEnd::<S, R>::Receiver(out@[k]),
            decreases ids.len() - i,
        {
            let id = ids[i];
            assert(ids@.to_set().contains(id));
            assert(!ids@.take(i as int).contains(id)) by {
                if ids@.take(i as int).contains(id) {
                    let j = choose|j: int| 0 <= j < i && ids@.take(i as int)[j] == id;
                    assert(ids@[j] == ids@[i as int]);
                }
            }
            assert(ids@.take(i as int + 1) =~= ids@.take(i as int).push(id));
            assert(map@.contains_key(id));
            let ghost m0 = map@;
            let ghost t0 = ids@.take(i as int);
            let removed = map.remove(&id);
            let ghost t1 = ids@.take(i as int + 1);
            proof {
                assert forall|k: u64| #[trigger] map@.contains_key(k) <==> (p.contains_key(k) && !ids@.take(i as int + 1).contains(k)) by {
                    assert(t1.contains(k) <==> (t0.contains(k) || k == id)) by {
                        if t1.contains(k) {
                            let j = choose|j: int| 0 <= j < t1.len() && #[trigger] t1[j] == k;
                            if j < i {
                                assert(t0[j] == k);
                            }
                        }
                        if t0.contains(k) {
                            let j = choose|j: int| 0 <= j < t0.len() && #[trigger] t0[j] == k;
                            assert(t1[j] == k);
                        }
                        if k == id {
                            assert(t1[i as int] == k);
                        }
                    }
                }
            }
            assert(removed == Some(m0[id]));
            match removed {
                Some(ChannelEnd::Receiver(x)) => {
                    out.push(x);
                },
                _ => {
                    assert(p[id] is Receiver);
                    assert(false);
                },
            }
            i = i + 1;
        }
        out
    }
}

} // verus!
