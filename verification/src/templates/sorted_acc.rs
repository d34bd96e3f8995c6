use std::collections::BTreeMap;

use vstd::prelude::*;
use vstd::std_specs::cmp::OrdSpec;
use vstd::std_specs::iter::IteratorSpec;

verus! {

broadcast use {vstd::std_specs::btree::group_btree_axioms, vstd::laws_cmp::group_laws_cmp};

/// An accumulator keyed by coordinate: entries in strictly increasing order
/// of key, as an ordered map walks them.
pub open spec fn keys_increasing<T>(acc: Seq<(u32, T)>) -> bool {
    forall|i: int, j: int| 0 <= i < j < acc.len() ==> acc[i].0 < acc[j].0
}

/// `acc` with `upd` applied to the entry of key `k`, or, when there is no
/// such entry, with `(k, init)` put in its place in key order.
pub open spec fn upsert<T>(acc: Seq<(u32, T)>, k: u32, init: T, upd: spec_fn(T) -> T) -> Seq<(u32, T)>
    decreases acc.len(),
{
    if acc.len() == 0 {
        seq![(k, init)]
    } else if acc[0].0 == k {
        acc.update(0, (k, upd(acc[0].1)))
    } else if k < acc[0].0 {
        seq![(k, init)] + acc
    } else {
        seq![acc[0]] + upsert(acc.drop_first(), k, init, upd)
    }
}

/// Appending one payload to a list of payloads.
pub open spec fn push_payload<V>(x: V) -> spec_fn(Seq<V>) -> Seq<V> {
    |s: Seq<V>| s.push(x)
}

/// The entries of a coordinate-keyed accumulator of payload lists, as seen
/// by the specifications.
pub open spec fn acc_view<V>(acc: Seq<(u32, Vec<V>)>) -> Seq<(u32, Seq<V>)> {
    acc.map_values(|e: (u32, Vec<V>)| (e.0, e.1@))
}

/// Where `upsert` acts: at the first entry whose key is not below `k`.
proof fn lemma_upsert_at<T>(acc: Seq<(u32, T)>, k: u32, init: T, upd: spec_fn(T) -> T, j: int)
    requires
        0 <= j <= acc.len(),
        forall|i: int| 0 <= i < j ==> (#[trigger] acc[i]).0 < k,
        j == acc.len() || acc[j].0 >= k,
    ensures
        upsert(acc, k, init, upd) == (if j < acc.len() && acc[j].0 == k {
            acc.update(j, (k, upd(acc[j].1)))
        } else {
            acc.insert(j, (k, init))
        }),
    decreases j,
{
    if j == 0 {
        if acc.len() == 0 {
            assert(acc.insert(0, (k, init)) =~= seq![(k, init)]);
        } else if acc[0].0 != k {
            assert(acc.insert(0, (k, init)) =~= seq![(k, init)] + acc);
        }
    } else {
        let rest = acc.drop_first();
        assert(acc[0].0 < k);
        assert forall|i: int| 0 <= i < j - 1 implies (#[trigger] rest[i]).0 < k by {
            assert(rest[i] == acc[i + 1]);
        }
        lemma_upsert_at(rest, k, init, upd, j - 1);
        if j < acc.len() && acc[j].0 == k {
            assert(seq![acc[0]] + rest.update(j - 1, (k, upd(rest[j - 1].1))) =~= acc.update(j, (k, upd(acc[j].1))));
        } else {
            assert(seq![acc[0]] + rest.insert(j - 1, (k, init)) =~= acc.insert(j, (k, init)));
        }
    }
}

/// Every key of `upsert(acc, k, ..)` is `k` or a key of `acc`, so a bound
/// below both stays a bound.
proof fn lemma_upsert_lower<T>(acc: Seq<(u32, T)>, k: u32, init: T, upd: spec_fn(T) -> T, lo: int)
    requires
        lo < k,
        forall|i: int| 0 <= i < acc.len() ==> lo < (#[trigger] acc[i]).0,
    ensures
        forall|i: int|
            0 <= i < upsert(acc, k, init, upd).len() ==> lo < (#[trigger] upsert(acc, k, init, upd)[i]).0,
    decreases acc.len(),
{
    if acc.len() > 0 && acc[0].0 != k && k > acc[0].0 {
        let rest = acc.drop_first();
        assert forall|i: int| 0 <= i < rest.len() implies lo < (#[trigger] rest[i]).0 by {
            assert(rest[i] == acc[i + 1]);
        }
        lemma_upsert_lower(rest, k, init, upd, lo);
        let u = upsert(acc, k, init, upd);
        let r = upsert(rest, k, init, upd);
        assert forall|i: int| 0 <= i < u.len() implies lo < (#[trigger] u[i]).0 by {
            if i > 0 {
                assert(u[i] == r[i - 1]);
            }
        }
    }
}

/// Law: an accumulator kept in key order stays in key order, whatever is
/// added to it.
pub proof fn lemma_upsert_increasing<T>(acc: Seq<(u32, T)>, k: u32, init: T, upd: spec_fn(T) -> T)
    requires
        keys_increasing(acc),
    ensures
        keys_increasing(upsert(acc, k, init, upd)),
    decreases acc.len(),
{
    if acc.len() > 0 && acc[0].0 != k && k > acc[0].0 {
        let rest = acc.drop_first();
        assert(keys_increasing(rest)) by {
            assert forall|i: int, j: int| 0 <= i < j < rest.len() implies rest[i].0 < rest[j].0 by {
                assert(rest[i] == acc[i + 1] && rest[j] == acc[j + 1]);
            }
        }
        lemma_upsert_increasing(rest, k, init, upd);
        assert forall|i: int| 0 <= i < rest.len() implies acc[0].0 < (#[trigger] rest[i]).0 by {
            assert(rest[i] == acc[i + 1]);
        }
        lemma_upsert_lower(rest, k, init, upd, acc[0].0 as int);
        let u = upsert(acc, k, init, upd);
        let r = upsert(rest, k, init, upd);
        assert forall|i: int, j: int| 0 <= i < j < u.len() implies u[i].0 < u[j].0 by {
            assert(u[j] == r[j - 1]);
            if i > 0 {
                assert(u[i] == r[i - 1]);
            }
        }
    } else if acc.len() > 0 && acc[0].0 != k {
        let u = upsert(acc, k, init, upd);
        assert forall|i: int, j: int| 0 <= i < j < u.len() implies u[i].0 < u[j].0 by {
            assert(u[j] == acc[j - 1]);
            if i > 0 {
                assert(u[i] == acc[i - 1]);
            }
        }
    }
}

/// Adding payload `x` under inner coordinate `k0` of a one-level accumulator.
pub open spec fn add_into<V>(k0: u32, x: V) -> spec_fn(Seq<(u32, Seq<V>)>) -> Seq<(u32, Seq<V>)> {
    |inner: Seq<(u32, Seq<V>)>| upsert(inner, k0, seq![x], push_payload(x))
}

/// If `p` holds of `init` and is kept by `upd`, it holds of every value of
/// `upsert(acc, ..)` when it held of every value of `acc`.
pub proof fn lemma_upsert_values<T>(acc: Seq<(u32, T)>, k: u32, init: T, upd: spec_fn(T) -> T, p: spec_fn(T) -> bool)
    requires
        p(init),
        forall|t: T| p(t) ==> #[trigger] p(upd(t)),
        forall|i: int| 0 <= i < acc.len() ==> p((#[trigger] acc[i]).1),
    ensures
        forall|i: int|
            0 <= i < upsert(acc, k, init, upd).len() ==> p((#[trigger] upsert(acc, k, init, upd)[i]).1),
    decreases acc.len(),
{
    if acc.len() > 0 {
        let u = upsert(acc, k, init, upd);
        if acc[0].0 == k {
            assert(p(upd(acc[0].1)));
            assert forall|i: int| 0 <= i < u.len() implies p((#[trigger] u[i]).1) by {
                if i > 0 {
                    assert(u[i] == acc[i]);
                }
            }
        } else if k < acc[0].0 {
            assert forall|i: int| 0 <= i < u.len() implies p((#[trigger] u[i]).1) by {
                if i > 0 {
                    assert(u[i] == acc[i - 1]);
                }
            }
        } else {
            let rest = acc.drop_first();
            assert forall|i: int| 0 <= i < rest.len() implies p((#[trigger] rest[i]).1) by {
                assert(rest[i] == acc[i + 1]);
            }
            lemma_upsert_values(rest, k, init, upd, p);
            let r = upsert(rest, k, init, upd);
            assert forall|i: int| 0 <= i < u.len() implies p((#[trigger] u[i]).1) by {
                if i > 0 {
                    assert(u[i] == r[i - 1]);
                } else {
                    assert(u[0] == acc[0]);
                }
            }
        }
    }
}


/// The keys of an accumulator's entries, in order.
pub open spec fn keys_of<T>(acc: Seq<(u32, T)>) -> Seq<u32> {
    acc.map_values(|e: (u32, T)| e.0)
}

/// The index of the first entry whose key is not below `k`.
pub open spec fn slot<T>(acc: Seq<(u32, T)>, k: u32) -> nat
    decreases acc.len(),
{
    if acc.len() == 0 || acc[0].0 >= k {
        0
    } else {
        1 + slot(acc.drop_first(), k)
    }
}

proof fn lemma_slot<T>(acc: Seq<(u32, T)>, k: u32)
    ensures
        slot(acc, k) <= acc.len(),
        forall|i: int| 0 <= i < slot(acc, k) ==> (#[trigger] acc[i]).0 < k,
        slot(acc, k) == acc.len() || acc[slot(acc, k) as int].0 >= k,
    decreases acc.len(),
{
    if acc.len() > 0 && acc[0].0 < k {
        let rest = acc.drop_first();
        lemma_slot(rest, k);
        assert forall|i: int| 0 <= i < slot(acc, k) implies (#[trigger] acc[i]).0 < k by {
            if i > 0 {
                assert(acc[i] == rest[i - 1]);
            }
        }
    }
}

/// In an accumulator kept in key order, key `k` is present exactly at its
/// slot.
proof fn lemma_slot_holds_key<T>(acc: Seq<(u32, T)>, k: u32)
    requires
        keys_increasing(acc),
    ensures
        keys_of(acc).contains(k) <==> (slot(acc, k) < acc.len() && acc[slot(acc, k) as int].0 == k),
{
    lemma_slot(acc, k);
    let j = slot(acc, k) as int;
    if keys_of(acc).contains(k) {
        let i = choose|i: int| 0 <= i < keys_of(acc).len() && #[trigger] keys_of(acc)[i] == k;
        assert(acc[i].0 == k);
        if i < j {
            assert(acc[i].0 < k);
        } else if i > j {
            assert(acc[j].0 < acc[i].0);
        }
    }
    if j < acc.len() && acc[j].0 == k {
        assert(keys_of(acc)[j] == k);
    }
}

/// Two lists of keys in strictly increasing order that hold the same keys
/// are the same list.
proof fn lemma_increasing_same_set(a: Seq<u32>, b: Seq<u32>)
    requires
        forall|i: int, j: int| 0 <= i < j < a.len() ==> a[i] < a[j],
        forall|i: int, j: int| 0 <= i < j < b.len() ==> b[i] < b[j],
        a.to_set() == b.to_set(),
    ensures
        a == b,
    decreases a.len(),
{
    if a.len() == 0 {
        if b.len() > 0 {
            assert(b.to_set().contains(b[0]));
        }
        assert(b.len() == 0);
    } else {
        if b.len() == 0 {
            assert(a.to_set().contains(a[0]));
        }
        assert(b.to_set().contains(a[0]));
        assert(a.to_set().contains(b[0]));
        let ia = choose|i: int| 0 <= i < b.len() && b[i] == a[0];
        let ib = choose|i: int| 0 <= i < a.len() && a[i] == b[0];
        assert(b[0] <= b[ia]);
        assert(a[0] <= a[ib]);
        assert(a[0] == b[0]);
        let a1 = a.drop_first();
        let b1 = b.drop_first();
        assert(a1.to_set() =~= b1.to_set()) by {
            assert forall|x: u32| a1.to_set().contains(x) implies b1.to_set().contains(x) by {
                let i = choose|i: int| 0 <= i < a1.len() && a1[i] == x;
                assert(a[i + 1] == x);
                assert(b.to_set().contains(x));
                let m = choose|m: int| 0 <= m < b.len() && b[m] == x;
                assert(a[0] < x);
                assert(m != 0);
                assert(b1[m - 1] == x);
            }
            assert forall|x: u32| b1.to_set().contains(x) implies a1.to_set().contains(x) by {
                let i = choose|i: int| 0 <= i < b1.len() && b1[i] == x;
                assert(b[i + 1] == x);
                assert(a.to_set().contains(x));
                let m = choose|m: int| 0 <= m < a.len() && a[m] == x;
                assert(b[0] < x);
                assert(m != 0);
                assert(a1[m - 1] == x);
            }
        }
        lemma_increasing_same_set(a1, b1);
        assert(a =~= seq![a[0]] + a1);
        assert(b =~= seq![b[0]] + b1);
    }
}

/// An ordered map walks its keys in increasing order.
proof fn lemma_keys_walk_increasing(rem: Seq<&u32>)
    requires
        vstd::std_specs::btree::increasing_seq(rem),
    ensures
        forall|a: int, b: int| 0 <= a < b < rem.len() ==> *rem[a] < *rem[b],
{
    assert forall|a: int, b: int| 0 <= a < b < rem.len() implies *rem[a] < *rem[b] by {
        assert(OrdSpec::cmp_spec(&rem[a], &rem[b]) is Less);
    }
}

/// A coordinate-keyed accumulator of payload lists, kept in an ordered
/// map; its entries, walked in key order, are its view.
pub struct PayloadAcc<V> {
    map: BTreeMap<u32, Vec<V>>,
    entries: Ghost<Seq<(u32, Seq<V>)>>,
}

impl<V> View for PayloadAcc<V> {
    type V = Seq<(u32, Seq<V>)>;

    closed spec fn view(&self) -> Seq<(u32, Seq<V>)> {
        self.entries@
    }
}

impl<V> PayloadAcc<V> {
    /// The map holds exactly the entries, which are in key order.
    pub closed spec fn wf(&self) -> bool {
        &&& keys_increasing(self.entries@)
        &&& self.map@.dom() == keys_of(self.entries@).to_set()
        &&& forall|i: int|
            0 <= i < self.entries@.len() ==> (#[trigger] self.map@[self.entries@[i].0])@ == self.entries@[i].1
    }

    pub fn new() -> (r: Self)
        ensures
            r.wf(),
            r@ == Seq::<(u32, Seq<V>)>::empty(),
    {
        let r = PayloadAcc { map: BTreeMap::new(), entries: Ghost(Seq::empty()) };
        assert(keys_of(r.entries@).to_set() =~= Set::empty());
        r
    }

    /// Adds payload `x` under key `k`: appended to the payloads of `k`, or
    /// as a new entry.
    pub fn add(&mut self, k: u32, x: V)
        requires
            old(self).wf(),
        ensures
            final(self).wf(),
            final(self)@ == upsert(old(self)@, k, seq![x], push_payload(x)),
    {
        let ghost e0 = self.entries@;
        let ghost j = slot(e0, k) as int;
        proof {
            lemma_slot(e0, k);
            lemma_slot_holds_key(e0, k);
            lemma_upsert_at(e0, k, seq![x], push_payload(x), j);
            lemma_upsert_increasing(e0, k, seq![x], push_payload(x));
        }
        let removed = self.map.remove(&k);
        match removed {
            Some(mut v) => {
                proof {
                    assert(keys_of(e0).to_set().contains(k));
                    assert(keys_of(e0).contains(k));
                }
                v.push(x);
                self.map.insert(k, v);
                self.entries = Ghost(e0.update(j, (k, e0[j].1.push(x))));
                proof {
                    let e1 = self.entries@;
                    assert(keys_of(e1) =~= keys_of(e0));
                    assert forall|i: int| 0 <= i < e1.len() implies (#[trigger] self.map@[e1[i].0])@ == e1[i].1 by {
                        if i != j {
                            assert(e0[i].0 != k);
                        }
                    }
                    assert(self.map@.dom() =~= keys_of(e1).to_set());
                }
            },
            None => {
                proof {
                    assert(!keys_of(e0).to_set().contains(k));
                    if keys_of(e0).contains(k) {
                        let i = choose|i: int| 0 <= i < keys_of(e0).len() && keys_of(e0)[i] == k;
                        assert(keys_of(e0).to_set().contains(k));
                    }
                }
                let mut v: Vec<V> = Vec::new();
                v.push(x);
                self.map.insert(k, v);
                self.entries = Ghost(e0.insert(j, (k, seq![x])));
                proof {
                    let e1 = self.entries@;
                    assert(v@ =~= seq![x]);
                    assert forall|i: int| 0 <= i < e1.len() implies (#[trigger] self.map@[e1[i].0])@ == e1[i].1 by {
                        if i < j {
                            assert(e1[i] == e0[i]);
                            assert(e0[i].0 != k);
                        } else if i > j {
                            assert(e1[i] == e0[i - 1]);
                            assert(e0[i - 1].0 != k);
                        }
                    }
                    lemma_insert_keys(e0, j, k, seq![x]);
                    assert(self.map@.dom() =~= keys_of(e1).to_set());
                }
            },
        }
    }

    /// Hands out every entry in key order and leaves the accumulator empty.
    pub fn drain(&mut self) -> (r: Vec<(u32, Vec<V>)>)
        requires
            old(self).wf(),
        ensures
            final(self).wf(),
            final(self)@ == Seq::<(u32, Seq<V>)>::empty(),
            acc_view(r@) == old(self)@,
    {
        let ghost e = self.entries@;
        let mut map: BTreeMap<u32, Vec<V>> = BTreeMap::new();
        std::mem::swap(&mut map, &mut self.map);
        self.entries = Ghost(Seq::empty());
        assert(keys_of(self.entries@).to_set() =~= Set::empty());
        let mut ks: Vec<u32> = Vec::new();
        for key in it: map.keys()
            invariant
                ks@ == it.seq().take(it.index() as int).map_values(|r: &u32| *r),
        {
            ks.push(*key);
        }
        proof {
            let rem = vstd::std_specs::btree::spec_keys_iter(&map).remaining();
            assert(ks@ =~= rem.unref());
            lemma_keys_walk_increasing(rem);
            assert forall|a: int, b: int| 0 <= a < b < ks@.len() implies ks@[a] < ks@[b] by {
                assert(*rem[a] == ks@[a] && *rem[b] == ks@[b]);
            }
            assert forall|a: int, b: int| 0 <= a < b < keys_of(e).len() implies keys_of(e)[a] < keys_of(e)[b] by {
                assert(e[a].0 < e[b].0);
            }
            lemma_increasing_same_set(ks@, keys_of(e));
        }
        assert forall|m: int| 0 <= m < e.len() implies #[trigger] map@.contains_key(e[m].0) && (map@[e[m].0])@ == e[m].1 by {
            assert(keys_of(e)[m] == e[m].0);
        }
        let mut out: Vec<(u32, Vec<V>)> = Vec::new();
        let mut i: usize = 0;
        assert(acc_view(out@) =~= e.take(0));
        while i < ks.len()
            invariant
                i <= ks@.len(),
                ks@ == keys_of(e),
                keys_increasing(e),
                forall|m: int| i <= m < e.len() ==> #[trigger] map@.contains_key(e[m].0) && (map@[e[m].0])@ == e[m].1,
                acc_view(out@) == e.take(i as int),
            decreases ks.len() - i,
        {
            let k = ks[i];
            assert(k == e[i as int].0);
            let ghost m0 = map@;
            let removed = map.remove(&k);
            assert(map@ == m0.remove(k));
            match removed {
                Some(v) => {
                    let ghost o0 = out@;
                    out.push((k, v));
                    proof {
                        assert(acc_view(out@) =~= e.take(i as int + 1)) by {
                            assert(acc_view(out@) =~= acc_view(o0).push((k, v@)));
                        }
                        assert forall|m: int| i + 1 <= m < e.len() implies #[trigger] map@.contains_key(e[m].0) && (map@[e[m].0])@ == e[m].1 by {
                            assert(e[i as int].0 < e[m].0);
                        }
                    }
                },
                None => {
                    assert(false);
                },
            }
            i = i + 1;
        }
        assert(e.take(e.len() as int) =~= e);
        out
    }
}


/// The entries of a two-level accumulator handed out by `drain`.
pub open spec fn acc2_entries_view<V>(acc: Seq<(u32, PayloadAcc<V>)>) -> Seq<(u32, Seq<(u32, Seq<V>)>)> {
    acc.map_values(|e: (u32, PayloadAcc<V>)| (e.0, e.1@))
}

/// Inserting a new key at its slot adds exactly that key to the key set.
proof fn lemma_insert_keys<T>(e0: Seq<(u32, T)>, j: int, k: u32, t: T)
    requires
        0 <= j <= e0.len(),
    ensures
        keys_of(e0.insert(j, (k, t))).to_set() == keys_of(e0).to_set().insert(k),
{
    let e1 = e0.insert(j, (k, t));
    assert(keys_of(e1) =~= keys_of(e0).insert(j, k));
    assert forall|y: u32| keys_of(e1).to_set().contains(y) <==> (keys_of(e0).to_set().contains(y) || y == k) by {
        if keys_of(e1).to_set().contains(y) {
            let i = choose|i: int| 0 <= i < keys_of(e1).len() && keys_of(e1)[i] == y;
            if i < j {
                assert(keys_of(e0)[i] == y);
            } else if i > j {
                assert(keys_of(e0)[i - 1] == y);
            }
        }
        if keys_of(e0).to_set().contains(y) {
            let i = choose|i: int| 0 <= i < keys_of(e0).len() && keys_of(e0)[i] == y;
            if i < j {
                assert(keys_of(e1)[i] == y);
            } else {
                assert(keys_of(e1)[i + 1] == y);
            }
        }
        if y == k {
            assert(keys_of(e1)[j] == y);
        }
    }
    assert(keys_of(e1).to_set() =~= keys_of(e0).to_set().insert(k));
}

/// A two-level coordinate-keyed accumulator: an ordered map from outer
/// coordinates to one-level accumulators; its entries, walked in key order,
/// are its view.
pub struct PayloadAcc2<V> {
    map: BTreeMap<u32, PayloadAcc<V>>,
    entries: Ghost<Seq<(u32, Seq<(u32, Seq<V>)>)>>,
}

impl<V> View for PayloadAcc2<V> {
    type V = Seq<(u32, Seq<(u32, Seq<V>)>)>;

    closed spec fn view(&self) -> Seq<(u32, Seq<(u32, Seq<V>)>)> {
        self.entries@
    }
}

impl<V> PayloadAcc2<V> {
    /// The map holds exactly the entries, which are in key order, each
    /// inner accumulator well formed.
    pub closed spec fn wf(&self) -> bool {
        &&& keys_increasing(self.entries@)
        &&& self.map@.dom() == keys_of(self.entries@).to_set()
        &&& forall|i: int|
            0 <= i < self.entries@.len() ==> (#[trigger] self.map@[self.entries@[i].0]).wf()
                && self.map@[self.entries@[i].0]@ == self.entries@[i].1
    }

    pub fn new() -> (r: Self)
        ensures
            r.wf(),
            r@ == Seq::<(u32, Seq<(u32, Seq<V>)>)>::empty(),
    {
        let r = PayloadAcc2 { map: BTreeMap::new(), entries: Ghost(Seq::empty()) };
        assert(keys_of(r.entries@).to_set() =~= Set::empty());
        r
    }

    /// Whether no entry is held.
    pub fn is_empty(&self) -> (r: bool)
        requires
            self.wf(),
        ensures
            r == (self@.len() == 0),
    {
        let r = self.map.is_empty();
        proof {
            if self.entries@.len() > 0 {
                assert(keys_of(self.entries@)[0] == self.entries@[0].0);
                assert(self.map@.dom().contains(self.entries@[0].0));
            } else {
                assert(keys_of(self.entries@).to_set() =~= Set::empty());
                assert(self.map@ =~= Map::empty());
            }
        }
        r
    }

    /// Adds payload `x` under outer key `k1` and inner key `k0`.
    pub fn add(&mut self, k1: u32, k0: u32, x: V)
        requires
            old(self).wf(),
        ensures
            final(self).wf(),
            final(self)@ == upsert(old(self)@, k1, seq![(k0, seq![x])], add_into(k0, x)),
    {
        let ghost e0 = self.entries@;
        let ghost j = slot(e0, k1) as int;
        proof {
            lemma_slot(e0, k1);
            lemma_slot_holds_key(e0, k1);
            lemma_upsert_at(e0, k1, seq![(k0, seq![x])], add_into(k0, x), j);
            lemma_upsert_increasing(e0, k1, seq![(k0, seq![x])], add_into(k0, x));
        }
        let removed = self.map.remove(&k1);
        match removed {
            Some(mut inner) => {
                proof {
                    assert(keys_of(e0).to_set().contains(k1));
                    assert(keys_of(e0).contains(k1));
                }
                inner.add(k0, x);
                self.map.insert(k1, inner);
                self.entries = Ghost(e0.update(j, (k1, add_into(k0, x)(e0[j].1))));
                proof {
                    let e1 = self.entries@;
                    assert(keys_of(e1) =~= keys_of(e0));
                    assert forall|i: int| 0 <= i < e1.len() implies (#[trigger] self.map@[e1[i].0]).wf()
                        && self.map@[e1[i].0]@ == e1[i].1 by {
                        if i != j {
                            assert(e0[i].0 != k1);
                        }
                    }
                    assert(self.map@.dom() =~= keys_of(e1).to_set());
                }
            },
            None => {
                proof {
                    assert(!keys_of(e0).to_set().contains(k1));
                    if keys_of(e0).contains(k1) {
                        let i = choose|i: int| 0 <= i < keys_of(e0).len() && keys_of(e0)[i] == k1;
                        assert(keys_of(e0).to_set().contains(k1));
                    }
                }
                let mut inner: PayloadAcc<V> = PayloadAcc::new();
                inner.add(k0, x);
                self.map.insert(k1, inner);
                self.entries = Ghost(e0.insert(j, (k1, seq![(k0, seq![x])])));
                proof {
                    let e1 = self.entries@;
                    assert(inner@ =~= seq![(k0, seq![x])]);
                    assert forall|i: int| 0 <= i < e1.len() implies (#[trigger] self.map@[e1[i].0]).wf()
                        && self.map@[e1[i].0]@ == e1[i].1 by {
                        if i < j {
                            assert(e1[i] == e0[i]);
                            assert(e0[i].0 != k1);
                        } else if i > j {
                            assert(e1[i] == e0[i - 1]);
                            assert(e0[i - 1].0 != k1);
                        }
                    }
                    lemma_insert_keys(e0, j, k1, seq![(k0, seq![x])]);
                    assert(self.map@.dom() =~= keys_of(e1).to_set());
                }
            },
        }
    }

    /// Hands out every entry in key order and leaves the accumulator empty.
    pub fn drain(&mut self) -> (r: Vec<(u32, PayloadAcc<V>)>)
        requires
            old(self).wf(),
        ensures
            final(self).wf(),
            final(self)@ == Seq::<(u32, Seq<(u32, Seq<V>)>)>::empty(),
            acc2_entries_view(r@) == old(self)@,
            forall|i: int| 0 <= i < r@.len() ==> (#[trigger] r@[i]).1.wf(),
    {
        let ghost e = self.entries@;
        let mut map: BTreeMap<u32, PayloadAcc<V>> = BTreeMap::new();
        std::mem::swap(&mut map, &mut self.map);
        self.entries = Ghost(Seq::empty());
        assert(keys_of(self.entries@).to_set() =~= Set::empty());
        let mut ks: Vec<u32> = Vec::new();
        for key in it: map.keys()
            invariant
                ks@ == it.seq().take(it.index() as int).map_values(|r: &u32| *r),
        {
            ks.push(*key);
        }
        proof {
            let rem = vstd::std_specs::btree::spec_keys_iter(&map).remaining();
            assert(ks@ =~= rem.unref());
            lemma_keys_walk_increasing(rem);
            assert forall|a: int, b: int| 0 <= a < b < ks@.len() implies ks@[a] < ks@[b] by {
                assert(*rem[a] == ks@[a] && *rem[b] == ks@[b]);
            }
            assert forall|a: int, b: int| 0 <= a < b < keys_of(e).len() implies keys_of(e)[a] < keys_of(e)[b] by {
                assert(e[a].0 < e[b].0);
            }
            lemma_increasing_same_set(ks@, keys_of(e));
        }
        assert forall|m: int| 0 <= m < e.len() implies #[trigger] map@.contains_key(e[m].0) && map@[e[m].0].wf()
            && map@[e[m].0]@ == e[m].1 by {
            assert(keys_of(e)[m] == e[m].0);
        }
        let mut out: Vec<(u32, PayloadAcc<V>)> = Vec::new();
        let mut i: usize = 0;
        assert(acc2_entries_view(out@) =~= e.take(0));
        while i < ks.len()
            invariant
                i <= ks@.len(),
                ks@ == keys_of(e),
                keys_increasing(e),
                forall|m: int| i <= m < e.len() ==> #[trigger] map@.contains_key(e[m].0) && map@[e[m].0].wf()
                    && map@[e[m].0]@ == e[m].1,
                acc2_entries_view(out@) == e.take(i as int),
                forall|m: int| 0 <= m < out@.len() ==> (#[trigger] out@[m]).1.wf(),
            decreases ks.len() - i,
        {
            let k = ks[i];
            assert(k == e[i as int].0);
            let ghost m0 = map@;
            let removed = map.remove(&k);
            assert(map@ == m0.remove(k));
            match removed {
                Some(inner) => {
                    let ghost o0 = out@;
                    out.push((k, inner));
                    proof {
                        assert(acc2_entries_view(out@) =~= e.take(i as int + 1)) by {
                            assert(acc2_entries_view(out@) =~= acc2_entries_view(o0).push((k, inner@)));
                        }
                        assert forall|m: int| i + 1 <= m < e.len() implies #[trigger] map@.contains_key(e[m].0)
                            && map@[e[m].0].wf() && map@[e[m].0]@ == e[m].1 by {
                            assert(e[i as int].0 < e[m].0);
                        }
                    }
                },
                None => {
                    assert(false);
                },
            }
            i = i + 1;
        }
        assert(e.take(e.len() as int) =~= e);
        out
    }
}

} // verus!
