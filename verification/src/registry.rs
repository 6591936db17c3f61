//! The peer registry: the single source of truth for which remote nodes
//! are connected.
//!
//! The registry keeps two association tables keyed by endpoint — one for
//! peer records, one for outbound channel handles — and maintains them
//! together: an entry is present in one exactly when it is present in the
//! other. The channel handle type is a parameter: the registry stores and
//! returns handles without looking inside them. Callers that share a
//! registry across tasks serialize access to it, so each operation here
//! is one atomic step of the shared table.

use vstd::prelude::*;

use crate::peer::{Endpoint, Peer};

verus! {

broadcast use vstd::set::group_set_axioms, vstd::map::group_map_axioms;

spec fn alist_map<V>(s: Seq<(Endpoint, V)>) -> Map<Endpoint, V>
    decreases s.len(),
{
    if s.len() == 0 {
        Map::empty()
    } else {
        alist_map(s.drop_last()).insert(s.last().0, s.last().1)
    }
}

spec fn unique_keys<V>(s: Seq<(Endpoint, V)>) -> bool {
    forall|i: int, j: int| 0 <= i < j < s.len() ==> (#[trigger] s[i]).0 != (#[trigger] s[j]).0
}

proof fn lemma_alist_absent<V>(s: Seq<(Endpoint, V)>, a: Endpoint)
    requires
        forall|i: int| 0 <= i < s.len() ==> (#[trigger] s[i]).0 != a,
    ensures
        !alist_map(s).contains_key(a),
    decreases s.len(),
{
    if s.len() > 0 {
        assert(forall|i: int|
            0 <= i < s.drop_last().len() ==> (#[trigger] s.drop_last()[i]).0 != a);
        lemma_alist_absent(s.drop_last(), a);
        assert(s.last().0 != a);
    }
}

proof fn lemma_alist_contains<V>(s: Seq<(Endpoint, V)>, a: Endpoint)
    ensures
        alist_map(s).contains_key(a) <==> exists|i: int|
            0 <= i < s.len() && (#[trigger] s[i]).0 == a,
    decreases s.len(),
{
    if s.len() > 0 {
        let t = s.drop_last();
        lemma_alist_contains(t, a);
        if alist_map(s).contains_key(a) {
            if s.last().0 == a {
                assert((s[s.len() - 1]).0 == a);
            } else {
                let i = choose|i: int| 0 <= i < t.len() && (#[trigger] t[i]).0 == a;
                assert((s[i]).0 == a);
            }
        }
        if exists|i: int| 0 <= i < s.len() && (#[trigger] s[i]).0 == a {
            let i = choose|i: int| 0 <= i < s.len() && (#[trigger] s[i]).0 == a;
            if i < s.len() - 1 {
                assert((t[i]).0 == a);
            }
        }
    }
}

proof fn lemma_alist_at<V>(s: Seq<(Endpoint, V)>, i: int)
    requires
        unique_keys(s),
        0 <= i < s.len(),
    ensures
        alist_map(s).contains_key((s[i]).0),
        alist_map(s)[(s[i]).0] == (s[i]).1,
    decreases s.len(),
{
    if i == s.len() - 1 {
    } else {
        let t = s.drop_last();
        assert(forall|x: int, y: int|
            0 <= x < y < t.len() ==> (#[trigger] t[x]).0 != (#[trigger] t[y]).0);
        lemma_alist_at(t, i);
        assert((s[i]).0 != s.last().0);
    }
}

proof fn lemma_alist_remove<V>(s: Seq<(Endpoint, V)>, i: int)
    requires
        unique_keys(s),
        0 <= i < s.len(),
    ensures
        alist_map(s.remove(i)) == alist_map(s).remove((s[i]).0),
    decreases s.len(),
{
    let a = (s[i]).0;
    if i == s.len() - 1 {
        assert(s.remove(i) =~= s.drop_last());
        assert(forall|j: int|
            0 <= j < s.drop_last().len() ==> (#[trigger] s.drop_last()[j]).0 != a);
        lemma_alist_absent(s.drop_last(), a);
        assert(alist_map(s.remove(i)) =~= alist_map(s).remove(a));
    } else {
        let t = s.drop_last();
        assert(forall|x: int, y: int|
            0 <= x < y < t.len() ==> (#[trigger] t[x]).0 != (#[trigger] t[y]).0);
        assert(s.remove(i).drop_last() =~= t.remove(i));
        assert(s.remove(i).last() == s.last());
        lemma_alist_remove(t, i);
        assert((t[i]).0 == a);
        assert(s.last().0 != a);
        assert(alist_map(s.remove(i)) =~= alist_map(s).remove(a));
    }
}

/// Count of connected records in an association table.
spec fn count_connected(s: Seq<(Endpoint, Peer)>) -> int
    decreases s.len(),
{
    if s.len() == 0 {
        0
    } else {
        count_connected(s.drop_last()) + if s.last().1.is_connected {
            1int
        } else {
            0int
        }
    }
}

/// The endpoints a peer-record map marks connected.
pub open spec fn connected_of(m: Map<Endpoint, Peer>) -> Set<Endpoint> {
    m.dom().filter(|a: Endpoint| m[a].is_connected)
}

proof fn lemma_count_card(s: Seq<(Endpoint, Peer)>)
    requires
        unique_keys(s),
    ensures
        connected_of(alist_map(s)).finite(),
        connected_of(alist_map(s)).len() == count_connected(s),
    decreases s.len(),
{
    if s.len() == 0 {
        assert(connected_of(alist_map(s)) =~= Set::<Endpoint>::empty());
    } else {
        let t = s.drop_last();
        let k = s.last().0;
        let v = s.last().1;
        assert(forall|x: int, y: int|
            0 <= x < y < t.len() ==> (#[trigger] t[x]).0 != (#[trigger] t[y]).0);
        lemma_count_card(t);
        assert(forall|j: int| 0 <= j < t.len() ==> (#[trigger] t[j]).0 != k);
        lemma_alist_absent(t, k);
        if v.is_connected {
            assert(connected_of(alist_map(s)) =~= connected_of(alist_map(t)).insert(k));
        } else {
            assert(connected_of(alist_map(s)) =~= connected_of(alist_map(t)));
        }
    }
}

/// The registry: peer records and outbound channel handles, keyed by
/// endpoint and always present or absent together.
pub struct PeerRegistry<C> {
    records: Vec<(Endpoint, Peer)>,
    channels: Vec<(Endpoint, C)>,
}

impl<C> PeerRegistry<C> {
    /// The peer records, as a map from endpoint to record.
    pub closed spec fn records_map(&self) -> Map<Endpoint, Peer> {
        alist_map(self.records@)
    }

    /// The outbound channel handles, as a map from endpoint to handle.
    pub closed spec fn channels_map(&self) -> Map<Endpoint, C> {
        alist_map(self.channels@)
    }

    /// Internal shape every operation preserves: the two tables list the
    /// same endpoints, in the same order, each at most once.
    pub closed spec fn wf(&self) -> bool {
        &&& self.records@.len() == self.channels@.len()
        &&& (forall|i: int|
            0 <= i < self.records@.len() ==> (#[trigger] self.records@[i]).0 == (
            self.channels@[i]).0)
        &&& unique_keys(self.records@)
    }

    /// The endpoints currently marked connected.
    pub open spec fn connected_addrs(&self) -> Set<Endpoint> {
        connected_of(self.records_map())
    }

    proof fn lemma_channels_unique(&self)
        requires
            self.wf(),
        ensures
            unique_keys(self.channels@),
    {
        assert forall|i: int, j: int| 0 <= i < j < self.channels@.len() implies (
        #[trigger] self.channels@[i]).0 != (#[trigger] self.channels@[j]).0 by {
            assert((self.records@[i]).0 == (self.channels@[i]).0);
            assert((self.records@[j]).0 == (self.channels@[j]).0);
        }
    }

    /// Registry atomicity: an endpoint has a peer record exactly when it
    /// has an outbound channel; the two tables are never out of sync.
    pub proof fn lemma_maps_in_sync(&self)
        requires
            self.wf(),
        ensures
            forall|a: Endpoint|
                self.records_map().contains_key(a) <==> #[trigger] self.channels_map().contains_key(
                    a,
                ),
    {
        assert forall|a: Endpoint|
            self.records_map().contains_key(a)
                <==> #[trigger] self.channels_map().contains_key(a) by {
            lemma_alist_contains(self.records@, a);
            lemma_alist_contains(self.channels@, a);
            if self.records_map().contains_key(a) {
                let i = choose|i: int| 0 <= i < self.records@.len() && (#[trigger] self.records@[i]).0 == a;
                assert((self.channels@[i]).0 == a);
            }
            if self.channels_map().contains_key(a) {
                let i = choose|i: int| 0 <= i < self.channels@.len() && (#[trigger] self.channels@[i]).0 == a;
                assert((self.records@[i]).0 == a);
            }
        }
    }

    /// An empty registry.
    pub fn new() -> (r: Self)
        ensures
            r.wf(),
            r.records_map() == Map::<Endpoint, Peer>::empty(),
            r.channels_map() == Map::<Endpoint, C>::empty(),
    {
        PeerRegistry { records: Vec::new(), channels: Vec::new() }
    }

    fn find_record(&self, address: Endpoint) -> (r: Option<usize>)
        ensures
            match r {
                Some(i) => i < self.records@.len() && (self.records@[i as int]).0 == address,
                None => !self.records_map().contains_key(address),
            },
    {
        let mut i: usize = 0;
        while i < self.records.len()
            invariant
                0 <= i <= self.records@.len(),
                forall|j: int| 0 <= j < i ==> (#[trigger] self.records@[j]).0 != address,
            decreases self.records@.len() - i,
        {
            if self.records[i].0 == address {
                return Some(i);
            }
            i += 1;
        }
        proof {
            lemma_alist_absent(self.records@, address);
        }
        None
    }

    /// Whether an endpoint is registered.
    pub fn contains(&self, address: Endpoint) -> (r: bool)
        requires
            self.wf(),
        ensures
            r == self.records_map().contains_key(address),
    {
        match self.find_record(address) {
            Some(i) => {
                proof {
                    lemma_alist_at(self.records@, i as int);
                }
                true
            },
            None => false,
        }
    }

    /// Registers a peer record and its outbound channel as one pair. A
    /// duplicate insert is rejected and the existing connection kept: a
    /// second entry for the same endpoint would mean a stale or racing
    /// dial.
    pub fn insert(&mut self, address: Endpoint, peer: Peer, channel: C) -> (r: bool)
        requires
            old(self).wf(),
        ensures
            final(self).wf(),
            r == !old(self).records_map().contains_key(address),
            r ==> final(self).records_map() == old(self).records_map().insert(address, peer)
                && final(self).channels_map() == old(self).channels_map().insert(
                address,
                channel,
            ),
            !r ==> final(self).records_map() == old(self).records_map()
                && final(self).channels_map() == old(self).channels_map(),
    {
        match self.find_record(address) {
            Some(i) => {
                proof {
                    lemma_alist_at(self.records@, i as int);
                }
                false
            },
            None => {
                proof {
                    lemma_alist_contains(self.records@, address);
                }
                self.records.push((address, peer));
                self.channels.push((address, channel));
                proof {
                    assert(self.records@.drop_last() =~= old(self).records@);
                    assert(self.channels@.drop_last() =~= old(self).channels@);
                }
                true
            },
        }
    }

    /// Removes an endpoint's record and channel as one pair; removing an
    /// absent endpoint is a no-op.
    pub fn remove(&mut self, address: Endpoint)
        requires
            old(self).wf(),
        ensures
            final(self).wf(),
            final(self).records_map() == old(self).records_map().remove(address),
            final(self).channels_map() == old(self).channels_map().remove(address),
    {
        match self.find_record(address) {
            None => {
                proof {
                    old(self).lemma_maps_in_sync();
                    assert(old(self).records_map().remove(address) =~= old(self).records_map());
                    assert(old(self).channels_map().remove(address) =~= old(
                        self,
                    ).channels_map());
                }
            },
            Some(i) => {
                proof {
                    old(self).lemma_channels_unique();
                    lemma_alist_remove(old(self).records@, i as int);
                    lemma_alist_remove(old(self).channels@, i as int);
                    assert((old(self).channels@[i as int]).0 == address);
                }
                self.records.remove(i);
                self.channels.remove(i);
                proof {
                    let rs = old(self).records@;
                    let cs = old(self).channels@;
                    assert(self.records@ =~= rs.remove(i as int));
                    assert(self.channels@ =~= cs.remove(i as int));
                    assert(rs.remove(i as int) =~= rs.subrange(0, i as int) + rs.subrange(
                        i as int + 1,
                        rs.len() as int,
                    ));
                    assert(cs.remove(i as int) =~= cs.subrange(0, i as int) + cs.subrange(
                        i as int + 1,
                        cs.len() as int,
                    ));
                    assert forall|x: int, y: int|
                        0 <= x < y < self.records@.len() implies (#[trigger] self.records@[x]).0
                        != (#[trigger] self.records@[y]).0 by {
                        let x0: int = if x < i { x } else { x + 1 };
                        let y0: int = if y < i { y } else { y + 1 };
                        assert((self.records@[x]).0 == (rs[x0]).0);
                        assert((self.records@[y]).0 == (rs[y0]).0);
                    }
                }
            },
        }
    }

    /// The outbound channel handle registered for an endpoint.
    pub fn lookup_channel(&self, address: Endpoint) -> (r: Option<&C>)
        requires
            self.wf(),
        ensures
            match r {
                Some(c) => self.channels_map().contains_key(address) && *c
                    == self.channels_map()[address],
                None => !self.channels_map().contains_key(address),
            },
    {
        match self.find_record(address) {
            None => {
                proof {
                    self.lemma_maps_in_sync();
                }
                None
            },
            Some(i) => {
                proof {
                    self.lemma_channels_unique();
                    lemma_alist_at(self.channels@, i as int);
                    assert((self.channels@[i as int]).0 == address);
                }
                Some(&self.channels[i].1)
            },
        }
    }

    /// Number of registered peers currently marked connected.
    pub fn peer_count(&self) -> (r: usize)
        requires
            self.wf(),
        ensures
            r == self.connected_addrs().len(),
    {
        let ghost s = self.records@;
        let mut count: usize = 0;
        let mut i: usize = 0;
        while i < self.records.len()
            invariant
                0 <= i <= s.len(),
                s == self.records@,
                count == count_connected(s.take(i as int)),
                count <= i,
            decreases s.len() - i,
        {
            proof {
                assert(s.take(i + 1).drop_last() =~= s.take(i as int));
                assert(s.take(i + 1).last() == s[i as int]);
            }
            if self.records[i].1.is_connected {
                count += 1;
            }
            i += 1;
        }
        proof {
            assert(s.take(s.len() as int) =~= s);
            lemma_count_card(s);
        }
        count
    }

    /// A snapshot of the endpoints currently marked connected: each
    /// connected endpoint exactly once, and nothing else. Later inserts
    /// or removals do not touch a snapshot already taken.
    pub fn connected_addresses(&self) -> (r: Vec<Endpoint>)
        requires
            self.wf(),
        ensures
            forall|j: int| 0 <= j < r@.len() ==> self.connected_addrs().contains(#[trigger] r@[j]),
            forall|a: Endpoint| self.connected_addrs().contains(a) ==> r@.contains(a),
            forall|x: int, y: int| 0 <= x < y < r@.len() ==> r@[x] != r@[y],
            r@.len() == self.connected_addrs().len(),
    {
        let ghost s = self.records@;
        let mut out: Vec<Endpoint> = Vec::new();
        let ghost mut w: Seq<int> = Seq::empty();
        let mut i: usize = 0;
        while i < self.records.len()
            invariant
                0 <= i <= s.len(),
                s == self.records@,
                self.wf(),
                out@.len() == count_connected(s.take(i as int)),
                w.len() == out@.len(),
                forall|j: int|
                    #![trigger w[j]]
                    0 <= j < w.len() ==> 0 <= w[j] < i && (s[w[j]]).0 == out@[j] && (
                    s[w[j]]).1.is_connected,
                forall|k: int|
                    0 <= k < i && (#[trigger] s[k]).1.is_connected ==> out@.contains((s[k]).0),
                forall|x: int, y: int| 0 <= x < y < out@.len() ==> out@[x] != out@[y],
            decreases s.len() - i,
        {
            proof {
                assert(s.take(i + 1).drop_last() =~= s.take(i as int));
                assert(s.take(i + 1).last() == s[i as int]);
            }
            if self.records[i].1.is_connected {
                let ghost out_old = out@;
                let ghost a_new = (s[i as int]).0;
                proof {
                    assert(!out_old.contains(a_new)) by {
                        if out_old.contains(a_new) {
                            let j = choose|j: int| 0 <= j < out_old.len() && out_old[j] == a_new;
                            assert(0 <= w[j] < i && (s[w[j]]).0 == a_new);
                            assert(false);
                        }
                    }
                }
                out.push(self.records[i].0);
                proof {
                    w = w.push(i as int);
                    assert(out@ == out_old.push(a_new));
                    assert forall|j: int|
                        #![trigger w[j]]
                        0 <= j < w.len() implies 0 <= w[j] < i + 1 && (s[w[j]]).0 == out@[j] && (
                    s[w[j]]).1.is_connected by {
                        if j < out_old.len() {
                            assert(w[j] == w.drop_last()[j]);
                            assert(out@[j] == out_old[j]);
                        } else {
                            assert(w[j] == i as int);
                            assert(out@[j] == a_new);
                        }
                    }
                    assert forall|k: int|
                        0 <= k < i + 1 && (#[trigger] s[k]).1.is_connected implies out@.contains(
                        (s[k]).0,
                    ) by {
                        if k < i {
                            let j = choose|j: int|
                                0 <= j < out_old.len() && out_old[j] == (s[k]).0;
                            assert(out@[j] == (s[k]).0);
                        } else {
                            assert(out@[out@.len() - 1] == (s[k]).0);
                        }
                    }
                    assert forall|x: int, y: int|
                        0 <= x < y < out@.len() implies out@[x] != out@[y] by {
                        if y == out_old.len() {
                            assert(out@[x] == out_old[x]);
                            assert(out@[y] == a_new);
                            if out@[x] == a_new {
                                assert(out_old.contains(a_new));
                                assert(false);
                            }
                        } else {
                            assert(out@[x] == out_old[x] && out@[y] == out_old[y]);
                        }
                    }
                }
            }
            i += 1;
        }
        proof {
            assert(s.take(s.len() as int) =~= s);
            lemma_count_card(s);
            assert forall|j: int|
                0 <= j < out@.len() implies self.connected_addrs().contains(
                #[trigger] out@[j],
            ) by {
                assert(0 <= w[j] < s.len() && (s[w[j]]).0 == out@[j] && (s[w[j]]).1.is_connected);
                lemma_alist_at(s, w[j]);
            }
            assert forall|a: Endpoint|
                self.connected_addrs().contains(a) implies out@.contains(a) by {
                lemma_alist_contains(s, a);
                let k = choose|k: int| 0 <= k < s.len() && (#[trigger] s[k]).0 == a;
                lemma_alist_at(s, k);
                assert((s[k]).1.is_connected);
            }
        }
        out
    }

    /// Disconnection cleanup: removing an endpoint's entries takes it out
    /// of the connected set without touching any other endpoint, and
    /// shrinks the connected count by exactly one when the endpoint was
    /// connected.
    pub proof fn lemma_disconnect_cleanup(pre: Self, post: Self, a: Endpoint)
        requires
            pre.wf(),
            post.records_map() == pre.records_map().remove(a),
        ensures
            !post.connected_addrs().contains(a),
            forall|b: Endpoint|
                b != a ==> (post.connected_addrs().contains(b)
                    <==> #[trigger] pre.connected_addrs().contains(b)),
            pre.records_map().contains_key(a) && pre.records_map()[a].is_connected
                ==> post.connected_addrs().len() == pre.connected_addrs().len() - 1,
            !(pre.records_map().contains_key(a) && pre.records_map()[a].is_connected)
                ==> post.connected_addrs().len() == pre.connected_addrs().len(),
    {
        lemma_count_card(pre.records@);
        if pre.records_map().contains_key(a) && pre.records_map()[a].is_connected {
            assert(post.connected_addrs() =~= pre.connected_addrs().remove(a));
            assert(pre.connected_addrs().contains(a));
        } else {
            assert(post.connected_addrs() =~= pre.connected_addrs());
            assert(!pre.connected_addrs().contains(a));
        }
    }
}

} // verus!
