//! The engine's shared state: the connection roster, the last-seen report per
//! plate, the pending-ticket queues per road, and the issued-days ledger.
//!
//! Each container is a vector of entries with pairwise-distinct keys, and its
//! contract speaks of `lookup`: the value stored at a key, or `None`. All the
//! engine's contracts are stated pointwise over `lookup`.

use vstd::pervasive::VecAdditionalExecFns;
use vstd::prelude::*;

use crate::models::{Client, ClientView, Connection, ConnectionView, Report, ReportView, Ticket, TicketView};
use crate::utils::bytes_equal;

verus! {

/// The value at `key`: the first entry that carries it, if any. With distinct
/// keys there is at most one.
pub open spec fn lookup<K, V>(entries: Seq<(K, V)>, key: K) -> Option<V>
    decreases entries.len(),
{
    if entries.len() == 0 {
        None
    } else if entries[0].0 == key {
        Some(entries[0].1)
    } else {
        lookup(entries.drop_first(), key)
    }
}

/// Pairwise-distinct keys.
pub open spec fn unique_keys<K, V>(entries: Seq<(K, V)>) -> bool {
    forall|i: int, j: int| 0 <= i < j < entries.len() ==> entries[i].0 != entries[j].0
}

/// `lookup` finds the first matching entry.
pub proof fn lemma_lookup_found<K, V>(entries: Seq<(K, V)>, key: K, i: int)
    requires
        0 <= i < entries.len(),
        entries[i].0 == key,
        forall|j: int| 0 <= j < i ==> entries[j].0 != key,
    ensures
        lookup(entries, key) == Some(entries[i].1),
    decreases i,
{
    if i > 0 {
        assert(entries.drop_first()[i - 1] == entries[i]);
        assert forall|j: int| 0 <= j < i - 1 implies entries.drop_first()[j].0 != key by {
            assert(entries.drop_first()[j] == entries[j + 1]);
        }
        lemma_lookup_found(entries.drop_first(), key, i - 1);
    }
}

/// `lookup` misses when no entry carries the key.
pub proof fn lemma_lookup_none<K, V>(entries: Seq<(K, V)>, key: K)
    requires
        forall|j: int| 0 <= j < entries.len() ==> entries[j].0 != key,
    ensures
        lookup(entries, key) is None,
    decreases entries.len(),
{
    if entries.len() > 0 {
        assert forall|j: int| 0 <= j < entries.drop_first().len() implies entries.drop_first()[j].0
            != key by {
            assert(entries.drop_first()[j] == entries[j + 1]);
        }
        lemma_lookup_none(entries.drop_first(), key);
    }
}

/// A hit names an entry of the sequence.
pub proof fn lemma_lookup_in<K, V>(entries: Seq<(K, V)>, key: K)
    ensures
        lookup(entries, key) matches Some(v) ==> exists|i: int|
            0 <= i < entries.len() && entries[i] == (key, v),
    decreases entries.len(),
{
    if entries.len() > 0 && entries[0].0 != key {
        lemma_lookup_in(entries.drop_first(), key);
        if let Some(v) = lookup(entries, key) {
            let i = choose|i: int|
                0 <= i < entries.drop_first().len() && entries.drop_first()[i] == (key, v);
            assert(entries[i + 1] == (key, v));
        }
    }
}

/// Replacing the value at position `i` (key kept) changes `lookup` at that key
/// alone.
pub proof fn lemma_lookup_update<K, V>(entries: Seq<(K, V)>, i: int, v: V, key: K)
    requires
        unique_keys(entries),
        0 <= i < entries.len(),
    ensures
        lookup(entries.update(i, (entries[i].0, v)), key) == if key == entries[i].0 {
            Some(v)
        } else {
            lookup(entries, key)
        },
    decreases entries.len(),
{
    let upd = entries.update(i, (entries[i].0, v));
    if i == 0 {
        if key != entries[0].0 {
            assert(upd.drop_first() =~= entries.drop_first());
        }
    } else {
        assert(upd[0] == entries[0]);
        if key != entries[0].0 {
            assert(upd.drop_first() =~= entries.drop_first().update(
                i - 1,
                (entries.drop_first()[i - 1].0, v),
            ));
            assert(unique_keys(entries.drop_first())) by {
                assert forall|a: int, b: int|
                    0 <= a < b < entries.drop_first().len() implies entries.drop_first()[a].0
                    != entries.drop_first()[b].0 by {
                    assert(entries.drop_first()[a] == entries[a + 1]);
                    assert(entries.drop_first()[b] == entries[b + 1]);
                }
            }
            assert(entries.drop_first()[i - 1] == entries[i]);
            lemma_lookup_update(entries.drop_first(), i - 1, v, key);
        }
    }
}

/// Removing the entry at position `i` changes `lookup` at its key alone.
pub proof fn lemma_lookup_remove<K, V>(entries: Seq<(K, V)>, i: int, key: K)
    requires
        unique_keys(entries),
        0 <= i < entries.len(),
    ensures
        lookup(entries.remove(i), key) == if key == entries[i].0 {
            None::<V>
        } else {
            lookup(entries, key)
        },
    decreases entries.len(),
{
    let rem = entries.remove(i);
    if i == 0 {
        assert(rem =~= entries.drop_first());
        if key == entries[0].0 {
            assert forall|j: int| 0 <= j < rem.len() implies rem[j].0 != key by {
                assert(rem[j] == entries[j + 1]);
            }
            lemma_lookup_none(rem, key);
        }
    } else {
        assert(rem[0] == entries[0]);
        if key != entries[0].0 {
            assert(rem.drop_first() =~= entries.drop_first().remove(i - 1));
            assert(unique_keys(entries.drop_first())) by {
                assert forall|a: int, b: int|
                    0 <= a < b < entries.drop_first().len() implies entries.drop_first()[a].0
                    != entries.drop_first()[b].0 by {
                    assert(entries.drop_first()[a] == entries[a + 1]);
                    assert(entries.drop_first()[b] == entries[b + 1]);
                }
            }
            assert(entries.drop_first()[i - 1] == entries[i]);
            lemma_lookup_remove(entries.drop_first(), i - 1, key);
        } else {
            // key is at position 0 of both, found immediately either way
        }
    }
}

/// Appending an entry with a fresh key adds that key and changes nothing else.
pub proof fn lemma_lookup_push<K, V>(entries: Seq<(K, V)>, kv: (K, V), key: K)
    requires
        forall|j: int| 0 <= j < entries.len() ==> entries[j].0 != kv.0,
    ensures
        lookup(entries.push(kv), key) == if key == kv.0 {
            Some(kv.1)
        } else {
            lookup(entries, key)
        },
    decreases entries.len(),
{
    let pushed = entries.push(kv);
    if entries.len() == 0 {
        assert(pushed[0] == kv);
        if key == kv.0 {
            assert(lookup(pushed, key) == Some(kv.1));
        } else {
            assert(pushed.drop_first() =~= Seq::<(K, V)>::empty());
            assert(lookup(pushed, key) is None);
        }
    } else {
        assert(pushed[0] == entries[0]);
        assert(pushed.drop_first() =~= entries.drop_first().push(kv));
        assert forall|j: int|
            0 <= j < entries.drop_first().len() implies entries.drop_first()[j].0 != kv.0 by {
            assert(entries.drop_first()[j] == entries[j + 1]);
        }
        lemma_lookup_push(entries.drop_first(), kv, key);
        if entries[0].0 == key {
            assert(key != kv.0);
            assert(lookup(pushed, key) == Some(entries[0].1));
            assert(lookup(entries, key) == Some(entries[0].1));
        } else {
            assert(lookup(pushed, key) == lookup(pushed.drop_first(), key));
            assert(lookup(entries, key) == lookup(entries.drop_first(), key));
        }
    }
}

/// The connection roster, keyed by connection identifier.
pub struct Roster {
    pub conns: Vec<Connection>,
}

impl View for Roster {
    type V = Seq<(u128, ConnectionView)>;

    open spec fn view(&self) -> Seq<(u128, ConnectionView)> {
        self.conns@.map_values(|c: Connection| (c@.id, c@))
    }
}

impl Roster {
    /// Distinct identifiers, each entry keyed by its own identifier.
    pub open spec fn wf(&self) -> bool {
        &&& unique_keys(self@)
        &&& forall|j: int| 0 <= j < self@.len() ==> (#[trigger] self@[j]).0 == self@[j].1.id
    }

    /// An empty roster.
    pub fn new() -> (r: Roster)
        ensures
            r.wf(),
            r@ == Seq::<(u128, ConnectionView)>::empty(),
    {
        let r = Roster { conns: Vec::new() };
        proof {
            assert(r@ =~= Seq::<(u128, ConnectionView)>::empty());
        }
        r
    }

    /// The connection with this identifier, if present.
    pub fn get(&self, id: u128) -> (r: Option<&Connection>)
        requires
            self.wf(),
        ensures
            match lookup(self@, id) {
                Some(cv) => r matches Some(c) && c@ == cv,
                None => r is None,
            },
    {
        let mut i: usize = 0;
        while i < self.conns.len()
            invariant
                i <= self.conns.len(),
                self.wf(),
                forall|j: int| 0 <= j < i ==> (#[trigger] self@[j]).0 != id,
            decreases self.conns.len() - i,
        {
            if self.conns[i].id == id {
                proof {
                    assert(self@[i as int] == (self.conns@[i as int]@.id, self.conns@[i as int]@));
                    lemma_lookup_found(self@, id, i as int);
                }
                return Some(&self.conns[i]);
            }
            proof {
                assert(self@[i as int] == (self.conns@[i as int]@.id, self.conns@[i as int]@));
            }
            i = i + 1;
        }
        proof {
            lemma_lookup_none(self@, id);
        }
        None
    }

    /// Inserts a connection, replacing any entry with the same identifier.
    pub fn add(&mut self, conn: Connection)
        requires
            old(self).wf(),
        ensures
            final(self).wf(),
            lookup(final(self)@, conn@.id) == Some(conn@),
            forall|x: u128| x != conn@.id ==> lookup(final(self)@, x) == lookup(old(self)@, x),
    {
        let ghost cv = conn@;
        let id = conn.id;
        let mut i: usize = 0;
        while i < self.conns.len()
            invariant
                i <= self.conns.len(),
                self.wf(),
                conn@ == cv,
                id == cv.id,
                self == old(self),
                forall|j: int| 0 <= j < i ==> (#[trigger] self@[j]).0 != id,
            decreases self.conns.len() - i,
        {
            if self.conns[i].id == id {
                proof {
                    assert(self@[i as int].0 == id);
                }
                self.conns.set(i, conn);
                proof {
                    assert(final(self)@ =~= old(self)@.update(i as int, (cv.id, cv)));
                    assert forall|x: u128|
                        lookup(final(self)@, x) == if x == cv.id {
                            Some(cv)
                        } else {
                            lookup(old(self)@, x)
                        } by {
                        lemma_lookup_update(old(self)@, i as int, cv, x);
                    }
                    assert(final(self).wf()) by {
                        assert forall|a: int, b: int|
                            0 <= a < b < final(self)@.len() implies (final(self)@[a]).0
                            != (final(self)@[b]).0 by {
                            assert((final(self)@[a]).0 == (old(self)@[a]).0);
                            assert((final(self)@[b]).0 == (old(self)@[b]).0);
                        }
                    }
                }
                return ;
            }
            proof {
                assert(self@[i as int] == (self.conns@[i as int]@.id, self.conns@[i as int]@));
            }
            i = i + 1;
        }
        self.conns.push(conn);
        proof {
            assert(final(self)@ =~= old(self)@.push((cv.id, cv)));
            assert forall|x: u128|
                lookup(final(self)@, x) == if x == cv.id {
                    Some(cv)
                } else {
                    lookup(old(self)@, x)
                } by {
                lemma_lookup_push(old(self)@, (cv.id, cv), x);
            }
            lemma_lookup_none(old(self)@, cv.id);
        }
    }

    /// Removes the connection with this identifier, if present.
    pub fn remove(&mut self, id: u128)
        requires
            old(self).wf(),
        ensures
            final(self).wf(),
            lookup(final(self)@, id) is None,
            forall|x: u128| x != id ==> lookup(final(self)@, x) == lookup(old(self)@, x),
    {
        let mut i: usize = 0;
        while i < self.conns.len()
            invariant
                i <= self.conns.len(),
                self.wf(),
                self == old(self),
                forall|j: int| 0 <= j < i ==> (#[trigger] self@[j]).0 != id,
            decreases self.conns.len() - i,
        {
            if self.conns[i].id == id {
                proof {
                    assert(self@[i as int].0 == id);
                }
                let _ = self.conns.remove(i);
                proof {
                    assert(final(self)@ =~= old(self)@.remove(i as int));
                    assert forall|x: u128|
                        lookup(final(self)@, x) == if x == id {
                            None::<ConnectionView>
                        } else {
                            lookup(old(self)@, x)
                        } by {
                        lemma_lookup_remove(old(self)@, i as int, x);
                    }
                    assert(final(self).wf()) by {
                        assert forall|a: int, b: int|
                            0 <= a < b < final(self)@.len() implies (final(self)@[a]).0
                            != (final(self)@[b]).0 by {
                            let pa = if a < i as int {
                                a
                            } else {
                                a + 1
                            };
                            let pb = if b < i as int {
                                b
                            } else {
                                b + 1
                            };
                            assert(final(self)@[a] == old(self)@[pa]);
                            assert(final(self)@[b] == old(self)@[pb]);
                        }
                    }
                }
                return ;
            }
            proof {
                assert(self@[i as int] == (self.conns@[i as int]@.id, self.conns@[i as int]@));
            }
            i = i + 1;
        }
        proof {
            lemma_lookup_none(self@, id);
        }
    }

    /// Declares the connection's role; its identifier and heartbeat state are
    /// kept.
    pub fn set_client(&mut self, id: u128, client: Client)
        requires
            old(self).wf(),
            lookup(old(self)@, id) is Some,
        ensures
            final(self).wf(),
            lookup(final(self)@, id) == Some(
                ConnectionView {
                    id,
                    client: Some(client@),
                    heartbeat: lookup(old(self)@, id).unwrap().heartbeat,
                },
            ),
            forall|x: u128| x != id ==> lookup(final(self)@, x) == lookup(old(self)@, x),
    {
        let ghost cl = client@;
        let mut i: usize = 0;
        while i < self.conns.len()
            invariant
                i <= self.conns.len(),
                self.wf(),
                self == old(self),
                client@ == cl,
                lookup(old(self)@, id) is Some,
                forall|j: int| 0 <= j < i ==> (#[trigger] self@[j]).0 != id,
            decreases self.conns.len() - i,
        {
            proof {
                assert(self@[i as int] == (self.conns@[i as int]@.id, self.conns@[i as int]@));
            }
            if self.conns[i].id == id {
                proof {
                    lemma_lookup_found(old(self)@, id, i as int);
                }
                let heartbeat = self.conns[i].heartbeat;
                let replacement = Connection { id, client: Some(client), heartbeat };
                let ghost cv = replacement@;
                self.conns.set(i, replacement);
                proof {
                    assert(final(self)@ =~= old(self)@.update(i as int, (id, cv)));
                    assert forall|x: u128|
                        lookup(final(self)@, x) == if x == id {
                            Some(cv)
                        } else {
                            lookup(old(self)@, x)
                        } by {
                        lemma_lookup_update(old(self)@, i as int, cv, x);
                    }
                    assert(final(self).wf()) by {
                        assert forall|a: int, b: int|
                            0 <= a < b < final(self)@.len() implies (final(self)@[a]).0
                            != (final(self)@[b]).0 by {
                            assert((final(self)@[a]).0 == (old(self)@[a]).0);
                            assert((final(self)@[b]).0 == (old(self)@[b]).0);
                        }
                    }
                }
                return ;
            }
            i = i + 1;
        }
        proof {
            lemma_lookup_none(old(self)@, id);
        }
    }

    /// Marks the connection as having requested a heartbeat with the given
    /// interval; its identifier and role are kept.
    pub fn set_heartbeat(&mut self, id: u128, deciseconds: u32)
        requires
            old(self).wf(),
            lookup(old(self)@, id) is Some,
        ensures
            final(self).wf(),
            lookup(final(self)@, id) == Some(
                ConnectionView {
                    id,
                    client: lookup(old(self)@, id).unwrap().client,
                    heartbeat: Some(deciseconds),
                },
            ),
            forall|x: u128| x != id ==> lookup(final(self)@, x) == lookup(old(self)@, x),
    {
        let mut i: usize = 0;
        while i < self.conns.len()
            invariant
                i <= self.conns.len(),
                self.wf(),
                self == old(self),
                lookup(old(self)@, id) is Some,
                forall|j: int| 0 <= j < i ==> (#[trigger] self@[j]).0 != id,
            decreases self.conns.len() - i,
        {
            proof {
                assert(self@[i as int] == (self.conns@[i as int]@.id, self.conns@[i as int]@));
            }
            if self.conns[i].id == id {
                proof {
                    lemma_lookup_found(old(self)@, id, i as int);
                }
                let mut replacement = Connection {
                    id,
                    client: None,
                    heartbeat: Some(deciseconds),
                };
                self.conns.set_and_swap(i, &mut replacement);
                let client = replacement.client;
                let heartbeat = self.conns[i].heartbeat;
                let restored = Connection { id, client, heartbeat };
                let ghost cv = restored@;
                self.conns.set(i, restored);
                proof {
                    assert(final(self)@ =~= old(self)@.update(i as int, (id, cv)));
                    assert forall|x: u128|
                        lookup(final(self)@, x) == if x == id {
                            Some(cv)
                        } else {
                            lookup(old(self)@, x)
                        } by {
                        lemma_lookup_update(old(self)@, i as int, cv, x);
                    }
                    assert(final(self).wf()) by {
                        assert forall|a: int, b: int|
                            0 <= a < b < final(self)@.len() implies (final(self)@[a]).0
                            != (final(self)@[b]).0 by {
                            assert((final(self)@[a]).0 == (old(self)@[a]).0);
                            assert((final(self)@[b]).0 == (old(self)@[b]).0);
                        }
                    }
                }
                return ;
            }
            i = i + 1;
        }
        proof {
            lemma_lookup_none(old(self)@, id);
        }
    }

    /// The first connected dispatcher responsible for a road, if any.
    pub fn find_dispatcher(&self, road: u16) -> (r: Option<u128>)
        requires
            self.wf(),
        ensures
            r == find_dispatcher(self@, road),
    {
        let mut i: usize = 0;
        while i < self.conns.len()
            invariant
                i <= self.conns.len(),
                self.wf(),
                forall|j: int| 0 <= j < i ==> !conn_covers((#[trigger] self@[j]).1, road),
            decreases self.conns.len() - i,
        {
            proof {
                assert(self@[i as int] == (self.conns@[i as int]@.id, self.conns@[i as int]@));
            }
            let covers = match &self.conns[i].client {
                Some(Client::Dispatcher(d)) => roads_contain(&d.roads, road),
                _ => false,
            };
            if covers {
                proof {
                    lemma_find_dispatcher_found(self@, road, i as int);
                }
                return Some(self.conns[i].id);
            }
            i = i + 1;
        }
        proof {
            lemma_find_dispatcher_none(self@, road);
        }
        None
    }
}

/// Whether a connection is a dispatcher responsible for a road.
pub open spec fn conn_covers(cv: ConnectionView, road: u16) -> bool {
    cv.client matches Some(ClientView::Dispatcher { roads }) && roads.contains(road)
}

/// The identifier of the first dispatcher in roster order responsible for a
/// road, if any is connected.
pub open spec fn find_dispatcher(conns: Seq<(u128, ConnectionView)>, road: u16) -> Option<u128>
    decreases conns.len(),
{
    if conns.len() == 0 {
        None
    } else if conn_covers(conns[0].1, road) {
        Some(conns[0].0)
    } else {
        find_dispatcher(conns.drop_first(), road)
    }
}

/// `find_dispatcher` returns the first covering entry.
pub proof fn lemma_find_dispatcher_found(conns: Seq<(u128, ConnectionView)>, road: u16, i: int)
    requires
        0 <= i < conns.len(),
        conn_covers(conns[i].1, road),
        forall|j: int| 0 <= j < i ==> !conn_covers((#[trigger] conns[j]).1, road),
    ensures
        find_dispatcher(conns, road) == Some(conns[i].0),
    decreases i,
{
    if i > 0 {
        assert(conns.drop_first()[i - 1] == conns[i]);
        assert forall|j: int| 0 <= j < i - 1 implies !conn_covers(
            (#[trigger] conns.drop_first()[j]).1,
            road,
        ) by {
            assert(conns.drop_first()[j] == conns[j + 1]);
        }
        lemma_find_dispatcher_found(conns.drop_first(), road, i - 1);
    }
}

/// `find_dispatcher` misses when no connection covers the road.
pub proof fn lemma_find_dispatcher_none(conns: Seq<(u128, ConnectionView)>, road: u16)
    requires
        forall|j: int| 0 <= j < conns.len() ==> !conn_covers((#[trigger] conns[j]).1, road),
    ensures
        find_dispatcher(conns, road) is None,
    decreases conns.len(),
{
    if conns.len() > 0 {
        assert forall|j: int|
            0 <= j < conns.drop_first().len() implies !conn_covers(
            (#[trigger] conns.drop_first()[j]).1,
            road,
        ) by {
            assert(conns.drop_first()[j] == conns[j + 1]);
        }
        lemma_find_dispatcher_none(conns.drop_first(), road);
    }
}

/// Whether a vector of roads holds a road.
pub fn roads_contain(roads: &Vec<u16>, road: u16) -> (r: bool)
    ensures
        r == roads@.contains(road),
{
    let mut i: usize = 0;
    while i < roads.len()
        invariant
            i <= roads.len(),
            forall|j: int| 0 <= j < i ==> roads@[j] != road,
        decreases roads.len() - i,
    {
        if roads[i] == road {
            return true;
        }
        i = i + 1;
    }
    false
}

/// The last-seen report per plate.
pub struct ReportIndex {
    pub reports: Vec<Report>,
}

impl View for ReportIndex {
    type V = Seq<(Seq<u8>, ReportView)>;

    open spec fn view(&self) -> Seq<(Seq<u8>, ReportView)> {
        self.reports@.map_values(|r: Report| (r@.plate, r@))
    }
}

impl ReportIndex {
    /// Distinct plates, each entry keyed by its report's plate, plates
    /// encodable in one length byte.
    pub open spec fn wf(&self) -> bool {
        &&& unique_keys(self@)
        &&& forall|j: int|
            0 <= j < self@.len() ==> (#[trigger] self@[j]).0 == self@[j].1.plate
                && self@[j].1.plate.len() <= 255
    }

    /// An empty index.
    pub fn new() -> (r: ReportIndex)
        ensures
            r.wf(),
            r@ == Seq::<(Seq<u8>, ReportView)>::empty(),
    {
        let r = ReportIndex { reports: Vec::new() };
        proof {
            assert(r@ =~= Seq::<(Seq<u8>, ReportView)>::empty());
        }
        r
    }

    /// The last report seen for this plate, if any.
    pub fn get(&self, plate: &Vec<u8>) -> (r: Option<&Report>)
        requires
            self.wf(),
        ensures
            match lookup(self@, plate@) {
                Some(rv) => r matches Some(rep) && rep@ == rv,
                None => r is None,
            },
    {
        let mut i: usize = 0;
        while i < self.reports.len()
            invariant
                i <= self.reports.len(),
                self.wf(),
                forall|j: int| 0 <= j < i ==> (#[trigger] self@[j]).0 != plate@,
            decreases self.reports.len() - i,
        {
            proof {
                assert(self@[i as int] == (self.reports@[i as int]@.plate,
                self.reports@[i as int]@));
            }
            if bytes_equal(&self.reports[i].plate, plate) {
                proof {
                    lemma_lookup_found(self@, plate@, i as int);
                }
                return Some(&self.reports[i]);
            }
            i = i + 1;
        }
        proof {
            lemma_lookup_none(self@, plate@);
        }
        None
    }

    /// Stores this report as the latest for its plate, replacing any previous
    /// one.
    pub fn set(&mut self, report: Report)
        requires
            old(self).wf(),
            report@.plate.len() <= 255,
        ensures
            final(self).wf(),
            lookup(final(self)@, report@.plate) == Some(report@),
            forall|p: Seq<u8>| p != report@.plate ==> lookup(final(self)@, p) == lookup(
                old(self)@,
                p,
            ),
    {
        let ghost rv = report@;
        let mut i: usize = 0;
        while i < self.reports.len()
            invariant
                i <= self.reports.len(),
                self.wf(),
                report@ == rv,
                self == old(self),
                forall|j: int| 0 <= j < i ==> (#[trigger] self@[j]).0 != rv.plate,
            decreases self.reports.len() - i,
        {
            proof {
                assert(self@[i as int] == (self.reports@[i as int]@.plate,
                self.reports@[i as int]@));
            }
            if bytes_equal(&self.reports[i].plate, &report.plate) {
                self.reports.set(i, report);
                proof {
                    assert(final(self)@ =~= old(self)@.update(i as int, (rv.plate, rv)));
                    assert forall|p: Seq<u8>|
                        lookup(final(self)@, p) == if p == rv.plate {
                            Some(rv)
                        } else {
                            lookup(old(self)@, p)
                        } by {
                        lemma_lookup_update(old(self)@, i as int, rv, p);
                    }
                    assert(final(self).wf()) by {
                        assert forall|a: int, b: int|
                            0 <= a < b < final(self)@.len() implies (final(self)@[a]).0
                            != (final(self)@[b]).0 by {
                            assert((final(self)@[a]).0 == (old(self)@[a]).0);
                            assert((final(self)@[b]).0 == (old(self)@[b]).0);
                        }
                    }
                }
                return ;
            }
            i = i + 1;
        }
        self.reports.push(report);
        proof {
            assert(final(self)@ =~= old(self)@.push((rv.plate, rv)));
            assert forall|p: Seq<u8>|
                lookup(final(self)@, p) == if p == rv.plate {
                    Some(rv)
                } else {
                    lookup(old(self)@, p)
                } by {
                lemma_lookup_push(old(self)@, (rv.plate, rv), p);
            }
        }
    }
}

/// The views of a vector of tickets.
pub open spec fn tickets_view(s: Seq<Ticket>) -> Seq<TicketView> {
    s.map_values(|t: Ticket| t@)
}

/// The tickets queued for a road; empty when the road has no entry.
pub open spec fn queued(entries: Seq<(u16, Seq<TicketView>)>, road: u16) -> Seq<TicketView> {
    match lookup(entries, road) {
        Some(q) => q,
        None => Seq::empty(),
    }
}

/// Distinct roads; every queued ticket carries its queue's road and an
/// encodable plate.
pub open spec fn pending_wf(entries: Seq<(u16, Seq<TicketView>)>) -> bool {
    &&& unique_keys(entries)
    &&& forall|j: int, k: int|
        0 <= j < entries.len() && 0 <= k < (#[trigger] entries[j]).1.len() ==> (
        #[trigger] entries[j].1[k]).road == entries[j].0 && entries[j].1[k].plate.len() <= 255
}

/// Every ticket queued for a road carries that road and an encodable plate.
pub proof fn lemma_queued_road(entries: Seq<(u16, Seq<TicketView>)>, road: u16)
    requires
        pending_wf(entries),
    ensures
        forall|k: int|
            0 <= k < queued(entries, road).len() ==> (#[trigger] queued(entries, road)[k]).road
                == road && queued(entries, road)[k].plate.len() <= 255,
{
    lemma_lookup_in(entries, road);
    if let Some(q) = lookup(entries, road) {
        let i = choose|i: int| 0 <= i < entries.len() && entries[i] == (road, q);
        assert forall|k: int|
            0 <= k < queued(entries, road).len() implies (#[trigger] queued(entries, road)[k]).road
            == road && queued(entries, road)[k].plate.len() <= 255 by {
            assert(entries[i].1[k].road == entries[i].0);
        }
    }
}

/// The pending-ticket queues, keyed by road.
pub struct PendingTickets {
    pub queues: Vec<(u16, Vec<Ticket>)>,
}

impl View for PendingTickets {
    type V = Seq<(u16, Seq<TicketView>)>;

    open spec fn view(&self) -> Seq<(u16, Seq<TicketView>)> {
        self.queues@.map_values(|e: (u16, Vec<Ticket>)| (e.0, tickets_view(e.1@)))
    }
}

impl PendingTickets {
    /// See `pending_wf`.
    pub open spec fn wf(&self) -> bool {
        pending_wf(self@)
    }

    /// No queues.
    pub fn new() -> (r: PendingTickets)
        ensures
            r.wf(),
            r@ == Seq::<(u16, Seq<TicketView>)>::empty(),
    {
        let r = PendingTickets { queues: Vec::new() };
        proof {
            assert(r@ =~= Seq::<(u16, Seq<TicketView>)>::empty());
        }
        r
    }

    /// The number of tickets queued for a road.
    pub fn count_for(&self, road: u16) -> (n: usize)
        requires
            self.wf(),
        ensures
            n == queued(self@, road).len(),
    {
        let mut i: usize = 0;
        while i < self.queues.len()
            invariant
                i <= self.queues.len(),
                self.wf(),
                forall|j: int| 0 <= j < i ==> (#[trigger] self@[j]).0 != road,
            decreases self.queues.len() - i,
        {
            proof {
                assert(self@[i as int] == (self.queues@[i as int].0, tickets_view(
                    self.queues@[i as int].1@,
                )));
            }
            if self.queues[i].0 == road {
                proof {
                    lemma_lookup_found(self@, road, i as int);
                }
                return self.queues[i].1.len();
            }
            i = i + 1;
        }
        proof {
            lemma_lookup_none(self@, road);
        }
        0
    }

    /// Removes and returns everything queued for a road, in queue order.
    pub fn take_road(&mut self, road: u16) -> (r: Vec<Ticket>)
        requires
            old(self).wf(),
        ensures
            final(self).wf(),
            tickets_view(r@) == queued(old(self)@, road),
            queued(final(self)@, road) == Seq::<TicketView>::empty(),
            forall|x: u16| x != road ==> queued(final(self)@, x) == queued(old(self)@, x),
    {
        let mut i: usize = 0;
        while i < self.queues.len()
            invariant
                i <= self.queues.len(),
                self.wf(),
                self == old(self),
                forall|j: int| 0 <= j < i ==> (#[trigger] self@[j]).0 != road,
            decreases self.queues.len() - i,
        {
            proof {
                assert(self@[i as int] == (self.queues@[i as int].0, tickets_view(
                    self.queues@[i as int].1@,
                )));
            }
            if self.queues[i].0 == road {
                proof {
                    lemma_lookup_found(old(self)@, road, i as int);
                }
                let mut taken: (u16, Vec<Ticket>) = (road, Vec::new());
                self.queues.set_and_swap(i, &mut taken);
                proof {
                    assert(tickets_view(taken.1@) == queued(old(self)@, road));
                    assert(final(self)@ =~= old(self)@.update(
                        i as int,
                        (road, Seq::<TicketView>::empty()),
                    )) by {
                        assert(tickets_view(Seq::<Ticket>::empty()) =~= Seq::<
                            TicketView,
                        >::empty());
                        assert(final(self)@ =~= old(self)@.update(
                            i as int,
                            (road, tickets_view(Seq::<Ticket>::empty())),
                        ));
                    }
                    assert forall|x: u16|
                        lookup(final(self)@, x) == if x == road {
                            Some(Seq::<TicketView>::empty())
                        } else {
                            lookup(old(self)@, x)
                        } by {
                        lemma_lookup_update(old(self)@, i as int, Seq::<TicketView>::empty(), x);
                    }
                    assert(final(self).wf()) by {
                        assert forall|a: int, b: int|
                            0 <= a < b < final(self)@.len() implies (final(self)@[a]).0
                            != (final(self)@[b]).0 by {
                            assert((final(self)@[a]).0 == (old(self)@[a]).0);
                            assert((final(self)@[b]).0 == (old(self)@[b]).0);
                        }
                        assert forall|j: int, k: int|
                            0 <= j < final(self)@.len() && 0 <= k < (
                            #[trigger] final(self)@[j]).1.len() implies (
                            #[trigger] final(self)@[j].1[k]).road == final(self)@[j].0
                            && final(self)@[j].1[k].plate.len() <= 255 by {
                            if j != i as int {
                                assert(final(self)@[j] == old(self)@[j]);
                                assert((#[trigger] old(self)@[j]).1[k].road == old(self)@[j].0
                                    && old(self)@[j].1[k].plate.len() <= 255);
                            }
                        }
                    }
                }
                return taken.1;
            }
            i = i + 1;
        }
        proof {
            lemma_lookup_none(self@, road);
        }
        Vec::new()
    }

    /// Appends a ticket to its road's queue, creating the queue if absent.
    pub fn push_ticket(&mut self, ticket: Ticket)
        requires
            old(self).wf(),
            ticket@.plate.len() <= 255,
        ensures
            final(self).wf(),
            queued(final(self)@, ticket@.road) == queued(old(self)@, ticket@.road).push(ticket@),
            forall|x: u16| x != ticket@.road ==> queued(final(self)@, x) == queued(old(self)@, x),
    {
        let ghost tv = ticket@;
        let road = ticket.road;
        let mut i: usize = 0;
        while i < self.queues.len()
            invariant
                i <= self.queues.len(),
                self.wf(),
                self == old(self),
                ticket@ == tv,
                road == tv.road,
                tv.plate.len() <= 255,
                forall|j: int| 0 <= j < i ==> (#[trigger] self@[j]).0 != road,
            decreases self.queues.len() - i,
        {
            proof {
                assert(self@[i as int] == (self.queues@[i as int].0, tickets_view(
                    self.queues@[i as int].1@,
                )));
            }
            if self.queues[i].0 == road {
                proof {
                    lemma_lookup_found(old(self)@, road, i as int);
                }
                let ghost oldq = tickets_view(self.queues@[i as int].1@);
                let mut entry: (u16, Vec<Ticket>) = self.queues.remove(i);
                entry.1.push(ticket);
                self.queues.insert(i, entry);
                proof {
                    assert(final(self)@ =~= old(self)@.update(i as int, (road, oldq.push(tv))))
                        by {
                        assert(tickets_view(entry.1@) =~= oldq.push(tv));
                        assert(self.queues@ =~= old(self).queues@.update(i as int, entry));
                    }
                    assert forall|x: u16|
                        lookup(final(self)@, x) == if x == road {
                            Some(oldq.push(tv))
                        } else {
                            lookup(old(self)@, x)
                        } by {
                        lemma_lookup_update(old(self)@, i as int, oldq.push(tv), x);
                    }
                    assert(final(self).wf()) by {
                        assert forall|a: int, b: int|
                            0 <= a < b < final(self)@.len() implies (final(self)@[a]).0
                            != (final(self)@[b]).0 by {
                            assert((final(self)@[a]).0 == (old(self)@[a]).0);
                            assert((final(self)@[b]).0 == (old(self)@[b]).0);
                        }
                        assert forall|j: int, k: int|
                            0 <= j < final(self)@.len() && 0 <= k < (
                            #[trigger] final(self)@[j]).1.len() implies (
                            #[trigger] final(self)@[j].1[k]).road == final(self)@[j].0
                            && final(self)@[j].1[k].plate.len() <= 255 by {
                            if j == i as int {
                                assert(old(self)@[j] == (old(self).queues@[j].0, tickets_view(
                                    old(self).queues@[j].1@,
                                )));
                                assert(final(self)@[j] == (road, oldq.push(tv)));
                                assert(old(self)@[j].1 == oldq);
                                assert(old(self)@[j].0 == road);
                                if k < oldq.len() {
                                    assert(final(self)@[j].1[k] == oldq[k]);
                                    assert(old(self)@[j].1[k].road == old(self)@[j].0
                                        && old(self)@[j].1[k].plate.len() <= 255);
                                } else {
                                    assert(final(self)@[j].1[k] == tv);
                                }
                            } else {
                                assert(final(self)@[j] == old(self)@[j]);
                                assert((#[trigger] old(self)@[j]).1[k].road == old(self)@[j].0
                                    && old(self)@[j].1[k].plate.len() <= 255);
                            }
                        }
                    }
                }
                return ;
            }
            i = i + 1;
        }
        let mut q: Vec<Ticket> = Vec::new();
        q.push(ticket);
        self.queues.push((road, q));
        proof {
            assert(final(self)@ =~= old(self)@.push((road, tickets_view(q@))));
            assert forall|x: u16|
                lookup(final(self)@, x) == if x == road {
                    Some(tickets_view(q@))
                } else {
                    lookup(old(self)@, x)
                } by {
                lemma_lookup_push(old(self)@, (road, tickets_view(q@)), x);
            }
            lemma_lookup_none(old(self)@, road);
            assert(tickets_view(q@) =~= Seq::<TicketView>::empty().push(tv));
            assert(queued(final(self)@, road) =~= queued(old(self)@, road).push(tv));
            assert(final(self).wf()) by {
                assert forall|j: int, k: int|
                    0 <= j < final(self)@.len() && 0 <= k < (
                    #[trigger] final(self)@[j]).1.len() implies (
                    #[trigger] final(self)@[j].1[k]).road == final(self)@[j].0
                    && final(self)@[j].1[k].plate.len() <= 255 by {
                    if j < old(self)@.len() {
                        assert(final(self)@[j] == old(self)@[j]);
                    } else {
                        assert(final(self)@[j].1 == tickets_view(q@));
                        assert(final(self)@[j].1[k] == tv);
                    }
                }
                assert forall|a: int, b: int|
                    0 <= a < b < final(self)@.len() implies (final(self)@[a]).0
                    != (final(self)@[b]).0 by {
                    if b < old(self)@.len() {
                        assert((final(self)@[a]).0 == (old(self)@[a]).0);
                        assert((final(self)@[b]).0 == (old(self)@[b]).0);
                    } else {
                        assert((final(self)@[b]).0 == road);
                        assert((final(self)@[a]).0 == (old(self)@[a]).0);
                    }
                }
            }
        }
    }
}

/// The day numbers on which a plate has already been ticketed; empty when the
/// plate has no entry.
pub open spec fn days_for(entries: Seq<(Seq<u8>, Seq<u32>)>, plate: Seq<u8>) -> Seq<u32> {
    match lookup(entries, plate) {
        Some(d) => d,
        None => Seq::empty(),
    }
}

/// Whether a day is already on a plate's ledger.
pub open spec fn day_used(entries: Seq<(Seq<u8>, Seq<u32>)>, plate: Seq<u8>, day: u32) -> bool {
    days_for(entries, plate).contains(day)
}

/// Whether any of the given days is already on a plate's ledger.
pub open spec fn spec_any_day_used(
    entries: Seq<(Seq<u8>, Seq<u32>)>,
    plate: Seq<u8>,
    days: Seq<u32>,
) -> bool {
    exists|i: int| 0 <= i < days.len() && day_used(entries, plate, days[i])
}

/// The issued-days ledger, keyed by plate.
pub struct IssuedDays {
    pub entries: Vec<(Vec<u8>, Vec<u32>)>,
}

impl View for IssuedDays {
    type V = Seq<(Seq<u8>, Seq<u32>)>;

    open spec fn view(&self) -> Seq<(Seq<u8>, Seq<u32>)> {
        self.entries@.map_values(|e: (Vec<u8>, Vec<u32>)| (e.0@, e.1@))
    }
}

/// Whether a vector holds a value.
fn u32s_contain(values: &Vec<u32>, x: u32) -> (r: bool)
    ensures
        r == values@.contains(x),
{
    let mut i: usize = 0;
    while i < values.len()
        invariant
            i <= values.len(),
            forall|j: int| 0 <= j < i ==> values@[j] != x,
        decreases values.len() - i,
    {
        if values[i] == x {
            return true;
        }
        i = i + 1;
    }
    false
}

impl IssuedDays {
    /// Distinct plates.
    pub open spec fn wf(&self) -> bool {
        unique_keys(self@)
    }

    /// An empty ledger.
    pub fn new() -> (r: IssuedDays)
        ensures
            r.wf(),
            r@ == Seq::<(Seq<u8>, Seq<u32>)>::empty(),
    {
        let r = IssuedDays { entries: Vec::new() };
        proof {
            assert(r@ =~= Seq::<(Seq<u8>, Seq<u32>)>::empty());
        }
        r
    }

    /// Whether any of the given days is already on this plate's ledger.
    pub fn any_day_used(&self, plate: &Vec<u8>, days: &Vec<u32>) -> (r: bool)
        requires
            self.wf(),
        ensures
            r == spec_any_day_used(self@, plate@, days@),
    {
        let mut i: usize = 0;
        while i < self.entries.len()
            invariant
                i <= self.entries.len(),
                self.wf(),
                forall|j: int| 0 <= j < i ==> (#[trigger] self@[j]).0 != plate@,
            decreases self.entries.len() - i,
        {
            proof {
                assert(self@[i as int] == (self.entries@[i as int].0@, self.entries@[i as int].1@));
            }
            if bytes_equal(&self.entries[i].0, plate) {
                proof {
                    lemma_lookup_found(self@, plate@, i as int);
                }
                let mut k: usize = 0;
                while k < days.len()
                    invariant
                        k <= days.len(),
                        i < self.entries.len(),
                        lookup(self@, plate@) == Some(self.entries@[i as int].1@),
                        forall|j: int|
                            0 <= j < k ==> !days_for(self@, plate@).contains(#[trigger] days@[j]),
                    decreases days.len() - k,
                {
                    if u32s_contain(&self.entries[i].1, days[k]) {
                        return true;
                    }
                    k = k + 1;
                }
                return false;
            }
            i = i + 1;
        }
        proof {
            lemma_lookup_none(self@, plate@);
        }
        false
    }

    /// Appends the given days to this plate's ledger, creating the entry if
    /// absent.
    pub fn record_days(&mut self, plate: &Vec<u8>, days: &Vec<u32>)
        requires
            old(self).wf(),
        ensures
            final(self).wf(),
            days_for(final(self)@, plate@) == days_for(old(self)@, plate@) + days@,
            forall|p: Seq<u8>| p != plate@ ==> days_for(final(self)@, p) == days_for(
                old(self)@,
                p,
            ),
            forall|p: Seq<u8>| p != plate@ ==> lookup(final(self)@, p) == lookup(old(self)@, p),
    {
        let mut i: usize = 0;
        while i < self.entries.len()
            invariant
                i <= self.entries.len(),
                self.wf(),
                self == old(self),
                forall|j: int| 0 <= j < i ==> (#[trigger] self@[j]).0 != plate@,
            decreases self.entries.len() - i,
        {
            proof {
                assert(self@[i as int] == (self.entries@[i as int].0@, self.entries@[i as int].1@));
            }
            if bytes_equal(&self.entries[i].0, plate) {
                proof {
                    lemma_lookup_found(old(self)@, plate@, i as int);
                }
                let ghost oldd = self.entries@[i as int].1@;
                let mut entry: (Vec<u8>, Vec<u32>) = self.entries.remove(i);
                entry.1.extend_from_slice(days.as_slice());
                self.entries.insert(i, entry);
                proof {
                    assert(entry.1@ =~= oldd + days@);
                    assert(self.entries@ =~= old(self).entries@.update(i as int, entry));
                    assert(final(self)@ =~= old(self)@.update(i as int, (plate@, oldd + days@)));
                    assert forall|p: Seq<u8>|
                        lookup(final(self)@, p) == if p == plate@ {
                            Some(oldd + days@)
                        } else {
                            lookup(old(self)@, p)
                        } by {
                        lemma_lookup_update(old(self)@, i as int, oldd + days@, p);
                    }
                    assert(final(self).wf()) by {
                        assert forall|a: int, b: int|
                            0 <= a < b < final(self)@.len() implies (final(self)@[a]).0
                            != (final(self)@[b]).0 by {
                            assert((final(self)@[a]).0 == (old(self)@[a]).0);
                            assert((final(self)@[b]).0 == (old(self)@[b]).0);
                        }
                    }
                }
                return ;
            }
            i = i + 1;
        }
        let plate_key = crate::models::clone_plate(plate);
        let mut recorded: Vec<u32> = Vec::new();
        recorded.extend_from_slice(days.as_slice());
        proof {
            assert(recorded@ =~= days@);
        }
        self.entries.push((plate_key, recorded));
        proof {
            assert(final(self)@ =~= old(self)@.push((plate@, days@)));
            assert forall|p: Seq<u8>|
                lookup(final(self)@, p) == if p == plate@ {
                    Some(days@)
                } else {
                    lookup(old(self)@, p)
                } by {
                lemma_lookup_push(old(self)@, (plate@, days@), p);
            }
            lemma_lookup_none(old(self)@, plate@);
            assert(days_for(final(self)@, plate@) =~= days_for(old(self)@, plate@) + days@);
        }
    }
}

} // verus!
