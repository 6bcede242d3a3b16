//! The event store: a capacity-bounded, deduplicated history of clipboard
//! events. The verified in-memory history is authoritative for every answer
//! the store gives; each commit and each pruning deletion is mirrored to the
//! durable layer, and on startup the mirror is read back and revalidated.
//!
//! Retention policy: after every successful commit, only the `max_events`
//! most recent events survive, recency ordered by timestamp and, among equal
//! timestamps, by insertion order (the freshest insertion survives).
//!
//! An event whose items carry no payloads is still committed as an empty
//! shell: its rows are retained, and its (empty) content hash takes part in
//! deduplication like any other.

use crate::clipboard_event::{
    clone_event, copy_bytes, event_equiv, event_hash, item_entries, items_entries,
    lemma_entries_determine_hash, type_entry, ClipboardEvent,
    ClipboardItem, ClipboardType,
};
use crate::errors::{FinalizeOutcome, StoreError};
use crate::sqlite;
use rusqlite::Connection;
use vstd::prelude::*;
use vstd::string::StringExecFns;

verus! {

/// The retention capacity used when the caller names none.
pub const DEFAULT_MAX_EVENTS: usize = 100;

/// The id of a committed event; committed events always carry one.
pub open spec fn eid(e: ClipboardEvent) -> i64 {
    match e.id {
        Some(i) => i,
        None => -1i64,
    }
}

/// Recency order on committed events: by timestamp, ties broken by id, which
/// increases with insertion order. `key_lt(a, b)` reads "a is older than b".
pub open spec fn key_lt(a: ClipboardEvent, b: ClipboardEvent) -> bool {
    a.timestamp < b.timestamp || (a.timestamp == b.timestamp && eid(a) < eid(b))
}

/// What the store guarantees of every retained event: a non-negative id,
/// well-formed payload sizes, and a sealed content hash derived from the
/// items.
pub open spec fn stored_wf(e: ClipboardEvent) -> bool {
    &&& e.id is Some
    &&& eid(e) >= 0
    &&& e.wf()
    &&& e.content_hash matches Some(h) && h@ == event_hash(e.items@)
}

/// The capture-and-retention engine: the builder of the event in progress,
/// the retained history, and the durable mirror.
pub struct ClipboardStorage {
    conn: Connection,
    events: Vec<ClipboardEvent>,
    max_events: usize,
    next_event_id: i64,
    next_item_id: i64,
    next_type_id: i64,
    current_event: Option<ClipboardEvent>,
    current_item: Option<ClipboardItem>,
}

impl ClipboardStorage {
    /// The store's invariant: retained events are well-formed, their ids
    /// increase with insertion order and stay below the id counter, no two
    /// retained events share a content hash, and an item can only be open
    /// inside an open event.
    pub closed spec fn wf(self) -> bool {
        &&& forall|i: int| 0 <= i < self.events@.len() ==> stored_wf(#[trigger] self.events@[i])
        &&& forall|i: int, j: int|
            0 <= i < j < self.events@.len() ==> eid(self.events@[i]) < eid(self.events@[j])
        &&& forall|i: int|
            0 <= i < self.events@.len() ==> eid(#[trigger] self.events@[i]) < self.next_event_id
        &&& forall|i: int, j: int|
            0 <= i < j < self.events@.len() ==> event_hash(self.events@[i].items@) != event_hash(
                self.events@[j].items@,
            )
        &&& self.next_event_id >= 0
        &&& self.next_item_id >= 0
        &&& self.next_type_id >= 0
        &&& (self.current_event matches Some(ev) ==> ev.wf() && ev.id is None)
        &&& (self.current_item matches Some(it) ==> it.wf())
        &&& (self.current_event is None ==> self.current_item is None)
    }

    /// The retained history, oldest insertion first.
    pub closed spec fn retained(self) -> Seq<ClipboardEvent> {
        self.events@
    }

    /// The retention capacity.
    pub closed spec fn capacity(self) -> usize {
        self.max_events
    }

    /// The id the next committed event will receive.
    pub closed spec fn next_id(self) -> i64 {
        self.next_event_id
    }

    /// The event being built, if one is open.
    pub closed spec fn cur_event(self) -> Option<ClipboardEvent> {
        self.current_event
    }

    /// The item being built, if one is open.
    pub closed spec fn cur_item(self) -> Option<ClipboardItem> {
        self.current_item
    }

    /// The items the open event would hold if it were sealed now: the open
    /// item, if any, is appended last, whether or not it carries payloads.
    pub open spec fn sealed_items(self) -> Seq<ClipboardItem> {
        match self.cur_event() {
            Some(ev) => match self.cur_item() {
                Some(it) => ev.items@.push(it),
                None => ev.items@,
            },
            None => Seq::<ClipboardItem>::empty(),
        }
    }

    /// The timestamp of the open event.
    pub open spec fn pending_timestamp(self) -> i64 {
        match self.cur_event() {
            Some(ev) => ev.timestamp,
            None => 0,
        }
    }

    /// True when some retained event already carries this content hash.
    pub open spec fn has_hash(self, h: Seq<char>) -> bool {
        exists|i: int|
            0 <= i < self.retained().len() && event_hash(
                (#[trigger] self.retained()[i]).items@,
            ) == h
    }

    /// Inserting the same event content twice retains exactly one copy: the
    /// content hash of any retained event is held by the store, so sealing
    /// content with that hash again reports a duplicate, and the duplicate
    /// outcome changes no stored data.
    pub proof fn lemma_retained_hash_is_held(self, i: int)
        requires
            0 <= i < self.retained().len(),
        ensures
            self.has_hash(event_hash(self.retained()[i].items@)),
    {
    }

    /// Opens a store over the given connection with the default retention
    /// capacity: the schema is created if absent, the mirror's rows are read
    /// back, revalidated and pruned to the capacity.
    pub fn new(conn: Connection) -> (r: Result<ClipboardStorage, StoreError>)
        ensures
            r matches Ok(s) ==> s.wf() && s.capacity() == DEFAULT_MAX_EVENTS && s.cur_event()
                is None && s.cur_item() is None && s.retained().len() <= s.capacity(),
    {
        Self::with_max_items(conn, DEFAULT_MAX_EVENTS)
    }

    /// Opens a store over the given connection, retaining at most
    /// `max_events` events: the schema is created if absent, the mirror's
    /// rows are read back, revalidated and pruned to the capacity.
    pub fn with_max_items(conn: Connection, max_events: usize) -> (r: Result<
        ClipboardStorage,
        StoreError,
    >)
        ensures
            r matches Ok(s) ==> s.wf() && s.capacity() == max_events && s.cur_event() is None
                && s.cur_item() is None && s.retained().len() <= s.capacity(),
    {
        match sqlite::init_schema(&conn) {
            Ok(()) => {
            },
            Err(err) => {
                return Err(err);
            },
        }
        let event_rows = match sqlite::query_event_rows(&conn) {
            Ok(v) => v,
            Err(err) => {
                return Err(err);
            },
        };
        let item_rows = match sqlite::query_item_rows(&conn) {
            Ok(v) => v,
            Err(err) => {
                return Err(err);
            },
        };
        let type_rows = match sqlite::query_type_rows(&conn) {
            Ok(v) => v,
            Err(err) => {
                return Err(err);
            },
        };
        let assembled = assemble_events(&event_rows, &item_rows, &type_rows);
        let events = sanitize_events(assembled);
        let top = if events.len() > 0 {
            match events[events.len() - 1].id {
                Some(x) => x,
                None => -1,
            }
        } else {
            -1
        };
        if top == i64::MAX {
            return Err(StoreError::StorageFault(String::from_str("event id space exhausted")));
        }
        let next_event_id = if top < 0 {
            0
        } else {
            top + 1
        };
        let next_item_id = match next_free_id(&item_rows) {
            Some(x) => x,
            None => {
                return Err(StoreError::StorageFault(String::from_str("item id space exhausted")));
            },
        };
        let next_type_id = match next_free_type_id(&type_rows) {
            Some(x) => x,
            None => {
                return Err(
                    StoreError::StorageFault(String::from_str("payload id space exhausted")),
                );
            },
        };
        let mut store = ClipboardStorage {
            conn,
            events,
            max_events,
            next_event_id,
            next_item_id,
            next_type_id,
            current_event: None,
            current_item: None,
        };
        proof {
            assert(store.wf());
        }
        match store.prune_to_capacity() {
            Ok(()) => {
            },
            Err(err) => {
                return Err(err);
            },
        }
        Ok(store)
    }

    /// Opens a fresh event stamped with the current wall-clock time,
    /// discarding any unfinished event and item.
    pub fn start_event(&mut self)
        requires
            old(self).wf(),
        ensures
            final(self).wf(),
            final(self).retained() == old(self).retained(),
            final(self).capacity() == old(self).capacity(),
            final(self).cur_event() matches Some(ev) && ev.items@.len() == 0 && ev.timestamp
                >= 0,
            final(self).cur_item() is None,
    {
        let ts = sqlite::now_unix_seconds();
        self.start_event_at(ts);
    }

    /// Opens a fresh event stamped with the given time, discarding any
    /// unfinished event and item.
    pub fn start_event_at(&mut self, timestamp: i64)
        requires
            old(self).wf(),
        ensures
            final(self).wf(),
            final(self).retained() == old(self).retained(),
            final(self).capacity() == old(self).capacity(),
            final(self).cur_event() matches Some(ev) && ev.items@.len() == 0 && ev.timestamp
                == timestamp,
            final(self).cur_item() is None,
    {
        self.current_event = Some(ClipboardEvent::new(timestamp));
        self.current_item = None;
    }

    /// Seals the open item into the open event. At a new item's start an
    /// empty open item is discarded; at finalization it is kept, so an
    /// all-empty event still commits an item row.
    fn store_item(&mut self, keep_empty: bool)
        requires
            old(self).wf(),
        ensures
            final(self).wf(),
            final(self).retained() == old(self).retained(),
            final(self).capacity() == old(self).capacity(),
            final(self).next_id() == old(self).next_id(),
            final(self).cur_item() is None,
            old(self).cur_event() is None ==> final(self).cur_event() is None,
            old(self).cur_event() matches Some(ev) ==> (final(self).cur_event() matches Some(
                ev2,
            ) && ev2.timestamp == ev.timestamp && ev2.id == ev.id && {
                match old(self).cur_item() {
                    Some(it) => {
                        if keep_empty || it.types@.len() > 0 {
                            ev2.items@ == ev.items@.push(it)
                        } else {
                            ev2.items@ == ev.items@
                        }
                    },
                    None => ev2.items@ == ev.items@,
                }
            }),
    {
        let item = self.current_item.take();
        match item {
            Some(it) => {
                if keep_empty || it.types.len() > 0 {
                    let ev = self.current_event.take();
                    match ev {
                        Some(mut ev) => {
                            ev.add_item(it);
                            self.current_event = Some(ev);
                        },
                        None => {
                        },
                    }
                }
            },
            None => {
            },
        }
    }

    /// Seals the previous item (dropping it when empty) and opens a new
    /// empty one; with no event open, opens one first, stamped with the
    /// current wall-clock time.
    pub fn start_item(&mut self)
        requires
            old(self).wf(),
        ensures
            final(self).wf(),
            final(self).retained() == old(self).retained(),
            final(self).capacity() == old(self).capacity(),
            final(self).cur_item() matches Some(it) && it.types@.len() == 0,
            old(self).cur_event() is None ==> (final(self).cur_event() matches Some(ev)
                && ev.items@.len() == 0 && ev.timestamp >= 0),
            old(self).cur_event() matches Some(ev) ==> (final(self).cur_event() matches Some(
                ev2,
            ) && ev2.timestamp == ev.timestamp && {
                match old(self).cur_item() {
                    Some(it) => {
                        if it.types@.len() > 0 {
                            ev2.items@ == ev.items@.push(it)
                        } else {
                            ev2.items@ == ev.items@
                        }
                    },
                    None => ev2.items@ == ev.items@,
                }
            }),
    {
        if self.current_event.is_none() {
            self.start_event();
        } else {
            self.store_item(false);
        }
        self.current_item = Some(ClipboardItem::new());
    }

    /// Appends a typed payload to the open item; with no item open, opens
    /// one first (and an event, if none is open).
    pub fn add_type(&mut self, uti: String, data: Vec<u8>)
        requires
            old(self).wf(),
        ensures
            final(self).wf(),
            final(self).retained() == old(self).retained(),
            final(self).capacity() == old(self).capacity(),
            final(self).cur_event() is Some,
            final(self).cur_item() matches Some(it2) && ({
                let base = match old(self).cur_item() {
                    Some(it) => it.types@,
                    None => Seq::<ClipboardType>::empty(),
                };
                &&& it2.types@.len() == base.len() + 1
                &&& it2.types@.drop_last() == base
                &&& it2.types@.last().uti@ == uti@
                &&& it2.types@.last().data@ == data@
                &&& it2.types@.last().size == data@.len()
            }),
            old(self).cur_event() matches Some(ev) ==> (final(self).cur_event() matches Some(
                ev2,
            ) && ev2.timestamp == ev.timestamp && ev2.items@ == ev.items@),
            old(self).cur_event() is None ==> (final(self).cur_event() matches Some(ev2)
                && ev2.items@.len() == 0 && ev2.timestamp >= 0),
    {
        let ghost base = match old(self).cur_item() {
            Some(it) => it.types@,
            None => Seq::<ClipboardType>::empty(),
        };
        if self.current_item.is_none() {
            self.start_item();
        }
        let item = self.current_item.take();
        match item {
            Some(mut it) => {
                proof {
                    assert(it.types@ =~= base);
                }
                it.add_type(ClipboardType::new(uti, data));
                proof {
                    assert(it.types@.drop_last() =~= base);
                }
                self.current_item = Some(it);
            },
            None => {
                proof {
                    assert(false);
                }
            },
        }
    }
}

impl ClipboardStorage {
    /// True when a retained event's content hash reads the same as the given
    /// rendering.
    fn find_duplicate(&self, hash: &String) -> (r: bool)
        requires
            self.wf(),
        ensures
            r == self.has_hash(hash@),
    {
        let mut i: usize = 0;
        while i < self.events.len()
            invariant
                self.wf(),
                i <= self.events@.len(),
                forall|k: int|
                    0 <= k < i ==> event_hash(#[trigger] self.events@[k].items@) != hash@,
            decreases self.events@.len() - i,
        {
            let same = match &self.events[i].content_hash {
                Some(h) => *h == *hash,
                None => false,
            };
            if same {
                proof {
                    assert(event_hash(self.events@[i as int].items@) == hash@);
                }
                return true;
            }
            i = i + 1;
        }
        false
    }

    /// Seals the open event and commits it: an already-retained content hash
    /// is reported as a duplicate and nothing is written; otherwise the
    /// event's rows are committed to the durable layer as one transaction,
    /// the event joins the retained history under a fresh id, and the oldest
    /// events are pruned down to the capacity. With no event open, the call
    /// is a no-op. The builder is reset whatever the outcome; a durable
    /// fault after the commit (during pruning) is surfaced without undoing
    /// the commit.
    pub fn finalize_event(&mut self) -> (r: Result<FinalizeOutcome, StoreError>)
        requires
            old(self).wf(),
        ensures
            final(self).wf(),
            final(self).cur_event() is None,
            final(self).cur_item() is None,
            final(self).capacity() == old(self).capacity(),
            old(self).cur_event() is None ==> (r matches Ok(o) && o is NoEvent && final(self).retained() == old(self).retained()),
            (old(self).cur_event() is Some && old(self).has_hash(
                event_hash(old(self).sealed_items()),
            )) ==> (r matches Ok(o) && o is Duplicate && final(self).retained() == old(self).retained()),
            (old(self).cur_event() is Some && !old(self).has_hash(
                event_hash(old(self).sealed_items()),
            )) ==> (r matches Ok(o) ==> (o matches FinalizeOutcome::Stored(id) && id == old(self).next_id() && (exists|e2: ClipboardEvent|
                {
                    &&& e2.id == Some(id)
                    &&& e2.timestamp == old(self).pending_timestamp()
                    &&& items_entries(e2.items@) == items_entries(old(self).sealed_items())
                    &&& event_hash(e2.items@) == event_hash(old(self).sealed_items())
                    &&& stored_wf(e2)
                    &&& ({
                        let grown = old(self).retained().push(e2);
                        &&& (grown.len() <= old(self).capacity() ==> final(self).retained()
                            == grown)
                        &&& final(self).retained().len() == if grown.len() <= old(self).capacity() {
                            grown.len() as int
                        } else {
                            old(self).capacity() as int
                        }
                        &&& (forall|k: int|
                            0 <= k < final(self).retained().len() ==> grown.contains(
                                #[trigger] final(self).retained()[k],
                            ))
                        &&& (forall|i: int|
                            0 <= i < grown.len() && !final(self).retained().contains(grown[i])
                                ==> (forall|k: int|
                                0 <= k < final(self).retained().len() ==> key_lt(
                                    grown[i],
                                    #[trigger] final(self).retained()[k],
                                )))
                    })
                }))),
            r is Err ==> (final(self).retained() == old(self).retained() || (exists|
                e2: ClipboardEvent,
            |
                {
                    &&& e2.id == Some(old(self).next_id())
                    &&& e2.timestamp == old(self).pending_timestamp()
                    &&& items_entries(e2.items@) == items_entries(old(self).sealed_items())
                    &&& event_hash(e2.items@) == event_hash(old(self).sealed_items())
                    &&& stored_wf(e2)
                    &&& ({
                        let grown = old(self).retained().push(e2);
                        &&& (grown.len() <= old(self).capacity() ==> final(self).retained()
                            == grown)
                        &&& (final(self).retained().len() == grown.len() || final(self).retained().len() >= old(self).capacity())
                        &&& (forall|k: int|
                            0 <= k < final(self).retained().len() ==> grown.contains(
                                #[trigger] final(self).retained()[k],
                            ))
                        &&& (forall|i: int|
                            0 <= i < grown.len() && !final(self).retained().contains(grown[i])
                                ==> (forall|k: int|
                                0 <= k < final(self).retained().len() ==> key_lt(
                                    grown[i],
                                    #[trigger] final(self).retained()[k],
                                )))
                    })
                })),
    {
        self.store_item(true);
        let cur = self.current_event.take();
        let mut ev = match cur {
            None => {
                return Ok(FinalizeOutcome::NoEvent);
            },
            Some(ev) => ev,
        };
        proof {
            assert(ev.items@ =~= old(self).sealed_items());
        }
        let hash = ev.calculate_hash();
        let ghost hview = hash@;
        if self.find_duplicate(&hash) {
            return Ok(FinalizeOutcome::Duplicate);
        }
        if self.next_event_id == i64::MAX {
            return Err(StoreError::StorageFault(String::from_str("event id space exhausted")));
        }
        let id = self.next_event_id;
        let ts = ev.timestamp;
        let mut ni = self.next_item_id;
        let mut nt = self.next_type_id;
        let ghost sealed = ev.items@;
        let stamped_items = match stamp_items(ev.items, id, &mut ni, &mut nt) {
            Ok(v) => v,
            Err(err) => {
                return Err(err);
            },
        };
        self.next_item_id = ni;
        self.next_type_id = nt;
        let e2 = ClipboardEvent {
            id: Some(id),
            timestamp: ts,
            content_hash: Some(hash),
            items: stamped_items,
        };
        proof {
            assert(items_entries(e2.items@) =~= items_entries(sealed)) by {
                assert forall|k: int| 0 <= k < e2.items@.len() implies items_entries(e2.items@)[k]
                    == items_entries(sealed)[k] by {
                    assert(item_entries(e2.items@[k]) == item_entries(sealed[k]));
                }
            }
            lemma_entries_determine_hash(e2.items@, sealed);
            assert(stored_wf(e2));
        }
        match mirror_event(&self.conn, &e2) {
            Ok(()) => {
            },
            Err(err) => {
                return Err(err);
            },
        }
        self.events.push(e2);
        self.next_event_id = id + 1;
        let ghost grown = self.events@;
        proof {
            assert(grown =~= old(self).retained().push(e2));
            assert forall|i: int, j: int|
                0 <= i < j < self.events@.len() implies event_hash(self.events@[i].items@)
                != event_hash(self.events@[j].items@) by {
                if j == self.events@.len() - 1 {
                    assert(event_hash(self.events@[i].items@) != hview);
                }
            }
            assert(self.wf());
        }
        let ghost mid = *self;
        match self.prune_to_capacity() {
            Ok(()) => {
            },
            Err(err) => {
                proof {
                    assert forall|k: int|
                        0 <= k < self.events@.len() implies grown.contains(
                        #[trigger] self.events@[k],
                    ) by {
                        assert(mid.retained().contains(self.events@[k]));
                    }
                }
                return Err(err);
            },
        }
        proof {
            assert forall|k: int|
                0 <= k < self.events@.len() implies grown.contains(#[trigger] self.events@[k]) by {
                assert(mid.retained().contains(self.events@[k]));
            }
        }
        Ok(FinalizeOutcome::Stored(id))
    }

    /// How many events are retained.
    pub fn count(&self) -> (r: usize)
        ensures
            r == self.retained().len(),
    {
        self.events.len()
    }

    /// Reconstructs the retained event with the given id, items and payloads
    /// byte for byte; answers `NotFound` when no retained event carries it.
    pub fn restore_event_by_id(&self, id: i64) -> (r: Result<ClipboardEvent, StoreError>)
        requires
            self.wf(),
        ensures
            r matches Ok(e) ==> (exists|i: int|
                0 <= i < self.retained().len() && (#[trigger] self.retained()[i]).id == Some(id)
                    && event_equiv(e, self.retained()[i])),
            r matches Err(err) ==> (err is NotFound && (forall|i: int|
                0 <= i < self.retained().len() ==> (#[trigger] self.retained()[i]).id != Some(
                    id,
                ))),
    {
        let mut i: usize = 0;
        while i < self.events.len()
            invariant
                i <= self.events@.len(),
                forall|k: int| 0 <= k < i ==> (#[trigger] self.events@[k]).id != Some(id),
            decreases self.events@.len() - i,
        {
            let found = match self.events[i].id {
                Some(x) => x == id,
                None => false,
            };
            if found {
                return Ok(clone_event(&self.events[i]));
            }
            i = i + 1;
        }
        Err(StoreError::NotFound)
    }

    /// The `n` most recent retained events, newest first: recency by
    /// timestamp, ties by insertion order. Every retained event left out is
    /// older than every event returned.
    pub fn most_recent(&self, n: usize) -> (r: Vec<ClipboardEvent>)
        requires
            self.wf(),
        ensures
            r@.len() == if n <= self.retained().len() {
                n as int
            } else {
                self.retained().len() as int
            },
            forall|k: int|
                0 <= k < r@.len() ==> equiv_to_some(#[trigger] r@[k], self.retained()),
            forall|k: int, m: int| 0 <= k < m < r@.len() ==> key_lt(r@[m], r@[k]),
            forall|i: int|
                0 <= i < self.retained().len() && (forall|k: int|
                    0 <= k < r@.len() ==> (#[trigger] r@[k]).id != (
                    #[trigger] self.retained()[i]).id) ==> (forall|k: int|
                    0 <= k < r@.len() ==> key_lt(self.retained()[i], #[trigger] r@[k])),
    {
        let mut taken: Vec<usize> = Vec::new();
        let mut out: Vec<ClipboardEvent> = Vec::new();
        while out.len() < n && taken.len() < self.events.len()
            invariant
                self.wf(),
                out@.len() == taken@.len(),
                out@.len() <= n,
                taken@.len() <= self.events@.len(),
                forall|k: int|
                    0 <= k < taken@.len() ==> 0 <= #[trigger] taken@[k] < self.events@.len(),
                forall|k: int, m: int| 0 <= k < m < taken@.len() ==> taken@[k] != taken@[m],
                forall|k: int|
                    0 <= k < out@.len() ==> event_equiv(
                        #[trigger] out@[k],
                        self.events@[taken@[k] as int],
                    ),
                forall|k: int, m: int|
                    0 <= k < m < out@.len() ==> key_lt(
                        self.events@[taken@[m] as int],
                        self.events@[taken@[k] as int],
                    ),
                forall|i: int, k: int|
                    #![trigger self.events@[i], taken@[k]]
                    0 <= i < self.events@.len() && 0 <= k < taken@.len() && (forall|k2: int|
                        0 <= k2 < taken@.len() ==> #[trigger] taken@[k2] != i) ==> key_lt(
                        self.events@[i],
                        self.events@[taken@[k] as int],
                    ),
            decreases n - out@.len(),
        {
            // pick the newest event not yet taken
            let mut best: usize = self.events.len();
            let mut j: usize = 0;
            while j < self.events.len()
                invariant
                    self.wf(),
                    j <= self.events@.len(),
                    best <= self.events@.len(),
                    forall|k: int|
                        0 <= k < taken@.len() ==> 0 <= #[trigger] taken@[k] < self.events@.len(),
                    best < self.events@.len() ==> (forall|k2: int|
                        0 <= k2 < taken@.len() ==> #[trigger] taken@[k2] != best),
                    best < self.events@.len() ==> (forall|j2: int|
                        0 <= j2 < j && j2 != best && (forall|k2: int|
                            0 <= k2 < taken@.len() ==> #[trigger] taken@[k2] != j2) ==> key_lt(
                            #[trigger] self.events@[j2],
                            self.events@[best as int],
                        )),
                    best == self.events@.len() ==> (forall|j2: int|
                        0 <= j2 < j ==> #[trigger] index_covered(taken@, j2)),
                decreases self.events@.len() - j,
            {
                let ghost best0 = best as int;
                if !contains_index(&taken, j) {
                    if best == self.events.len() {
                        best = j;
                    } else if older_event(&self.events[best], &self.events[j]) {
                        best = j;
                    }
                    proof {
                        let b = best as int;
                        assert forall|j2: int|
                            0 <= j2 < j + 1 && j2 != b && (forall|k2: int|
                                0 <= k2 < taken@.len() ==> #[trigger] taken@[k2] != j2) implies
                            key_lt(#[trigger] self.events@[j2], self.events@[b]) by {
                            if best0 == self.events@.len() {
                                // every earlier index was already taken
                                if j2 < j {
                                    assert(index_covered(taken@, j2));
                                    let k2 = choose|k2: int|
                                        0 <= k2 < taken@.len() && (#[trigger] taken@[k2]) as int
                                            == j2;
                                    assert(false);
                                }
                            } else if j2 == best0 {
                                assert(key_lt(self.events@[best0], self.events@[b]));
                            } else if j2 < j {
                                assert(key_lt(self.events@[j2], self.events@[best0]));
                                if b != best0 {
                                    assert(key_lt(self.events@[best0], self.events@[b]));
                                }
                            } else {
                                // j2 == j and best stayed: best is not older than j
                                assert(j2 == j && b == best0);
                                assert(!key_lt(self.events@[b], self.events@[j2]));
                                if best0 < j {
                                    assert(eid(self.events@[best0]) != eid(self.events@[j as int]));
                                } else {
                                    assert(eid(self.events@[j as int]) != eid(self.events@[best0]));
                                }
                            }
                        }
                    }
                }
                j = j + 1;
            }
            if best == self.events.len() {
                // cannot happen: fewer indices are taken than events exist
                proof {
                    lemma_distinct_indices_cover(taken@, self.events@.len() as int);
                    assert(false);
                }
            }
            let ghost t0 = taken@;
            let ghost untaken_best = forall|k2: int|
                0 <= k2 < t0.len() ==> #[trigger] t0[k2] != best as int;
            out.push(clone_event(&self.events[best]));
            taken.push(best);
            proof {
                assert(taken@ == t0.push(best as usize));
                assert(forall|k2: int| 0 <= k2 < t0.len() ==> #[trigger] taken@[k2] == t0[k2]);
                assert(taken@[t0.len() as int] == best as usize);
                assert forall|i: int, k: int|
                    #![trigger self.events@[i], taken@[k]]
                    0 <= i < self.events@.len() && 0 <= k < taken@.len() && (forall|k2: int|
                        0 <= k2 < taken@.len() ==> #[trigger] taken@[k2] != i) implies key_lt(
                    self.events@[i],
                    self.events@[taken@[k] as int],
                ) by {
                    assert forall|k2: int| 0 <= k2 < t0.len() implies #[trigger] t0[k2] != i by {
                        assert(taken@[k2] == t0[k2]);
                        assert(taken@[k2] != i);
                    }
                    if k < t0.len() {
                        assert(key_lt(self.events@[i], self.events@[t0[k] as int]));
                    } else {
                        assert(taken@[k] == best as usize);
                        assert(i != best as int);
                        assert(key_lt(self.events@[i], self.events@[best as int]));
                    }
                }
                assert forall|k: int, m: int| 0 <= k < m < out@.len() implies key_lt(
                    self.events@[taken@[m] as int],
                    self.events@[taken@[k] as int],
                ) by {
                    if m < t0.len() {
                        assert(key_lt(self.events@[t0[m] as int], self.events@[t0[k] as int]));
                    } else {
                        assert(taken@[m] == best as usize);
                        assert(untaken_best);
                        assert(key_lt(self.events@[best as int], self.events@[t0[k] as int]));
                    }
                }
            }
        }
        proof {
            assert forall|k: int| 0 <= k < out@.len() implies equiv_to_some(
                #[trigger] out@[k],
                self.retained(),
            ) by {
                let w = taken@[k] as int;
                assert(0 <= w < self.retained().len());
                assert(event_equiv(out@[k], self.retained()[w]));
            }
            assert forall|i: int|
                0 <= i < self.retained().len() && (forall|k: int|
                    0 <= k < out@.len() ==> (#[trigger] out@[k]).id != (
                    #[trigger] self.retained()[i]).id) implies (forall|k: int|
                0 <= k < out@.len() ==> key_lt(self.retained()[i], #[trigger] out@[k])) by {
                assert forall|k: int| 0 <= k < out@.len() implies key_lt(
                    self.retained()[i],
                    #[trigger] out@[k],
                ) by {
                    assert(forall|k2: int|
                        0 <= k2 < taken@.len() ==> #[trigger] taken@[k2] != i) by {
                        if exists|k2: int| 0 <= k2 < taken@.len() && #[trigger] taken@[k2] == i {
                            let k2 = choose|k2: int|
                                0 <= k2 < taken@.len() && #[trigger] taken@[k2] == i;
                            assert(out@[k2].id == self.events@[i].id);
                        }
                    }
                    assert(key_lt(self.events@[i], self.events@[taken@[k] as int]));
                    assert(out@[k].id == self.events@[taken@[k] as int].id);
                    assert(out@[k].timestamp == self.events@[taken@[k] as int].timestamp);
                }
            }
            assert forall|k: int, m: int| 0 <= k < m < out@.len() implies key_lt(
                out@[m],
                out@[k],
            ) by {
                assert(key_lt(
                    self.events@[taken@[m] as int],
                    self.events@[taken@[k] as int],
                ));
            }
        }
        out
    }

    /// Deletes the oldest retained events, one at a time, until at most the
    /// capacity remains; each deletion is mirrored to the durable layer
    /// before it takes effect in memory.
    fn prune_to_capacity(&mut self) -> (r: Result<(), StoreError>)
        requires
            old(self).wf(),
        ensures
            final(self).wf(),
            final(self).capacity() == old(self).capacity(),
            final(self).cur_event() == old(self).cur_event(),
            final(self).cur_item() == old(self).cur_item(),
            final(self).next_id() == old(self).next_id(),
            forall|k: int|
                0 <= k < final(self).retained().len() ==> old(self).retained().contains(
                    #[trigger] final(self).retained()[k],
                ),
            forall|i: int|
                0 <= i < old(self).retained().len() && !final(self).retained().contains(
                    old(self).retained()[i],
                ) ==> (forall|k: int|
                    0 <= k < final(self).retained().len() ==> key_lt(
                        old(self).retained()[i],
                        #[trigger] final(self).retained()[k],
                    )),
            old(self).retained().len() <= old(self).capacity() ==> final(self).retained() == old(self).retained(),
            final(self).retained().len() == old(self).retained().len() || final(self).retained().len() >= old(self).capacity(),
            r is Ok ==> final(self).retained().len() == if old(self).retained().len() <= old(self).capacity() {
                old(self).retained().len() as int
            } else {
                old(self).capacity() as int
            },
    {
        proof {
            assert forall|k: int|
                0 <= k < self.events@.len() implies old(self).retained().contains(
                #[trigger] self.events@[k],
            ) by {
                assert(old(self).retained()[k] == self.events@[k]);
            }
        }
        while self.events.len() > self.max_events
            invariant
                self.wf(),
                self.max_events == old(self).capacity(),
                self.conn == old(self).conn,
                self.current_event == old(self).cur_event(),
                self.current_item == old(self).cur_item(),
                self.next_event_id == old(self).next_id(),
                self.next_item_id == old(self).next_item_id,
                self.next_type_id == old(self).next_type_id,
                self.events@.len() <= old(self).retained().len(),
                self.events@.len() == old(self).retained().len() || self.events@.len()
                    >= self.max_events,
                old(self).retained().len() <= self.max_events ==> self.events@ == old(self).retained(),
                forall|k: int|
                    0 <= k < self.events@.len() ==> old(self).retained().contains(
                        #[trigger] self.events@[k],
                    ),
                forall|i: int|
                    0 <= i < old(self).retained().len() && !self.events@.contains(
                        old(self).retained()[i],
                    ) ==> (forall|k: int|
                        0 <= k < self.events@.len() ==> key_lt(
                            old(self).retained()[i],
                            #[trigger] self.events@[k],
                        )),
            decreases self.events@.len(),
        {
            let idx = find_oldest_index(&self.events);
            let victim_id = match self.events[idx].id {
                Some(x) => x,
                None => 0,
            };
            match sqlite::delete_event_row(&self.conn, victim_id) {
                Ok(()) => {
                },
                Err(err) => {
                    return Err(err);
                },
            }
            let ghost pre = self.events@;
            let victim = self.events.remove(idx);
            proof {
                pre.remove_ensures(idx as int);
                assert forall|k: int|
                    0 <= k < self.events@.len() implies old(self).retained().contains(
                    #[trigger] self.events@[k],
                ) by {
                    if k < idx {
                        assert(self.events@[k] == pre[k]);
                    } else {
                        assert(self.events@[k] == pre[k + 1]);
                    }
                }
                assert forall|i: int|
                    0 <= i < old(self).retained().len() && !self.events@.contains(
                        old(self).retained()[i],
                    ) implies (forall|k: int|
                    0 <= k < self.events@.len() ==> key_lt(
                        old(self).retained()[i],
                        #[trigger] self.events@[k],
                    )) by {
                    let e = old(self).retained()[i];
                    if pre.contains(e) {
                        // the event removed this round: it was the strict
                        // oldest of the remaining ones
                        let w = choose|w: int| 0 <= w < pre.len() && pre[w] == e;
                        assert(w == idx) by {
                            if w != idx {
                                if w < idx {
                                    assert(self.events@[w] == pre[w]);
                                } else {
                                    assert(self.events@[w - 1] == pre[w]);
                                }
                                assert(self.events@.contains(e));
                            }
                        }
                        assert forall|k: int| 0 <= k < self.events@.len() implies key_lt(
                            e,
                            #[trigger] self.events@[k],
                        ) by {
                            if k < idx {
                                assert(self.events@[k] == pre[k]);
                                assert(key_lt(pre[idx as int], pre[k]));
                            } else {
                                assert(self.events@[k] == pre[k + 1]);
                                assert(key_lt(pre[idx as int], pre[k + 1]));
                            }
                        }
                    } else {
                        // pruned in an earlier round: it was older than
                        // everything that was still retained then
                        assert forall|k: int| 0 <= k < self.events@.len() implies key_lt(
                            e,
                            #[trigger] self.events@[k],
                        ) by {
                            if k < idx {
                                assert(self.events@[k] == pre[k]);
                                assert(pre.contains(pre[k]));
                            } else {
                                assert(self.events@[k] == pre[k + 1]);
                                assert(pre.contains(pre[k + 1]));
                            }
                        }
                    }
                }
                assert forall|i: int, j: int|
                    0 <= i < j < self.events@.len() implies eid(self.events@[i]) < eid(
                    self.events@[j],
                ) by {
                    if j < idx {
                    } else if i < idx {
                        assert(self.events@[i] == pre[i] && self.events@[j] == pre[j + 1]);
                    } else {
                        assert(self.events@[i] == pre[i + 1] && self.events@[j] == pre[j + 1]);
                    }
                }
                assert forall|i: int, j: int|
                    0 <= i < j < self.events@.len() implies event_hash(self.events@[i].items@)
                    != event_hash(self.events@[j].items@) by {
                    if j < idx {
                    } else if i < idx {
                        assert(self.events@[i] == pre[i] && self.events@[j] == pre[j + 1]);
                    } else {
                        assert(self.events@[i] == pre[i + 1] && self.events@[j] == pre[j + 1]);
                    }
                }
                assert forall|i: int|
                    0 <= i < self.events@.len() implies stored_wf(#[trigger] self.events@[i])
                    && eid(self.events@[i]) < self.next_event_id by {
                    if i < idx {
                        assert(self.events@[i] == pre[i]);
                    } else {
                        assert(self.events@[i] == pre[i + 1]);
                    }
                }
            }
        }
        Ok(())
    }
}

/// The smallest non-negative id above every id in the rows, or nothing when
/// the id space is exhausted.
fn next_free_id(rows: &Vec<(i64, i64)>) -> (r: Option<i64>)
    ensures
        r matches Some(x) ==> x >= 0,
{
    let mut m: i64 = -1;
    let mut i: usize = 0;
    while i < rows.len()
        invariant
            m >= -1,
        decreases rows@.len() - i,
    {
        if rows[i].0 > m {
            m = rows[i].0;
        }
        i = i + 1;
    }
    if m == i64::MAX {
        None
    } else if m < 0 {
        Some(0)
    } else {
        Some(m + 1)
    }
}

/// The smallest non-negative id above every id in the payload rows, or
/// nothing when the id space is exhausted.
fn next_free_type_id(rows: &Vec<(i64, i64, String, Vec<u8>)>) -> (r: Option<i64>)
    ensures
        r matches Some(x) ==> x >= 0,
{
    let mut m: i64 = -1;
    let mut i: usize = 0;
    while i < rows.len()
        invariant
            m >= -1,
        decreases rows@.len() - i,
    {
        if rows[i].0 > m {
            m = rows[i].0;
        }
        i = i + 1;
    }
    if m == i64::MAX {
        None
    } else if m < 0 {
        Some(0)
    } else {
        Some(m + 1)
    }
}

/// The item rows owned by one event row, in row order.
pub open spec fn items_for(item_rows: Seq<(i64, i64)>, event_id: i64) -> Seq<(i64, i64)>
    decreases item_rows.len(),
{
    if item_rows.len() == 0 {
        Seq::<(i64, i64)>::empty()
    } else {
        let prefix = items_for(item_rows.drop_last(), event_id);
        if item_rows.last().1 == event_id {
            prefix.push(item_rows.last())
        } else {
            prefix
        }
    }
}

/// The payload rows owned by one item row, in row order.
pub open spec fn types_for(type_rows: Seq<(i64, i64, String, Vec<u8>)>, item_id: i64) -> Seq<
    (i64, i64, String, Vec<u8>),
>
    decreases type_rows.len(),
{
    if type_rows.len() == 0 {
        Seq::<(i64, i64, String, Vec<u8>)>::empty()
    } else {
        let prefix = types_for(type_rows.drop_last(), item_id);
        if type_rows.last().1 == item_id {
            prefix.push(type_rows.last())
        } else {
            prefix
        }
    }
}

/// What one rebuilt payload owes its row: the row's identities, tag and
/// bytes byte for byte, and the size recomputed from the bytes.
pub open spec fn type_matches_row(ct: ClipboardType, row: (i64, i64, String, Vec<u8>)) -> bool {
    &&& ct.id == Some(row.0)
    &&& ct.item_id == Some(row.1)
    &&& ct.uti@ == row.2@
    &&& ct.data@ == row.3@
    &&& ct.size == row.3@.len()
}

/// What one rebuilt item owes its row: the row's identities, and exactly the
/// payload rows naming the item, in row order.
pub open spec fn item_matches_rows(
    it: ClipboardItem,
    irow: (i64, i64),
    type_rows: Seq<(i64, i64, String, Vec<u8>)>,
) -> bool {
    let ts = types_for(type_rows, irow.0);
    &&& it.id == Some(irow.0)
    &&& it.event_id == Some(irow.1)
    &&& it.types@.len() == ts.len()
    &&& forall|t: int| 0 <= t < ts.len() ==> type_matches_row(#[trigger] it.types@[t], ts[t])
}

/// What one rebuilt event owes its row: the row's id and timestamp, and
/// exactly the item rows naming the event, in row order.
pub open spec fn event_matches_rows(
    ev: ClipboardEvent,
    erow: (i64, i64),
    item_rows: Seq<(i64, i64)>,
    type_rows: Seq<(i64, i64, String, Vec<u8>)>,
) -> bool {
    let irows = items_for(item_rows, erow.0);
    &&& ev.id == Some(erow.0)
    &&& ev.timestamp == erow.1
    &&& ev.items@.len() == irows.len()
    &&& forall|m: int|
        0 <= m < irows.len() ==> item_matches_rows(#[trigger] ev.items@[m], irows[m], type_rows)
}

/// Rebuilds nested events from the mirror's flat rows: one event per event
/// row, whose items are exactly the item rows naming it, in row order, each
/// holding exactly the payload rows naming the item, tag and bytes byte for
/// byte; every rebuilt event is sealed with a freshly computed content hash.
/// The rows come from an unverified source, so nothing is assumed of them.
fn assemble_events(
    event_rows: &Vec<(i64, i64)>,
    item_rows: &Vec<(i64, i64)>,
    type_rows: &Vec<(i64, i64, String, Vec<u8>)>,
) -> (r: Vec<ClipboardEvent>)
    ensures
        r@.len() == event_rows@.len(),
        forall|k: int|
            0 <= k < r@.len() ==> {
                &&& (#[trigger] r@[k]).wf()
                &&& event_matches_rows(r@[k], event_rows@[k], item_rows@, type_rows@)
                &&& r@[k].content_hash matches Some(h) && h@ == event_hash(r@[k].items@)
            },
{
    let mut out: Vec<ClipboardEvent> = Vec::new();
    let mut e: usize = 0;
    while e < event_rows.len()
        invariant
            e <= event_rows@.len(),
            out@.len() == e,
            forall|k: int|
                0 <= k < out@.len() ==> {
                    &&& (#[trigger] out@[k]).wf()
                    &&& event_matches_rows(out@[k], event_rows@[k], item_rows@, type_rows@)
                    &&& out@[k].content_hash matches Some(h) && h@ == event_hash(out@[k].items@)
                },
        decreases event_rows@.len() - e,
    {
        let event_id = event_rows[e].0;
        let timestamp = event_rows[e].1;
        let mut items: Vec<ClipboardItem> = Vec::new();
        let mut i: usize = 0;
        proof {
            assert(items_for(item_rows@.take(0), event_id) =~= Seq::<(i64, i64)>::empty());
        }
        while i < item_rows.len()
            invariant
                i <= item_rows@.len(),
                items@.len() == items_for(item_rows@.take(i as int), event_id).len(),
                forall|m: int|
                    0 <= m < items@.len() ==> item_matches_rows(
                        #[trigger] items@[m],
                        items_for(item_rows@.take(i as int), event_id)[m],
                        type_rows@,
                    ),
                forall|m: int| 0 <= m < items@.len() ==> (#[trigger] items@[m]).wf(),
            decreases item_rows@.len() - i,
        {
            let ghost ifor0 = items_for(item_rows@.take(i as int), event_id);
            if item_rows[i].1 == event_id {
                let item_id = item_rows[i].0;
                let mut types: Vec<ClipboardType> = Vec::new();
                let mut t: usize = 0;
                proof {
                    assert(types_for(type_rows@.take(0), item_id) =~= Seq::<
                        (i64, i64, String, Vec<u8>),
                    >::empty());
                }
                while t < type_rows.len()
                    invariant
                        t <= type_rows@.len(),
                        types@.len() == types_for(type_rows@.take(t as int), item_id).len(),
                        forall|x: int|
                            0 <= x < types@.len() ==> type_matches_row(
                                #[trigger] types@[x],
                                types_for(type_rows@.take(t as int), item_id)[x],
                            ),
                        forall|x: int| 0 <= x < types@.len() ==> (#[trigger] types@[x]).wf(),
                    decreases type_rows@.len() - t,
                {
                    let ghost tfor0 = types_for(type_rows@.take(t as int), item_id);
                    if type_rows[t].1 == item_id {
                        let data = copy_bytes(&type_rows[t].3);
                        let size = data.len();
                        types.push(
                            ClipboardType {
                                id: Some(type_rows[t].0),
                                item_id: Some(item_id),
                                uti: type_rows[t].2.clone(),
                                data,
                                size,
                            },
                        );
                        proof {
                            assert(type_matches_row(types@.last(), type_rows@[t as int]));
                        }
                    }
                    proof {
                        assert(type_rows@.take(t + 1 as int).drop_last() =~= type_rows@.take(
                            t as int,
                        ));
                        assert(type_rows@.take(t + 1 as int).last() == type_rows@[t as int]);
                        let tfor1 = types_for(type_rows@.take(t + 1 as int), item_id);
                        if type_rows@[t as int].1 == item_id {
                            assert(tfor1 == tfor0.push(type_rows@[t as int]));
                        } else {
                            assert(tfor1 == tfor0);
                        }
                    }
                    t = t + 1;
                }
                proof {
                    assert(type_rows@.take(type_rows@.len() as int) =~= type_rows@);
                }
                items.push(ClipboardItem { id: Some(item_id), event_id: Some(event_id), types });
                proof {
                    assert(item_matches_rows(items@.last(), item_rows@[i as int], type_rows@));
                }
            }
            proof {
                assert(item_rows@.take(i + 1 as int).drop_last() =~= item_rows@.take(i as int));
                assert(item_rows@.take(i + 1 as int).last() == item_rows@[i as int]);
                let ifor1 = items_for(item_rows@.take(i + 1 as int), event_id);
                if item_rows@[i as int].1 == event_id {
                    assert(ifor1 == ifor0.push(item_rows@[i as int]));
                } else {
                    assert(ifor1 == ifor0);
                }
            }
            i = i + 1;
        }
        proof {
            assert(item_rows@.take(item_rows@.len() as int) =~= item_rows@);
        }
        let mut ev = ClipboardEvent { id: Some(event_id), timestamp, content_hash: None, items };
        let hash = ev.calculate_hash();
        ev.content_hash = Some(hash);
        proof {
            assert(event_matches_rows(ev, event_rows@[e as int], item_rows@, type_rows@));
        }
        out.push(ev);
        e = e + 1;
    }
    out
}

/// Whether a rebuilt event may join what was already kept: a non-negative id
/// above every kept id, and a content hash no kept event carries.
pub open spec fn keeps(kept: Seq<ClipboardEvent>, e: ClipboardEvent) -> bool {
    &&& e.id is Some
    &&& eid(e) >= 0
    &&& (kept.len() > 0 ==> eid(kept.last()) < eid(e))
    &&& forall|i: int|
        0 <= i < kept.len() ==> event_hash((#[trigger] kept[i]).items@) != event_hash(e.items@)
}

/// The exact revalidation of the rebuilt events: walk them in order and keep
/// each one that the events kept so far admit — the first occurrence of a
/// content hash wins, and ids must increase.
pub open spec fn sanitize_spec(events: Seq<ClipboardEvent>) -> Seq<ClipboardEvent>
    decreases events.len(),
{
    if events.len() == 0 {
        Seq::<ClipboardEvent>::empty()
    } else {
        let prefix = sanitize_spec(events.drop_last());
        if keeps(prefix, events.last()) {
            prefix.push(events.last())
        } else {
            prefix
        }
    }
}

/// Keeps, of the rebuilt events, exactly those `sanitize_spec` keeps: events
/// that can be retained together — non-negative ids that strictly increase,
/// and no repeated content hash; the first occurrence wins.
fn sanitize_events(events: Vec<ClipboardEvent>) -> (r: Vec<ClipboardEvent>)
    requires
        forall|k: int|
            0 <= k < events@.len() ==> {
                &&& (#[trigger] events@[k]).wf()
                &&& events@[k].id is Some
                &&& events@[k].content_hash matches Some(h) && h@ == event_hash(events@[k].items@)
            },
    ensures
        r@ == sanitize_spec(events@),
        forall|k: int| 0 <= k < r@.len() ==> stored_wf(#[trigger] r@[k]),
        forall|i: int, j: int| 0 <= i < j < r@.len() ==> eid(r@[i]) < eid(r@[j]),
        forall|i: int, j: int|
            0 <= i < j < r@.len() ==> event_hash(r@[i].items@) != event_hash(r@[j].items@),
{
    let ghost orig = events@;
    let n = events.len();
    let mut rest = events;
    let mut out: Vec<ClipboardEvent> = Vec::new();
    let mut i: usize = 0;
    proof {
        assert(orig.len() == n);
        assert(orig.take(0) =~= Seq::<ClipboardEvent>::empty());
        assert(rest@ =~= orig.skip(0));
    }
    while rest.len() > 0
        invariant
            orig.len() <= usize::MAX,
            i + rest@.len() == orig.len(),
            rest@ == orig.skip(i as int),
            out@ == sanitize_spec(orig.take(i as int)),
            forall|k2: int|
                0 <= k2 < orig.len() ==> {
                    &&& (#[trigger] orig[k2]).wf()
                    &&& orig[k2].id is Some
                    &&& orig[k2].content_hash matches Some(h) && h@ == event_hash(orig[k2].items@)
                },
            forall|k: int| 0 <= k < out@.len() ==> stored_wf(#[trigger] out@[k]),
            forall|i2: int, j2: int| 0 <= i2 < j2 < out@.len() ==> eid(out@[i2]) < eid(out@[j2]),
            forall|i2: int, j2: int|
                0 <= i2 < j2 < out@.len() ==> event_hash(out@[i2].items@) != event_hash(
                    out@[j2].items@,
                ),
        decreases rest@.len(),
    {
        let ghost rest0 = rest@;
        let e = rest.remove(0);
        proof {
            assert(e == orig[i as int]);
            assert(rest@ =~= orig.skip(i + 1 as int)) by {
                rest0.remove_ensures(0);
                assert forall|j: int| 0 <= j < rest@.len() implies rest@[j] == orig.skip(
                    i + 1 as int,
                )[j] by {
                    assert(rest@[j] == rest0[j + 1]);
                }
            }
        }
        let id_ok = match e.id {
            Some(x) => {
                if out.len() > 0 {
                    match out[out.len() - 1].id {
                        Some(y) => y < x,
                        None => false,
                    }
                } else {
                    x >= 0
                }
            },
            None => false,
        };
        let fresh = match &e.content_hash {
            Some(h) => !vec_has_hash(&out, h),
            None => false,
        };
        proof {
            assert((id_ok && fresh) == keeps(out@, e)) by {
                if out@.len() > 0 {
                    assert(stored_wf(out@[out@.len() - 1]));
                }
            }
        }
        let ghost out0 = out@;
        if id_ok && fresh {
            proof {
                assert(stored_wf(e)) by {
                    if out@.len() > 0 {
                        assert(eid(out@[out@.len() - 1]) >= 0);
                    }
                }
            }
            out.push(e);
        }
        proof {
            assert(orig.take(i + 1 as int).drop_last() =~= orig.take(i as int));
            assert(orig.take(i + 1 as int).last() == orig[i as int]);
            assert(out@ == sanitize_spec(orig.take(i + 1 as int)));
            assert forall|i2: int, j2: int| 0 <= i2 < j2 < out@.len() implies eid(out@[i2]) < eid(
                out@[j2],
            ) by {
                if j2 == out@.len() - 1 && out@.len() > out0.len() && i2 < out0.len() - 1 {
                    assert(eid(out0[i2]) < eid(out0[out0.len() - 1]));
                }
            }
        }
        i = i + 1;
    }
    proof {
        assert(orig.skip(i as int).len() == 0);
        assert(orig.take(i as int) =~= orig);
    }
    out
}

/// Whether some event of the list carries this content hash.
fn vec_has_hash(v: &Vec<ClipboardEvent>, h: &String) -> (r: bool)
    requires
        forall|k: int|
            0 <= k < v@.len() ==> ((#[trigger] v@[k]).content_hash matches Some(hh) && hh@
                == event_hash(v@[k].items@)),
    ensures
        r == (exists|k: int|
            0 <= k < v@.len() && event_hash((#[trigger] v@[k]).items@) == h@),
{
    let mut i: usize = 0;
    while i < v.len()
        invariant
            i <= v@.len(),
            forall|k: int|
                0 <= k < v@.len() ==> ((#[trigger] v@[k]).content_hash matches Some(hh) && hh@
                    == event_hash(v@[k].items@)),
            forall|k: int| 0 <= k < i ==> event_hash((#[trigger] v@[k]).items@) != h@,
        decreases v@.len() - i,
    {
        let same = match &v[i].content_hash {
            Some(hh) => *hh == *h,
            None => false,
        };
        if same {
            proof {
                assert(event_hash(v@[i as int].items@) == h@);
            }
            return true;
        }
        i = i + 1;
    }
    false
}

/// Whether an index already occurs in a list of chosen indices.
fn contains_index(v: &Vec<usize>, x: usize) -> (r: bool)
    ensures
        r == (exists|k: int| 0 <= k < v@.len() && (#[trigger] v@[k]) == x),
{
    let mut i: usize = 0;
    while i < v.len()
        invariant
            i <= v@.len(),
            forall|k: int| 0 <= k < i ==> (#[trigger] v@[k]) != x,
        decreases v@.len() - i,
    {
        if v[i] == x {
            return true;
        }
        i = i + 1;
    }
    false
}

/// Pairwise-distinct retained events, as the store's invariant guarantees
/// of every state a commit leaves behind (retained ids strictly increase).
pub open spec fn distinct_events(s: Seq<ClipboardEvent>) -> bool {
    forall|k1: int, k2: int| 0 <= k1 < k2 < s.len() ==> s[k1] != s[k2]
}

/// One successful commit's effect on the retained history, exactly as
/// `finalize_event`'s `Stored` outcome states it: the history grows by the
/// committed event and is pruned back to the capacity, every pruned event
/// older than every survivor.
pub open spec fn commit_step(
    pre: Seq<ClipboardEvent>,
    post: Seq<ClipboardEvent>,
    e2: ClipboardEvent,
    cap: usize,
) -> bool {
    let grown = pre.push(e2);
    &&& (grown.len() <= cap ==> post == grown)
    &&& post.len() == (if grown.len() <= cap {
        grown.len() as int
    } else {
        cap as int
    })
    &&& (forall|k: int| 0 <= k < post.len() ==> grown.contains(#[trigger] post[k]))
    &&& (forall|i: int|
        0 <= i < grown.len() && !post.contains(grown[i]) ==> (forall|k: int|
            0 <= k < post.len() ==> key_lt(grown[i], #[trigger] post[k])))
}

/// A sequence of pairwise-distinct events, each contained in another
/// sequence, is no longer than it.
proof fn lemma_distinct_subset_len(t: Seq<ClipboardEvent>, s: Seq<ClipboardEvent>)
    requires
        distinct_events(t),
        forall|k: int| 0 <= k < t.len() ==> s.contains(#[trigger] t[k]),
    ensures
        t.len() <= s.len(),
    decreases t.len(),
{
    if t.len() > 0 {
        let last = t.last();
        assert(s.contains(t[t.len() - 1]));
        let p = choose|p: int| 0 <= p < s.len() && s[p] == last;
        let s2 = s.remove(p);
        s.remove_ensures(p);
        assert forall|k: int| 0 <= k < t.drop_last().len() implies s2.contains(
            #[trigger] t.drop_last()[k],
        ) by {
            assert(t.drop_last()[k] == t[k]);
            assert(t[k] != last);
            assert(s.contains(t[k]));
            let q = choose|q: int| 0 <= q < s.len() && s[q] == t[k];
            if q < p {
                assert(s2[q] == s[q]);
                assert(s2.contains(t[k]));
            } else {
                assert(q != p);
                assert(s2[q - 1] == s[q]);
                assert(s2.contains(t[k]));
            }
        }
        assert forall|k1: int, k2: int| 0 <= k1 < k2 < t.drop_last().len() implies t.drop_last()[k1]
            != t.drop_last()[k2] by {
            assert(t.drop_last()[k1] == t[k1] && t.drop_last()[k2] == t[k2]);
        }
        lemma_distinct_subset_len(t.drop_last(), s2);
    }
}

/// The retention policy over a whole run: committing `n` events of strictly
/// increasing recency into an initially empty store of capacity `cap`
/// retains, at the end, exactly the last `min(n, cap)` of them — so after
/// `cap + k` distinct inserts exactly `cap` remain, and they are the most
/// recent. `hist` is the chain of retained histories the commits leave
/// behind: each step is shaped as `finalize_event`'s `Stored` outcome states
/// it, and each state has pairwise-distinct events, as the store's invariant
/// guarantees.
pub proof fn lemma_retention_of_distinct_inserts(
    hist: Seq<Seq<ClipboardEvent>>,
    es: Seq<ClipboardEvent>,
    cap: usize,
)
    requires
        cap >= 1,
        hist.len() == es.len() + 1,
        hist[0] == Seq::<ClipboardEvent>::empty(),
        forall|j: int|
            0 <= j < es.len() ==> commit_step(hist[j], hist[j + 1], #[trigger] es[j], cap),
        forall|j1: int, j2: int| 0 <= j1 < j2 < es.len() ==> key_lt(es[j1], es[j2]),
        forall|j: int| 0 <= j < es.len() ==> distinct_events(#[trigger] hist[j + 1]),
    ensures
        hist.last().len() == (if es.len() <= cap {
            es.len() as int
        } else {
            cap as int
        }),
        forall|m: int|
            es.len() - hist.last().len() <= m < es.len() ==> hist.last().contains(
                #[trigger] es[m],
            ),
        forall|m: int|
            0 <= m < es.len() - hist.last().len() ==> !hist.last().contains(#[trigger] es[m]),
        forall|k: int|
            0 <= k < hist.last().len() ==> (exists|m: int|
                es.len() - hist.last().len() <= m < es.len() && #[trigger] hist.last()[k]
                    == es[m]),
    decreases es.len(),
{
    if es.len() == 0 {
        assert(hist.last() == hist[0]);
    } else {
        let n = es.len() as int;
        let hist2 = hist.drop_last();
        let es2 = es.drop_last();
        assert(hist2[0] == hist[0]);
        assert forall|j: int| 0 <= j < es2.len() implies commit_step(
            hist2[j],
            hist2[j + 1],
            #[trigger] es2[j],
            cap,
        ) by {
            assert(hist2[j] == hist[j] && hist2[j + 1] == hist[j + 1] && es2[j] == es[j]);
            assert(commit_step(hist[j], hist[j + 1], es[j], cap));
        }
        assert forall|j1: int, j2: int| 0 <= j1 < j2 < es2.len() implies key_lt(
            es2[j1],
            es2[j2],
        ) by {
            assert(es2[j1] == es[j1] && es2[j2] == es[j2]);
            assert(key_lt(es[j1], es[j2]));
        }
        assert forall|j: int| 0 <= j < es2.len() implies distinct_events(#[trigger] hist2[j + 1]) by {
            assert(hist2[j + 1] == hist[j + 1]);
            assert(distinct_events(hist[j + 1]));
        }
        lemma_retention_of_distinct_inserts(hist2, es2, cap);
        let pre = hist2.last();
        assert(pre == hist[n - 1]);
        let post = hist.last();
        assert(post == hist[n]);
        let e2 = es[n - 1];
        assert(commit_step(hist[n - 1], hist[n], es[n - 1], cap));
        let grown = pre.push(e2);
        let plen = pre.len();
        // pairwise-distinct keys make distinct events
        assert forall|m1: int, m2: int| 0 <= m1 < m2 < n implies es[m1] != es[m2] by {
            assert(key_lt(es[m1], es[m2]));
        }
        // the committed events the previous history holds, by the recursion
        assert(plen == if n - 1 <= cap {
            n - 1
        } else {
            cap as int
        });
        if grown.len() <= cap {
            // no pruning: the history is exactly the grown one
            assert(plen == n - 1);
            assert(post == grown);
            assert forall|m: int| n - post.len() <= m < n implies post.contains(
                #[trigger] es[m],
            ) by {
                if m < n - 1 {
                    assert(es2[m] == es[m]);
                    assert(hist2.last().contains(es2[m]));
                    assert(pre.contains(es[m]));
                    let w = choose|w: int| 0 <= w < pre.len() && pre[w] == es[m];
                    assert(grown[w] == es[m]);
                } else {
                    assert(grown[plen as int] == e2);
                }
            }
            assert forall|k: int| 0 <= k < post.len() implies (exists|m: int|
                n - post.len() <= m < n && #[trigger] post[k] == es[m]) by {
                if k < plen {
                    assert(pre[k] == post[k]);
                    let m = choose|m: int|
                        (n - 1) - plen <= m < n - 1 && #[trigger] pre[k] == es[m];
                    assert(post[k] == es[m]);
                } else {
                    assert(post[k] == es[n - 1]);
                }
            }
        } else {
            // one event is pruned: the strictly oldest of the grown history
            assert(plen == cap);
            assert(post.len() == cap);
            let lo = n - 1 - cap;
            // every grown event is a committed one from the window
            assert forall|w: int| 0 <= w < grown.len() implies (exists|m: int|
                lo <= m < n && #[trigger] grown[w] == es[m]) by {
                if w < plen as int {
                    assert(grown[w] == pre[w]);
                    let m = choose|m: int|
                        (n - 1) - plen <= m < n - 1 && #[trigger] pre[w] == es[m];
                    assert(grown[w] == es[m]);
                } else {
                    assert(grown[w] == es[n - 1]);
                }
            }
            // the window's events all stand in the grown history
            assert forall|m: int| lo <= m < n implies grown.contains(#[trigger] es[m]) by {
                if m < n - 1 {
                    assert(es2[m] == es[m]);
                    assert(hist2.last().contains(es2[m]));
                    assert(pre.contains(es[m]));
                    let w = choose|w: int| 0 <= w < pre.len() && pre[w] == es[m];
                    assert(grown[w] == es[m]);
                } else {
                    assert(grown[plen as int] == e2);
                }
            }
            // every committed event younger than the evicted window floor stays
            assert forall|m: int| n - cap <= m < n implies post.contains(#[trigger] es[m]) by {
                if !post.contains(es[m]) {
                    assert(grown.contains(es[m]));
                    let w0 = choose|w0: int| 0 <= w0 < grown.len() && grown[w0] == es[m];
                    assert(forall|k: int| 0 <= k < post.len() ==> key_lt(es[m], #[trigger] post[k]));
                    // every survivor is then a committed event strictly younger than es[m]
                    assert forall|k: int| 0 <= k < post.len() implies es.subrange(m + 1, n).contains(
                        #[trigger] post[k],
                    ) by {
                        assert(grown.contains(post[k]));
                        let w = choose|w: int| 0 <= w < grown.len() && grown[w] == post[k];
                        let m2 = choose|m2: int| lo <= m2 < n && grown[w] == #[trigger] es[m2];
                        assert(key_lt(es[m], es[m2]));
                        assert(m2 > m) by {
                            if m2 < m {
                                assert(key_lt(es[m2], es[m]));
                            } else if m2 == m {
                                assert(key_lt(es[m], es[m]));
                            }
                        }
                        assert(es.subrange(m + 1, n)[m2 - (m + 1)] == post[k]);
                    }
                    assert(distinct_events(post));
                    lemma_distinct_subset_len(post, es.subrange(m + 1, n));
                    assert(cap <= n - 1 - m);
                    assert(false);
                }
            }
            // and the window floor itself is evicted
            assert(!post.contains(es[lo])) by {
                if post.contains(es[lo]) {
                    let t = es.subrange(lo, n);
                    assert forall|k1: int, k2: int| 0 <= k1 < k2 < t.len() implies t[k1]
                        != t[k2] by {
                        assert(t[k1] == es[lo + k1] && t[k2] == es[lo + k2]);
                    }
                    assert forall|k: int| 0 <= k < t.len() implies post.contains(
                        #[trigger] t[k],
                    ) by {
                        assert(t[k] == es[lo + k]);
                        if lo + k > lo {
                            assert(post.contains(es[lo + k]));
                        }
                    }
                    lemma_distinct_subset_len(t, post);
                    assert(false);
                }
            }
            // nothing older than the window was there to begin with
            assert forall|m: int| 0 <= m < n - cap implies !post.contains(#[trigger] es[m]) by {
                if m == lo {
                } else if post.contains(es[m]) {
                    let k = choose|k: int| 0 <= k < post.len() && post[k] == es[m];
                    assert(grown.contains(post[k]));
                    let w = choose|w: int| 0 <= w < grown.len() && grown[w] == post[k];
                    let m2 = choose|m2: int| lo <= m2 < n && grown[w] == #[trigger] es[m2];
                    assert(es[m] == es[m2]);
                    assert(m < lo);
                    assert(key_lt(es[m], es[m2]));
                    assert(false);
                }
            }
            // every survivor is one of the retained window
            assert forall|k: int| 0 <= k < post.len() implies (exists|m: int|
                n - post.len() <= m < n && #[trigger] post[k] == es[m]) by {
                assert(grown.contains(post[k]));
                let w = choose|w: int| 0 <= w < grown.len() && grown[w] == post[k];
                let m2 = choose|m2: int| lo <= m2 < n && grown[w] == #[trigger] es[m2];
                assert(m2 != lo) by {
                    if m2 == lo {
                        assert(post.contains(es[lo]));
                    }
                }
                assert(post[k] == es[m2]);
            }
        }
    }
}

/// Whether the event reads, field for field, like one of the retained list.
pub open spec fn equiv_to_some(e: ClipboardEvent, s: Seq<ClipboardEvent>) -> bool {
    exists|i: int| 0 <= i < s.len() && event_equiv(e, #[trigger] s[i])
}

/// Whether some entry of the list reads `j`.
spec fn index_covered(s: Seq<usize>, j: int) -> bool {
    exists|k: int| 0 <= k < s.len() && (#[trigger] s[k]) as int == j
}

/// A list of distinct indices that covers every index below `n` has at least
/// `n` entries.
proof fn lemma_distinct_indices_cover(s: Seq<usize>, n: int)
    requires
        n >= 0,
        forall|k: int| 0 <= k < s.len() ==> (#[trigger] s[k]) < n,
        forall|k: int, m: int| 0 <= k < m < s.len() ==> s[k] != s[m],
        forall|j: int| 0 <= j < n ==> #[trigger] index_covered(s, j),
    ensures
        s.len() >= n,
    decreases n,
{
    if n > 0 {
        assert(index_covered(s, n - 1));
        let k = choose|k: int| 0 <= k < s.len() && (#[trigger] s[k]) as int == n - 1;
        let s2 = s.remove(k);
        s.remove_ensures(k);
        assert forall|k2: int| 0 <= k2 < s2.len() implies (#[trigger] s2[k2]) < n - 1 by {
            if k2 < k {
                assert(s2[k2] == s[k2]);
                assert(s[k2] != s[k]);
            } else {
                assert(s2[k2] == s[k2 + 1]);
                assert(s[k2 + 1] != s[k]);
            }
        }
        assert forall|k2: int, m2: int| 0 <= k2 < m2 < s2.len() implies s2[k2] != s2[m2] by {
            if m2 < k {
            } else if k2 < k {
                assert(s2[k2] == s[k2] && s2[m2] == s[m2 + 1]);
            } else {
                assert(s2[k2] == s[k2 + 1] && s2[m2] == s[m2 + 1]);
            }
        }
        assert forall|j: int| 0 <= j < n - 1 implies #[trigger] index_covered(s2, j) by {
            assert(index_covered(s, j));
            let p = choose|p: int| 0 <= p < s.len() && (#[trigger] s[p]) as int == j;
            if p < k {
                assert(s2[p] == s[p]);
            } else if p > k {
                assert(s2[p - 1] == s[p]);
            } else {
                assert(false);
            }
        }
        lemma_distinct_indices_cover(s2, n - 1);
    }
}

/// Compares two committed events by recency: older timestamps first, ties
/// broken by lower id.
fn older_event(a: &ClipboardEvent, b: &ClipboardEvent) -> (r: bool)
    requires
        a.id is Some,
        b.id is Some,
    ensures
        r == key_lt(*a, *b),
{
    if a.timestamp < b.timestamp {
        true
    } else if a.timestamp > b.timestamp {
        false
    } else {
        let x = match a.id {
            Some(i) => i,
            None => 0,
        };
        let y = match b.id {
            Some(i) => i,
            None => 0,
        };
        x < y
    }
}

/// Finds the single oldest event by recency; ids are distinct, so the
/// minimum is strict.
fn find_oldest_index(events: &Vec<ClipboardEvent>) -> (r: usize)
    requires
        events@.len() > 0,
        forall|i: int| 0 <= i < events@.len() ==> (#[trigger] events@[i]).id is Some,
        forall|i: int, j: int|
            0 <= i < j < events@.len() ==> eid(events@[i]) != eid(events@[j]),
    ensures
        r < events@.len(),
        forall|k: int| 0 <= k < events@.len() && k != r ==> key_lt(events@[r as int], #[trigger] events@[k]),
{
    let mut best: usize = 0;
    let mut i: usize = 1;
    while i < events.len()
        invariant
            best < i,
            i <= events@.len(),
            forall|i2: int| 0 <= i2 < events@.len() ==> (#[trigger] events@[i2]).id is Some,
            forall|i2: int, j2: int|
                0 <= i2 < j2 < events@.len() ==> eid(events@[i2]) != eid(events@[j2]),
            forall|k: int|
                0 <= k < i && k != best ==> key_lt(events@[best as int], #[trigger] events@[k]),
        decreases events@.len() - i,
    {
        if older_event(&events[i], &events[best]) {
            proof {
                assert forall|k: int| 0 <= k < i + 1 && k != i implies key_lt(
                    events@[i as int],
                    #[trigger] events@[k],
                ) by {
                    if k != best {
                        assert(key_lt(events@[best as int], events@[k]));
                    }
                }
            }
            best = i;
        } else {
            proof {
                if best < i {
                    assert(eid(events@[best as int]) != eid(events@[i as int]));
                }
            }
        }
        i = i + 1;
    }
    best
}

/// Mirrors a committed event's rows to the durable layer as one
/// transaction: the event row, then each item row, then each payload row.
fn mirror_event(conn: &Connection, e: &ClipboardEvent) -> (r: Result<(), StoreError>)
    requires
        e.id is Some,
        e.content_hash is Some,
{
    let event_id = match e.id {
        Some(i) => i,
        None => {
            return Err(StoreError::NotFound);
        },
    };
    let hash = match &e.content_hash {
        Some(h) => h,
        None => {
            return Err(StoreError::NotFound);
        },
    };
    sqlite::begin_transaction(conn)?;
    match sqlite::insert_event_row(conn, event_id, e.timestamp, hash) {
        Ok(()) => {
        },
        Err(err) => {
            let _ = sqlite::rollback_transaction(conn);
            return Err(err);
        },
    }
    let mut i: usize = 0;
    while i < e.items.len()
        decreases e.items@.len() - i,
    {
        let item = &e.items[i];
        let item_id = match item.id {
            Some(x) => x,
            None => {
                let _ = sqlite::rollback_transaction(conn);
                return Err(StoreError::NotFound);
            },
        };
        match sqlite::insert_item_row(conn, item_id, event_id) {
            Ok(()) => {
            },
            Err(err) => {
                let _ = sqlite::rollback_transaction(conn);
                return Err(err);
            },
        }
        let mut j: usize = 0;
        while j < item.types.len()
            decreases item.types@.len() - j,
        {
            let t = &item.types[j];
            let type_id = match t.id {
                Some(x) => x,
                None => {
                    let _ = sqlite::rollback_transaction(conn);
                    return Err(StoreError::NotFound);
                },
            };
            match sqlite::insert_type_row(conn, type_id, item_id, &t.uti, &t.data) {
                Ok(()) => {
                },
                Err(err) => {
                    let _ = sqlite::rollback_transaction(conn);
                    return Err(err);
                },
            }
            j = j + 1;
        }
        i = i + 1;
    }
    match sqlite::commit_transaction(conn) {
        Ok(()) => Ok(()),
        Err(err) => {
            let _ = sqlite::rollback_transaction(conn);
            Err(err)
        },
    }
}

/// Gives every item and payload of a sealed event its row identity, without
/// touching the content.
fn stamp_items(
    items: Vec<ClipboardItem>,
    event_id: i64,
    next_item_id: &mut i64,
    next_type_id: &mut i64,
) -> (r: Result<Vec<ClipboardItem>, StoreError>)
    requires
        forall|i: int| 0 <= i < items@.len() ==> (#[trigger] items@[i]).wf(),
        *old(next_item_id) >= 0,
        *old(next_type_id) >= 0,
    ensures
        *final(next_item_id) >= 0,
        *final(next_type_id) >= 0,
        r matches Ok(v) ==> {
            &&& v@.len() == items@.len()
            &&& forall|k: int|
                0 <= k < v@.len() ==> item_entries(#[trigger] v@[k]) == item_entries(items@[k])
            &&& forall|k: int| 0 <= k < v@.len() ==> (#[trigger] v@[k]).wf()
            &&& forall|k: int|
                0 <= k < v@.len() ==> (#[trigger] v@[k]).id is Some && v@[k].event_id == Some(
                    event_id,
                )
            &&& forall|k: int, t: int|
                0 <= k < v@.len() && 0 <= t < v@[k].types@.len() ==> (
                #[trigger] v@[k].types@[t]).id is Some
        },
{
    let mut out: Vec<ClipboardItem> = Vec::new();
    let mut i: usize = 0;
    while i < items.len()
        invariant
            i <= items@.len(),
            out@.len() == i,
            *next_item_id >= 0,
            *next_type_id >= 0,
            forall|i2: int| 0 <= i2 < items@.len() ==> (#[trigger] items@[i2]).wf(),
            forall|k: int|
                0 <= k < i ==> item_entries(#[trigger] out@[k]) == item_entries(items@[k]),
            forall|k: int| 0 <= k < i ==> (#[trigger] out@[k]).wf(),
            forall|k: int|
                0 <= k < i ==> (#[trigger] out@[k]).id is Some && out@[k].event_id == Some(
                    event_id,
                ),
            forall|k: int, t: int|
                0 <= k < i && 0 <= t < out@[k].types@.len() ==> (#[trigger] out@[k].types@[t]).id
                    is Some,
        decreases items@.len() - i,
    {
        let src = &items[i];
        if *next_item_id == i64::MAX {
            return Err(StoreError::StorageFault(String::from_str("item id space exhausted")));
        }
        let item_id = *next_item_id;
        *next_item_id = item_id + 1;
        let mut types: Vec<ClipboardType> = Vec::new();
        let mut j: usize = 0;
        while j < src.types.len()
            invariant
                j <= src.types@.len(),
                types@.len() == j,
                *next_item_id >= 0,
                *next_type_id >= 0,
                src.wf(),
                forall|t: int|
                    0 <= t < j ==> type_entry(#[trigger] types@[t])
                        == type_entry(src.types@[t]),
                forall|t: int| 0 <= t < j ==> (#[trigger] types@[t]).wf(),
                forall|t: int| 0 <= t < j ==> (#[trigger] types@[t]).id is Some,
            decreases src.types@.len() - j,
        {
            let t = &src.types[j];
            if *next_type_id == i64::MAX {
                return Err(
                    StoreError::StorageFault(String::from_str("payload id space exhausted")),
                );
            }
            let type_id = *next_type_id;
            *next_type_id = type_id + 1;
            types.push(
                ClipboardType {
                    id: Some(type_id),
                    item_id: Some(item_id),
                    uti: t.uti.clone(),
                    data: copy_bytes(&t.data),
                    size: t.size,
                },
            );
            j = j + 1;
        }
        let stamped = ClipboardItem { id: Some(item_id), event_id: Some(event_id), types };
        proof {
            assert(item_entries(stamped) =~= item_entries(items@[i as int]));
        }
        out.push(stamped);
        i = i + 1;
    }
    Ok(out)
}

} // verus!
