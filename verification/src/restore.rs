//! The restorer's verified half: the plan of (tag, bytes) writes a stored
//! event puts back onto the platform clipboard, and the event a capture
//! cycle builds from a platform snapshot of the same shape. The platform
//! write itself happens outside the library; when it rejects one payload,
//! the failure names the offending type tag.

use crate::clipboard_event::{
    copy_bytes, event_hash, item_entries, items_entries, lemma_entries_determine_hash,
    ClipboardEvent, ClipboardItem, ClipboardType,
};
use crate::errors::RestoreError;
use vstd::prelude::*;

verus! {

/// The (tag, bytes) pairs a snapshot or write plan carries, item by item.
pub open spec fn plan_entries(plan: Seq<Vec<(String, Vec<u8>)>>) -> Seq<
    Seq<(Seq<char>, Seq<u8>)>,
> {
    plan.map_values(
        |item: Vec<(String, Vec<u8>)>|
            item@.map_values(|p: (String, Vec<u8>)| (p.0@, p.1@)),
    )
}

/// The writes that restore a stored event: one list of (tag, bytes) pairs
/// per item, in the stored order, byte for byte.
pub fn restore_plan(e: &ClipboardEvent) -> (r: Vec<Vec<(String, Vec<u8>)>>)
    ensures
        plan_entries(r@) == items_entries(e.items@),
{
    let mut plan: Vec<Vec<(String, Vec<u8>)>> = Vec::new();
    let mut i: usize = 0;
    while i < e.items.len()
        invariant
            i <= e.items@.len(),
            plan_entries(plan@) == items_entries(e.items@).take(i as int),
        decreases e.items@.len() - i,
    {
        let item = &e.items[i];
        let mut writes: Vec<(String, Vec<u8>)> = Vec::new();
        let mut j: usize = 0;
        while j < item.types.len()
            invariant
                j <= item.types@.len(),
                writes@.map_values(|p: (String, Vec<u8>)| (p.0@, p.1@)) == item_entries(
                    *item,
                ).take(j as int),
            decreases item.types@.len() - j,
        {
            let t = &item.types[j];
            proof {
                assert(writes@.map_values(|p: (String, Vec<u8>)| (p.0@, p.1@)).len()
                    == writes@.len());
                assert(writes@.len() == j as int);
            }
            writes.push((t.uti.clone(), copy_bytes(&t.data)));
            proof {
                assert(writes@.last() == writes@[j as int]);
                assert(writes@.map_values(|p: (String, Vec<u8>)| (p.0@, p.1@)) =~= item_entries(
                    *item,
                ).take(j + 1 as int));
            }
            j = j + 1;
        }
        proof {
            assert(plan_entries(plan@).len() == plan@.len());
            assert(plan@.len() == i as int);
        }
        plan.push(writes);
        proof {
            assert(plan@.last() == plan@[i as int]);
            assert(item_entries(*item).take(item.types@.len() as int) =~= item_entries(*item));
            assert(items_entries(e.items@).take(i + 1 as int).drop_last() =~= items_entries(
                e.items@,
            ).take(i as int));
            assert(plan_entries(plan@) =~= items_entries(e.items@).take(i + 1 as int));
        }
        i = i + 1;
    }
    proof {
        assert(items_entries(e.items@).take(e.items@.len() as int) =~= items_entries(e.items@));
    }
    plan
}

/// The event one capture cycle builds from a platform snapshot: one item per
/// reported slot, one typed payload per reported (tag, bytes) pair, stamped
/// with the given capture time.
pub fn capture_snapshot(snapshot: &Vec<Vec<(String, Vec<u8>)>>, timestamp: i64) -> (r:
    ClipboardEvent)
    ensures
        r.id is None,
        r.timestamp == timestamp,
        r.wf(),
        items_entries(r.items@) == plan_entries(snapshot@),
{
    let mut ev = ClipboardEvent::new(timestamp);
    let mut i: usize = 0;
    while i < snapshot.len()
        invariant
            i <= snapshot@.len(),
            ev.id is None,
            ev.timestamp == timestamp,
            ev.wf(),
            items_entries(ev.items@) == plan_entries(snapshot@).take(i as int),
        decreases snapshot@.len() - i,
    {
        let slot = &snapshot[i];
        let mut item = ClipboardItem::new();
        let mut j: usize = 0;
        while j < slot.len()
            invariant
                j <= slot@.len(),
                item.wf(),
                item_entries(item) == slot@.map_values(|p: (String, Vec<u8>)| (p.0@, p.1@)).take(
                    j as int,
                ),
            decreases slot@.len() - j,
        {
            let tag = slot[j].0.clone();
            let bytes = copy_bytes(&slot[j].1);
            proof {
                assert(item_entries(item).len() == item.types@.len());
                assert(item.types@.len() == j as int);
            }
            item.add_type(ClipboardType::new(tag, bytes));
            proof {
                assert(item.types@.last() == item.types@[j as int]);
                assert(item_entries(item) =~= slot@.map_values(
                    |p: (String, Vec<u8>)| (p.0@, p.1@),
                ).take(j + 1 as int));
            }
            j = j + 1;
        }
        proof {
            assert(slot@.map_values(|p: (String, Vec<u8>)| (p.0@, p.1@)).take(slot@.len() as int)
                =~= slot@.map_values(|p: (String, Vec<u8>)| (p.0@, p.1@)));
        }
        proof {
            assert(items_entries(ev.items@).len() == ev.items@.len());
            assert(ev.items@.len() == i as int);
        }
        ev.add_item(item);
        proof {
            assert(ev.items@.last() == ev.items@[i as int]);
            assert(items_entries(ev.items@) =~= plan_entries(snapshot@).take(i + 1 as int));
        }
        i = i + 1;
    }
    proof {
        assert(plan_entries(snapshot@).take(snapshot@.len() as int) =~= plan_entries(snapshot@));
    }
    ev
}

/// The failure reported when the platform refuses one payload of the plan:
/// it names the offending type tag, and the restore is aborted rather than
/// silently swallowed.
pub fn restore_rejection(
    plan: &Vec<Vec<(String, Vec<u8>)>>,
    item_idx: usize,
    type_idx: usize,
) -> (r: RestoreError)
    requires
        item_idx < plan@.len(),
        type_idx < plan@[item_idx as int]@.len(),
    ensures
        r matches RestoreError::TypeRejected(t) && t@ == plan@[item_idx as int]@[type_idx as int].0@,
{
    RestoreError::TypeRejected(plan[item_idx][type_idx].0.clone())
}

/// Round trip: capturing what a restore wrote yields the original content
/// hash. Restoring a stored event writes its entries, and any event captured
/// from exactly those entries fingerprints identically, whatever its capture
/// time or assigned ids.
pub proof fn lemma_restore_round_trip(
    stored: ClipboardEvent,
    plan: Seq<Vec<(String, Vec<u8>)>>,
    recaptured: ClipboardEvent,
)
    requires
        plan_entries(plan) == items_entries(stored.items@),
        items_entries(recaptured.items@) == plan_entries(plan),
    ensures
        event_hash(recaptured.items@) == event_hash(stored.items@),
{
    lemma_entries_determine_hash(recaptured.items@, stored.items@);
}

} // verus!
