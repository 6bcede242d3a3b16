//! The persisted data model: a `ClipboardEvent` owns `ClipboardItem`s, each
//! of which owns `ClipboardType` payloads, and the content hash that
//! fingerprints an event for deduplication.
//!
//! The hash is canonical: within each item the payloads are sorted by
//! (encoded tag, bytes) before they are fed to the digest, so the fingerprint
//! does not depend on the order in which the platform reported an item's
//! types. Item order is part of an event's identity and is not re-sorted.

use crate::hashing::{hex_of, is_hex_digit, sha256_digest, sha256_of, to_hex};
use crate::order::{pair_order, pview, pviews, sort_pairs};
use vstd::prelude::*;
use vstd::seq_lib::lemma_sorted_unique;
use vstd::string::StrSliceExecFns;
use vstd::utf8::encode_utf8;

verus! {

/// One typed payload row: a type tag (a content-flavor identifier), the raw
/// bytes, and the cached byte count. Row identities are absent until the
/// store commits the row.
pub struct ClipboardType {
    pub id: Option<i64>,
    pub item_id: Option<i64>,
    pub uti: String,
    pub data: Vec<u8>,
    pub size: usize,
}

/// One item row: an ordered list of typed payloads standing for a single
/// copied object.
pub struct ClipboardItem {
    pub id: Option<i64>,
    pub event_id: Option<i64>,
    pub types: Vec<ClipboardType>,
}

/// One event row: a full copy action, stamped with a capture time, holding
/// an ordered list of items. The content hash is derived from the items when
/// the store seals the event; it is absent while the event is being built.
pub struct ClipboardEvent {
    pub id: Option<i64>,
    pub timestamp: i64,
    pub content_hash: Option<String>,
    pub items: Vec<ClipboardItem>,
}

impl ClipboardType {
    /// The cached size always equals the payload's length.
    pub open spec fn wf(self) -> bool {
        self.size == self.data@.len()
    }

    /// The content this payload stands for: its tag's encoded bytes and its
    /// raw bytes.
    pub open spec fn content(self) -> (Seq<u8>, Seq<u8>) {
        (encode_utf8(self.uti@), self.data@)
    }

    pub fn new(uti: String, data: Vec<u8>) -> (r: ClipboardType)
        ensures
            r.id is None,
            r.item_id is None,
            r.uti == uti,
            r.data == data,
            r.size == data@.len(),
            r.wf(),
    {
        let size = data.len();
        ClipboardType { id: None, item_id: None, uti, size, data }
    }
}

/// The (encoded tag, bytes) pairs of one item, in the item's own order.
pub open spec fn item_pairs(item: ClipboardItem) -> Seq<(Seq<u8>, Seq<u8>)> {
    item.types@.map_values(|t: ClipboardType| t.content())
}

/// The byte stream a sequence of (encoded tag, bytes) pairs feeds into the
/// digest: each tag immediately followed by its payload.
pub open spec fn concat_pairs(s: Seq<(Seq<u8>, Seq<u8>)>) -> Seq<u8>
    decreases s.len(),
{
    if s.len() == 0 {
        Seq::<u8>::empty()
    } else {
        concat_pairs(s.drop_last()) + s.last().0 + s.last().1
    }
}

/// One item's contribution to the digest: its pairs in canonical order.
pub open spec fn canon_item(item: ClipboardItem) -> Seq<u8> {
    concat_pairs(item_pairs(item).sort_by(pair_order()))
}

/// The whole canonical byte stream of an event's items, in item order.
pub open spec fn canon_items(items: Seq<ClipboardItem>) -> Seq<u8>
    decreases items.len(),
{
    if items.len() == 0 {
        Seq::<u8>::empty()
    } else {
        canon_items(items.drop_last()) + canon_item(items.last())
    }
}

/// The content hash of an event with these items: the lowercase-hex digest
/// of the canonical byte stream.
pub open spec fn event_hash(items: Seq<ClipboardItem>) -> Seq<char> {
    hex_of(sha256_of(canon_items(items)))
}

impl ClipboardItem {
    pub open spec fn wf(self) -> bool {
        forall|i: int| 0 <= i < self.types@.len() ==> (#[trigger] self.types@[i]).wf()
    }

    pub fn new() -> (r: ClipboardItem)
        ensures
            r.id is None,
            r.event_id is None,
            r.types@.len() == 0,
            r.wf(),
    {
        ClipboardItem { id: None, event_id: None, types: Vec::new() }
    }

    pub fn add_type(&mut self, clipboard_type: ClipboardType)
        ensures
            final(self).id == old(self).id,
            final(self).event_id == old(self).event_id,
            final(self).types@ == old(self).types@.push(clipboard_type),
            old(self).wf() && clipboard_type.wf() ==> final(self).wf(),
    {
        self.types.push(clipboard_type);
    }
}

/// Copies a byte vector element by element.
pub fn copy_bytes(src: &Vec<u8>) -> (r: Vec<u8>)
    ensures
        r@ == src@,
{
    let mut r: Vec<u8> = Vec::new();
    let mut i: usize = 0;
    while i < src.len()
        invariant
            i <= src@.len(),
            r@ == src@.take(i as int),
        decreases src@.len() - i,
    {
        r.push(src[i]);
        proof {
            assert(r@ =~= src@.take(i + 1 as int));
        }
        i = i + 1;
    }
    proof {
        assert(src@.take(src@.len() as int) =~= src@);
    }
    r
}

/// Appends a byte vector's contents to another.
pub fn append_bytes(dst: &mut Vec<u8>, src: &Vec<u8>)
    ensures
        final(dst)@ == old(dst)@ + src@,
{
    let mut i: usize = 0;
    proof {
        assert(old(dst)@ + src@.take(0) =~= old(dst)@);
    }
    while i < src.len()
        invariant
            i <= src@.len(),
            dst@ == old(dst)@ + src@.take(i as int),
        decreases src@.len() - i,
    {
        dst.push(src[i]);
        proof {
            assert(dst@ =~= old(dst)@ + src@.take(i + 1 as int));
        }
        i = i + 1;
    }
    proof {
        assert(old(dst)@ + src@.take(src@.len() as int) =~= old(dst)@ + src@);
    }
}

impl ClipboardEvent {
    pub open spec fn wf(self) -> bool {
        forall|i: int| 0 <= i < self.items@.len() ==> (#[trigger] self.items@[i]).wf()
    }

    pub fn new(timestamp: i64) -> (r: ClipboardEvent)
        ensures
            r.id is None,
            r.timestamp == timestamp,
            r.content_hash is None,
            r.items@.len() == 0,
            r.wf(),
    {
        ClipboardEvent { id: None, timestamp, content_hash: None, items: Vec::new() }
    }

    pub fn add_item(&mut self, item: ClipboardItem)
        ensures
            final(self).id == old(self).id,
            final(self).timestamp == old(self).timestamp,
            final(self).content_hash == old(self).content_hash,
            final(self).items@ == old(self).items@.push(item),
            old(self).wf() && item.wf() ==> final(self).wf(),
    {
        self.items.push(item);
    }

    /// Renders the canonical content fingerprint of this event: the
    /// lowercase-hex 256-bit digest of the item-ordered, within-item-sorted
    /// (tag, bytes) stream — 64 lowercase hex characters, the same string on
    /// every call over the same items.
    pub fn calculate_hash(&self) -> (r: String)
        ensures
            r@ == event_hash(self.items@),
            r@.len() == 64,
            forall|i: int| 0 <= i < r@.len() ==> is_hex_digit(#[trigger] r@[i]),
    {
        let mut buf: Vec<u8> = Vec::new();
        let mut i: usize = 0;
        proof {
            assert(buf@ =~= canon_items(self.items@.take(0)));
        }
        while i < self.items.len()
            invariant
                i <= self.items@.len(),
                buf@ == canon_items(self.items@.take(i as int)),
            decreases self.items@.len() - i,
        {
            let ghost pre = buf@;
            let item = &self.items[i];
            let mut pairs: Vec<(Vec<u8>, Vec<u8>)> = Vec::new();
            let mut j: usize = 0;
            proof {
                assert(pviews(pairs@) =~= item_pairs(*item).take(0));
            }
            while j < item.types.len()
                invariant
                    j <= item.types@.len(),
                    pviews(pairs@) == item_pairs(*item).take(j as int),
                decreases item.types@.len() - j,
            {
                let t = &item.types[j];
                let tag = t.uti.as_str().as_bytes_vec();
                let data = copy_bytes(&t.data);
                proof {
                    assert(pview((tag, data)) == item.types@[j as int].content());
                    assert(pviews(pairs@).len() == pairs@.len());
                    assert(pairs@.len() == j as int);
                }
                pairs.push((tag, data));
                proof {
                    assert(pairs@.last() == pairs@[j as int]);
                    assert(pview(pairs@[j as int]) == item_pairs(*item)[j as int]);
                    assert(pviews(pairs@) =~= item_pairs(*item).take(j + 1 as int));
                }
                j = j + 1;
            }
            proof {
                assert(item_pairs(*item).take(item.types@.len() as int) =~= item_pairs(*item));
            }
            let sorted = sort_pairs(pairs);
            let ghost spairs = item_pairs(*item).sort_by(pair_order());
            let mut k: usize = 0;
            proof {
                assert(buf@ =~= pre + concat_pairs(spairs.take(0)));
            }
            while k < sorted.len()
                invariant
                    k <= sorted@.len(),
                    pviews(sorted@) == spairs,
                    buf@ == pre + concat_pairs(spairs.take(k as int)),
                decreases sorted@.len() - k,
            {
                append_bytes(&mut buf, &sorted[k].0);
                append_bytes(&mut buf, &sorted[k].1);
                proof {
                    assert(spairs.take(k + 1 as int).drop_last() =~= spairs.take(k as int));
                    assert(spairs.take(k + 1 as int).last() == pview(sorted@[k as int]));
                    assert(buf@ =~= pre + concat_pairs(spairs.take(k + 1 as int)));
                }
                k = k + 1;
            }
            proof {
                assert(spairs.take(sorted@.len() as int) =~= spairs);
                assert(self.items@.take(i + 1 as int).drop_last() =~= self.items@.take(i as int));
                assert(self.items@.take(i + 1 as int).last() == self.items@[i as int]);
                assert(buf@ =~= canon_items(self.items@.take(i + 1 as int)));
            }
            i = i + 1;
        }
        proof {
            assert(self.items@.take(self.items@.len() as int) =~= self.items@);
        }
        let digest = sha256_digest(&buf);
        proof {
            crate::hashing::lemma_hex_of_shape(sha256_of(buf@));
        }
        to_hex(&digest)
    }
}

/// The (tag characters, bytes) pair one payload carries.
pub open spec fn type_entry(t: ClipboardType) -> (Seq<char>, Seq<u8>) {
    (t.uti@, t.data@)
}

/// The ordered (tag, bytes) pairs one item carries.
pub open spec fn item_entries(item: ClipboardItem) -> Seq<(Seq<char>, Seq<u8>)> {
    item.types@.map_values(|t: ClipboardType| type_entry(t))
}

/// The ordered items' pairs a whole item list carries.
pub open spec fn items_entries(items: Seq<ClipboardItem>) -> Seq<Seq<(Seq<char>, Seq<u8>)>> {
    items.map_values(|it: ClipboardItem| item_entries(it))
}

/// Field-for-field agreement of two payloads, with strings and bytes
/// compared by their contents.
pub open spec fn type_equiv(a: ClipboardType, b: ClipboardType) -> bool {
    &&& a.id == b.id
    &&& a.item_id == b.item_id
    &&& a.uti@ == b.uti@
    &&& a.data@ == b.data@
    &&& a.size == b.size
}

/// Field-for-field agreement of two items, payload by payload.
pub open spec fn item_equiv(a: ClipboardItem, b: ClipboardItem) -> bool {
    &&& a.id == b.id
    &&& a.event_id == b.event_id
    &&& a.types@.len() == b.types@.len()
    &&& forall|i: int| 0 <= i < a.types@.len() ==> type_equiv(#[trigger] a.types@[i], b.types@[i])
}

/// Field-for-field agreement of two events, item by item.
pub open spec fn event_equiv(a: ClipboardEvent, b: ClipboardEvent) -> bool {
    &&& a.id == b.id
    &&& a.timestamp == b.timestamp
    &&& a.content_hash == b.content_hash
    &&& a.items@.len() == b.items@.len()
    &&& forall|i: int| 0 <= i < a.items@.len() ==> item_equiv(#[trigger] a.items@[i], b.items@[i])
}

/// Copies one payload, byte for byte.
pub fn clone_type(t: &ClipboardType) -> (r: ClipboardType)
    ensures
        type_equiv(*t, r),
        type_equiv(r, *t),
        t.wf() ==> r.wf(),
{
    ClipboardType {
        id: t.id,
        item_id: t.item_id,
        uti: t.uti.clone(),
        data: copy_bytes(&t.data),
        size: t.size,
    }
}

/// Copies one item, payload by payload.
pub fn clone_item(it: &ClipboardItem) -> (r: ClipboardItem)
    ensures
        item_equiv(*it, r),
        item_equiv(r, *it),
        it.wf() ==> r.wf(),
{
    let mut types: Vec<ClipboardType> = Vec::new();
    let mut i: usize = 0;
    while i < it.types.len()
        invariant
            i <= it.types@.len(),
            types@.len() == i,
            forall|k: int|
                0 <= k < i ==> type_equiv(#[trigger] types@[k], it.types@[k]) && type_equiv(
                    it.types@[k],
                    types@[k],
                ),
            it.wf() ==> forall|k: int| 0 <= k < i ==> (#[trigger] types@[k]).wf(),
        decreases it.types@.len() - i,
    {
        types.push(clone_type(&it.types[i]));
        i = i + 1;
    }
    ClipboardItem { id: it.id, event_id: it.event_id, types }
}

/// Copies one event, item by item.
pub fn clone_event(e: &ClipboardEvent) -> (r: ClipboardEvent)
    ensures
        event_equiv(*e, r),
        event_equiv(r, *e),
        e.wf() ==> r.wf(),
{
    let content_hash = match &e.content_hash {
        Some(h) => Some(h.clone()),
        None => None,
    };
    let mut items: Vec<ClipboardItem> = Vec::new();
    let mut i: usize = 0;
    while i < e.items.len()
        invariant
            i <= e.items@.len(),
            items@.len() == i,
            forall|k: int|
                0 <= k < i ==> item_equiv(#[trigger] items@[k], e.items@[k]) && item_equiv(
                    e.items@[k],
                    items@[k],
                ),
            e.wf() ==> forall|k: int| 0 <= k < i ==> (#[trigger] items@[k]).wf(),
        decreases e.items@.len() - i,
    {
        items.push(clone_item(&e.items[i]));
        i = i + 1;
    }
    ClipboardEvent { id: e.id, timestamp: e.timestamp, content_hash, items }
}

/// The entries of an item list determine the content hash: the encoded
/// pairs, and with them the canonical stream, are functions of the entries.
pub proof fn lemma_entries_determine_hash(a: Seq<ClipboardItem>, b: Seq<ClipboardItem>)
    requires
        items_entries(a) == items_entries(b),
    ensures
        event_hash(a) == event_hash(b),
{
    lemma_entries_canon(a, b);
}

proof fn lemma_entries_canon(a: Seq<ClipboardItem>, b: Seq<ClipboardItem>)
    requires
        items_entries(a) == items_entries(b),
    ensures
        canon_items(a) == canon_items(b),
    decreases a.len(),
{
    assert(a.len() == b.len()) by {
        assert(items_entries(a).len() == a.len());
        assert(items_entries(b).len() == b.len());
    }
    if a.len() > 0 {
        assert(items_entries(a.drop_last()) =~= items_entries(b.drop_last())) by {
            assert forall|i: int| 0 <= i < a.len() - 1 implies items_entries(a.drop_last())[i]
                == items_entries(b.drop_last())[i] by {
                assert(items_entries(a)[i] == items_entries(b)[i]);
            }
        }
        lemma_entries_canon(a.drop_last(), b.drop_last());
        assert(item_entries(a.last()) == item_entries(b.last())) by {
            assert(items_entries(a)[a.len() - 1] == items_entries(b)[b.len() - 1]);
        }
        assert(item_pairs(a.last()) =~= item_pairs(b.last())) by {
            assert(item_entries(a.last()).len() == item_entries(b.last()).len());
            assert(a.last().types@.len() == b.last().types@.len());
            assert forall|i: int| 0 <= i < a.last().types@.len() implies item_pairs(a.last())[i]
                == item_pairs(b.last())[i] by {
                assert(item_entries(a.last())[i] == item_entries(b.last())[i]);
                assert(a.last().types@[i].uti@ == b.last().types@[i].uti@);
                assert(a.last().types@[i].data@ == b.last().types@[i].data@);
            }
        }
    }
}

/// Two events whose items agree pairwise up to the order of each item's
/// typed payloads have the same content hash: within one item the payload
/// pairs may arrive in any order without changing the fingerprint.
pub proof fn lemma_hash_ignores_type_order(a: Seq<ClipboardItem>, b: Seq<ClipboardItem>)
    requires
        a.len() == b.len(),
        forall|i: int|
            0 <= i < a.len() ==> (#[trigger] item_pairs(a[i])).to_multiset() == item_pairs(
                b[i],
            ).to_multiset(),
    ensures
        event_hash(a) == event_hash(b),
{
    lemma_canon_items_step(a, b);
}

/// The canonical streams of two pairwise-content-equal prefixes agree.
proof fn lemma_canon_items_step(a: Seq<ClipboardItem>, b: Seq<ClipboardItem>)
    requires
        a.len() == b.len(),
        forall|i: int|
            0 <= i < a.len() ==> (#[trigger] item_pairs(a[i])).to_multiset() == item_pairs(
                b[i],
            ).to_multiset(),
    ensures
        canon_items(a) == canon_items(b),
    decreases a.len(),
{
    if a.len() > 0 {
        assert forall|i: int| 0 <= i < a.drop_last().len() implies (#[trigger] item_pairs(
            a.drop_last()[i],
        )).to_multiset() == item_pairs(b.drop_last()[i]).to_multiset() by {
            assert(a.drop_last()[i] == a[i]);
            assert(b.drop_last()[i] == b[i]);
        }
        lemma_canon_items_step(a.drop_last(), b.drop_last());
        assert(item_pairs(a[a.len() - 1]).to_multiset() == item_pairs(b[a.len() - 1]).to_multiset());
        assert(a.last() == a[a.len() - 1]);
        assert(b.last() == b[b.len() - 1]);
        lemma_canon_item_multiset(a.last(), b.last());
    }
}

/// Items holding the same multiset of (encoded tag, bytes) pairs contribute
/// the same canonical bytes: sorting by a total order makes the stream a
/// function of the multiset alone.
proof fn lemma_canon_item_multiset(x: ClipboardItem, y: ClipboardItem)
    requires
        item_pairs(x).to_multiset() == item_pairs(y).to_multiset(),
    ensures
        canon_item(x) == canon_item(y),
{
    crate::order::lemma_pair_order_total();
    item_pairs(x).lemma_sort_by_ensures(pair_order());
    item_pairs(y).lemma_sort_by_ensures(pair_order());
    lemma_sorted_unique(
        item_pairs(x).sort_by(pair_order()),
        item_pairs(y).sort_by(pair_order()),
        pair_order(),
    );
}

} // verus!
