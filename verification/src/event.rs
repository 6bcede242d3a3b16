//! The in-memory snapshot a capture cycle assembles: an `Event` holds the
//! items of one copy action, each `Item` holds the typed representations of
//! one copied object, and each `Data` is a single (type tag, raw bytes) pair.

use vstd::prelude::*;

verus! {

/// One typed representation of a copied object: a type tag naming the content
/// flavor and the raw payload bytes.
pub struct Data {
    pub type_tag: String,
    pub data: Vec<u8>,
}

/// One copied object, expressed as an ordered list of typed representations.
pub struct Item {
    pub data_list: Vec<Data>,
}

/// One full copy action: an ordered list of copied objects.
pub struct Event {
    pub items: Vec<Item>,
}

impl Data {
    /// The pair this payload stands for: its tag's characters and its bytes.
    pub open spec fn entry(self) -> (Seq<char>, Seq<u8>) {
        (self.type_tag@, self.data@)
    }

    pub fn new(type_tag: String, data: Vec<u8>) -> (r: Data)
        ensures
            r.type_tag == type_tag,
            r.data == data,
    {
        Data { type_tag, data }
    }
}

impl Item {
    /// The ordered (tag, bytes) pairs this item holds.
    pub open spec fn entries(self) -> Seq<(Seq<char>, Seq<u8>)> {
        self.data_list@.map_values(|d: Data| d.entry())
    }

    pub fn new() -> (r: Item)
        ensures
            r.data_list@.len() == 0,
    {
        Item { data_list: Vec::new() }
    }

    pub fn add_data(&mut self, data: Data)
        ensures
            final(self).data_list@ == old(self).data_list@.push(data),
    {
        self.data_list.push(data);
    }
}

impl Event {
    /// The ordered items, each as its ordered (tag, bytes) pairs.
    pub open spec fn entries(self) -> Seq<Seq<(Seq<char>, Seq<u8>)>> {
        self.items@.map_values(|it: Item| it.entries())
    }

    pub fn new() -> (r: Event)
        ensures
            r.items@.len() == 0,
    {
        Event { items: Vec::new() }
    }

    /// Opens a fresh, empty item at the end of the event.
    pub fn new_item(&mut self)
        ensures
            final(self).items@.len() == old(self).items@.len() + 1,
            final(self).items@.subrange(0, old(self).items@.len() as int) == old(self).items@,
            final(self).items@.last().data_list@.len() == 0,
    {
        self.items.push(Item::new());
        proof {
            assert(self.items@.subrange(0, old(self).items@.len() as int) =~= old(self).items@);
        }
    }

    /// Appends a typed payload to the most recently opened item; with no item
    /// open, the payload is dropped.
    pub fn add_data(&mut self, type_tag: String, data: Vec<u8>)
        ensures
            old(self).items@.len() == 0 ==> final(self).items@ == old(self).items@,
            old(self).items@.len() > 0 ==> {
                &&& final(self).items@.len() == old(self).items@.len()
                &&& final(self).items@.drop_last() == old(self).items@.drop_last()
                &&& final(self).items@.last().data_list@ == old(
                    self,
                ).items@.last().data_list@.push((Data { type_tag, data }))
            },
    {
        match self.items.pop() {
            Some(mut item) => {
                item.add_data(Data::new(type_tag, data));
                self.items.push(item);
                proof {
                    assert(self.items@.drop_last() =~= old(self).items@.drop_last());
                }
            },
            None => {
            },
        }
    }
}

} // verus!
