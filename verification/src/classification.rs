//! The classification map: one record per module identity, in the order in
//! which the identities were discovered.

use vstd::prelude::*;
use crate::identity::{Identity, IdentityView};
use crate::record::{DepRecord, RecordView};

verus! {

/// One identity with its record.
#[derive(Debug, PartialEq, Eq)]
pub struct Entry {
    pub id: Identity,
    pub record: DepRecord,
}

/// The mathematical value of an [`Entry`].
pub ghost struct EntryView {
    pub id: IdentityView,
    pub record: RecordView,
}

impl View for Entry {
    type V = EntryView;

    open spec fn view(&self) -> EntryView {
        EntryView { id: self.id@, record: self.record@ }
    }
}

/// Whether some entry of the listing has this identity.
pub open spec fn known(list: Seq<EntryView>, id: IdentityView) -> bool {
    exists|i: int| 0 <= i < list.len() && (#[trigger] list[i]).id == id
}

/// The position of the entry with this identity, where there is one.
pub open spec fn slot(list: Seq<EntryView>, id: IdentityView) -> int {
    choose|i: int| 0 <= i < list.len() && (#[trigger] list[i]).id == id
}

/// The record stored under this identity, if any.
pub open spec fn lookup(list: Seq<EntryView>, id: IdentityView) -> Option<RecordView> {
    if known(list, id) {
        Some(list[slot(list, id)].record)
    } else {
        None
    }
}

/// No identity occurs twice.
pub open spec fn distinct(list: Seq<EntryView>) -> bool {
    forall|i: int, j: int|
        0 <= i < j < list.len() ==> (#[trigger] list[i]).id != (#[trigger] list[j]).id
}

/// The listing after `id` was discovered with `record`: unchanged where the
/// identity is known already, else longer by one entry at the end.
pub open spec fn with_new(list: Seq<EntryView>, id: IdentityView, record: RecordView) -> Seq<
    EntryView,
> {
    if known(list, id) {
        list
    } else {
        list.push(EntryView { id, record })
    }
}

/// The listing after the module `id` was read with outcome `record`: a
/// `Queued` record gives way to a terminal one, in place. Nothing else
/// changes a listing: an unknown identity, a record that is terminal
/// already, and a `record` that is itself `Queued` leave it as it is.
pub open spec fn settled(list: Seq<EntryView>, id: IdentityView, record: RecordView) -> Seq<
    EntryView,
> {
    if known(list, id) && list[slot(list, id)].record is Queued && record.is_terminal() {
        list.update(slot(list, id), EntryView { id, record })
    } else {
        list
    }
}

/// In a listing without repeated identities, an entry is found at its own
/// position.
pub proof fn lemma_slot_unique(list: Seq<EntryView>, i: int)
    requires
        distinct(list),
        0 <= i < list.len(),
    ensures
        known(list, list[i].id),
        slot(list, list[i].id) == i,
        lookup(list, list[i].id) == Some(list[i].record),
{
    let id = list[i].id;
    let j = slot(list, id);
    assert(list[i].id == id);
    if j < i {
        assert(list[j].id != list[i].id);
    } else if i < j {
        assert(list[i].id != list[j].id);
    }
}

/// Discovering an identity keeps the listing free of repetitions, keeps
/// every record that was there, and makes the identity known.
pub proof fn lemma_with_new(list: Seq<EntryView>, id: IdentityView, record: RecordView)
    requires
        distinct(list),
    ensures
        distinct(with_new(list, id, record)),
        known(with_new(list, id, record), id),
        !known(list, id) ==> lookup(with_new(list, id, record), id) == Some(record),
        forall|other: IdentityView|
            known(list, other) ==> lookup(with_new(list, id, record), other) == lookup(
                list,
                other,
            ),
        forall|other: IdentityView|
            other != id ==> known(with_new(list, id, record), other) == known(list, other),
{
    let next = with_new(list, id, record);
    if known(list, id) {
    } else {
        let n = list.len() as int;
        assert(next[n].id == id);
        assert forall|i: int, j: int| 0 <= i < j < next.len() implies (#[trigger] next[i]).id != (
        #[trigger] next[j]).id by {
            if j == n {
                assert(list[i].id != id);
            } else {
                assert(list[i].id != list[j].id);
            }
        }
        lemma_slot_unique(next, n);
        assert forall|other: IdentityView| known(list, other) implies lookup(next, other) == lookup(
            list,
            other,
        ) by {
            let k = slot(list, other);
            assert(next[k].id == other);
            lemma_slot_unique(next, k);
            lemma_slot_unique(list, k);
        }
        assert forall|other: IdentityView| other != id implies known(next, other) == known(
            list,
            other,
        ) by {
            if known(next, other) {
                let k = slot(next, other);
                assert(k != n);
                assert(list[k].id == other);
            }
            if known(list, other) {
                let k = slot(list, other);
                assert(next[k].id == other);
            }
        }
    }
}

/// Settling a record keeps the listing free of repetitions and keeps the
/// identities; it changes the record of `id` alone, and that only from
/// `Queued` to a terminal one.
pub proof fn lemma_settled(list: Seq<EntryView>, id: IdentityView, record: RecordView)
    requires
        distinct(list),
    ensures
        distinct(settled(list, id, record)),
        settled(list, id, record).len() == list.len(),
        forall|i: int|
            0 <= i < list.len() ==> (#[trigger] settled(list, id, record)[i]).id == list[i].id,
        forall|other: IdentityView| known(settled(list, id, record), other) == known(list, other),
        forall|other: IdentityView|
            other != id ==> lookup(settled(list, id, record), other) == lookup(list, other),
        lookup(list, id) == Some(RecordView::Queued) && record.is_terminal() ==> lookup(
            settled(list, id, record),
            id,
        ) == Some(record),
        !(lookup(list, id) == Some(RecordView::Queued) && record.is_terminal()) ==> settled(
            list,
            id,
            record,
        ) == list,
{
    let next = settled(list, id, record);
    if known(list, id) && list[slot(list, id)].record is Queued && record.is_terminal() {
        let s = slot(list, id);
        assert forall|i: int| 0 <= i < list.len() implies (#[trigger] next[i]).id
            == list[i].id by {}
        assert forall|i: int, j: int| 0 <= i < j < next.len() implies (#[trigger] next[i]).id != (
        #[trigger] next[j]).id by {
            assert(list[i].id != list[j].id);
        }
        assert forall|other: IdentityView| known(next, other) == known(list, other) by {
            if known(next, other) {
                let k = slot(next, other);
                assert(list[k].id == other);
            }
            if known(list, other) {
                let k = slot(list, other);
                assert(next[k].id == other);
            }
        }
        assert forall|other: IdentityView| other != id implies lookup(next, other) == lookup(
            list,
            other,
        ) by {
            if known(list, other) {
                let k = slot(list, other);
                assert(next[k].id == other);
                lemma_slot_unique(next, k);
                lemma_slot_unique(list, k);
            }
        }
        assert(next[s].id == id);
        lemma_slot_unique(next, s);
    }
}

/// The classification map.
///
/// Its value is a listing of entries without repeated identities. An
/// identity enters once and never leaves; its record changes at most once,
/// from `Queued` to a terminal state. The listing is kept and searched in
/// the order of discovery, which is also the order of the report: the same
/// traversal always gives the same report.
#[derive(Debug, PartialEq, Eq)]
pub struct ClassMap {
    entries: Vec<Entry>,
}

impl View for ClassMap {
    type V = Seq<EntryView>;

    closed spec fn view(&self) -> Seq<EntryView> {
        Seq::new(self.entries.len() as nat, |i: int| self.entries[i]@)
    }
}

impl ClassMap {
    /// No identity occurs twice.
    pub open spec fn wf(&self) -> bool {
        distinct(self@)
    }

    /// An empty classification.
    pub fn new() -> (map: ClassMap)
        ensures
            map@ == Seq::<EntryView>::empty(),
            map.wf(),
    {
        let map = ClassMap { entries: Vec::new() };
        assert(map@ =~= Seq::<EntryView>::empty());
        map
    }

    /// The number of identities classified.
    pub fn len(&self) -> (n: usize)
        ensures
            n == self@.len(),
    {
        self.entries.len()
    }

    /// The entry at a position of the listing.
    pub fn entry(&self, index: usize) -> (e: &Entry)
        requires
            index < self@.len(),
        ensures
            e@ == self@[index as int],
    {
        &self.entries[index]
    }

    /// The position of the entry with this identity.
    pub fn position(&self, id: &Identity) -> (r: Option<usize>)
        ensures
            r is Some == known(self@, id@),
            r matches Some(i) ==> i < self@.len() && self@[i as int].id == id@,
            r matches Some(i) ==> self.wf() ==> i == slot(self@, id@),
    {
        let mut i: usize = 0;
        while i < self.entries.len()
            invariant
                i <= self.entries.len(),
                forall|k: int| 0 <= k < i ==> (#[trigger] self@[k]).id != id@,
            decreases self.entries.len() - i,
        {
            if self.entries[i].id.same(id) {
                proof {
                    assert(self@[i as int].id == id@);
                    if self.wf() {
                        lemma_slot_unique(self@, i as int);
                    }
                }
                return Some(i);
            }
            i += 1;
        }
        None
    }

    /// Whether the identity has been discovered.
    pub fn contains(&self, id: &Identity) -> (r: bool)
        ensures
            r == known(self@, id@),
    {
        self.position(id).is_some()
    }

    /// The record stored under this identity, if any.
    pub fn get(&self, id: &Identity) -> (r: Option<&DepRecord>)
        requires
            self.wf(),
        ensures
            r is Some == known(self@, id@),
            r matches Some(record) ==> lookup(self@, id@) == Some(record@),
    {
        match self.position(id) {
            Some(i) => Some(&self.entries[i].record),
            None => None,
        }
    }

    /// Records a newly discovered identity. Where the identity is known
    /// already, nothing changes and the result is `false`.
    pub fn insert_if_absent(&mut self, id: Identity, record: DepRecord) -> (inserted: bool)
        requires
            old(self).wf(),
        ensures
            final(self).wf(),
            final(self)@ == with_new(old(self)@, id@, record@),
            inserted == !known(old(self)@, id@),
    {
        if self.contains(&id) {
            false
        } else {
            proof {
                lemma_with_new(self@, id@, record@);
            }
            let ghost before = self@;
            self.entries.push(Entry { id, record });
            assert(self@ =~= before.push(EntryView { id: id@, record: record@ }));
            true
        }
    }

    /// Replaces the `Queued` record of `id` by the terminal `record`.
    /// Where the identity is unknown, its record is terminal already, or
    /// `record` is `Queued`, nothing changes and the result is `false`.
    pub fn settle(&mut self, id: &Identity, record: DepRecord) -> (changed: bool)
        requires
            old(self).wf(),
        ensures
            final(self).wf(),
            final(self)@ == settled(old(self)@, id@, record@),
            changed == (lookup(old(self)@, id@) == Some(RecordView::Queued)
                && record@.is_terminal()),
    {
        proof {
            lemma_settled(self@, id@, record@);
        }
        match self.position(id) {
            Some(i) => {
                if !self.entries[i].record.is_terminal() && record.is_terminal() {
                    let ghost before = self@;
                    let entry = Entry { id: id.duplicate(), record };
                    self.entries.set(i, entry);
                    assert(self@ =~= before.update(
                        i as int,
                        EntryView { id: id@, record: record@ },
                    ));
                    true
                } else {
                    false
                }
            },
            None => false,
        }
    }
}

} // verus!
