//! Every transition keeps the invariant of the traversal, and never takes
//! back what the classification holds.

use vstd::prelude::*;
use crate::classification::{
    distinct, known, lemma_settled, lemma_slot_unique, lemma_with_new, lookup, settled, slot,
    with_new, EntryView,
};
use crate::identity::IdentityView;
use crate::machine::{awaits, consistent, with_unresolved, EventView, PhaseView, State};
use crate::record::RecordView;

verus! {

/// A path that is waiting has an entry, and that entry is `Queued`.
pub proof fn lemma_awaits_known(map: Seq<EntryView>, path: Seq<char>)
    requires
        awaits(map, path),
    ensures
        known(map, IdentityView::Resolved(path)),
        0 <= slot(map, IdentityView::Resolved(path)) < map.len(),
        map[slot(map, IdentityView::Resolved(path))].id == IdentityView::Resolved(path),
        map[slot(map, IdentityView::Resolved(path))].record is Queued,
{
}

/// Queueing a path that is not yet classified keeps the classification and
/// the waiting paths consistent.
pub proof fn lemma_discover(map: Seq<EntryView>, waiting: Seq<Seq<char>>, path: Seq<char>)
    requires
        consistent(map, waiting),
        !known(map, IdentityView::Resolved(path)),
    ensures
        consistent(
            with_new(map, IdentityView::Resolved(path), RecordView::Queued),
            waiting.push(path),
        ),
{
    let id = IdentityView::Resolved(path);
    let next = with_new(map, id, RecordView::Queued);
    let queue = waiting.push(path);
    let n = map.len() as int;
    lemma_with_new(map, id, RecordView::Queued);
    assert forall|i: int| 0 <= i < waiting.len() implies #[trigger] waiting[i] != path by {
        lemma_awaits_known(map, waiting[i]);
    }
    assert(queue.no_duplicates());
    assert forall|i: int| 0 <= i < queue.len() implies awaits(next, #[trigger] queue[i]) by {
        if i < waiting.len() {
            lemma_awaits_known(map, waiting[i]);
        }
    }
    assert forall|i: int| 0 <= i < next.len() && (#[trigger] next[i]).record is Queued implies queue.contains(
        next[i].id.text(),
    ) by {
        if i < n {
            assert(map[i].record is Queued);
            let k = waiting.index_of(map[i].id.text());
            assert(queue[k] == map[i].id.text());
        } else {
            assert(queue[waiting.len() as int] == path);
        }
    }
    assert forall|i: int| 0 <= i < next.len() implies ((#[trigger] next[i]).id is Unresolved
        <==> next[i].record is NotFound) by {
        if i < n {
            assert(next[i] == map[i]);
        }
    }
}

/// Recording a bare name as not found keeps the classification and the
/// waiting paths consistent.
pub proof fn lemma_unresolved(map: Seq<EntryView>, waiting: Seq<Seq<char>>, name: Seq<char>)
    requires
        consistent(map, waiting),
    ensures
        consistent(with_new(map, IdentityView::Unresolved(name), RecordView::NotFound), waiting),
{
    let id = IdentityView::Unresolved(name);
    let next = with_new(map, id, RecordView::NotFound);
    let n = map.len() as int;
    lemma_with_new(map, id, RecordView::NotFound);
    if !known(map, id) {
        assert forall|i: int| 0 <= i < waiting.len() implies awaits(
            next,
            #[trigger] waiting[i],
        ) by {
            lemma_awaits_known(map, waiting[i]);
        }
        assert forall|i: int| 0 <= i < next.len() && (#[trigger] next[i]).record is Queued implies waiting.contains(
            next[i].id.text(),
        ) by {
            assert(i < n);
            assert(map[i].record is Queued);
        }
        assert forall|i: int| 0 <= i < next.len() implies ((#[trigger] next[i]).id is Unresolved
            <==> next[i].record is NotFound) by {
            if i < n {
                assert(next[i] == map[i]);
            }
        }
    }
}

/// Recording a list of bare names as not found keeps the classification and
/// the waiting paths consistent.
pub proof fn lemma_all_unresolved(
    map: Seq<EntryView>,
    waiting: Seq<Seq<char>>,
    names: Seq<Seq<char>>,
)
    requires
        consistent(map, waiting),
    ensures
        consistent(with_unresolved(map, names), waiting),
    decreases names.len(),
{
    if names.len() > 0 {
        lemma_all_unresolved(map, waiting, names.drop_last());
        lemma_unresolved(with_unresolved(map, names.drop_last()), waiting, names.last());
    }
}

/// Once the module at `path` was read, it no longer counts among the
/// waiting paths.
pub proof fn lemma_read(
    map: Seq<EntryView>,
    waiting: Seq<Seq<char>>,
    path: Seq<char>,
    record: RecordView,
)
    requires
        consistent(map, waiting.push(path)),
        record is Found || record is Invalid,
    ensures
        consistent(settled(map, IdentityView::Resolved(path), record), waiting),
        lookup(settled(map, IdentityView::Resolved(path), record), IdentityView::Resolved(path))
            == Some(record),
{
    let id = IdentityView::Resolved(path);
    let next = settled(map, id, record);
    let queue = waiting.push(path);
    let w = waiting.len() as int;
    assert(queue[w] == path);
    lemma_awaits_known(map, path);
    lemma_settled(map, id, record);
    let s = slot(map, id);
    assert(next == map.update(s, EntryView { id, record }));
    assert forall|i: int, j: int| 0 <= i < j < waiting.len() implies waiting[i]
        != waiting[j] by {
        assert(queue[i] != queue[j]);
    }
    assert forall|i: int| 0 <= i < waiting.len() implies awaits(next, #[trigger] waiting[i]) by {
        assert(queue[i] == waiting[i]);
        assert(queue[i] != queue[w]);
        assert(awaits(map, queue[i]));
    }
    assert forall|i: int| 0 <= i < next.len() implies ((#[trigger] next[i]).id is Unresolved
        <==> next[i].record is NotFound) by {
        if i != s {
            assert(next[i] == map[i]);
        }
    }
    assert forall|i: int| 0 <= i < next.len() && (#[trigger] next[i]).record is Queued implies waiting.contains(
        next[i].id.text(),
    ) by {
        assert(i != s);
        assert(next[i] == map[i]);
        assert(map[i].record is Queued);
        let k = queue.index_of(map[i].id.text());
        assert(queue[k] == map[i].id.text());
        if k == w {
            assert(!(map[i].record is NotFound));
            assert(map[i].id is Resolved);
            assert(map[i].id == id);
            lemma_slot_unique(map, i);
        }
        assert(waiting[k] == map[i].id.text());
    }
}

/// Taking the next module off the queue leads to a state that meets the
/// invariant.
pub proof fn lemma_dispatch(s: State)
    requires
        consistent(s.map, s.queue),
    ensures
        s.dispatch().wf(),
{
    if s.queue.len() > 0 {
        assert(s.queue.drop_last().push(s.queue.last()) =~= s.queue);
    }
}

/// A located file is queued, unless it is known: either way the
/// classification and the queue stay consistent.
pub proof fn lemma_discover_state(s: State, path: Seq<char>)
    requires
        consistent(s.map, s.queue),
    ensures
        consistent(s.discover(path).map, s.discover(path).queue),
{
    if !known(s.map, IdentityView::Resolved(path)) {
        lemma_discover(s.map, s.queue, path);
    }
}

/// Every transition keeps the invariant of the traversal.
pub proof fn lemma_step_wf(s: State, event: EventView)
    requires
        s.wf(),
    ensures
        s.step(event).wf(),
{
    match (s.phase, event) {
        (PhaseView::Seeding { next }, EventView::Located(Some(path))) => {
            lemma_discover_state(s, path);
            lemma_dispatch(s.discover(path));
        },
        (PhaseView::Seeding { next }, EventView::Located(None)) => {
            lemma_dispatch(State { missing: s.missing.push(s.inputs[next]), ..s });
        },
        (PhaseView::Loading { path }, EventView::Imports(Ok(names))) => {
            let record = RecordView::Found(names);
            lemma_read(s.map, s.queue, path, record);
            let read = State { map: settled(s.map, IdentityView::Resolved(path), record), ..s };
            lemma_dispatch(read);
            lemma_all_unresolved(read.map, read.queue, names);
            lemma_dispatch(State { map: with_unresolved(read.map, names), ..read });
        },
        (PhaseView::Loading { path }, EventView::Imports(Err(failure))) => {
            let record = RecordView::Invalid(failure);
            lemma_read(s.map, s.queue, path, record);
            lemma_dispatch(State { map: settled(s.map, IdentityView::Resolved(path), record), ..s });
        },
        (PhaseView::Probing { names, name, dir }, EventView::Located(Some(path))) => {
            lemma_discover_state(s, path);
            lemma_dispatch(s.discover(path));
        },
        (PhaseView::Probing { names, name, dir }, EventView::Located(None)) => {
            lemma_unresolved(s.map, s.queue, names[name]);
            lemma_dispatch(
                State {
                    map: with_new(
                        s.map,
                        IdentityView::Unresolved(names[name]),
                        RecordView::NotFound,
                    ),
                    ..s
                },
            );
        },
        _ => {},
    }
}

/// `after` holds every identity of `before`, and every terminal record of
/// `before` unchanged.
pub open spec fn extends(before: Seq<EntryView>, after: Seq<EntryView>) -> bool {
    forall|id: IdentityView| #[trigger]
        known(before, id) ==> known(after, id) && (lookup(before, id).unwrap().is_terminal()
            ==> lookup(after, id) == lookup(before, id))
}

/// A listing extends itself, and extension is transitive.
pub proof fn lemma_extends_chain(a: Seq<EntryView>, b: Seq<EntryView>, c: Seq<EntryView>)
    requires
        extends(a, b),
        extends(b, c),
    ensures
        extends(a, a),
        extends(a, c),
{
    assert forall|id: IdentityView| #[trigger] known(a, id) implies known(c, id) && (lookup(
        a,
        id,
    ).unwrap().is_terminal() ==> lookup(c, id) == lookup(a, id)) by {
        assert(known(b, id));
    }
}

/// Discovering an identity extends the listing.
pub proof fn lemma_extends_with_new(list: Seq<EntryView>, id: IdentityView, record: RecordView)
    requires
        distinct(list),
    ensures
        extends(list, with_new(list, id, record)),
{
    lemma_with_new(list, id, record);
    let next = with_new(list, id, record);
    assert forall|other: IdentityView| #[trigger] known(list, other) implies known(next, other)
        && lookup(next, other) == lookup(list, other) by {
        if other != id {
            assert(known(next, other) == known(list, other));
        }
    }
}

/// Settling a record extends the listing.
pub proof fn lemma_extends_settled(list: Seq<EntryView>, id: IdentityView, record: RecordView)
    requires
        distinct(list),
    ensures
        extends(list, settled(list, id, record)),
{
    lemma_settled(list, id, record);
    let next = settled(list, id, record);
    assert forall|other: IdentityView| #[trigger] known(list, other) implies known(next, other)
        && (lookup(list, other).unwrap().is_terminal() ==> lookup(next, other) == lookup(
        list,
        other,
    )) by {
        assert(known(next, other) == known(list, other));
    }
}

/// Recording a list of bare names as not found extends the listing and
/// keeps it free of repetitions.
pub proof fn lemma_extends_with_unresolved(list: Seq<EntryView>, names: Seq<Seq<char>>)
    requires
        distinct(list),
    ensures
        distinct(with_unresolved(list, names)),
        extends(list, with_unresolved(list, names)),
    decreases names.len(),
{
    if names.len() > 0 {
        let rest = with_unresolved(list, names.drop_last());
        let id = IdentityView::Unresolved(names.last());
        lemma_extends_with_unresolved(list, names.drop_last());
        lemma_with_new(rest, id, RecordView::NotFound);
        lemma_extends_with_new(rest, id, RecordView::NotFound);
        lemma_extends_chain(list, rest, with_unresolved(list, names));
    }
}

/// No transition removes an identity from the classification, and none
/// changes a terminal record.
pub proof fn lemma_step_extends(s: State, event: EventView)
    requires
        s.wf(),
    ensures
        extends(s.map, s.step(event).map),
{
    match (s.phase, event) {
        (PhaseView::Seeding { next }, EventView::Located(Some(path))) => {
            lemma_extends_with_new(s.map, IdentityView::Resolved(path), RecordView::Queued);
        },
        (PhaseView::Loading { path }, EventView::Imports(Ok(names))) => {
            let id = IdentityView::Resolved(path);
            let read = settled(s.map, id, RecordView::Found(names));
            lemma_settled(s.map, id, RecordView::Found(names));
            lemma_extends_settled(s.map, id, RecordView::Found(names));
            lemma_extends_with_unresolved(read, names);
            lemma_extends_chain(s.map, read, with_unresolved(read, names));
        },
        (PhaseView::Loading { path }, EventView::Imports(Err(failure))) => {
            lemma_extends_settled(
                s.map,
                IdentityView::Resolved(path),
                RecordView::Invalid(failure),
            );
        },
        (PhaseView::Probing { names, name, dir }, EventView::Located(Some(path))) => {
            lemma_extends_with_new(s.map, IdentityView::Resolved(path), RecordView::Queued);
        },
        (PhaseView::Probing { names, name, dir }, EventView::Located(None)) => {
            lemma_extends_with_new(
                s.map,
                IdentityView::Unresolved(names[name]),
                RecordView::NotFound,
            );
        },
        _ => {},
    }
}

} // verus!
