//! Which modules a traversal reads: each one that it discovers, once.

use vstd::prelude::*;
use crate::classification::{
    distinct, known, lemma_settled, lemma_slot_unique, lemma_with_new, lookup, settled, with_new,
    EntryView,
};
use crate::identity::IdentityView;
use crate::machine::{with_unresolved, EventView, PhaseView, State};
use crate::record::RecordView;
use crate::soundness::{
    extends, lemma_extends_chain, lemma_extends_with_unresolved, lemma_read, lemma_step_extends,
    lemma_step_wf,
};
use crate::world::{lemma_replay_wf, replay};

verus! {

/// The modules read during a replay, in the order in which they were read.
/// A module is read when the answer to its `Load` request comes.
pub open spec fn reads(s: State, events: Seq<EventView>) -> Seq<Seq<char>>
    decreases events.len(),
{
    if events.len() == 0 {
        Seq::empty()
    } else {
        let rest = reads(s.step(events[0]), events.drop_first());
        match (s.phase, events[0]) {
            (PhaseView::Loading { path }, EventView::Imports(_)) => seq![path] + rest,
            _ => rest,
        }
    }
}

/// Whether the module at `path` has a terminal record.
pub open spec fn is_read(map: Seq<EntryView>, path: Seq<char>) -> bool {
    lookup(map, IdentityView::Resolved(path)) matches Some(record) && record.is_terminal()
}

/// Discovering an identity makes no module read.
proof fn lemma_with_new_reads_nothing(
    list: Seq<EntryView>,
    id: IdentityView,
    record: RecordView,
    path: Seq<char>,
)
    requires
        distinct(list),
        record is Queued || id is Unresolved,
        is_read(with_new(list, id, record), path),
    ensures
        is_read(list, path),
{
    lemma_with_new(list, id, record);
    let other = IdentityView::Resolved(path);
    if other != id {
        assert(known(with_new(list, id, record), other) == known(list, other));
    }
}

/// Recording bare names as not found makes no module read.
proof fn lemma_with_unresolved_reads_nothing(
    list: Seq<EntryView>,
    names: Seq<Seq<char>>,
    path: Seq<char>,
)
    requires
        distinct(list),
        is_read(with_unresolved(list, names), path),
    ensures
        is_read(list, path),
    decreases names.len(),
{
    if names.len() > 0 {
        let rest = with_unresolved(list, names.drop_last());
        let id = IdentityView::Unresolved(names.last());
        lemma_extends_with_unresolved(list, names.drop_last());
        lemma_with_new(rest, id, RecordView::NotFound);
        lemma_with_new_reads_nothing(rest, id, RecordView::NotFound, path);
        lemma_with_unresolved_reads_nothing(list, names.drop_last(), path);
    }
}

/// A transition makes a module read only by answering its `Load` request.
pub proof fn lemma_step_reads(s: State, event: EventView, path: Seq<char>)
    requires
        s.wf(),
        !is_read(s.map, path),
        is_read(s.step(event).map, path),
    ensures
        s.phase == (PhaseView::Loading { path }),
        event is Imports,
{
    match (s.phase, event) {
        (PhaseView::Seeding { next }, EventView::Located(Some(found))) => {
            lemma_with_new_reads_nothing(
                s.map,
                IdentityView::Resolved(found),
                RecordView::Queued,
                path,
            );
        },
        (PhaseView::Loading { path: loading }, EventView::Imports(Ok(names))) => {
            let id = IdentityView::Resolved(loading);
            let read = settled(s.map, id, RecordView::Found(names));
            lemma_settled(s.map, id, RecordView::Found(names));
            if names.len() > 0 && s.dirs.len() == 0 {
                lemma_with_unresolved_reads_nothing(read, names, path);
            }
            assert(is_read(read, path));
        },
        (PhaseView::Loading { path: loading }, EventView::Imports(Err(failure))) => {
            lemma_settled(s.map, IdentityView::Resolved(loading), RecordView::Invalid(failure));
        },
        (PhaseView::Probing { names, name, dir }, EventView::Located(Some(found))) => {
            lemma_with_new_reads_nothing(
                s.map,
                IdentityView::Resolved(found),
                RecordView::Queued,
                path,
            );
        },
        (PhaseView::Probing { names, name, dir }, EventView::Located(None)) => {
            if dir + 1 >= s.dirs.len() {
                lemma_with_new_reads_nothing(
                    s.map,
                    IdentityView::Unresolved(names[name]),
                    RecordView::NotFound,
                    path,
                );
            }
        },
        _ => {},
    }
}

/// The answer to a `Load` request makes the record of that module terminal.
pub proof fn lemma_load_reads(s: State, event: EventView)
    requires
        s.wf(),
        s.phase is Loading,
        event is Imports,
    ensures
        !is_read(s.map, s.phase->Loading_path),
        is_read(s.step(event).map, s.phase->Loading_path),
{
    let path = s.phase->Loading_path;
    let id = IdentityView::Resolved(path);
    assert(s.queue.push(path)[s.queue.len() as int] == path);
    match event {
        EventView::Imports(Ok(names)) => {
            let record = RecordView::Found(names);
            lemma_read(s.map, s.queue, path, record);
            let read = settled(s.map, id, record);
            lemma_settled(s.map, id, record);
            lemma_extends_with_unresolved(read, names);
            assert(known(read, id));
        },
        EventView::Imports(Err(failure)) => {
            lemma_read(s.map, s.queue, path, RecordView::Invalid(failure));
        },
        _ => {},
    }
}

/// What is read stays read, with the record it has.
pub proof fn lemma_replay_extends(s: State, events: Seq<EventView>)
    requires
        s.wf(),
    ensures
        extends(s.map, replay(s, events).map),
    decreases events.len(),
{
    if events.len() > 0 {
        let after = s.step(events[0]);
        lemma_step_wf(s, events[0]);
        lemma_step_extends(s, events[0]);
        lemma_replay_extends(after, events.drop_first());
        lemma_extends_chain(s.map, after.map, replay(s, events).map);
    } else {
        lemma_extends_chain(s.map, s.map, s.map);
    }
}

/// A module that is read already is not read again.
pub proof fn lemma_not_again(s: State, events: Seq<EventView>, path: Seq<char>)
    requires
        s.wf(),
        is_read(s.map, path),
    ensures
        !reads(s, events).contains(path),
    decreases events.len(),
{
    if events.len() > 0 {
        let after = s.step(events[0]);
        let rest = reads(after, events.drop_first());
        lemma_step_wf(s, events[0]);
        lemma_step_extends(s, events[0]);
        assert(known(s.map, IdentityView::Resolved(path)));
        lemma_not_again(after, events.drop_first(), path);
        if s.phase is Loading && events[0] is Imports {
            let loading = s.phase->Loading_path;
            lemma_load_reads(s, events[0]);
            let all = seq![loading] + rest;
            if all.contains(path) {
                let k = all.index_of(path);
                if k > 0 {
                    assert(rest[k - 1] == path);
                }
            }
        }
    }
}

/// No module is read twice.
pub proof fn lemma_reads_once(s: State, events: Seq<EventView>)
    requires
        s.wf(),
    ensures
        reads(s, events).no_duplicates(),
    decreases events.len(),
{
    if events.len() > 0 {
        let after = s.step(events[0]);
        let rest = reads(after, events.drop_first());
        lemma_step_wf(s, events[0]);
        lemma_reads_once(after, events.drop_first());
        if s.phase is Loading && events[0] is Imports {
            let loading = s.phase->Loading_path;
            lemma_load_reads(s, events[0]);
            lemma_not_again(after, events.drop_first(), loading);
            let all = seq![loading] + rest;
            assert forall|i: int, j: int| 0 <= i < j < all.len() implies all[i] != all[j] by {
                assert(all[j] == rest[j - 1]);
                if i > 0 {
                    assert(all[i] == rest[i - 1]);
                }
            }
        }
    }
}

/// A module that has a terminal record after a replay had it before, or was
/// read during the replay.
pub proof fn lemma_read_was_visited(s: State, events: Seq<EventView>, path: Seq<char>)
    requires
        s.wf(),
        is_read(replay(s, events).map, path),
    ensures
        is_read(s.map, path) || reads(s, events).contains(path),
    decreases events.len(),
{
    if events.len() > 0 {
        let after = s.step(events[0]);
        let rest = reads(after, events.drop_first());
        lemma_step_wf(s, events[0]);
        lemma_read_was_visited(after, events.drop_first(), path);
        if rest.contains(path) {
            let k = rest.index_of(path);
            if s.phase is Loading && events[0] is Imports {
                assert((seq![s.phase->Loading_path] + rest)[k + 1] == path);
            }
        } else if !is_read(s.map, path) {
            lemma_step_reads(s, events[0], path);
            assert((seq![path] + rest)[0] == path);
        }
    }
}

/// A module that was read during a replay has a terminal record after it.
pub proof fn lemma_visited_is_read(s: State, events: Seq<EventView>, path: Seq<char>)
    requires
        s.wf(),
        reads(s, events).contains(path),
    ensures
        is_read(replay(s, events).map, path),
    decreases events.len(),
{
    if events.len() > 0 {
        let after = s.step(events[0]);
        let rest = reads(after, events.drop_first());
        lemma_step_wf(s, events[0]);
        if rest.contains(path) {
            lemma_visited_is_read(after, events.drop_first(), path);
        } else {
            let all = reads(s, events);
            let k = all.index_of(path);
            assert(s.phase is Loading && events[0] is Imports);
            if k > 0 {
                assert(rest[k - 1] == path);
            }
            assert(path == s.phase->Loading_path);
            lemma_load_reads(s, events[0]);
            lemma_replay_extends(after, events.drop_first());
            assert(known(after.map, IdentityView::Resolved(path)));
        }
    }
}

/// Every discovered module is read exactly once. In a traversal that has
/// finished, whatever the answers were and whether or not the dependency
/// graph has cycles: no module was read twice; every path in the
/// classification was read and is recorded as found or as invalid; every
/// bare name is recorded as not found; nothing is left queued.
pub proof fn lemma_each_module_read_once(
    inputs: Seq<Seq<char>>,
    dirs: Seq<Seq<char>>,
    events: Seq<EventView>,
)
    requires
        replay(State::initial(inputs, dirs), events).phase is Finished,
    ensures
        reads(State::initial(inputs, dirs), events).no_duplicates(),
        forall|i: int|
            #![trigger replay(State::initial(inputs, dirs), events).map[i]]
            0 <= i < replay(State::initial(inputs, dirs), events).map.len() ==> {
                let entry = replay(State::initial(inputs, dirs), events).map[i];
                match entry.id {
                    IdentityView::Resolved(path) => (entry.record is Found
                        || entry.record is Invalid) && reads(
                        State::initial(inputs, dirs),
                        events,
                    ).contains(path),
                    IdentityView::Unresolved(name) => entry.record is NotFound,
                }
            },
        forall|path: Seq<char>| #[trigger]
            reads(State::initial(inputs, dirs), events).contains(path) ==> is_read(
                replay(State::initial(inputs, dirs), events).map,
                path,
            ),
{
    let start = State::initial(inputs, dirs);
    let end = replay(start, events);
    assert(start.queue.no_duplicates());
    assert(start.wf());
    lemma_replay_wf(start, events);
    lemma_reads_once(start, events);
    assert forall|i: int| #![trigger end.map[i]] 0 <= i < end.map.len() implies {
        let entry = end.map[i];
        match entry.id {
            IdentityView::Resolved(path) => (entry.record is Found || entry.record is Invalid)
                && reads(start, events).contains(path),
            IdentityView::Unresolved(name) => entry.record is NotFound,
        }
    } by {
        let entry = end.map[i];
        if entry.record is Queued {
            assert(end.queue.contains(entry.id.text()));
        }
        match entry.id {
            IdentityView::Resolved(path) => {
                lemma_slot_unique(end.map, i);
                assert(is_read(end.map, path));
                lemma_read_was_visited(start, events, path);
                assert(!known(start.map, IdentityView::Resolved(path)));
            },
            IdentityView::Unresolved(name) => {},
        }
    }
    assert forall|path: Seq<char>| #[trigger] reads(start, events).contains(path) implies is_read(
        end.map,
        path,
    ) by {
        lemma_visited_is_read(start, events, path);
    }
}

/// Recording bare names as not found brings no path into the listing.
proof fn lemma_with_unresolved_adds_no_path(
    list: Seq<EntryView>,
    names: Seq<Seq<char>>,
    path: Seq<char>,
)
    requires
        distinct(list),
    ensures
        known(with_unresolved(list, names), IdentityView::Resolved(path)) == known(
            list,
            IdentityView::Resolved(path),
        ),
    decreases names.len(),
{
    if names.len() > 0 {
        lemma_extends_with_unresolved(list, names.drop_last());
        lemma_with_unresolved_adds_no_path(list, names.drop_last(), path);
        lemma_with_new(
            with_unresolved(list, names.drop_last()),
            IdentityView::Unresolved(names.last()),
            RecordView::NotFound,
        );
    }
}

/// A transition brings a path into the classification only when the file
/// system answers with that path.
pub proof fn lemma_step_adds_located(s: State, event: EventView, path: Seq<char>)
    requires
        s.wf(),
        !known(s.map, IdentityView::Resolved(path)),
        known(s.step(event).map, IdentityView::Resolved(path)),
    ensures
        event == EventView::Located(Some(path)),
{
    let wanted = IdentityView::Resolved(path);
    match (s.phase, event) {
        (PhaseView::Seeding { next }, EventView::Located(Some(found))) => {
            lemma_with_new(s.map, IdentityView::Resolved(found), RecordView::Queued);
        },
        (PhaseView::Loading { path: loading }, EventView::Imports(Ok(names))) => {
            let id = IdentityView::Resolved(loading);
            lemma_settled(s.map, id, RecordView::Found(names));
            lemma_with_unresolved_adds_no_path(
                settled(s.map, id, RecordView::Found(names)),
                names,
                path,
            );
        },
        (PhaseView::Loading { path: loading }, EventView::Imports(Err(failure))) => {
            lemma_settled(s.map, IdentityView::Resolved(loading), RecordView::Invalid(failure));
        },
        (PhaseView::Probing { names, name, dir }, EventView::Located(Some(found))) => {
            lemma_with_new(s.map, IdentityView::Resolved(found), RecordView::Queued);
        },
        (PhaseView::Probing { names, name, dir }, EventView::Located(None)) => {
            lemma_with_new(
                s.map,
                IdentityView::Unresolved(names[name]),
                RecordView::NotFound,
            );
        },
        _ => {},
    }
}

/// A path is classified only if the file system located it. A path that no
/// answer names, such as an initial input that does not exist, is no key of
/// the classification, at any time.
pub proof fn lemma_unlocated_never_classified(
    s: State,
    events: Seq<EventView>,
    path: Seq<char>,
)
    requires
        s.wf(),
        !known(s.map, IdentityView::Resolved(path)),
        !events.contains(EventView::Located(Some(path))),
    ensures
        !known(replay(s, events).map, IdentityView::Resolved(path)),
    decreases events.len(),
{
    if events.len() > 0 {
        let after = s.step(events[0]);
        let rest = events.drop_first();
        lemma_step_wf(s, events[0]);
        if known(after.map, IdentityView::Resolved(path)) {
            lemma_step_adds_located(s, events[0], path);
        }
        if rest.contains(EventView::Located(Some(path))) {
            let k = rest.index_of(EventView::Located(Some(path)));
            assert(events[k + 1] == rest[k]);
        }
        lemma_unlocated_never_classified(after, rest, path);
    }
}

} // verus!
