//! What a finished traversal holds: the modules that can be reached from
//! the inputs through resolved dependencies, each with what it declares,
//! and the names that no directory holds.

use vstd::prelude::*;
use crate::classification::{
    known, lemma_settled, lemma_slot_unique, lemma_with_new, settled, slot, with_new, EntryView,
};
use crate::identity::IdentityView;
use crate::machine::{with_unresolved, EventView, PhaseView, State};
use crate::progress::{keys_within, lemma_keys_with_new, lemma_keys_with_unresolved};
use crate::record::RecordView;
use crate::resolver::{lemma_first_hit_wins, lemma_no_hit};
use crate::soundness::{
    extends, lemma_awaits_known, lemma_extends_with_unresolved, lemma_step_extends, lemma_step_wf,
};
use crate::world::World;

verus! {

/// Whether the classification holds what `name` resolves to: the file, or
/// the bare name where no directory holds it.
pub open spec fn recorded(
    world: World,
    dirs: Seq<Seq<char>>,
    map: Seq<EntryView>,
    name: Seq<char>,
) -> bool {
    match world.resolve(dirs, name) {
        Some(path) => known(map, IdentityView::Resolved(path)),
        None => known(map, IdentityView::Unresolved(name)),
    }
}

/// Whether every record of a module that was read says what the file system
/// says of that module.
pub open spec fn truthful(world: World, map: Seq<EntryView>) -> bool {
    forall|i: int|
        0 <= i < map.len() ==> match (#[trigger] map[i]).record {
            RecordView::Found(names) => (world.imports)(map[i].id.text()) == Ok::<
                Seq<Seq<char>>,
                crate::record::FailureView,
            >(names),
            RecordView::Invalid(failure) => (world.imports)(map[i].id.text()) == Err::<
                Seq<Seq<char>>,
                crate::record::FailureView,
            >(failure),
            _ => true,
        }
}

/// Whether entry `i` is a found module and `j` a position in its list of
/// dependency names.
pub open spec fn declares(map: Seq<EntryView>, i: int, j: int) -> bool {
    0 <= i < map.len() && map[i].record is Found && 0 <= j < map[i].record->Found_0.len()
}

/// Whether the name at `j` of entry `i` is among those that the traversal
/// is resolving and has not come to yet.
pub open spec fn pending(s: State, i: int, j: int) -> bool {
    s.phase matches PhaseView::Probing { names, name, dir } && names == s.map[i].record->Found_0
        && j >= name
}

/// Whether every declared name is recorded or still pending.
pub open spec fn expanded(world: World, s: State) -> bool {
    forall|i: int, j: int| #[trigger]
        declares(s.map, i, j) ==> recorded(world, s.dirs, s.map, s.map[i].record->Found_0[j])
            || pending(s, i, j)
}

/// Whether the names being resolved are those of a module that was found,
/// and the directories asked so far do not hold the name asked for.
pub open spec fn probing_sound(world: World, s: State) -> bool {
    s.phase matches PhaseView::Probing { names, name, dir } ==> {
        &&& exists|i: int|
            0 <= i < s.map.len() && (#[trigger] s.map[i]).record == RecordView::Found(names)
        &&& forall|k: int| 0 <= k < dir ==> (world.probe)(#[trigger] s.dirs[k], names[name]) is None
    }
}

/// How many inputs were located.
pub open spec fn inputs_done(s: State) -> int {
    match s.phase {
        PhaseView::Seeding { next } => next,
        _ => s.inputs.len() as int,
    }
}

/// Whether every input that was located and exists is classified.
pub open spec fn inputs_known(world: World, s: State) -> bool {
    forall|k: int|
        0 <= k < inputs_done(s) ==> ((world.canon)(#[trigger] s.inputs[k]) matches Some(path)
            ==> known(s.map, IdentityView::Resolved(path)))
}

/// What holds of every state of a traversal in a given file system, on top
/// of its invariant.
pub open spec fn faithful(world: World, s: State) -> bool {
    &&& s.wf()
    &&& truthful(world, s.map)
    &&& expanded(world, s)
    &&& probing_sound(world, s)
    &&& inputs_known(world, s)
}

/// The record that an answer to a `Load` request leaves.
pub open spec fn record_of(event: EventView) -> RecordView {
    match event {
        EventView::Imports(Ok(names)) => RecordView::Found(names),
        EventView::Imports(Err(failure)) => RecordView::Invalid(failure),
        _ => RecordView::Queued,
    }
}

/// Recording bare names keeps the entries that were there, adds `NotFound`
/// entries only, and makes every one of the names known.
pub proof fn lemma_with_unresolved_entries(list: Seq<EntryView>, names: Seq<Seq<char>>)
    requires
        crate::classification::distinct(list),
    ensures
        with_unresolved(list, names).len() >= list.len(),
        forall|i: int| 0 <= i < list.len() ==> #[trigger] with_unresolved(list, names)[i] == list[i],
        forall|i: int|
            list.len() <= i < with_unresolved(list, names).len() ==> (#[trigger] with_unresolved(
                list,
                names,
            )[i]).record is NotFound,
        forall|j: int|
            0 <= j < names.len() ==> known(
                with_unresolved(list, names),
                IdentityView::Unresolved(#[trigger] names[j]),
            ),
        forall|i: int|
            list.len() <= i < with_unresolved(list, names).len() ==> exists|j: int|
                0 <= j < names.len() && (#[trigger] with_unresolved(list, names)[i]).id
                    == IdentityView::Unresolved(#[trigger] names[j]),
    decreases names.len(),
{
    if names.len() > 0 {
        let rest = with_unresolved(list, names.drop_last());
        let id = IdentityView::Unresolved(names.last());
        lemma_with_unresolved_entries(list, names.drop_last());
        lemma_extends_with_unresolved(list, names.drop_last());
        lemma_with_new(rest, id, RecordView::NotFound);
        let all = with_unresolved(list, names);
        assert forall|i: int| list.len() <= i < all.len() implies exists|j: int|
            0 <= j < names.len() && (#[trigger] all[i]).id == IdentityView::Unresolved(
                #[trigger] names[j],
            ) by {
            if i < rest.len() {
                let j = choose|j: int|
                    0 <= j < names.drop_last().len() && (#[trigger] rest[i]).id
                        == IdentityView::Unresolved(#[trigger] names.drop_last()[j]);
                assert(names[j] == names.drop_last()[j]);
                assert(all[i] == rest[i]);
            } else {
                assert(all[i].id == IdentityView::Unresolved(names[names.len() - 1]));
            }
        }
        assert forall|j: int| 0 <= j < names.len() implies known(
            all,
            IdentityView::Unresolved(#[trigger] names[j]),
        ) by {
            if j < names.len() - 1 {
                assert(names.drop_last()[j] == names[j]);
                assert(known(rest, IdentityView::Unresolved(names[j])));
            }
        }
    }
}

/// A transition keeps every entry where it is and as it is, but for the
/// entry of the module whose `Load` request it answers, which gets the
/// record of the answer. What it adds is `Queued` or `NotFound`.
pub proof fn lemma_step_entries(s: State, event: EventView)
    requires
        s.wf(),
    ensures
        s.step(event).inputs == s.inputs,
        s.step(event).dirs == s.dirs,
        s.step(event).map.len() >= s.map.len(),
        forall|i: int|
            0 <= i < s.map.len() ==> (#[trigger] s.step(event).map[i]).id == s.map[i].id,
        forall|i: int|
            0 <= i < s.map.len() ==> (#[trigger] s.step(event).map[i]).record == s.map[i].record
                || (s.phase is Loading && event is Imports && s.map[i].id == IdentityView::Resolved(
                s.phase->Loading_path,
            ) && s.map[i].record is Queued && s.step(event).map[i].record == record_of(event)),
        forall|i: int|
            s.map.len() <= i < s.step(event).map.len() ==> (#[trigger] s.step(event).map[i]).record
                is Queued || s.step(event).map[i].record is NotFound,
{
    match (s.phase, event) {
        (PhaseView::Loading { path }, EventView::Imports(Ok(names))) => {
            let id = IdentityView::Resolved(path);
            lemma_settled(s.map, id, RecordView::Found(names));
            lemma_with_unresolved_entries(settled(s.map, id, RecordView::Found(names)), names);
        },
        (PhaseView::Loading { path }, EventView::Imports(Err(failure))) => {
            lemma_settled(s.map, IdentityView::Resolved(path), RecordView::Invalid(failure));
        },
        _ => {},
    }
}

/// What is recorded stays recorded.
pub proof fn lemma_recorded_stays(
    world: World,
    dirs: Seq<Seq<char>>,
    before: Seq<EntryView>,
    after: Seq<EntryView>,
    name: Seq<char>,
)
    requires
        extends(before, after),
        recorded(world, dirs, before, name),
    ensures
        recorded(world, dirs, after, name),
{
    match world.resolve(dirs, name) {
        Some(path) => {
            assert(known(before, IdentityView::Resolved(path)));
        },
        None => {
            assert(known(before, IdentityView::Unresolved(name)));
        },
    }
}

/// Once the directories were asked for a name up to the first that holds
/// it, or all of them in vain, what the name resolves to is recorded.
pub proof fn lemma_probe_records(world: World, s: State)
    requires
        faithful(world, s),
        s.phase is Probing,
        (world.probe)(s.dirs[s.phase->Probing_dir], s.phase->Probing_names[s.phase->Probing_name])
            is Some || s.phase->Probing_dir + 1 >= s.dirs.len(),
    ensures
        recorded(
            world,
            s.dirs,
            world.next(s).map,
            s.phase->Probing_names[s.phase->Probing_name],
        ),
{
    let names = s.phase->Probing_names;
    let name = names[s.phase->Probing_name];
    let dir = s.phase->Probing_dir;
    match (world.probe)(s.dirs[dir], name) {
        Some(path) => {
            lemma_first_hit_wins(world, s.dirs, name, 0, dir);
            lemma_with_new(s.map, IdentityView::Resolved(path), RecordView::Queued);
        },
        None => {
            assert forall|k: int| 0 <= k < s.dirs.len() implies (world.probe)(
                #[trigger] s.dirs[k],
                name,
            ) is None by {
                if k == dir {
                }
            }
            lemma_no_hit(world, s.dirs, name, 0);
            lemma_with_new(s.map, IdentityView::Unresolved(name), RecordView::NotFound);
        },
    }
}

/// Every answer of the file system keeps the traversal faithful to it.
pub proof fn lemma_next_faithful(world: World, s: State)
    requires
        faithful(world, s),
    ensures
        faithful(world, world.next(s)),
{
    let event = world.answer(s.action());
    let t = world.next(s);
    lemma_step_wf(s, event);
    lemma_step_extends(s, event);
    lemma_step_entries(s, event);
    assert(truthful(world, t.map)) by {
        assert forall|i: int| 0 <= i < t.map.len() implies match (#[trigger] t.map[i]).record {
            RecordView::Found(names) => (world.imports)(t.map[i].id.text()) == Ok::<
                Seq<Seq<char>>,
                crate::record::FailureView,
            >(names),
            RecordView::Invalid(failure) => (world.imports)(t.map[i].id.text()) == Err::<
                Seq<Seq<char>>,
                crate::record::FailureView,
            >(failure),
            _ => true,
        } by {
            if i < s.map.len() {
                assert(t.map[i].id == s.map[i].id);
                if t.map[i].record == s.map[i].record {
                    assert(s.map[i].record == s.map[i].record);
                }
            }
        }
    }
    assert(inputs_known(world, t)) by {
        assert forall|k: int| 0 <= k < inputs_done(t) implies ((world.canon)(
            #[trigger] t.inputs[k],
        ) matches Some(path) ==> known(t.map, IdentityView::Resolved(path))) by {
            if (world.canon)(s.inputs[k]) is Some {
                let path = (world.canon)(s.inputs[k])->Some_0;
                if k < inputs_done(s) {
                    assert(known(s.map, IdentityView::Resolved(path)));
                } else {
                    lemma_with_new(s.map, IdentityView::Resolved(path), RecordView::Queued);
                }
            }
        }
    }
    assert(probing_sound(world, t)) by {
        if t.phase is Probing {
            let names = t.phase->Probing_names;
            match s.phase {
                PhaseView::Loading { path } => {
                    let id = IdentityView::Resolved(path);
                    assert(s.queue.push(path)[s.queue.len() as int] == path);
                    lemma_awaits_known(s.map, path);
                    let k = slot(s.map, id);
                    lemma_settled(s.map, id, RecordView::Found(names));
                    assert(t.map[k].record == RecordView::Found(names));
                },
                PhaseView::Probing { names: old, name, dir } => {
                    let i = choose|i: int|
                        0 <= i < s.map.len() && (#[trigger] s.map[i]).record == RecordView::Found(
                            old,
                        );
                    assert(t.map[i].record == RecordView::Found(names));
                },
                _ => {},
            }
        }
    }
    assert(expanded(world, t)) by {
        assert forall|i: int, j: int| #[trigger] declares(t.map, i, j) implies recorded(
            world,
            t.dirs,
            t.map,
            t.map[i].record->Found_0[j],
        ) || pending(t, i, j) by {
            let names = t.map[i].record->Found_0;
            assert(i < s.map.len());
            if t.map[i].record == s.map[i].record {
                assert(declares(s.map, i, j));
                if recorded(world, s.dirs, s.map, names[j]) {
                    lemma_recorded_stays(world, s.dirs, s.map, t.map, names[j]);
                } else {
                    assert(pending(s, i, j));
                    let at = s.phase->Probing_name;
                    let dir = s.phase->Probing_dir;
                    if (world.probe)(s.dirs[dir], names[at]) is Some || dir + 1 >= s.dirs.len() {
                        lemma_probe_records(world, s);
                    }
                }
            } else {
                if s.dirs.len() == 0 {
                    let path = s.phase->Loading_path;
                    let id = IdentityView::Resolved(path);
                    lemma_settled(s.map, id, RecordView::Found(names));
                    lemma_with_unresolved_entries(
                        settled(s.map, id, RecordView::Found(names)),
                        names,
                    );
                    assert(world.resolve(s.dirs, names[j]) is None);
                }
            }
        }
    }
}

/// The traversal starts out faithful, and every run keeps it so.
pub proof fn lemma_run_faithful(world: World, s: State, n: nat)
    requires
        faithful(world, s),
    ensures
        faithful(world, world.run(s, n)),
    decreases n,
{
    if n > 0 {
        lemma_next_faithful(world, s);
        lemma_run_faithful(world, world.next(s), (n - 1) as nat);
    }
}

/// What the dependency at position `j` of the module at `path` resolves
/// to, where the module can be read, declares that many names, and some
/// directory holds the name.
pub open spec fn target(world: World, dirs: Seq<Seq<char>>, path: Seq<char>, j: int) -> Option<
    Seq<char>,
> {
    match (world.imports)(path) {
        Ok(names) => if 0 <= j < names.len() {
            world.resolve(dirs, names[j])
        } else {
            None
        },
        Err(failure) => None,
    }
}

/// Whether a set of paths holds, with every module, what its dependencies
/// resolve to.
pub open spec fn closed(world: World, dirs: Seq<Seq<char>>, set: Set<Seq<char>>) -> bool {
    forall|path: Seq<char>, j: int|
        set.contains(path) && (#[trigger] target(world, dirs, path, j)) is Some ==> set.contains(
            target(world, dirs, path, j)->Some_0,
        )
}

/// Whether a set of paths holds the canonical path of every input that
/// exists.
pub open spec fn holds_inputs(world: World, inputs: Seq<Seq<char>>, set: Set<Seq<char>>) -> bool {
    forall|k: int|
        0 <= k < inputs.len() ==> ((world.canon)(#[trigger] inputs[k]) matches Some(path)
            ==> set.contains(path))
}

/// The paths that a classification holds.
pub open spec fn paths(map: Seq<EntryView>) -> Set<Seq<char>> {
    Set::new(|path: Seq<char>| known(map, IdentityView::Resolved(path)))
}

/// Whether every bare name in the classification is a name that a found
/// module declares and that no directory holds.
pub open spec fn unresolved_declared(world: World, s: State) -> bool {
    forall|i: int|
        0 <= i < s.map.len() && (#[trigger] s.map[i]).id is Unresolved ==> {
            &&& world.resolve(s.dirs, s.map[i].id.text()) is None
            &&& exists|m: int, j: int| #[trigger]
                declares(s.map, m, j) && s.map[m].record->Found_0[j] == s.map[i].id.text()
        }
}

/// An answer of the file system brings into the classification only paths
/// of every closed set that holds the inputs, and only bare names that a
/// found module declares and no directory holds.
pub proof fn lemma_next_within(world: World, set: Set<Seq<char>>, s: State)
    requires
        faithful(world, s),
        closed(world, s.dirs, set),
        holds_inputs(world, s.inputs, set),
        keys_within(s.map, set),
        unresolved_declared(world, s),
    ensures
        keys_within(world.next(s).map, set),
        unresolved_declared(world, world.next(s)),
{
    let event = world.answer(s.action());
    let t = world.next(s);
    lemma_step_wf(s, event);
    lemma_step_entries(s, event);
    lemma_next_faithful(world, s);
    match (s.phase, event) {
        (PhaseView::Seeding { next }, EventView::Located(Some(path))) => {
            assert((world.canon)(s.inputs[next]) == Some(path));
            lemma_keys_with_new(s.map, set, IdentityView::Resolved(path), RecordView::Queued);
        },
        (PhaseView::Loading { path }, EventView::Imports(Ok(names))) => {
            let id = IdentityView::Resolved(path);
            let read = settled(s.map, id, RecordView::Found(names));
            lemma_settled(s.map, id, RecordView::Found(names));
            assert(keys_within(read, set)) by {
                assert forall|i: int| 0 <= i < read.len() && (#[trigger] read[i]).id is Resolved implies set.contains(
                    read[i].id.text(),
                ) by {
                    assert(read[i].id == s.map[i].id);
                }
            }
            lemma_keys_with_unresolved(read, set, names);
            lemma_with_unresolved_entries(read, names);
        },
        (PhaseView::Loading { path }, EventView::Imports(Err(failure))) => {
            let id = IdentityView::Resolved(path);
            let read = settled(s.map, id, RecordView::Invalid(failure));
            lemma_settled(s.map, id, RecordView::Invalid(failure));
            assert forall|i: int| 0 <= i < read.len() && (#[trigger] read[i]).id is Resolved implies set.contains(
                read[i].id.text(),
            ) by {
                assert(read[i].id == s.map[i].id);
            }
        },
        (PhaseView::Probing { names, name, dir }, EventView::Located(Some(path))) => {
            let m = choose|m: int|
                0 <= m < s.map.len() && (#[trigger] s.map[m]).record == RecordView::Found(names);
            lemma_first_hit_wins(world, s.dirs, names[name], 0, dir);
            assert(s.map[m].id is Resolved);
            assert(set.contains(s.map[m].id.text()));
            assert(target(world, s.dirs, s.map[m].id.text(), name) == Some(path));
            lemma_keys_with_new(s.map, set, IdentityView::Resolved(path), RecordView::Queued);
        },
        (PhaseView::Probing { names, name, dir }, EventView::Located(None)) => {
            lemma_keys_with_new(
                s.map,
                set,
                IdentityView::Unresolved(names[name]),
                RecordView::NotFound,
            );
        },
        _ => {},
    }
    assert forall|i: int| 0 <= i < t.map.len() && (#[trigger] t.map[i]).id is Unresolved implies {
        &&& world.resolve(t.dirs, t.map[i].id.text()) is None
        &&& exists|m: int, j: int| #[trigger]
            declares(t.map, m, j) && t.map[m].record->Found_0[j] == t.map[i].id.text()
    } by {
        if i < s.map.len() {
            assert(s.map[i].id is Unresolved);
            let (m, j) = choose|m: int, j: int| #[trigger]
                declares(s.map, m, j) && s.map[m].record->Found_0[j] == s.map[i].id.text();
            assert(t.map[m].record == s.map[m].record);
            assert(declares(t.map, m, j));
        } else {
            match (s.phase, event) {
                (PhaseView::Loading { path }, EventView::Imports(Ok(names))) => {
                    let id = IdentityView::Resolved(path);
                    let read = settled(s.map, id, RecordView::Found(names));
                    assert(s.queue.push(path)[s.queue.len() as int] == path);
                    lemma_awaits_known(s.map, path);
                    let m = slot(s.map, id);
                    lemma_settled(s.map, id, RecordView::Found(names));
                    lemma_with_unresolved_entries(read, names);
                    assert(s.dirs.len() == 0 && names.len() > 0);
                    let j = choose|j: int|
                        0 <= j < names.len() && (#[trigger] with_unresolved(read, names)[i]).id
                            == IdentityView::Unresolved(#[trigger] names[j]);
                    assert(t.map[m] == read[m]);
                    assert(declares(t.map, m, j));
                    assert(world.resolve(s.dirs, names[j]) is None);
                },
                (PhaseView::Probing { names, name, dir }, EventView::Located(None)) => {
                    let m = choose|m: int|
                        0 <= m < s.map.len() && (#[trigger] s.map[m]).record == RecordView::Found(
                            names,
                        );
                    assert(dir + 1 >= s.dirs.len());
                    assert forall|k: int| 0 <= k < s.dirs.len() implies (world.probe)(
                        #[trigger] s.dirs[k],
                        names[name],
                    ) is None by {}
                    lemma_no_hit(world, s.dirs, names[name], 0);
                    assert(t.map[m].record == s.map[m].record);
                    assert(declares(t.map, m, name));
                    assert(t.map[i].id == IdentityView::Unresolved(names[name]));
                },
                _ => {},
            }
        }
    }
}

/// The classification of a finished traversal is the closure of the
/// inputs. Its paths are the least set that holds every input that exists
/// and, with every module, what its dependencies resolve to: the paths are
/// such a set, and they lie in every such set. Every module is recorded
/// with what the file system says of it, and the bare names are the
/// declared names that no directory holds.
pub proof fn lemma_classification_is_the_closure(
    world: World,
    inputs: Seq<Seq<char>>,
    dirs: Seq<Seq<char>>,
    n: nat,
    set: Set<Seq<char>>,
)
    requires
        world.run(State::initial(inputs, dirs), n).phase is Finished,
        closed(world, dirs, set),
        holds_inputs(world, inputs, set),
    ensures
        ({
            let end = world.run(State::initial(inputs, dirs), n);
            &&& holds_inputs(world, inputs, paths(end.map))
            &&& closed(world, dirs, paths(end.map))
            &&& paths(end.map).subset_of(set)
            &&& truthful(world, end.map)
            &&& unresolved_declared(world, end)
            &&& forall|i: int, j: int| #[trigger]
                declares(end.map, i, j) ==> recorded(
                    world,
                    dirs,
                    end.map,
                    end.map[i].record->Found_0[j],
                )
        }),
{
    let start = State::initial(inputs, dirs);
    let end = world.run(start, n);
    assert(start.queue.no_duplicates());
    assert(faithful(world, start));
    assert(keys_within(start.map, set));
    assert(unresolved_declared(world, start));
    lemma_run_within(world, set, start, n);
    lemma_run_frame(world, start, n);
    assert forall|k: int| 0 <= k < inputs.len() implies ((world.canon)(
        #[trigger] inputs[k],
    ) matches Some(path) ==> paths(end.map).contains(path)) by {
        assert(end.inputs[k] == inputs[k]);
    }
    assert forall|path: Seq<char>| paths(end.map).contains(path) implies set.contains(path) by {
        let i = slot(end.map, IdentityView::Resolved(path));
        assert(end.map[i].id is Resolved);
    }
    assert forall|path: Seq<char>, j: int|
        paths(end.map).contains(path) && (#[trigger] target(world, dirs, path, j))
            is Some implies paths(end.map).contains(target(world, dirs, path, j)->Some_0) by {
        let i = slot(end.map, IdentityView::Resolved(path));
        assert(end.map[i].id == IdentityView::Resolved(path));
        if end.map[i].record is Queued {
            assert(end.queue.contains(end.map[i].id.text()));
        }
        assert(declares(end.map, i, j));
    }
}

/// The paths and bare names of the classification stay within what can be
/// reached, answer after answer.
pub proof fn lemma_run_within(world: World, set: Set<Seq<char>>, s: State, n: nat)
    requires
        faithful(world, s),
        closed(world, s.dirs, set),
        holds_inputs(world, s.inputs, set),
        keys_within(s.map, set),
        unresolved_declared(world, s),
    ensures
        faithful(world, world.run(s, n)),
        keys_within(world.run(s, n).map, set),
        unresolved_declared(world, world.run(s, n)),
    decreases n,
{
    if n > 0 {
        lemma_next_faithful(world, s);
        lemma_next_within(world, set, s);
        lemma_step_entries(s, world.answer(s.action()));
        lemma_run_within(world, set, world.next(s), (n - 1) as nat);
    }
}

/// No answer changes the inputs or the search directories.
pub proof fn lemma_run_frame(world: World, s: State, n: nat)
    requires
        s.wf(),
    ensures
        world.run(s, n).inputs == s.inputs,
        world.run(s, n).dirs == s.dirs,
    decreases n,
{
    if n > 0 {
        lemma_step_wf(s, world.answer(s.action()));
        lemma_step_entries(s, world.answer(s.action()));
        lemma_run_frame(world, world.next(s), (n - 1) as nat);
    }
}

} // verus!
