//! The resolver: where a dependency name is found among the search
//! directories, and that the traversal finds it there.
//!
//! The directories are asked in the order given, and the first that holds
//! the name decides: later ones are not asked. The asking itself is the
//! driver's; what is asked, in which order, and what follows from the
//! answers is decided by the traversal and proved here.

use vstd::prelude::*;
use crate::classification::{known, lemma_with_new, with_new};
use crate::identity::IdentityView;
use crate::machine::{ActionView, State};
use crate::record::RecordView;
use crate::soundness::lemma_step_wf;
use crate::world::World;

verus! {

impl World {
    /// Where `name` is found: under the first of the directories, from
    /// position `from` on, that holds it.
    pub open spec fn resolve_from(self, dirs: Seq<Seq<char>>, name: Seq<char>, from: int) -> Option<
        Seq<char>,
    >
        decreases dirs.len() - from,
    {
        if from < 0 || from >= dirs.len() {
            None
        } else {
            match (self.probe)(dirs[from], name) {
                Some(path) => Some(path),
                None => self.resolve_from(dirs, name, from + 1),
            }
        }
    }

    /// Where `name` is found: under the first directory that holds it.
    pub open spec fn resolve(self, dirs: Seq<Seq<char>>, name: Seq<char>) -> Option<Seq<char>> {
        self.resolve_from(dirs, name, 0)
    }

    /// How many directories are asked for `name`, from position `from` on:
    /// those up to the first that holds it.
    pub open spec fn probes_from(self, dirs: Seq<Seq<char>>, name: Seq<char>, from: int) -> nat
        decreases dirs.len() - from,
    {
        if from < 0 || from >= dirs.len() {
            0
        } else {
            match (self.probe)(dirs[from], name) {
                Some(path) => 1,
                None => 1 + self.probes_from(dirs, name, from + 1),
            }
        }
    }
}

/// The state after the dependency `names[name]` was resolved to `outcome`.
pub open spec fn resolved_name(
    s: State,
    names: Seq<Seq<char>>,
    name: int,
    outcome: Option<Seq<char>>,
) -> State {
    match outcome {
        Some(path) => s.discover(path).next_name(names, name),
        None => State {
            map: with_new(s.map, IdentityView::Unresolved(names[name]), RecordView::NotFound),
            ..s
        }.next_name(names, name),
    }
}

/// Directory precedence. A name is resolved to the file under the first
/// directory that holds it, whatever later directories hold.
pub proof fn lemma_first_hit_wins(
    world: World,
    dirs: Seq<Seq<char>>,
    name: Seq<char>,
    from: int,
    hit: int,
)
    requires
        0 <= from <= hit < dirs.len(),
        (world.probe)(dirs[hit], name) is Some,
        forall|k: int| from <= k < hit ==> (world.probe)(#[trigger] dirs[k], name) is None,
    ensures
        world.resolve_from(dirs, name, from) == (world.probe)(dirs[hit], name),
        world.probes_from(dirs, name, from) == hit - from + 1,
    decreases hit - from,
{
    if from < hit {
        assert((world.probe)(dirs[from], name) is None);
        lemma_first_hit_wins(world, dirs, name, from + 1, hit);
    }
}

/// A name that no directory holds is resolved to nothing, after every
/// directory was asked.
pub proof fn lemma_no_hit(world: World, dirs: Seq<Seq<char>>, name: Seq<char>, from: int)
    requires
        0 <= from <= dirs.len(),
        forall|k: int| from <= k < dirs.len() ==> (world.probe)(#[trigger] dirs[k], name) is None,
    ensures
        world.resolve_from(dirs, name, from) is None,
        world.probes_from(dirs, name, from) == dirs.len() - from,
    decreases dirs.len() - from,
{
    if from < dirs.len() {
        assert((world.probe)(dirs[from], name) is None);
        lemma_no_hit(world, dirs, name, from + 1);
    }
}

/// The traversal resolves a name as [`World::resolve_from`] says. From a
/// state that probes for a name, it asks the directories in order, stops at
/// the first that holds the name, and records that file, or the bare name
/// where none holds it.
pub proof fn lemma_probing_resolves(world: World, s: State)
    requires
        s.wf(),
        s.phase is Probing,
    ensures
        ({
            let names = s.phase->Probing_names;
            let name = s.phase->Probing_name;
            let dir = s.phase->Probing_dir;
            let probes = world.probes_from(s.dirs, names[name], dir);
            &&& probes >= 1
            &&& world.run(s, probes) == resolved_name(
                s,
                names,
                name,
                world.resolve_from(s.dirs, names[name], dir),
            )
            &&& forall|j: nat|
                j < probes ==> (#[trigger] world.run(s, j)).action() == (ActionView::Probe {
                    dir: s.dirs[dir + j],
                    name: names[name],
                })
        }),
    decreases s.dirs.len() - s.phase->Probing_dir,
{
    let names = s.phase->Probing_names;
    let name = s.phase->Probing_name;
    let dir = s.phase->Probing_dir;
    let probes = world.probes_from(s.dirs, names[name], dir);
    let after = world.next(s);
    assert(world.run(s, 0) == s);
    assert(world.run(after, 0) == after);
    assert(world.run(s, 1) == after);
    match (world.probe)(s.dirs[dir], names[name]) {
        Some(path) => {
            assert forall|j: nat| j < probes implies (#[trigger] world.run(s, j)).action() == (
            ActionView::Probe { dir: s.dirs[dir + j], name: names[name] }) by {
                assert(j == 0);
            }
        },
        None => {
            if dir + 1 < s.dirs.len() {
                lemma_step_wf(s, world.answer(s.action()));
                lemma_probing_resolves(world, after);
                let rest = world.probes_from(s.dirs, names[name], dir + 1);
                assert(probes == rest + 1);
                assert(world.run(s, probes) == world.run(after, rest));
                assert forall|j: nat| j < probes implies (#[trigger] world.run(s, j)).action()
                    == (ActionView::Probe { dir: s.dirs[dir + j], name: names[name] }) by {
                    if j > 0 {
                        let i = (j - 1) as nat;
                        assert(world.run(s, j) == world.run(after, i));
                        assert(world.run(after, i).action() == (ActionView::Probe {
                            dir: s.dirs[dir + 1 + i],
                            name: names[name],
                        }));
                    }
                }
            } else {
                assert(world.probes_from(s.dirs, names[name], dir + 1) == 0);
                assert(world.resolve_from(s.dirs, names[name], dir + 1) is None);
                assert forall|j: nat| j < probes implies (#[trigger] world.run(s, j)).action()
                    == (ActionView::Probe { dir: s.dirs[dir + j], name: names[name] }) by {
                    assert(j == 0);
                }
            }
        },
    }
}

/// Directory precedence in the traversal. Where several directories hold
/// the name that is being resolved, the traversal records the file under
/// the first of them, after asking exactly the directories up to that one.
pub proof fn lemma_earlier_directory_recorded(world: World, s: State, hit: int)
    requires
        s.wf(),
        s.phase is Probing,
        s.phase->Probing_dir <= hit < s.dirs.len(),
        (world.probe)(s.dirs[hit], s.phase->Probing_names[s.phase->Probing_name]) is Some,
        forall|k: int|
            s.phase->Probing_dir <= k < hit ==> (world.probe)(
                #[trigger] s.dirs[k],
                s.phase->Probing_names[s.phase->Probing_name],
            ) is None,
    ensures
        ({
            let name = s.phase->Probing_names[s.phase->Probing_name];
            let asked = (hit - s.phase->Probing_dir + 1) as nat;
            &&& world.probes_from(s.dirs, name, s.phase->Probing_dir) == asked
            &&& known(
                world.run(s, asked).map,
                IdentityView::Resolved((world.probe)(s.dirs[hit], name).unwrap()),
            )
        }),
{
    let names = s.phase->Probing_names;
    let name = names[s.phase->Probing_name];
    let path = (world.probe)(s.dirs[hit], name).unwrap();
    lemma_first_hit_wins(world, s.dirs, name, s.phase->Probing_dir, hit);
    lemma_probing_resolves(world, s);
    lemma_with_new(s.map, IdentityView::Resolved(path), RecordView::Queued);
}

} // verus!
