//! What the initial inputs come to, and that an input that does not exist
//! comes to nothing: the traversal with it is the traversal without it.

use vstd::prelude::*;
use crate::classification::EntryView;
use crate::machine::{ActionView, EventView, PhaseView, State};
use crate::world::{lemma_finished_stays, lemma_run_split, World};

verus! {

/// The canonical paths of the inputs that exist, in input order.
pub open spec fn located(world: World, inputs: Seq<Seq<char>>) -> Seq<Seq<char>>
    decreases inputs.len(),
{
    if inputs.len() == 0 {
        Seq::empty()
    } else {
        match (world.canon)(inputs.last()) {
            Some(path) => located(world, inputs.drop_last()).push(path),
            None => located(world, inputs.drop_last()),
        }
    }
}

/// The inputs that do not exist, in input order.
pub open spec fn missed(world: World, inputs: Seq<Seq<char>>) -> Seq<Seq<char>>
    decreases inputs.len(),
{
    if inputs.len() == 0 {
        Seq::empty()
    } else {
        match (world.canon)(inputs.last()) {
            Some(path) => missed(world, inputs.drop_last()),
            None => missed(world, inputs.drop_last()).push(inputs.last()),
        }
    }
}

/// The state after each of `paths` was discovered, in order.
pub open spec fn discovered(s: State, paths: Seq<Seq<char>>) -> State
    decreases paths.len(),
{
    if paths.len() == 0 {
        s
    } else {
        discovered(s, paths.drop_last()).discover(paths.last())
    }
}

/// The state in which the first `done` inputs were located and the next is
/// asked for.
pub open spec fn seeding(
    world: World,
    inputs: Seq<Seq<char>>,
    dirs: Seq<Seq<char>>,
    done: int,
) -> State {
    State {
        missing: missed(world, inputs.take(done)),
        phase: PhaseView::Seeding { next: done },
        ..discovered(State::initial(inputs, dirs), located(world, inputs.take(done)))
    }
}

/// The state in which every input was located and the first module, if
/// any, was taken off the queue.
pub open spec fn seeded(world: World, inputs: Seq<Seq<char>>, dirs: Seq<Seq<char>>) -> State {
    State {
        missing: missed(world, inputs),
        ..discovered(State::initial(inputs, dirs), located(world, inputs))
    }.dispatch()
}

/// Two states that have the same work before them: the same directories,
/// classification, queue and phase, and no input left to locate. They may
/// differ in the inputs they began with and in those they found missing.
pub open spec fn alike(s: State, t: State) -> bool {
    &&& s.dirs == t.dirs
    &&& s.map == t.map
    &&& s.queue == t.queue
    &&& s.phase == t.phase
    &&& !(s.phase is Seeding)
}

/// Discovering paths touches the classification and the queue alone.
pub proof fn lemma_discovered_frame(s: State, paths: Seq<Seq<char>>)
    ensures
        discovered(s, paths).inputs == s.inputs,
        discovered(s, paths).dirs == s.dirs,
        discovered(s, paths).missing == s.missing,
        discovered(s, paths).phase == s.phase,
    decreases paths.len(),
{
    if paths.len() > 0 {
        lemma_discovered_frame(s, paths.drop_last());
    }
}

/// What is discovered depends on the classification and the queue alone.
pub proof fn lemma_discovered_same(s: State, t: State, paths: Seq<Seq<char>>)
    requires
        s.map == t.map,
        s.queue == t.queue,
    ensures
        discovered(s, paths).map == discovered(t, paths).map,
        discovered(s, paths).queue == discovered(t, paths).queue,
    decreases paths.len(),
{
    if paths.len() > 0 {
        lemma_discovered_same(s, t, paths.drop_last());
    }
}

/// Discovering one more path is discovering the others first.
pub proof fn lemma_discovered_push(s: State, paths: Seq<Seq<char>>, path: Seq<char>)
    ensures
        discovered(s, paths.push(path)) == discovered(s, paths).discover(path),
{
    assert(paths.push(path).drop_last() =~= paths);
}

/// The answer for one input leads from locating it to locating the next,
/// or, after the last, to the first module.
pub proof fn lemma_seeding_step(
    world: World,
    inputs: Seq<Seq<char>>,
    dirs: Seq<Seq<char>>,
    done: int,
)
    requires
        0 <= done < inputs.len(),
    ensures
        seeding(world, inputs, dirs, done).action() == (ActionView::Canonicalize {
            path: inputs[done],
        }),
        done + 1 < inputs.len() ==> world.next(seeding(world, inputs, dirs, done)) == seeding(
            world,
            inputs,
            dirs,
            done + 1,
        ),
        done + 1 == inputs.len() ==> world.next(seeding(world, inputs, dirs, done)) == seeded(
            world,
            inputs,
            dirs,
        ),
{
    let start = State::initial(inputs, dirs);
    let s = seeding(world, inputs, dirs, done);
    let shorter = inputs.take(done);
    let longer = inputs.take(done + 1);
    let found = located(world, shorter);
    assert(longer.drop_last() =~= shorter);
    assert(longer.last() == inputs[done]);
    lemma_discovered_frame(start, found);
    lemma_discovered_frame(start, located(world, longer));
    let base = discovered(start, found);
    assert(s.inputs == inputs && s.dirs == dirs);
    let after = world.next(s);
    let moved = match (world.canon)(inputs[done]) {
        Some(path) => s.discover(path),
        None => State { missing: s.missing.push(inputs[done]), ..s },
    };
    assert(after == moved.next_input(done));
    match (world.canon)(inputs[done]) {
        Some(path) => {
            lemma_discovered_push(start, found, path);
            assert(located(world, longer) == found.push(path));
            assert(moved.map == base.discover(path).map);
            assert(moved.queue == base.discover(path).queue);
            assert(missed(world, longer) == missed(world, shorter));
        },
        None => {
            assert(located(world, longer) == found);
            assert(missed(world, longer) == missed(world, shorter).push(inputs[done]));
        },
    }
    let next = discovered(start, located(world, longer));
    assert(moved.map == next.map);
    assert(moved.queue == next.queue);
    assert(moved.missing == missed(world, longer));
    assert(moved.inputs == inputs && moved.dirs == dirs);
    if done + 1 == inputs.len() {
        assert(longer =~= inputs);
    }
}

/// While inputs are left, the traversal is locating them: after `done`
/// answers it has located the first `done` inputs and asks for the next.
pub proof fn lemma_seeding(world: World, inputs: Seq<Seq<char>>, dirs: Seq<Seq<char>>, done: nat)
    requires
        done < inputs.len(),
    ensures
        world.run(State::initial(inputs, dirs), done) == seeding(world, inputs, dirs, done as int),
        world.run(State::initial(inputs, dirs), done).action() == (ActionView::Canonicalize {
            path: inputs[done as int],
        }),
    decreases done,
{
    let start = State::initial(inputs, dirs);
    lemma_seeding_step(world, inputs, dirs, done as int);
    if done == 0 {
        assert(inputs.take(0) =~= Seq::<Seq<char>>::empty());
        assert(world.run(start, 0) == start);
        assert(start == seeding(world, inputs, dirs, 0));
    } else {
        let before = (done - 1) as nat;
        lemma_seeding(world, inputs, dirs, before);
        lemma_seeding_step(world, inputs, dirs, before as int);
        lemma_run_split(world, start, before, 1);
        let s = seeding(world, inputs, dirs, before as int);
        assert(world.run(s, 1) == world.next(s)) by {
            assert(world.run(world.next(s), 0) == world.next(s));
        }
    }
}

/// Once every input was answered for, the traversal has located them all
/// and has taken the first module off the queue.
pub proof fn lemma_seeded(world: World, inputs: Seq<Seq<char>>, dirs: Seq<Seq<char>>)
    ensures
        world.run(State::initial(inputs, dirs), inputs.len()) == seeded(world, inputs, dirs),
        !(seeded(world, inputs, dirs).phase is Seeding),
{
    let start = State::initial(inputs, dirs);
    lemma_discovered_frame(start, located(world, inputs));
    if inputs.len() == 0 {
        assert(world.run(start, 0) == start);
        assert(start.missing =~= missed(world, inputs));
        assert(start == seeded(world, inputs, dirs));
    } else {
        let before = (inputs.len() - 1) as nat;
        lemma_seeding(world, inputs, dirs, before);
        lemma_seeding_step(world, inputs, dirs, before as int);
        lemma_run_split(world, start, before, 1);
        let s = seeding(world, inputs, dirs, before as int);
        assert(world.run(s, 1) == world.next(s)) by {
            assert(world.run(world.next(s), 0) == world.next(s));
        }
    }
}

/// An input that does not exist adds nothing to the paths that are
/// located.
pub proof fn lemma_located_without(
    world: World,
    before: Seq<Seq<char>>,
    input: Seq<char>,
    after: Seq<Seq<char>>,
)
    requires
        (world.canon)(input) is None,
    ensures
        located(world, before + seq![input] + after) == located(world, before + after),
    decreases after.len(),
{
    let with = before + seq![input] + after;
    let without = before + after;
    if after.len() == 0 {
        assert(with.drop_last() =~= before);
        assert(without =~= before);
    } else {
        lemma_located_without(world, before, input, after.drop_last());
        assert(with.drop_last() =~= before + seq![input] + after.drop_last());
        assert(without.drop_last() =~= before + after.drop_last());
        assert(with.last() == after.last());
        assert(without.last() == after.last());
    }
}

/// States that are alike ask the same and stay alike, whatever the answer.
pub proof fn lemma_alike_step(s: State, t: State, event: EventView)
    requires
        alike(s, t),
    ensures
        s.action() == t.action(),
        alike(s.step(event), t.step(event)),
{
}

/// States that are alike stay alike, answer after answer.
pub proof fn lemma_alike_run(world: World, s: State, t: State, n: nat)
    requires
        alike(s, t),
    ensures
        alike(world.run(s, n), world.run(t, n)),
        world.run(s, n).action() == world.run(t, n).action(),
    decreases n,
{
    lemma_alike_step(s, t, world.answer(s.action()));
    if n > 0 {
        lemma_alike_run(world, world.next(s), world.next(t), (n - 1) as nat);
    }
}

/// An initial input that does not exist changes nothing but the list of
/// missing inputs. The traversal asks for it once and reads no module for
/// it; from then on it asks what the traversal without that input asks, one
/// answer later, and holds the same classification and the same queue.
pub proof fn lemma_missing_input_changes_nothing(
    world: World,
    dirs: Seq<Seq<char>>,
    before: Seq<Seq<char>>,
    input: Seq<char>,
    after: Seq<Seq<char>>,
    n: nat,
)
    requires
        (world.canon)(input) is None,
        n >= before.len(),
    ensures
        ({
            let with = State::initial(before + seq![input] + after, dirs);
            let without = State::initial(before + after, dirs);
            &&& world.run(with, before.len()).action() == (ActionView::Canonicalize {
                path: input,
            })
            &&& world.run(with, n + 1).action() == world.run(without, n).action()
            &&& world.run(with, n + 1).map == world.run(without, n).map
            &&& world.run(with, n + 1).queue == world.run(without, n).queue
        }),
{
    let all = before + seq![input] + after;
    let rest = before + after;
    let with = State::initial(all, dirs);
    let without = State::initial(rest, dirs);
    let k = before.len();
    lemma_seeding(world, all, dirs, k);
    assert(all[k as int] == input);
    if n < rest.len() {
        let m = (n - k) as int;
        lemma_seeding(world, all, dirs, n + 1);
        lemma_seeding(world, rest, dirs, n);
        assert(all[n as int + 1] == rest[n as int]);
        assert(all.take(n as int + 1) =~= before + seq![input] + after.take(m));
        assert(rest.take(n as int) =~= before + after.take(m));
        lemma_located_without(world, before, input, after.take(m));
        lemma_discovered_same(
            with,
            without,
            located(world, rest.take(n as int)),
        );
    } else {
        let extra = (n - rest.len()) as nat;
        lemma_seeded(world, all, dirs);
        lemma_seeded(world, rest, dirs);
        lemma_located_without(world, before, input, after);
        lemma_discovered_same(with, without, located(world, rest));
        lemma_discovered_frame(with, located(world, all));
        lemma_discovered_frame(without, located(world, rest));
        assert(alike(seeded(world, all, dirs), seeded(world, rest, dirs)));
        lemma_run_split(world, with, all.len(), extra);
        lemma_run_split(world, without, rest.len(), extra);
        lemma_alike_run(world, seeded(world, all, dirs), seeded(world, rest, dirs), extra);
    }
}

/// With an input that does not exist as the only one, the traversal asks
/// for it, reads no module, and finishes with an empty classification.
pub proof fn lemma_only_missing_input(world: World, dirs: Seq<Seq<char>>, input: Seq<char>, n: nat)
    requires
        (world.canon)(input) is None,
    ensures
        ({
            let start = State::initial(seq![input], dirs);
            &&& start.action() == (ActionView::Canonicalize { path: input })
            &&& world.run(start, n + 1).phase is Finished
            &&& world.run(start, n + 1).map == Seq::<EntryView>::empty()
            &&& world.run(start, n + 1).missing == seq![input]
        }),
{
    let start = State::initial(seq![input], dirs);
    let after = world.next(start);
    assert(after.missing =~= seq![input]);
    assert(world.run(start, n + 1) == world.run(after, n));
    lemma_finished_stays(world, after, n);
}

} // verus!
