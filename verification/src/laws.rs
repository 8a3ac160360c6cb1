//! Properties of the machine that relate several of its operations.
use vstd::prelude::*;
use crate::ast::GUID;
use crate::error::VmError;
use crate::event::EventView;
use crate::keyed::{
    guid_insert, guid_lookup, guid_pos, guid_remove, guids_distinct, lemma_guid_pos_from, lemma_guid_remove_distinct, lemma_name_pos_from_bound,
    lemma_name_pos_same_keys, name_lookup, name_pos,
};
use crate::step::StepInput;
use crate::value::Reference;
use crate::vm::{completed_view, events_view, global_replaced, insert_all, process_all, process_events_post, OperationBox, Vm, VmCode};

verus! {

/// Writing a global variable and reading it back gives the reference written;
/// every other global variable reads as before.
pub proof fn law_global_write_then_read(globals: Seq<(String, Reference)>, name: Seq<char>, value: Reference)
    requires
        name_lookup(globals, name) is Some,
    ensures
        name_lookup(global_replaced(globals, name, value), name) == Some(value),
        forall|k: Seq<char>| k != name ==> name_lookup(global_replaced(globals, name, value), k) == name_lookup(globals, k),
{
    lemma_name_pos_from_bound(globals, name, 0);
    let i = name_pos(globals, name)->0;
    let after = global_replaced(globals, name, value);
    assert(after == globals.update(i, (globals[i].0, value)));
    assert forall|k: Seq<char>| #![trigger name_pos(after, k)] name_pos(after, k) == name_pos(globals, k) by {
        assert forall|j: int| 0 <= j < after.len() implies (#[trigger] after[j]).0 == globals[j].0 by {}
        lemma_name_pos_same_keys(after, globals, k, 0);
    }
    assert(name_pos(after, name) == name_pos(globals, name));
    assert forall|k: Seq<char>| k != name implies name_lookup(after, k) == name_lookup(globals, k) by {
        assert(name_pos(after, k) == name_pos(globals, k));
        lemma_name_pos_from_bound(globals, k, 0);
    }
}

/// An operation just registered is registered; unregistering it then finds
/// it, and leaves the registered names as they were, without it.
pub proof fn law_register_then_unregister(before: Seq<Seq<char>>, registered: Seq<Seq<char>>, after: Seq<Seq<char>>, name: Seq<char>)
    requires
        registered.to_set() == before.to_set().insert(name),
        after.to_set() == registered.to_set().remove(name),
    ensures
        registered.contains(name),
        !after.contains(name),
        after.to_set() == before.to_set().remove(name),
{
    assert(registered.to_set().contains(name));
    assert(!after.to_set().contains(name));
    assert(after.to_set() =~= before.to_set().remove(name));
}

/// Registering under a name twice leaves the second operator there, with the
/// other names as the first registration left them; unregistering the name
/// then gives back the registry as it was before, without the name.
pub proof fn law_register_twice_then_unregister(
    before: Map<Seq<char>, OperationBox>,
    once: Map<Seq<char>, OperationBox>,
    twice: Map<Seq<char>, OperationBox>,
    after: Map<Seq<char>, OperationBox>,
    name: Seq<char>,
    first: OperationBox,
    second: OperationBox,
)
    requires
        once == before.insert(name, first),
        twice == once.insert(name, second),
        after == twice.remove(name),
    ensures
        twice.contains_key(name),
        twice[name] == second,
        twice == before.insert(name, second),
        after == before.remove(name),
{
    assert(twice =~= before.insert(name, second));
    assert(after =~= before.remove(name));
}

/// An identifier taken out of a table whose identifiers are distinct is no
/// longer found: an event destroyed no longer runs, and a completed event's
/// outputs are taken once.
pub proof fn law_taken_once<V>(table: Seq<(GUID, V)>, guid: GUID)
    requires
        guids_distinct(table),
    ensures
        guid_lookup(guid_remove(table, guid), guid) is None,
        guids_distinct(guid_remove(table, guid)),
{
    lemma_guid_remove_distinct(table, guid);
}

/// Whether an identifier is among the first entries of a list.
pub open spec fn has_guid<V>(s: Seq<(GUID, V)>, g: GUID) -> bool {
    exists|i: int| 0 <= i < s.len() && (#[trigger] s[i]).0 == g
}

/// When no event fails, processing loses no event and makes up none: every
/// event processed is still running or has completed, and every event still
/// running or completed was one of them.
pub proof fn law_process_keeps_events(
    code: VmCode,
    names: Seq<Seq<char>>,
    evs: Seq<(GUID, EventView)>,
    obs: Seq<Seq<StepInput>>,
    k: int,
)
    requires
        0 <= k <= evs.len(),
        process_all(code, names, evs, obs, k) matches Some((_, _, None)),
    ensures
        process_all(code, names, evs, obs, k) matches Some((run, done, _)) && {
            &&& forall|j: int| 0 <= j < k ==> has_guid(run, #[trigger] evs[j].0) || has_guid(done, evs[j].0)
            &&& forall|j: int| 0 <= j < run.len() ==> has_guid(evs.take(k), (#[trigger] run[j]).0)
            &&& forall|j: int| 0 <= j < done.len() ==> has_guid(evs.take(k), (#[trigger] done[j]).0)
        },
    decreases k,
{
    if k > 0 {
        let prev = process_all(code, names, evs, obs, k - 1);
        assert(prev matches Some((_, _, None)));
        law_process_keeps_events(code, names, evs, obs, k - 1);
        let (run0, done0, _) = prev->0;
        let (run, done, _) = process_all(code, names, evs, obs, k)->0;
        let g = evs[k - 1].0;
        assert(evs.take(k)[k - 1] == evs[k - 1]);
        assert forall|j: int| 0 <= j < k implies has_guid(run, #[trigger] evs[j].0) || has_guid(done, evs[j].0) by {
            if j < k - 1 {
                if has_guid(run0, evs[j].0) {
                    let i = choose|i: int| 0 <= i < run0.len() && (#[trigger] run0[i]).0 == evs[j].0;
                    if run.len() > run0.len() {
                        assert(run[i] == run0[i]);
                    }
                } else {
                    let i = choose|i: int| 0 <= i < done0.len() && (#[trigger] done0[i]).0 == evs[j].0;
                    if done.len() > done0.len() {
                        assert(done[i] == done0[i]);
                    }
                }
            } else {
                if run.len() > run0.len() {
                    assert(run[run0.len() as int].0 == g);
                } else {
                    assert(done[done0.len() as int].0 == g);
                }
            }
        }
        assert forall|j: int| 0 <= j < run.len() implies has_guid(evs.take(k), (#[trigger] run[j]).0) by {
            if j < run0.len() {
                assert(run[j] == run0[j]);
                let i = choose|i: int| 0 <= i < evs.take(k - 1).len() && (#[trigger] evs.take(k - 1)[i]).0 == run0[j].0;
                assert(evs.take(k)[i] == evs.take(k - 1)[i]);
            } else {
                assert(run[j].0 == g);
            }
        }
        assert forall|j: int| 0 <= j < done.len() implies has_guid(evs.take(k), (#[trigger] done[j]).0) by {
            if j < done0.len() {
                assert(done[j] == done0[j]);
                let i = choose|i: int| 0 <= i < evs.take(k - 1).len() && (#[trigger] evs.take(k - 1)[i]).0 == done0[j].0;
                assert(evs.take(k)[i] == evs.take(k - 1)[i]);
            } else {
                assert(done[j].0 == g);
            }
        }
    }
}

/// Whether an identifier is among those of the running events or those of
/// the completed events.
pub open spec fn kept(run: Seq<(GUID, EventView)>, done: Seq<(GUID, Seq<Reference>)>, g: GUID) -> bool {
    has_guid(run, g) || has_guid(done, g)
}

proof fn lemma_has_guid_push<V>(s: Seq<(GUID, V)>, x: (GUID, V), g: GUID)
    ensures
        has_guid(s, g) ==> has_guid(s.push(x), g),
        has_guid(s.push(x), x.0),
{
    if has_guid(s, g) {
        let i = choose|i: int| 0 <= i < s.len() && (#[trigger] s[i]).0 == g;
        assert(s.push(x)[i] == s[i]);
    }
    assert(s.push(x)[s.len() as int] == x);
}

/// Processing events in turn drops at most one of them, and only where one
/// failed: every other event processed is still running or has completed.
pub proof fn law_process_drops_only_failed(
    code: VmCode,
    names: Seq<Seq<char>>,
    evs: Seq<(GUID, EventView)>,
    obs: Seq<Seq<StepInput>>,
    k: int,
)
    requires
        0 <= k <= evs.len(),
    ensures
        process_all(code, names, evs, obs, k) matches Some((run, done, err)) ==> {
            &&& err is None ==> forall|j: int| 0 <= j < k ==> kept(run, done, #[trigger] evs[j].0)
            &&& forall|a: int, b: int|
                0 <= a < k && 0 <= b < k && !kept(run, done, #[trigger] evs[a].0) && !kept(run, done, #[trigger] evs[b].0) ==> a == b
        },
    decreases k,
{
    if k > 0 {
        law_process_drops_only_failed(code, names, evs, obs, k - 1);
        if let Some((run0, done0, err0)) = process_all(code, names, evs, obs, k - 1) {
            if let Some((run, done, err)) = process_all(code, names, evs, obs, k) {
                let x = evs[k - 1];
                assert forall|g: GUID| kept(run0, done0, g) implies kept(run, done, g) by {
                    lemma_has_guid_push(run0, x, g);
                    if done.len() > done0.len() {
                        lemma_has_guid_push(done0, done[done0.len() as int], g);
                        assert(done =~= done0.push(done[done0.len() as int]));
                    }
                    if run.len() > run0.len() {
                        lemma_has_guid_push(run0, run[run0.len() as int], g);
                        assert(run =~= run0.push(run[run0.len() as int]));
                    }
                }
                if err0 is Some {
                    lemma_has_guid_push(run0, x, x.0);
                    assert(kept(run, done, x.0));
                } else if err is None {
                    if run.len() > run0.len() {
                        lemma_has_guid_push(run0, run[run0.len() as int], x.0);
                        assert(run =~= run0.push(run[run0.len() as int]));
                    } else {
                        lemma_has_guid_push(done0, done[done0.len() as int], x.0);
                        assert(done =~= done0.push(done[done0.len() as int]));
                    }
                    assert(kept(run, done, x.0));
                }
                assert forall|a: int, b: int|
                    0 <= a < k && 0 <= b < k && !kept(run, done, #[trigger] evs[a].0) && !kept(run, done, #[trigger] evs[b].0) implies a == b by {
                    if a < k - 1 {
                        assert(!kept(run0, done0, evs[a].0));
                    }
                    if b < k - 1 {
                        assert(!kept(run0, done0, evs[b].0));
                    }
                }
                if err is None {
                    assert forall|j: int| 0 <= j < k implies kept(run, done, #[trigger] evs[j].0) by {
                        if j < k - 1 {
                            assert(kept(run0, done0, evs[j].0));
                        }
                    }
                }
            }
        }
    }
}

proof fn lemma_guid_insert_has<V>(s: Seq<(GUID, V)>, g: GUID, v: V, h: GUID)
    ensures
        has_guid(s, h) ==> has_guid(guid_insert(s, g, v), h),
        has_guid(guid_insert(s, g, v), g),
{
    lemma_guid_pos_from(s, g, 0);
    let t = guid_insert(s, g, v);
    match guid_pos(s, g) {
        Some(i) => {
            assert(t[i].0 == g);
            if has_guid(s, h) {
                let j = choose|j: int| 0 <= j < s.len() && (#[trigger] s[j]).0 == h;
                assert(t[j].0 == h);
            }
        },
        None => {
            assert(t[s.len() as int].0 == g);
            if has_guid(s, h) {
                let j = choose|j: int| 0 <= j < s.len() && (#[trigger] s[j]).0 == h;
                assert(t[j] == s[j]);
            }
        },
    }
}

proof fn lemma_insert_all_has(c: Seq<(GUID, Seq<Reference>)>, done: Seq<(GUID, Seq<Reference>)>, m: int, h: GUID)
    requires
        0 <= m <= done.len(),
    ensures
        (has_guid(c, h) || has_guid(done.take(m), h)) ==> has_guid(insert_all(c, done, m), h),
    decreases m,
{
    if m > 0 {
        lemma_insert_all_has(c, done, m - 1, h);
        let prev = insert_all(c, done, m - 1);
        lemma_guid_insert_has(prev, done[m - 1].0, done[m - 1].1, h);
        if has_guid(done.take(m), h) && !has_guid(done.take(m - 1), h) {
            let j = choose|j: int| 0 <= j < done.take(m).len() && (#[trigger] done.take(m)[j]).0 == h;
            if j < m - 1 {
                assert(done.take(m - 1)[j] == done.take(m)[j]);
            } else {
                assert(done[m - 1].0 == h);
            }
        }
    }
}

/// Whether an identifier is that of a running or of a completed event.
pub open spec fn known_event(vm: Vm, g: GUID) -> bool {
    has_guid(vm.running(), g) || has_guid(vm.completed(), g)
}

/// `process_events` loses at most one of the events that were running, and
/// only when it fails: every other one is afterwards still running or
/// completed.
pub proof fn law_process_events_loses_only_failed(pre: Vm, post: Vm, r: Result<(), VmError>, a: int, b: int)
    requires
        process_events_post(pre, post, r),
        0 <= a < pre.running().len(),
        0 <= b < pre.running().len(),
        !known_event(post, pre.running()[a].0),
        !known_event(post, pre.running()[b].0),
    ensures
        a == b,
        r is Err,
{
    let code = pre.code();
    let names = pre.operation_names();
    let evs = events_view(pre.running());
    let n = pre.running().len() as int;
    let obs = choose|obs: Seq<Seq<StepInput>>|
        #![trigger process_all(code, names, evs, obs, n)]
        obs.len() == pre.running().len() && match process_all(code, names, evs, obs, n) {
            Some((run, done, err)) => {
                &&& events_view(post.running()) == run
                &&& completed_view(post.completed()) == insert_all(completed_view(pre.completed()), done, done.len() as int)
                &&& r == match err {
                    Some(e) => Err::<(), VmError>(e),
                    None => Ok::<(), VmError>(()),
                }
            },
            None => false,
        };
    law_process_drops_only_failed(code, names, evs, obs, n);
    let (run, done, err) = process_all(code, names, evs, obs, n)->0;
    assert forall|g: GUID| kept(run, done, g) implies known_event(post, g) by {
        if has_guid(run, g) {
            let i = choose|i: int| 0 <= i < run.len() && (#[trigger] run[i]).0 == g;
            assert(post.running()[i].0 == run[i].0);
        } else {
            assert(done.take(done.len() as int) =~= done);
            lemma_insert_all_has(completed_view(pre.completed()), done, done.len() as int, g);
            let cv = completed_view(post.completed());
            let i = choose|i: int| 0 <= i < cv.len() && (#[trigger] cv[i]).0 == g;
            assert(post.completed()[i].0 == cv[i].0);
        }
    }
    assert(evs[a].0 == pre.running()[a].0);
    assert(evs[b].0 == pre.running()[b].0);
    assert(!kept(run, done, evs[a].0));
    assert(!kept(run, done, evs[b].0));
}

} // verus!
