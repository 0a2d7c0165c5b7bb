//! When a rescan of the mount table publishes nothing, and that what it
//! publishes tells what changed.
use crate::mount_monitor::{
    bind, bound_mount, departed, diff_entries, diff_entry, distinct_uuids, id_less_at, lemma_bind,
    lemma_slot_of, lemma_unbind, match_by_id, match_by_path, mounts_after, removal, rescan,
    slot_of, unbind, unseen, with_mount_id, Diff, MountBindings, MountChangeView,
    MountPointView, MountUuid,
};
use crate::search::{
    lemma_filter_none, lemma_first_index, lemma_first_index_is, lemma_first_index_none,
};
use vstd::prelude::*;

verus! {

/// Whether two entries of a mount table would be taken for the same mount
/// point: by their kernel mount id where they have one, by their path where
/// neither has.
pub open spec fn same_key(a: MountPointView, b: MountPointView) -> bool {
    ||| a.id is Some && a.id == b.id
    ||| a.id is None && b.id is None && a.path == b.path
}

/// No two entries of the scan would be taken for the same mount point.
pub open spec fn distinct_keys(scan: Seq<MountPointView>) -> bool {
    forall|i: int, j: int| 0 <= i < j < scan.len() ==> !same_key(#[trigger] scan[i], #[trigger] scan[j])
}

/// Whether the differ, looking for `mount` in `state`, finds the entry at `at`.
pub open spec fn finds(state: MountBindings, mount: MountPointView, at: int) -> bool {
    ||| match_by_id(state, mount) == Some(at)
    ||| match_by_id(state, mount) is None && match_by_path(state, mount) == Some(at)
}

/// The state holds the scan: entry for entry what the scan saw, and the
/// differ finds each entry of the scan in its own place.
pub open spec fn settled(state: MountBindings, scan: Seq<MountPointView>) -> bool {
    &&& state.len() == scan.len()
    &&& forall|i: int|
        0 <= i < scan.len() ==> (#[trigger] state[i]).1 == scan[i] && finds(state, scan[i], i)
}

/// The uuids of the first `n` entries of `state`.
pub open spec fn uuids_before(state: MountBindings, n: int) -> Set<MountUuid> {
    Set::new(|uuid: MountUuid| exists|i: int| 0 <= i < n && (#[trigger] state[i]).0 == uuid)
}

/// Walking the first `n` entries of a scan that the state holds publishes
/// nothing and rebuilds the first `n` entries of the state.
proof fn lemma_settled_walk(
    state: MountBindings,
    scan: Seq<MountPointView>,
    fresh: Seq<MountUuid>,
    n: int,
)
    requires
        distinct_uuids(state),
        settled(state, scan),
        0 <= n <= scan.len(),
    ensures
        diff_entries(state, scan.take(n), fresh) == (Diff {
            events: Seq::empty(),
            next: state.take(n),
            seen: uuids_before(state, n),
        }),
    decreases n,
{
    if n == 0 {
        assert(state.take(0) =~= Seq::empty());
        assert(uuids_before(state, 0) =~= Set::empty());
    } else {
        lemma_settled_walk(state, scan, fresh, n - 1);
        assert(scan.take(n).drop_last() =~= scan.take(n - 1));
        assert(scan.take(n).last() == scan[n - 1]);
        let acc = diff_entries(state, scan.take(n - 1), fresh);
        let mount = scan[n - 1];
        let uuid = state[n - 1].0;
        assert(state[n - 1].1 == mount && finds(state, mount, n - 1));
        let after = diff_entry(state, acc, mount, fresh[n - 1]);
        lemma_slot_of(state.take(n - 1), uuid);
        if slot_of(state.take(n - 1), uuid) is Some {
            let at = slot_of(state.take(n - 1), uuid)->0;
            assert(state.take(n - 1)[at] == state[at]);
            assert(state[at].0 != state[n - 1].0);
        }
        assert(bind(state.take(n - 1), uuid, mount) =~= state.take(n));
        assert(uuids_before(state, n - 1).insert(uuid) =~= uuids_before(state, n)) by {
            assert forall|u: MountUuid|
                uuids_before(state, n - 1).insert(uuid).contains(u) == uuids_before(
                    state,
                    n,
                ).contains(u) by {
                if uuids_before(state, n).contains(u) {
                    let i = choose|i: int| 0 <= i < n && (#[trigger] state[i]).0 == u;
                    if i < n - 1 {
                        assert(uuids_before(state, n - 1).contains(u));
                    }
                }
                if uuids_before(state, n - 1).contains(u) {
                    let i = choose|i: int| 0 <= i < n - 1 && (#[trigger] state[i]).0 == u;
                    assert(state[i].0 == u);
                }
                if u == uuid {
                    assert(state[n - 1].0 == u);
                }
            }
        }
        assert(after.events == acc.events);
        assert(after.next == state.take(n));
    }
}

/// A rescan that the state holds already publishes nothing and leaves the
/// state as it is, whatever uuids are at hand.
pub proof fn lemma_settled_rescan_is_silent(
    state: MountBindings,
    scan: Seq<MountPointView>,
    fresh: Seq<MountUuid>,
)
    requires
        distinct_uuids(state),
        settled(state, scan),
    ensures
        rescan(state, scan, fresh) == (Seq::<MountChangeView>::empty(), state),
{
    lemma_settled_walk(state, scan, fresh, scan.len() as int);
    assert(scan.take(scan.len() as int) =~= scan);
    assert(state.take(scan.len() as int) =~= state);
    let seen = uuids_before(state, scan.len() as int);
    assert forall|i: int| 0 <= i < state.len() implies !#[trigger] unseen(seen)(state[i]) by {
        assert(state[i].0 == state[i].0);
        assert(seen.contains(state[i].0));
    }
    lemma_filter_none(state, unseen(seen));
    assert(departed(state, seen) =~= Seq::empty());
    assert(Seq::<MountChangeView>::empty() + Seq::<MountChangeView>::empty() =~= Seq::empty());
}

/// Walking a scan binds at most one entry per entry of the scan, under
/// distinct uuids; and where it binds as many as the scan has, it binds them
/// in the order of the scan.
proof fn lemma_walk_shape(
    previous: MountBindings,
    scan: Seq<MountPointView>,
    fresh: Seq<MountUuid>,
)
    ensures
        diff_entries(previous, scan, fresh).next.len() <= scan.len(),
        distinct_uuids(diff_entries(previous, scan, fresh).next),
        diff_entries(previous, scan, fresh).next.len() == scan.len() ==> forall|i: int|
            0 <= i < scan.len() ==> (#[trigger] diff_entries(previous, scan, fresh).next[i]).1
                == scan[i],
    decreases scan.len(),
{
    if scan.len() > 0 {
        lemma_walk_shape(previous, scan.drop_last(), fresh);
        let acc = diff_entries(previous, scan.drop_last(), fresh);
        let mount = scan.last();
        let after = diff_entries(previous, scan, fresh);
        let n = scan.len() - 1;
        assert(after == diff_entry(previous, acc, mount, fresh[n]));
        // Whatever the case, the next state is the old one with `mount` bound
        // under some uuid.
        let uuid = choose|uuid: MountUuid| after.next == bind(acc.next, uuid, mount);
        assert(after.next == bind(acc.next, uuid, mount)) by {
            match match_by_id(previous, mount) {
                Some(k) => {
                    if mount.path != previous[k].1.path {
                        assert(after.next == bind(acc.next, fresh[n], mount));
                    } else {
                        assert(after.next == bind(acc.next, previous[k].0, mount));
                    }
                },
                None => match match_by_path(previous, mount) {
                    Some(k) => {
                        assert(after.next == bind(acc.next, previous[k].0, mount));
                    },
                    None => {
                        assert(after.next == bind(acc.next, fresh[n], mount));
                    },
                },
            }
        }
        lemma_bind(acc.next, uuid, mount);
        lemma_slot_of(acc.next, uuid);
        if after.next.len() == scan.len() {
            assert(slot_of(acc.next, uuid) is None);
            assert(acc.next.len() == n);
            assert forall|i: int| 0 <= i < scan.len() implies (#[trigger] after.next[i]).1
                == scan[i] by {
                if i < n {
                    assert(after.next[i] == acc.next[i]);
                    assert(scan.drop_last()[i] == scan[i]);
                }
            }
        }
    }
}

/// A rescan that binds every entry of the scan under a uuid of its own, of a
/// mount table in which no two entries would be taken for the same mount
/// point, leaves a state that holds the scan.
pub proof fn lemma_rescan_settles(
    previous: MountBindings,
    scan: Seq<MountPointView>,
    fresh: Seq<MountUuid>,
)
    requires
        distinct_keys(scan),
        rescan(previous, scan, fresh).1.len() == scan.len(),
    ensures
        distinct_uuids(rescan(previous, scan, fresh).1),
        settled(rescan(previous, scan, fresh).1, scan),
{
    lemma_walk_shape(previous, scan, fresh);
    let state = rescan(previous, scan, fresh).1;
    assert forall|i: int| 0 <= i < scan.len() implies (#[trigger] state[i]).1 == scan[i] && finds(
        state,
        scan[i],
        i,
    ) by {
        let mount = scan[i];
        match mount.id {
            Some(id) => {
                assert(with_mount_id(id)(state[i]));
                assert forall|j: int| 0 <= j < i implies !#[trigger] with_mount_id(id)(
                    state[j],
                ) by {
                    assert(state[j].1 == scan[j]);
                    assert(!same_key(scan[j], scan[i]));
                }
                lemma_first_index_is(state, with_mount_id(id), i);
            },
            None => {
                assert(id_less_at(mount.path)(state[i]));
                assert forall|j: int| 0 <= j < i implies !#[trigger] id_less_at(mount.path)(
                    state[j],
                ) by {
                    assert(state[j].1 == scan[j]);
                    assert(!same_key(scan[j], scan[i]));
                }
                lemma_first_index_is(state, id_less_at(mount.path), i);
            },
        }
    }
}

/// Feeding the same scan of the mount table twice publishes nothing the
/// second time and leaves the state of the first time, whatever uuids are at
/// hand, provided that no two entries of the scan would be taken for the
/// same mount point and that the first rescan bound each entry under a uuid
/// of its own.
pub proof fn lemma_same_rescan_twice_is_silent(
    previous: MountBindings,
    scan: Seq<MountPointView>,
    fresh: Seq<MountUuid>,
    fresh_again: Seq<MountUuid>,
)
    requires
        distinct_keys(scan),
        rescan(previous, scan, fresh).1.len() == scan.len(),
    ensures
        rescan(rescan(previous, scan, fresh).1, scan, fresh_again) == (
            Seq::<MountChangeView>::empty(),
            rescan(previous, scan, fresh).1,
        ),
{
    lemma_rescan_settles(previous, scan, fresh);
    lemma_settled_rescan_is_silent(rescan(previous, scan, fresh).1, scan, fresh_again);
}

/// Every entry of the state has a kernel mount id.
pub open spec fn identified(state: MountBindings) -> bool {
    forall|k: int| 0 <= k < state.len() ==> (#[trigger] state[k]).1.id is Some
}

/// Every entry of the scan has a kernel mount id, and no two have the same.
pub open spec fn identified_scan(scan: Seq<MountPointView>) -> bool {
    &&& forall|i: int| 0 <= i < scan.len() ==> (#[trigger] scan[i]).id is Some
    &&& distinct_keys(scan)
}

/// The uuids at hand are fresh: no two are the same, and none stands for an
/// entry of the state.
pub open spec fn really_fresh(state: MountBindings, fresh: Seq<MountUuid>) -> bool {
    &&& forall|i: int, j: int|
        0 <= i < j < fresh.len() ==> (#[trigger] fresh[i]) != (#[trigger] fresh[j])
    &&& forall|i: int, k: int|
        0 <= i < fresh.len() && 0 <= k < state.len() ==> (#[trigger] fresh[i]) != (
        #[trigger] state[k]).0
}

/// The uuid under which the differ binds `mount`: that of the entry that it
/// matches, or the fresh one where it matches none or has moved.
pub open spec fn uuid_for(previous: MountBindings, mount: MountPointView, fresh: MountUuid) -> MountUuid {
    match match_by_id(previous, mount) {
        Some(k) => if mount.path != previous[k].1.path {
            fresh
        } else {
            previous[k].0
        },
        None => match match_by_path(previous, mount) {
            Some(k) => previous[k].0,
            None => fresh,
        },
    }
}

/// Walking a scan of identified mounts, with fresh uuids at hand, over a
/// state of identified mounts binds every entry of the scan under a uuid of
/// its own.
proof fn lemma_identified_walk(
    previous: MountBindings,
    scan: Seq<MountPointView>,
    fresh: Seq<MountUuid>,
)
    requires
        distinct_uuids(previous),
        identified(previous),
        identified_scan(scan),
        scan.len() <= fresh.len(),
        really_fresh(previous, fresh),
    ensures
        diff_entries(previous, scan, fresh).next.len() == scan.len(),
        forall|m: int|
            0 <= m < scan.len() ==> (#[trigger] diff_entries(previous, scan, fresh).next[m]).0
                == uuid_for(previous, scan[m], fresh[m]),
    decreases scan.len(),
{
    if scan.len() > 0 {
        let init = scan.drop_last();
        let n = init.len() as int;
        let mount = scan.last();
        assert forall|i: int, j: int| 0 <= i < j < init.len() implies !same_key(
            #[trigger] init[i],
            #[trigger] init[j],
        ) by {
            assert(init[i] == scan[i] && init[j] == scan[j]);
        }
        assert forall|i: int| 0 <= i < init.len() implies (#[trigger] init[i]).id is Some by {
            assert(init[i] == scan[i]);
        }
        lemma_identified_walk(previous, init, fresh);
        let acc = diff_entries(previous, init, fresh);
        let after = diff_entries(previous, scan, fresh);
        assert(after == diff_entry(previous, acc, mount, fresh[n]));
        let uuid = uuid_for(previous, mount, fresh[n]);
        lemma_unidentified_match(previous, mount);
        assert(after.next == bind(acc.next, uuid, mount));
        // No entry bound so far stands under the uuid of this one.
        assert forall|m: int| 0 <= m < n implies (#[trigger] acc.next[m]).0 != uuid by {
            let earlier = scan[m];
            assert(init[m] == earlier);
            assert(acc.next[m].0 == uuid_for(previous, earlier, fresh[m]));
            lemma_unidentified_match(previous, earlier);
            assert(!same_key(scan[m], scan[n]));
            assert(scan[m].id is Some && scan[n].id is Some);
            let id_m = earlier.id->0;
            let id_n = mount.id->0;
            lemma_first_index(previous, with_mount_id(id_m));
            lemma_first_index(previous, with_mount_id(id_n));
            match (match_by_id(previous, earlier), match_by_id(previous, mount)) {
                (Some(a), Some(b)) => {
                    assert(with_mount_id(id_m)(previous[a]));
                    assert(with_mount_id(id_n)(previous[b]));
                    assert(a != b);
                    if a < b {
                        assert(previous[a].0 != previous[b].0);
                    } else {
                        assert(previous[b].0 != previous[a].0);
                    }
                    assert(previous[a].0 != fresh[n]);
                    assert(fresh[m] != previous[b].0);
                },
                (Some(a), None) => {
                    assert(previous[a].0 != fresh[n]);
                },
                (None, Some(b)) => {
                    assert(fresh[m] != previous[b].0);
                },
                (None, None) => {},
            }
        }
        lemma_slot_of(acc.next, uuid);
        assert(slot_of(acc.next, uuid) is None) by {
            if slot_of(acc.next, uuid) is Some {
                assert(acc.next[slot_of(acc.next, uuid)->0].0 == uuid);
            }
        }
        assert(after.next =~= acc.next.push((uuid, mount)));
        assert forall|m: int| 0 <= m < scan.len() implies (#[trigger] after.next[m]).0
            == uuid_for(previous, scan[m], fresh[m]) by {
            if m < n {
                assert(after.next[m] == acc.next[m]);
                assert(init[m] == scan[m]);
            }
        }
    }
}

/// In a state of identified mounts nothing is matched by path.
proof fn lemma_unidentified_match(previous: MountBindings, mount: MountPointView)
    requires
        identified(previous),
    ensures
        match_by_path(previous, mount) is None,
{
    assert forall|k: int| 0 <= k < previous.len() implies !#[trigger] id_less_at(mount.path)(
        previous[k],
    ) by {
        assert(previous[k].1.id is Some);
    }
    lemma_first_index_none(previous, id_less_at(mount.path));
}

/// Feeding the same scan of the mount table twice publishes nothing the
/// second time, where the mount table is as the kernel reports it, each entry
/// with a mount id of its own, where the state before was of such mount
/// tables, and where the uuids at hand for the first rescan are fresh.
pub proof fn lemma_same_kernel_rescan_twice_is_silent(
    previous: MountBindings,
    scan: Seq<MountPointView>,
    fresh: Seq<MountUuid>,
    fresh_again: Seq<MountUuid>,
)
    requires
        distinct_uuids(previous),
        identified(previous),
        identified_scan(scan),
        fresh.len() == scan.len(),
        really_fresh(previous, fresh),
    ensures
        rescan(rescan(previous, scan, fresh).1, scan, fresh_again) == (
            Seq::<MountChangeView>::empty(),
            rescan(previous, scan, fresh).1,
        ),
        identified(rescan(previous, scan, fresh).1),
        distinct_uuids(rescan(previous, scan, fresh).1),
{
    lemma_identified_walk(previous, scan, fresh);
    lemma_same_rescan_twice_is_silent(previous, scan, fresh, fresh_again);
    lemma_rescan_settles(previous, scan, fresh);
    let state = rescan(previous, scan, fresh).1;
    assert forall|k: int| 0 <= k < state.len() implies (#[trigger] state[k]).1.id is Some by {
        assert(state[k].1 == scan[k]);
    }
}

/// The bindings after the changes were taken in, one after the other.
pub open spec fn replay(state: MountBindings, changes: Seq<MountChangeView>) -> MountBindings
    decreases changes.len(),
{
    if changes.len() == 0 {
        state
    } else {
        mounts_after(replay(state, changes.drop_last()), changes.last())
    }
}

/// Taking in changes keeps the uuids distinct.
proof fn lemma_replay_distinct(state: MountBindings, changes: Seq<MountChangeView>)
    requires
        distinct_uuids(state),
    ensures
        distinct_uuids(replay(state, changes)),
    decreases changes.len(),
{
    if changes.len() > 0 {
        lemma_replay_distinct(state, changes.drop_last());
        let before = replay(state, changes.drop_last());
        match changes.last() {
            MountChangeView::Added(uuid, mount) => lemma_bind(before, uuid, mount),
            MountChangeView::Removed(uuid) => lemma_unbind(before, uuid),
            MountChangeView::Modified(uuid, mount) => lemma_bind(before, uuid, mount),
        }
    }
}

/// Taking in one list of changes after another is taking in both in a row.
proof fn lemma_replay_add(
    state: MountBindings,
    first: Seq<MountChangeView>,
    second: Seq<MountChangeView>,
)
    ensures
        replay(state, first + second) == replay(replay(state, first), second),
    decreases second.len(),
{
    if second.len() == 0 {
        assert(first + second =~= first);
    } else {
        lemma_replay_add(state, first, second.drop_last());
        assert((first + second).drop_last() =~= first + second.drop_last());
        assert((first + second).last() == second.last());
    }
}

/// What is bound to each uuid of a state that has the uuids distinct.
proof fn lemma_bound_entry(state: MountBindings, k: int)
    requires
        distinct_uuids(state),
        0 <= k < state.len(),
    ensures
        bound_mount(state, state[k].0) == Some(state[k].1),
{
    lemma_slot_of(state, state[k].0);
}

/// Whether a walk of the scan has seen the uuid again: some entry of the
/// scan matches, by its mount id, the entry of the previous state that stands
/// under the uuid.
pub open spec fn seen_again(
    previous: MountBindings,
    scan: Seq<MountPointView>,
    uuid: MountUuid,
) -> bool {
    exists|m: int|
        0 <= m < scan.len() && match_by_id(previous, #[trigger] scan[m]) is Some
            && previous[match_by_id(previous, scan[m])->0].0 == uuid
}

/// An entry that matches an entry of the previous state, in a scan in which
/// no other entry has its mount id, is the first to do so: the uuid of the
/// match was not seen again before, and nothing was bound under it.
proof fn lemma_match_is_new(
    previous: MountBindings,
    scan: Seq<MountPointView>,
    fresh: Seq<MountUuid>,
    k: int,
)
    requires
        distinct_uuids(previous),
        identified(previous),
        identified_scan(scan),
        scan.len() > 0,
        scan.len() <= fresh.len(),
        really_fresh(previous, fresh),
        match_by_id(previous, scan.last()) == Some(k),
    ensures
        0 <= k < previous.len(),
        !seen_again(previous, scan.drop_last(), previous[k].0),
        bound_mount(diff_entries(previous, scan.drop_last(), fresh).next, previous[k].0) is None,
{
    let init = scan.drop_last();
    let mount = scan.last();
    let n = init.len() as int;
    let uuid = previous[k].0;
    let id = mount.id->0;
    assert(scan[n] == mount);
    lemma_first_index(previous, with_mount_id(id));
    assert(with_mount_id(id)(previous[k]));
    assert forall|m: int| 0 <= m < n implies !(match_by_id(previous, #[trigger] init[m]) is Some
        && previous[match_by_id(previous, init[m])->0].0 == uuid) by {
        assert(init[m] == scan[m]);
        assert(!same_key(scan[m], scan[n]));
        assert(scan[m].id is Some);
        let other = scan[m].id->0;
        lemma_first_index(previous, with_mount_id(other));
        if match_by_id(previous, init[m]) is Some {
            let a = match_by_id(previous, init[m])->0;
            assert(with_mount_id(other)(previous[a]));
            assert(a != k);
            if a < k {
                assert(previous[a].0 != previous[k].0);
            } else {
                assert(previous[k].0 != previous[a].0);
            }
        }
    }
    assert forall|i: int, j: int| 0 <= i < j < init.len() implies !same_key(
        #[trigger] init[i],
        #[trigger] init[j],
    ) by {
        assert(init[i] == scan[i] && init[j] == scan[j]);
    }
    assert forall|i: int| 0 <= i < init.len() implies (#[trigger] init[i]).id is Some by {
        assert(init[i] == scan[i]);
    }
    lemma_identified_walk(previous, init, fresh);
    let next = diff_entries(previous, init, fresh).next;
    lemma_slot_of(next, uuid);
    if slot_of(next, uuid) is Some {
        let j = slot_of(next, uuid)->0;
        assert(next[j].0 == uuid_for(previous, init[j], fresh[j]));
        lemma_unidentified_match(previous, init[j]);
        assert(init[j] == scan[j]);
        assert(scan[j].id is Some);
        lemma_first_index(previous, with_mount_id(scan[j].id->0));
        assert(!(match_by_id(previous, init[j]) is Some && previous[match_by_id(
            previous,
            init[j],
        )->0].0 == uuid));
        assert(fresh[j] != previous[k].0);
    }
}

/// The changes that a walk of the scan publishes tell what the walk did:
/// taken in by a copy of the previous state, they leave under every uuid
/// what the walk has bound under it, but for the uuids of the previous state
/// that the walk has not seen again, which keep what they stood for.
proof fn lemma_walk_replay(previous: MountBindings, scan: Seq<MountPointView>, fresh: Seq<MountUuid>)
    requires
        distinct_uuids(previous),
        identified(previous),
        identified_scan(scan),
        scan.len() <= fresh.len(),
        really_fresh(previous, fresh),
    ensures
        forall|uuid: MountUuid|
            diff_entries(previous, scan, fresh).seen.contains(uuid) <==> seen_again(
                previous,
                scan,
                uuid,
            ),
        forall|uuid: MountUuid| #[trigger]
            bound_mount(replay(previous, diff_entries(previous, scan, fresh).events), uuid) == if seen_again(
                previous,
                scan,
                uuid,
            ) || bound_mount(previous, uuid) is None {
                bound_mount(diff_entries(previous, scan, fresh).next, uuid)
            } else {
                bound_mount(previous, uuid)
            },
    decreases scan.len(),
{
    let after = diff_entries(previous, scan, fresh);
    if scan.len() == 0 {
        assert forall|uuid: MountUuid| !seen_again(previous, scan, uuid) by {}
        assert forall|uuid: MountUuid| bound_mount(after.next, uuid) is None by {
            lemma_slot_of(after.next, uuid);
        }
    } else {
        let init = scan.drop_last();
        let mount = scan.last();
        let n = init.len() as int;
        assert(scan[n] == mount);
        assert forall|i: int, j: int| 0 <= i < j < init.len() implies !same_key(
            #[trigger] init[i],
            #[trigger] init[j],
        ) by {
            assert(init[i] == scan[i] && init[j] == scan[j]);
        }
        assert forall|i: int| 0 <= i < init.len() implies (#[trigger] init[i]).id is Some by {
            assert(init[i] == scan[i]);
        }
        lemma_walk_replay(previous, init, fresh);
        lemma_walk_shape(previous, init, fresh);
        let acc = diff_entries(previous, init, fresh);
        let told = replay(previous, acc.events);
        lemma_replay_distinct(previous, acc.events);
        assert(after == diff_entry(previous, acc, mount, fresh[n]));
        lemma_unidentified_match(previous, mount);
        let new_uuid = fresh[n];
        // A fresh uuid stands for nothing in the previous state.
        assert(bound_mount(previous, new_uuid) is None) by {
            lemma_slot_of(previous, new_uuid);
            if slot_of(previous, new_uuid) is Some {
                assert(fresh[n] != previous[slot_of(previous, new_uuid)->0].0);
            }
        }
        assert(!seen_again(previous, scan, new_uuid)) by {
            if seen_again(previous, scan, new_uuid) {
                let m = choose|m: int|
                    0 <= m < scan.len() && match_by_id(previous, #[trigger] scan[m]) is Some
                        && previous[match_by_id(previous, scan[m])->0].0 == new_uuid;
                lemma_first_index(previous, with_mount_id(scan[m].id->0));
                assert(fresh[n] != previous[match_by_id(previous, scan[m])->0].0);
            }
        }
        // Seeing again in the scan is seeing again before or now.
        assert forall|uuid: MountUuid|
            seen_again(previous, scan, uuid) <==> (seen_again(previous, init, uuid) || (
            match_by_id(previous, mount) is Some && previous[match_by_id(previous, mount)->0].0
                == uuid)) by {
            if seen_again(previous, init, uuid) {
                let m = choose|m: int|
                    0 <= m < init.len() && match_by_id(previous, #[trigger] init[m]) is Some
                        && previous[match_by_id(previous, init[m])->0].0 == uuid;
                assert(scan[m] == init[m]);
            }
            if seen_again(previous, scan, uuid) {
                let m = choose|m: int|
                    0 <= m < scan.len() && match_by_id(previous, #[trigger] scan[m]) is Some
                        && previous[match_by_id(previous, scan[m])->0].0 == uuid;
                if m < n {
                    assert(init[m] == scan[m]);
                }
            }
        }
        match match_by_id(previous, mount) {
            Some(k) => {
                lemma_match_is_new(previous, scan, fresh, k);
                let (uuid, known) = previous[k];
                lemma_bound_entry(previous, k);
                assert(after.seen == acc.seen.insert(uuid));
                if mount.path != known.path {
                    let gone = unbind(told, uuid);
                    lemma_unbind(told, uuid);
                    lemma_bind(gone, new_uuid, mount);
                    lemma_bind(acc.next, new_uuid, mount);
                    let events = acc.events.push(MountChangeView::Removed(uuid)).push(
                        MountChangeView::Added(new_uuid, mount),
                    );
                    assert(after.events == events);
                    assert(events.drop_last() =~= acc.events.push(MountChangeView::Removed(uuid)));
                    assert(events.drop_last().drop_last() =~= acc.events);
                    assert(replay(previous, events.drop_last()) == gone);
                    assert(replay(previous, events) == bind(gone, new_uuid, mount));
                    assert forall|u: MountUuid| #[trigger]
                        bound_mount(replay(previous, after.events), u) == if seen_again(
                            previous,
                            scan,
                            u,
                        ) || bound_mount(previous, u) is None {
                            bound_mount(after.next, u)
                        } else {
                            bound_mount(previous, u)
                        } by {
                        assert(seen_again(previous, init, u) == acc.seen.contains(u));
                        if u == new_uuid {
                        } else if u == uuid {
                            assert(seen_again(previous, scan, u));
                        } else {
                            assert(seen_again(previous, scan, u) == seen_again(previous, init, u));
                            assert(bound_mount(gone, u) == bound_mount(told, u));
                        }
                    }
                } else if mount != known {
                    lemma_bind(told, uuid, mount);
                    lemma_bind(acc.next, uuid, mount);
                    let events = acc.events.push(MountChangeView::Modified(uuid, mount));
                    assert(after.events == events);
                    assert(after.next == bind(acc.next, uuid, mount));
                    assert(events.drop_last() =~= acc.events);
                    assert(replay(previous, events) == bind(told, uuid, mount));
                    assert forall|u: MountUuid| #[trigger]
                        bound_mount(replay(previous, after.events), u) == if seen_again(
                            previous,
                            scan,
                            u,
                        ) || bound_mount(previous, u) is None {
                            bound_mount(after.next, u)
                        } else {
                            bound_mount(previous, u)
                        } by {
                        assert(seen_again(previous, init, u) == acc.seen.contains(u));
                        if u == uuid {
                            assert(seen_again(previous, scan, u));
                        } else {
                            assert(seen_again(previous, scan, u) == seen_again(previous, init, u));
                            assert(bound_mount(bind(told, uuid, mount), u) == bound_mount(told, u));
                            assert(bound_mount(bind(acc.next, uuid, mount), u) == bound_mount(
                                acc.next,
                                u,
                            ));
                        }
                    }
                } else {
                    lemma_bind(acc.next, uuid, mount);
                    assert(!seen_again(previous, init, uuid));
                    assert(bound_mount(told, uuid) == bound_mount(previous, uuid));
                    assert(bound_mount(told, uuid) == Some(mount));
                    assert forall|u: MountUuid| #[trigger]
                        bound_mount(replay(previous, after.events), u) == if seen_again(
                            previous,
                            scan,
                            u,
                        ) || bound_mount(previous, u) is None {
                            bound_mount(after.next, u)
                        } else {
                            bound_mount(previous, u)
                        } by {
                        assert(seen_again(previous, init, u) == acc.seen.contains(u));
                        if u == uuid {
                            assert(seen_again(previous, scan, u));
                        } else {
                            assert(seen_again(previous, scan, u) == seen_again(previous, init, u));
                        }
                    }
                }
            },
            None => {
                lemma_bind(told, new_uuid, mount);
                lemma_bind(acc.next, new_uuid, mount);
                let events = acc.events.push(MountChangeView::Added(new_uuid, mount));
                assert(after.events == events);
                assert(after.next == bind(acc.next, new_uuid, mount));
                assert(after.seen == acc.seen);
                assert(events.drop_last() =~= acc.events);
                assert(replay(previous, events) == bind(told, new_uuid, mount));
                assert forall|u: MountUuid| #[trigger]
                    bound_mount(replay(previous, after.events), u) == if seen_again(
                        previous,
                        scan,
                        u,
                    ) || bound_mount(previous, u) is None {
                        bound_mount(after.next, u)
                    } else {
                        bound_mount(previous, u)
                    } by {
                    assert(seen_again(previous, init, u) == acc.seen.contains(u));
                    if u != new_uuid {
                        assert(seen_again(previous, scan, u) == seen_again(previous, init, u));
                        assert(bound_mount(bind(told, new_uuid, mount), u) == bound_mount(told, u));
                        assert(bound_mount(bind(acc.next, new_uuid, mount), u) == bound_mount(
                            acc.next,
                            u,
                        ));
                    }
                }
            },
        }
    }
}

/// Taking in the removals of the entries that were not seen again unbinds
/// their uuids and leaves the others as they are.
proof fn lemma_replay_departed(
    state: MountBindings,
    previous: MountBindings,
    seen: Set<MountUuid>,
    uuid: MountUuid,
)
    requires
        distinct_uuids(state),
    ensures
        bound_mount(replay(state, departed(previous, seen)), uuid) == if !seen.contains(uuid)
            && bound_mount(previous, uuid) is Some {
            None
        } else {
            bound_mount(state, uuid)
        },
    decreases previous.len(),
{
    reveal(Seq::filter);
    lemma_slot_of(previous, uuid);
    if previous.len() == 0 {
        assert(departed(previous, seen) =~= Seq::empty());
    } else {
        let init = previous.drop_last();
        let last = previous.last();
        lemma_replay_departed(state, init, seen, uuid);
        lemma_slot_of(init, uuid);
        let kept = init.filter(unseen(seen));
        lemma_replay_distinct(state, departed(init, seen));
        let before = replay(state, departed(init, seen));
        // Whether the uuid stands in the previous state, with or without its
        // last entry.
        assert(bound_mount(previous, uuid) is Some <==> (bound_mount(init, uuid) is Some
            || last.0 == uuid)) by {
            if bound_mount(init, uuid) is Some {
                let k = slot_of(init, uuid)->0;
                assert(previous[k] == init[k]);
                assert(previous[k].0 == uuid);
            }
            if last.0 == uuid {
                assert(previous[previous.len() - 1].0 == uuid);
            }
            if bound_mount(previous, uuid) is Some {
                let k = slot_of(previous, uuid)->0;
                if k < init.len() {
                    assert(init[k] == previous[k]);
                    assert(init[k].0 == uuid);
                }
            }
        }
        if unseen(seen)(last) {
            assert(kept.push(last).map_values(removal()) =~= kept.map_values(removal()).push(
                MountChangeView::Removed(last.0),
            ));
            let changes = departed(previous, seen);
            assert(changes.drop_last() =~= departed(init, seen));
            assert(changes.last() == MountChangeView::Removed(last.0));
            lemma_unbind(before, last.0);
        }
    }
}

/// The changes that a rescan publishes tell what changed: taken in, one
/// after the other, by a copy of the state before the rescan, they leave
/// under every uuid what the state after the rescan has under it. This holds
/// where the mount table is as the kernel reports it, each entry with a mount
/// id of its own, where the state before was of such mount tables, and where
/// the uuids at hand are fresh.
pub proof fn lemma_changes_tell_the_rescan(
    previous: MountBindings,
    scan: Seq<MountPointView>,
    fresh: Seq<MountUuid>,
)
    requires
        distinct_uuids(previous),
        identified(previous),
        identified_scan(scan),
        fresh.len() == scan.len(),
        really_fresh(previous, fresh),
    ensures
        forall|uuid: MountUuid| #[trigger]
            bound_mount(replay(previous, rescan(previous, scan, fresh).0), uuid) == bound_mount(
                rescan(previous, scan, fresh).1,
                uuid,
            ),
{
    let walked = diff_entries(previous, scan, fresh);
    lemma_walk_replay(previous, scan, fresh);
    lemma_replay_distinct(previous, walked.events);
    lemma_replay_add(previous, walked.events, departed(previous, walked.seen));
    let told = replay(previous, walked.events);
    assert forall|uuid: MountUuid| #[trigger]
        bound_mount(replay(previous, rescan(previous, scan, fresh).0), uuid) == bound_mount(
            rescan(previous, scan, fresh).1,
            uuid,
        ) by {
        lemma_replay_departed(told, previous, walked.seen, uuid);
        assert(walked.seen.contains(uuid) <==> seen_again(previous, scan, uuid));
        if !walked.seen.contains(uuid) && bound_mount(previous, uuid) is Some {
            // Nothing is bound under a uuid of the previous state that was
            // not seen again.
            lemma_identified_walk(previous, scan, fresh);
            lemma_slot_of(walked.next, uuid);
            if slot_of(walked.next, uuid) is Some {
                let j = slot_of(walked.next, uuid)->0;
                assert(walked.next[j].0 == uuid_for(previous, scan[j], fresh[j]));
                lemma_unidentified_match(previous, scan[j]);
                lemma_first_index(previous, with_mount_id(scan[j].id->0));
                lemma_slot_of(previous, uuid);
                assert(fresh[j] != previous[slot_of(previous, uuid)->0].0);
            }
        }
    }
}

} // verus!
