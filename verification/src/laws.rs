//! General laws of the watch engine, proved over the model that the
//! contracts of `FileWatcher::new` and `FileWatcher::poll` speak in.

use vstd::prelude::*;

use crate::events::FileEvent;
use crate::model::as_map;
use crate::model::cu_events;
use crate::model::cycle_events;
use crate::model::event_of;
use crate::model::key_set;
use crate::model::lemma_as_map_dom;
use crate::model::lemma_as_map_index;
use crate::model::snapshot_after;
use crate::model::unique_keys;

verus! {

/// A listing whose every entry is already in the snapshot, with no strictly
/// newer timestamp, produces no creation or update event.
proof fn lemma_quiet_entries(prev: Map<Seq<char>, u64>, cur: Seq<(Seq<char>, u64)>)
    requires
        forall|l: int|
            0 <= l < cur.len() ==> prev.dom().contains((#[trigger] cur[l]).0) && cur[l].1 <= prev[cur[l].0],
    ensures
        cu_events(prev, cur) == Seq::<(FileEvent, Seq<char>)>::empty(),
    decreases cur.len(),
{
    if cur.len() > 0 {
        assert forall|l: int| 0 <= l < cur.drop_last().len() implies prev.dom().contains(
            (#[trigger] cur.drop_last()[l]).0,
        ) && cur.drop_last()[l].1 <= prev[cur.drop_last()[l].0] by {
            assert(cur.drop_last()[l] == cur[l]);
        }
        lemma_quiet_entries(prev, cur.drop_last());
        assert(cur.last() == cur[cur.len() - 1]);
        assert(event_of(prev, cur.last()) is None);
    }
}

/// No-change idempotence: a poll cycle whose fresh listing holds exactly the
/// snapshot's own entries commits the same snapshot again, finds no vanished
/// path, and produces no creation or update event — so, by the contract of
/// `FileWatcher::poll`, such a cycle reports nothing at all, however often
/// it is repeated.
pub proof fn lemma_noop_cycle(prev: Map<Seq<char>, u64>, cur: Seq<(Seq<char>, u64)>)
    requires
        unique_keys(cur),
        as_map(cur) == prev,
    ensures
        snapshot_after(prev, as_map(cur)) == prev,
        cu_events(prev, cur) == Seq::<(FileEvent, Seq<char>)>::empty(),
        prev.dom().difference(as_map(cur).dom()) == Set::<Seq<char>>::empty(),
{
    lemma_as_map_dom(cur);
    lemma_as_map_index(cur);
    assert(snapshot_after(prev, prev) =~= prev);
    assert(prev.dom().difference(prev.dom()) =~= Set::<Seq<char>>::empty());
    assert forall|l: int| 0 <= l < cur.len() implies prev.dom().contains((#[trigger] cur[l]).0)
        && cur[l].1 <= prev[cur[l].0] by {
        assert(key_set(cur).contains(cur[l].0));
        assert(as_map(cur)[cur[l].0] == cur[l].1);
    }
    lemma_quiet_entries(prev, cur);
}

/// A creation/update pass reports creations and updates only, never a
/// deletion.
pub proof fn lemma_cu_events_kinds(prev: Map<Seq<char>, u64>, cur: Seq<(Seq<char>, u64)>)
    ensures
        forall|i: int|
            0 <= i < cu_events(prev, cur).len() ==> (#[trigger] cu_events(prev, cur)[i]).0
                == FileEvent::Created || cu_events(prev, cur)[i].0 == FileEvent::Updated,
    decreases cur.len(),
{
    if cur.len() > 0 {
        lemma_cu_events_kinds(prev, cur.drop_last());
    }
}

/// Within one cycle, deletions come first: in any event list meeting
/// `cycle_events`, every `Deleted` event precedes every `Created` or
/// `Updated` event.
pub proof fn lemma_deletions_first(
    prev: Map<Seq<char>, u64>,
    cur: Seq<(Seq<char>, u64)>,
    evs: Seq<(FileEvent, Seq<char>)>,
)
    requires
        cycle_events(prev, cur, evs),
    ensures
        forall|i: int, j: int|
            0 <= i < j < evs.len() && (#[trigger] evs[j]).0 == FileEvent::Deleted
                ==> (#[trigger] evs[i]).0 == FileEvent::Deleted,
{
    let cu = cu_events(prev, cur);
    let nd = evs.len() - cu.len();
    lemma_cu_events_kinds(prev, cur);
    assert forall|i: int, j: int|
        0 <= i < j < evs.len() && (#[trigger] evs[j]).0 == FileEvent::Deleted implies (
    #[trigger] evs[i]).0 == FileEvent::Deleted by {
        if j >= nd {
            assert(evs.skip(nd)[j - nd] == cu[j - nd]);
            assert(evs[j] == cu[j - nd]);
        }
    }
}

/// Which creation/update events one cycle reports: exactly the non-silent
/// classification of each listing entry against the previous snapshot.
pub proof fn lemma_cu_events_contains(prev: Map<Seq<char>, u64>, cur: Seq<(Seq<char>, u64)>)
    ensures
        forall|e: (FileEvent, Seq<char>)|
            #[trigger] cu_events(prev, cur).contains(e) <==> exists|i: int|
                0 <= i < cur.len() && (#[trigger] event_of(prev, cur[i])) == Some(e),
    decreases cur.len(),
{
    lemma_as_map_dom(cur);
    if cur.len() == 0 {
        assert forall|e: (FileEvent, Seq<char>)| !(#[trigger] cu_events(prev, cur).contains(
            e,
        )) by {
            assert(cu_events(prev, cur).len() == 0);
        }
    } else {
        let rest = cur.drop_last();
        lemma_cu_events_contains(prev, rest);
        let whole = cu_events(prev, cur);
        let cu_rest = cu_events(prev, rest);
        assert forall|e: (FileEvent, Seq<char>)| #[trigger] whole.contains(e) implies exists|
            i: int,
        |
            0 <= i < cur.len() && (#[trigger] event_of(prev, cur[i])) == Some(e) by {
            let x = choose|x: int| 0 <= x < whole.len() && whole[x] == e;
            if x < cu_rest.len() {
                assert(cu_rest[x] == e);
                assert(cu_rest.contains(e));
                let i = choose|i: int|
                    0 <= i < rest.len() && (#[trigger] event_of(prev, rest[i])) == Some(e);
                assert(rest[i] == cur[i]);
                assert(event_of(prev, cur[i]) == Some(e));
            } else {
                assert(event_of(prev, cur.last()) == Some(e));
                assert(cur.last() == cur[cur.len() - 1]);
                assert(event_of(prev, cur[cur.len() - 1]) == Some(e));
            }
        }
        assert forall|e: (FileEvent, Seq<char>)|
            (exists|i: int| 0 <= i < cur.len() && (#[trigger] event_of(prev, cur[i])) == Some(e))
                implies #[trigger] whole.contains(e) by {
            let i = choose|i: int|
                0 <= i < cur.len() && (#[trigger] event_of(prev, cur[i])) == Some(e);
            if i < cur.len() - 1 {
                assert(rest[i] == cur[i]);
                assert(event_of(prev, rest[i]) == Some(e));
                assert(cu_rest.contains(e));
                let x = choose|x: int| 0 <= x < cu_rest.len() && cu_rest[x] == e;
                assert(whole[x] == e);
            } else {
                assert(cur.last() == cur[i]);
                assert(whole[whole.len() - 1] == e);
            }
        }
    }
}

/// With unique listing paths, each path is named by at most one creation or
/// update event of a cycle, and every such event names a listed path.
pub proof fn lemma_cu_events_distinct(prev: Map<Seq<char>, u64>, cur: Seq<(Seq<char>, u64)>)
    requires
        unique_keys(cur),
    ensures
        forall|i: int|
            0 <= i < cu_events(prev, cur).len() ==> key_set(cur).contains(
                (#[trigger] cu_events(prev, cur)[i]).1,
            ),
        forall|i: int, j: int|
            0 <= i < j < cu_events(prev, cur).len() ==> cu_events(prev, cur)[i].1 != cu_events(
                prev,
                cur,
            )[j].1,
    decreases cur.len(),
{
    if cur.len() > 0 {
        let rest = cur.drop_last();
        assert forall|i: int, j: int| 0 <= i < j < rest.len() implies rest[i].0 != rest[j].0 by {
            assert(rest[i] == cur[i]);
            assert(rest[j] == cur[j]);
        }
        lemma_cu_events_distinct(prev, rest);
        let cu = cu_events(prev, cur);
        let cu_rest = cu_events(prev, rest);
        assert forall|i: int| 0 <= i < cu.len() implies key_set(cur).contains(
            (#[trigger] cu[i]).1,
        ) by {
            if i < cu_rest.len() {
                assert(cu[i] == cu_rest[i]);
                let l = choose|l: int| 0 <= l < rest.len() && rest[l].0 == cu_rest[i].1;
                assert(cur[l] == rest[l]);
            } else {
                assert(cu[i].1 == cur[cur.len() - 1].0);
            }
        }
        assert forall|i: int, j: int| 0 <= i < j < cu.len() implies cu[i].1 != cu[j].1 by {
            if j < cu_rest.len() {
                assert(cu[i] == cu_rest[i]);
                assert(cu[j] == cu_rest[j]);
            } else {
                assert(cu[i] == cu_rest[i]);
                assert(cu[j].1 == cur.last().0);
                assert(key_set(rest).contains(cu_rest[i].1));
                let l = choose|l: int| 0 <= l < rest.len() && rest[l].0 == cu_rest[i].1;
                assert(cur[l] == rest[l]);
                assert(cur[l].0 != cur[cur.len() - 1].0);
            }
        }
    }
}

/// Scan order is irrelevant: two listings holding the same entries, in
/// whatever order, yield the same committed snapshot and the same set of
/// creation and update events against any previous snapshot — and, with
/// `lemma_cu_events_distinct`, each such event exactly once either way.
pub proof fn lemma_scan_order_irrelevant(
    prev: Map<Seq<char>, u64>,
    cur1: Seq<(Seq<char>, u64)>,
    cur2: Seq<(Seq<char>, u64)>,
)
    requires
        unique_keys(cur1),
        unique_keys(cur2),
        cur1.to_set() == cur2.to_set(),
    ensures
        as_map(cur1) == as_map(cur2),
        snapshot_after(prev, as_map(cur1)) == snapshot_after(prev, as_map(cur2)),
        cu_events(prev, cur1).to_set() == cu_events(prev, cur2).to_set(),
{
    lemma_as_map_dom(cur1);
    lemma_as_map_dom(cur2);
    lemma_as_map_index(cur1);
    lemma_as_map_index(cur2);
    assert forall|k: Seq<char>| as_map(cur1).dom().contains(k) implies as_map(
        cur2,
    ).dom().contains(k) && as_map(cur2)[k] == as_map(cur1)[k] by {
        let i = choose|i: int| 0 <= i < cur1.len() && cur1[i].0 == k;
        assert(cur1.contains(cur1[i]));
        assert(cur2.to_set().contains(cur1[i]));
        assert(cur2.contains(cur1[i]));
        let j = choose|j: int| 0 <= j < cur2.len() && cur2[j] == cur1[i];
        assert(key_set(cur2).contains(k));
        assert(as_map(cur2)[cur2[j].0] == cur2[j].1);
        assert(as_map(cur1)[cur1[i].0] == cur1[i].1);
    }
    assert forall|k: Seq<char>| as_map(cur2).dom().contains(k) implies as_map(
        cur1,
    ).dom().contains(k) by {
        let j = choose|j: int| 0 <= j < cur2.len() && cur2[j].0 == k;
        assert(cur2.contains(cur2[j]));
        assert(cur1.to_set().contains(cur2[j]));
        assert(cur1.contains(cur2[j]));
        let i = choose|i: int| 0 <= i < cur1.len() && cur1[i] == cur2[j];
        assert(key_set(cur1).contains(k));
    }
    assert(as_map(cur1) =~= as_map(cur2));
    lemma_cu_events_contains(prev, cur1);
    lemma_cu_events_contains(prev, cur2);
    assert forall|e: (FileEvent, Seq<char>)| cu_events(prev, cur1).to_set().contains(
        e,
    ) implies cu_events(prev, cur2).to_set().contains(e) by {
        assert(cu_events(prev, cur1).contains(e));
        let i = choose|i: int|
            0 <= i < cur1.len() && (#[trigger] event_of(prev, cur1[i])) == Some(e);
        assert(cur1.contains(cur1[i]));
        assert(cur2.to_set().contains(cur1[i]));
        assert(cur2.contains(cur1[i]));
        let j = choose|j: int| 0 <= j < cur2.len() && cur2[j] == cur1[i];
        assert(event_of(prev, cur2[j]) == Some(e));
        assert(cu_events(prev, cur2).contains(e));
    }
    assert forall|e: (FileEvent, Seq<char>)| cu_events(prev, cur2).to_set().contains(
        e,
    ) implies cu_events(prev, cur1).to_set().contains(e) by {
        assert(cu_events(prev, cur2).contains(e));
        let j = choose|j: int|
            0 <= j < cur2.len() && (#[trigger] event_of(prev, cur2[j])) == Some(e);
        assert(cur2.contains(cur2[j]));
        assert(cur1.to_set().contains(cur2[j]));
        assert(cur1.contains(cur2[j]));
        let i = choose|i: int| 0 <= i < cur1.len() && cur1[i] == cur2[j];
        assert(event_of(prev, cur1[i]) == Some(e));
        assert(cu_events(prev, cur1).contains(e));
    }
    assert(cu_events(prev, cur1).to_set() =~= cu_events(prev, cur2).to_set());
}

} // verus!
