//! The mathematical model of the watch engine: scan listings as maps from
//! path to modification time, the snapshot a poll cycle commits, and the
//! classification of each listing entry against the previous snapshot.

use vstd::prelude::*;

use crate::events::FileEvent;

verus! {

/// A scan listing as mathematics: each entry as a path/timestamp pair.
pub open spec fn listing_view(s: Seq<(String, u64)>) -> Seq<(Seq<char>, u64)> {
    s.map_values(|e: (String, u64)| (e.0@, e.1))
}

/// No path occurs twice among the entries.
pub open spec fn unique_keys(s: Seq<(Seq<char>, u64)>) -> bool {
    forall|i: int, j: int| 0 <= i < j < s.len() ==> s[i].0 != s[j].0
}

/// The paths that occur among the entries.
pub open spec fn key_set(s: Seq<(Seq<char>, u64)>) -> Set<Seq<char>> {
    Set::new(|k: Seq<char>| exists|i: int| 0 <= i < s.len() && s[i].0 == k)
}

/// The entries as a map, a later entry overriding an earlier one with the
/// same path.
pub open spec fn as_map(s: Seq<(Seq<char>, u64)>) -> Map<Seq<char>, u64>
    decreases s.len(),
{
    if s.len() == 0 {
        Map::empty()
    } else {
        as_map(s.drop_last()).insert(s.last().0, s.last().1)
    }
}

/// The snapshot one poll cycle commits, given the previous snapshot and the
/// fresh listing's map: exactly the files the listing holds, each with the
/// later of its stored and freshly observed timestamps (a strictly newer
/// observation replaces the stored one; any other observation leaves it).
pub open spec fn snapshot_after(
    prev: Map<Seq<char>, u64>,
    cur: Map<Seq<char>, u64>,
) -> Map<Seq<char>, u64> {
    Map::new(
        |k: Seq<char>| cur.dom().contains(k),
        |k: Seq<char>|
            if prev.dom().contains(k) && prev[k] >= cur[k] {
                prev[k]
            } else {
                cur[k]
            },
    )
}

/// How one listing entry is classified against the previous snapshot: a
/// creation when its path is unknown, an update when the observed timestamp
/// is strictly newer than the stored one, and no event otherwise.
pub open spec fn event_of(
    prev: Map<Seq<char>, u64>,
    entry: (Seq<char>, u64),
) -> Option<(FileEvent, Seq<char>)> {
    if !prev.dom().contains(entry.0) {
        Some((FileEvent::Created, entry.0))
    } else if entry.1 > prev[entry.0] {
        Some((FileEvent::Updated, entry.0))
    } else {
        None
    }
}

/// The creation and update events of one cycle, in listing order.
pub open spec fn cu_events(
    prev: Map<Seq<char>, u64>,
    cur: Seq<(Seq<char>, u64)>,
) -> Seq<(FileEvent, Seq<char>)>
    decreases cur.len(),
{
    if cur.len() == 0 {
        Seq::empty()
    } else {
        let rest = cu_events(prev, cur.drop_last());
        match event_of(prev, cur.last()) {
            Some(e) => rest.push(e),
            None => rest,
        }
    }
}

/// What one poll cycle's event list must be, given the previous snapshot
/// `prev` and the fresh listing `cur`: first one `Deleted` event for each
/// vanished path — each exactly once, in no promised order — and then the
/// creation and update events, in listing order.
pub open spec fn cycle_events(
    prev: Map<Seq<char>, u64>,
    cur: Seq<(Seq<char>, u64)>,
    evs: Seq<(FileEvent, Seq<char>)>,
) -> bool {
    let cu = cu_events(prev, cur);
    let removed = prev.dom().difference(as_map(cur).dom());
    let nd = evs.len() - cu.len();
    &&& evs.len() >= cu.len()
    &&& evs.skip(nd) == cu
    &&& forall|i: int| 0 <= i < nd ==> (#[trigger] evs[i]).0 == FileEvent::Deleted
    &&& forall|i: int, j: int| 0 <= i < j < nd ==> evs[i].1 != evs[j].1
    &&& forall|i: int| 0 <= i < nd ==> removed.contains((#[trigger] evs[i]).1)
    &&& forall|k: Seq<char>|
        removed.contains(k) ==> exists|i: int| 0 <= i < nd && (#[trigger] evs[i]).1 == k
}

/// The domain of a listing's map is exactly its key set.
pub proof fn lemma_as_map_dom(s: Seq<(Seq<char>, u64)>)
    ensures
        as_map(s).dom() == key_set(s),
    decreases s.len(),
{
    if s.len() == 0 {
        assert(as_map(s).dom() =~= key_set(s));
    } else {
        lemma_as_map_dom(s.drop_last());
        assert forall|k: Seq<char>| key_set(s).contains(k) implies as_map(
            s,
        ).dom().contains(k) by {
            let i = choose|i: int| 0 <= i < s.len() && s[i].0 == k;
            if i < s.len() - 1 {
                assert(s.drop_last()[i] == s[i]);
                assert(key_set(s.drop_last()).contains(k));
            }
        }
        assert forall|k: Seq<char>| as_map(s).dom().contains(k) implies key_set(s).contains(
            k,
        ) by {
            if k == s.last().0 {
                assert(s[s.len() - 1].0 == k);
            } else {
                let i = choose|i: int| 0 <= i < s.drop_last().len() && s.drop_last()[i].0 == k;
                assert(s[i] == s.drop_last()[i]);
            }
        }
        assert(as_map(s).dom() =~= key_set(s));
    }
}

/// With unique keys, each entry's timestamp is its path's value in the map.
pub proof fn lemma_as_map_index(s: Seq<(Seq<char>, u64)>)
    requires
        unique_keys(s),
    ensures
        forall|i: int| 0 <= i < s.len() ==> as_map(s)[(#[trigger] s[i]).0] == s[i].1,
    decreases s.len(),
{
    if s.len() > 0 {
        assert forall|i: int, j: int| 0 <= i < j < s.drop_last().len() implies s.drop_last()[i].0
            != s.drop_last()[j].0 by {
            assert(s.drop_last()[i] == s[i]);
            assert(s.drop_last()[j] == s[j]);
        }
        lemma_as_map_index(s.drop_last());
        assert forall|i: int| 0 <= i < s.len() implies as_map(s)[(#[trigger] s[i]).0] == s[i].1 by {
            if i < s.len() - 1 {
                assert(s[i].0 != s.last().0);
                assert(s.drop_last()[i] == s[i]);
            }
        }
    }
}

/// Appending one entry inserts its pair into the map.
pub proof fn lemma_as_map_push(s: Seq<(Seq<char>, u64)>, e: (Seq<char>, u64))
    ensures
        as_map(s.push(e)) == as_map(s).insert(e.0, e.1),
{
    assert(s.push(e).drop_last() =~= s);
    assert(s.push(e).last() == e);
}

/// With unique keys, changing the timestamp at one index updates that path's
/// value in the map; the keys, and their uniqueness, are untouched.
pub proof fn lemma_as_map_update(s: Seq<(Seq<char>, u64)>, j: int, v: u64)
    requires
        unique_keys(s),
        0 <= j < s.len(),
    ensures
        unique_keys(s.update(j, (s[j].0, v))),
        as_map(s.update(j, (s[j].0, v))) == as_map(s).insert(s[j].0, v),
    decreases s.len(),
{
    let t = s.update(j, (s[j].0, v));
    assert forall|i1: int, i2: int| 0 <= i1 < i2 < t.len() implies t[i1].0 != t[i2].0 by {
        assert(t[i1].0 == s[i1].0);
        assert(t[i2].0 == s[i2].0);
    }
    if j == s.len() - 1 {
        assert(t.drop_last() =~= s.drop_last());
        assert(t.last() == (s[j].0, v));
        assert(as_map(t) == as_map(s.drop_last()).insert(s[j].0, v));
        assert(as_map(s).insert(s[j].0, v) =~= as_map(s.drop_last()).insert(s[j].0, v));
    } else {
        assert forall|i1: int, i2: int| 0 <= i1 < i2 < s.drop_last().len() implies s.drop_last()[i1].0
            != s.drop_last()[i2].0 by {
            assert(s.drop_last()[i1] == s[i1]);
            assert(s.drop_last()[i2] == s[i2]);
        }
        assert(s.drop_last()[j] == s[j]);
        lemma_as_map_update(s.drop_last(), j, v);
        assert(t.drop_last() =~= s.drop_last().update(j, (s[j].0, v)));
        assert(t.last() == s.last());
        assert(as_map(t) == as_map(s.drop_last()).insert(s[j].0, v).insert(
            s.last().0,
            s.last().1,
        ));
        assert(s[j].0 != s.last().0);
        assert(as_map(s.drop_last()).insert(s[j].0, v).insert(s.last().0, s.last().1)
            =~= as_map(s.drop_last()).insert(s.last().0, s.last().1).insert(s[j].0, v));
    }
}

} // verus!
