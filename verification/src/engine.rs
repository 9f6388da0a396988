//! The watch engine: the snapshot it owns, its construction from an initial
//! scan listing, and the diff step one poll cycle performs.

use vstd::prelude::*;

use crate::events::ChangeEvent;
use crate::events::FileEvent;
use crate::events::event_views;
use crate::model::as_map;
use crate::model::cu_events;
use crate::model::cycle_events;
use crate::model::key_set;
use crate::model::lemma_as_map_dom;
use crate::model::lemma_as_map_index;
use crate::model::lemma_as_map_push;
use crate::model::lemma_as_map_update;
use crate::model::listing_view;
use crate::model::snapshot_after;
use crate::model::unique_keys;

verus! {

/// A directory watch engine: the root it watches and its snapshot, the
/// mapping from each known file path to that file's last-observed
/// modification time.
#[derive(Debug)]
pub struct FileWatcher {
    dirname: String,
    snapshot: Vec<(String, u64)>,
}

impl View for FileWatcher {
    type V = Map<Seq<char>, u64>;

    /// The snapshot as a map from path to last-observed modification time.
    closed spec fn view(&self) -> Map<Seq<char>, u64> {
        as_map(listing_view(self.snapshot@))
    }
}

impl FileWatcher {
    /// The engine's snapshot holds each path at most once.
    pub closed spec fn wf(&self) -> bool {
        unique_keys(listing_view(self.snapshot@))
    }

    /// The watched root, as a sequence of characters.
    pub closed spec fn dir(&self) -> Seq<char> {
        self.dirname@
    }

    /// Builds the engine's baseline: every listed file becomes a snapshot
    /// entry, silently, a later entry overriding an earlier one with the
    /// same path. No event is reported for any baseline file.
    #[verifier::loop_isolation(false)]
    pub fn new(dirname: String, listing: Vec<(String, u64)>) -> (w: FileWatcher)
        ensures
            w.wf(),
            w.dir() == dirname@,
            w@ == as_map(listing_view(listing@)),
    {
        let ghost lp = listing_view(listing@);
        let mut snapshot: Vec<(String, u64)> = Vec::new();
        let mut i: usize = 0;
        while i < listing.len()
            invariant
                i <= listing@.len(),
                unique_keys(listing_view(snapshot@)),
                as_map(listing_view(snapshot@)) == as_map(lp.take(i as int)),
            decreases listing@.len() - i,
        {
            let ghost sp = listing_view(snapshot@);
            let entry_path = listing[i].0.clone();
            let entry_time = listing[i].1;
            match find_key(&snapshot, &entry_path) {
                Some(j) => {
                    snapshot[j].1 = entry_time;
                    proof {
                        assert(listing_view(snapshot@) =~= sp.update(j as int, (sp[j as int].0, entry_time)));
                        lemma_as_map_update(sp, j as int, entry_time);
                    }
                },
                None => {
                    snapshot.push((entry_path, entry_time));
                    proof {
                        assert(listing_view(snapshot@) =~= sp.push((lp[i as int].0, entry_time)));
                        lemma_as_map_push(sp, (lp[i as int].0, entry_time));
                        assert forall|i1: int, i2: int|
                            0 <= i1 < i2 < listing_view(snapshot@).len() implies listing_view(
                            snapshot@,
                        )[i1].0 != listing_view(snapshot@)[i2].0 by {
                            if i2 == listing_view(snapshot@).len() - 1 {
                                assert(sp[i1].0 != lp[i as int].0);
                            }
                        }
                    }
                },
            }
            proof {
                assert(lp.take(i + 1).drop_last() =~= lp.take(i as int));
                assert(lp.take(i + 1).last() == lp[i as int]);
            }
            i = i + 1;
        }
        proof {
            assert(lp.take(listing@.len() as int) =~= lp);
        }
        FileWatcher { dirname, snapshot }
    }

    /// The root directory this engine was created for.
    pub fn dirname(&self) -> (r: &String)
        ensures
            r@ == self.dir(),
    {
        &self.dirname
    }

    /// Whether the snapshot currently holds an entry for the given path.
    pub fn contains(&self, path: &String) -> (r: bool)
        ensures
            r == self@.dom().contains(path@),
    {
        proof {
            lemma_as_map_dom(listing_view(self.snapshot@));
        }
        find_key(&self.snapshot, path).is_some()
    }

    /// The stored last-modified time for a path, if the snapshot holds one.
    pub fn stored_time(&self, path: &String) -> (r: Option<u64>)
        requires
            self.wf(),
        ensures
            r == if self@.dom().contains(path@) {
                Some(self@[path@])
            } else {
                None::<u64>
            },
    {
        proof {
            lemma_as_map_dom(listing_view(self.snapshot@));
            lemma_as_map_index(listing_view(self.snapshot@));
        }
        match find_key(&self.snapshot, path) {
            Some(j) => {
                proof {
                    let lv = listing_view(self.snapshot@);
                    assert(lv[j as int] == (self.snapshot@[j as int].0@, self.snapshot@[j as int].1));
                    assert(as_map(lv)[lv[j as int].0] == lv[j as int].1);
                }
                Some(self.snapshot[j].1)
            },
            None => None,
        }
    }

    /// One poll cycle's diff step. The fresh listing `current` is what the
    /// caller's re-scan of the root observed, each file exactly once. The
    /// snapshot is rewritten to hold exactly the listed files, a strictly
    /// newer observed timestamp replacing the stored one; the returned
    /// events report one deletion per vanished path, then the creations and
    /// updates in listing order.
    pub fn poll(&mut self, current: &Vec<(String, u64)>) -> (events: Vec<ChangeEvent>)
        requires
            old(self).wf(),
            unique_keys(listing_view(current@)),
        ensures
            final(self).wf(),
            final(self).dir() == old(self).dir(),
            final(self)@ == snapshot_after(old(self)@, as_map(listing_view(current@))),
            cycle_events(old(self)@, listing_view(current@), event_views(events@)),
    {
        let (snapshot, events) = diff_cycle(&self.snapshot, current);
        self.snapshot = snapshot;
        events
    }
}

/// Splits the previous snapshot `snap` against the fresh listing `current`
/// into the snapshot to commit and the events to report, deletions first.
#[verifier::loop_isolation(false)]
fn diff_cycle(snap: &Vec<(String, u64)>, current: &Vec<(String, u64)>) -> (res: (
    Vec<(String, u64)>,
    Vec<ChangeEvent>,
))
    requires
        unique_keys(listing_view(snap@)),
        unique_keys(listing_view(current@)),
    ensures
        unique_keys(listing_view(res.0@)),
        as_map(listing_view(res.0@)) == snapshot_after(
            as_map(listing_view(snap@)),
            as_map(listing_view(current@)),
        ),
        cycle_events(as_map(listing_view(snap@)), listing_view(current@), event_views(res.1@)),
{
    let ghost pv = listing_view(snap@);
    let ghost cp = listing_view(current@);
    let ghost prev = as_map(pv);
    let ghost cur = as_map(cp);
    proof {
        lemma_as_map_dom(pv);
        lemma_as_map_dom(cp);
        lemma_as_map_index(pv);
    }
    let mut kept: Vec<(String, u64)> = Vec::new();
    let mut events: Vec<ChangeEvent> = Vec::new();

    // Deletion pass: a snapshot entry whose path the fresh listing no longer
    // holds is reported deleted; every other entry is kept as it stands.
    let mut i: usize = 0;
    while i < snap.len()
        invariant
            i <= pv.len(),
            unique_keys(listing_view(kept@)),
            as_map(listing_view(kept@)) == as_map(pv.take(i as int)).restrict(cur.dom()),
            forall|j: int|
                0 <= j < events@.len() ==> (#[trigger] events@[j])@.0 == FileEvent::Deleted,
            forall|j1: int, j2: int|
                0 <= j1 < j2 < events@.len() ==> events@[j1]@.1 != events@[j2]@.1,
            forall|j: int|
                0 <= j < events@.len() ==> key_set(pv.take(i as int)).contains(
                    (#[trigger] events@[j])@.1,
                ) && !cur.dom().contains(events@[j]@.1),
            forall|l: int|
                0 <= l < i && !cur.dom().contains((#[trigger] pv[l]).0) ==> exists|j: int|
                    0 <= j < events@.len() && (#[trigger] events@[j])@.1 == pv[l].0,
        decreases pv.len() - i,
    {
        let ghost kp = listing_view(kept@);
        let ghost evs0 = events@;
        let entry_path = snap[i].0.clone();
        let entry_time = snap[i].1;
        proof {
            assert(pv[i as int] == (entry_path@, entry_time));
            lemma_as_map_dom(kp);
            lemma_as_map_dom(pv.take(i as int));
            assert(pv.take(i + 1).drop_last() =~= pv.take(i as int));
            assert(pv.take(i + 1).last() == pv[i as int]);
            assert(as_map(pv.take(i + 1)) == as_map(pv.take(i as int)).insert(
                pv[i as int].0,
                pv[i as int].1,
            ));
            assert forall|k: Seq<char>| key_set(pv.take(i as int)).contains(k) implies key_set(
                pv.take(i + 1),
            ).contains(k) by {
                let l = choose|l: int| 0 <= l < i && pv.take(i as int)[l].0 == k;
                assert(pv.take(i + 1)[l] == pv.take(i as int)[l]);
            }
        }
        let in_current = find_key(current, &entry_path).is_some();
        if in_current {
            proof {
                assert(cur.dom().contains(pv[i as int].0));
            }
            kept.push((entry_path, entry_time));
            proof {
                assert(listing_view(kept@) =~= kp.push(pv[i as int]));
                lemma_as_map_push(kp, pv[i as int]);
                assert forall|i1: int, i2: int|
                    0 <= i1 < i2 < listing_view(kept@).len() implies listing_view(kept@)[i1].0
                    != listing_view(kept@)[i2].0 by {
                    if i2 == listing_view(kept@).len() - 1 {
                        let k1 = listing_view(kept@)[i1].0;
                        assert(kp[i1] == listing_view(kept@)[i1]);
                        assert(key_set(kp).contains(k1));
                        assert(as_map(kp).dom().contains(k1));
                        assert(as_map(pv.take(i as int)).dom().contains(k1));
                        let l = choose|l: int|
                            0 <= l < i && pv.take(i as int)[l].0 == k1;
                        assert(pv[l] == pv.take(i as int)[l]);
                        assert(pv[l].0 != pv[i as int].0);
                    }
                }
                assert(as_map(pv.take(i as int)).insert(pv[i as int].0, pv[i as int].1).restrict(
                    cur.dom(),
                ) =~= as_map(pv.take(i as int)).restrict(cur.dom()).insert(
                    pv[i as int].0,
                    pv[i as int].1,
                ));
            }
        } else {
            proof {
                assert(!cur.dom().contains(pv[i as int].0));
            }
            events.push(ChangeEvent { kind: FileEvent::Deleted, path: entry_path });
            proof {
                assert(events@ =~= evs0.push(
                    ChangeEvent { kind: FileEvent::Deleted, path: snap@[i as int].0 },
                ));
                assert(pv.take(i + 1)[i as int] == pv[i as int]);
                assert(key_set(pv.take(i + 1)).contains(pv[i as int].0));
                assert forall|j1: int, j2: int|
                    0 <= j1 < j2 < events@.len() implies events@[j1]@.1 != events@[j2]@.1 by {
                    if j2 == events@.len() - 1 {
                        let k1 = evs0[j1]@.1;
                        assert(key_set(pv.take(i as int)).contains(k1));
                        let l = choose|l: int|
                            0 <= l < i && pv.take(i as int)[l].0 == k1;
                        assert(pv[l] == pv.take(i as int)[l]);
                        assert(pv[l].0 != pv[i as int].0);
                    }
                }
                assert(as_map(pv.take(i as int)).insert(pv[i as int].0, pv[i as int].1).restrict(
                    cur.dom(),
                ) =~= as_map(pv.take(i as int)).restrict(cur.dom()));
                assert forall|l: int|
                    0 <= l < i + 1 && !cur.dom().contains((#[trigger] pv[l]).0) implies exists|
                    j: int,
                |
                    0 <= j < events@.len() && (#[trigger] events@[j])@.1 == pv[l].0 by {
                    if l == i {
                        assert(events@[events@.len() - 1]@.1 == pv[l].0);
                    } else {
                        let j = choose|j: int|
                            0 <= j < evs0.len() && (#[trigger] evs0[j])@.1 == pv[l].0;
                        assert(events@[j]@.1 == pv[l].0);
                    }
                }
            }
        }
        i = i + 1;
    }

    let ghost m0 = prev.restrict(cur.dom());
    let ghost del_seq = events@;
    let ghost nd = events@.len() as int;
    let ghost removed = prev.dom().difference(cur.dom());
    proof {
        assert(pv.take(pv.len() as int) =~= pv);
        assert(as_map(listing_view(kept@)) == m0);
        assert(snapshot_after(prev, as_map(cp.take(0))) =~= Map::<Seq<char>, u64>::empty());
        assert(m0.union_prefer_right(snapshot_after(prev, as_map(cp.take(0)))) =~= m0);
        assert(cu_events(prev, cp.take(0)) =~= Seq::<(FileEvent, Seq<char>)>::empty());
        assert forall|k: Seq<char>| removed.contains(k) implies exists|j: int|
            0 <= j < nd && (#[trigger] del_seq[j])@.1 == k by {
            assert(key_set(pv).contains(k));
            let l = choose|l: int| 0 <= l < pv.len() && pv[l].0 == k;
            assert(!cur.dom().contains(pv[l].0));
        }
    }

    // Creation and update pass: a listed path the snapshot does not hold is
    // reported created; one it holds with a strictly newer observed
    // timestamp is reported updated; any other listed path is left silent.
    let mut t: usize = 0;
    while t < current.len()
        invariant
            t <= cp.len(),
            unique_keys(listing_view(kept@)),
            as_map(listing_view(kept@)) == m0.union_prefer_right(
                snapshot_after(prev, as_map(cp.take(t as int))),
            ),
            events@.len() == nd + cu_events(prev, cp.take(t as int)).len(),
            forall|j: int| 0 <= j < nd ==> events@[j] == del_seq[j],
            forall|j: int|
                nd <= j < events@.len() ==> (#[trigger] events@[j])@ == cu_events(
                    prev,
                    cp.take(t as int),
                )[j - nd],
        decreases cp.len() - t,
    {
        let ghost kp = listing_view(kept@);
        let ghost evs0 = events@;
        let ghost cm_t = as_map(cp.take(t as int));
        let ghost sa_t = snapshot_after(prev, cm_t);
        let ghost cu_t = cu_events(prev, cp.take(t as int));
        let entry_path = current[t].0.clone();
        let entry_time = current[t].1;
        let ghost k = entry_path@;
        proof {
            assert(cp[t as int] == (k, entry_time));
            assert(key_set(cp).contains(k));
            assert(cur.dom().contains(k));
            lemma_as_map_dom(cp.take(t as int));
            assert(!key_set(cp.take(t as int)).contains(k)) by {
                if key_set(cp.take(t as int)).contains(k) {
                    let l = choose|l: int| 0 <= l < t && cp.take(t as int)[l].0 == k;
                    assert(cp[l] == cp.take(t as int)[l]);
                }
            }
            assert(!sa_t.dom().contains(k));
            lemma_as_map_dom(kp);
            assert(cp.take(t + 1).drop_last() =~= cp.take(t as int));
            assert(cp.take(t + 1).last() == cp[t as int]);
            assert(as_map(cp.take(t + 1)) == cm_t.insert(k, entry_time));
        }
        match find_key(&kept, &entry_path) {
            Some(j) => {
                proof {
                    lemma_as_map_index(kp);
                    assert(kp[j as int] == (k, kept@[j as int].1));
                    assert(key_set(kp).contains(k));
                    assert(as_map(kp)[k] == kept@[j as int].1);
                    assert(as_map(kp).dom().contains(k));
                    assert(m0.dom().contains(k));
                    assert(prev.dom().contains(k));
                    assert(kept@[j as int].1 == prev[k]);
                }
                if entry_time > kept[j].1 {
                    events.push(ChangeEvent { kind: FileEvent::Updated, path: entry_path });
                    kept[j].1 = entry_time;
                    proof {
                        assert(listing_view(kept@) =~= kp.update(j as int, (k, entry_time)));
                        lemma_as_map_update(kp, j as int, entry_time);
                        assert(snapshot_after(prev, cm_t.insert(k, entry_time)) =~= sa_t.insert(
                            k,
                            entry_time,
                        ));
                        assert(m0.union_prefer_right(sa_t.insert(k, entry_time))
                            =~= m0.union_prefer_right(sa_t).insert(k, entry_time));
                        assert(cu_events(prev, cp.take(t + 1)) == cu_t.push((
                            FileEvent::Updated,
                            k,
                        )));
                        assert(events@ =~= evs0.push(
                            ChangeEvent { kind: FileEvent::Updated, path: current@[t as int].0 },
                        ));
                    }
                } else {
                    proof {
                        assert(snapshot_after(prev, cm_t.insert(k, entry_time)) =~= sa_t.insert(
                            k,
                            prev[k],
                        ));
                        assert(m0.union_prefer_right(sa_t.insert(k, prev[k]))
                            =~= m0.union_prefer_right(sa_t));
                        assert(cu_events(prev, cp.take(t + 1)) == cu_t);
                    }
                }
            },
            None => {
                proof {
                    assert(!as_map(kp).dom().contains(k));
                    assert(!m0.dom().contains(k));
                    assert(!prev.dom().contains(k));
                }
                events.push(ChangeEvent { kind: FileEvent::Created, path: entry_path.clone() });
                kept.push((entry_path, entry_time));
                proof {
                    assert(listing_view(kept@) =~= kp.push((k, entry_time)));
                    lemma_as_map_push(kp, (k, entry_time));
                    assert forall|i1: int, i2: int|
                        0 <= i1 < i2 < listing_view(kept@).len() implies listing_view(kept@)[i1].0
                        != listing_view(kept@)[i2].0 by {
                        if i2 == listing_view(kept@).len() - 1 {
                            assert(kp[i1] == listing_view(kept@)[i1]);
                            assert(key_set(kp).contains(kp[i1].0));
                        }
                    }
                    assert(snapshot_after(prev, cm_t.insert(k, entry_time)) =~= sa_t.insert(
                        k,
                        entry_time,
                    ));
                    assert(m0.union_prefer_right(sa_t.insert(k, entry_time))
                        =~= m0.union_prefer_right(sa_t).insert(k, entry_time));
                    assert(cu_events(prev, cp.take(t + 1)) == cu_t.push((FileEvent::Created, k)));
                    assert(events@ =~= evs0.push(
                        ChangeEvent { kind: FileEvent::Created, path: current@[t as int].0 },
                    ));
                }
            },
        }
        t = t + 1;
    }

    proof {
        assert(cp.take(cp.len() as int) =~= cp);
        assert(m0.union_prefer_right(snapshot_after(prev, cur)) =~= snapshot_after(prev, cur));
        let evs = event_views(events@);
        let cu = cu_events(prev, cp);
        assert(evs.len() == nd + cu.len());
        assert(evs.skip(nd) =~= cu) by {
            assert forall|x: int| 0 <= x < cu.len() implies evs.skip(nd)[x] == cu[x] by {
                assert(events@[x + nd]@ == cu[x]);
            }
        }
        assert forall|x: int| 0 <= x < nd implies (#[trigger] evs[x]) == del_seq[x]@ by {
            assert(events@[x] == del_seq[x]);
        }
        assert forall|k2: Seq<char>| removed.contains(k2) implies exists|x: int|
            0 <= x < nd && (#[trigger] evs[x]).1 == k2 by {
            let j = choose|j: int| 0 <= j < nd && (#[trigger] del_seq[j])@.1 == k2;
            assert(evs[j].1 == k2);
        }
    }
    (kept, events)
}

/// The index of the entry holding the given path, if any entry does.
fn find_key(entries: &Vec<(String, u64)>, path: &String) -> (r: Option<usize>)
    ensures
        r is Some <==> key_set(listing_view(entries@)).contains(path@),
        r matches Some(j) ==> 0 <= j < entries@.len() && entries@[j as int].0@ == path@,
{
    let mut i: usize = 0;
    while i < entries.len()
        invariant
            i <= entries@.len(),
            forall|l: int| 0 <= l < i ==> entries@[l].0@ != path@,
        decreases entries@.len() - i,
    {
        if entries[i].0 == *path {
            proof {
                assert(listing_view(entries@)[i as int].0 == path@);
            }
            return Some(i);
        }
        i = i + 1;
    }
    proof {
        assert forall|l: int| 0 <= l < listing_view(entries@).len() implies listing_view(
            entries@,
        )[l].0 != path@ by {
            assert(entries@[l].0@ != path@);
        }
    }
    None
}

} // verus!
