//! What holds across the operations on mediums, proved over their specifications.

use crate::error::ServerError;
use crate::mediums::{
    added_recordings, count_sets, count_tracks, find_set, find_track, fresh_sets,
    ids_fit, keep_mediums, keep_sets, keep_tracks, lemma_find_track, lemma_find_track_prefix,
    mediums_by_discid, mediums_for_recording, new_sets, new_tracks, read_set, read_sets,
    read_tracks, set_of_medium, set_track_rows, spec_delete, spec_get_medium, spec_upsert,
    upsert_outcome, written, MediumModel, TrackSetModel,
};
use crate::store::{
    find_medium, find_recording, lemma_find_medium, lemma_find_recording, spec_get_recording,
    MediumRowModel, RecordingRowModel, StoreModel, TrackRowModel, TrackSetRowModel,
};
use crate::work_parts::{encode, lemma_decode_encode};
use crate::users::User;
use vstd::prelude::*;

verus! {

/// A write by a user without edit rights on the stored owner is forbidden, and the
/// store, so every read of it, is left as it was.
pub proof fn lemma_forbidden_write_changes_nothing(
    db: StoreModel,
    after: StoreModel,
    r: Result<(), ServerError>,
    m: MediumModel,
    user: User,
    set_ids: Seq<i64>,
    track_ids: Seq<Seq<i64>>,
)
    requires
        find_medium(db.mediums, m.id) matches Some(i) && !user.spec_may_edit(db.mediums[i].created_by),
        upsert_outcome(db, after, r, m, user, set_ids, track_ids),
    ensures
        r == Err::<(), ServerError>(ServerError::Forbidden),
        after == db,
        spec_get_medium(after, m.id) == spec_get_medium(db, m.id),
{
}

proof fn lemma_keep_mediums(rows: Seq<MediumRowModel>, id: Seq<char>)
    ensures
        forall|j: int| 0 <= j < keep_mediums(rows, id).len() ==> #[trigger] keep_mediums(rows, id)[j].id != id,
    decreases rows.len(),
{
    if rows.len() > 0 {
        lemma_keep_mediums(rows.drop_last(), id);
    }
}

proof fn lemma_keep_sets(rows: Seq<TrackSetRowModel>, id: Seq<char>)
    ensures
        forall|j: int| 0 <= j < keep_sets(rows, id).len() ==> #[trigger] keep_sets(rows, id)[j].medium != id,
    decreases rows.len(),
{
    if rows.len() > 0 {
        let prev = keep_sets(rows.drop_last(), id);
        lemma_keep_sets(rows.drop_last(), id);
        if rows.last().medium != id {
            assert forall|j: int| 0 <= j < prev.len() + 1 implies #[trigger] prev.push(rows.last())[j].medium
                != id by {
                if j < prev.len() {
                    assert(prev.push(rows.last())[j] == prev[j]);
                }
            }
        }
    }
}

/// Every medium listed for a recording is the medium of one of the track-set rows read.
proof fn lemma_for_recording_ids(db: StoreModel, rec: Seq<char>, n: nat)
    requires
        n <= db.track_sets.len(),
    ensures
        mediums_for_recording(db, rec, n) matches Ok(ms) ==> forall|k: int|
            0 <= k < ms.len() ==> exists|j: int| 0 <= j < n && db.track_sets[j].medium == #[trigger] ms[k].id,
    decreases n,
{
    if n > 0 {
        lemma_for_recording_ids(db, rec, (n - 1) as nat);
        let ts = db.track_sets[n - 1];
        lemma_find_medium(db.mediums, ts.medium);
        if let Ok(ms) = mediums_for_recording(db, rec, n) {
            if let Ok(prev) = mediums_for_recording(db, rec, (n - 1) as nat) {
                assert forall|k: int| 0 <= k < ms.len() implies exists|j: int|
                    0 <= j < n && db.track_sets[j].medium == #[trigger] ms[k].id by {
                    if k < prev.len() {
                        assert(ms[k] == prev[k]);
                        let j = choose|j: int| 0 <= j < n - 1 && db.track_sets[j].medium == prev[k].id;
                        assert(0 <= j < n && db.track_sets[j].medium == ms[k].id);
                    } else {
                        assert(0 <= n - 1 < n && db.track_sets[n - 1].medium == ms[k].id);
                    }
                }
            }
        }
    }
}

/// Once a medium is deleted it is no longer found, and no query by recording lists it.
pub proof fn lemma_delete_cascades(db: StoreModel, id: Seq<char>, rec: Seq<char>)
    ensures
        spec_get_medium(spec_delete(db, id), id) == Ok::<Option<MediumModel>, ServerError>(None),
        mediums_for_recording(spec_delete(db, id), rec, spec_delete(db, id).track_sets.len()) matches Ok(
            ms,
        ) ==> forall|k: int| 0 <= k < ms.len() ==> #[trigger] ms[k].id != id,
{
    let after = spec_delete(db, id);
    lemma_keep_mediums(db.mediums, id);
    lemma_find_medium(after.mediums, id);
    lemma_keep_sets(db.track_sets, id);
    lemma_for_recording_ids(after, rec, after.track_sets.len());
    if let Ok(ms) = mediums_for_recording(after, rec, after.track_sets.len()) {
        assert forall|k: int| 0 <= k < ms.len() implies #[trigger] ms[k].id != id by {
            let j = choose|j: int| 0 <= j < after.track_sets.len() && after.track_sets[j].medium == ms[k].id;
            assert(after.track_sets[j].medium != id);
        }
    }
}

/// Every medium listed for a disc id has exactly that disc id; so a medium without
/// one is listed for no query, the empty one included.
pub proof fn lemma_discid_matches(db: StoreModel, discid: Seq<char>, n: nat)
    requires
        n <= db.mediums.len(),
    ensures
        mediums_by_discid(db, discid, n) matches Ok(ms) ==> forall|k: int|
            0 <= k < ms.len() ==> #[trigger] ms[k].discid == Some(discid),
    decreases n,
{
    if n > 0 {
        lemma_discid_matches(db, discid, (n - 1) as nat);
        if let Ok(ms) = mediums_by_discid(db, discid, n) {
            if let Ok(prev) = mediums_by_discid(db, discid, (n - 1) as nat) {
                assert forall|k: int| 0 <= k < ms.len() implies #[trigger] ms[k].discid == Some(discid) by {
                    if k < prev.len() {
                        assert(ms[k] == prev[k]);
                    }
                }
            }
        }
    }
}

// ---- Counting and finding rows in joined tables ----

proof fn lemma_count_sets_concat(a: Seq<TrackSetRowModel>, b: Seq<TrackSetRowModel>, id: Seq<char>)
    ensures
        count_sets(a + b, id) == count_sets(a, id) + count_sets(b, id),
    decreases b.len(),
{
    if b.len() == 0 {
        assert(a + b =~= a);
    } else {
        lemma_count_sets_concat(a, b.drop_last(), id);
        assert((a + b).drop_last() =~= a + b.drop_last());
    }
}

proof fn lemma_count_sets_none(s: Seq<TrackSetRowModel>, id: Seq<char>)
    requires
        forall|j: int| 0 <= j < s.len() ==> #[trigger] s[j].medium != id,
    ensures
        count_sets(s, id) == 0,
    decreases s.len(),
{
    if s.len() > 0 {
        lemma_count_sets_none(s.drop_last(), id);
    }
}

proof fn lemma_count_sets_all(s: Seq<TrackSetRowModel>, id: Seq<char>)
    requires
        forall|j: int| 0 <= j < s.len() ==> #[trigger] s[j].medium == id,
    ensures
        count_sets(s, id) == s.len(),
    decreases s.len(),
{
    if s.len() > 0 {
        lemma_count_sets_all(s.drop_last(), id);
    }
}

proof fn lemma_find_set_none(s: Seq<TrackSetRowModel>, id: Seq<char>, k: int)
    requires
        forall|j: int| 0 <= j < s.len() ==> !(#[trigger] s[j].medium == id && s[j].index == k),
    ensures
        find_set(s, id, k) is None,
    decreases s.len(),
{
    if s.len() > 0 {
        lemma_find_set_none(s.drop_last(), id, k);
    }
}

proof fn lemma_find_set_concat(a: Seq<TrackSetRowModel>, b: Seq<TrackSetRowModel>, id: Seq<char>, k: int)
    requires
        find_set(a, id, k) is None,
    ensures
        find_set(a + b, id, k) == match find_set(b, id, k) {
            Some(p) => Some(p + a.len()),
            None => None::<int>,
        },
    decreases b.len(),
{
    if b.len() == 0 {
        assert(a + b =~= a);
    } else {
        lemma_find_set_concat(a, b.drop_last(), id, k);
        assert((a + b).drop_last() =~= a + b.drop_last());
    }
}

proof fn lemma_find_set_dense(s: Seq<TrackSetRowModel>, id: Seq<char>, k: int)
    requires
        0 <= k < s.len(),
        forall|j: int| 0 <= j < s.len() ==> (#[trigger] s[j]).medium == id && s[j].index == j,
    ensures
        find_set(s, id, k) == Some(k),
    decreases s.len(),
{
    if k < s.len() - 1 {
        lemma_find_set_dense(s.drop_last(), id, k);
    } else {
        lemma_find_set_none(s.drop_last(), id, k);
        let l = s.len() - 1;
        assert(s[l].medium == id && s[l].index == l);
        assert(l == k);
    }
}

proof fn lemma_count_tracks_concat(a: Seq<TrackRowModel>, b: Seq<TrackRowModel>, ts: i64)
    ensures
        count_tracks(a + b, ts) == count_tracks(a, ts) + count_tracks(b, ts),
    decreases b.len(),
{
    if b.len() == 0 {
        assert(a + b =~= a);
    } else {
        lemma_count_tracks_concat(a, b.drop_last(), ts);
        assert((a + b).drop_last() =~= a + b.drop_last());
    }
}

proof fn lemma_count_tracks_none(s: Seq<TrackRowModel>, ts: i64)
    requires
        forall|j: int| 0 <= j < s.len() ==> #[trigger] s[j].track_set != ts,
    ensures
        count_tracks(s, ts) == 0,
    decreases s.len(),
{
    if s.len() > 0 {
        lemma_count_tracks_none(s.drop_last(), ts);
    }
}

proof fn lemma_count_tracks_all(s: Seq<TrackRowModel>, ts: i64)
    requires
        forall|j: int| 0 <= j < s.len() ==> #[trigger] s[j].track_set == ts,
    ensures
        count_tracks(s, ts) == s.len(),
    decreases s.len(),
{
    if s.len() > 0 {
        lemma_count_tracks_all(s.drop_last(), ts);
    }
}

proof fn lemma_find_track_none(s: Seq<TrackRowModel>, ts: i64, k: int)
    requires
        forall|j: int| 0 <= j < s.len() ==> #[trigger] s[j].track_set != ts,
    ensures
        find_track(s, ts, k) is None,
    decreases s.len(),
{
    if s.len() > 0 {
        lemma_find_track_none(s.drop_last(), ts, k);
    }
}

proof fn lemma_find_track_concat(a: Seq<TrackRowModel>, b: Seq<TrackRowModel>, ts: i64, k: int)
    requires
        find_track(a, ts, k) is None,
    ensures
        find_track(a + b, ts, k) == match find_track(b, ts, k) {
            Some(p) => Some(p + a.len()),
            None => None::<int>,
        },
    decreases b.len(),
{
    if b.len() == 0 {
        assert(a + b =~= a);
    } else {
        lemma_find_track_concat(a, b.drop_last(), ts, k);
        assert((a + b).drop_last() =~= a + b.drop_last());
    }
}

proof fn lemma_find_track_keeps_hit(a: Seq<TrackRowModel>, b: Seq<TrackRowModel>, ts: i64, k: int)
    requires
        find_track(a, ts, k) is Some,
    ensures
        find_track(a + b, ts, k) == find_track(a, ts, k),
{
    assert((a + b).take(a.len() as int) =~= a);
    lemma_find_track_prefix(a + b, ts, k, a.len() as int);
}

proof fn lemma_find_track_dense(s: Seq<TrackRowModel>, ts: i64, k: int)
    requires
        0 <= k < s.len(),
        forall|j: int| 0 <= j < s.len() ==> (#[trigger] s[j]).track_set == ts && s[j].index == j,
    ensures
        find_track(s, ts, k) == Some(k),
    decreases s.len(),
{
    if k < s.len() - 1 {
        lemma_find_track_dense(s.drop_last(), ts, k);
    } else {
        lemma_find_track_none_at(s.drop_last(), ts, k);
        let l = s.len() - 1;
        assert(s[l].track_set == ts && s[l].index == l);
        assert(l == k);
    }
}

proof fn lemma_find_track_none_at(s: Seq<TrackRowModel>, ts: i64, k: int)
    requires
        forall|j: int| 0 <= j < s.len() ==> !(#[trigger] s[j].track_set == ts && s[j].index == k),
    ensures
        find_track(s, ts, k) is None,
    decreases s.len(),
{
    if s.len() > 0 {
        lemma_find_track_none_at(s.drop_last(), ts, k);
    }
}

// ---- The rows that a write adds ----

proof fn lemma_new_tracks_owners(sets: Seq<TrackSetModel>, set_ids: Seq<i64>, track_ids: Seq<Seq<i64>>)
    ensures
        forall|t: int|
            0 <= t < new_tracks(sets, set_ids, track_ids).len() ==> exists|kk: int|
                0 <= kk < sets.len() && #[trigger] new_tracks(sets, set_ids, track_ids)[t].track_set
                    == set_ids[kk],
    decreases sets.len(),
{
    if sets.len() > 0 {
        let k = sets.len() - 1;
        let prev = new_tracks(sets.drop_last(), set_ids, track_ids);
        let block = set_track_rows(sets[k], set_ids[k], track_ids[k]);
        lemma_new_tracks_owners(sets.drop_last(), set_ids, track_ids);
        assert forall|t: int| 0 <= t < (prev + block).len() implies exists|kk: int|
            0 <= kk < sets.len() && #[trigger] (prev + block)[t].track_set == set_ids[kk] by {
            if t < prev.len() {
                assert((prev + block)[t] == prev[t]);
                let kk = choose|kk: int| 0 <= kk < sets.len() - 1 && prev[t].track_set == set_ids[kk];
                assert(0 <= kk < sets.len() && (prev + block)[t].track_set == set_ids[kk]);
            } else {
                assert((prev + block)[t] == block[t - prev.len()]);
                assert((prev + block)[t].track_set == set_ids[k]);
            }
        }
    }
}

/// Within the tracks that a write adds, those of track set `k` are found at their
/// positions, in order, and hold the encoded work parts.
proof fn lemma_new_tracks_of_set(
    sets: Seq<TrackSetModel>,
    set_ids: Seq<i64>,
    track_ids: Seq<Seq<i64>>,
    k: int,
    n: int,
)
    requires
        0 <= k < n <= sets.len(),
        set_ids.len() == sets.len(),
        forall|kk: int| 0 <= kk < sets.len() ==> #[trigger] track_ids[kk].len() == sets[kk].tracks.len(),
        forall|k1: int, k2: int|
            0 <= k1 < sets.len() && 0 <= k2 < sets.len() && k1 != k2 ==> #[trigger] set_ids[k1]
                != #[trigger] set_ids[k2],
    ensures
        ({
            let nt = new_tracks(sets.take(n), set_ids, track_ids);
            let off = new_tracks(sets.take(k), set_ids, track_ids).len();
            &&& count_tracks(nt, set_ids[k]) == sets[k].tracks.len()
            &&& forall|j: int|
                0 <= j < sets[k].tracks.len() ==> #[trigger] find_track(nt, set_ids[k], j) == Some(off + j)
                    && nt[off + j].work_parts == encode(sets[k].tracks[j])
        }),
    decreases n,
{
    let ts = set_ids[k];
    let nt = new_tracks(sets.take(n), set_ids, track_ids);
    let prev = new_tracks(sets.take(n - 1), set_ids, track_ids);
    let block = set_track_rows(sets[n - 1], set_ids[n - 1], track_ids[n - 1]);
    assert(sets.take(n).drop_last() =~= sets.take(n - 1));
    assert(sets.take(n)[n - 1] == sets[n - 1]);
    assert(nt == prev + block);
    let off = new_tracks(sets.take(k), set_ids, track_ids).len();
    if n == k + 1 {
        lemma_new_tracks_owners(sets.take(k), set_ids, track_ids);
        assert forall|j: int| 0 <= j < prev.len() implies #[trigger] prev[j].track_set != ts by {
            let kk = choose|kk: int| 0 <= kk < sets.take(k).len() && prev[j].track_set == set_ids[kk];
        }
        lemma_count_tracks_none(prev, ts);
        lemma_count_tracks_all(block, ts);
        lemma_count_tracks_concat(prev, block, ts);
        assert forall|j: int| 0 <= j < sets[k].tracks.len() implies #[trigger] find_track(nt, ts, j) == Some(
            off + j,
        ) && nt[off + j].work_parts == encode(sets[k].tracks[j]) by {
            lemma_find_track_none(prev, ts, j);
            lemma_find_track_dense(block, ts, j);
            lemma_find_track_concat(prev, block, ts, j);
            assert(nt[off + j] == block[j]);
        }
    } else {
        lemma_new_tracks_of_set(sets, set_ids, track_ids, k, n - 1);
        assert forall|j: int| 0 <= j < block.len() implies #[trigger] block[j].track_set != ts by {
            assert(set_ids[n - 1] != set_ids[k]);
        }
        lemma_count_tracks_none(block, ts);
        lemma_count_tracks_concat(prev, block, ts);
        assert forall|j: int| 0 <= j < sets[k].tracks.len() implies #[trigger] find_track(nt, ts, j) == Some(
            off + j,
        ) && nt[off + j].work_parts == encode(sets[k].tracks[j]) by {
            assert(find_track(prev, ts, j) == Some(off + j));
            lemma_find_track_keeps_hit(prev, block, ts, j);
            lemma_find_track(prev, ts, j);
            assert(nt[off + j] == prev[off + j]);
        }
    }
}

proof fn lemma_added_recordings(existing: Seq<RecordingRowModel>, sets: Seq<TrackSetModel>, user: Seq<char>)
    ensures
        forall|k: int|
            0 <= k < sets.len() ==> #[trigger] find_recording(
                existing + added_recordings(existing, sets, user),
                sets[k].recording.id,
            ) is Some,
    decreases sets.len(),
{
    if sets.len() > 0 {
        let prev = added_recordings(existing, sets.drop_last(), user);
        lemma_added_recordings(existing, sets.drop_last(), user);
        let all = existing + added_recordings(existing, sets, user);
        assert forall|k: int| 0 <= k < sets.len() implies #[trigger] find_recording(all, sets[k].recording.id)
            is Some by {
            let rid = sets[k].recording.id;
            if all != existing + prev {
                assert(all.drop_last() =~= existing + prev);
            }
            if k < sets.len() - 1 {
                assert(sets.drop_last()[k] == sets[k]);
                assert(find_recording(existing + prev, rid) is Some);
            }
        }
    }
}

/// Whether some track-set row has key `ts`.
pub open spec fn has_set(sets: Seq<TrackSetRowModel>, ts: i64) -> bool {
    exists|j: int| 0 <= j < sets.len() && sets[j].id == ts
}

/// Every track row belongs to a stored track set.
pub open spec fn intact(db: StoreModel) -> bool {
    forall|t: int| 0 <= t < db.tracks.len() ==> #[trigger] has_set(db.track_sets, db.tracks[t].track_set)
}

/// Whether every track of `m` plays at least one work part.
pub open spec fn parts_given(m: MediumModel) -> bool {
    forall|k: int, j: int|
        0 <= k < m.tracks.len() && 0 <= j < m.tracks[k].tracks.len() ==> #[trigger] m.tracks[k].tracks[j].len()
            > 0
}

proof fn lemma_keep_tracks_from(rows: Seq<TrackRowModel>, sets: Seq<TrackSetRowModel>, id: Seq<char>)
    ensures
        forall|t: int|
            0 <= t < keep_tracks(rows, sets, id).len() ==> exists|i: int|
                0 <= i < rows.len() && rows[i] == #[trigger] keep_tracks(rows, sets, id)[t]
                    && !set_of_medium(sets, id, rows[i].track_set),
    decreases rows.len(),
{
    if rows.len() > 0 {
        let init = rows.drop_last();
        let prev = keep_tracks(init, sets, id);
        lemma_keep_tracks_from(init, sets, id);
        let cur = keep_tracks(rows, sets, id);
        assert forall|t: int| 0 <= t < cur.len() implies exists|i: int|
            0 <= i < rows.len() && rows[i] == #[trigger] cur[t] && !set_of_medium(sets, id, rows[i].track_set) by {
            if t < prev.len() {
                assert(cur[t] == prev[t]);
                let i = choose|i: int| 0 <= i < init.len() && init[i] == prev[t] && !set_of_medium(sets, id, init[i].track_set);
                assert(rows[i] == init[i]);
            } else {
                assert(cur[t] == rows[rows.len() - 1]);
            }
        }
    }
}

proof fn lemma_keep_sets_has(rows: Seq<TrackSetRowModel>, id: Seq<char>)
    ensures
        forall|j: int|
            0 <= j < rows.len() && rows[j].medium != id ==> exists|j2: int|
                0 <= j2 < keep_sets(rows, id).len() && keep_sets(rows, id)[j2] == #[trigger] rows[j],
    decreases rows.len(),
{
    if rows.len() > 0 {
        let init = rows.drop_last();
        let prev = keep_sets(init, id);
        lemma_keep_sets_has(init, id);
        let cur = keep_sets(rows, id);
        assert forall|j: int| 0 <= j < rows.len() && rows[j].medium != id implies exists|j2: int|
            0 <= j2 < cur.len() && cur[j2] == #[trigger] rows[j] by {
            if j < rows.len() - 1 {
                assert(init[j] == rows[j]);
                let j2 = choose|j2: int| 0 <= j2 < prev.len() && prev[j2] == init[j];
                assert(cur[j2] == prev[j2]);
            } else {
                assert(cur[cur.len() - 1] == rows[j]);
            }
        }
    }
}

proof fn lemma_read_tracks_ok(db: StoreModel, ts: i64, parts: Seq<Seq<usize>>, off: int, n: nat)
    requires
        n <= parts.len(),
        forall|j: int|
            0 <= j < parts.len() ==> #[trigger] find_track(db.tracks, ts, j) == Some(off + j)
                && db.tracks[off + j].work_parts == encode(parts[j]) && parts[j].len() > 0,
    ensures
        read_tracks(db, ts, n) == Ok::<Seq<Seq<usize>>, crate::error::ServerError>(parts.take(n as int)),
    decreases n,
{
    if n == 0 {
        assert(parts.take(0) =~= seq![]);
    } else {
        lemma_read_tracks_ok(db, ts, parts, off, (n - 1) as nat);
        assert(find_track(db.tracks, ts, n - 1) == Some(off + n - 1));
        lemma_decode_encode(parts[n - 1]);
        assert(parts.take(n as int) =~= parts.take(n - 1).push(parts[n - 1]));
    }
}

proof fn lemma_read_sets_ok(db: StoreModel, id: Seq<char>, sets: Seq<TrackSetModel>, off: int, n: nat)
    requires
        n <= sets.len(),
        forall|k: int|
            0 <= k < sets.len() ==> #[trigger] find_set(db.track_sets, id, k) == Some(off + k)
                && read_set(db, db.track_sets[off + k]) == Ok::<TrackSetModel, crate::error::ServerError>(sets[k]),
    ensures
        read_sets(db, id, n) == Ok::<Seq<TrackSetModel>, crate::error::ServerError>(sets.take(n as int)),
    decreases n,
{
    if n == 0 {
        assert(sets.take(0) =~= seq![]);
    } else {
        lemma_read_sets_ok(db, id, sets, off, (n - 1) as nat);
        assert(find_set(db.track_sets, id, n - 1) == Some(off + n - 1));
        assert(sets.take(n as int) =~= sets.take(n - 1).push(sets[n - 1]));
    }
}

/// The medium that reading back a written medium `m` gives: its own id, name, disc id
/// and track sets in order, each with the stored recording it refers to and the work
/// parts of its tracks in order.
pub open spec fn read_back(next: StoreModel, m: MediumModel) -> MediumModel {
    MediumModel {
        id: m.id,
        name: m.name,
        discid: m.discid,
        tracks: Seq::new(
            m.tracks.len(),
            |k: int|
                TrackSetModel {
                    recording: spec_get_recording(next, m.tracks[k].recording.id)->Some_0,
                    tracks: m.tracks[k].tracks,
                },
        ),
    }
}

/// Facts shared by the proofs about a successful write.
proof fn lemma_write_facts(
    db: StoreModel,
    m: MediumModel,
    user: User,
    set_ids: Seq<i64>,
    track_ids: Seq<Seq<i64>>,
)
    requires
        intact(db),
        ids_fit(m, set_ids, track_ids),
        spec_upsert(db, m, user, set_ids, track_ids) is Ok,
    ensures
        ({
            let next = written(db, m, user, set_ids, track_ids);
            let base = spec_delete(db, m.id);
            &&& spec_upsert(db, m, user, set_ids, track_ids) == Ok::<StoreModel, ServerError>(next)
            &&& next.track_sets == base.track_sets + new_sets(m, set_ids)
            &&& next.tracks == base.tracks + new_tracks(m.tracks, set_ids, track_ids)
            &&& forall|j: int| 0 <= j < base.track_sets.len() ==> #[trigger] base.track_sets[j].medium != m.id
            &&& forall|k1: int, k2: int|
                0 <= k1 < m.tracks.len() && 0 <= k2 < m.tracks.len() && k1 != k2 ==> #[trigger] set_ids[k1]
                    != #[trigger] set_ids[k2]
            &&& forall|k: int, t: int|
                0 <= k < m.tracks.len() && 0 <= t < base.tracks.len() ==> #[trigger] base.tracks[t].track_set
                    != #[trigger] set_ids[k]
            &&& intact(base)
        }),
{
    let next = written(db, m, user, set_ids, track_ids);
    let base = spec_delete(db, m.id);
    let bl = base.track_sets.len() as int;
    let ns = new_sets(m, set_ids);
    lemma_keep_sets(db.track_sets, m.id);
    assert(fresh_sets(next.track_sets, bl));
    assert forall|k1: int, k2: int|
        0 <= k1 < m.tracks.len() && 0 <= k2 < m.tracks.len() && k1 != k2 implies #[trigger] set_ids[k1]
            != #[trigger] set_ids[k2] by {
        assert(next.track_sets[bl + k1] == ns[k1]);
        assert(next.track_sets[bl + k2] == ns[k2]);
        assert(next.track_sets[bl + k1].id != next.track_sets[bl + k2].id);
    }
    lemma_keep_tracks_from(db.tracks, db.track_sets, m.id);
    lemma_keep_sets_has(db.track_sets, m.id);
    assert forall|t: int| 0 <= t < base.tracks.len() implies #[trigger] has_set(
        base.track_sets,
        base.tracks[t].track_set,
    ) by {
        let i = choose|i: int|
            0 <= i < db.tracks.len() && db.tracks[i] == base.tracks[t] && !set_of_medium(
                db.track_sets,
                m.id,
                db.tracks[i].track_set,
            );
        assert(has_set(db.track_sets, db.tracks[i].track_set));
        let j = choose|j: int| 0 <= j < db.track_sets.len() && db.track_sets[j].id == db.tracks[i].track_set;
        assert(db.track_sets[j].medium != m.id);
        let j2 = choose|j2: int|
            0 <= j2 < base.track_sets.len() && base.track_sets[j2] == #[trigger] db.track_sets[j];
        assert(base.track_sets[j2].id == base.tracks[t].track_set);
    }
    assert(fresh_sets(next.track_sets, bl));
    assert forall|k: int, t: int|
        0 <= k < m.tracks.len() && 0 <= t < base.tracks.len() implies #[trigger] base.tracks[t].track_set
            != #[trigger] set_ids[k] by {
        assert(has_set(base.track_sets, base.tracks[t].track_set));
        let j2 = choose|j2: int| 0 <= j2 < base.track_sets.len() && base.track_sets[j2].id == base.tracks[t].track_set;
        assert(next.track_sets[bl + k] == ns[k]);
        assert(next.track_sets[j2] == base.track_sets[j2]);
        assert(next.track_sets[bl + k].id != next.track_sets[j2].id);
    }
}

/// Writing a medium and reading it back gives the medium that was written: the same
/// name and disc id, its track sets in the order given, each referring to the
/// recording it named, and each track with the same work parts in the same order.
/// This holds where every track row of the store belongs to a stored track set, and
/// where every track names at least one work part (an empty list is stored as empty
/// text, which does not read back).
pub proof fn lemma_round_trip(
    db: StoreModel,
    m: MediumModel,
    user: User,
    set_ids: Seq<i64>,
    track_ids: Seq<Seq<i64>>,
)
    requires
        intact(db),
        parts_given(m),
        ids_fit(m, set_ids, track_ids),
        spec_upsert(db, m, user, set_ids, track_ids) is Ok,
    ensures
        ({
            let next = written(db, m, user, set_ids, track_ids);
            &&& spec_upsert(db, m, user, set_ids, track_ids) == Ok::<StoreModel, ServerError>(next)
            &&& spec_get_medium(next, m.id) == Ok::<Option<MediumModel>, ServerError>(
                Some(read_back(next, m)),
            )
            &&& forall|k: int|
                0 <= k < m.tracks.len() ==> ((#[trigger] spec_get_recording(
                    next,
                    m.tracks[k].recording.id,
                )) matches Some(rec) && rec.id == m.tracks[k].recording.id)
        }),
{
    let next = written(db, m, user, set_ids, track_ids);
    let base = spec_delete(db, m.id);
    let ns = new_sets(m, set_ids);
    let nt = new_tracks(m.tracks, set_ids, track_ids);
    let bl = base.track_sets.len() as int;
    let btl = base.tracks.len() as int;
    let n = m.tracks.len();
    lemma_write_facts(db, m, user, set_ids, track_ids);

    lemma_keep_mediums(db.mediums, m.id);
    lemma_find_medium(base.mediums, m.id);
    assert(next.mediums.drop_last() =~= base.mediums);
    assert(find_medium(next.mediums, m.id) == Some(base.mediums.len() as int));

    lemma_count_sets_none(base.track_sets, m.id);
    lemma_count_sets_all(ns, m.id);
    lemma_count_sets_concat(base.track_sets, ns, m.id);
    lemma_added_recordings(db.recordings, m.tracks, user.username@);
    assert(m.tracks.take(n as int) =~= m.tracks);

    assert forall|k: int| 0 <= k < n implies ((#[trigger] spec_get_recording(next, m.tracks[k].recording.id))
        matches Some(rec) && rec.id == m.tracks[k].recording.id) by {
        lemma_find_recording(next.recordings, m.tracks[k].recording.id);
    }

    let expected = read_back(next, m).tracks;
    assert forall|k: int| 0 <= k < n implies #[trigger] find_set(next.track_sets, m.id, k) == Some(bl + k)
        && read_set(next, next.track_sets[bl + k]) == Ok::<TrackSetModel, ServerError>(expected[k]) by {
        lemma_find_set_none(base.track_sets, m.id, k);
        lemma_find_set_dense(ns, m.id, k);
        lemma_find_set_concat(base.track_sets, ns, m.id, k);
        assert(next.track_sets[bl + k] == ns[k]);
        let rid = m.tracks[k].recording.id;
        let ts = set_ids[k];
        lemma_find_recording(next.recordings, rid);
        lemma_new_tracks_of_set(m.tracks, set_ids, track_ids, k, n as int);
        let off = new_tracks(m.tracks.take(k), set_ids, track_ids).len() as int;
        assert forall|t: int| 0 <= t < base.tracks.len() implies #[trigger] base.tracks[t].track_set != ts by {
            assert(base.tracks[t].track_set != set_ids[k]);
        }
        lemma_count_tracks_none(base.tracks, ts);
        lemma_count_tracks_concat(base.tracks, nt, ts);
        let parts = m.tracks[k].tracks;
        assert forall|j: int| 0 <= j < parts.len() implies #[trigger] find_track(next.tracks, ts, j) == Some(
            btl + off + j,
        ) && next.tracks[btl + off + j].work_parts == encode(parts[j]) && parts[j].len() > 0 by {
            lemma_find_track_none(base.tracks, ts, j);
            lemma_find_track_concat(base.tracks, nt, ts, j);
            assert(find_track(nt, ts, j) == Some(off + j));
            lemma_find_track(nt, ts, j);
            assert(next.tracks[btl + off + j] == nt[off + j]);
        }
        lemma_read_tracks_ok(next, ts, parts, btl + off, parts.len());
        assert(parts.take(parts.len() as int) =~= parts);
    }
    lemma_read_sets_ok(next, m.id, expected, bl, n);
    assert(expected.take(n as int) =~= expected);
    assert(read_back(next, m) == MediumModel {
        id: m.id,
        name: m.name,
        discid: m.discid,
        tracks: expected,
    });
}

/// A successful write keeps every track row belonging to a stored track set.
pub proof fn lemma_write_keeps_intact(
    db: StoreModel,
    m: MediumModel,
    user: User,
    set_ids: Seq<i64>,
    track_ids: Seq<Seq<i64>>,
)
    requires
        intact(db),
        ids_fit(m, set_ids, track_ids),
        spec_upsert(db, m, user, set_ids, track_ids) is Ok,
    ensures
        intact(written(db, m, user, set_ids, track_ids)),
{
    let next = written(db, m, user, set_ids, track_ids);
    let base = spec_delete(db, m.id);
    let ns = new_sets(m, set_ids);
    let nt = new_tracks(m.tracks, set_ids, track_ids);
    let bl = base.track_sets.len() as int;
    let btl = base.tracks.len() as int;
    lemma_write_facts(db, m, user, set_ids, track_ids);
    lemma_new_tracks_owners(m.tracks, set_ids, track_ids);
    assert forall|t: int| 0 <= t < next.tracks.len() implies #[trigger] has_set(
        next.track_sets,
        next.tracks[t].track_set,
    ) by {
        if t < btl {
            assert(next.tracks[t] == base.tracks[t]);
            assert(has_set(base.track_sets, base.tracks[t].track_set));
            let j = choose|j: int| 0 <= j < base.track_sets.len() && base.track_sets[j].id == base.tracks[t].track_set;
            assert(next.track_sets[j] == base.track_sets[j]);
        } else {
            assert(next.tracks[t] == nt[t - btl]);
            let kk = choose|kk: int| 0 <= kk < m.tracks.len() && #[trigger] nt[t - btl].track_set == set_ids[kk];
            assert(next.track_sets[bl + kk] == ns[kk]);
        }
    }
}

/// Writing a medium id a second time leaves only the second medium observable: reading
/// the id back gives the second medium, with nothing of the first.
pub proof fn lemma_second_write_replaces(
    db: StoreModel,
    m1: MediumModel,
    m2: MediumModel,
    user1: User,
    user2: User,
    set_ids1: Seq<i64>,
    track_ids1: Seq<Seq<i64>>,
    set_ids2: Seq<i64>,
    track_ids2: Seq<Seq<i64>>,
)
    requires
        intact(db),
        m1.id == m2.id,
        parts_given(m2),
        ids_fit(m1, set_ids1, track_ids1),
        ids_fit(m2, set_ids2, track_ids2),
        spec_upsert(db, m1, user1, set_ids1, track_ids1) is Ok,
        spec_upsert(written(db, m1, user1, set_ids1, track_ids1), m2, user2, set_ids2, track_ids2) is Ok,
    ensures
        ({
            let db1 = written(db, m1, user1, set_ids1, track_ids1);
            let db2 = written(db1, m2, user2, set_ids2, track_ids2);
            spec_get_medium(db2, m1.id) == Ok::<Option<MediumModel>, ServerError>(Some(read_back(db2, m2)))
        }),
{
    lemma_write_keeps_intact(db, m1, user1, set_ids1, track_ids1);
    lemma_round_trip(written(db, m1, user1, set_ids1, track_ids1), m2, user2, set_ids2, track_ids2);
}

} // verus!
