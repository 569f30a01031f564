//! Mediums: reading the aggregate back from the flat rows, replacing it as a whole, and
//! deleting it with its track sets and tracks.

use crate::error::ServerError;
use crate::store::{
    find_medium, find_recording, get_recording, lemma_find_recording, RecordingRow, RecordingRowModel, lemma_find_medium, spec_get_recording, Database, MediumRow,
    MediumRowModel, Recording, RecordingModel, StoreModel, TrackRow, TrackRowModel, TrackSetRow,
    TrackSetRowModel,
};
use crate::text::{copy_opt, opt_view, str_eq};
use crate::users::User;
use crate::work_parts::{decode, decode_work_parts, encode, encode_work_parts};
use vstd::prelude::*;

verus! {

/// A medium containing multiple recordings.
#[derive(Debug)]
pub struct Medium {
    /// A unique ID for the medium.
    pub id: String,
    /// The human identifier for the medium.
    pub name: String,
    /// If applicable, the MusicBrainz DiscID.
    pub discid: Option<String>,
    /// The tracks of the medium, grouped by recording.
    pub tracks: Vec<TrackSet>,
}

/// A set of tracks of one recording within a medium.
#[derive(Debug)]
pub struct TrackSet {
    /// The recording to which the tracks belong.
    pub recording: Recording,
    /// The actual tracks.
    pub tracks: Vec<Track>,
}

/// A track within a recording on a medium.
#[derive(Debug)]
pub struct Track {
    /// The work parts that are played on this track, as indices into the work parts of
    /// the work that the recording performs.
    pub work_parts: Vec<usize>,
}

pub struct TrackSetModel {
    pub recording: RecordingModel,
    pub tracks: Seq<Seq<usize>>,
}

pub struct MediumModel {
    pub id: Seq<char>,
    pub name: Seq<char>,
    pub discid: Option<Seq<char>>,
    pub tracks: Seq<TrackSetModel>,
}

impl View for Track {
    type V = Seq<usize>;

    open spec fn view(&self) -> Seq<usize> {
        self.work_parts@
    }
}

impl View for TrackSet {
    type V = TrackSetModel;

    open spec fn view(&self) -> TrackSetModel {
        TrackSetModel { recording: self.recording@, tracks: self.tracks@.map_values(|t: Track| t@) }
    }
}

impl View for Medium {
    type V = MediumModel;

    open spec fn view(&self) -> MediumModel {
        MediumModel {
            id: self.id@,
            name: self.name@,
            discid: opt_view(self.discid),
            tracks: self.tracks@.map_values(|s: TrackSet| s@),
        }
    }
}

// ---- Reading the aggregate back ----

/// How many track-set rows belong to medium `m`.
pub open spec fn count_sets(rows: Seq<TrackSetRowModel>, m: Seq<char>) -> nat
    decreases rows.len(),
{
    if rows.len() == 0 {
        0
    } else {
        count_sets(rows.drop_last(), m) + if rows.last().medium == m { 1nat } else { 0nat }
    }
}

/// The first track-set row of medium `m` at position `k`.
pub open spec fn find_set(rows: Seq<TrackSetRowModel>, m: Seq<char>, k: int) -> Option<int>
    decreases rows.len(),
{
    if rows.len() == 0 {
        None
    } else {
        match find_set(rows.drop_last(), m, k) {
            Some(i) => Some(i),
            None => if rows.last().medium == m && rows.last().index == k {
                Some(rows.len() - 1)
            } else {
                None
            },
        }
    }
}

/// How many track rows belong to track set `ts`.
pub open spec fn count_tracks(rows: Seq<TrackRowModel>, ts: i64) -> nat
    decreases rows.len(),
{
    if rows.len() == 0 {
        0
    } else {
        count_tracks(rows.drop_last(), ts) + if rows.last().track_set == ts { 1nat } else { 0nat }
    }
}

/// The first track row of track set `ts` at position `k`.
pub open spec fn find_track(rows: Seq<TrackRowModel>, ts: i64, k: int) -> Option<int>
    decreases rows.len(),
{
    if rows.len() == 0 {
        None
    } else {
        match find_track(rows.drop_last(), ts, k) {
            Some(i) => Some(i),
            None => if rows.last().track_set == ts && rows.last().index == k {
                Some(rows.len() - 1)
            } else {
                None
            },
        }
    }
}

/// The first `n` tracks of track set `ts`, in order of position: a missing position is a
/// storage error and a malformed list of indices a decode error.
pub open spec fn read_tracks(db: StoreModel, ts: i64, n: nat) -> Result<
    Seq<Seq<usize>>,
    ServerError,
>
    decreases n,
{
    if n == 0 {
        Ok(seq![])
    } else {
        match read_tracks(db, ts, (n - 1) as nat) {
            Err(e) => Err(e),
            Ok(prev) => match find_track(db.tracks, ts, n - 1) {
                None => Err(ServerError::StorageError),
                Some(p) => match decode(db.tracks[p].work_parts) {
                    None => Err(ServerError::DecodeError),
                    Some(parts) => Ok(prev.push(parts)),
                },
            },
        }
    }
}

/// The track set that a track-set row describes; its recording must exist.
pub open spec fn read_set(db: StoreModel, row: TrackSetRowModel) -> Result<TrackSetModel, ServerError> {
    match spec_get_recording(db, row.recording) {
        None => Err(ServerError::ReferentialError),
        Some(rec) => match read_tracks(db, row.id, count_tracks(db.tracks, row.id)) {
            Err(e) => Err(e),
            Ok(tracks) => Ok(TrackSetModel { recording: rec, tracks }),
        },
    }
}

/// The first `n` track sets of medium `m`, in order of position.
pub open spec fn read_sets(db: StoreModel, m: Seq<char>, n: nat) -> Result<
    Seq<TrackSetModel>,
    ServerError,
>
    decreases n,
{
    if n == 0 {
        Ok(seq![])
    } else {
        match read_sets(db, m, (n - 1) as nat) {
            Err(e) => Err(e),
            Ok(prev) => match find_set(db.track_sets, m, n - 1) {
                None => Err(ServerError::StorageError),
                Some(p) => match read_set(db, db.track_sets[p]) {
                    Err(e) => Err(e),
                    Ok(set) => Ok(prev.push(set)),
                },
            },
        }
    }
}

/// The medium that a medium row describes, with all of its track sets.
pub open spec fn read_medium(db: StoreModel, row: MediumRowModel) -> Result<MediumModel, ServerError> {
    match read_sets(db, row.id, count_sets(db.track_sets, row.id)) {
        Err(e) => Err(e),
        Ok(sets) => Ok(MediumModel { id: row.id, name: row.name, discid: row.discid, tracks: sets }),
    }
}

/// The medium with this id, `None` where there is none.
pub open spec fn spec_get_medium(db: StoreModel, id: Seq<char>) -> Result<Option<MediumModel>, ServerError> {
    match find_medium(db.mediums, id) {
        None => Ok(None),
        Some(i) => match read_medium(db, db.mediums[i]) {
            Err(e) => Err(e),
            Ok(m) => Ok(Some(m)),
        },
    }
}

/// One medium for each of the first `n` track-set rows that refer to recording `rec`
/// and whose medium exists, in the order of those rows.
pub open spec fn mediums_for_recording(db: StoreModel, rec: Seq<char>, n: nat) -> Result<
    Seq<MediumModel>,
    ServerError,
>
    decreases n,
{
    if n == 0 {
        Ok(seq![])
    } else {
        match mediums_for_recording(db, rec, (n - 1) as nat) {
            Err(e) => Err(e),
            Ok(prev) => {
                let ts = db.track_sets[n - 1];
                if ts.recording != rec {
                    Ok(prev)
                } else {
                    match find_medium(db.mediums, ts.medium) {
                        None => Ok(prev),
                        Some(i) => match read_medium(db, db.mediums[i]) {
                            Err(e) => Err(e),
                            Ok(m) => Ok(prev.push(m)),
                        },
                    }
                }
            },
        }
    }
}

/// The mediums among the first `n` medium rows whose disc id is `discid`, in row order.
/// A row without a disc id matches no query.
pub open spec fn mediums_by_discid(db: StoreModel, discid: Seq<char>, n: nat) -> Result<
    Seq<MediumModel>,
    ServerError,
>
    decreases n,
{
    if n == 0 {
        Ok(seq![])
    } else {
        match mediums_by_discid(db, discid, (n - 1) as nat) {
            Err(e) => Err(e),
            Ok(prev) => if db.mediums[n - 1].discid == Some(discid) {
                match read_medium(db, db.mediums[n - 1]) {
                    Err(e) => Err(e),
                    Ok(m) => Ok(prev.push(m)),
                }
            } else {
                Ok(prev)
            },
        }
    }
}

proof fn lemma_read_tracks_err(db: StoreModel, ts: i64, m: nat, n: nat)
    requires
        m <= n,
        read_tracks(db, ts, m) is Err,
    ensures
        read_tracks(db, ts, n) == read_tracks(db, ts, m),
    decreases n,
{
    if m < n {
        lemma_read_tracks_err(db, ts, m, (n - 1) as nat);
    }
}

proof fn lemma_read_sets_err(db: StoreModel, id: Seq<char>, m: nat, n: nat)
    requires
        m <= n,
        read_sets(db, id, m) is Err,
    ensures
        read_sets(db, id, n) == read_sets(db, id, m),
    decreases n,
{
    if m < n {
        lemma_read_sets_err(db, id, m, (n - 1) as nat);
    }
}

proof fn lemma_for_recording_err(db: StoreModel, rec: Seq<char>, m: nat, n: nat)
    requires
        m <= n,
        mediums_for_recording(db, rec, m) is Err,
    ensures
        mediums_for_recording(db, rec, n) == mediums_for_recording(db, rec, m),
    decreases n,
{
    if m < n {
        lemma_for_recording_err(db, rec, m, (n - 1) as nat);
    }
}

proof fn lemma_by_discid_err(db: StoreModel, discid: Seq<char>, m: nat, n: nat)
    requires
        m <= n,
        mediums_by_discid(db, discid, m) is Err,
    ensures
        mediums_by_discid(db, discid, n) == mediums_by_discid(db, discid, m),
    decreases n,
{
    if m < n {
        lemma_by_discid_err(db, discid, m, (n - 1) as nat);
    }
}

fn count_track_sets(db: &Database, medium: &str) -> (r: usize)
    ensures
        r == count_sets(db@.track_sets, medium@),
{
    let mut n: usize = 0;
    let mut i: usize = 0;
    while i < db.track_sets.len()
        invariant
            i <= db.track_sets.len(),
            n <= i,
            n == count_sets(db@.track_sets.take(i as int), medium@),
        decreases db.track_sets.len() - i,
    {
        proof {
            assert(db@.track_sets.take(i + 1).drop_last() =~= db@.track_sets.take(i as int));
        }
        if str_eq(db.track_sets[i].medium.as_str(), medium) {
            n = n + 1;
        }
        i = i + 1;
    }
    assert(db@.track_sets.take(i as int) =~= db@.track_sets);
    n
}

fn track_set_position(db: &Database, medium: &str, k: usize) -> (r: Option<usize>)
    ensures
        r matches Some(p) ==> find_set(db@.track_sets, medium@, k as int) == Some(p as int),
        r is None ==> find_set(db@.track_sets, medium@, k as int) is None,
{
    let mut i: usize = 0;
    while i < db.track_sets.len()
        invariant
            i <= db.track_sets.len(),
            find_set(db@.track_sets.take(i as int), medium@, k as int) is None,
        decreases db.track_sets.len() - i,
    {
        let ghost t = db@.track_sets.take(i + 1);
        proof {
            assert(t.drop_last() =~= db@.track_sets.take(i as int));
        }
        let row = &db.track_sets[i];
        if row.index >= 0 && row.index as usize == k && str_eq(row.medium.as_str(), medium) {
            proof {
                lemma_find_set_prefix(db@.track_sets, medium@, k as int, i + 1);
            }
            return Some(i);
        }
        i = i + 1;
    }
    assert(db@.track_sets.take(i as int) =~= db@.track_sets);
    None
}

proof fn lemma_find_set(rows: Seq<TrackSetRowModel>, m: Seq<char>, k: int)
    ensures
        find_set(rows, m, k) matches Some(p) ==> 0 <= p < rows.len() && rows[p].medium == m
            && rows[p].index == k,
    decreases rows.len(),
{
    if rows.len() > 0 {
        lemma_find_set(rows.drop_last(), m, k);
    }
}

pub proof fn lemma_find_track(rows: Seq<TrackRowModel>, ts: i64, k: int)
    ensures
        find_track(rows, ts, k) matches Some(p) ==> 0 <= p < rows.len() && rows[p].track_set
            == ts && rows[p].index == k,
    decreases rows.len(),
{
    if rows.len() > 0 {
        lemma_find_track(rows.drop_last(), ts, k);
    }
}

/// A hit in a prefix is the hit in the whole.
proof fn lemma_find_set_prefix(rows: Seq<TrackSetRowModel>, m: Seq<char>, k: int, n: int)
    requires
        0 <= n <= rows.len(),
        find_set(rows.take(n), m, k) is Some,
    ensures
        find_set(rows, m, k) == find_set(rows.take(n), m, k),
    decreases rows.len(),
{
    if n < rows.len() {
        assert(rows.drop_last().take(n) =~= rows.take(n));
        lemma_find_set_prefix(rows.drop_last(), m, k, n);
    } else {
        assert(rows.take(n) =~= rows);
    }
}

pub proof fn lemma_find_track_prefix(rows: Seq<TrackRowModel>, ts: i64, k: int, n: int)
    requires
        0 <= n <= rows.len(),
        find_track(rows.take(n), ts, k) is Some,
    ensures
        find_track(rows, ts, k) == find_track(rows.take(n), ts, k),
    decreases rows.len(),
{
    if n < rows.len() {
        assert(rows.drop_last().take(n) =~= rows.take(n));
        lemma_find_track_prefix(rows.drop_last(), ts, k, n);
    } else {
        assert(rows.take(n) =~= rows);
    }
}

fn count_set_tracks(db: &Database, ts: i64) -> (r: usize)
    ensures
        r == count_tracks(db@.tracks, ts),
{
    let mut n: usize = 0;
    let mut i: usize = 0;
    while i < db.tracks.len()
        invariant
            i <= db.tracks.len(),
            n <= i,
            n == count_tracks(db@.tracks.take(i as int), ts),
        decreases db.tracks.len() - i,
    {
        proof {
            assert(db@.tracks.take(i + 1).drop_last() =~= db@.tracks.take(i as int));
        }
        if db.tracks[i].track_set == ts {
            n = n + 1;
        }
        i = i + 1;
    }
    assert(db@.tracks.take(i as int) =~= db@.tracks);
    n
}

fn track_position(db: &Database, ts: i64, k: usize) -> (r: Option<usize>)
    ensures
        r matches Some(p) ==> find_track(db@.tracks, ts, k as int) == Some(p as int),
        r is None ==> find_track(db@.tracks, ts, k as int) is None,
{
    let mut i: usize = 0;
    while i < db.tracks.len()
        invariant
            i <= db.tracks.len(),
            find_track(db@.tracks.take(i as int), ts, k as int) is None,
        decreases db.tracks.len() - i,
    {
        let ghost t = db@.tracks.take(i + 1);
        proof {
            assert(t.drop_last() =~= db@.tracks.take(i as int));
        }
        let row = &db.tracks[i];
        if row.index >= 0 && row.index as usize == k && row.track_set == ts {
            proof {
                lemma_find_track_prefix(db@.tracks, ts, k as int, i + 1);
            }
            return Some(i);
        }
        i = i + 1;
    }
    assert(db@.tracks.take(i as int) =~= db@.tracks);
    None
}

/// Convert a track-set row to the track set it describes.
fn get_track_set_from_row(db: &Database, row: &TrackSetRow) -> (r: Result<TrackSet, ServerError>)
    ensures
        match r {
            Ok(s) => read_set(db@, row@) == Ok::<TrackSetModel, ServerError>(s@),
            Err(e) => read_set(db@, row@) == Err::<TrackSetModel, ServerError>(e),
        },
{
    let recording = match get_recording(db, row.recording.as_str()) {
        Some(rec) => rec,
        None => return Err(ServerError::ReferentialError),
    };
    let n = count_set_tracks(db, row.id);
    let mut tracks: Vec<Track> = Vec::new();
    let mut k: usize = 0;
    assert(tracks@.map_values(|t: Track| t@) =~= seq![]);
    while k < n
        invariant
            k <= n,
            n == count_tracks(db@.tracks, row.id),
            spec_get_recording(db@, row@.recording) == Some(recording@),
            read_tracks(db@, row.id, k as nat) == Ok::<Seq<Seq<usize>>, ServerError>(
                tracks@.map_values(|t: Track| t@),
            ),
        decreases n - k,
    {
        let p = match track_position(db, row.id, k) {
            Some(p) => {
                proof {
                    lemma_find_track(db@.tracks, row.id, k as int);
                }
                p
            },
            None => {
                proof {
                    assert(read_tracks(db@, row.id, (k + 1) as nat) == Err::<Seq<Seq<usize>>, ServerError>(ServerError::StorageError));
                    lemma_read_tracks_err(db@, row.id, (k + 1) as nat, n as nat);
                    assert(spec_get_recording(db@, row@.recording) == Some(recording@));
                }
                return Err(ServerError::StorageError);
            },
        };
        let parts = match decode_work_parts(db.tracks[p].work_parts.as_str()) {
            Some(parts) => parts,
            None => {
                proof {
                    assert(read_tracks(db@, row.id, (k + 1) as nat) == Err::<Seq<Seq<usize>>, ServerError>(ServerError::DecodeError));
                    lemma_read_tracks_err(db@, row.id, (k + 1) as nat, n as nat);
                    assert(spec_get_recording(db@, row@.recording) == Some(recording@));
                }
                return Err(ServerError::DecodeError);
            },
        };
        let ghost before = tracks@.map_values(|t: Track| t@);
        tracks.push(Track { work_parts: parts });
        proof {
            assert(tracks@.map_values(|t: Track| t@) =~= before.push(parts@));
        }
        k = k + 1;
    }
    Ok(TrackSet { recording, tracks })
}

/// Retrieve all available information on a medium from the related tables.
fn get_medium_data(db: &Database, row: &MediumRow) -> (r: Result<Medium, ServerError>)
    ensures
        match r {
            Ok(m) => read_medium(db@, row@) == Ok::<MediumModel, ServerError>(m@),
            Err(e) => read_medium(db@, row@) == Err::<MediumModel, ServerError>(e),
        },
{
    let n = count_track_sets(db, row.id.as_str());
    let mut sets: Vec<TrackSet> = Vec::new();
    let mut k: usize = 0;
    assert(sets@.map_values(|s: TrackSet| s@) =~= seq![]);
    while k < n
        invariant
            k <= n,
            n == count_sets(db@.track_sets, row.id@),
            read_sets(db@, row.id@, k as nat) == Ok::<Seq<TrackSetModel>, ServerError>(
                sets@.map_values(|s: TrackSet| s@),
            ),
        decreases n - k,
    {
        let p = match track_set_position(db, row.id.as_str(), k) {
            Some(p) => {
                proof {
                    lemma_find_set(db@.track_sets, row.id@, k as int);
                }
                p
            },
            None => {
                proof {
                    lemma_read_sets_err(db@, row.id@, (k + 1) as nat, n as nat);
                }
                return Err(ServerError::StorageError);
            },
        };
        let set = match get_track_set_from_row(db, &db.track_sets[p]) {
            Ok(set) => set,
            Err(e) => {
                proof {
                    lemma_read_sets_err(db@, row.id@, (k + 1) as nat, n as nat);
                }
                return Err(e);
            },
        };
        let ghost before = sets@.map_values(|s: TrackSet| s@);
        let ghost sv = set@;
        sets.push(set);
        proof {
            assert(sets@.map_values(|s: TrackSet| s@) =~= before.push(sv));
        }
        k = k + 1;
    }
    Ok(Medium { id: row.id.clone(), name: row.name.clone(), discid: copy_opt(&row.discid), tracks: sets })
}

/// Get an existing medium and all available information from related tables.
pub fn get_medium(db: &Database, id: &str) -> (r: Result<Option<Medium>, ServerError>)
    ensures
        match r {
            Ok(Some(m)) => spec_get_medium(db@, id@) == Ok::<Option<MediumModel>, ServerError>(Some(m@)),
            Ok(None) => spec_get_medium(db@, id@) == Ok::<Option<MediumModel>, ServerError>(None),
            Err(e) => spec_get_medium(db@, id@) == Err::<Option<MediumModel>, ServerError>(e),
        },
{
    match db.medium_position(id) {
        None => Ok(None),
        Some(i) => {
            proof {
                lemma_find_medium(db@.mediums, id@);
            }
            match get_medium_data(db, &db.mediums[i]) {
                Ok(m) => Ok(Some(m)),
                Err(e) => Err(e),
            }
        },
    }
}

fn mediums_with_recording(db: &Database, recording_id: &str) -> (r: Result<Vec<Medium>, ServerError>)
    ensures
        match r {
            Ok(v) => mediums_for_recording(db@, recording_id@, db@.track_sets.len())
                == Ok::<Seq<MediumModel>, ServerError>(v@.map_values(|m: Medium| m@)),
            Err(e) => mediums_for_recording(db@, recording_id@, db@.track_sets.len())
                == Err::<Seq<MediumModel>, ServerError>(e),
        },
{
    let mut out: Vec<Medium> = Vec::new();
    let mut i: usize = 0;
    assert(out@.map_values(|m: Medium| m@) =~= seq![]);
    while i < db.track_sets.len()
        invariant
            i <= db.track_sets.len(),
            mediums_for_recording(db@, recording_id@, i as nat) == Ok::<Seq<MediumModel>, ServerError>(
                out@.map_values(|m: Medium| m@),
            ),
        decreases db.track_sets.len() - i,
    {
        let ts = &db.track_sets[i];
        if str_eq(ts.recording.as_str(), recording_id) {
            match db.medium_position(ts.medium.as_str()) {
                Some(p) => {
                    proof {
                        lemma_find_medium(db@.mediums, ts.medium@);
                    }
                    match get_medium_data(db, &db.mediums[p]) {
                        Ok(m) => {
                            let ghost before = out@.map_values(|m: Medium| m@);
                            let ghost mv = m@;
                            out.push(m);
                            proof {
                                assert(out@.map_values(|m: Medium| m@) =~= before.push(mv));
                            }
                        },
                        Err(e) => {
                            proof {
                                lemma_for_recording_err(db@, recording_id@, (i + 1) as nat, db@.track_sets.len());
                            }
                            return Err(e);
                        },
                    }
                },
                None => {},
            }
        }
        i = i + 1;
    }
    Ok(out)
}

/// Get mediums that contain a specific recording: one entry for each track set that
/// refers to it, so a medium with two such track sets comes twice.
pub fn get_mediums_for_recording(db: &Database, recording_id: &str) -> (r: Result<Vec<Medium>, ServerError>)
    ensures
        match r {
            Ok(v) => mediums_for_recording(db@, recording_id@, db@.track_sets.len())
                == Ok::<Seq<MediumModel>, ServerError>(v@.map_values(|m: Medium| m@)),
            Err(e) => mediums_for_recording(db@, recording_id@, db@.track_sets.len())
                == Err::<Seq<MediumModel>, ServerError>(e),
        },
{
    mediums_with_recording(db, recording_id)
}

/// Get mediums that have a specific DiscID. A medium without a DiscID matches none.
pub fn get_mediums_by_discid(db: &Database, discid: &str) -> (r: Result<Vec<Medium>, ServerError>)
    ensures
        match r {
            Ok(v) => mediums_by_discid(db@, discid@, db@.mediums.len())
                == Ok::<Seq<MediumModel>, ServerError>(v@.map_values(|m: Medium| m@)),
            Err(e) => mediums_by_discid(db@, discid@, db@.mediums.len())
                == Err::<Seq<MediumModel>, ServerError>(e),
        },
{
    let mut out: Vec<Medium> = Vec::new();
    let mut i: usize = 0;
    assert(out@.map_values(|m: Medium| m@) =~= seq![]);
    while i < db.mediums.len()
        invariant
            i <= db.mediums.len(),
            mediums_by_discid(db@, discid@, i as nat) == Ok::<Seq<MediumModel>, ServerError>(
                out@.map_values(|m: Medium| m@),
            ),
        decreases db.mediums.len() - i,
    {
        let row = &db.mediums[i];
        let hit = match &row.discid {
            Some(d) => str_eq(d.as_str(), discid),
            None => false,
        };
        if hit {
            match get_medium_data(db, row) {
                Ok(m) => {
                    let ghost before = out@.map_values(|m: Medium| m@);
                    let ghost mv = m@;
                    out.push(m);
                    proof {
                        assert(out@.map_values(|m: Medium| m@) =~= before.push(mv));
                    }
                },
                Err(e) => {
                    proof {
                        lemma_by_discid_err(db@, discid@, (i + 1) as nat, db@.mediums.len());
                    }
                    return Err(e);
                },
            }
        }
        i = i + 1;
    }
    Ok(out)
}

// ---- Deleting ----

/// The medium rows without those of medium `id`.
pub open spec fn keep_mediums(rows: Seq<MediumRowModel>, id: Seq<char>) -> Seq<MediumRowModel>
    decreases rows.len(),
{
    if rows.len() == 0 {
        seq![]
    } else if rows.last().id == id {
        keep_mediums(rows.drop_last(), id)
    } else {
        keep_mediums(rows.drop_last(), id).push(rows.last())
    }
}

/// The track-set rows without those of medium `id`.
pub open spec fn keep_sets(rows: Seq<TrackSetRowModel>, id: Seq<char>) -> Seq<TrackSetRowModel>
    decreases rows.len(),
{
    if rows.len() == 0 {
        seq![]
    } else if rows.last().medium == id {
        keep_sets(rows.drop_last(), id)
    } else {
        keep_sets(rows.drop_last(), id).push(rows.last())
    }
}

/// Whether track set `ts` is one of medium `id`'s.
pub open spec fn set_of_medium(sets: Seq<TrackSetRowModel>, id: Seq<char>, ts: i64) -> bool {
    exists|j: int| 0 <= j < sets.len() && sets[j].medium == id && #[trigger] sets[j].id == ts
}

/// The track rows without those of medium `id`'s track sets.
pub open spec fn keep_tracks(rows: Seq<TrackRowModel>, sets: Seq<TrackSetRowModel>, id: Seq<char>) -> Seq<
    TrackRowModel,
>
    decreases rows.len(),
{
    if rows.len() == 0 {
        seq![]
    } else if set_of_medium(sets, id, rows.last().track_set) {
        keep_tracks(rows.drop_last(), sets, id)
    } else {
        keep_tracks(rows.drop_last(), sets, id).push(rows.last())
    }
}

/// The store after medium `id` is removed with its track sets and their tracks.
pub open spec fn spec_delete(db: StoreModel, id: Seq<char>) -> StoreModel {
    StoreModel {
        mediums: keep_mediums(db.mediums, id),
        track_sets: keep_sets(db.track_sets, id),
        tracks: keep_tracks(db.tracks, db.track_sets, id),
        recordings: db.recordings,
    }
}

fn is_set_of_medium(db: &Database, id: &str, ts: i64) -> (r: bool)
    ensures
        r == set_of_medium(db@.track_sets, id@, ts),
{
    let mut i: usize = 0;
    while i < db.track_sets.len()
        invariant
            i <= db.track_sets.len(),
            forall|j: int| 0 <= j < i ==> !(db@.track_sets[j].medium == id@ && db@.track_sets[j].id == ts),
        decreases db.track_sets.len() - i,
    {
        if db.track_sets[i].id == ts && str_eq(db.track_sets[i].medium.as_str(), id) {
            assert(db@.track_sets[i as int].id == ts);
            return true;
        }
        i = i + 1;
    }
    false
}

/// The rows of all tables that remain once medium `id` is removed.
fn remaining_rows(db: &Database, id: &str) -> (r: (Vec<MediumRow>, Vec<TrackSetRow>, Vec<TrackRow>))
    ensures
        r.0@.map_values(|x: MediumRow| x@) == keep_mediums(db@.mediums, id@),
        r.1@.map_values(|x: TrackSetRow| x@) == keep_sets(db@.track_sets, id@),
        r.2@.map_values(|x: TrackRow| x@) == keep_tracks(db@.tracks, db@.track_sets, id@),
{
    let mut ms: Vec<MediumRow> = Vec::new();
    let mut i: usize = 0;
    assert(ms@.map_values(|x: MediumRow| x@) =~= seq![]);
    while i < db.mediums.len()
        invariant
            i <= db.mediums.len(),
            ms@.map_values(|x: MediumRow| x@) == keep_mediums(db@.mediums.take(i as int), id@),
        decreases db.mediums.len() - i,
    {
        proof {
            assert(db@.mediums.take(i + 1).drop_last() =~= db@.mediums.take(i as int));
        }
        if !str_eq(db.mediums[i].id.as_str(), id) {
            let ghost before = ms@.map_values(|x: MediumRow| x@);
            ms.push(db.mediums[i].copy());
            assert(ms@.map_values(|x: MediumRow| x@) =~= before.push(db@.mediums[i as int]));
        }
        i = i + 1;
    }
    assert(db@.mediums.take(i as int) =~= db@.mediums);
    let mut ss: Vec<TrackSetRow> = Vec::new();
    let mut i: usize = 0;
    assert(ss@.map_values(|x: TrackSetRow| x@) =~= seq![]);
    while i < db.track_sets.len()
        invariant
            i <= db.track_sets.len(),
            ss@.map_values(|x: TrackSetRow| x@) == keep_sets(db@.track_sets.take(i as int), id@),
        decreases db.track_sets.len() - i,
    {
        proof {
            assert(db@.track_sets.take(i + 1).drop_last() =~= db@.track_sets.take(i as int));
        }
        if !str_eq(db.track_sets[i].medium.as_str(), id) {
            let ghost before = ss@.map_values(|x: TrackSetRow| x@);
            ss.push(db.track_sets[i].copy());
            assert(ss@.map_values(|x: TrackSetRow| x@) =~= before.push(db@.track_sets[i as int]));
        }
        i = i + 1;
    }
    assert(db@.track_sets.take(i as int) =~= db@.track_sets);
    let mut ts: Vec<TrackRow> = Vec::new();
    let mut i: usize = 0;
    assert(ts@.map_values(|x: TrackRow| x@) =~= seq![]);
    while i < db.tracks.len()
        invariant
            i <= db.tracks.len(),
            ts@.map_values(|x: TrackRow| x@) == keep_tracks(db@.tracks.take(i as int), db@.track_sets, id@),
        decreases db.tracks.len() - i,
    {
        proof {
            assert(db@.tracks.take(i + 1).drop_last() =~= db@.tracks.take(i as int));
        }
        if !is_set_of_medium(db, id, db.tracks[i].track_set) {
            let ghost before = ts@.map_values(|x: TrackRow| x@);
            ts.push(db.tracks[i].copy());
            assert(ts@.map_values(|x: TrackRow| x@) =~= before.push(db@.tracks[i as int]));
        }
        i = i + 1;
    }
    assert(db@.tracks.take(i as int) =~= db@.tracks);
    (ms, ss, ts)
}

/// Delete an existing medium with its track sets and tracks. The user has to be allowed
/// to delete; deleting an id that is not stored changes nothing and succeeds.
pub fn delete_medium(db: &mut Database, id: &str, user: &User) -> (r: Result<(), ServerError>)
    ensures
        user.spec_may_delete() ==> r is Ok && final(db)@ == spec_delete(old(db)@, id@),
        !user.spec_may_delete() ==> r == Err::<(), ServerError>(ServerError::Forbidden)
            && final(db)@ == old(db)@,
{
    if user.may_delete() {
        let (ms, ss, ts) = remaining_rows(db, id);
        db.mediums = ms;
        db.track_sets = ss;
        db.tracks = ts;
        Ok(())
    } else {
        Err(ServerError::Forbidden)
    }
}

// ---- Writing ----

/// Whether `user` may write medium `id`: edit rights on the stored owner where a row
/// exists, the right to create where none does.
pub open spec fn may_write(db: StoreModel, id: Seq<char>, user: User) -> bool {
    match find_medium(db.mediums, id) {
        Some(i) => user.spec_may_edit(db.mediums[i].created_by),
        None => user.spec_may_create(),
    }
}

/// Whether some track set of `m` refers to a recording that the store does not hold.
pub open spec fn needs_recording(db: StoreModel, m: MediumModel) -> bool {
    exists|k: int|
        0 <= k < m.tracks.len() && #[trigger] find_recording(db.recordings, m.tracks[k].recording.id)
            is None
}

/// The recording rows that writing the track sets `sets` adds to `existing`: each
/// missing recording once, in order of first reference, owned by `user`.
pub open spec fn added_recordings(
    existing: Seq<RecordingRowModel>,
    sets: Seq<TrackSetModel>,
    user: Seq<char>,
) -> Seq<RecordingRowModel>
    decreases sets.len(),
{
    if sets.len() == 0 {
        seq![]
    } else {
        let prev = added_recordings(existing, sets.drop_last(), user);
        let rec = sets.last().recording;
        if find_recording(existing + prev, rec.id) is Some {
            prev
        } else {
            prev.push(
                RecordingRowModel { id: rec.id, work: rec.work, comment: rec.comment, created_by: user },
            )
        }
    }
}

/// The track-set rows of medium `m`, the one at position `k` keyed `set_ids[k]`.
pub open spec fn new_sets(m: MediumModel, set_ids: Seq<i64>) -> Seq<TrackSetRowModel> {
    Seq::new(
        m.tracks.len(),
        |k: int|
            TrackSetRowModel {
                id: set_ids[k],
                medium: m.id,
                index: k,
                recording: m.tracks[k].recording.id,
            },
    )
}

/// The track rows of one track set keyed `set_id`, the one at position `j` keyed `ids[j]`.
pub open spec fn set_track_rows(set: TrackSetModel, set_id: i64, ids: Seq<i64>) -> Seq<TrackRowModel> {
    Seq::new(
        set.tracks.len(),
        |j: int|
            TrackRowModel { id: ids[j], track_set: set_id, index: j, work_parts: encode(set.tracks[j]) },
    )
}

/// The track rows of all of `sets`, set by set.
pub open spec fn new_tracks(sets: Seq<TrackSetModel>, set_ids: Seq<i64>, track_ids: Seq<Seq<i64>>) -> Seq<
    TrackRowModel,
>
    decreases sets.len(),
{
    if sets.len() == 0 {
        seq![]
    } else {
        let k = sets.len() - 1;
        new_tracks(sets.drop_last(), set_ids, track_ids) + set_track_rows(sets[k], set_ids[k], track_ids[k])
    }
}

/// Whether the keys of the rows from position `from` on differ from every other row's.
pub open spec fn fresh_sets(rows: Seq<TrackSetRowModel>, from: int) -> bool {
    forall|p: int, q: int|
        from <= p < rows.len() && 0 <= q < rows.len() && p != q ==> #[trigger] rows[p].id
            != #[trigger] rows[q].id
}

/// Whether the keys of the rows from position `from` on differ from every other row's.
pub open spec fn fresh_tracks(rows: Seq<TrackRowModel>, from: int) -> bool {
    forall|p: int, q: int|
        from <= p < rows.len() && 0 <= q < rows.len() && p != q ==> #[trigger] rows[p].id
            != #[trigger] rows[q].id
}

/// Whether the positions of `m` fit the 32-bit index columns.
pub open spec fn fits_columns(m: MediumModel) -> bool {
    m.tracks.len() <= i32::MAX && forall|k: int|
        0 <= k < m.tracks.len() ==> #[trigger] m.tracks[k].tracks.len() <= i32::MAX
}

/// Whether there is one key for each track set and one for each of its tracks.
pub open spec fn ids_fit(m: MediumModel, set_ids: Seq<i64>, track_ids: Seq<Seq<i64>>) -> bool {
    &&& set_ids.len() == m.tracks.len()
    &&& track_ids.len() == m.tracks.len()
    &&& forall|k: int| 0 <= k < m.tracks.len() ==> #[trigger] track_ids[k].len() == m.tracks[k].tracks.len()
}

/// The store once medium `m` has replaced whatever was stored under its id, with
/// `user` as its owner.
pub open spec fn written(
    db: StoreModel,
    m: MediumModel,
    user: User,
    set_ids: Seq<i64>,
    track_ids: Seq<Seq<i64>>,
) -> StoreModel {
    let base = spec_delete(db, m.id);
    StoreModel {
        mediums: base.mediums.push(
            MediumRowModel { id: m.id, name: m.name, discid: m.discid, created_by: user.username@ },
        ),
        track_sets: base.track_sets + new_sets(m, set_ids),
        tracks: base.tracks + new_tracks(m.tracks, set_ids, track_ids),
        recordings: db.recordings + added_recordings(db.recordings, m.tracks, user.username@),
    }
}

/// The outcome of writing medium `m` as `user` with the given row keys: forbidden
/// without the rights, a storage error where a key is taken, else the written store.
pub open spec fn spec_upsert(
    db: StoreModel,
    m: MediumModel,
    user: User,
    set_ids: Seq<i64>,
    track_ids: Seq<Seq<i64>>,
) -> Result<StoreModel, ServerError> {
    if !may_write(db, m.id, user) {
        Err(ServerError::Forbidden)
    } else if needs_recording(db, m) && !user.spec_may_create() {
        Err(ServerError::Forbidden)
    } else {
        let base = spec_delete(db, m.id);
        let next = written(db, m, user, set_ids, track_ids);
        if fresh_sets(next.track_sets, base.track_sets.len() as int) && fresh_tracks(
            next.tracks,
            base.tracks.len() as int,
        ) {
            Ok(next)
        } else {
            Err(ServerError::StorageError)
        }
    }
}

/// Whether `r` and the store `after` are what writing `m` over `before` gives.
pub open spec fn upsert_outcome(
    before: StoreModel,
    after: StoreModel,
    r: Result<(), ServerError>,
    m: MediumModel,
    user: User,
    set_ids: Seq<i64>,
    track_ids: Seq<Seq<i64>>,
) -> bool {
    match spec_upsert(before, m, user, set_ids, track_ids) {
        Ok(next) => r is Ok && after == next,
        Err(e) => r == Err::<(), ServerError>(e) && after == before,
    }
}

fn has_recording(rows: &Vec<RecordingRow>, id: &str) -> (r: bool)
    ensures
        r == (find_recording(rows@.map_values(|x: RecordingRow| x@), id@) is Some),
{
    let ghost v = rows@.map_values(|x: RecordingRow| x@);
    proof {
        lemma_find_recording(v, id@);
    }
    let mut i: usize = 0;
    while i < rows.len()
        invariant
            i <= rows.len(),
            v == rows@.map_values(|x: RecordingRow| x@),
            forall|j: int| 0 <= j < i ==> v[j].id != id@,
        decreases rows.len() - i,
    {
        if str_eq(rows[i].id.as_str(), id) {
            proof {
                assert(v[i as int].id == id@);
                lemma_find_recording(rows@.map_values(|x: RecordingRow| x@), id@);
            }
            return true;
        }
        i = i + 1;
    }
    false
}

fn fresh_set_ids(rows: &Vec<TrackSetRow>, from: usize) -> (r: bool)
    requires
        from <= rows.len(),
    ensures
        r == fresh_sets(rows@.map_values(|x: TrackSetRow| x@), from as int),
{
    let ghost v = rows@.map_values(|x: TrackSetRow| x@);
    let mut p: usize = from;
    while p < rows.len()
        invariant
            from <= p <= rows.len(),
            v == rows@.map_values(|x: TrackSetRow| x@),
            forall|pp: int, q: int|
                from <= pp < p && 0 <= q < rows.len() && pp != q ==> #[trigger] v[pp].id != #[trigger] v[q].id,
        decreases rows.len() - p,
    {
        let mut q: usize = 0;
        while q < rows.len()
            invariant
                from <= p < rows.len(),
                q <= rows.len(),
                v == rows@.map_values(|x: TrackSetRow| x@),
                forall|pp: int, qq: int|
                    from <= pp < p && 0 <= qq < rows.len() && pp != qq ==> #[trigger] v[pp].id != #[trigger] v[qq].id,
                forall|qq: int| 0 <= qq < q && qq != p ==> v[p as int].id != #[trigger] v[qq].id,
            decreases rows.len() - q,
        {
            if q != p && rows[q].id == rows[p].id {
                assert(v[p as int].id == v[q as int].id);
                return false;
            }
            q = q + 1;
        }
        p = p + 1;
    }
    true
}

fn fresh_track_ids(rows: &Vec<TrackRow>, from: usize) -> (r: bool)
    requires
        from <= rows.len(),
    ensures
        r == fresh_tracks(rows@.map_values(|x: TrackRow| x@), from as int),
{
    let ghost v = rows@.map_values(|x: TrackRow| x@);
    let mut p: usize = from;
    while p < rows.len()
        invariant
            from <= p <= rows.len(),
            v == rows@.map_values(|x: TrackRow| x@),
            forall|pp: int, q: int|
                from <= pp < p && 0 <= q < rows.len() && pp != q ==> #[trigger] v[pp].id != #[trigger] v[q].id,
        decreases rows.len() - p,
    {
        let mut q: usize = 0;
        while q < rows.len()
            invariant
                from <= p < rows.len(),
                q <= rows.len(),
                v == rows@.map_values(|x: TrackRow| x@),
                forall|pp: int, qq: int|
                    from <= pp < p && 0 <= qq < rows.len() && pp != qq ==> #[trigger] v[pp].id != #[trigger] v[qq].id,
                forall|qq: int| 0 <= qq < q && qq != p ==> v[p as int].id != #[trigger] v[qq].id,
            decreases rows.len() - q,
        {
            if q != p && rows[q].id == rows[p].id {
                assert(v[p as int].id == v[q as int].id);
                return false;
            }
            q = q + 1;
        }
        p = p + 1;
    }
    true
}

fn copy_recordings(rows: &Vec<RecordingRow>) -> (r: Vec<RecordingRow>)
    ensures
        r@.map_values(|x: RecordingRow| x@) == rows@.map_values(|x: RecordingRow| x@),
{
    let mut out: Vec<RecordingRow> = Vec::new();
    let mut i: usize = 0;
    while i < rows.len()
        invariant
            i <= rows.len(),
            out@.map_values(|x: RecordingRow| x@) == rows@.map_values(|x: RecordingRow| x@).take(i as int),
        decreases rows.len() - i,
    {
        let ghost before = out@.map_values(|x: RecordingRow| x@);
        out.push(rows[i].copy());
        assert(out@.map_values(|x: RecordingRow| x@) =~= before.push(rows@[i as int]@));
        assert(rows@.map_values(|x: RecordingRow| x@).take(i + 1) =~= before.push(rows@[i as int]@));
        i = i + 1;
    }
    assert(rows@.map_values(|x: RecordingRow| x@).take(i as int) =~= rows@.map_values(|x: RecordingRow| x@));
    out
}

/// Write `medium` as `user`, replacing whatever was stored under its id, with the new
/// track-set rows keyed by `set_ids` and the new track rows by `track_ids`. Nothing is
/// changed unless the whole write succeeds.
pub fn update_medium_with_ids(
    db: &mut Database,
    medium: &Medium,
    user: &User,
    set_ids: &Vec<i64>,
    track_ids: &Vec<Vec<i64>>,
) -> (r: Result<(), ServerError>)
    requires
        fits_columns(medium@),
        ids_fit(medium@, set_ids@, track_ids@.map_values(|v: Vec<i64>| v@)),
    ensures
        upsert_outcome(
            old(db)@,
            final(db)@,
            r,
            medium@,
            *user,
            set_ids@,
            track_ids@.map_values(|v: Vec<i64>| v@),
        ),
{
    let ghost tids = track_ids@.map_values(|v: Vec<i64>| v@);
    let ghost m = medium@;
    let ghost db0 = db@;
    let allowed = match db.medium_position(medium.id.as_str()) {
        Some(i) => {
            proof {
                lemma_find_medium(db@.mediums, medium.id@);
            }
            user.may_edit(db.mediums[i].created_by.as_str())
        },
        None => user.may_create(),
    };
    if !allowed {
        return Err(ServerError::Forbidden);
    }
    let mut needs = false;
    let mut k: usize = 0;
    while k < medium.tracks.len()
        invariant
            k <= medium.tracks.len(),
            m == medium@,
            db0 == db@,
            needs ==> exists|kk: int|
                0 <= kk < k && #[trigger] find_recording(db0.recordings, m.tracks[kk].recording.id) is None,
            !needs ==> forall|kk: int|
                0 <= kk < k ==> #[trigger] find_recording(db0.recordings, m.tracks[kk].recording.id) is Some,
        decreases medium.tracks.len() - k,
    {
        assert(m.tracks[k as int] == medium.tracks@[k as int]@);
        if !has_recording(&db.recordings, medium.tracks[k].recording.id.as_str()) {
            assert(find_recording(db0.recordings, m.tracks[k as int].recording.id) is None);
            needs = true;
        }
        k = k + 1;
    }
    if needs && !user.may_create() {
        return Err(ServerError::Forbidden);
    }
    let ghost base = spec_delete(db0, m.id);
    let (mut ms, mut ss, mut ts) = remaining_rows(db, medium.id.as_str());
    let base_sets = ss.len();
    let base_tracks = ts.len();
    let ghost ms0 = ms@.map_values(|x: MediumRow| x@);
    ms.push(
        MediumRow {
            id: medium.id.clone(),
            name: medium.name.clone(),
            discid: copy_opt(&medium.discid),
            created_by: user.username.clone(),
        },
    );
    assert(ms@.map_values(|x: MediumRow| x@) =~= ms0.push(
        MediumRowModel { id: m.id, name: m.name, discid: m.discid, created_by: user.username@ },
    ));
    let mut recs = copy_recordings(&db.recordings);
    assert(m.tracks.take(0) =~= seq![]);
    assert(new_sets(m, set_ids@).take(0) =~= seq![]);
    assert(base.track_sets + seq![] =~= base.track_sets);
    assert(base.tracks + seq![] =~= base.tracks);
    assert(db0.recordings + seq![] =~= db0.recordings);
    let mut k: usize = 0;
    while k < medium.tracks.len()
        invariant
            k <= medium.tracks.len(),
            m == medium@,
            db0 == db@,
            fits_columns(m),
            ids_fit(m, set_ids@, tids),
            tids == track_ids@.map_values(|v: Vec<i64>| v@),
            base == spec_delete(db0, m.id),
            base_sets == base.track_sets.len(),
            base_tracks == base.tracks.len(),
            ss@.map_values(|x: TrackSetRow| x@) == base.track_sets + new_sets(m, set_ids@).take(k as int),
            ts@.map_values(|x: TrackRow| x@) == base.tracks + new_tracks(m.tracks.take(k as int), set_ids@, tids),
            recs@.map_values(|x: RecordingRow| x@) == db0.recordings + added_recordings(
                db0.recordings,
                m.tracks.take(k as int),
                user.username@,
            ),
        decreases medium.tracks.len() - k,
    {
        let set = &medium.tracks[k];
        assert(m.tracks[k as int] == set@);
        let ghost sets_k1 = m.tracks.take(k + 1);
        assert(sets_k1.drop_last() =~= m.tracks.take(k as int));
        assert(sets_k1[k as int] == set@);

        let ghost recs0 = recs@.map_values(|x: RecordingRow| x@);
        if !has_recording(&recs, set.recording.id.as_str()) {
            recs.push(
                RecordingRow {
                    id: set.recording.id.clone(),
                    work: set.recording.work.clone(),
                    comment: set.recording.comment.clone(),
                    created_by: user.username.clone(),
                },
            );
            assert(recs@.map_values(|x: RecordingRow| x@) =~= recs0.push(RecordingRowModel {
                id: set@.recording.id,
                work: set@.recording.work,
                comment: set@.recording.comment,
                created_by: user.username@,
            }));
        }
        assert(recs@.map_values(|x: RecordingRow| x@) =~= db0.recordings + added_recordings(
            db0.recordings,
            sets_k1,
            user.username@,
        ));

        let ghost ss0 = ss@.map_values(|x: TrackSetRow| x@);
        let set_id = set_ids[k];
        ss.push(
            TrackSetRow {
                id: set_id,
                medium: medium.id.clone(),
                index: k as i32,
                recording: set.recording.id.clone(),
            },
        );
        assert(m.tracks.len() == medium.tracks@.len());
        assert(ss@.map_values(|x: TrackSetRow| x@) =~= ss0.push(new_sets(m, set_ids@)[k as int]));
        assert(new_sets(m, set_ids@).take(k + 1) =~= new_sets(m, set_ids@).take(k as int).push(
            new_sets(m, set_ids@)[k as int],
        ));
        assert(ss@.map_values(|x: TrackSetRow| x@) =~= base.track_sets + new_sets(m, set_ids@).take(k + 1));

        let ghost ts0 = ts@.map_values(|x: TrackRow| x@);
        let ghost rows_k = set_track_rows(set@, set_id, tids[k as int]);
        let ids = &track_ids[k];
        assert(tids[k as int] == ids@);
        assert(ids@.len() == set.tracks@.len());
        assert(ts0 + rows_k.take(0) =~= ts0);
        let mut j: usize = 0;
        while j < set.tracks.len()
            invariant
                j <= set.tracks.len(),
                ids@.len() == set.tracks@.len(),
                set.tracks@.len() <= i32::MAX,
                set.tracks@.len() == set@.tracks.len(),
                rows_k == set_track_rows(set@, set_id, ids@),
                ts@.map_values(|x: TrackRow| x@) == ts0 + rows_k.take(j as int),
            decreases set.tracks.len() - j,
        {
            let wp = encode_work_parts(&set.tracks[j].work_parts);
            let ghost before = ts@.map_values(|x: TrackRow| x@);
            ts.push(TrackRow { id: ids[j], track_set: set_id, index: j as i32, work_parts: wp });
            assert(set@.tracks[j as int] == set.tracks@[j as int].work_parts@);
            assert(set@.tracks.len() == set.tracks@.len());
            assert(ts@.map_values(|x: TrackRow| x@) =~= before.push(rows_k[j as int]));
            assert(rows_k.take(j + 1) =~= rows_k.take(j as int).push(rows_k[j as int]));
            assert(ts@.map_values(|x: TrackRow| x@) =~= ts0 + rows_k.take(j + 1));
            j = j + 1;
        }
        assert(rows_k.take(j as int) =~= rows_k);
        assert(ts@.map_values(|x: TrackRow| x@) =~= base.tracks + new_tracks(sets_k1, set_ids@, tids));
        k = k + 1;
    }
    assert(m.tracks.take(k as int) =~= m.tracks);
    assert(new_sets(m, set_ids@).take(k as int) =~= new_sets(m, set_ids@));
    if !fresh_set_ids(&ss, base_sets) || !fresh_track_ids(&ts, base_tracks) {
        return Err(ServerError::StorageError);
    }
    db.mediums = ms;
    db.track_sets = ss;
    db.tracks = ts;
    db.recordings = recs;
    proof {
        let next = written(db0, m, *user, set_ids@, tids);
        assert(db@.mediums =~= next.mediums);
        assert(db@.track_sets =~= next.track_sets);
        assert(db@.tracks =~= next.tracks);
        assert(db@.recordings =~= next.recordings);
    }
    Ok(())
}

/// Relies on `rand::random`: a key drawn from the thread-local generator. Nothing is
/// known of its value.
#[verifier::external_body]
fn random_key() -> (r: i64) {
    rand::random::<i64>()
}

/// Update an existing medium or insert a new one, keying the new rows with random
/// numbers. This only works if the user is allowed to: see `spec_upsert`, which this
/// meets for the keys that were drawn.
pub fn update_medium(db: &mut Database, medium: &Medium, user: &User) -> (r: Result<(), ServerError>)
    requires
        fits_columns(medium@),
    ensures
        exists|set_ids: Seq<i64>, track_ids: Seq<Seq<i64>>|
            ids_fit(medium@, set_ids, track_ids) && #[trigger] upsert_outcome(
                old(db)@,
                final(db)@,
                r,
                medium@,
                *user,
                set_ids,
                track_ids,
            ),
{
    let ghost m = medium@;
    let mut set_ids: Vec<i64> = Vec::new();
    let mut track_ids: Vec<Vec<i64>> = Vec::new();
    let mut k: usize = 0;
    while k < medium.tracks.len()
        invariant
            k <= medium.tracks.len(),
            m == medium@,
            set_ids@.len() == k,
            track_ids@.len() == k,
            forall|kk: int| 0 <= kk < k ==> #[trigger] track_ids@[kk]@.len() == m.tracks[kk].tracks.len(),
        decreases medium.tracks.len() - k,
    {
        set_ids.push(random_key());
        let mut ids: Vec<i64> = Vec::new();
        let n = medium.tracks[k].tracks.len();
        assert(n == m.tracks[k as int].tracks.len());
        while ids.len() < n
            invariant
                ids@.len() <= n,
            decreases n - ids@.len(),
        {
            ids.push(random_key());
        }
        track_ids.push(ids);
        k = k + 1;
    }
    let ghost tids = track_ids@.map_values(|v: Vec<i64>| v@);
    assert(ids_fit(m, set_ids@, tids));
    let r = update_medium_with_ids(db, medium, user, &set_ids, &track_ids);
    assert(upsert_outcome(old(db)@, db@, r, m, *user, set_ids@, tids));
    r
}

} // verus!
