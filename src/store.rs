//! The four tables that hold mediums, track sets, tracks and recordings, kept as flat
//! rows that refer to each other by id.

use crate::text::{copy_opt, opt_view, str_eq};
use vstd::prelude::*;

verus! {

/// A row of the mediums table.
#[derive(Debug)]
pub struct MediumRow {
    pub id: String,
    pub name: String,
    pub discid: Option<String>,
    pub created_by: String,
}

/// A row of the track sets table: the track set at position `index` of `medium`.
#[derive(Debug)]
pub struct TrackSetRow {
    pub id: i64,
    pub medium: String,
    pub index: i32,
    pub recording: String,
}

/// A row of the tracks table: the track at position `index` of `track_set`, with its
/// work-part indices in their text encoding.
#[derive(Debug)]
pub struct TrackRow {
    pub id: i64,
    pub track_set: i64,
    pub index: i32,
    pub work_parts: String,
}

/// A row of the recordings table.
#[derive(Debug)]
pub struct RecordingRow {
    pub id: String,
    pub work: String,
    pub comment: String,
    pub created_by: String,
}

pub struct MediumRowModel {
    pub id: Seq<char>,
    pub name: Seq<char>,
    pub discid: Option<Seq<char>>,
    pub created_by: Seq<char>,
}

pub struct TrackSetRowModel {
    pub id: i64,
    pub medium: Seq<char>,
    pub index: int,
    pub recording: Seq<char>,
}

pub struct TrackRowModel {
    pub id: i64,
    pub track_set: i64,
    pub index: int,
    pub work_parts: Seq<char>,
}

pub struct RecordingRowModel {
    pub id: Seq<char>,
    pub work: Seq<char>,
    pub comment: Seq<char>,
    pub created_by: Seq<char>,
}

impl View for MediumRow {
    type V = MediumRowModel;

    open spec fn view(&self) -> MediumRowModel {
        MediumRowModel {
            id: self.id@,
            name: self.name@,
            discid: opt_view(self.discid),
            created_by: self.created_by@,
        }
    }
}

impl View for TrackSetRow {
    type V = TrackSetRowModel;

    open spec fn view(&self) -> TrackSetRowModel {
        TrackSetRowModel {
            id: self.id,
            medium: self.medium@,
            index: self.index as int,
            recording: self.recording@,
        }
    }
}

impl View for TrackRow {
    type V = TrackRowModel;

    open spec fn view(&self) -> TrackRowModel {
        TrackRowModel {
            id: self.id,
            track_set: self.track_set,
            index: self.index as int,
            work_parts: self.work_parts@,
        }
    }
}

impl View for RecordingRow {
    type V = RecordingRowModel;

    open spec fn view(&self) -> RecordingRowModel {
        RecordingRowModel {
            id: self.id@,
            work: self.work@,
            comment: self.comment@,
            created_by: self.created_by@,
        }
    }
}

impl MediumRow {
    pub fn copy(&self) -> (r: MediumRow)
        ensures
            r@ == self@,
    {
        MediumRow {
            id: self.id.clone(),
            name: self.name.clone(),
            discid: copy_opt(&self.discid),
            created_by: self.created_by.clone(),
        }
    }
}

impl TrackSetRow {
    pub fn copy(&self) -> (r: TrackSetRow)
        ensures
            r@ == self@,
    {
        TrackSetRow {
            id: self.id,
            medium: self.medium.clone(),
            index: self.index,
            recording: self.recording.clone(),
        }
    }
}

impl TrackRow {
    pub fn copy(&self) -> (r: TrackRow)
        ensures
            r@ == self@,
    {
        TrackRow {
            id: self.id,
            track_set: self.track_set,
            index: self.index,
            work_parts: self.work_parts.clone(),
        }
    }
}

impl RecordingRow {
    pub fn copy(&self) -> (r: RecordingRow)
        ensures
            r@ == self@,
    {
        RecordingRow {
            id: self.id.clone(),
            work: self.work.clone(),
            comment: self.comment.clone(),
            created_by: self.created_by.clone(),
        }
    }
}

/// The contents of the store: each table as a sequence of row models.
pub struct StoreModel {
    pub mediums: Seq<MediumRowModel>,
    pub track_sets: Seq<TrackSetRowModel>,
    pub tracks: Seq<TrackRowModel>,
    pub recordings: Seq<RecordingRowModel>,
}

/// The tables of the catalogue. Rows refer to each other by id; every write goes
/// through the functions of this crate, which replace the tables as a whole or not at
/// all.
pub struct Database {
    pub mediums: Vec<MediumRow>,
    pub track_sets: Vec<TrackSetRow>,
    pub tracks: Vec<TrackRow>,
    pub recordings: Vec<RecordingRow>,
}

impl View for Database {
    type V = StoreModel;

    open spec fn view(&self) -> StoreModel {
        StoreModel {
            mediums: self.mediums@.map_values(|r: MediumRow| r@),
            track_sets: self.track_sets@.map_values(|r: TrackSetRow| r@),
            tracks: self.tracks@.map_values(|r: TrackRow| r@),
            recordings: self.recordings@.map_values(|r: RecordingRow| r@),
        }
    }
}

/// A recording, as the mediums see it.
#[derive(Debug)]
pub struct Recording {
    pub id: String,
    pub work: String,
    pub comment: String,
}

pub struct RecordingModel {
    pub id: Seq<char>,
    pub work: Seq<char>,
    pub comment: Seq<char>,
}

impl View for Recording {
    type V = RecordingModel;

    open spec fn view(&self) -> RecordingModel {
        RecordingModel { id: self.id@, work: self.work@, comment: self.comment@ }
    }
}

/// The position of the first medium row with this id.
pub open spec fn find_medium(rows: Seq<MediumRowModel>, id: Seq<char>) -> Option<int>
    decreases rows.len(),
{
    if rows.len() == 0 {
        None
    } else {
        match find_medium(rows.drop_last(), id) {
            Some(i) => Some(i),
            None => if rows.last().id == id {
                Some(rows.len() - 1)
            } else {
                None
            },
        }
    }
}

/// The position of the first recording row with this id.
pub open spec fn find_recording(rows: Seq<RecordingRowModel>, id: Seq<char>) -> Option<int>
    decreases rows.len(),
{
    if rows.len() == 0 {
        None
    } else {
        match find_recording(rows.drop_last(), id) {
            Some(i) => Some(i),
            None => if rows.last().id == id {
                Some(rows.len() - 1)
            } else {
                None
            },
        }
    }
}

/// The recording that a recording row describes.
pub open spec fn recording_of(row: RecordingRowModel) -> RecordingModel {
    RecordingModel { id: row.id, work: row.work, comment: row.comment }
}

/// The recording with this id, if the store holds one.
pub open spec fn spec_get_recording(db: StoreModel, id: Seq<char>) -> Option<RecordingModel> {
    match find_recording(db.recordings, id) {
        Some(i) => Some(recording_of(db.recordings[i])),
        None => None,
    }
}

pub proof fn lemma_find_medium(rows: Seq<MediumRowModel>, id: Seq<char>)
    ensures
        match find_medium(rows, id) {
            Some(i) => 0 <= i < rows.len() && rows[i].id == id && forall|j: int|
                0 <= j < i ==> rows[j].id != id,
            None => forall|j: int| 0 <= j < rows.len() ==> rows[j].id != id,
        },
    decreases rows.len(),
{
    if rows.len() > 0 {
        let init = rows.drop_last();
        lemma_find_medium(init, id);
        assert(forall|j: int| 0 <= j < init.len() ==> init[j] == rows[j]);
    }
}

pub proof fn lemma_find_recording(rows: Seq<RecordingRowModel>, id: Seq<char>)
    ensures
        match find_recording(rows, id) {
            Some(i) => 0 <= i < rows.len() && rows[i].id == id && forall|j: int|
                0 <= j < i ==> rows[j].id != id,
            None => forall|j: int| 0 <= j < rows.len() ==> rows[j].id != id,
        },
    decreases rows.len(),
{
    if rows.len() > 0 {
        let init = rows.drop_last();
        lemma_find_recording(init, id);
        assert(forall|j: int| 0 <= j < init.len() ==> init[j] == rows[j]);
    }
}

impl Database {
    /// An empty store.
    pub fn new() -> (r: Database)
        ensures
            r@.mediums.len() == 0,
            r@.track_sets.len() == 0,
            r@.tracks.len() == 0,
            r@.recordings.len() == 0,
    {
        Database { mediums: Vec::new(), track_sets: Vec::new(), tracks: Vec::new(), recordings: Vec::new() }
    }

    /// The position of the first medium row with this id.
    pub fn medium_position(&self, id: &str) -> (r: Option<usize>)
        ensures
            r matches Some(i) ==> find_medium(self@.mediums, id@) == Some(i as int),
            r is None ==> find_medium(self@.mediums, id@) is None,
    {
        let mut i: usize = 0;
        while i < self.mediums.len()
            invariant
                i <= self.mediums.len(),
                find_medium(self@.mediums.take(i as int), id@) is None,
            decreases self.mediums.len() - i,
        {
            let ghost t = self@.mediums.take(i + 1);
            proof {
                assert(t.drop_last() =~= self@.mediums.take(i as int));
            }
            if str_eq(self.mediums[i].id.as_str(), id) {
                proof {
                    assert(self@.mediums[i as int].id == id@);
                    assert(forall|j: int| 0 <= j < i ==> self@.mediums.take(i as int)[j] == self@.mediums[j]);
                    lemma_find_medium(self@.mediums, id@);
                    lemma_find_medium(self@.mediums.take(i as int), id@);
                    lemma_find_medium(t, id@);
                }
                return Some(i);
            }
            i = i + 1;
        }
        assert(self@.mediums.take(i as int) =~= self@.mediums);
        None
    }

    /// The position of the first recording row with this id.
    pub fn recording_position(&self, id: &str) -> (r: Option<usize>)
        ensures
            r matches Some(i) ==> find_recording(self@.recordings, id@) == Some(i as int),
            r is None ==> find_recording(self@.recordings, id@) is None,
    {
        let mut i: usize = 0;
        while i < self.recordings.len()
            invariant
                i <= self.recordings.len(),
                find_recording(self@.recordings.take(i as int), id@) is None,
            decreases self.recordings.len() - i,
        {
            let ghost t = self@.recordings.take(i + 1);
            proof {
                assert(t.drop_last() =~= self@.recordings.take(i as int));
            }
            if str_eq(self.recordings[i].id.as_str(), id) {
                proof {
                    assert(self@.recordings[i as int].id == id@);
                    assert(forall|j: int| 0 <= j < i ==> self@.recordings.take(i as int)[j] == self@.recordings[j]);
                    lemma_find_recording(self@.recordings, id@);
                    lemma_find_recording(self@.recordings.take(i as int), id@);
                    lemma_find_recording(t, id@);
                }
                return Some(i);
            }
            i = i + 1;
        }
        assert(self@.recordings.take(i as int) =~= self@.recordings);
        None
    }
}

/// The recording with this id, if the store holds one.
pub fn get_recording(db: &Database, id: &str) -> (r: Option<Recording>)
    ensures
        match r {
            Some(rec) => spec_get_recording(db@, id@) == Some(rec@),
            None => spec_get_recording(db@, id@) is None,
        },
{
    match db.recording_position(id) {
        Some(i) => {
            proof {
                lemma_find_recording(db@.recordings, id@);
            }
            let row = &db.recordings[i];
            Some(Recording { id: row.id.clone(), work: row.work.clone(), comment: row.comment.clone() })
        },
        None => None,
    }
}

} // verus!
