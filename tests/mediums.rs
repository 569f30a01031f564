use musicus_server::error::ServerError;
use musicus_server::mediums::{
    delete_medium, get_medium, get_mediums_by_discid, get_mediums_for_recording, update_medium,
    update_medium_with_ids, Medium, Track, TrackSet,
};
use musicus_server::store::{get_recording, Database, Recording, TrackRow};
use musicus_server::users::User;

fn user(name: &str, editor: bool, banned: bool) -> User {
    User { username: name.to_string(), is_admin: false, is_editor: editor, is_banned: banned }
}

fn recording(id: &str) -> Recording {
    Recording { id: id.to_string(), work: "w1".to_string(), comment: String::new() }
}

fn disc(id: &str, name: &str, discid: Option<&str>, sets: Vec<(&str, Vec<Vec<usize>>)>) -> Medium {
    Medium {
        id: id.to_string(),
        name: name.to_string(),
        discid: discid.map(|d| d.to_string()),
        tracks: sets
            .into_iter()
            .map(|(rec, tracks)| TrackSet {
                recording: recording(rec),
                tracks: tracks.into_iter().map(|work_parts| Track { work_parts }).collect(),
            })
            .collect(),
    }
}

fn shape(m: &Medium) -> (String, String, Option<String>, Vec<(String, Vec<Vec<usize>>)>) {
    (
        m.id.clone(),
        m.name.clone(),
        m.discid.clone(),
        m.tracks
            .iter()
            .map(|s| (s.recording.id.clone(), s.tracks.iter().map(|t| t.work_parts.clone()).collect()))
            .collect(),
    )
}

#[test]
fn concrete_scenario() {
    let mut db = Database::new();
    let m = disc("m1", "Disc 1", None, vec![("r1", vec![vec![0, 1], vec![2]])]);
    assert_eq!(update_medium(&mut db, &m, &user("alice", false, false)), Ok(()));
    let got = get_medium(&db, "m1").unwrap().unwrap();
    assert_eq!(shape(&got), shape(&m));
    let by_rec = get_mediums_for_recording(&db, "r1").unwrap();
    assert_eq!(by_rec.iter().map(|m| m.id.clone()).collect::<Vec<_>>(), vec!["m1".to_string()]);
    assert!(get_mediums_by_discid(&db, "x").unwrap().is_empty());
    assert_eq!(db.mediums[0].created_by, "alice");
    assert!(get_recording(&db, "r1").is_some());
}

#[test]
fn round_trip_keeps_order() {
    let mut db = Database::new();
    let m = disc(
        "m2",
        "Box",
        Some("abc"),
        vec![("r2", vec![vec![3], vec![1, 0], vec![7, 8, 9]]), ("r1", vec![vec![0]]), ("r2", vec![vec![12]])],
    );
    assert_eq!(update_medium(&mut db, &m, &user("bob", false, false)), Ok(()));
    let got = get_medium(&db, "m2").unwrap().unwrap();
    assert_eq!(shape(&got), shape(&m));
    // a recording referenced twice is created once
    assert_eq!(db.recordings.len(), 2);
    // one entry per matching track set
    assert_eq!(get_mediums_for_recording(&db, "r2").unwrap().len(), 2);
    assert_eq!(get_mediums_by_discid(&db, "abc").unwrap().len(), 1);
}

#[test]
fn replace_leaves_only_second_shape() {
    let mut db = Database::new();
    let first = disc("m1", "Old", Some("d1"), vec![("r1", vec![vec![0], vec![1]]), ("r2", vec![vec![2]])]);
    let second = disc("m1", "New", None, vec![("r3", vec![vec![5, 6]])]);
    let u = user("alice", false, false);
    assert_eq!(update_medium(&mut db, &first, &u), Ok(()));
    assert_eq!(update_medium(&mut db, &second, &u), Ok(()));
    let got = get_medium(&db, "m1").unwrap().unwrap();
    assert_eq!(shape(&got), shape(&second));
    assert_eq!(db.mediums.len(), 1);
    assert_eq!(db.track_sets.len(), 1);
    assert_eq!(db.tracks.len(), 1);
    assert!(get_mediums_for_recording(&db, "r1").unwrap().is_empty());
    assert!(get_mediums_by_discid(&db, "d1").unwrap().is_empty());
}

#[test]
fn forbidden_edit_changes_nothing() {
    let mut db = Database::new();
    let m = disc("m1", "Disc 1", None, vec![("r1", vec![vec![0]])]);
    assert_eq!(update_medium(&mut db, &m, &user("alice", false, false)), Ok(()));
    let other = disc("m1", "Hijacked", None, vec![]);
    assert_eq!(update_medium(&mut db, &other, &user("mallory", false, false)), Err(ServerError::Forbidden));
    let got = get_medium(&db, "m1").unwrap().unwrap();
    assert_eq!(shape(&got), shape(&m));
    assert_eq!(db.mediums[0].created_by, "alice");
}

#[test]
fn editor_edit_takes_ownership() {
    let mut db = Database::new();
    let m = disc("m1", "Disc 1", None, vec![]);
    assert_eq!(update_medium(&mut db, &m, &user("alice", false, false)), Ok(()));
    assert_eq!(update_medium(&mut db, &m, &user("eve", true, false)), Ok(()));
    assert_eq!(db.mediums[0].created_by, "eve");
}

#[test]
fn banned_user_cannot_create() {
    let mut db = Database::new();
    let m = disc("m1", "Disc 1", None, vec![("r1", vec![vec![0]])]);
    assert_eq!(update_medium(&mut db, &m, &user("troll", true, true)), Err(ServerError::Forbidden));
    assert!(db.mediums.is_empty());
    assert!(db.recordings.is_empty());
    assert!(matches!(get_medium(&db, "m1"), Ok(None)));
}

#[test]
fn key_collision_is_storage_error() {
    let mut db = Database::new();
    let m = disc("m1", "Disc 1", None, vec![("r1", vec![vec![0]]), ("r2", vec![vec![1]])]);
    let u = user("alice", false, false);
    let r = update_medium_with_ids(&mut db, &m, &u, &vec![7, 7], &vec![vec![1], vec![2]]);
    assert_eq!(r, Err(ServerError::StorageError));
    assert!(db.mediums.is_empty() && db.track_sets.is_empty() && db.recordings.is_empty());
    let r = update_medium_with_ids(&mut db, &m, &u, &vec![7, 8], &vec![vec![1], vec![1]]);
    assert_eq!(r, Err(ServerError::StorageError));
    let r = update_medium_with_ids(&mut db, &m, &u, &vec![7, 8], &vec![vec![1], vec![2]]);
    assert_eq!(r, Ok(()));
    assert_eq!(db.track_sets[1].id, 8);
    assert_eq!(db.tracks[1].track_set, 8);
    assert_eq!(db.tracks[1].work_parts, "1");
}

#[test]
fn delete_cascades() {
    let mut db = Database::new();
    let m = disc("m1", "Disc 1", None, vec![("r1", vec![vec![0], vec![1]])]);
    let keep = disc("m2", "Disc 2", None, vec![("r1", vec![vec![4]])]);
    assert_eq!(update_medium(&mut db, &m, &user("alice", true, false)), Ok(()));
    assert_eq!(update_medium(&mut db, &keep, &user("alice", true, false)), Ok(()));
    assert_eq!(delete_medium(&mut db, "m1", &user("bob", false, false)), Err(ServerError::Forbidden));
    assert_eq!(db.mediums.len(), 2);
    assert_eq!(delete_medium(&mut db, "m1", &user("eve", true, false)), Ok(()));
    assert!(get_medium(&db, "m1").unwrap().is_none());
    let left = get_mediums_for_recording(&db, "r1").unwrap();
    assert_eq!(left.len(), 1);
    assert_eq!(left[0].id, "m2");
    assert_eq!(db.track_sets.len(), 1);
    assert_eq!(db.tracks.len(), 1);
    // deleting again is fine
    assert_eq!(delete_medium(&mut db, "m1", &user("eve", true, false)), Ok(()));
    assert_eq!(db.mediums.len(), 1);
}

#[test]
fn medium_without_discid_never_matches() {
    let mut db = Database::new();
    let m = disc("m1", "Disc 1", None, vec![]);
    assert_eq!(update_medium(&mut db, &m, &user("alice", false, false)), Ok(()));
    assert!(get_mediums_by_discid(&db, "").unwrap().is_empty());
    assert!(get_mediums_by_discid(&db, "x").unwrap().is_empty());
}

#[test]
fn malformed_work_parts_is_decode_error() {
    for bad in ["", "1,,2", "a", "1,x", "3,", "-1", "99999999999999999999999"] {
        let mut db = Database::new();
        let m = disc("m1", "Disc 1", None, vec![("r1", vec![vec![0]])]);
        assert_eq!(update_medium(&mut db, &m, &user("alice", false, false)), Ok(()));
        db.tracks[0].work_parts = bad.to_string();
        assert_eq!(get_medium(&db, "m1").map(|o| o.is_some()), Err(ServerError::DecodeError), "{}", bad);
    }
}

#[test]
fn missing_recording_is_referential_error() {
    let mut db = Database::new();
    let m = disc("m1", "Disc 1", None, vec![("r1", vec![vec![0]])]);
    assert_eq!(update_medium(&mut db, &m, &user("alice", false, false)), Ok(()));
    db.recordings.clear();
    assert_eq!(get_medium(&db, "m1").map(|o| o.is_some()), Err(ServerError::ReferentialError));
}

#[test]
fn gap_in_positions_is_storage_error() {
    let mut db = Database::new();
    let m = disc("m1", "Disc 1", None, vec![("r1", vec![vec![0], vec![1]])]);
    assert_eq!(update_medium(&mut db, &m, &user("alice", false, false)), Ok(()));
    db.tracks.push(TrackRow { id: 1, track_set: db.track_sets[0].id, index: 5, work_parts: "0".to_string() });
    assert_eq!(get_medium(&db, "m1").map(|o| o.is_some()), Err(ServerError::StorageError));
}

#[test]
fn empty_work_parts_do_not_read_back() {
    let mut db = Database::new();
    let m = disc("m1", "Disc 1", None, vec![("r1", vec![vec![]])]);
    assert_eq!(update_medium(&mut db, &m, &user("alice", false, false)), Ok(()));
    assert_eq!(db.tracks[0].work_parts, "");
    assert_eq!(get_medium(&db, "m1").map(|o| o.is_some()), Err(ServerError::DecodeError));
}

#[test]
fn unknown_medium_is_none() {
    let db = Database::new();
    assert!(matches!(get_medium(&db, "nope"), Ok(None)));
    assert!(get_mediums_for_recording(&db, "r1").unwrap().is_empty());
}
