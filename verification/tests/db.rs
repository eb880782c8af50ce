use audio_catalog::db::{AudioTable, AudioTableRowInsert, UniqueAudioTableCol};
use audio_catalog::errors::{AudioTableError, UniqueConstraintColumn};

fn sample(name: &str, path: &str, tags: &str, created: &str) -> AudioTableRowInsert {
    AudioTableRowInsert {
        name: name.to_string(),
        tags: tags.to_string(),
        audio_file: path.to_string(),
        created_at: created.to_string(),
        author_id: Some(42),
        author_name: Some("uploader".to_string()),
        author_global_name: None,
    }
}

#[test]
fn insert_then_find_by_id_round_trips() {
    let mut table = AudioTable::new();
    let ins = sample(
        "star wars blaster",
        "/audio/blaster.mp3",
        "star,wars,blaster",
        "2024-01-02 03:04:05Z",
    );
    table.insert_audio_row(ins).unwrap();

    let row = table
        .find_audio_row(&UniqueAudioTableCol::Id(1))
        .expect("the first insert gets id 1");
    assert_eq!(row.id, 1);
    assert_eq!(row.name, "star wars blaster");
    assert_eq!(row.tags, "star,wars,blaster");
    assert_eq!(row.audio_file, "/audio/blaster.mp3");
    assert_eq!(row.created_at, "2024-01-02 03:04:05Z");
    assert_eq!(row.author_id, Some(42));
    assert_eq!(row.author_name, Some("uploader".to_string()));
    assert_eq!(row.author_global_name, None);
}

#[test]
fn find_by_name_and_path() {
    let mut table = AudioTable::new();
    table
        .insert_audio_row(sample("one", "/a/one.mp3", "", "2024-01-01 00:00:00Z"))
        .unwrap();
    table
        .insert_audio_row(sample("two", "/a/two.mp3", "", "2024-01-01 00:00:01Z"))
        .unwrap();

    let by_name = table
        .find_audio_row(&UniqueAudioTableCol::Name("two".to_string()))
        .unwrap();
    assert_eq!(by_name.id, 2);
    let by_path = table
        .find_audio_row(&UniqueAudioTableCol::AudioFile("/a/one.mp3".to_string()))
        .unwrap();
    assert_eq!(by_path.id, 1);
    assert!(table
        .find_audio_row(&UniqueAudioTableCol::Name("three".to_string()))
        .is_none());
    assert!(table.find_audio_row(&UniqueAudioTableCol::Id(17)).is_none());
}

#[test]
fn duplicate_name_is_rejected() {
    let mut table = AudioTable::new();
    table
        .insert_audio_row(sample("dup", "/a/one.mp3", "", "2024-01-01 00:00:00Z"))
        .unwrap();
    let err = table
        .insert_audio_row(sample("dup", "/a/two.mp3", "", "2024-01-01 00:00:01Z"))
        .unwrap_err();
    assert_eq!(
        err,
        AudioTableError::UniqueConstraintViolation {
            column: UniqueConstraintColumn::Name
        }
    );
    // the failed insert left nothing behind
    assert!(table
        .find_audio_row(&UniqueAudioTableCol::AudioFile("/a/two.mp3".to_string()))
        .is_none());
}

#[test]
fn duplicate_path_is_rejected() {
    let mut table = AudioTable::new();
    table
        .insert_audio_row(sample("one", "/a/same.mp3", "", "2024-01-01 00:00:00Z"))
        .unwrap();
    let err = table
        .insert_audio_row(sample("two", "/a/same.mp3", "", "2024-01-01 00:00:01Z"))
        .unwrap_err();
    assert_eq!(
        err,
        AudioTableError::UniqueConstraintViolation {
            column: UniqueConstraintColumn::AudioFile
        }
    );
}

#[test]
fn exists_tracks_insert_and_delete() {
    let mut table = AudioTable::new();
    assert!(!table.has_audio_file("/a/clip.mp3"));
    table
        .insert_audio_row(sample("clip", "/a/clip.mp3", "", "2024-01-01 00:00:00Z"))
        .unwrap();
    assert!(table.has_audio_file("/a/clip.mp3"));
    table.delete_row_by_audio_file("/a/clip.mp3");
    assert!(!table.has_audio_file("/a/clip.mp3"));
}

#[test]
fn delete_of_absent_path_changes_nothing() {
    let mut table = AudioTable::new();
    table
        .insert_audio_row(sample("keep", "/a/keep.mp3", "", "2024-01-01 00:00:00Z"))
        .unwrap();
    table.delete_row_by_audio_file("/a/missing.mp3");
    assert_eq!(table.row_count(), 1);
    assert!(table.has_audio_file("/a/keep.mp3"));
}

#[test]
fn ids_are_not_reused_after_delete() {
    let mut table = AudioTable::new();
    table
        .insert_audio_row(sample("a", "/a/a.mp3", "", "2024-01-01 00:00:00Z"))
        .unwrap();
    table.delete_row_by_audio_file("/a/a.mp3");
    table
        .insert_audio_row(sample("b", "/a/b.mp3", "", "2024-01-01 00:00:01Z"))
        .unwrap();
    let row = table
        .find_audio_row(&UniqueAudioTableCol::Name("b".to_string()))
        .unwrap();
    assert_eq!(row.id, 2);
    assert!(table.find_audio_row(&UniqueAudioTableCol::Id(1)).is_none());
}

#[test]
fn search_finds_record_after_insert_and_not_after_delete() {
    let mut table = AudioTable::new();
    table
        .insert_audio_row(sample(
            "Star-Wars Blaster!",
            "/audio/blaster.mp3",
            "star,wars",
            "2024-01-01 00:00:00Z",
        ))
        .unwrap();

    // the query is normalized the same way as the stored name
    let hits = table.fts_search("Star-Wars");
    assert_eq!(hits.len(), 1);
    assert_eq!(hits[0].name, "Star-Wars Blaster!");

    // a match on the stored path works too
    let hits = table.fts_search("blaster.mp3");
    assert_eq!(hits.len(), 1);

    table.delete_row_by_audio_file("/audio/blaster.mp3");
    assert!(table.fts_search("Star-Wars").is_empty());
    assert!(table.fts_search("blaster.mp3").is_empty());
}

#[test]
fn search_misses_unrelated_query() {
    let mut table = AudioTable::new();
    table
        .insert_audio_row(sample("drum", "/a/drum.mp3", "", "2024-01-01 00:00:00Z"))
        .unwrap();
    assert!(table.fts_search("trumpet").is_empty());
}

#[test]
fn sql_condition_uses_bound_parameters() {
    assert_eq!(UniqueAudioTableCol::Id(7).sql_condition(), "id = ?1");
    assert_eq!(
        UniqueAudioTableCol::Name("x".to_string()).sql_condition(),
        "name = ?1"
    );
    assert_eq!(
        UniqueAudioTableCol::AudioFile("x".to_string()).sql_condition(),
        "audio_file = ?1"
    );
}

#[test]
fn autocomplete_short_query_lists_most_recent() {
    let mut table = AudioTable::new();
    table
        .insert_audio_row(sample("old", "/a/old.mp3", "", "2024-01-01 00:00:00Z"))
        .unwrap();
    table
        .insert_audio_row(sample("mid", "/a/mid.mp3", "", "2024-02-01 00:00:00Z"))
        .unwrap();
    table
        .insert_audio_row(sample("new", "/a/new.mp3", "", "2024-03-01 00:00:00Z"))
        .unwrap();

    let names = table.autocomplete_audio_track_names("ab", 2);
    assert_eq!(names, vec!["new".to_string(), "mid".to_string()]);
}

#[test]
fn autocomplete_long_query_matches_index() {
    let mut table = AudioTable::new();
    table
        .insert_audio_row(sample(
            "trombone",
            "/a/trombone.mp3",
            "",
            "2024-01-01 00:00:00Z",
        ))
        .unwrap();
    table
        .insert_audio_row(sample("drum", "/a/drum.mp3", "", "2024-01-02 00:00:00Z"))
        .unwrap();

    let names = table.autocomplete_audio_track_names("trom", 5);
    assert_eq!(names, vec!["trombone".to_string()]);
    assert!(table.autocomplete_audio_track_names("zzzz", 5).is_empty());
}

#[test]
fn autocomplete_opt_starts_with_sentinel() {
    let mut table = AudioTable::new();
    table
        .insert_audio_row(sample("drum", "/a/drum.mp3", "", "2024-01-01 00:00:00Z"))
        .unwrap();
    let names = table.autocomplete_opt_audio_track_names("drum", 5);
    assert_eq!(names, vec!["NONE".to_string(), "drum".to_string()]);
}
