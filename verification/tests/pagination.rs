use audio_catalog::db::{
    AudioTable, AudioTableOrderBy, AudioTablePaginator, AudioTableRowInsert,
};

fn sample(name: &str, path: &str, created: &str) -> AudioTableRowInsert {
    AudioTableRowInsert {
        name: name.to_string(),
        tags: String::new(),
        audio_file: path.to_string(),
        created_at: created.to_string(),
        author_id: None,
        author_name: None,
        author_global_name: None,
    }
}

fn five_track_table() -> AudioTable {
    let mut table = AudioTable::new();
    let rows = [
        ("delta", "/a/d.mp3", "2024-01-05 00:00:00Z"),
        ("alpha", "/a/a.mp3", "2024-01-03 00:00:00Z"),
        ("echo", "/a/e.mp3", "2024-01-01 00:00:00Z"),
        ("bravo", "/a/b.mp3", "2024-01-04 00:00:00Z"),
        ("charlie", "/a/c.mp3", "2024-01-02 00:00:00Z"),
    ];
    for (name, path, created) in rows {
        table.insert_audio_row(sample(name, path, created)).unwrap();
    }
    table
}

#[test]
fn pagination_yields_ceil_n_over_p_pages() {
    let table = five_track_table();
    let mut cursor = AudioTablePaginator::builder().page_limit(2).build();
    let pages = cursor.collect_pages(&table);
    // five records at two per page: three non-empty pages
    assert_eq!(pages.len(), 3);
    assert_eq!(pages[0].len(), 2);
    assert_eq!(pages[1].len(), 2);
    assert_eq!(pages[2].len(), 1);
}

#[test]
fn pagination_concatenation_is_table_ordered_by_id() {
    let table = five_track_table();
    let mut cursor = AudioTablePaginator::builder().page_limit(2).build();
    let pages = cursor.collect_pages(&table);
    let ids: Vec<i64> = pages.iter().flatten().map(|r| r.id).collect();
    assert_eq!(ids, vec![1, 2, 3, 4, 5]);
}

#[test]
fn pagination_ordered_by_name() {
    let table = five_track_table();
    let mut cursor = AudioTablePaginator::builder()
        .order_by(AudioTableOrderBy::Name)
        .page_limit(3)
        .build();
    let pages = cursor.collect_pages(&table);
    assert_eq!(pages.len(), 2);
    let names: Vec<String> = pages.iter().flatten().map(|r| r.name.clone()).collect();
    assert_eq!(names, vec!["alpha", "bravo", "charlie", "delta", "echo"]);
}

#[test]
fn pagination_ordered_by_created_at() {
    let table = five_track_table();
    let mut cursor = AudioTablePaginator::builder()
        .order_by(AudioTableOrderBy::CreatedAt)
        .page_limit(500)
        .build();
    let pages = cursor.collect_pages(&table);
    assert_eq!(pages.len(), 1);
    let names: Vec<String> = pages[0].iter().map(|r| r.name.clone()).collect();
    assert_eq!(names, vec!["echo", "charlie", "alpha", "bravo", "delta"]);
}

#[test]
fn pagination_of_empty_table_ends_at_once() {
    let table = AudioTable::new();
    let mut cursor = AudioTablePaginator::builder().page_limit(4).build();
    let pages = cursor.collect_pages(&table);
    assert!(pages.is_empty());
}

#[test]
fn next_page_advances_by_page_limit() {
    let table = five_track_table();
    let mut cursor = AudioTablePaginator::builder().page_limit(4).build();
    let first = cursor.next_page(&table);
    assert_eq!(first.len(), 4);
    let second = cursor.next_page(&table);
    assert_eq!(second.len(), 1);
    let third = cursor.next_page(&table);
    assert!(third.is_empty());
}

#[test]
fn order_by_col_name() {
    assert_eq!(AudioTableOrderBy::CreatedAt.col_name(), "created_at");
    assert_eq!(AudioTableOrderBy::Id.col_name(), "id");
    assert_eq!(AudioTableOrderBy::Name.col_name(), "name");
}
