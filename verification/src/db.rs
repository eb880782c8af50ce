//! The primary record table and its synchronized search index.
//!
//! `AudioTable` is the authoritative store of `AudioTableRow` records. Next
//! to the primary rows it keeps a search index holding, for every live
//! record, the normalized projection of its `name` and `audio_file`. Every
//! mutation updates the rows and the index together, so a reader can never
//! observe one without the matching change to the other; the well-formedness
//! predicate [`TableView::wf`] states that synchronization, together with
//! the uniqueness of `id`, `name` and `audio_file` and the fact that ids are
//! assigned in increasing order and never reused.

use vstd::prelude::*;
use vstd::seq_lib::*;
use vstd::string::*;

use crate::errors::{AudioTableError, UniqueConstraintColumn};
use crate::fts::{contains_seq, contains_str, fts_clean_spec, fts_clean_text};
use crate::strutil::{lemma_lex_le_total, lemma_lex_le_trans, lex_le, lex_le_str, str_eq};

verus! {

/// The format of the `created_at` column: a UTC timestamp rendered as
/// `YYYY-MM-DD HH:MM:SSZ`.
pub const DATETIME_FMT: &'static str = "%Y-%m-%d %H:%M:%SZ";

/// One record of the primary table.
pub struct AudioTableRow {
    /// Surrogate primary key, assigned by the store on insert.
    pub id: i64,
    /// Human display name; unique across all records.
    pub name: String,
    /// Free-form space/comma-delimited search terms.
    pub tags: String,
    /// Canonical path to the backing media file; unique across all records.
    pub audio_file: String,
    /// Creation timestamp, in the fixed [`DATETIME_FMT`] format.
    pub created_at: String,
    /// Optional uploader id.
    pub author_id: Option<u64>,
    /// Optional uploader name.
    pub author_name: Option<String>,
    /// Optional uploader global display name.
    pub author_global_name: Option<String>,
}

fn clone_opt_string(o: &Option<String>) -> (r: Option<String>)
    ensures
        r == *o,
{
    match o {
        Some(s) => Some(s.clone()),
        None => None,
    }
}

impl AudioTableRow {
    /// An exact copy of this record.
    pub fn clone_row(&self) -> (r: Self)
        ensures
            r == *self,
    {
        AudioTableRow {
            id: self.id,
            name: self.name.clone(),
            tags: self.tags.clone(),
            audio_file: self.audio_file.clone(),
            created_at: self.created_at.clone(),
            author_id: self.author_id,
            author_name: clone_opt_string(&self.author_name),
            author_global_name: clone_opt_string(&self.author_global_name),
        }
    }
}

/// A record as handed to `insert_audio_row`: everything but the id, which
/// the store assigns.
pub struct AudioTableRowInsert {
    pub name: String,
    pub tags: String,
    pub audio_file: String,
    pub created_at: String,
    pub author_id: Option<u64>,
    pub author_name: Option<String>,
    pub author_global_name: Option<String>,
}

/// One entry of the search index: the normalized projection of a record's
/// `name` and `audio_file`, keyed by the record's id.
pub struct FtsEntry {
    pub rowid: i64,
    pub name: String,
    pub audio_file: String,
}

/// The mathematical content of a search-index entry.
pub ghost struct FtsEntryView {
    pub rowid: i64,
    pub name: Seq<char>,
    pub audio_file: Seq<char>,
}

impl View for FtsEntry {
    type V = FtsEntryView;

    open spec fn view(&self) -> FtsEntryView {
        FtsEntryView { rowid: self.rowid, name: self.name@, audio_file: self.audio_file@ }
    }
}

/// One of the unique keys of the primary table, with its typed value. Each
/// variant resolves to at most one record.
#[derive(Debug)]
pub enum UniqueAudioTableCol {
    Id(i64),
    Name(String),
    AudioFile(String),
}

impl UniqueAudioTableCol {
    /// The SQL predicate selecting this key, with the value bound as a
    /// query parameter rather than interpolated into the statement text.
    pub fn sql_condition(&self) -> (r: String)
        ensures
            (match self {
                UniqueAudioTableCol::Id(_) => r@ == "id = ?1"@,
                UniqueAudioTableCol::Name(_) => r@ == "name = ?1"@,
                UniqueAudioTableCol::AudioFile(_) => r@ == "audio_file = ?1"@,
            }),
    {
        match self {
            UniqueAudioTableCol::Id(_) => String::from_str("id = ?1"),
            UniqueAudioTableCol::Name(_) => String::from_str("name = ?1"),
            UniqueAudioTableCol::AudioFile(_) => String::from_str("audio_file = ?1"),
        }
    }
}

/// Whether `row` is the record selected by the key `col`.
pub open spec fn key_matches(col: UniqueAudioTableCol, row: AudioTableRow) -> bool {
    match col {
        UniqueAudioTableCol::Id(id) => row.id == id,
        UniqueAudioTableCol::Name(name) => row.name@ == name@,
        UniqueAudioTableCol::AudioFile(audio_file) => row.audio_file@ == audio_file@,
    }
}

/// The record a successful insert creates from `ins` under the id `id`.
pub open spec fn row_for_insert(ins: AudioTableRowInsert, id: i64) -> AudioTableRow {
    AudioTableRow {
        id,
        name: ins.name,
        tags: ins.tags,
        audio_file: ins.audio_file,
        created_at: ins.created_at,
        author_id: ins.author_id,
        author_name: ins.author_name,
        author_global_name: ins.author_global_name,
    }
}

/// The mathematical content of the whole table: the primary rows in storage
/// order, the search index, and the next id to assign.
pub ghost struct TableView {
    pub rows: Seq<AudioTableRow>,
    pub index: Seq<FtsEntryView>,
    pub next_id: int,
}

impl TableView {
    /// The index entry the search index must hold for `row`.
    pub open spec fn index_entry_for(row: AudioTableRow) -> FtsEntryView {
        FtsEntryView {
            rowid: row.id,
            name: fts_clean_spec(row.name@),
            audio_file: fts_clean_spec(row.audio_file@),
        }
    }

    /// Well-formedness of the store: the index holds exactly one entry per
    /// row, with that row's id and normalized text; ids are strictly
    /// increasing in storage order and all below `next_id` (so an id is
    /// assigned once and never reused); and `name` and `audio_file` are each
    /// unique across all rows.
    pub open spec fn wf(self) -> bool {
        &&& 1 <= self.next_id
        &&& self.index.len() == self.rows.len()
        &&& forall|i: int|
            0 <= i < self.rows.len() ==> self.index[i] == Self::index_entry_for(
                #[trigger] self.rows[i],
            )
        &&& forall|i: int| 0 <= i < self.rows.len() ==> 1 <= (#[trigger] self.rows[i]).id
            < self.next_id
        &&& forall|i: int, j: int|
            #![trigger self.rows[i], self.rows[j]]
            0 <= i < j < self.rows.len() ==> {
                &&& self.rows[i].id < self.rows[j].id
                &&& self.rows[i].name@ != self.rows[j].name@
                &&& self.rows[i].audio_file@ != self.rows[j].audio_file@
            }
    }

    /// Whether some record has this display name.
    pub open spec fn has_name(self, name: Seq<char>) -> bool {
        exists|i: int| 0 <= i < self.rows.len() && (#[trigger] self.rows[i]).name@ == name
    }

    /// Whether some record has this audio file path.
    pub open spec fn has_audio_file(self, audio_file: Seq<char>) -> bool {
        exists|i: int|
            0 <= i < self.rows.len() && (#[trigger] self.rows[i]).audio_file@ == audio_file
    }

    /// The table after a successful insert of `ins`: the new record and its
    /// index entry appear together, and the next id moves past the one just
    /// assigned.
    pub open spec fn spec_insert(self, ins: AudioTableRowInsert) -> TableView {
        let row = row_for_insert(ins, self.next_id as i64);
        TableView {
            rows: self.rows.push(row),
            index: self.index.push(Self::index_entry_for(row)),
            next_id: self.next_id + 1,
        }
    }

    /// The first record among `rows` selected by `col`, scanning forward.
    pub open spec fn lookup_from(rows: Seq<AudioTableRow>, col: UniqueAudioTableCol) -> Option<
        AudioTableRow,
    >
        decreases rows.len(),
    {
        if rows.len() == 0 {
            None
        } else if key_matches(col, rows.first()) {
            Some(rows.first())
        } else {
            Self::lookup_from(rows.drop_first(), col)
        }
    }

    /// The record selected by the unique key `col`, if any.
    pub open spec fn lookup(self, col: UniqueAudioTableCol) -> Option<AudioTableRow> {
        Self::lookup_from(self.rows, col)
    }

    /// The position of the record with this audio file path, if any.
    pub open spec fn path_index(rows: Seq<AudioTableRow>, audio_file: Seq<char>) -> Option<int>
        decreases rows.len(),
    {
        if rows.len() == 0 {
            None
        } else if rows.first().audio_file@ == audio_file {
            Some(0)
        } else {
            match Self::path_index(rows.drop_first(), audio_file) {
                Some(j) => Some(j + 1),
                None => None,
            }
        }
    }

    /// The table after deleting the record with this audio file path: the
    /// record and its index entry disappear together; absence of a match
    /// changes nothing. Ids are never reassigned, so `next_id` stays.
    pub open spec fn spec_delete(self, audio_file: Seq<char>) -> TableView {
        match Self::path_index(self.rows, audio_file) {
            Some(i) => TableView {
                rows: self.rows.remove(i),
                index: self.index.remove(i),
                next_id: self.next_id,
            },
            None => self,
        }
    }
}

/// What `lookup` finds is a record of the table that the key selects, and
/// `lookup` fails only when no record is selected by the key.
pub proof fn lemma_lookup_ensures(rows: Seq<AudioTableRow>, col: UniqueAudioTableCol)
    ensures
        (match TableView::lookup_from(rows, col) {
            Some(row) => exists|i: int|
                0 <= i < rows.len() && rows[i] == row && key_matches(col, #[trigger] rows[i]),
            None => forall|i: int| 0 <= i < rows.len() ==> !key_matches(col, #[trigger] rows[i]),
        }),
    decreases rows.len(),
{
    if rows.len() > 0 {
        if !key_matches(col, rows.first()) {
            lemma_lookup_ensures(rows.drop_first(), col);
            match TableView::lookup_from(rows, col) {
                Some(row) => {
                    let i = choose|i: int|
                        0 <= i < rows.drop_first().len() && rows.drop_first()[i] == row
                            && key_matches(col, rows.drop_first()[i]);
                    assert(rows[i + 1] == rows.drop_first()[i]);
                },
                None => {
                    assert forall|i: int| 0 <= i < rows.len() implies !key_matches(
                        col,
                        #[trigger] rows[i],
                    ) by {
                        if i > 0 {
                            assert(rows[i] == rows.drop_first()[i - 1]);
                        }
                    }
                },
            }
        }
    }
}

/// The authoritative store of audio records, with its synchronized search
/// index. The schema's consistency rules are part of every mutation: a row
/// and its index entry are created, replaced and removed together, within
/// the same call.
pub struct AudioTable {
    rows: Vec<AudioTableRow>,
    index: Vec<FtsEntry>,
    next_id: i64,
}

impl View for AudioTable {
    type V = TableView;

    closed spec fn view(&self) -> TableView {
        TableView {
            rows: self.rows@,
            index: self.index@.map_values(|e: FtsEntry| e@),
            next_id: self.next_id as int,
        }
    }
}

impl AudioTable {
    /// Well-formedness of the store; established by `new` and preserved by
    /// every operation.
    pub open spec fn wf(&self) -> bool {
        self@.wf()
    }

    /// Create an empty store. Ids start at 1, as the storage engine's row
    /// ids do.
    pub fn new() -> (r: AudioTable)
        ensures
            r.wf(),
            r@.rows =~= Seq::<AudioTableRow>::empty(),
            r@.index =~= Seq::<FtsEntryView>::empty(),
            r@.next_id == 1,
    {
        let r = AudioTable { rows: Vec::new(), index: Vec::new(), next_id: 1 };
        proof {
            assert(r@.index =~= Seq::<FtsEntryView>::empty());
        }
        r
    }

    /// The number of records currently stored.
    pub fn row_count(&self) -> (n: usize)
        ensures
            n == self@.rows.len(),
    {
        self.rows.len()
    }

    /// The id the next successful insert will assign.
    pub fn next_row_id(&self) -> (r: i64)
        ensures
            r as int == self@.next_id,
    {
        self.next_id
    }

    fn contains_name(&self, name: &str) -> (r: bool)
        ensures
            r == self@.has_name(name@),
    {
        let n = self.rows.len();
        let mut i: usize = 0;
        while i < n
            invariant
                n == self@.rows.len(),
                i <= n,
                forall|j: int| 0 <= j < i ==> (#[trigger] self@.rows[j]).name@ != name@,
            decreases n - i,
        {
            if str_eq(self.rows[i].name.as_str(), name) {
                return true;
            }
            i += 1;
        }
        false
    }

    /// Whether a record with this audio file path exists. Returns `true`
    /// exactly when one does.
    pub fn has_audio_file(&self, audio_file: &str) -> (r: bool)
        ensures
            r == self@.has_audio_file(audio_file@),
    {
        let n = self.rows.len();
        let mut i: usize = 0;
        while i < n
            invariant
                n == self@.rows.len(),
                i <= n,
                forall|j: int| 0 <= j < i ==> (#[trigger] self@.rows[j]).audio_file@ != audio_file@,
            decreases n - i,
        {
            if str_eq(self.rows[i].audio_file.as_str(), audio_file) {
                return true;
            }
            i += 1;
        }
        false
    }

    /// Insert a new record. On success the record and its index entry are
    /// added together and the record is assigned the next free id; a
    /// duplicate `name` or `audio_file` fails with a
    /// `UniqueConstraintViolation` naming the column (checking `name`
    /// first), and leaves the store unchanged.
    pub fn insert_audio_row(&mut self, audio_row: AudioTableRowInsert) -> (r: Result<
        (),
        AudioTableError,
    >)
        requires
            old(self).wf(),
            old(self)@.next_id < i64::MAX,
        ensures
            final(self).wf(),
            r is Ok <==> (!old(self)@.has_name(audio_row.name@) && !old(self)@.has_audio_file(
                audio_row.audio_file@,
            )),
            (match r {
                Ok(_) => final(self)@ == old(self)@.spec_insert(audio_row),
                Err(e) => {
                    &&& final(self)@ == old(self)@
                    &&& e == (if old(self)@.has_name(audio_row.name@) {
                        AudioTableError::UniqueConstraintViolation {
                            column: UniqueConstraintColumn::Name,
                        }
                    } else {
                        AudioTableError::UniqueConstraintViolation {
                            column: UniqueConstraintColumn::AudioFile,
                        }
                    })
                },
            }),
    {
        if self.contains_name(audio_row.name.as_str()) {
            return Err(
                AudioTableError::UniqueConstraintViolation { column: UniqueConstraintColumn::Name },
            );
        }
        if self.has_audio_file(audio_row.audio_file.as_str()) {
            return Err(
                AudioTableError::UniqueConstraintViolation {
                    column: UniqueConstraintColumn::AudioFile,
                },
            );
        }
        let id = self.next_id;
        let entry = FtsEntry {
            rowid: id,
            name: fts_clean_text(audio_row.name.as_str()),
            audio_file: fts_clean_text(audio_row.audio_file.as_str()),
        };
        let row = AudioTableRow {
            id,
            name: audio_row.name,
            tags: audio_row.tags,
            audio_file: audio_row.audio_file,
            created_at: audio_row.created_at,
            author_id: audio_row.author_id,
            author_name: audio_row.author_name,
            author_global_name: audio_row.author_global_name,
        };
        self.rows.push(row);
        self.index.push(entry);
        self.next_id = self.next_id + 1;
        proof {
            let orows = old(self)@.rows;
            let row_s = row_for_insert(audio_row, old(self)@.next_id as i64);
            assert(self@.rows =~= orows.push(row_s));
            assert(self@.index =~= old(self)@.index.push(TableView::index_entry_for(row_s)));
            assert(self@ == old(self)@.spec_insert(audio_row));
            assert forall|a: int, b: int|
                #![trigger self@.rows[a], self@.rows[b]]
                0 <= a < b < self@.rows.len() implies {
                &&& self@.rows[a].id < self@.rows[b].id
                &&& self@.rows[a].name@ != self@.rows[b].name@
                &&& self@.rows[a].audio_file@ != self@.rows[b].audio_file@
            } by {
                assert(self@.rows[a] == orows[a]);
                if b < orows.len() {
                    assert(self@.rows[b] == orows[b]);
                } else {
                    assert(self@.rows[b] == row_s);
                    assert(orows[a].name@ != audio_row.name@);
                    assert(orows[a].audio_file@ != audio_row.audio_file@);
                }
            }
            assert forall|j: int| 0 <= j < self@.rows.len() implies self@.index[j]
                == TableView::index_entry_for(#[trigger] self@.rows[j]) by {
                if j < orows.len() {
                    assert(self@.rows[j] == orows[j]);
                    assert(self@.index[j] == old(self)@.index[j]);
                }
            }
            assert(final(self).wf());
        }
        Ok(())
    }

    /// Fetch the single record selected by a unique key, or `None` when no
    /// record matches.
    pub fn find_audio_row(&self, col: &UniqueAudioTableCol) -> (r: Option<AudioTableRow>)
        ensures
            r == self@.lookup(*col),
    {
        let n = self.rows.len();
        proof {
            assert(self@.rows.subrange(0, n as int) =~= self@.rows);
        }
        let mut i: usize = 0;
        while i < n
            invariant
                n == self@.rows.len(),
                i <= n,
                self@.lookup(*col) == TableView::lookup_from(
                    self@.rows.subrange(i as int, n as int),
                    *col,
                ),
            decreases n - i,
        {
            let ghost rest = self@.rows.subrange(i as int, n as int);
            proof {
                assert(rest.first() == self@.rows[i as int]);
                assert(rest.drop_first() =~= self@.rows.subrange(i as int + 1, n as int));
            }
            if Self::key_matches_exec(col, &self.rows[i]) {
                return Some(self.rows[i].clone_row());
            }
            i += 1;
        }
        proof {
            assert(self@.rows.subrange(n as int, n as int) =~= Seq::<AudioTableRow>::empty());
        }
        None
    }

    fn key_matches_exec(col: &UniqueAudioTableCol, row: &AudioTableRow) -> (b: bool)
        ensures
            b == key_matches(*col, *row),
    {
        match col {
            UniqueAudioTableCol::Id(id) => row.id == *id,
            UniqueAudioTableCol::Name(name) => str_eq(row.name.as_str(), name.as_str()),
            UniqueAudioTableCol::AudioFile(audio_file) => str_eq(
                row.audio_file.as_str(),
                audio_file.as_str(),
            ),
        }
    }

    /// Delete the record with this audio file path, and its index entry with
    /// it. Absence of a match is not an error and changes nothing.
    pub fn delete_row_by_audio_file(&mut self, audio_file: &str)
        requires
            old(self).wf(),
        ensures
            final(self).wf(),
            final(self)@ == old(self)@.spec_delete(audio_file@),
    {
        let n = self.rows.len();
        let mut i: usize = 0;
        while i < n
            invariant
                old(self).wf(),
                n == self@.rows.len(),
                i <= n,
                *self == *old(self),
                forall|j: int| 0 <= j < i ==> (#[trigger] self@.rows[j]).audio_file@ != audio_file@,
            decreases n - i,
        {
            if str_eq(self.rows[i].audio_file.as_str(), audio_file) {
                proof {
                    lemma_path_index_at(self@.rows, audio_file@, i as int);
                    assert(old(self)@.index.len() == old(self)@.rows.len());
                    assert(self.index@.len() == old(self)@.index.len());
                }
                self.rows.remove(i);
                self.index.remove(i);
                proof {
                    let orows = old(self)@.rows;
                    let oindex = old(self)@.index;
                    orows.remove_ensures(i as int);
                    oindex.remove_ensures(i as int);
                    old(self).index@.remove_ensures(i as int);
                    assert forall|k: int| 0 <= k < self@.index.len() implies self@.index[k]
                        == oindex.remove(i as int)[k] by {
                        if k < i {
                            assert(self.index@[k] == old(self).index@[k]);
                        } else {
                            assert(self.index@[k] == old(self).index@[k + 1]);
                        }
                    }
                    assert(self@.index =~= oindex.remove(i as int));
                    assert(final(self)@ == old(self)@.spec_delete(audio_file@));
                    assert forall|a: int, b: int|
                        #![trigger self@.rows[a], self@.rows[b]]
                        0 <= a < b < self@.rows.len() implies {
                        &&& self@.rows[a].id < self@.rows[b].id
                        &&& self@.rows[a].name@ != self@.rows[b].name@
                        &&& self@.rows[a].audio_file@ != self@.rows[b].audio_file@
                    } by {
                        let a0: int = if a < i { a } else { a + 1 };
                        let b0: int = if b < i { b } else { b + 1 };
                        assert(self@.rows[a] == orows[a0]);
                        assert(self@.rows[b] == orows[b0]);
                    }
                    assert forall|j: int| 0 <= j < self@.rows.len() implies self@.index[j]
                        == TableView::index_entry_for(#[trigger] self@.rows[j]) by {
                        let j0: int = if j < i { j } else { j + 1 };
                        assert(self@.rows[j] == orows[j0]);
                        assert(self@.index[j] == oindex[j0]);
                    }
                    assert(final(self).wf());
                }
                return ;
            }
            i += 1;
        }
        proof {
            lemma_path_index_none(self@.rows, audio_file@);
        }
    }
}

/// When the records before position `i` miss the path and the record at `i`
/// carries it, `i` is where `path_index` points.
proof fn lemma_path_index_at(rows: Seq<AudioTableRow>, audio_file: Seq<char>, i: int)
    requires
        0 <= i < rows.len(),
        rows[i].audio_file@ == audio_file,
        forall|j: int| 0 <= j < i ==> (#[trigger] rows[j]).audio_file@ != audio_file,
    ensures
        TableView::path_index(rows, audio_file) == Some(i),
    decreases i,
{
    if i > 0 {
        assert(rows.first().audio_file@ != audio_file);
        assert(rows.drop_first()[i - 1] == rows[i]);
        assert forall|j: int| 0 <= j < i - 1 implies (#[trigger] rows.drop_first()[j]).audio_file@
            != audio_file by {
            assert(rows.drop_first()[j] == rows[j + 1]);
        }
        lemma_path_index_at(rows.drop_first(), audio_file, i - 1);
    }
}

/// When no record carries the path, `path_index` finds nothing.
proof fn lemma_path_index_none(rows: Seq<AudioTableRow>, audio_file: Seq<char>)
    requires
        forall|j: int| 0 <= j < rows.len() ==> (#[trigger] rows[j]).audio_file@ != audio_file,
    ensures
        TableView::path_index(rows, audio_file) is None,
    decreases rows.len(),
{
    if rows.len() > 0 {
        assert forall|j: int|
            0 <= j < rows.drop_first().len() implies (#[trigger] rows.drop_first()[j]).audio_file@
            != audio_file by {
            assert(rows.drop_first()[j] == rows[j + 1]);
        }
        lemma_path_index_none(rows.drop_first(), audio_file);
    }
}

/// The column a page sequence is ordered by.
pub enum AudioTableOrderBy {
    CreatedAt,
    Id,
    Name,
}

impl AudioTableOrderBy {
    /// The name of the column in the schema.
    pub fn col_name(&self) -> (r: String)
        ensures
            (match self {
                AudioTableOrderBy::CreatedAt => r@ == "created_at"@,
                AudioTableOrderBy::Id => r@ == "id"@,
                AudioTableOrderBy::Name => r@ == "name"@,
            }),
    {
        match self {
            AudioTableOrderBy::CreatedAt => String::from_str("created_at"),
            AudioTableOrderBy::Id => String::from_str("id"),
            AudioTableOrderBy::Name => String::from_str("name"),
        }
    }
}

/// Whether `a` sorts no later than `b` under the configured column. Text
/// columns compare lexicographically by code point; the fixed `created_at`
/// format makes that chronological order.
pub open spec fn key_le(order_by: AudioTableOrderBy, a: AudioTableRow, b: AudioTableRow) -> bool {
    match order_by {
        AudioTableOrderBy::CreatedAt => lex_le(a.created_at@, b.created_at@),
        AudioTableOrderBy::Id => a.id <= b.id,
        AudioTableOrderBy::Name => lex_le(a.name@, b.name@),
    }
}

/// `key_le` is total.
pub proof fn lemma_key_le_total(order_by: AudioTableOrderBy, a: AudioTableRow, b: AudioTableRow)
    ensures
        key_le(order_by, a, b) || key_le(order_by, b, a),
{
    match order_by {
        AudioTableOrderBy::CreatedAt => lemma_lex_le_total(a.created_at@, b.created_at@),
        AudioTableOrderBy::Id => {},
        AudioTableOrderBy::Name => lemma_lex_le_total(a.name@, b.name@),
    }
}

/// `key_le` is transitive.
pub proof fn lemma_key_le_trans(
    order_by: AudioTableOrderBy,
    a: AudioTableRow,
    b: AudioTableRow,
    c: AudioTableRow,
)
    requires
        key_le(order_by, a, b),
        key_le(order_by, b, c),
    ensures
        key_le(order_by, a, c),
{
    match order_by {
        AudioTableOrderBy::CreatedAt => lemma_lex_le_trans(a.created_at@, b.created_at@, c.created_at@),
        AudioTableOrderBy::Id => {},
        AudioTableOrderBy::Name => lemma_lex_le_trans(a.name@, b.name@, c.name@),
    }
}

/// The sequence is sorted by the configured column.
pub open spec fn sorted_by_key(order_by: AudioTableOrderBy, s: Seq<AudioTableRow>) -> bool {
    forall|i: int, j: int|
        #![trigger s[i], s[j]]
        0 <= i < j < s.len() ==> key_le(order_by, s[i], s[j])
}

/// Insert `row` into the sorted sequence `s`, after every record that sorts
/// no later than it (so records with equal keys keep their earlier order).
pub open spec fn spec_insert_sorted(
    order_by: AudioTableOrderBy,
    s: Seq<AudioTableRow>,
    row: AudioTableRow,
) -> Seq<AudioTableRow>
    decreases s.len(),
{
    if s.len() == 0 {
        seq![row]
    } else if !key_le(order_by, s.first(), row) {
        seq![row] + s
    } else {
        seq![s.first()] + spec_insert_sorted(order_by, s.drop_first(), row)
    }
}

/// The rows sorted by the configured column, stably: records with equal
/// keys keep their storage order.
pub open spec fn spec_sorted(order_by: AudioTableOrderBy, rows: Seq<AudioTableRow>) -> Seq<
    AudioTableRow,
>
    decreases rows.len(),
{
    if rows.len() == 0 {
        Seq::<AudioTableRow>::empty()
    } else {
        spec_insert_sorted(order_by, spec_sorted(order_by, rows.drop_last()), rows.last())
    }
}

proof fn lemma_insert_sorted_ensures(
    order_by: AudioTableOrderBy,
    s: Seq<AudioTableRow>,
    row: AudioTableRow,
)
    requires
        sorted_by_key(order_by, s),
    ensures
        ({
            let t = spec_insert_sorted(order_by, s, row);
            &&& t.len() == s.len() + 1
            &&& sorted_by_key(order_by, t)
            &&& t.to_multiset() == s.to_multiset().insert(row)
            &&& forall|k: int| 0 <= k < t.len() ==> t[k] == row || s.contains(#[trigger] t[k])
        }),
    decreases s.len(),
{
    broadcast use vstd::seq_lib::group_to_multiset_ensures;
    broadcast use vstd::multiset::group_multiset_axioms;

    let t = spec_insert_sorted(order_by, s, row);
    if s.len() == 0 {
        assert(seq![row] =~= Seq::<AudioTableRow>::empty().push(row));
        assert(t.to_multiset() =~= s.to_multiset().insert(row));
    } else if !key_le(order_by, s.first(), row) {
        lemma_multiset_commutative(seq![row], s);
        assert(seq![row] =~= Seq::<AudioTableRow>::empty().push(row));
        assert(t.to_multiset() =~= s.to_multiset().insert(row));
        lemma_key_le_total(order_by, s.first(), row);
        assert forall|i: int, j: int|
            #![trigger t[i], t[j]]
            0 <= i < j < t.len() implies key_le(order_by, t[i], t[j]) by {
            if i == 0 {
                assert(t[j] == s[j - 1]);
                if j == 1 {
                    assert(key_le(order_by, row, s.first()));
                } else {
                    lemma_key_le_trans(order_by, row, s.first(), s[j - 1]);
                }
            } else {
                assert(t[i] == s[i - 1]);
                assert(t[j] == s[j - 1]);
            }
        }
        assert forall|k: int| 0 <= k < t.len() implies t[k] == row || s.contains(
            #[trigger] t[k],
        ) by {
            if k > 0 {
                assert(t[k] == s[k - 1]);
            }
        }
    } else {
        let s1 = s.drop_first();
        assert forall|i: int, j: int|
            #![trigger s1[i], s1[j]]
            0 <= i < j < s1.len() implies key_le(order_by, s1[i], s1[j]) by {
            assert(s1[i] == s[i + 1]);
            assert(s1[j] == s[j + 1]);
        }
        lemma_insert_sorted_ensures(order_by, s1, row);
        let rec = spec_insert_sorted(order_by, s1, row);
        lemma_multiset_commutative(seq![s.first()], rec);
        lemma_multiset_commutative(seq![s.first()], s1);
        assert(s =~= seq![s.first()] + s1);
        assert(seq![s.first()] =~= Seq::<AudioTableRow>::empty().push(s.first()));
        assert(t.to_multiset() =~= s.to_multiset().insert(row));
        assert forall|i: int, j: int|
            #![trigger t[i], t[j]]
            0 <= i < j < t.len() implies key_le(order_by, t[i], t[j]) by {
            if i == 0 {
                let x = rec[j - 1];
                assert(t[j] == x);
                if x == row {
                    assert(key_le(order_by, s.first(), row));
                } else {
                    assert(s1.contains(x));
                    let w = choose|w: int| 0 <= w < s1.len() && s1[w] == x;
                    assert(s[w + 1] == x);
                    assert(key_le(order_by, s[0], s[w + 1]));
                    assert(s.first() == s[0]);
                }
            } else {
                assert(t[i] == rec[i - 1]);
                assert(t[j] == rec[j - 1]);
            }
        }
        assert forall|k: int| 0 <= k < t.len() implies t[k] == row || s.contains(
            #[trigger] t[k],
        ) by {
            if k == 0 {
                assert(s[0] == s.first());
                assert(s.contains(s.first()));
            } else {
                assert(t[k] == rec[k - 1]);
                if rec[k - 1] != row {
                    assert(s1.contains(rec[k - 1]));
                    let w = choose|w: int| 0 <= w < s1.len() && s1[w] == rec[k - 1];
                    assert(s[w + 1] == rec[k - 1]);
                    assert(s.contains(s[w + 1]));
                }
            }
        }
    }
}

/// Sorting yields a sorted permutation of the rows.
pub proof fn lemma_spec_sorted_ensures(order_by: AudioTableOrderBy, rows: Seq<AudioTableRow>)
    ensures
        spec_sorted(order_by, rows).len() == rows.len(),
        sorted_by_key(order_by, spec_sorted(order_by, rows)),
        spec_sorted(order_by, rows).to_multiset() == rows.to_multiset(),
    decreases rows.len(),
{
    broadcast use vstd::seq_lib::group_to_multiset_ensures;
    broadcast use vstd::multiset::group_multiset_axioms;

    if rows.len() > 0 {
        lemma_spec_sorted_ensures(order_by, rows.drop_last());
        lemma_insert_sorted_ensures(order_by, spec_sorted(order_by, rows.drop_last()), rows.last());
        assert(rows =~= rows.drop_last().push(rows.last()));
        assert(rows.to_multiset() =~= rows.drop_last().to_multiset().insert(rows.last()));
    }
}

proof fn lemma_insert_sorted_at(
    order_by: AudioTableOrderBy,
    s: Seq<AudioTableRow>,
    row: AudioTableRow,
    j: int,
)
    requires
        0 <= j <= s.len(),
        forall|k: int| 0 <= k < j ==> key_le(order_by, #[trigger] s[k], row),
        j < s.len() ==> !key_le(order_by, s[j], row),
    ensures
        spec_insert_sorted(order_by, s, row) == s.insert(j, row),
    decreases j,
{
    if j == 0 {
        if s.len() == 0 {
            assert(seq![row] =~= s.insert(0, row));
        } else {
            assert(!key_le(order_by, s.first(), row));
            assert(seq![row] + s =~= s.insert(0, row));
        }
    } else {
        assert(key_le(order_by, s[0], row));
        let s1 = s.drop_first();
        assert forall|k: int| 0 <= k < j - 1 implies key_le(order_by, #[trigger] s1[k], row) by {
            assert(s1[k] == s[k + 1]);
        }
        if j - 1 < s1.len() {
            assert(s1[j - 1] == s[j]);
        }
        lemma_insert_sorted_at(order_by, s1, row, j - 1);
        assert(seq![s.first()] + s1.insert(j - 1, row) =~= s.insert(j, row));
    }
}

impl AudioTable {
    fn key_le_exec(order_by: &AudioTableOrderBy, a: &AudioTableRow, b: &AudioTableRow) -> (r: bool)
        ensures
            r == key_le(*order_by, *a, *b),
    {
        match order_by {
            AudioTableOrderBy::CreatedAt => lex_le_str(a.created_at.as_str(), b.created_at.as_str()),
            AudioTableOrderBy::Id => a.id <= b.id,
            AudioTableOrderBy::Name => lex_le_str(a.name.as_str(), b.name.as_str()),
        }
    }

    fn insert_pos(order_by: &AudioTableOrderBy, out: &Vec<AudioTableRow>, row: &AudioTableRow) -> (j:
        usize)
        ensures
            j <= out@.len(),
            forall|k: int| 0 <= k < j ==> key_le(*order_by, #[trigger] out@[k], *row),
            j < out@.len() ==> !key_le(*order_by, out@[j as int], *row),
    {
        let m = out.len();
        let mut j: usize = 0;
        while j < m
            invariant
                j <= m,
                m == out@.len(),
                forall|k: int| 0 <= k < j ==> key_le(*order_by, #[trigger] out@[k], *row),
            decreases m - j,
        {
            if !Self::key_le_exec(order_by, &out[j], row) {
                return j;
            }
            j += 1;
        }
        j
    }

    /// All records, copied out in the order of the configured column (stably
    /// sorted, so records with equal keys keep their storage order).
    pub fn sorted_rows(&self, order_by: &AudioTableOrderBy) -> (r: Vec<AudioTableRow>)
        ensures
            r@ == spec_sorted(*order_by, self@.rows),
    {
        let mut out: Vec<AudioTableRow> = Vec::new();
        let n = self.rows.len();
        proof {
            assert(self@.rows.subrange(0, 0) =~= Seq::<AudioTableRow>::empty());
        }
        let mut i: usize = 0;
        while i < n
            invariant
                n == self@.rows.len(),
                i <= n,
                out@ == spec_sorted(*order_by, self@.rows.subrange(0, i as int)),
            decreases n - i,
        {
            let row = self.rows[i].clone_row();
            let j = Self::insert_pos(order_by, &out, &row);
            proof {
                lemma_insert_sorted_at(*order_by, out@, row, j as int);
                assert(self@.rows.subrange(0, (i + 1) as int).drop_last() =~= self@.rows.subrange(
                    0,
                    i as int,
                ));
                assert(self@.rows.subrange(0, (i + 1) as int).last() == self@.rows[i as int]);
            }
            out.insert(j, row);
            i += 1;
        }
        proof {
            assert(self@.rows.subrange(0, n as int) =~= self@.rows);
        }
        out
    }
}

/// The page of at most `limit` records starting at `offset` in the rows of
/// `tv` ordered by `order_by`, clipped to the table's end.
pub open spec fn spec_page(
    tv: TableView,
    order_by: AudioTableOrderBy,
    offset: int,
    limit: int,
) -> Seq<AudioTableRow> {
    let sorted = spec_sorted(order_by, tv.rows);
    let lo = if offset <= sorted.len() {
        offset
    } else {
        sorted.len() as int
    };
    let hi = if offset + limit <= sorted.len() {
        offset + limit
    } else {
        sorted.len() as int
    };
    sorted.subrange(lo, hi)
}

/// The concatenation of a sequence of pages.
pub open spec fn flatten_pages(pages: Seq<Vec<AudioTableRow>>) -> Seq<AudioTableRow>
    decreases pages.len(),
{
    if pages.len() == 0 {
        Seq::<AudioTableRow>::empty()
    } else {
        flatten_pages(pages.drop_last()) + pages.last()@
    }
}

/// The configuration and progress of a page-at-a-time traversal.
pub ghost struct PaginatorView {
    pub order_by: AudioTableOrderBy,
    pub page_limit: u64,
    pub offset: u64,
}

/// A stateful, ordered, page-at-a-time cursor over the catalog. Pagination
/// is offset-based: each page reflects the table's state at the moment of
/// its query, so writes interleaved with a live cursor can skip or repeat
/// records.
pub struct AudioTablePaginator {
    order_by: AudioTableOrderBy,
    page_limit: u64,
    offset: u64,
}

impl View for AudioTablePaginator {
    type V = PaginatorView;

    closed spec fn view(&self) -> PaginatorView {
        PaginatorView {
            order_by: self.order_by,
            page_limit: self.page_limit,
            offset: self.offset,
        }
    }
}

/// The configuration of a paginator being built.
pub ghost struct PaginatorBuilderView {
    pub order_by: AudioTableOrderBy,
    pub page_limit: u64,
}

/// Builder for [`AudioTablePaginator`]: configures the ordering column
/// (default: id) and the page size (default: 500).
pub struct AudioTablePaginatorBuilder {
    order_by: AudioTableOrderBy,
    page_limit: u64,
}

impl View for AudioTablePaginatorBuilder {
    type V = PaginatorBuilderView;

    closed spec fn view(&self) -> PaginatorBuilderView {
        PaginatorBuilderView { order_by: self.order_by, page_limit: self.page_limit }
    }
}

impl AudioTablePaginatorBuilder {
    /// A builder holding the defaults: ordered by id, 500 records per page.
    pub fn new() -> (r: Self)
        ensures
            r@.order_by is Id,
            r@.page_limit == 500,
    {
        AudioTablePaginatorBuilder { order_by: AudioTableOrderBy::Id, page_limit: 500 }
    }

    /// Choose the ordering column.
    pub fn order_by(self, value: AudioTableOrderBy) -> (r: Self)
        ensures
            r@.order_by == value,
            r@.page_limit == self@.page_limit,
    {
        AudioTablePaginatorBuilder { order_by: value, page_limit: self.page_limit }
    }

    /// Choose the page size.
    pub fn page_limit(self, value: u64) -> (r: Self)
        ensures
            r@.order_by == self@.order_by,
            r@.page_limit == value,
    {
        AudioTablePaginatorBuilder { order_by: self.order_by, page_limit: value }
    }

    /// Finish the builder; traversal starts at offset 0.
    pub fn build(self) -> (r: AudioTablePaginator)
        ensures
            r@.order_by == self@.order_by,
            r@.page_limit == self@.page_limit,
            r@.offset == 0,
    {
        AudioTablePaginator {
            order_by: self.order_by,
            page_limit: self.page_limit,
            offset: 0,
        }
    }
}

impl AudioTablePaginator {
    /// A builder for a paginator over the catalog.
    pub fn builder() -> (r: AudioTablePaginatorBuilder)
        ensures
            r@.order_by is Id,
            r@.page_limit == 500,
    {
        AudioTablePaginatorBuilder::new()
    }

    /// Fetch up to `page_limit` records ordered by the configured column,
    /// starting at the current offset, then advance the offset by
    /// `page_limit` regardless of how many records came back.
    pub fn next_page(&mut self, table: &AudioTable) -> (page: Vec<AudioTableRow>)
        requires
            old(self)@.offset + old(self)@.page_limit <= u64::MAX,
        ensures
            final(self)@.order_by == old(self)@.order_by,
            final(self)@.page_limit == old(self)@.page_limit,
            final(self)@.offset == old(self)@.offset + old(self)@.page_limit,
            page@ == spec_page(
                table@,
                old(self)@.order_by,
                old(self)@.offset as int,
                old(self)@.page_limit as int,
            ),
    {
        let sorted = table.sorted_rows(&self.order_by);
        let len: usize = sorted.len();
        let start: usize = if self.offset <= len as u64 {
            self.offset as usize
        } else {
            len
        };
        let remaining: usize = len - start;
        let take: usize = if self.page_limit <= remaining as u64 {
            self.page_limit as usize
        } else {
            remaining
        };
        let end: usize = start + take;
        let mut page: Vec<AudioTableRow> = Vec::new();
        proof {
            assert(sorted@.subrange(start as int, start as int) =~= Seq::<AudioTableRow>::empty());
        }
        let mut k: usize = start;
        while k < end
            invariant
                start <= k <= end <= sorted@.len(),
                page@ == sorted@.subrange(start as int, k as int),
            decreases end - k,
        {
            page.push(sorted[k].clone_row());
            proof {
                assert(sorted@.subrange(start as int, (k + 1) as int) =~= sorted@.subrange(
                    start as int,
                    k as int,
                ).push(sorted@[k as int]));
            }
            k += 1;
        }
        self.offset = self.offset + self.page_limit;
        page
    }

    /// Drain the cursor: fetch pages until one would come back empty, the
    /// page-sequence form of the traversal. For a table of `n` records and a
    /// page size `p` this yields exactly `(n + p - 1) / p` non-empty pages
    /// whose concatenation is the whole table ordered by the configured
    /// column.
    pub fn collect_pages(&mut self, table: &AudioTable) -> (pages: Vec<Vec<AudioTableRow>>)
        requires
            old(self)@.offset == 0,
            old(self)@.page_limit >= 1,
            table@.rows.len() + old(self)@.page_limit <= u64::MAX,
        ensures
            pages@.len() == (table@.rows.len() as int + old(self)@.page_limit as int - 1) / (
            old(self)@.page_limit as int),
            forall|k: int| 0 <= k < pages@.len() ==> (#[trigger] pages@[k])@.len() > 0,
            flatten_pages(pages@) == spec_sorted(old(self)@.order_by, table@.rows),
    {
        let ghost ord = old(self)@.order_by;
        let ghost p = old(self)@.page_limit as int;
        let ghost n = table@.rows.len() as int;
        let ghost sorted = spec_sorted(ord, table@.rows);
        proof {
            lemma_spec_sorted_ensures(ord, table@.rows);
        }
        let mut pages: Vec<Vec<AudioTableRow>> = Vec::new();
        proof {
            assert(pages@.len() * p == 0) by (nonlinear_arith)
                requires
                    pages@.len() == 0,
            ;
            assert(flatten_pages(pages@) =~= sorted.subrange(0, 0));
        }
        loop
            invariant
                self@.order_by == ord,
                self@.page_limit as int == p,
                1 <= p,
                n == table@.rows.len(),
                n + p <= u64::MAX,
                sorted == spec_sorted(ord, table@.rows),
                sorted.len() == n,
                self@.offset as int == pages@.len() * p,
                pages@.len() == 0 || (pages@.len() - 1) * p < n,
                flatten_pages(pages@) == sorted.subrange(
                    0,
                    if pages@.len() * p <= n {
                        pages@.len() * p
                    } else {
                        n
                    },
                ),
                forall|k: int| 0 <= k < pages@.len() ==> (#[trigger] pages@[k])@.len() > 0,
            ensures
                self@.offset as int == pages@.len() * p,
                n <= pages@.len() * p,
                pages@.len() == 0 || (pages@.len() - 1) * p < n,
                flatten_pages(pages@) == sorted.subrange(
                    0,
                    if pages@.len() * p <= n {
                        pages@.len() * p
                    } else {
                        n
                    },
                ),
                forall|k: int| 0 <= k < pages@.len() ==> (#[trigger] pages@[k])@.len() > 0,
            decreases n + p - self@.offset,
        {
            let count = table.row_count();
            if self.offset >= count as u64 {
                break ;
            }
            let ghost k = pages@.len() as int;
            let page = self.next_page(table);
            proof {
                assert(k * p < n);
                assert(page@ == sorted.subrange(k * p, if k * p + p <= n {
                    k * p + p
                } else {
                    n
                }));
                assert(page@.len() > 0);
            }
            let ghost prev = pages@;
            pages.push(page);
            proof {
                assert(pages@.drop_last() =~= prev);
                assert(pages@.last() == page);
                assert(flatten_pages(pages@) == flatten_pages(prev) + page@);
                assert((k + 1) * p == k * p + p) by (nonlinear_arith);
                let hi = if k * p + p <= n {
                    k * p + p
                } else {
                    n
                };
                assert(page@ == sorted.subrange(k * p, hi));
                assert(flatten_pages(prev) == sorted.subrange(0, k * p));
                assert(flatten_pages(pages@) =~= sorted.subrange(0, hi));
            }
        }
        proof {
            let k = pages@.len() as int;
            assert(n <= k * p);
            if k == 0 {
                assert(n == 0);
                assert((n + p - 1) / p == 0) by (nonlinear_arith)
                    requires
                        n == 0,
                        1 <= p,
                ;
                assert(flatten_pages(pages@) =~= sorted);
            } else {
                assert((k - 1) * p < n);
                assert(k == (n + p - 1) / p) by (nonlinear_arith)
                    requires
                        1 <= p,
                        n <= k * p,
                        (k - 1) * p < n,
                        1 <= k,
                ;
                assert(k * p <= n ==> k * p == n);
                assert(flatten_pages(pages@) =~= sorted);
            }
        }
        pages
    }
}

impl TableView {
    /// Whether the index entry at position `i` matches the normalized query
    /// `q`: `q` occurs in the entry's normalized name or normalized path.
    pub open spec fn entry_matches(self, i: int, q: Seq<char>) -> bool {
        contains_seq(self.index[i].name, q) || contains_seq(self.index[i].audio_file, q)
    }

    /// The records among the first `n` whose index entries match `q`, in
    /// storage order.
    pub open spec fn matches_up_to(self, q: Seq<char>, n: int) -> Seq<AudioTableRow>
        decreases n,
    {
        if n <= 0 {
            Seq::<AudioTableRow>::empty()
        } else if self.entry_matches(n - 1, q) {
            self.matches_up_to(q, n - 1).push(self.rows[n - 1])
        } else {
            self.matches_up_to(q, n - 1)
        }
    }

    /// All records whose index entries match `q`, in storage order.
    pub open spec fn search_results(self, q: Seq<char>) -> Seq<AudioTableRow> {
        self.matches_up_to(q, self.rows.len() as int)
    }
}

/// The names autocompletion yields for `partial`: for a query of fewer than
/// three characters, the names of the most recently created records (newest
/// first); otherwise the names of the records matched by the normalized
/// query, in storage order. At most `limit` names either way.
pub open spec fn autocomplete_names(tv: TableView, partial: Seq<char>, limit: int) -> Seq<
    Seq<char>,
> {
    let base = if partial.len() < 3 {
        let sorted = spec_sorted(AudioTableOrderBy::CreatedAt, tv.rows);
        Seq::new(sorted.len(), |j: int| sorted[sorted.len() - 1 - j])
    } else {
        tv.search_results(fts_clean_spec(partial))
    };
    let cnt = if limit <= base.len() {
        limit
    } else {
        base.len() as int
    };
    Seq::new(cnt as nat, |j: int| base[j].name@)
}

impl AudioTable {
    /// All records matched by a free-text query, in storage order: the query
    /// is normalized, then looked for inside the normalized name and
    /// normalized path held by the search index.
    pub fn fts_search(&self, query: &str) -> (r: Vec<AudioTableRow>)
        requires
            self.wf(),
        ensures
            r@ == self@.search_results(fts_clean_spec(query@)),
    {
        let q = fts_clean_text(query);
        let n = self.rows.len();
        let mut out: Vec<AudioTableRow> = Vec::new();
        let mut i: usize = 0;
        while i < n
            invariant
                self.wf(),
                n == self@.rows.len(),
                i <= n,
                q@ == fts_clean_spec(query@),
                out@ == self@.matches_up_to(q@, i as int),
            decreases n - i,
        {
            proof {
                assert(self@.index.len() == self@.rows.len());
            }
            let matched = contains_str(self.index[i].name.as_str(), q.as_str())
                || contains_str(self.index[i].audio_file.as_str(), q.as_str());
            if matched {
                out.push(self.rows[i].clone_row());
            }
            i += 1;
        }
        out
    }

    /// Track-name autocompletion: a query of fewer than three characters
    /// lists the most recently created tracks, newest first; a longer one is
    /// matched against the search index. At most `limit` names come back.
    pub fn autocomplete_audio_track_names(&self, partial: &str, limit: usize) -> (r: Vec<String>)
        requires
            self.wf(),
        ensures
            r@.map_values(|s: String| s@) == autocomplete_names(self@, partial@, limit as int),
    {
        let mut out: Vec<String> = Vec::new();
        if partial.unicode_len() < 3 {
            let sorted = self.sorted_rows(&AudioTableOrderBy::CreatedAt);
            let len = sorted.len();
            let take = if limit <= len {
                limit
            } else {
                len
            };
            let mut j: usize = 0;
            while j < take
                invariant
                    sorted@ == spec_sorted(AudioTableOrderBy::CreatedAt, self@.rows),
                    len == sorted@.len(),
                    take <= len,
                    j <= take,
                    out@.len() == j,
                    forall|t: int| 0 <= t < j ==> (#[trigger] out@[t])@ == sorted@[len - 1 - t].name@,
                decreases take - j,
            {
                out.push(sorted[len - 1 - j].name.clone());
                j += 1;
            }
        } else {
            let results = self.fts_search(partial);
            let rl = results.len();
            let take = if limit <= rl {
                limit
            } else {
                rl
            };
            let mut j: usize = 0;
            while j < take
                invariant
                    results@ == self@.search_results(fts_clean_spec(partial@)),
                    rl == results@.len(),
                    take <= rl,
                    j <= take,
                    out@.len() == j,
                    forall|t: int| 0 <= t < j ==> (#[trigger] out@[t])@ == results@[t].name@,
                decreases take - j,
            {
                out.push(results[j].name.clone());
                j += 1;
            }
        }
        proof {
            assert(out@.map_values(|s: String| s@) =~= autocomplete_names(
                self@,
                partial@,
                limit as int,
            ));
        }
        out
    }

    /// Track-name autocompletion with a leading sentinel entry, for commands
    /// where choosing no track is a valid answer.
    pub fn autocomplete_opt_audio_track_names(&self, partial: &str, limit: usize) -> (r: Vec<
        String,
    >)
        requires
            self.wf(),
        ensures
            r@.map_values(|s: String| s@) == seq!["NONE"@] + autocomplete_names(
                self@,
                partial@,
                limit as int,
            ),
    {
        let names = self.autocomplete_audio_track_names(partial, limit);
        let mut out: Vec<String> = Vec::new();
        out.push(String::from_str("NONE"));
        let n = names.len();
        let mut j: usize = 0;
        while j < n
            invariant
                n == names@.len(),
                j <= n,
                out@.len() == j + 1,
                out@[0]@ == "NONE"@,
                forall|t: int| 0 <= t < j ==> (#[trigger] out@[t + 1])@ == names@[t]@,
            decreases n - j,
        {
            out.push(names[j].clone());
            j += 1;
        }
        proof {
            let lhs = out@.map_values(|s: String| s@);
            let rhs = seq!["NONE"@] + names@.map_values(|s: String| s@);
            assert forall|u: int| 0 <= u < lhs.len() implies lhs[u] == rhs[u] by {
                if u > 0 {
                    assert(out@[(u - 1) + 1]@ == names@[u - 1]@);
                }
            }
            assert(lhs =~= rhs);
        }
        out
    }
}

/// Looking a key up in a table grown by one record finds what it found
/// before, or the new record where the key selects it and nothing was found
/// before.
proof fn lemma_lookup_push(rows: Seq<AudioTableRow>, col: UniqueAudioTableCol, row: AudioTableRow)
    requires
        forall|i: int| 0 <= i < rows.len() ==> !key_matches(col, #[trigger] rows[i]),
    ensures
        TableView::lookup_from(rows.push(row), col) == (if key_matches(col, row) {
            Some(row)
        } else {
            None::<AudioTableRow>
        }),
    decreases rows.len(),
{
    if rows.len() == 0 {
        assert(rows.push(row).first() == row);
        assert(rows.push(row).drop_first() =~= Seq::<AudioTableRow>::empty());
    } else {
        assert(!key_matches(col, rows.push(row).first()));
        assert(rows.push(row).drop_first() =~= rows.drop_first().push(row));
        assert forall|i: int| 0 <= i < rows.drop_first().len() implies !key_matches(
            col,
            #[trigger] rows.drop_first()[i],
        ) by {
            assert(rows.drop_first()[i] == rows[i + 1]);
        }
        lemma_lookup_push(rows.drop_first(), col, row);
    }
}

/// Inserting a record and looking its fresh id up round-trips every field
/// exactly: the lookup returns precisely the record that was inserted, under
/// the id the insert assigned.
pub proof fn lemma_insert_then_find_by_id(tv: TableView, ins: AudioTableRowInsert)
    requires
        tv.wf(),
        !tv.has_name(ins.name@),
        !tv.has_audio_file(ins.audio_file@),
        tv.next_id <= i64::MAX,
    ensures
        tv.spec_insert(ins).lookup(UniqueAudioTableCol::Id(tv.next_id as i64)) == Some(
            row_for_insert(ins, tv.next_id as i64),
        ),
{
    let col = UniqueAudioTableCol::Id(tv.next_id as i64);
    let row = row_for_insert(ins, tv.next_id as i64);
    assert forall|i: int| 0 <= i < tv.rows.len() implies !key_matches(
        col,
        #[trigger] tv.rows[i],
    ) by {
        assert(tv.rows[i].id < tv.next_id);
    }
    lemma_lookup_push(tv.rows, col, row);
}

/// After a record is inserted, a second record with the same name, or the
/// same path, is a duplicate: the table now holds that name and that path,
/// so inserting the second record fails with a `UniqueConstraintViolation`.
pub proof fn lemma_insert_makes_duplicates(tv: TableView, ins: AudioTableRowInsert)
    ensures
        tv.spec_insert(ins).has_name(ins.name@),
        tv.spec_insert(ins).has_audio_file(ins.audio_file@),
{
    let tv2 = tv.spec_insert(ins);
    assert(tv2.rows[tv.rows.len() as int].name@ == ins.name@);
    assert(tv2.rows[tv.rows.len() as int].audio_file@ == ins.audio_file@);
}

/// After an insert, a normalized search query that occurs in the stored
/// record's normalized name or normalized path returns that record.
pub proof fn lemma_search_finds_inserted(tv: TableView, ins: AudioTableRowInsert, q: Seq<char>)
    requires
        tv.wf(),
        tv.next_id <= i64::MAX,
        contains_seq(fts_clean_spec(ins.name@), q) || contains_seq(
            fts_clean_spec(ins.audio_file@),
            q,
        ),
    ensures
        tv.spec_insert(ins).search_results(q).contains(
            row_for_insert(ins, tv.next_id as i64),
        ),
{
    let tv2 = tv.spec_insert(ins);
    let n = tv2.rows.len() as int;
    assert(tv2.index[n - 1] == TableView::index_entry_for(row_for_insert(ins, tv.next_id as i64)));
    assert(tv2.entry_matches(n - 1, q));
    let res = tv2.search_results(q);
    assert(res == tv2.matches_up_to(q, n - 1).push(tv2.rows[n - 1]));
    assert(res[res.len() - 1] == row_for_insert(ins, tv.next_id as i64));
}

/// Where no record matches a query, the search returns nothing.
proof fn lemma_search_empty(tv: TableView, q: Seq<char>, n: int)
    requires
        forall|i: int| 0 <= i < n ==> !tv.entry_matches(i, q),
    ensures
        tv.matches_up_to(q, n) == Seq::<AudioTableRow>::empty(),
    decreases n,
{
    if n > 0 {
        lemma_search_empty(tv, q, n - 1);
    }
}

/// After the inserted record is deleted again by its path, a query that no
/// other record matches returns nothing.
pub proof fn lemma_search_after_delete(tv: TableView, ins: AudioTableRowInsert, q: Seq<char>)
    requires
        tv.wf(),
        !tv.has_audio_file(ins.audio_file@),
        forall|i: int| 0 <= i < tv.rows.len() ==> !tv.entry_matches(i, q),
    ensures
        tv.spec_insert(ins).spec_delete(ins.audio_file@).search_results(q) == Seq::<
            AudioTableRow,
        >::empty(),
{
    let tv2 = tv.spec_insert(ins);
    let n = tv.rows.len() as int;
    assert forall|j: int| 0 <= j < n implies (#[trigger] tv2.rows[j]).audio_file@
        != ins.audio_file@ by {
        assert(tv2.rows[j] == tv.rows[j]);
    }
    lemma_path_index_at(tv2.rows, ins.audio_file@, n);
    let tv3 = tv2.spec_delete(ins.audio_file@);
    assert(tv3.rows =~= tv.rows);
    assert(tv3.index =~= tv.index);
    assert forall|i: int| 0 <= i < tv3.rows.len() implies !tv3.entry_matches(i, q) by {
        assert(tv3.index[i] == tv.index[i]);
        assert(!tv.entry_matches(i, q));
    }
    lemma_search_empty(tv3, q, tv3.rows.len() as int);
}

/// A record's path exists in the table right after it is inserted.
pub proof fn lemma_exists_after_insert(tv: TableView, ins: AudioTableRowInsert)
    ensures
        tv.spec_insert(ins).has_audio_file(ins.audio_file@),
{
    let tv2 = tv.spec_insert(ins);
    assert(tv2.rows[tv.rows.len() as int].audio_file@ == ins.audio_file@);
}

/// A record's path is gone from the table right after it is deleted by that
/// path.
pub proof fn lemma_exists_after_delete(tv: TableView, audio_file: Seq<char>)
    requires
        tv.wf(),
    ensures
        !tv.spec_delete(audio_file).has_audio_file(audio_file),
{
    let tv3 = tv.spec_delete(audio_file);
    match TableView::path_index(tv.rows, audio_file) {
        Some(i) => {
            lemma_path_index_ensures(tv.rows, audio_file);
            assert forall|k: int| 0 <= k < tv3.rows.len() implies (#[trigger] tv3.rows[k]).audio_file@
                != audio_file by {
                let k0: int = if k < i {
                    k
                } else {
                    k + 1
                };
                assert(tv3.rows[k] == tv.rows[k0]);
                if tv.rows[k0].audio_file@ == audio_file {
                    // two distinct rows would share the unique path
                    assert(tv.rows[i].audio_file@ == audio_file);
                    assert(false);
                }
            }
        },
        None => {
            lemma_path_index_ensures(tv.rows, audio_file);
        },
    }
}

/// What `path_index` finds carries the path and is the first to do so; when
/// it finds nothing, no record carries the path.
proof fn lemma_path_index_ensures(rows: Seq<AudioTableRow>, audio_file: Seq<char>)
    ensures
        (match TableView::path_index(rows, audio_file) {
            Some(i) => 0 <= i < rows.len() && rows[i].audio_file@ == audio_file && forall|j: int|
                0 <= j < i ==> (#[trigger] rows[j]).audio_file@ != audio_file,
            None => forall|j: int|
                0 <= j < rows.len() ==> (#[trigger] rows[j]).audio_file@ != audio_file,
        }),
    decreases rows.len(),
{
    if rows.len() > 0 {
        if rows.first().audio_file@ != audio_file {
            lemma_path_index_ensures(rows.drop_first(), audio_file);
            assert forall|j: int| 1 <= j < rows.len() implies rows[j]
                == rows.drop_first()[j - 1] by {}
            match TableView::path_index(rows.drop_first(), audio_file) {
                Some(i0) => {
                    assert(rows[i0 + 1] == rows.drop_first()[i0]);
                },
                None => {},
            }
        }
    }
}

} // verus!
