//! The export's tables: CSV text with a header row, read into typed rows by
//! column name.
use vstd::prelude::*;

use crate::dump::{
    Categories, Crate, CrateCategories, CrateKeywords, CrateOwners, ExportTables, Keywords,
    VersionDownloads, Versions,
};
use crate::text::{chars_of, parse_field, parse_field_uint, same_chars};

verus! {

/// The records of CSV text (the header row first), or `None` where the text
/// is no well-formed CSV of equal-length UTF-8 records.
pub uninterp spec fn csv_records(bytes: Seq<u8>) -> Option<Seq<Seq<Seq<char>>>>;

pub open spec fn table_view(t: Vec<Vec<String>>) -> Seq<Seq<Seq<char>>> {
    t@.map_values(|r: Vec<String>| r@.map_values(|f: String| f@))
}

/// Relies on `csv::ReaderBuilder` (headers read as a record) and
/// `csv::Reader::records`: the records of the text, each field as a string.
#[verifier::external_body]
fn read_csv(bytes: &[u8]) -> (r: Option<Vec<Vec<String>>>)
    ensures
        match r {
            Some(t) => csv_records(bytes@) == Some(table_view(t)),
            None => csv_records(bytes@) is None,
        },
{
    let mut reader = csv::ReaderBuilder::new().has_headers(false).from_reader(bytes);
    let mut out = Vec::new();
    for record in reader.records() {
        out.push(record.ok()?.iter().map(String::from).collect());
    }
    Some(out)
}

/// Why a table cannot be read.
#[derive(Debug, PartialEq, Eq, Structural)]
pub enum TableError {
    /// The text is no well-formed CSV.
    Csv,
    /// The record at this position (the header is 0) lacks a column or holds
    /// a value of the wrong form.
    Row(usize),
}

/// The first column of `header` named `name`, or -1.
pub open spec fn column_of(header: Seq<Seq<char>>, name: Seq<char>) -> int
    decreases header.len(),
{
    if header.len() == 0 {
        -1
    } else {
        let c = column_of(header.drop_last(), name);
        if c >= 0 {
            c
        } else if header.last() == name {
            header.len() - 1
        } else {
            -1
        }
    }
}

/// The field of `record` under column `name`.
pub open spec fn cell(header: Seq<Seq<char>>, record: Seq<Seq<char>>, name: Seq<char>) -> Option<Seq<char>> {
    let c = column_of(header, name);
    if 0 <= c < record.len() {
        Some(record[c])
    } else {
        None
    }
}

/// An unsigned integer field, decimal or `0x` hexadecimal.
pub open spec fn num_cell(header: Seq<Seq<char>>, record: Seq<Seq<char>>, name: Seq<char>, max: int) -> Option<int> {
    match cell(header, record, name) {
        Some(f) => parse_field_uint(f, max),
        None => None,
    }
}

/// An optional unsigned integer field: empty for none.
pub open spec fn opt_num_cell(header: Seq<Seq<char>>, record: Seq<Seq<char>>, name: Seq<char>, max: int) -> Option<
    Option<int>,
> {
    match cell(header, record, name) {
        Some(f) => if f.len() == 0 {
            Some(None)
        } else {
            match parse_field_uint(f, max) {
                Some(v) => Some(Some(v)),
                None => None,
            }
        },
        None => None,
    }
}

/// An optional single-character field: empty for none.
pub open spec fn opt_char_cell(header: Seq<Seq<char>>, record: Seq<Seq<char>>, name: Seq<char>) -> Option<
    Option<char>,
> {
    match cell(header, record, name) {
        Some(f) => if f.len() == 0 {
            Some(None)
        } else if f.len() == 1 {
            Some(Some(f[0]))
        } else {
            None
        },
        None => None,
    }
}

/// Finds a column by name.
fn column(header: &Vec<String>, name: &str) -> (r: Option<usize>)
    ensures
        match r {
            Some(c) => c < header@.len() && column_of(header@.map_values(|f: String| f@), name@) == c,
            None => column_of(header@.map_values(|f: String| f@), name@) == -1,
        },
{
    let ghost h = header@.map_values(|f: String| f@);
    let target = chars_of(name);
    let mut i: usize = 0;
    while i < header.len()
        invariant
            i <= header@.len(),
            h == header@.map_values(|f: String| f@),
            target@ == name@,
            column_of(h.subrange(0, i as int), name@) == -1,
        decreases header@.len() - i,
    {
        let ghost prefix = h.subrange(0, i as int + 1);
        assert(prefix.drop_last() =~= h.subrange(0, i as int));
        let f = chars_of(header[i].as_str());
        if same_chars(&f, &target) {
            proof {
                lemma_column_prefix(h, i as int + 1, name@);
            }
            return Some(i);
        }
        i = i + 1;
    }
    assert(h.subrange(0, i as int) =~= h);
    None
}

proof fn lemma_column_prefix(h: Seq<Seq<char>>, n: int, name: Seq<char>)
    requires
        0 <= n <= h.len(),
        column_of(h.subrange(0, n), name) >= 0,
    ensures
        column_of(h, name) == column_of(h.subrange(0, n), name),
    decreases h.len() - n,
{
    if n < h.len() {
        assert(h.subrange(0, n + 1).drop_last() =~= h.subrange(0, n));
        lemma_column_prefix(h, n + 1, name);
    } else {
        assert(h.subrange(0, n) =~= h);
    }
}

/// Reads a field as text.
fn text_field(header: &Vec<String>, record: &Vec<String>, name: &str) -> (r: Option<String>)
    ensures
        match r {
            Some(s) => cell(header@.map_values(|f: String| f@), record@.map_values(|f: String| f@), name@) == Some(s@),
            None => cell(header@.map_values(|f: String| f@), record@.map_values(|f: String| f@), name@) is None,
        },
{
    match column(header, name) {
        Some(c) => if c < record.len() {
            Some(record[c].clone())
        } else {
            None
        },
        None => None,
    }
}

/// Reads an unsigned integer field whose type holds at most `max`.
fn num_field(header: &Vec<String>, record: &Vec<String>, name: &str, max: u64) -> (r: Option<u64>)
    ensures
        match r {
            Some(v) => num_cell(header@.map_values(|f: String| f@), record@.map_values(|f: String| f@), name@, max as int) == Some(v as int),
            None => num_cell(header@.map_values(|f: String| f@), record@.map_values(|f: String| f@), name@, max as int) is None,
        },
{
    match text_field(header, record, name) {
        Some(s) => {
            let chars = chars_of(s.as_str());
            parse_field(&chars, max)
        },
        None => None,
    }
}

/// Reads an optional unsigned integer field.
fn opt_num_field(header: &Vec<String>, record: &Vec<String>, name: &str, max: u64) -> (r: Option<Option<u64>>)
    ensures
        match r {
            Some(Some(v)) => opt_num_cell(header@.map_values(|f: String| f@), record@.map_values(|f: String| f@), name@, max as int) == Some(Some(v as int)),
            Some(None) => opt_num_cell(header@.map_values(|f: String| f@), record@.map_values(|f: String| f@), name@, max as int) == Some(None::<int>),
            None => opt_num_cell(header@.map_values(|f: String| f@), record@.map_values(|f: String| f@), name@, max as int) is None,
        },
{
    match text_field(header, record, name) {
        Some(s) => {
            let chars = chars_of(s.as_str());
            if chars.len() == 0 {
                return Some(None);
            }
            match parse_field(&chars, max) {
                Some(v) => Some(Some(v)),
                None => None,
            }
        },
        None => None,
    }
}

/// Reads an optional single-character field.
fn opt_char_field(header: &Vec<String>, record: &Vec<String>, name: &str) -> (r: Option<Option<char>>)
    ensures
        r == opt_char_cell(header@.map_values(|f: String| f@), record@.map_values(|f: String| f@), name@),
{
    match text_field(header, record, name) {
        Some(s) => {
            let chars = chars_of(s.as_str());
            if chars.len() == 0 {
                Some(None)
            } else if chars.len() == 1 {
                Some(Some(chars[0]))
            } else {
                None
            }
        },
        None => None,
    }
}

/// Reads the records of a table after its header with `row`, stopping at
/// the first record that does not read.
pub open spec fn header_of(t: Seq<Seq<Seq<char>>>) -> Seq<Seq<char>> {
    if t.len() == 0 {
        Seq::empty()
    } else {
        t[0]
    }
}

/// Whether every record after the header up to (excluding) `n` reads, by
/// the predicate `ok`; the first that does not is the error.
pub open spec fn first_bad_record(t: Seq<Seq<Seq<char>>>, ok: spec_fn(Seq<Seq<char>>, Seq<Seq<char>>) -> bool) -> int {
    if exists|i: int| 1 <= i < t.len() && !ok(header_of(t), #[trigger] t[i]) {
        choose|i: int|
            1 <= i < t.len() && !ok(header_of(t), #[trigger] t[i]) && forall|j: int|
                1 <= j < i ==> ok(header_of(t), #[trigger] t[j])
    } else {
        -1
    }
}


proof fn lemma_first_bad_record(
    t: Seq<Seq<Seq<char>>>,
    ok: spec_fn(Seq<Seq<char>>, Seq<Seq<char>>) -> bool,
    i: int,
)
    requires
        1 <= i < t.len(),
        !ok(header_of(t), t[i]),
        forall|j: int| 1 <= j < i ==> ok(header_of(t), #[trigger] t[j]),
    ensures
        first_bad_record(t, ok) == i,
{
    let k = first_bad_record(t, ok);
    assert(1 <= k < t.len() && !ok(header_of(t), t[k]));
    if k < i {
        assert(ok(header_of(t), t[k]));
    }
    if k > i {
        assert(ok(header_of(t), t[i]));
    }
}

proof fn lemma_all_records_ok(t: Seq<Seq<Seq<char>>>, ok: spec_fn(Seq<Seq<char>>, Seq<Seq<char>>) -> bool)
    requires
        forall|j: int| 1 <= j < t.len() ==> ok(header_of(t), #[trigger] t[j]),
    ensures
        first_bad_record(t, ok) == -1,
{
}

/// A record of the `crates` table reads.
pub open spec fn crates_record_ok(h: Seq<Seq<char>>, rec: Seq<Seq<char>>) -> bool {
    cell(h, rec, "created_at"@) is Some && cell(h, rec, "description"@) is Some && cell(h, rec, "documentation"@) is Some && opt_num_cell(h, rec, "downloads"@, u64::MAX as int) is Some && cell(h, rec, "homepage"@) is Some && num_cell(h, rec, "id"@, u64::MAX as int) is Some && opt_num_cell(h, rec, "max_upload_size"@, u64::MAX as int) is Some && cell(h, rec, "name"@) is Some && cell(h, rec, "readme"@) is Some && cell(h, rec, "repository"@) is Some && cell(h, rec, "updated_at"@) is Some
}

/// `row` is what a record of the `crates` table reads as.
pub open spec fn crates_row_is(row: Crate, h: Seq<Seq<char>>, rec: Seq<Seq<char>>) -> bool {
    cell(h, rec, "created_at"@) == Some(row.created_at@) && cell(h, rec, "description"@) == Some(row.description@) && cell(h, rec, "documentation"@) == Some(row.documentation@) && opt_num_cell(h, rec, "downloads"@, u64::MAX as int) == Some(match row.downloads { Some(v) => Some(v as int), None => None::<int> }) && cell(h, rec, "homepage"@) == Some(row.homepage@) && num_cell(h, rec, "id"@, u64::MAX as int) == Some(row.id as int) && opt_num_cell(h, rec, "max_upload_size"@, u64::MAX as int) == Some(match row.max_upload_size { Some(v) => Some(v as int), None => None::<int> }) && cell(h, rec, "name"@) == Some(row.name@) && cell(h, rec, "readme"@) == Some(row.readme@) && cell(h, rec, "repository"@) == Some(row.repository@) && cell(h, rec, "updated_at"@) == Some(row.updated_at@)
}

fn crates_row(header: &Vec<String>, record: &Vec<String>) -> (r: Option<Crate>)
    ensures
        match r {
            Some(row) => crates_row_is(row, header@.map_values(|f: String| f@), record@.map_values(|f: String| f@)),
            None => !crates_record_ok(header@.map_values(|f: String| f@), record@.map_values(|f: String| f@)),
        },
{
    let created_at = match text_field(header, record, "created_at") { Some(v) => v, None => return None };
    let description = match text_field(header, record, "description") { Some(v) => v, None => return None };
    let documentation = match text_field(header, record, "documentation") { Some(v) => v, None => return None };
    let downloads = match opt_num_field(header, record, "downloads", u64::MAX) { Some(v) => v, None => return None };
    let homepage = match text_field(header, record, "homepage") { Some(v) => v, None => return None };
    let id = match num_field(header, record, "id", u64::MAX) { Some(v) => v, None => return None };
    let max_upload_size = match opt_num_field(header, record, "max_upload_size", u64::MAX) { Some(v) => v, None => return None };
    let name = match text_field(header, record, "name") { Some(v) => v, None => return None };
    let readme = match text_field(header, record, "readme") { Some(v) => v, None => return None };
    let repository = match text_field(header, record, "repository") { Some(v) => v, None => return None };
    let updated_at = match text_field(header, record, "updated_at") { Some(v) => v, None => return None };
    Some(Crate { created_at, description, documentation, downloads, homepage, id, max_upload_size, name, readme, repository, updated_at })
}

/// Reads the `crates` table: every record after the header, or the first
/// record that does not read.
pub fn parse_crates(t: &Vec<Vec<String>>) -> (r: Result<Vec<Crate>, TableError>)
    ensures
        ({
            let tv = table_view(*t);
            let ok = |h: Seq<Seq<char>>, rec: Seq<Seq<char>>| crates_record_ok(h, rec);
            match r {
                Ok(rows) => first_bad_record(tv, ok) == -1 && rows@.len() == if tv.len() == 0 { 0 } else { tv.len() - 1 }
                    && forall|i: int| 0 <= i < rows@.len() ==> crates_row_is(#[trigger] rows@[i], header_of(tv), tv[i + 1]),
                Err(e) => e matches TableError::Row(k) && k >= 1 && k as int == first_bad_record(tv, ok),
            }
        }),
{
    let ghost tv = table_view(*t);
    let mut rows: Vec<Crate> = Vec::new();
    if t.len() == 0 {
        proof {
            lemma_all_records_ok(tv, |h: Seq<Seq<char>>, rec: Seq<Seq<char>>| crates_record_ok(h, rec));
        }
        return Ok(rows);
    }
    let header = &t[0];
    assert(header@.map_values(|f: String| f@) == header_of(tv));
    let mut i: usize = 1;
    while i < t.len()
        invariant
            1 <= i <= t@.len(),
            tv == table_view(*t),
            header@.map_values(|f: String| f@) == header_of(tv),
            forall|j: int| 1 <= j < i ==> crates_record_ok(header_of(tv), #[trigger] tv[j]),
            rows@.len() == i - 1,
            forall|j: int| 0 <= j < rows@.len() ==> crates_row_is(#[trigger] rows@[j], header_of(tv), tv[j + 1]),
        decreases t@.len() - i,
    {
        let record = &t[i];
        assert(record@.map_values(|f: String| f@) == tv[i as int]);
        match crates_row(header, record) {
            Some(row) => {
                rows.push(row);
            },
            None => {
                proof {
                    lemma_first_bad_record(tv, |h: Seq<Seq<char>>, rec: Seq<Seq<char>>| crates_record_ok(h, rec), i as int);
                }
                return Err(TableError::Row(i));
            },
        }
        i = i + 1;
    }
    proof {
        lemma_all_records_ok(tv, |h: Seq<Seq<char>>, rec: Seq<Seq<char>>| crates_record_ok(h, rec));
    }
    Ok(rows)
}

/// A record of the `categories` table reads.
pub open spec fn categories_record_ok(h: Seq<Seq<char>>, rec: Seq<Seq<char>>) -> bool {
    cell(h, rec, "category"@) is Some && num_cell(h, rec, "crates_cnt"@, u64::MAX as int) is Some && cell(h, rec, "created_at"@) is Some && cell(h, rec, "description"@) is Some && num_cell(h, rec, "id"@, u64::MAX as int) is Some && cell(h, rec, "path"@) is Some && cell(h, rec, "slug"@) is Some
}

/// `row` is what a record of the `categories` table reads as.
pub open spec fn categories_row_is(row: Categories, h: Seq<Seq<char>>, rec: Seq<Seq<char>>) -> bool {
    cell(h, rec, "category"@) == Some(row.category@) && num_cell(h, rec, "crates_cnt"@, u64::MAX as int) == Some(row.crates_cnt as int) && cell(h, rec, "created_at"@) == Some(row.created_at@) && cell(h, rec, "description"@) == Some(row.description@) && num_cell(h, rec, "id"@, u64::MAX as int) == Some(row.id as int) && cell(h, rec, "path"@) == Some(row.path@) && cell(h, rec, "slug"@) == Some(row.slug@)
}

fn categories_row(header: &Vec<String>, record: &Vec<String>) -> (r: Option<Categories>)
    ensures
        match r {
            Some(row) => categories_row_is(row, header@.map_values(|f: String| f@), record@.map_values(|f: String| f@)),
            None => !categories_record_ok(header@.map_values(|f: String| f@), record@.map_values(|f: String| f@)),
        },
{
    let category = match text_field(header, record, "category") { Some(v) => v, None => return None };
    let crates_cnt = match num_field(header, record, "crates_cnt", u64::MAX) { Some(v) => v, None => return None };
    let created_at = match text_field(header, record, "created_at") { Some(v) => v, None => return None };
    let description = match text_field(header, record, "description") { Some(v) => v, None => return None };
    let id = match num_field(header, record, "id", u64::MAX) { Some(v) => v, None => return None };
    let path = match text_field(header, record, "path") { Some(v) => v, None => return None };
    let slug = match text_field(header, record, "slug") { Some(v) => v, None => return None };
    Some(Categories { category, crates_cnt, created_at, description, id, path, slug })
}

/// Reads the `categories` table: every record after the header, or the first
/// record that does not read.
pub fn parse_categories(t: &Vec<Vec<String>>) -> (r: Result<Vec<Categories>, TableError>)
    ensures
        ({
            let tv = table_view(*t);
            let ok = |h: Seq<Seq<char>>, rec: Seq<Seq<char>>| categories_record_ok(h, rec);
            match r {
                Ok(rows) => first_bad_record(tv, ok) == -1 && rows@.len() == if tv.len() == 0 { 0 } else { tv.len() - 1 }
                    && forall|i: int| 0 <= i < rows@.len() ==> categories_row_is(#[trigger] rows@[i], header_of(tv), tv[i + 1]),
                Err(e) => e matches TableError::Row(k) && k >= 1 && k as int == first_bad_record(tv, ok),
            }
        }),
{
    let ghost tv = table_view(*t);
    let mut rows: Vec<Categories> = Vec::new();
    if t.len() == 0 {
        proof {
            lemma_all_records_ok(tv, |h: Seq<Seq<char>>, rec: Seq<Seq<char>>| categories_record_ok(h, rec));
        }
        return Ok(rows);
    }
    let header = &t[0];
    assert(header@.map_values(|f: String| f@) == header_of(tv));
    let mut i: usize = 1;
    while i < t.len()
        invariant
            1 <= i <= t@.len(),
            tv == table_view(*t),
            header@.map_values(|f: String| f@) == header_of(tv),
            forall|j: int| 1 <= j < i ==> categories_record_ok(header_of(tv), #[trigger] tv[j]),
            rows@.len() == i - 1,
            forall|j: int| 0 <= j < rows@.len() ==> categories_row_is(#[trigger] rows@[j], header_of(tv), tv[j + 1]),
        decreases t@.len() - i,
    {
        let record = &t[i];
        assert(record@.map_values(|f: String| f@) == tv[i as int]);
        match categories_row(header, record) {
            Some(row) => {
                rows.push(row);
            },
            None => {
                proof {
                    lemma_first_bad_record(tv, |h: Seq<Seq<char>>, rec: Seq<Seq<char>>| categories_record_ok(h, rec), i as int);
                }
                return Err(TableError::Row(i));
            },
        }
        i = i + 1;
    }
    proof {
        lemma_all_records_ok(tv, |h: Seq<Seq<char>>, rec: Seq<Seq<char>>| categories_record_ok(h, rec));
    }
    Ok(rows)
}

/// A record of the `crate_categories` table reads.
pub open spec fn crate_categories_record_ok(h: Seq<Seq<char>>, rec: Seq<Seq<char>>) -> bool {
    num_cell(h, rec, "crate_id"@, u64::MAX as int) is Some && num_cell(h, rec, "category_id"@, u64::MAX as int) is Some
}

/// `row` is what a record of the `crate_categories` table reads as.
pub open spec fn crate_categories_row_is(row: CrateCategories, h: Seq<Seq<char>>, rec: Seq<Seq<char>>) -> bool {
    num_cell(h, rec, "crate_id"@, u64::MAX as int) == Some(row.crate_id as int) && num_cell(h, rec, "category_id"@, u64::MAX as int) == Some(row.category_id as int)
}

fn crate_categories_row(header: &Vec<String>, record: &Vec<String>) -> (r: Option<CrateCategories>)
    ensures
        match r {
            Some(row) => crate_categories_row_is(row, header@.map_values(|f: String| f@), record@.map_values(|f: String| f@)),
            None => !crate_categories_record_ok(header@.map_values(|f: String| f@), record@.map_values(|f: String| f@)),
        },
{
    let crate_id = match num_field(header, record, "crate_id", u64::MAX) { Some(v) => v, None => return None };
    let category_id = match num_field(header, record, "category_id", u64::MAX) { Some(v) => v, None => return None };
    Some(CrateCategories { crate_id, category_id })
}

/// Reads the `crate_categories` table: every record after the header, or the first
/// record that does not read.
pub fn parse_crate_categories(t: &Vec<Vec<String>>) -> (r: Result<Vec<CrateCategories>, TableError>)
    ensures
        ({
            let tv = table_view(*t);
            let ok = |h: Seq<Seq<char>>, rec: Seq<Seq<char>>| crate_categories_record_ok(h, rec);
            match r {
                Ok(rows) => first_bad_record(tv, ok) == -1 && rows@.len() == if tv.len() == 0 { 0 } else { tv.len() - 1 }
                    && forall|i: int| 0 <= i < rows@.len() ==> crate_categories_row_is(#[trigger] rows@[i], header_of(tv), tv[i + 1]),
                Err(e) => e matches TableError::Row(k) && k >= 1 && k as int == first_bad_record(tv, ok),
            }
        }),
{
    let ghost tv = table_view(*t);
    let mut rows: Vec<CrateCategories> = Vec::new();
    if t.len() == 0 {
        proof {
            lemma_all_records_ok(tv, |h: Seq<Seq<char>>, rec: Seq<Seq<char>>| crate_categories_record_ok(h, rec));
        }
        return Ok(rows);
    }
    let header = &t[0];
    assert(header@.map_values(|f: String| f@) == header_of(tv));
    let mut i: usize = 1;
    while i < t.len()
        invariant
            1 <= i <= t@.len(),
            tv == table_view(*t),
            header@.map_values(|f: String| f@) == header_of(tv),
            forall|j: int| 1 <= j < i ==> crate_categories_record_ok(header_of(tv), #[trigger] tv[j]),
            rows@.len() == i - 1,
            forall|j: int| 0 <= j < rows@.len() ==> crate_categories_row_is(#[trigger] rows@[j], header_of(tv), tv[j + 1]),
        decreases t@.len() - i,
    {
        let record = &t[i];
        assert(record@.map_values(|f: String| f@) == tv[i as int]);
        match crate_categories_row(header, record) {
            Some(row) => {
                rows.push(row);
            },
            None => {
                proof {
                    lemma_first_bad_record(tv, |h: Seq<Seq<char>>, rec: Seq<Seq<char>>| crate_categories_record_ok(h, rec), i as int);
                }
                return Err(TableError::Row(i));
            },
        }
        i = i + 1;
    }
    proof {
        lemma_all_records_ok(tv, |h: Seq<Seq<char>>, rec: Seq<Seq<char>>| crate_categories_record_ok(h, rec));
    }
    Ok(rows)
}

/// A record of the `crate_keywords` table reads.
pub open spec fn crate_keywords_record_ok(h: Seq<Seq<char>>, rec: Seq<Seq<char>>) -> bool {
    num_cell(h, rec, "keyword_id"@, u64::MAX as int) is Some && num_cell(h, rec, "crate_id"@, u64::MAX as int) is Some
}

/// `row` is what a record of the `crate_keywords` table reads as.
pub open spec fn crate_keywords_row_is(row: CrateKeywords, h: Seq<Seq<char>>, rec: Seq<Seq<char>>) -> bool {
    num_cell(h, rec, "keyword_id"@, u64::MAX as int) == Some(row.keyword_id as int) && num_cell(h, rec, "crate_id"@, u64::MAX as int) == Some(row.crate_id as int)
}

fn crate_keywords_row(header: &Vec<String>, record: &Vec<String>) -> (r: Option<CrateKeywords>)
    ensures
        match r {
            Some(row) => crate_keywords_row_is(row, header@.map_values(|f: String| f@), record@.map_values(|f: String| f@)),
            None => !crate_keywords_record_ok(header@.map_values(|f: String| f@), record@.map_values(|f: String| f@)),
        },
{
    let keyword_id = match num_field(header, record, "keyword_id", u64::MAX) { Some(v) => v, None => return None };
    let crate_id = match num_field(header, record, "crate_id", u64::MAX) { Some(v) => v, None => return None };
    Some(CrateKeywords { keyword_id, crate_id })
}

/// Reads the `crate_keywords` table: every record after the header, or the first
/// record that does not read.
pub fn parse_crate_keywords(t: &Vec<Vec<String>>) -> (r: Result<Vec<CrateKeywords>, TableError>)
    ensures
        ({
            let tv = table_view(*t);
            let ok = |h: Seq<Seq<char>>, rec: Seq<Seq<char>>| crate_keywords_record_ok(h, rec);
            match r {
                Ok(rows) => first_bad_record(tv, ok) == -1 && rows@.len() == if tv.len() == 0 { 0 } else { tv.len() - 1 }
                    && forall|i: int| 0 <= i < rows@.len() ==> crate_keywords_row_is(#[trigger] rows@[i], header_of(tv), tv[i + 1]),
                Err(e) => e matches TableError::Row(k) && k >= 1 && k as int == first_bad_record(tv, ok),
            }
        }),
{
    let ghost tv = table_view(*t);
    let mut rows: Vec<CrateKeywords> = Vec::new();
    if t.len() == 0 {
        proof {
            lemma_all_records_ok(tv, |h: Seq<Seq<char>>, rec: Seq<Seq<char>>| crate_keywords_record_ok(h, rec));
        }
        return Ok(rows);
    }
    let header = &t[0];
    assert(header@.map_values(|f: String| f@) == header_of(tv));
    let mut i: usize = 1;
    while i < t.len()
        invariant
            1 <= i <= t@.len(),
            tv == table_view(*t),
            header@.map_values(|f: String| f@) == header_of(tv),
            forall|j: int| 1 <= j < i ==> crate_keywords_record_ok(header_of(tv), #[trigger] tv[j]),
            rows@.len() == i - 1,
            forall|j: int| 0 <= j < rows@.len() ==> crate_keywords_row_is(#[trigger] rows@[j], header_of(tv), tv[j + 1]),
        decreases t@.len() - i,
    {
        let record = &t[i];
        assert(record@.map_values(|f: String| f@) == tv[i as int]);
        match crate_keywords_row(header, record) {
            Some(row) => {
                rows.push(row);
            },
            None => {
                proof {
                    lemma_first_bad_record(tv, |h: Seq<Seq<char>>, rec: Seq<Seq<char>>| crate_keywords_record_ok(h, rec), i as int);
                }
                return Err(TableError::Row(i));
            },
        }
        i = i + 1;
    }
    proof {
        lemma_all_records_ok(tv, |h: Seq<Seq<char>>, rec: Seq<Seq<char>>| crate_keywords_record_ok(h, rec));
    }
    Ok(rows)
}

/// A record of the `crate_owners` table reads.
pub open spec fn crate_owners_record_ok(h: Seq<Seq<char>>, rec: Seq<Seq<char>>) -> bool {
    num_cell(h, rec, "crate_id"@, u64::MAX as int) is Some && cell(h, rec, "created_at"@) is Some && opt_num_cell(h, rec, "created_by"@, u64::MAX as int) is Some && num_cell(h, rec, "owner_id"@, u64::MAX as int) is Some && num_cell(h, rec, "owner_kind"@, 255) is Some
}

/// `row` is what a record of the `crate_owners` table reads as.
pub open spec fn crate_owners_row_is(row: CrateOwners, h: Seq<Seq<char>>, rec: Seq<Seq<char>>) -> bool {
    num_cell(h, rec, "crate_id"@, u64::MAX as int) == Some(row.crate_id as int) && cell(h, rec, "created_at"@) == Some(row.created_at@) && opt_num_cell(h, rec, "created_by"@, u64::MAX as int) == Some(match row.created_by { Some(v) => Some(v as int), None => None::<int> }) && num_cell(h, rec, "owner_id"@, u64::MAX as int) == Some(row.owner_id as int) && num_cell(h, rec, "owner_kind"@, 255) == Some(row.owner_kind as int)
}

fn crate_owners_row(header: &Vec<String>, record: &Vec<String>) -> (r: Option<CrateOwners>)
    ensures
        match r {
            Some(row) => crate_owners_row_is(row, header@.map_values(|f: String| f@), record@.map_values(|f: String| f@)),
            None => !crate_owners_record_ok(header@.map_values(|f: String| f@), record@.map_values(|f: String| f@)),
        },
{
    let crate_id = match num_field(header, record, "crate_id", u64::MAX) { Some(v) => v, None => return None };
    let created_at = match text_field(header, record, "created_at") { Some(v) => v, None => return None };
    let created_by = match opt_num_field(header, record, "created_by", u64::MAX) { Some(v) => v, None => return None };
    let owner_id = match num_field(header, record, "owner_id", u64::MAX) { Some(v) => v, None => return None };
    let owner_kind = match num_field(header, record, "owner_kind", 255) { Some(v) => v as u8, None => return None };
    Some(CrateOwners { crate_id, created_at, created_by, owner_id, owner_kind })
}

/// Reads the `crate_owners` table: every record after the header, or the first
/// record that does not read.
pub fn parse_crate_owners(t: &Vec<Vec<String>>) -> (r: Result<Vec<CrateOwners>, TableError>)
    ensures
        ({
            let tv = table_view(*t);
            let ok = |h: Seq<Seq<char>>, rec: Seq<Seq<char>>| crate_owners_record_ok(h, rec);
            match r {
                Ok(rows) => first_bad_record(tv, ok) == -1 && rows@.len() == if tv.len() == 0 { 0 } else { tv.len() - 1 }
                    && forall|i: int| 0 <= i < rows@.len() ==> crate_owners_row_is(#[trigger] rows@[i], header_of(tv), tv[i + 1]),
                Err(e) => e matches TableError::Row(k) && k >= 1 && k as int == first_bad_record(tv, ok),
            }
        }),
{
    let ghost tv = table_view(*t);
    let mut rows: Vec<CrateOwners> = Vec::new();
    if t.len() == 0 {
        proof {
            lemma_all_records_ok(tv, |h: Seq<Seq<char>>, rec: Seq<Seq<char>>| crate_owners_record_ok(h, rec));
        }
        return Ok(rows);
    }
    let header = &t[0];
    assert(header@.map_values(|f: String| f@) == header_of(tv));
    let mut i: usize = 1;
    while i < t.len()
        invariant
            1 <= i <= t@.len(),
            tv == table_view(*t),
            header@.map_values(|f: String| f@) == header_of(tv),
            forall|j: int| 1 <= j < i ==> crate_owners_record_ok(header_of(tv), #[trigger] tv[j]),
            rows@.len() == i - 1,
            forall|j: int| 0 <= j < rows@.len() ==> crate_owners_row_is(#[trigger] rows@[j], header_of(tv), tv[j + 1]),
        decreases t@.len() - i,
    {
        let record = &t[i];
        assert(record@.map_values(|f: String| f@) == tv[i as int]);
        match crate_owners_row(header, record) {
            Some(row) => {
                rows.push(row);
            },
            None => {
                proof {
                    lemma_first_bad_record(tv, |h: Seq<Seq<char>>, rec: Seq<Seq<char>>| crate_owners_record_ok(h, rec), i as int);
                }
                return Err(TableError::Row(i));
            },
        }
        i = i + 1;
    }
    proof {
        lemma_all_records_ok(tv, |h: Seq<Seq<char>>, rec: Seq<Seq<char>>| crate_owners_record_ok(h, rec));
    }
    Ok(rows)
}

/// A record of the `keywords` table reads.
pub open spec fn keywords_record_ok(h: Seq<Seq<char>>, rec: Seq<Seq<char>>) -> bool {
    num_cell(h, rec, "crates_cnt"@, u64::MAX as int) is Some && cell(h, rec, "created_at"@) is Some && num_cell(h, rec, "id"@, u64::MAX as int) is Some && cell(h, rec, "keyword"@) is Some
}

/// `row` is what a record of the `keywords` table reads as.
pub open spec fn keywords_row_is(row: Keywords, h: Seq<Seq<char>>, rec: Seq<Seq<char>>) -> bool {
    num_cell(h, rec, "crates_cnt"@, u64::MAX as int) == Some(row.crates_cnt as int) && cell(h, rec, "created_at"@) == Some(row.created_at@) && num_cell(h, rec, "id"@, u64::MAX as int) == Some(row.id as int) && cell(h, rec, "keyword"@) == Some(row.keyword@)
}

fn keywords_row(header: &Vec<String>, record: &Vec<String>) -> (r: Option<Keywords>)
    ensures
        match r {
            Some(row) => keywords_row_is(row, header@.map_values(|f: String| f@), record@.map_values(|f: String| f@)),
            None => !keywords_record_ok(header@.map_values(|f: String| f@), record@.map_values(|f: String| f@)),
        },
{
    let crates_cnt = match num_field(header, record, "crates_cnt", u64::MAX) { Some(v) => v, None => return None };
    let created_at = match text_field(header, record, "created_at") { Some(v) => v, None => return None };
    let id = match num_field(header, record, "id", u64::MAX) { Some(v) => v, None => return None };
    let keyword = match text_field(header, record, "keyword") { Some(v) => v, None => return None };
    Some(Keywords { crates_cnt, created_at, id, keyword })
}

/// Reads the `keywords` table: every record after the header, or the first
/// record that does not read.
pub fn parse_keywords(t: &Vec<Vec<String>>) -> (r: Result<Vec<Keywords>, TableError>)
    ensures
        ({
            let tv = table_view(*t);
            let ok = |h: Seq<Seq<char>>, rec: Seq<Seq<char>>| keywords_record_ok(h, rec);
            match r {
                Ok(rows) => first_bad_record(tv, ok) == -1 && rows@.len() == if tv.len() == 0 { 0 } else { tv.len() - 1 }
                    && forall|i: int| 0 <= i < rows@.len() ==> keywords_row_is(#[trigger] rows@[i], header_of(tv), tv[i + 1]),
                Err(e) => e matches TableError::Row(k) && k >= 1 && k as int == first_bad_record(tv, ok),
            }
        }),
{
    let ghost tv = table_view(*t);
    let mut rows: Vec<Keywords> = Vec::new();
    if t.len() == 0 {
        proof {
            lemma_all_records_ok(tv, |h: Seq<Seq<char>>, rec: Seq<Seq<char>>| keywords_record_ok(h, rec));
        }
        return Ok(rows);
    }
    let header = &t[0];
    assert(header@.map_values(|f: String| f@) == header_of(tv));
    let mut i: usize = 1;
    while i < t.len()
        invariant
            1 <= i <= t@.len(),
            tv == table_view(*t),
            header@.map_values(|f: String| f@) == header_of(tv),
            forall|j: int| 1 <= j < i ==> keywords_record_ok(header_of(tv), #[trigger] tv[j]),
            rows@.len() == i - 1,
            forall|j: int| 0 <= j < rows@.len() ==> keywords_row_is(#[trigger] rows@[j], header_of(tv), tv[j + 1]),
        decreases t@.len() - i,
    {
        let record = &t[i];
        assert(record@.map_values(|f: String| f@) == tv[i as int]);
        match keywords_row(header, record) {
            Some(row) => {
                rows.push(row);
            },
            None => {
                proof {
                    lemma_first_bad_record(tv, |h: Seq<Seq<char>>, rec: Seq<Seq<char>>| keywords_record_ok(h, rec), i as int);
                }
                return Err(TableError::Row(i));
            },
        }
        i = i + 1;
    }
    proof {
        lemma_all_records_ok(tv, |h: Seq<Seq<char>>, rec: Seq<Seq<char>>| keywords_record_ok(h, rec));
    }
    Ok(rows)
}

/// A record of the `version_downloads` table reads.
pub open spec fn version_downloads_record_ok(h: Seq<Seq<char>>, rec: Seq<Seq<char>>) -> bool {
    cell(h, rec, "date"@) is Some && num_cell(h, rec, "downloads"@, u64::MAX as int) is Some && num_cell(h, rec, "version_id"@, u64::MAX as int) is Some
}

/// `row` is what a record of the `version_downloads` table reads as.
pub open spec fn version_downloads_row_is(row: VersionDownloads, h: Seq<Seq<char>>, rec: Seq<Seq<char>>) -> bool {
    cell(h, rec, "date"@) == Some(row.date@) && num_cell(h, rec, "downloads"@, u64::MAX as int) == Some(row.downloads as int) && num_cell(h, rec, "version_id"@, u64::MAX as int) == Some(row.version_id as int)
}

fn version_downloads_row(header: &Vec<String>, record: &Vec<String>) -> (r: Option<VersionDownloads>)
    ensures
        match r {
            Some(row) => version_downloads_row_is(row, header@.map_values(|f: String| f@), record@.map_values(|f: String| f@)),
            None => !version_downloads_record_ok(header@.map_values(|f: String| f@), record@.map_values(|f: String| f@)),
        },
{
    let date = match text_field(header, record, "date") { Some(v) => v, None => return None };
    let downloads = match num_field(header, record, "downloads", u64::MAX) { Some(v) => v, None => return None };
    let version_id = match num_field(header, record, "version_id", u64::MAX) { Some(v) => v, None => return None };
    Some(VersionDownloads { date, downloads, version_id })
}

/// Reads the `version_downloads` table: every record after the header, or the first
/// record that does not read.
pub fn parse_version_downloads(t: &Vec<Vec<String>>) -> (r: Result<Vec<VersionDownloads>, TableError>)
    ensures
        ({
            let tv = table_view(*t);
            let ok = |h: Seq<Seq<char>>, rec: Seq<Seq<char>>| version_downloads_record_ok(h, rec);
            match r {
                Ok(rows) => first_bad_record(tv, ok) == -1 && rows@.len() == if tv.len() == 0 { 0 } else { tv.len() - 1 }
                    && forall|i: int| 0 <= i < rows@.len() ==> version_downloads_row_is(#[trigger] rows@[i], header_of(tv), tv[i + 1]),
                Err(e) => e matches TableError::Row(k) && k >= 1 && k as int == first_bad_record(tv, ok),
            }
        }),
{
    let ghost tv = table_view(*t);
    let mut rows: Vec<VersionDownloads> = Vec::new();
    if t.len() == 0 {
        proof {
            lemma_all_records_ok(tv, |h: Seq<Seq<char>>, rec: Seq<Seq<char>>| version_downloads_record_ok(h, rec));
        }
        return Ok(rows);
    }
    let header = &t[0];
    assert(header@.map_values(|f: String| f@) == header_of(tv));
    let mut i: usize = 1;
    while i < t.len()
        invariant
            1 <= i <= t@.len(),
            tv == table_view(*t),
            header@.map_values(|f: String| f@) == header_of(tv),
            forall|j: int| 1 <= j < i ==> version_downloads_record_ok(header_of(tv), #[trigger] tv[j]),
            rows@.len() == i - 1,
            forall|j: int| 0 <= j < rows@.len() ==> version_downloads_row_is(#[trigger] rows@[j], header_of(tv), tv[j + 1]),
        decreases t@.len() - i,
    {
        let record = &t[i];
        assert(record@.map_values(|f: String| f@) == tv[i as int]);
        match version_downloads_row(header, record) {
            Some(row) => {
                rows.push(row);
            },
            None => {
                proof {
                    lemma_first_bad_record(tv, |h: Seq<Seq<char>>, rec: Seq<Seq<char>>| version_downloads_record_ok(h, rec), i as int);
                }
                return Err(TableError::Row(i));
            },
        }
        i = i + 1;
    }
    proof {
        lemma_all_records_ok(tv, |h: Seq<Seq<char>>, rec: Seq<Seq<char>>| version_downloads_record_ok(h, rec));
    }
    Ok(rows)
}

/// A record of the `versions` table reads.
pub open spec fn versions_record_ok(h: Seq<Seq<char>>, rec: Seq<Seq<char>>) -> bool {
    cell(h, rec, "checksum"@) is Some && num_cell(h, rec, "crate_id"@, u64::MAX as int) is Some && opt_num_cell(h, rec, "crate_size"@, u64::MAX as int) is Some && cell(h, rec, "created_at"@) is Some && num_cell(h, rec, "downloads"@, u64::MAX as int) is Some && cell(h, rec, "features"@) is Some && num_cell(h, rec, "id"@, u64::MAX as int) is Some && cell(h, rec, "license"@) is Some && cell(h, rec, "links"@) is Some && cell(h, rec, "num"@) is Some && opt_num_cell(h, rec, "published_by"@, u64::MAX as int) is Some && cell(h, rec, "updated_at"@) is Some && opt_char_cell(h, rec, "yanked"@) is Some
}

/// `row` is what a record of the `versions` table reads as.
pub open spec fn versions_row_is(row: Versions, h: Seq<Seq<char>>, rec: Seq<Seq<char>>) -> bool {
    cell(h, rec, "checksum"@) == Some(row.checksum@) && num_cell(h, rec, "crate_id"@, u64::MAX as int) == Some(row.crate_id as int) && opt_num_cell(h, rec, "crate_size"@, u64::MAX as int) == Some(match row.crate_size { Some(v) => Some(v as int), None => None::<int> }) && cell(h, rec, "created_at"@) == Some(row.created_at@) && num_cell(h, rec, "downloads"@, u64::MAX as int) == Some(row.downloads as int) && cell(h, rec, "features"@) == Some(row.features@) && num_cell(h, rec, "id"@, u64::MAX as int) == Some(row.id as int) && cell(h, rec, "license"@) == Some(row.license@) && cell(h, rec, "links"@) == Some(row.links@) && cell(h, rec, "num"@) == Some(row.num@) && opt_num_cell(h, rec, "published_by"@, u64::MAX as int) == Some(match row.published_by { Some(v) => Some(v as int), None => None::<int> }) && cell(h, rec, "updated_at"@) == Some(row.updated_at@) && opt_char_cell(h, rec, "yanked"@) == Some(row.yanked)
}

fn versions_row(header: &Vec<String>, record: &Vec<String>) -> (r: Option<Versions>)
    ensures
        match r {
            Some(row) => versions_row_is(row, header@.map_values(|f: String| f@), record@.map_values(|f: String| f@)),
            None => !versions_record_ok(header@.map_values(|f: String| f@), record@.map_values(|f: String| f@)),
        },
{
    let checksum = match text_field(header, record, "checksum") { Some(v) => v, None => return None };
    let crate_id = match num_field(header, record, "crate_id", u64::MAX) { Some(v) => v, None => return None };
    let crate_size = match opt_num_field(header, record, "crate_size", u64::MAX) { Some(v) => v, None => return None };
    let created_at = match text_field(header, record, "created_at") { Some(v) => v, None => return None };
    let downloads = match num_field(header, record, "downloads", u64::MAX) { Some(v) => v, None => return None };
    let features = match text_field(header, record, "features") { Some(v) => v, None => return None };
    let id = match num_field(header, record, "id", u64::MAX) { Some(v) => v, None => return None };
    let license = match text_field(header, record, "license") { Some(v) => v, None => return None };
    let links = match text_field(header, record, "links") { Some(v) => v, None => return None };
    let num = match text_field(header, record, "num") { Some(v) => v, None => return None };
    let published_by = match opt_num_field(header, record, "published_by", u64::MAX) { Some(v) => v, None => return None };
    let updated_at = match text_field(header, record, "updated_at") { Some(v) => v, None => return None };
    let yanked = match opt_char_field(header, record, "yanked") { Some(v) => v, None => return None };
    Some(Versions { checksum, crate_id, crate_size, created_at, downloads, features, id, license, links, num, published_by, updated_at, yanked })
}

/// Reads the `versions` table: every record after the header, or the first
/// record that does not read.
pub fn parse_versions(t: &Vec<Vec<String>>) -> (r: Result<Vec<Versions>, TableError>)
    ensures
        ({
            let tv = table_view(*t);
            let ok = |h: Seq<Seq<char>>, rec: Seq<Seq<char>>| versions_record_ok(h, rec);
            match r {
                Ok(rows) => first_bad_record(tv, ok) == -1 && rows@.len() == if tv.len() == 0 { 0 } else { tv.len() - 1 }
                    && forall|i: int| 0 <= i < rows@.len() ==> versions_row_is(#[trigger] rows@[i], header_of(tv), tv[i + 1]),
                Err(e) => e matches TableError::Row(k) && k >= 1 && k as int == first_bad_record(tv, ok),
            }
        }),
{
    let ghost tv = table_view(*t);
    let mut rows: Vec<Versions> = Vec::new();
    if t.len() == 0 {
        proof {
            lemma_all_records_ok(tv, |h: Seq<Seq<char>>, rec: Seq<Seq<char>>| versions_record_ok(h, rec));
        }
        return Ok(rows);
    }
    let header = &t[0];
    assert(header@.map_values(|f: String| f@) == header_of(tv));
    let mut i: usize = 1;
    while i < t.len()
        invariant
            1 <= i <= t@.len(),
            tv == table_view(*t),
            header@.map_values(|f: String| f@) == header_of(tv),
            forall|j: int| 1 <= j < i ==> versions_record_ok(header_of(tv), #[trigger] tv[j]),
            rows@.len() == i - 1,
            forall|j: int| 0 <= j < rows@.len() ==> versions_row_is(#[trigger] rows@[j], header_of(tv), tv[j + 1]),
        decreases t@.len() - i,
    {
        let record = &t[i];
        assert(record@.map_values(|f: String| f@) == tv[i as int]);
        match versions_row(header, record) {
            Some(row) => {
                rows.push(row);
            },
            None => {
                proof {
                    lemma_first_bad_record(tv, |h: Seq<Seq<char>>, rec: Seq<Seq<char>>| versions_record_ok(h, rec), i as int);
                }
                return Err(TableError::Row(i));
            },
        }
        i = i + 1;
    }
    proof {
        lemma_all_records_ok(tv, |h: Seq<Seq<char>>, rec: Seq<Seq<char>>| versions_record_ok(h, rec));
    }
    Ok(rows)
}


/// The files of an extracted export, as bytes.
#[derive(Debug)]
pub struct ExportFiles {
    pub crates: Vec<u8>,
    pub crate_keywords: Vec<u8>,
    pub crate_categories: Vec<u8>,
    pub crate_owners: Vec<u8>,
    pub keywords: Vec<u8>,
    pub categories: Vec<u8>,
    pub versions: Vec<u8>,
    pub version_downloads: Vec<u8>,
}

/// One of the export's files.
#[derive(Clone, Copy, Debug, PartialEq, Eq, Structural)]
pub enum ExportFile {
    Crates,
    CrateKeywords,
    CrateCategories,
    CrateOwners,
    Keywords,
    Categories,
    Versions,
    VersionDownloads,
}

/// A file of the export that does not read, and why.
#[derive(Debug, PartialEq, Eq, Structural)]
pub struct ExportError {
    pub file: ExportFile,
    pub error: TableError,
}

/// A record of `file` reads.
pub open spec fn file_record_ok(file: ExportFile, h: Seq<Seq<char>>, rec: Seq<Seq<char>>) -> bool {
    match file {
        ExportFile::Crates => crates_record_ok(h, rec),
        ExportFile::CrateKeywords => crate_keywords_record_ok(h, rec),
        ExportFile::CrateCategories => crate_categories_record_ok(h, rec),
        ExportFile::CrateOwners => crate_owners_record_ok(h, rec),
        ExportFile::Keywords => keywords_record_ok(h, rec),
        ExportFile::Categories => categories_record_ok(h, rec),
        ExportFile::Versions => versions_record_ok(h, rec),
        ExportFile::VersionDownloads => version_downloads_record_ok(h, rec),
    }
}

/// The bytes of `file`.
pub open spec fn file_bytes(files: &ExportFiles, file: ExportFile) -> Seq<u8> {
    match file {
        ExportFile::Crates => files.crates@,
        ExportFile::CrateKeywords => files.crate_keywords@,
        ExportFile::CrateCategories => files.crate_categories@,
        ExportFile::CrateOwners => files.crate_owners@,
        ExportFile::Keywords => files.keywords@,
        ExportFile::Categories => files.categories@,
        ExportFile::Versions => files.versions@,
        ExportFile::VersionDownloads => files.version_downloads@,
    }
}

/// The position of `file` in the order the export is read.
pub open spec fn file_order(file: ExportFile) -> int {
    match file {
        ExportFile::Crates => 0,
        ExportFile::CrateKeywords => 1,
        ExportFile::CrateCategories => 2,
        ExportFile::CrateOwners => 3,
        ExportFile::Keywords => 4,
        ExportFile::Categories => 5,
        ExportFile::Versions => 6,
        ExportFile::VersionDownloads => 7,
    }
}

/// `file` is well-formed CSV and every record after its header reads.
pub open spec fn file_reads(files: &ExportFiles, file: ExportFile) -> bool {
    csv_records(file_bytes(files, file)) matches Some(tv) && first_bad_record(
        tv,
        |h: Seq<Seq<char>>, rec: Seq<Seq<char>>| file_record_ok(file, h, rec),
    ) == -1
}

/// Reads every table of an export; the first file that does not read (in
/// the order of the fields) is the error.
#[verifier::rlimit(100)]
pub fn read_export(files: &ExportFiles) -> (r: Result<ExportTables, ExportError>)
    ensures
        r matches Ok(tables) ==> {
            &&& (csv_records(files.crates@) matches Some(tv) && first_bad_record(tv, |h: Seq<Seq<char>>, rec: Seq<Seq<char>>| crates_record_ok(h, rec)) == -1
                && tables.crates@.len() == (if tv.len() == 0 { 0 } else { tv.len() - 1 })
                && forall|i: int| 0 <= i < tables.crates@.len() ==> crates_row_is(#[trigger] tables.crates@[i], header_of(tv), tv[i + 1]))
            &&& (csv_records(files.crate_keywords@) matches Some(tv) && first_bad_record(tv, |h: Seq<Seq<char>>, rec: Seq<Seq<char>>| crate_keywords_record_ok(h, rec)) == -1
                && tables.crate_keywords@.len() == (if tv.len() == 0 { 0 } else { tv.len() - 1 })
                && forall|i: int| 0 <= i < tables.crate_keywords@.len() ==> crate_keywords_row_is(#[trigger] tables.crate_keywords@[i], header_of(tv), tv[i + 1]))
            &&& (csv_records(files.crate_categories@) matches Some(tv) && first_bad_record(tv, |h: Seq<Seq<char>>, rec: Seq<Seq<char>>| crate_categories_record_ok(h, rec)) == -1
                && tables.crate_categories@.len() == (if tv.len() == 0 { 0 } else { tv.len() - 1 })
                && forall|i: int| 0 <= i < tables.crate_categories@.len() ==> crate_categories_row_is(#[trigger] tables.crate_categories@[i], header_of(tv), tv[i + 1]))
            &&& (csv_records(files.crate_owners@) matches Some(tv) && first_bad_record(tv, |h: Seq<Seq<char>>, rec: Seq<Seq<char>>| crate_owners_record_ok(h, rec)) == -1
                && tables.crate_owners@.len() == (if tv.len() == 0 { 0 } else { tv.len() - 1 })
                && forall|i: int| 0 <= i < tables.crate_owners@.len() ==> crate_owners_row_is(#[trigger] tables.crate_owners@[i], header_of(tv), tv[i + 1]))
            &&& (csv_records(files.keywords@) matches Some(tv) && first_bad_record(tv, |h: Seq<Seq<char>>, rec: Seq<Seq<char>>| keywords_record_ok(h, rec)) == -1
                && tables.keywords@.len() == (if tv.len() == 0 { 0 } else { tv.len() - 1 })
                && forall|i: int| 0 <= i < tables.keywords@.len() ==> keywords_row_is(#[trigger] tables.keywords@[i], header_of(tv), tv[i + 1]))
            &&& (csv_records(files.categories@) matches Some(tv) && first_bad_record(tv, |h: Seq<Seq<char>>, rec: Seq<Seq<char>>| categories_record_ok(h, rec)) == -1
                && tables.categories@.len() == (if tv.len() == 0 { 0 } else { tv.len() - 1 })
                && forall|i: int| 0 <= i < tables.categories@.len() ==> categories_row_is(#[trigger] tables.categories@[i], header_of(tv), tv[i + 1]))
            &&& (csv_records(files.versions@) matches Some(tv) && first_bad_record(tv, |h: Seq<Seq<char>>, rec: Seq<Seq<char>>| versions_record_ok(h, rec)) == -1
                && tables.versions@.len() == (if tv.len() == 0 { 0 } else { tv.len() - 1 })
                && forall|i: int| 0 <= i < tables.versions@.len() ==> versions_row_is(#[trigger] tables.versions@[i], header_of(tv), tv[i + 1]))
            &&& (csv_records(files.version_downloads@) matches Some(tv) && first_bad_record(tv, |h: Seq<Seq<char>>, rec: Seq<Seq<char>>| version_downloads_record_ok(h, rec)) == -1
                && tables.version_downloads@.len() == (if tv.len() == 0 { 0 } else { tv.len() - 1 })
                && forall|i: int| 0 <= i < tables.version_downloads@.len() ==> version_downloads_row_is(#[trigger] tables.version_downloads@[i], header_of(tv), tv[i + 1]))
        },
        r matches Err(e) ==> match e.error {
            TableError::Csv => csv_records(file_bytes(files, e.file)) is None,
            TableError::Row(k) => csv_records(file_bytes(files, e.file)) matches Some(tv) && first_bad_record(
                tv,
                |h: Seq<Seq<char>>, rec: Seq<Seq<char>>| file_record_ok(e.file, h, rec),
            ) == k,
        },
        r matches Err(e) ==> (file_order(e.file) > 0 ==> file_reads(files, ExportFile::Crates)),
        r matches Err(e) ==> (file_order(e.file) > 1 ==> file_reads(files, ExportFile::CrateKeywords)),
        r matches Err(e) ==> (file_order(e.file) > 2 ==> file_reads(files, ExportFile::CrateCategories)),
        r matches Err(e) ==> (file_order(e.file) > 3 ==> file_reads(files, ExportFile::CrateOwners)),
        r matches Err(e) ==> (file_order(e.file) > 4 ==> file_reads(files, ExportFile::Keywords)),
        r matches Err(e) ==> (file_order(e.file) > 5 ==> file_reads(files, ExportFile::Categories)),
        r matches Err(e) ==> (file_order(e.file) > 6 ==> file_reads(files, ExportFile::Versions)),
{
    let crates = match read_csv(files.crates.as_slice()) {
        Some(t) => match parse_crates(&t) {
            Ok(rows) => {
                proof {
                    assert((|h: Seq<Seq<char>>, rec: Seq<Seq<char>>| file_record_ok(ExportFile::Crates, h, rec))
                        =~= (|h: Seq<Seq<char>>, rec: Seq<Seq<char>>| crates_record_ok(h, rec)));
                    assert(file_reads(files, ExportFile::Crates));
                }
                rows
            },
            Err(e) => {
                proof {
                    assert((|h: Seq<Seq<char>>, rec: Seq<Seq<char>>| file_record_ok(ExportFile::Crates, h, rec))
                        =~= (|h: Seq<Seq<char>>, rec: Seq<Seq<char>>| crates_record_ok(h, rec)));
                }
                return Err(ExportError { file: ExportFile::Crates, error: e });
            },
        },
        None => return Err(ExportError { file: ExportFile::Crates, error: TableError::Csv }),
    };
    let crate_keywords = match read_csv(files.crate_keywords.as_slice()) {
        Some(t) => match parse_crate_keywords(&t) {
            Ok(rows) => {
                proof {
                    assert((|h: Seq<Seq<char>>, rec: Seq<Seq<char>>| file_record_ok(ExportFile::CrateKeywords, h, rec))
                        =~= (|h: Seq<Seq<char>>, rec: Seq<Seq<char>>| crate_keywords_record_ok(h, rec)));
                    assert(file_reads(files, ExportFile::CrateKeywords));
                }
                rows
            },
            Err(e) => {
                proof {
                    assert((|h: Seq<Seq<char>>, rec: Seq<Seq<char>>| file_record_ok(ExportFile::CrateKeywords, h, rec))
                        =~= (|h: Seq<Seq<char>>, rec: Seq<Seq<char>>| crate_keywords_record_ok(h, rec)));
                }
                return Err(ExportError { file: ExportFile::CrateKeywords, error: e });
            },
        },
        None => return Err(ExportError { file: ExportFile::CrateKeywords, error: TableError::Csv }),
    };
    let crate_categories = match read_csv(files.crate_categories.as_slice()) {
        Some(t) => match parse_crate_categories(&t) {
            Ok(rows) => {
                proof {
                    assert((|h: Seq<Seq<char>>, rec: Seq<Seq<char>>| file_record_ok(ExportFile::CrateCategories, h, rec))
                        =~= (|h: Seq<Seq<char>>, rec: Seq<Seq<char>>| crate_categories_record_ok(h, rec)));
                    assert(file_reads(files, ExportFile::CrateCategories));
                }
                rows
            },
            Err(e) => {
                proof {
                    assert((|h: Seq<Seq<char>>, rec: Seq<Seq<char>>| file_record_ok(ExportFile::CrateCategories, h, rec))
                        =~= (|h: Seq<Seq<char>>, rec: Seq<Seq<char>>| crate_categories_record_ok(h, rec)));
                }
                return Err(ExportError { file: ExportFile::CrateCategories, error: e });
            },
        },
        None => return Err(ExportError { file: ExportFile::CrateCategories, error: TableError::Csv }),
    };
    let crate_owners = match read_csv(files.crate_owners.as_slice()) {
        Some(t) => match parse_crate_owners(&t) {
            Ok(rows) => {
                proof {
                    assert((|h: Seq<Seq<char>>, rec: Seq<Seq<char>>| file_record_ok(ExportFile::CrateOwners, h, rec))
                        =~= (|h: Seq<Seq<char>>, rec: Seq<Seq<char>>| crate_owners_record_ok(h, rec)));
                    assert(file_reads(files, ExportFile::CrateOwners));
                }
                rows
            },
            Err(e) => {
                proof {
                    assert((|h: Seq<Seq<char>>, rec: Seq<Seq<char>>| file_record_ok(ExportFile::CrateOwners, h, rec))
                        =~= (|h: Seq<Seq<char>>, rec: Seq<Seq<char>>| crate_owners_record_ok(h, rec)));
                }
                return Err(ExportError { file: ExportFile::CrateOwners, error: e });
            },
        },
        None => return Err(ExportError { file: ExportFile::CrateOwners, error: TableError::Csv }),
    };
    let keywords = match read_csv(files.keywords.as_slice()) {
        Some(t) => match parse_keywords(&t) {
            Ok(rows) => {
                proof {
                    assert((|h: Seq<Seq<char>>, rec: Seq<Seq<char>>| file_record_ok(ExportFile::Keywords, h, rec))
                        =~= (|h: Seq<Seq<char>>, rec: Seq<Seq<char>>| keywords_record_ok(h, rec)));
                    assert(file_reads(files, ExportFile::Keywords));
                }
                rows
            },
            Err(e) => {
                proof {
                    assert((|h: Seq<Seq<char>>, rec: Seq<Seq<char>>| file_record_ok(ExportFile::Keywords, h, rec))
                        =~= (|h: Seq<Seq<char>>, rec: Seq<Seq<char>>| keywords_record_ok(h, rec)));
                }
                return Err(ExportError { file: ExportFile::Keywords, error: e });
            },
        },
        None => return Err(ExportError { file: ExportFile::Keywords, error: TableError::Csv }),
    };
    let categories = match read_csv(files.categories.as_slice()) {
        Some(t) => match parse_categories(&t) {
            Ok(rows) => {
                proof {
                    assert((|h: Seq<Seq<char>>, rec: Seq<Seq<char>>| file_record_ok(ExportFile::Categories, h, rec))
                        =~= (|h: Seq<Seq<char>>, rec: Seq<Seq<char>>| categories_record_ok(h, rec)));
                    assert(file_reads(files, ExportFile::Categories));
                }
                rows
            },
            Err(e) => {
                proof {
                    assert((|h: Seq<Seq<char>>, rec: Seq<Seq<char>>| file_record_ok(ExportFile::Categories, h, rec))
                        =~= (|h: Seq<Seq<char>>, rec: Seq<Seq<char>>| categories_record_ok(h, rec)));
                }
                return Err(ExportError { file: ExportFile::Categories, error: e });
            },
        },
        None => return Err(ExportError { file: ExportFile::Categories, error: TableError::Csv }),
    };
    let versions = match read_csv(files.versions.as_slice()) {
        Some(t) => match parse_versions(&t) {
            Ok(rows) => {
                proof {
                    assert((|h: Seq<Seq<char>>, rec: Seq<Seq<char>>| file_record_ok(ExportFile::Versions, h, rec))
                        =~= (|h: Seq<Seq<char>>, rec: Seq<Seq<char>>| versions_record_ok(h, rec)));
                    assert(file_reads(files, ExportFile::Versions));
                }
                rows
            },
            Err(e) => {
                proof {
                    assert((|h: Seq<Seq<char>>, rec: Seq<Seq<char>>| file_record_ok(ExportFile::Versions, h, rec))
                        =~= (|h: Seq<Seq<char>>, rec: Seq<Seq<char>>| versions_record_ok(h, rec)));
                }
                return Err(ExportError { file: ExportFile::Versions, error: e });
            },
        },
        None => return Err(ExportError { file: ExportFile::Versions, error: TableError::Csv }),
    };
    let version_downloads = match read_csv(files.version_downloads.as_slice()) {
        Some(t) => match parse_version_downloads(&t) {
            Ok(rows) => {
                proof {
                    assert((|h: Seq<Seq<char>>, rec: Seq<Seq<char>>| file_record_ok(ExportFile::VersionDownloads, h, rec))
                        =~= (|h: Seq<Seq<char>>, rec: Seq<Seq<char>>| version_downloads_record_ok(h, rec)));
                    assert(file_reads(files, ExportFile::VersionDownloads));
                }
                rows
            },
            Err(e) => {
                proof {
                    assert((|h: Seq<Seq<char>>, rec: Seq<Seq<char>>| file_record_ok(ExportFile::VersionDownloads, h, rec))
                        =~= (|h: Seq<Seq<char>>, rec: Seq<Seq<char>>| version_downloads_record_ok(h, rec)));
                }
                return Err(ExportError { file: ExportFile::VersionDownloads, error: e });
            },
        },
        None => return Err(ExportError { file: ExportFile::VersionDownloads, error: TableError::Csv }),
    };
    Ok(ExportTables { crates, crate_keywords, crate_categories, crate_owners, keywords, categories, versions, version_downloads })
}

} // verus!
