//! The dump resolver's decisions: which extracted export to import, which
//! stale extractions to remove, and whether a download is due.
use vstd::prelude::*;

use crate::calendar::{iso_date, parse_iso_date, CalendarDate};
use crate::schema::ImportState;
use crate::text::{chars_of, parse_digit_field, parse_digits};

verus! {

/// Seconds in a day; an extraction is fresh for one day.
pub const DAY_SECONDS: u64 = 86400;

/// Lexicographic order of texts, character by character.
pub open spec fn lex_less(a: Seq<char>, b: Seq<char>) -> bool
    decreases a.len(),
{
    if b.len() == 0 {
        false
    } else if a.len() == 0 {
        true
    } else if a[0] != b[0] {
        (a[0] as u32) < (b[0] as u32)
    } else {
        lex_less(a.drop_first(), b.drop_first())
    }
}

/// Whether `a` orders before `b`.
pub fn text_less(a: &str, b: &str) -> (r: bool)
    ensures
        r == lex_less(a@, b@),
{
    let x = chars_of(a);
    let y = chars_of(b);
    let mut i: usize = 0;
    assert(x@.skip(0) =~= x@);
    assert(y@.skip(0) =~= y@);
    while i < x.len() && i < y.len()
        invariant
            x@ == a@,
            y@ == b@,
            i <= x@.len(),
            i <= y@.len(),
            lex_less(x@, y@) == lex_less(x@.skip(i as int), y@.skip(i as int)),
        decreases x@.len() - i,
    {
        if x[i] != y[i] {
            assert(x@.skip(i as int)[0] == x@[i as int]);
            assert(y@.skip(i as int)[0] == y@[i as int]);
            assert(x@.skip(i as int).len() > 0 && y@.skip(i as int).len() > 0);
            return (x[i] as u32) < (y[i] as u32);
        }
        assert(x@.skip(i as int)[0] == y@.skip(i as int)[0]);
        assert(x@.skip(i as int).drop_first() =~= x@.skip(i as int + 1));
        assert(y@.skip(i as int).drop_first() =~= y@.skip(i as int + 1));
        i = i + 1;
    }
    assert(x@.skip(i as int).len() == x@.len() - i);
    assert(y@.skip(i as int).len() == y@.len() - i);
    i < y.len()
}

/// When an export was extracted: its date and second of that day (UTC).
#[derive(Clone, Copy, Debug, PartialEq, Eq, Structural)]
pub struct FolderStamp {
    pub date: CalendarDate,
    pub second: u32,
}

/// The last position of `c` in `s`, or -1.
pub open spec fn last_index_of(s: Seq<char>, c: char) -> int
    decreases s.len(),
{
    if s.len() == 0 {
        -1
    } else if s.last() == c {
        s.len() - 1
    } else {
        last_index_of(s.drop_last(), c)
    }
}

/// The stamp that a folder named `<YYYY-MM-DD>-<HHMMSS>` carries: every
/// field zero-padded digits of fixed width, so that name order is time order.
pub open spec fn folder_stamp(name: Seq<char>) -> Option<FolderStamp> {
    let i = last_index_of(name, '-');
    if i != 10 || name.len() != 17 {
        None
    } else {
        match (
            iso_date(name.subrange(0, i)),
            parse_digits(name.subrange(0, 4), 9999),
            parse_digits(name.subrange(5, 7), 99),
            parse_digits(name.subrange(8, 10), 99),
            parse_digits(name.subrange(i + 1, i + 3), 255),
            parse_digits(name.subrange(i + 3, i + 5), 255),
            parse_digits(name.subrange(i + 5, i + 7), 255),
        ) {
            (Some(date), Some(_), Some(_), Some(_), Some(h), Some(m), Some(s)) => if h < 24 && m < 60 && s < 60 {
                Some(FolderStamp { date, second: (h * 3600 + m * 60 + s) as u32 })
            } else {
                None
            },
            _ => None,
        }
    }
}

fn last_dash(s: &Vec<char>) -> (r: Option<usize>)
    ensures
        r is None ==> last_index_of(s@, '-') == -1,
        r matches Some(i) ==> i < s@.len() && last_index_of(s@, '-') == i,
{
    let mut i = s.len();
    assert(s@.subrange(0, i as int) =~= s@);
    while i > 0
        invariant
            i <= s@.len(),
            last_index_of(s@, '-') == last_index_of(s@.subrange(0, i as int), '-'),
        decreases i,
    {
        if s[i - 1] == '-' {
            return Some(i - 1);
        }
        assert(s@.subrange(0, i as int).drop_last() =~= s@.subrange(0, i - 1));
        i = i - 1;
    }
    None
}

/// Reads the stamp of an extracted export's folder name.
pub fn parse_folder_date(name: &str) -> (r: Option<FolderStamp>)
    ensures
        r == folder_stamp(name@),
{
    let s = chars_of(name);
    let i = match last_dash(&s) {
        Some(i) => i,
        None => return None,
    };
    if i != 10 || s.len() != 17 {
        return None;
    }
    let date_text = crate::text::string_from_chars(&slice_chars(&s, 0, i));
    let date = parse_iso_date(date_text.as_str());
    let year = parse_digit_field(&s, 0, 4, 9999);
    let month = parse_digit_field(&s, 5, 7, 99);
    let day = parse_digit_field(&s, 8, 10, 99);
    let h = parse_digit_field(&s, i + 1, i + 3, 255);
    let m = parse_digit_field(&s, i + 3, i + 5, 255);
    let sec = parse_digit_field(&s, i + 5, i + 7, 255);
    match (date, year, month, day, h, m, sec) {
        (Some(date), Some(_), Some(_), Some(_), Some(h), Some(m), Some(sec)) => {
            if h < 24 && m < 60 && sec < 60 {
                Some(FolderStamp { date, second: (h * 3600 + m * 60 + sec) as u32 })
            } else {
                None
            }
        },
        _ => None,
    }
}

fn slice_chars(s: &Vec<char>, lo: usize, hi: usize) -> (r: Vec<char>)
    requires
        lo <= hi <= s@.len(),
    ensures
        r@ == s@.subrange(lo as int, hi as int),
{
    let mut out: Vec<char> = Vec::new();
    let mut i = lo;
    while i < hi
        invariant
            lo <= i <= hi <= s@.len(),
            out@ == s@.subrange(lo as int, i as int),
        decreases hi - i,
    {
        out.push(s[i]);
        i = i + 1;
        assert(out@ =~= s@.subrange(lo as int, i as int));
    }
    out
}

/// A stamp as seconds since the start of year 0.
pub open spec fn moment(stamp: FolderStamp) -> int {
    stamp.date.day_number_spec() * DAY_SECONDS + stamp.second
}

/// Seconds since the start of year 0 of a stamp.
pub fn stamp_moment(stamp: &FolderStamp) -> (r: u64)
    requires
        stamp.date.year_spec() <= 9999,
        stamp.second < DAY_SECONDS,
    ensures
        r == moment(*stamp),
{
    stamp.date.day_number() * DAY_SECONDS + stamp.second as u64
}

/// An extraction is fresh until a day after its stamp.
pub open spec fn is_fresh(stamp: FolderStamp, now: int) -> bool {
    moment(stamp) + DAY_SECONDS >= now
}

/// The later of two names, by text order (the earlier one on a tie).
pub open spec fn later_name(a: Option<Seq<char>>, b: Seq<char>) -> Option<Seq<char>> {
    match a {
        Some(x) => if lex_less(x, b) {
            Some(b)
        } else {
            Some(x)
        },
        None => Some(b),
    }
}

/// The latest name among the usable extractions: fresh ones, or any where
/// stale ones are allowed.
pub open spec fn latest_usable(entries: Seq<(String, FolderStamp)>, now: int, allow_stale: bool) -> Option<
    Seq<char>,
>
    decreases entries.len(),
{
    if entries.len() == 0 {
        None
    } else {
        let rest = latest_usable(entries.drop_last(), now, allow_stale);
        let e = entries.last();
        if allow_stale || is_fresh(e.1, now) {
            later_name(rest, e.0@)
        } else {
            rest
        }
    }
}

/// The stale extractions other than `keep`, in order.
pub open spec fn stale_names(entries: Seq<(String, FolderStamp)>, now: int, keep: Option<Seq<char>>) -> Seq<
    Seq<char>,
>
    decreases entries.len(),
{
    if entries.len() == 0 {
        Seq::empty()
    } else {
        let rest = stale_names(entries.drop_last(), now, keep);
        let e = entries.last();
        if !is_fresh(e.1, now) && keep != Some(e.0@) {
            rest.push(e.0@)
        } else {
            rest
        }
    }
}

pub open spec fn names_view(v: Seq<String>) -> Seq<Seq<char>> {
    v.map_values(|s: String| s@)
}

pub open spec fn option_view(o: Option<String>) -> Option<Seq<char>> {
    match o {
        Some(s) => Some(s@),
        None => None,
    }
}

pub open spec fn stamps_in_range(entries: Seq<(String, FolderStamp)>) -> bool {
    forall|i: int|
        0 <= i < entries.len() ==> (#[trigger] entries[i]).1.date.year_spec() <= 9999 && entries[i].1.second
            < DAY_SECONDS
}

fn fresh_at(stamp: &FolderStamp, now: u64) -> (r: bool)
    requires
        stamp.date.year_spec() <= 9999,
        stamp.second < DAY_SECONDS,
    ensures
        r == is_fresh(*stamp, now as int),
{
    stamp_moment(stamp) + DAY_SECONDS >= now
}

/// The latest usable extraction at time `now` (seconds since the start of
/// year 0), by name: names are fixed-width and zero-padded, so their text
/// order is their time order.
pub fn latest_dump(entries: &Vec<(String, FolderStamp)>, now: u64, allow_stale: bool) -> (r: Option<String>)
    requires
        stamps_in_range(entries@),
    ensures
        option_view(r) == latest_usable(entries@, now as int, allow_stale),
{
    let mut latest: Option<String> = None;
    let mut i: usize = 0;
    while i < entries.len()
        invariant
            i <= entries@.len(),
            stamps_in_range(entries@),
            option_view(latest) == latest_usable(entries@.subrange(0, i as int), now as int, allow_stale),
        decreases entries@.len() - i,
    {
        let name = &entries[i].0;
        let stamp = entries[i].1;
        let ghost prefix = entries@.subrange(0, i as int + 1);
        assert(prefix.drop_last() =~= entries@.subrange(0, i as int));
        if allow_stale || fresh_at(&stamp, now) {
            let take = match &latest {
                Some(current) => text_less(current.as_str(), name.as_str()),
                None => true,
            };
            if take {
                latest = Some(name.clone());
            }
        }
        i = i + 1;
    }
    assert(entries@.subrange(0, i as int) =~= entries@);
    latest
}

/// The stale extractions other than `keep`, for removal.
pub fn stale_dumps(entries: &Vec<(String, FolderStamp)>, now: u64, keep: &Option<String>) -> (r: Vec<String>)
    requires
        stamps_in_range(entries@),
    ensures
        names_view(r@) == stale_names(entries@, now as int, option_view(*keep)),
{
    let mut remove: Vec<String> = Vec::new();
    let mut k: usize = 0;
    while k < entries.len()
        invariant
            k <= entries@.len(),
            stamps_in_range(entries@),
            names_view(remove@) == stale_names(entries@.subrange(0, k as int), now as int, option_view(*keep)),
        decreases entries@.len() - k,
    {
        let name = &entries[k].0;
        let stamp = entries[k].1;
        let ghost prefix = entries@.subrange(0, k as int + 1);
        assert(prefix.drop_last() =~= entries@.subrange(0, k as int));
        let is_kept = match keep {
            Some(l) => crate::schema::same_text(l, name),
            None => false,
        };
        if !fresh_at(&stamp, now) && !is_kept {
            let ghost before = remove@;
            remove.push(name.clone());
            assert(names_view(remove@) =~= names_view(before).push(name@));
        }
        k = k + 1;
    }
    assert(entries@.subrange(0, k as int) =~= entries@);
    remove
}

/// A newer export is available: nothing was downloaded yet, or the remote
/// marker orders after the one recorded.
pub fn remote_is_newer(state: &ImportState, remote_marker: &str) -> (r: bool)
    ensures
        r == match state.downloaded_last_modified {
            Some(last) => lex_less(last@, remote_marker@),
            None => true,
        },
{
    match &state.downloaded_last_modified {
        Some(last) => text_less(last.as_str(), remote_marker),
        None => true,
    }
}

/// What the resolver does with the best local extraction.
#[derive(Debug)]
pub enum DumpChoice {
    /// Import this extraction.
    Import(String),
    /// The best extraction was imported already: no new work.
    NothingNew,
    /// No extraction is usable: download and extract the export.
    Download,
}

/// Imports the latest extraction unless an export at least as recent was
/// imported already; downloads where there is none.
pub fn choose_dump(state: &ImportState, latest: Option<String>) -> (r: DumpChoice)
    ensures
        latest is None ==> r is Download,
        latest matches Some(l) ==> match state.last_dump_imported {
            Some(done) => if lex_less(done@, l@) {
                r matches DumpChoice::Import(n) && n@ == l@
            } else {
                r is NothingNew
            },
            None => r matches DumpChoice::Import(n) && n@ == l@,
        },
{
    match latest {
        Some(l) => {
            let newer = match &state.last_dump_imported {
                Some(done) => text_less(done.as_str(), l.as_str()),
                None => true,
            };
            if newer {
                DumpChoice::Import(l)
            } else {
                DumpChoice::NothingNew
            }
        },
        None => DumpChoice::Download,
    }
}

/// Records the marker of the export just downloaded (or found current).
pub fn record_download(state: &mut ImportState, marker: String)
    ensures
        final(state).downloaded_last_modified == Some(marker),
        final(state).last_dump_imported == old(state).last_dump_imported,
{
    state.downloaded_last_modified = Some(marker);
}

/// Records the export just imported.
pub fn record_import(state: &mut ImportState, dump: String)
    ensures
        final(state).last_dump_imported == Some(dump),
        final(state).downloaded_last_modified == old(state).downloaded_last_modified,
{
    state.last_dump_imported = Some(dump);
}

} // verus!
