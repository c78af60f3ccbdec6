//! Which telemetry files to read.

use vstd::prelude::*;

use crate::text::{
    ascii_lowercase, chars_of, copy_range, lowercase_ascii, same_chars, string_from_chars, trim_bounds,
    trim_char_bounds, trim_char_spec, trim_spec,
};

verus! {

/// The telemetry formats the app reads.
#[derive(Clone, Copy, Debug, PartialEq, Eq, Structural)]
pub enum FileKind {
    /// A lap table with one row per lap.
    Csv,
    /// An iRacing telemetry recording.
    Ibt,
}

/// The format a file extension names, in any letter case.
pub open spec fn file_kind_spec(extension: Seq<char>) -> Option<FileKind> {
    let lower = ascii_lowercase(extension);
    if lower == "csv"@ {
        Some(FileKind::Csv)
    } else if lower == "ibt"@ {
        Some(FileKind::Ibt)
    } else {
        None
    }
}

/// The format of a file with this extension, if the app reads it.
pub fn file_kind(extension: &str) -> (kind: Option<FileKind>)
    ensures
        kind == file_kind_spec(extension@),
{
    let lower = lowercase_ascii(extension);
    if same_chars(lower.as_slice(), chars_of("csv").as_slice()) {
        Some(FileKind::Csv)
    } else if same_chars(lower.as_slice(), chars_of("ibt").as_slice()) {
        Some(FileKind::Ibt)
    } else {
        None
    }
}

/// A path as given, unchanged.
pub fn normalize_path(input: &str) -> (path: String)
    ensures
        path@ == input@,
{
    string_from_chars(chars_of(input).as_slice())
}

/// Where to find telemetry.
#[derive(Clone, Debug, PartialEq, Eq)]
pub enum TelemetrySource {
    /// Every `.csv` and `.ibt` file in this folder.
    Scan(String),
    /// This one file.
    Single(String),
}

/// The lap table used when no telemetry folder exists.
pub open spec fn sample_laps_file() -> Seq<char> {
    "data/practice_session.csv"@
}

/// Where telemetry comes from: a given file (scanned instead if it is a folder), else a
/// given folder (read as a single file if it is one), else the default telemetry folder,
/// else the sample lap table.
pub open spec fn telemetry_source_spec(
    file: Option<Seq<char>>,
    dir: Option<Seq<char>>,
    file_is_dir: bool,
    dir_is_file: bool,
    default_dir: Option<Seq<char>>,
) -> (Seq<char>, bool) {
    match file {
        Some(f) => (f, file_is_dir),
        None => match dir {
            Some(d) => (d, !dir_is_file),
            None => match default_dir {
                Some(d) => (d, true),
                None => (sample_laps_file(), false),
            },
        },
    }
}

/// What a `TelemetrySource` stands for: its path, and whether that path is scanned.
pub open spec fn source_view(s: TelemetrySource) -> (Seq<char>, bool) {
    match s {
        TelemetrySource::Scan(p) => (p@, true),
        TelemetrySource::Single(p) => (p@, false),
    }
}

/// Chooses where to read telemetry from. `file_is_dir` says whether `file` is a folder,
/// `dir_is_file` whether `dir` is a file, and `default_dir` is the detected telemetry
/// folder (only consulted when neither `file` nor `dir` is given).
pub fn collect_telemetry_files(
    file: Option<&str>,
    dir: Option<&str>,
    file_is_dir: bool,
    dir_is_file: bool,
    default_dir: Option<&str>,
) -> (source: TelemetrySource)
    ensures
        source_view(source) == telemetry_source_spec(
            match file {
                Some(f) => Some(f@),
                None => None,
            },
            match dir {
                Some(d) => Some(d@),
                None => None,
            },
            file_is_dir,
            dir_is_file,
            match default_dir {
                Some(d) => Some(d@),
                None => None,
            },
        ),
{
    if let Some(file) = file {
        let file = normalize_path(file);
        if file_is_dir {
            return TelemetrySource::Scan(file);
        }
        return TelemetrySource::Single(file);
    }
    if let Some(dir) = dir {
        let dir = normalize_path(dir);
        if dir_is_file {
            return TelemetrySource::Single(dir);
        }
        return TelemetrySource::Scan(dir);
    }
    match default_dir {
        Some(dir) => TelemetrySource::Scan(normalize_path(dir)),
        None => TelemetrySource::Single(normalize_path("data/practice_session.csv")),
    }
}

/// A path as typed into the app: surrounding whitespace, then surrounding double quotes
/// (which "Copy as path" adds on Windows), removed.
pub open spec fn typed_path_spec(input: Seq<char>) -> Seq<char> {
    trim_char_spec(trim_spec(input), '"')
}

/// Cleans a path typed into the app.
pub fn typed_path(input: &str) -> (path: String)
    ensures
        path@ == typed_path_spec(input@),
{
    let v = chars_of(input);
    let t = v.as_slice();
    let (a, b) = trim_bounds(t, 0, t.len());
    assert(t@.subrange(0, t@.len() as int) =~= t@);
    let (c, d) = trim_char_bounds(t, a, b, '"');
    string_from_chars(copy_range(t, c, d).as_slice())
}

/// Why a file is not imported.
#[derive(Clone, Copy, Debug, PartialEq, Eq, Structural)]
pub enum ImportRefusal {
    /// Nothing was typed.
    EmptyPath,
    /// Nothing is at that path.
    NotFound,
    /// The path is a folder, not a file.
    Folder,
    /// The file is neither `.csv` nor `.ibt`.
    Unsupported,
}

/// What importing the typed path `path` comes to: `exists` and `is_dir` say what is at
/// that path, `extension` is its extension.
pub open spec fn import_spec(path: Seq<char>, exists: bool, is_dir: bool, extension: Seq<char>) -> Result<
    FileKind,
    ImportRefusal,
> {
    if path.len() == 0 {
        Err(ImportRefusal::EmptyPath)
    } else if !exists {
        Err(ImportRefusal::NotFound)
    } else if is_dir {
        Err(ImportRefusal::Folder)
    } else {
        match file_kind_spec(extension) {
            Some(kind) => Ok(kind),
            None => Err(ImportRefusal::Unsupported),
        }
    }
}

/// Decides whether a typed path can be imported, and as which format.
pub fn import_kind(path: &str, exists: bool, is_dir: bool, extension: &str) -> (r: Result<
    FileKind,
    ImportRefusal,
>)
    ensures
        r == import_spec(path@, exists, is_dir, extension@),
{
    if path.is_empty() {
        Err(ImportRefusal::EmptyPath)
    } else if !exists {
        Err(ImportRefusal::NotFound)
    } else if is_dir {
        Err(ImportRefusal::Folder)
    } else {
        match file_kind(extension) {
            Some(kind) => Ok(kind),
            None => Err(ImportRefusal::Unsupported),
        }
    }
}

/// The folder whose telemetry files are listed: the typed folder if anything is left of
/// it, else the detected telemetry folder, else the bundled test fixtures if they exist.
pub open spec fn listing_dir_spec(
    typed: Option<Seq<char>>,
    default_dir: Option<Seq<char>>,
    fixtures_exist: bool,
) -> Option<Seq<char>> {
    match typed {
        Some(t) if typed_path_spec(t).len() > 0 => Some(typed_path_spec(t)),
        _ => match default_dir {
            Some(d) => Some(d),
            None => if fixtures_exist {
                Some("tests/fixtures"@)
            } else {
                None
            },
        },
    }
}

/// Chooses the folder to list telemetry files from.
pub fn listing_dir(typed: Option<&str>, default_dir: Option<&str>, fixtures_exist: bool) -> (dir:
    Option<String>)
    ensures
        dir matches Some(d) ==> listing_dir_spec(
            match typed {
                Some(t) => Some(t@),
                None => None,
            },
            match default_dir {
                Some(d) => Some(d@),
                None => None,
            },
            fixtures_exist,
        ) == Some(d@),
        dir is None ==> listing_dir_spec(
            match typed {
                Some(t) => Some(t@),
                None => None,
            },
            match default_dir {
                Some(d) => Some(d@),
                None => None,
            },
            fixtures_exist,
        ) is None,
{
    if let Some(t) = typed {
        let cleaned = typed_path(t);
        if !cleaned.as_str().is_empty() {
            return Some(cleaned);
        }
    }
    match default_dir {
        Some(d) => Some(normalize_path(d)),
        None => if fixtures_exist {
            Some(normalize_path("tests/fixtures"))
        } else {
            None
        },
    }
}

/// The most files a listing shows.
pub const MAX_LISTED: usize = 200;

/// File `a` is listed before file `b`: it was modified later, or at the same time and
/// came first.
pub open spec fn listed_before(modified: Seq<u128>, a: int, b: int) -> bool {
    ||| modified[a] > modified[b]
    ||| (modified[a] == modified[b] && a < b)
}

/// `order` lists distinct files, each before the next.
pub open spec fn in_listing_order(modified: Seq<u128>, order: Seq<usize>) -> bool {
    &&& forall|k: int| 0 <= k < order.len() ==> #[trigger] order[k] < modified.len()
    &&& forall|j: int, k: int|
        0 <= j < k < order.len() ==> listed_before(modified, order[j] as int, order[k] as int)
}

/// Which files a listing shows, newest first, given when each was modified: the places
/// of at most `MAX_LISTED` files, every one listed before any file left out.
pub fn newest_first(modified: &[u128]) -> (order: Vec<usize>)
    ensures
        in_listing_order(modified@, order@),
        order@.len() == if modified@.len() < MAX_LISTED {
            modified@.len() as int
        } else {
            MAX_LISTED as int
        },
        forall|i: int, k: int|
            0 <= i < modified@.len() && !order@.contains(i as usize) && 0 <= k < order@.len()
                ==> #[trigger] listed_before(modified@, order@[k] as int, i),
{
    let n = modified.len();
    let mut order: Vec<usize> = Vec::new();
    let mut i: usize = 0;
    while i < n
        invariant
            i <= n,
            n == modified@.len(),
            order@.len() == i,
            in_listing_order(modified@, order@),
            forall|k: int| 0 <= k < order@.len() ==> #[trigger] order@[k] < i,
            forall|x: usize| x < i ==> #[trigger] order@.contains(x),
        decreases n - i,
    {
        let mut p: usize = 0;
        while p < order.len() && modified[order[p]] >= modified[i]
            invariant
                p <= order@.len(),
                i < n,
                n == modified@.len(),
                forall|k: int| 0 <= k < order@.len() ==> #[trigger] order@[k] < i,
                forall|k: int| 0 <= k < p ==> modified@[#[trigger] order@[k] as int] >= modified@[i as int],
            decreases order@.len() - p,
        {
            p = p + 1;
        }
        let ghost before = order@;
        proof {
            if p < before.len() {
                assert(modified@[before[p as int] as int] < modified@[i as int]);
            }
        }
        order.insert(p, i);
        proof {
            assert(order@ == before.insert(p as int, i));
            assert forall|j: int, k: int| 0 <= j < k < order@.len() implies listed_before(
                modified@,
                order@[j] as int,
                order@[k] as int,
            ) by {
                if k < p {
                    assert(order@[j] == before[j] && order@[k] == before[k]);
                } else if k == p {
                    assert(order@[j] == before[j]);
                } else if j < p {
                    assert(order@[j] == before[j] && order@[k] == before[k - 1]);
                    assert(before[k - 1] < i);
                } else if j == p {
                    assert(order@[k] == before[k - 1]);
                    if p < before.len() {
                        if k - 1 > p {
                            assert(listed_before(modified@, before[p as int] as int, before[k - 1] as int));
                        }
                    }
                } else {
                    assert(order@[j] == before[j - 1] && order@[k] == before[k - 1]);
                }
            }
            assert forall|x: usize| x < i + 1 implies #[trigger] order@.contains(x) by {
                if x == i {
                    assert(order@[p as int] == i);
                } else {
                    assert(before.contains(x));
                    let y = choose|y: int| 0 <= y < before.len() && before[y] == x;
                    if y < p {
                        assert(order@[y] == before[y]);
                    } else {
                        assert(order@[y + 1] == before[y]);
                    }
                }
            }
        }
        i = i + 1;
    }
    let ghost full = order@;
    if order.len() > MAX_LISTED {
        order.truncate(MAX_LISTED);
    }
    proof {
        assert forall|x: int, k: int|
            0 <= x < modified@.len() && !order@.contains(x as usize) && 0 <= k < order@.len()
            implies #[trigger] listed_before(modified@, order@[k] as int, x) by {
            assert(full.contains(x as usize));
            let y = choose|y: int| 0 <= y < full.len() && full[y] == x as usize;
            assert(order@[k] == full[k]);
            if y <= k {
                assert(order@[y] == full[y]);
            }
        }
    }
    order
}

/// Law: the typed folder comes first, the detected telemetry folder second, and the
/// bundled fixtures only when neither is there. With nothing (or only blanks and quotes)
/// typed and a detected folder `d`, the folder listed is `d`.
pub proof fn lemma_listing_prefers_detected_folder(
    typed: Option<Seq<char>>,
    default_dir: Option<Seq<char>>,
    fixtures_exist: bool,
)
    ensures
        (typed is None || typed_path_spec(typed->Some_0).len() == 0) && default_dir is Some
            ==> listing_dir_spec(typed, default_dir, fixtures_exist) == default_dir,
        (typed is Some && typed_path_spec(typed->Some_0).len() > 0) ==> listing_dir_spec(
            typed,
            default_dir,
            fixtures_exist,
        ) == Some(typed_path_spec(typed->Some_0)),
        (typed is None || typed_path_spec(typed->Some_0).len() == 0) && default_dir is None
            ==> listing_dir_spec(typed, default_dir, fixtures_exist) == (if fixtures_exist {
            Some("tests/fixtures"@)
        } else {
            None
        }),
{
}

} // verus!
