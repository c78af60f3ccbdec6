//! Saved track maps: their file names, and which saved map a run keeps, upgrades or
//! replaces. The first run on a track creates the map; later runs reuse it, so edited turn
//! labels survive. A map built from GPS replaces one dead-reckoned from heading, keeping
//! the saved turns.

use vstd::prelude::*;

use crate::text::{
    ascii_lower, ascii_lowercase, chars_of, is_ascii_alnum, lowercase_ascii, push_chars, push_str,
    same_text, string_from_chars, trim_bounds, trim_char_bounds, trim_char_spec, trim_spec,
};

verus! {

/// `c` kept if it is an ASCII letter or digit, otherwise `'-'`.
pub open spec fn slug_char(c: char) -> char {
    if is_ascii_alnum(c) {
        c
    } else {
        '-'
    }
}

/// A name as a file-name slug: ASCII letters lowered, every other character but a digit
/// turned into `'-'`, and `'-'` trimmed from both ends.
pub open spec fn slug_spec(name: Seq<char>) -> Seq<char> {
    trim_char_spec(ascii_lowercase(name).map_values(|c: char| slug_char(c)), '-')
}

fn slug_of(name: &str) -> (slug: Vec<char>)
    ensures
        slug@ == slug_spec(name@),
{
    let lower = lowercase_ascii(name);
    let mut mapped: Vec<char> = Vec::new();
    let mut i: usize = 0;
    while i < lower.len()
        invariant
            i <= lower@.len(),
            lower@ == ascii_lowercase(name@),
            mapped@ == lower@.take(i as int).map_values(|c: char| slug_char(c)),
        decreases lower@.len() - i,
    {
        let c = lower[i];
        mapped.push(if crate::text::is_ascii_alphanumeric(c) {
            c
        } else {
            '-'
        });
        i = i + 1;
        assert(mapped@ =~= lower@.take(i as int).map_values(|c: char| slug_char(c)));
    }
    assert(lower@.take(i as int) =~= lower@);
    let m = mapped.as_slice();
    let (a, b) = trim_char_bounds(m, 0, m.len(), '-');
    assert(m@.subrange(0, m@.len() as int) =~= m@);
    crate::text::copy_range(m, a, b)
}

/// Where a track's map is saved: `data/tracks/<slug>.json`, the slug made from the track
/// name without surrounding whitespace. Nothing when the slug is empty.
pub open spec fn track_path_spec(track_name: Seq<char>) -> Option<Seq<char>> {
    let slug = slug_spec(trim_spec(track_name));
    if slug.len() == 0 {
        None
    } else {
        Some("data/tracks/"@ + slug + ".json"@)
    }
}

/// The file a track's map is saved in, if the track name gives one.
pub fn track_path(track_name: &str) -> (path: Option<String>)
    ensures
        path matches Some(p) ==> track_path_spec(track_name@) == Some(p@),
        path is None ==> track_path_spec(track_name@) is None,
{
    let name = chars_of(track_name);
    let (a, b) = trim_bounds(name.as_slice(), 0, name.len());
    assert(name@.subrange(0, name@.len() as int) =~= name@);
    let trimmed = string_from_chars(crate::text::copy_range(name.as_slice(), a, b).as_slice());
    let slug = slug_of(trimmed.as_str());
    if slug.len() == 0 {
        return None;
    }
    let mut out: Vec<char> = Vec::new();
    push_str(&mut out, "data/tracks/");
    push_chars(&mut out, slug.as_slice());
    push_str(&mut out, ".json");
    Some(string_from_chars(out.as_slice()))
}

/// The file name of a fixture made from a session on `track_name`: its slug, or "track"
/// when that is empty, with the `.ibt` extension.
pub open spec fn fixture_file_name_spec(track_name: Seq<char>) -> Seq<char> {
    let slug = slug_spec(track_name);
    if slug.len() == 0 {
        "track.ibt"@
    } else {
        slug + ".ibt"@
    }
}

/// The file name of a fixture made from a session on `track_name`.
pub fn fixture_file_name(track_name: &str) -> (name: String)
    ensures
        name@ == fixture_file_name_spec(track_name@),
{
    let slug = slug_of(track_name);
    let mut out: Vec<char> = Vec::new();
    if slug.len() == 0 {
        push_str(&mut out, "track.ibt");
    } else {
        push_chars(&mut out, slug.as_slice());
        push_str(&mut out, ".ibt");
    }
    string_from_chars(out.as_slice())
}

/// Law: a slug only holds lower-case ASCII letters, digits and inner dashes.
pub proof fn lemma_slug_shape(name: Seq<char>)
    ensures
        forall|i: int|
            0 <= i < slug_spec(name).len() ==> {
                let c = #[trigger] slug_spec(name)[i];
                ||| 0x30 <= c as u32 <= 0x39
                ||| 0x61 <= c as u32 <= 0x7a
                ||| c == '-'
            },
        slug_spec(name).len() > 0 ==> slug_spec(name)[0] != '-' && slug_spec(name).last() != '-',
{
    let mapped = ascii_lowercase(name).map_values(|c: char| slug_char(c));
    crate::text::lemma_trim_char_shape(mapped, '-');
    let slug = slug_spec(name);
    assert forall|i: int| 0 <= i < slug.len() implies {
        let c = #[trigger] slug[i];
        ||| 0x30 <= c as u32 <= 0x39
        ||| 0x61 <= c as u32 <= 0x7a
        ||| c == '-'
    } by {
        let k = crate::text::trim_char_offset(mapped, '-');
        assert(slug[i] == mapped[k + i]);
        let orig = name[k + i];
        assert(ascii_lowercase(name)[k + i] == ascii_lower(orig));
    }
}

/// What is known of a saved track map when a new run on its track comes in.
#[derive(Clone, Debug)]
pub struct SavedMapInfo {
    /// How its outline was made: "gps" or "heading".
    pub source: String,
    /// How many sector boundaries it holds.
    pub sector_count: usize,
}

/// What to do with the saved map for a run.
#[derive(Clone, Copy, Debug, PartialEq, Eq, Structural)]
pub enum MapPlan {
    /// Show the saved map (or none, if there is none) as it is.
    KeepSaved,
    /// Update the saved map and save it: take this run's outline and/or its sectors.
    Upgrade { points: bool, sectors: bool },
    /// Build a new map from this run, saved when the track has a name.
    Create { save: bool },
}

/// The map to show for a run: with no outline from the run, the saved map as it is; a
/// saved map gains the run's GPS outline if its own came from heading, and the track's
/// sectors if it had fewer than two and the track has more than one; without a saved map a
/// new one is made from the run.
pub open spec fn map_plan_spec(
    track_name: Seq<char>,
    track_sector_count: int,
    saved: Option<SavedMapInfo>,
    run_has_outline: bool,
    run_from_gps: bool,
) -> MapPlan {
    if !run_has_outline {
        MapPlan::KeepSaved
    } else {
        match saved {
            Some(s) => {
                let points = s.source@ != "gps"@ && run_from_gps;
                let sectors = s.sector_count < 2 && track_sector_count > 1;
                if points || sectors {
                    MapPlan::Upgrade { points, sectors }
                } else {
                    MapPlan::KeepSaved
                }
            },
            None => MapPlan::Create { save: track_name.len() > 0 },
        }
    }
}

/// Decides what happens to the saved map of a track when a run comes in.
pub fn resolve(
    track_name: &str,
    track_sector_count: usize,
    saved: &Option<SavedMapInfo>,
    run_has_outline: bool,
    run_from_gps: bool,
) -> (plan: MapPlan)
    ensures
        plan == map_plan_spec(
            track_name@,
            track_sector_count as int,
            *saved,
            run_has_outline,
            run_from_gps,
        ),
{
    if !run_has_outline {
        return MapPlan::KeepSaved;
    }
    match saved {
        Some(s) => {
            let points = !same_text(s.source.as_str(), "gps") && run_from_gps;
            let sectors = s.sector_count < 2 && track_sector_count > 1;
            if points || sectors {
                MapPlan::Upgrade { points, sectors }
            } else {
                MapPlan::KeepSaved
            }
        },
        None => MapPlan::Create { save: !track_name.is_empty() },
    }
}

/// How a map's outline was made, as saved: "gps" or "heading".
pub fn map_source(from_gps: bool) -> (source: &'static str)
    ensures
        source@ == (if from_gps {
            "gps"@
        } else {
            "heading"@
        }),
{
    if from_gps {
        "gps"
    } else {
        "heading"
    }
}

/// Whether a track's sector boundaries should be taken from its saved map: live
/// telemetry carries fewer than two.
pub fn wants_saved_sectors(sector_count: usize) -> (wants: bool)
    ensures
        wants == (sector_count < 2),
{
    sector_count < 2
}

/// Law: the two parts of an upgrade are decided independently. For a run with an outline
/// and a saved map: the track's sectors are taken whenever the saved map has fewer than
/// two and the track more than one, whatever the outline sources; the run's outline is
/// taken whenever the saved one came from heading and the run's from GPS, whatever the
/// sector counts; when neither holds the saved map is kept. Without an outline from the
/// run the saved map is kept, and without a saved map a new one is made.
pub proof fn lemma_upgrade_parts_independent(
    track_name: Seq<char>,
    track_sector_count: int,
    saved: SavedMapInfo,
    run_from_gps: bool,
)
    ensures
        ({
            let plan = map_plan_spec(track_name, track_sector_count, Some(saved), true, run_from_gps);
            let take_points = saved.source@ != "gps"@ && run_from_gps;
            let take_sectors = saved.sector_count < 2 && track_sector_count > 1;
            &&& take_sectors ==> plan == (MapPlan::Upgrade { points: take_points, sectors: true })
            &&& take_points ==> plan == (MapPlan::Upgrade { points: true, sectors: take_sectors })
            &&& !take_points && !take_sectors ==> plan == MapPlan::KeepSaved
        }),
        forall|s: Option<SavedMapInfo>, gps: bool|
            #[trigger] map_plan_spec(track_name, track_sector_count, s, false, gps)
                == MapPlan::KeepSaved,
        map_plan_spec(track_name, track_sector_count, None, true, run_from_gps)
            == (MapPlan::Create { save: track_name.len() > 0 }),
{
}

} // verus!
