//! The session info written into fixtures: only the track, its length, the sector
//! boundaries and the car. Driver names, iRacing IDs, clubs, setup, weather and dates are
//! left out entirely rather than masked.

use vstd::prelude::*;

use crate::session_info::{car_of, car_spec, value_or_empty, value_or_empty_of};
use crate::text::{chars_of, decimal, push_chars, push_decimal, push_str, string_from_chars};

verus! {

/// Lines joined back into one text.
pub open spec fn join_lines(lines: Seq<Seq<char>>) -> Seq<char>
    decreases lines.len(),
{
    if lines.len() == 0 {
        Seq::empty()
    } else {
        join_lines(lines.drop_last()) + lines.last()
    }
}

/// The track lines of a fixture's session info.
pub open spec fn head_lines(
    name: Seq<char>,
    display: Seq<char>,
    config: Seq<char>,
    length: Seq<char>,
) -> Seq<Seq<char>> {
    seq![
        "---\n"@,
        "WeekendInfo:\n"@,
        " TrackName: "@ + name + "\n"@,
        " TrackDisplayName: "@ + display + "\n"@,
        " TrackConfigName: "@ + config + "\n"@,
        " TrackLength: "@ + length + "\n"@,
        "SplitTimeInfo:\n"@,
        " Sectors:\n"@,
    ]
}

/// The sector lines of a fixture's session info, numbered from zero.
pub open spec fn sector_lines(pcts: Seq<Seq<char>>) -> Seq<Seq<char>>
    decreases pcts.len(),
{
    if pcts.len() == 0 {
        Seq::empty()
    } else {
        sector_lines(pcts.drop_last()) + seq![
            " - SectorNum: "@ + decimal((pcts.len() - 1) as nat) + "\n"@,
            "   SectorStartPct: "@ + pcts.last() + "\n"@,
        ]
    }
}

/// The driver lines of a fixture's session info: one driver, "Test Driver", in the car.
pub open spec fn driver_lines(car: Seq<char>) -> Seq<Seq<char>> {
    seq![
        "DriverInfo:\n"@,
        " DriverCarIdx: 0\n"@,
        " Drivers:\n"@,
        " - CarIdx: 0\n"@,
        "   UserName: Test Driver\n"@,
        "   CarScreenName: "@ + car + "\n"@,
        "...\n"@,
    ]
}

/// All lines of a fixture's session info.
pub open spec fn fixture_lines(
    name: Seq<char>,
    display: Seq<char>,
    config: Seq<char>,
    length: Seq<char>,
    pcts: Seq<Seq<char>>,
    car: Seq<char>,
) -> Seq<Seq<char>> {
    head_lines(name, display, config, length) + sector_lines(pcts) + driver_lines(car)
}

/// A fixture's session info made from the session info `recorded`: its track names,
/// track length and car, with the given sector start points.
pub open spec fn fixture_yaml_spec(recorded: Seq<char>, pcts: Seq<Seq<char>>) -> Seq<char> {
    join_lines(
        fixture_lines(
            value_or_empty(recorded, "TrackName"@),
            value_or_empty(recorded, "TrackDisplayName"@),
            value_or_empty(recorded, "TrackConfigName"@),
            value_or_empty(recorded, "TrackLength"@),
            pcts,
            car_spec(recorded),
        ),
    )
}

pub(crate) proof fn lemma_join_lines_append(a: Seq<Seq<char>>, b: Seq<Seq<char>>)
    ensures
        join_lines(a + b) == join_lines(a) + join_lines(b),
    decreases b.len(),
{
    if b.len() == 0 {
        assert(a + b =~= a);
        assert(join_lines(a) + join_lines(b) =~= join_lines(a));
    } else {
        lemma_join_lines_append(a, b.drop_last());
        assert((a + b).drop_last() =~= a + b.drop_last());
        assert((a + b).last() == b.last());
        assert(join_lines(a + b) =~= join_lines(a) + join_lines(b));
    }
}

fn push_line(out: &mut Vec<char>, lines: Ghost<Seq<Seq<char>>>, line: &Vec<char>) -> (now:
    Ghost<Seq<Seq<char>>>)
    requires
        old(out)@ == join_lines(lines@),
    ensures
        now@ == lines@.push(line@),
        final(out)@ == join_lines(now@),
{
    push_chars(out, line.as_slice());
    let ghost now = lines@.push(line@);
    assert(now.drop_last() =~= lines@);
    Ghost(now)
}

fn keyed_line(label: &str, value: &Vec<char>) -> (line: Vec<char>)
    ensures
        line@ == label@ + value@ + "\n"@,
{
    let mut out: Vec<char> = Vec::new();
    push_str(&mut out, label);
    push_chars(&mut out, value.as_slice());
    push_str(&mut out, "\n");
    out
}

fn literal_line(text: &str) -> (line: Vec<char>)
    ensures
        line@ == text@,
{
    chars_of(text)
}

/// Session info for a fixture made from `recorded`. `sector_pcts` are the track's sector
/// start points, already formatted.
pub fn fixture_yaml(recorded: &str, sector_pcts: &[String]) -> (yaml: String)
    ensures
        yaml@ == fixture_yaml_spec(recorded@, sector_pcts@.map_values(|s: String| s@)),
{
    let text = chars_of(recorded);
    let t = text.as_slice();
    let name = value_or_empty_of(t, "TrackName");
    let display = value_or_empty_of(t, "TrackDisplayName");
    let config = value_or_empty_of(t, "TrackConfigName");
    let length = value_or_empty_of(t, "TrackLength");
    let car = car_of(t);
    let ghost pcts = sector_pcts@.map_values(|s: String| s@);
    let ghost all = fixture_lines(name@, display@, config@, length@, pcts, car@);
    let mut out: Vec<char> = Vec::new();
    let g = Ghost(Seq::<Seq<char>>::empty());
    assert(out@ =~= join_lines(g@));
    let g = push_line(&mut out, g, &literal_line("---\n"));
    let g = push_line(&mut out, g, &literal_line("WeekendInfo:\n"));
    let g = push_line(&mut out, g, &keyed_line(" TrackName: ", &name));
    let g = push_line(&mut out, g, &keyed_line(" TrackDisplayName: ", &display));
    let g = push_line(&mut out, g, &keyed_line(" TrackConfigName: ", &config));
    let g = push_line(&mut out, g, &keyed_line(" TrackLength: ", &length));
    let g = push_line(&mut out, g, &literal_line("SplitTimeInfo:\n"));
    let mut g = push_line(&mut out, g, &literal_line(" Sectors:\n"));
    assert(g@ =~= head_lines(name@, display@, config@, length@));
    let ghost head = g@;
    let mut i: usize = 0;
    while i < sector_pcts.len()
        invariant
            i <= sector_pcts@.len(),
            pcts == sector_pcts@.map_values(|s: String| s@),
            g@ == head + sector_lines(pcts.take(i as int)),
            out@ == join_lines(g@),
        decreases sector_pcts@.len() - i,
    {
        let mut number: Vec<char> = Vec::new();
        push_str(&mut number, " - SectorNum: ");
        push_decimal(&mut number, i);
        push_str(&mut number, "\n");
        let g1 = push_line(&mut out, g, &number);
        let pct = chars_of(sector_pcts[i].as_str());
        let g2 = push_line(&mut out, g1, &keyed_line("   SectorStartPct: ", &pct));
        proof {
            assert(pcts.take(i + 1).drop_last() =~= pcts.take(i as int));
            assert(pcts.take(i + 1).last() == sector_pcts@[i as int]@);
            assert(g2@ =~= head + sector_lines(pcts.take(i + 1)));
        }
        g = g2;
        i = i + 1;
    }
    assert(pcts.take(i as int) =~= pcts);
    let g = push_line(&mut out, g, &literal_line("DriverInfo:\n"));
    let g = push_line(&mut out, g, &literal_line(" DriverCarIdx: 0\n"));
    let g = push_line(&mut out, g, &literal_line(" Drivers:\n"));
    let g = push_line(&mut out, g, &literal_line(" - CarIdx: 0\n"));
    let g = push_line(&mut out, g, &literal_line("   UserName: Test Driver\n"));
    let g = push_line(&mut out, g, &keyed_line("   CarScreenName: ", &car));
    let g = push_line(&mut out, g, &literal_line("...\n"));
    assert(g@ =~= all);
    string_from_chars(out.as_slice())
}

/// The session-info block written into a fixture: the UTF-8 bytes of its session info,
/// then a NUL.
pub fn fixture_session(recorded: &str, sector_pcts: &[String]) -> (bytes: Vec<u8>)
    ensures
        bytes@ == vstd::utf8::encode_utf8(
            fixture_yaml_spec(recorded@, sector_pcts@.map_values(|s: String| s@)),
        ).push(0),
{
    let yaml = fixture_yaml(recorded, sector_pcts);
    let mut bytes = vstd::slice::slice_to_vec(yaml.as_str().as_bytes());
    bytes.push(0);
    bytes
}

} // verus!
