//! The session-info text of an `.ibt` file: a YAML document that is scanned for the few
//! keys the app needs rather than parsed against a full schema, so files from newer sim
//! builds still import.

use vstd::prelude::*;

use crate::ibt::nul_end;
use crate::text::{
    string_from_chars, chars_of, is_ws, starts_with_at, strip_prefix_spec, trim_bounds, trim_spec,
    trim_start_matches_spec, trim_start_spec, copy_range,
};

verus! {

/// One past the end of the line that starts at `pos`: just after its `'\n'`, or the end
/// of the text for the last line.
pub open spec fn line_end(text: Seq<char>, pos: int) -> int
    decreases text.len() - pos,
{
    if pos >= text.len() {
        text.len() as int
    } else if text[pos] == '\n' {
        pos + 1
    } else {
        line_end(text, pos + 1)
    }
}

/// The list-item marker that may precede a key.
pub open spec fn item_marker() -> Seq<char> {
    seq!['-', ' ']
}

/// The value on `line` if it holds `key:`: the line without leading whitespace and
/// list-item markers must start with `key:`, and the value is the rest of the line
/// without surrounding whitespace.
pub open spec fn yaml_line_value(line: Seq<char>, key: Seq<char>) -> Option<Seq<char>> {
    let trimmed = trim_start_matches_spec(trim_start_spec(line), item_marker());
    match strip_prefix_spec(trimmed, key.push(':')) {
        Some(rest) => Some(trim_spec(rest)),
        None => None,
    }
}

/// The value of the first line at or after `pos` that holds `key:`, at any indentation,
/// and the position just after that line.
pub open spec fn yaml_value_spec(text: Seq<char>, key: Seq<char>, pos: int) -> Option<
    (Seq<char>, int),
>
    decreases text.len() - pos,
{
    if pos < 0 || pos >= text.len() {
        None
    } else {
        let end = line_end(text, pos);
        match yaml_line_value(text.subrange(pos, end), key) {
            Some(v) => Some((v, end)),
            None => if pos < end <= text.len() {
                yaml_value_spec(text, key, end)
            } else {
                None
            },
        }
    }
}

pub(crate) proof fn lemma_line_end(text: Seq<char>, pos: int, e: int)
    requires
        0 <= pos <= e <= text.len(),
        forall|j: int| pos <= j < e ==> #[trigger] text[j] != '\n',
        e == text.len() || text[e] == '\n',
    ensures
        line_end(text, pos) == if e == text.len() {
            e
        } else {
            e + 1
        },
    decreases e - pos,
{
    if pos < e {
        lemma_line_end(text, pos + 1, e);
    }
}

/// Law: a line ends after the position it starts at, so scanning line by line always
/// moves forward.
pub proof fn lemma_line_end_advances(text: Seq<char>, pos: int)
    requires
        0 <= pos < text.len(),
    ensures
        pos < line_end(text, pos) <= text.len(),
    decreases text.len() - pos,
{
    if text[pos] != '\n' {
        if pos + 1 < text.len() {
            lemma_line_end_advances(text, pos + 1);
        } else {
            assert(line_end(text, pos + 1) == text.len());
        }
    }
}

/// Law: a key found at or after `pos` is found strictly after `pos`, and its value has no
/// surrounding whitespace.
pub proof fn lemma_yaml_value_advances(text: Seq<char>, key: Seq<char>, pos: int)
    ensures
        yaml_value_spec(text, key, pos) matches Some((v, next)) ==> pos < next <= text.len()
            && trim_spec(v) == v,
    decreases text.len() - pos,
{
    if 0 <= pos < text.len() {
        lemma_line_end_advances(text, pos);
        let end = line_end(text, pos);
        match yaml_line_value(text.subrange(pos, end), key) {
            Some(v) => {
                let trimmed = trim_start_matches_spec(
                    trim_start_spec(text.subrange(pos, end)),
                    item_marker(),
                );
                let rest = strip_prefix_spec(trimmed, key.push(':'))->Some_0;
                crate::text::lemma_trim_idempotent(rest);
            },
            None => {
                lemma_yaml_value_advances(text, key, end);
            },
        }
    }
}

proof fn lemma_marker_step(text: Seq<char>, t: int, end: int)
    requires
        0 <= t,
        t + 2 <= end <= text.len(),
        text[t] == '-',
        text[t + 1] == ' ',
    ensures
        trim_start_matches_spec(text.subrange(t, end), item_marker())
            == trim_start_matches_spec(text.subrange(t + 2, end), item_marker()),
{
    let s = text.subrange(t, end);
    assert(s.take(2) =~= item_marker());
    assert(s.skip(2) =~= text.subrange(t + 2, end));
}

proof fn lemma_marker_stop(text: Seq<char>, t: int, end: int)
    requires
        0 <= t <= end <= text.len(),
        !(t + 2 <= end && text[t] == '-' && text[t + 1] == ' '),
    ensures
        trim_start_matches_spec(text.subrange(t, end), item_marker()) == text.subrange(t, end),
{
    let s = text.subrange(t, end);
    if s.len() >= 2 {
        if s.take(2) == item_marker() {
            assert(s.take(2)[0] == text[t]);
            assert(s.take(2)[1] == text[t + 1]);
        }
    }
}

/// The value on the line `text[pos..end]` if it holds `key:` (`needle` is `key:`).
fn line_value(text: &[char], pos: usize, end: usize, key: &Vec<char>, needle: &Vec<char>) -> (r:
    Option<Vec<char>>)
    requires
        pos <= end <= text@.len(),
        needle@ == key@.push(':'),
    ensures
        r matches Some(v) ==> yaml_line_value(text@.subrange(pos as int, end as int), key@)
            == Some(v@),
        r is None ==> yaml_line_value(text@.subrange(pos as int, end as int), key@) is None,
{
    let mut s = pos;
    while s < end && crate::text::is_whitespace(text[s])
        invariant
            pos <= s <= end <= text@.len(),
            forall|j: int| pos <= j < s ==> is_ws(#[trigger] text@[j]),
        decreases end - s,
    {
        s = s + 1;
    }
    proof {
        let line = text@.subrange(pos as int, end as int);
        assert forall|j: int| 0 <= j < s - pos implies is_ws(#[trigger] line[j]) by {
            assert(line[j] == text@[pos + j]);
        }
        crate::text::lemma_trim_start_at(line, s - pos);
        assert(line.skip(s - pos) =~= text@.subrange(s as int, end as int));
    }
    let mut t = s;
    while end - t >= 2 && text[t] == '-' && text[t + 1] == ' '
        invariant
            s <= t <= end <= text@.len(),
            trim_start_matches_spec(text@.subrange(s as int, end as int), item_marker())
                == trim_start_matches_spec(text@.subrange(t as int, end as int), item_marker()),
        decreases end - t,
    {
        proof {
            lemma_marker_step(text@, t as int, end as int);
        }
        t = t + 2;
    }
    proof {
        lemma_marker_stop(text@, t as int, end as int);
    }
    let trimmed = Ghost(text@.subrange(t as int, end as int));
    let n = needle.len();
    if n <= end - t && starts_with_at(text, t, needle.as_slice()) {
        proof {
            assert(trimmed@.take(n as int) =~= needle@);
            assert(trimmed@.skip(n as int) =~= text@.subrange(t + n, end as int));
        }
        let (va, vb) = trim_bounds(text, t + n, end);
        Some(copy_range(text, va, vb))
    } else {
        proof {
            if trimmed@.len() >= n && trimmed@.take(n as int) == needle@ {
                assert(text@.subrange(t as int, t + n) =~= trimmed@.take(n as int));
            }
        }
        None
    }
}

/// The value of the first `key: value` line found at any indentation at or after `from`
/// (a character position), and the position just after that line.
pub fn yaml_value(yaml: &[char], key: &Vec<char>, from: usize) -> (r: Option<(Vec<char>, usize)>)
    requires
        from <= yaml@.len(),
    ensures
        r matches Some((v, next)) ==> yaml_value_spec(yaml@, key@, from as int) == Some(
            (v@, next as int),
        ),
        r is None ==> yaml_value_spec(yaml@, key@, from as int) is None,
{
    let mut needle = key.clone();
    needle.push(':');
    let n = yaml.len();
    let mut pos = from;
    while pos < n
        invariant
            from <= pos <= n,
            n == yaml@.len(),
            needle@ == key@.push(':'),
            yaml_value_spec(yaml@, key@, from as int) == yaml_value_spec(yaml@, key@, pos as int),
        decreases n - pos,
    {
        let mut end = pos;
        while end < n && yaml[end] != '\n'
            invariant
                pos <= end <= n,
                n == yaml@.len(),
                forall|j: int| pos <= j < end ==> #[trigger] yaml@[j] != '\n',
            decreases n - end,
        {
            end = end + 1;
        }
        proof {
            lemma_line_end(yaml@, pos as int, end as int);
        }
        if end < n {
            end = end + 1;
        }
        match line_value(yaml, pos, end, key, &needle) {
            Some(v) => {
                return Some((v, end));
            },
            None => {},
        }
        pos = end;
    }
    None
}


/// The session-info text stored in `bytes`: everything before the first NUL, each byte
/// taken as the Latin-1 character of the same number.
pub open spec fn session_text_spec(bytes: Seq<u8>) -> Seq<char> {
    bytes.take(nul_end(bytes)).map_values(|b: u8| b as char)
}

/// Decodes the session-info block of an `.ibt` file.
pub fn session_text(bytes: &[u8]) -> (text: String)
    ensures
        text@ == session_text_spec(bytes@),
{
    let mut chars: Vec<char> = Vec::new();
    let mut i: usize = 0;
    while i < bytes.len() && bytes[i] != 0
        invariant
            i <= bytes@.len(),
            forall|j: int| 0 <= j < i ==> #[trigger] bytes@[j] != 0,
            chars@ == bytes@.take(i as int).map_values(|b: u8| b as char),
        decreases bytes@.len() - i,
    {
        chars.push(bytes[i] as char);
        i = i + 1;
        assert(chars@ =~= bytes@.take(i as int).map_values(|b: u8| b as char));
    }
    proof {
        crate::ibt::lemma_nul_end(bytes@, i as int);
    }
    string_from_chars(chars.as_slice())
}

/// Position of the first occurrence of `pat` in `text` at or after `i`.
pub open spec fn find_from(text: Seq<char>, pat: Seq<char>, i: int) -> Option<int>
    decreases text.len() + 1 - i,
{
    if i < 0 || i + pat.len() > text.len() {
        None
    } else if text.subrange(i, i + pat.len()) == pat {
        Some(i)
    } else {
        find_from(text, pat, i + 1)
    }
}

fn find_chars(text: &[char], pat: &[char]) -> (r: Option<usize>)
    ensures
        r matches Some(i) ==> find_from(text@, pat@, 0) == Some(i as int) && i <= text@.len(),
        r is None ==> find_from(text@, pat@, 0) is None,
{
    let n = text.len();
    let m = pat.len();
    if m > n {
        return None;
    }
    let mut i: usize = 0;
    loop
        invariant
            m <= n,
            n == text@.len(),
            m == pat@.len(),
            i <= n - m,
            find_from(text@, pat@, 0) == find_from(text@, pat@, i as int),
        decreases n - m - i,
    {
        if starts_with_at(text, i, pat) {
            return Some(i);
        }
        if i == n - m {
            assert(find_from(text@, pat@, i + 1) is None);
            return None;
        }
        i = i + 1;
    }
}

/// The value of the first line anywhere in `text` that holds `key:`, or nothing.
pub open spec fn value_or_empty(text: Seq<char>, key: Seq<char>) -> Seq<char> {
    match yaml_value_spec(text, key, 0) {
        Some((v, _)) => v,
        None => Seq::empty(),
    }
}

/// The values of every line at or after `pos` that holds `key:`, in order.
pub open spec fn values_from(text: Seq<char>, key: Seq<char>, pos: int) -> Seq<Seq<char>>
    decreases text.len() - pos,
{
    match yaml_value_spec(text, key, pos) {
        Some((v, next)) => if pos < next <= text.len() {
            seq![v] + values_from(text, key, next)
        } else {
            seq![v]
        },
        None => Seq::empty(),
    }
}

/// The raw `SectorStartPct` values listed after `SplitTimeInfo:`, in order.
pub open spec fn sector_starts_spec(text: Seq<char>) -> Seq<Seq<char>> {
    match find_from(text, "SplitTimeInfo:"@, 0) {
        Some(p) => values_from(text, "SectorStartPct"@, p),
        None => Seq::empty(),
    }
}

/// The `CarScreenName` that follows the first `CarIdx` at or after `pos` equal to `idx`.
pub open spec fn car_from(text: Seq<char>, idx: Seq<char>, pos: int) -> Seq<char>
    decreases text.len() - pos,
{
    match yaml_value_spec(text, "CarIdx"@, pos) {
        Some((v, next)) => if v == idx {
            value_from_or_empty(text, "CarScreenName"@, next)
        } else if pos < next <= text.len() {
            car_from(text, idx, next)
        } else {
            Seq::empty()
        },
        None => Seq::empty(),
    }
}

/// The value of the first line at or after `pos` that holds `key:`, or nothing.
pub open spec fn value_from_or_empty(text: Seq<char>, key: Seq<char>, pos: int) -> Seq<char> {
    match yaml_value_spec(text, key, pos) {
        Some((v, _)) => v,
        None => Seq::empty(),
    }
}

/// The player's car: the driver list (from `DriverInfo:` on, since `CarIdx` also appears
/// earlier in session results) is searched for the player's `DriverCarIdx`.
pub open spec fn car_spec(text: Seq<char>) -> Seq<char> {
    match (find_from(text, "DriverInfo:"@, 0), yaml_value_spec(text, "DriverCarIdx"@, 0)) {
        (Some(d), Some((idx, _))) => car_from(text, idx, d),
        _ => Seq::empty(),
    }
}

/// Length of the leading run of non-whitespace characters.
pub open spec fn word_len(s: Seq<char>) -> int
    decreases s.len(),
{
    if s.len() == 0 || is_ws(s[0]) {
        0
    } else {
        1 + word_len(s.drop_first())
    }
}

/// The first whitespace-separated word of `s`.
pub open spec fn first_word(s: Seq<char>) -> Option<Seq<char>> {
    let t = trim_start_spec(s);
    if t.len() == 0 {
        None
    } else {
        Some(t.take(word_len(t)))
    }
}

/// Track, car and sector information found in the session info. Numbers are kept as the
/// text the file holds.
#[derive(Clone, Debug)]
pub struct TrackText {
    /// iRacing's internal id, e.g. "roadatlanta full".
    pub track_name: String,
    pub display_name: String,
    pub config_name: String,
    /// The first word of `TrackLength` (the number of kilometres).
    pub length_km: Option<String>,
    /// The `SectorStartPct` values after `SplitTimeInfo:`, in order.
    pub sector_starts: Vec<String>,
    pub car: String,
}

proof fn lemma_word_len(s: Seq<char>, k: int)
    requires
        0 <= k <= s.len(),
        forall|j: int| 0 <= j < k ==> !is_ws(#[trigger] s[j]),
        k == s.len() || is_ws(s[k]),
    ensures
        word_len(s) == k,
    decreases k,
{
    if k > 0 {
        lemma_word_len(s.drop_first(), k - 1);
    }
}

fn first_word_of(s: &[char]) -> (w: Option<Vec<char>>)
    ensures
        w matches Some(v) ==> first_word(s@) == Some(v@),
        w is None ==> first_word(s@) is None,
{
    let n = s.len();
    let mut a: usize = 0;
    while a < n && crate::text::is_whitespace(s[a])
        invariant
            a <= n,
            n == s@.len(),
            forall|j: int| 0 <= j < a ==> is_ws(#[trigger] s@[j]),
        decreases n - a,
    {
        a = a + 1;
    }
    proof {
        crate::text::lemma_trim_start_at(s@, a as int);
    }
    if a == n {
        return None;
    }
    let mut b = a;
    while b < n && !crate::text::is_whitespace(s[b])
        invariant
            a <= b <= n,
            n == s@.len(),
            forall|j: int| a <= j < b ==> !is_ws(#[trigger] s@[j]),
        decreases n - b,
    {
        b = b + 1;
    }
    proof {
        let t = s@.skip(a as int);
        assert forall|j: int| 0 <= j < b - a implies !is_ws(#[trigger] t[j]) by {
            assert(t[j] == s@[a + j]);
        }
        if b < n {
            assert(t[b - a] == s@[b as int]);
        }
        lemma_word_len(t, b - a);
        assert(t.take(b - a) =~= s@.subrange(a as int, b as int));
    }
    Some(copy_range(s, a, b))
}

pub(crate) fn value_or_empty_of(text: &[char], key: &str) -> (v: Vec<char>)
    ensures
        v@ == value_or_empty(text@, key@),
{
    let k = chars_of(key);
    match yaml_value(text, &k, 0) {
        Some((v, _)) => v,
        None => Vec::new(),
    }
}

fn values_from_of(text: &[char], key: &str, from: usize) -> (vs: Vec<String>)
    requires
        from <= text@.len(),
    ensures
        vs@.map_values(|s: String| s@) == values_from(text@, key@, from as int),
{
    let k = chars_of(key);
    let mut out: Vec<String> = Vec::new();
    let mut pos = from;
    let ghost start = from as int;
    loop
        invariant
            pos <= text@.len(),
            k@ == key@,
            start == from as int,
            values_from(text@, key@, start) == out@.map_values(|s: String| s@) + values_from(
                text@,
                key@,
                pos as int,
            ),
        decreases text@.len() - pos,
    {
        proof {
            lemma_yaml_value_advances(text@, key@, pos as int);
        }
        match yaml_value(text, &k, pos) {
            Some((v, next)) => {
                let ghost old_out = out@.map_values(|s: String| s@);
                out.push(string_from_chars(v.as_slice()));
                assert(out@.map_values(|s: String| s@) =~= old_out.push(v@));
                assert(values_from(text@, key@, pos as int) == seq![v@] + values_from(
                    text@,
                    key@,
                    next as int,
                ));
                assert(old_out.push(v@) + values_from(text@, key@, next as int) =~= old_out + (
                seq![v@] + values_from(text@, key@, next as int)));
                pos = next;
            },
            None => {
                assert(values_from(text@, key@, pos as int) =~= Seq::<Seq<char>>::empty());
                assert(out@.map_values(|s: String| s@) + values_from(text@, key@, pos as int)
                    =~= out@.map_values(|s: String| s@));
                return out;
            },
        }
    }
}

pub(crate) fn car_of(text: &[char]) -> (car: Vec<char>)
    ensures
        car@ == car_spec(text@),
{
    let drivers = find_chars(text, chars_of("DriverInfo:").as_slice());
    let idx = yaml_value(text, &chars_of("DriverCarIdx"), 0);
    let (mut pos, idx) = match (drivers, idx) {
        (Some(d), Some((i, _))) => (d, i),
        _ => return Vec::new(),
    };
    let ghost start = pos as int;
    let car_idx = chars_of("CarIdx");
    let screen_name = chars_of("CarScreenName");
    loop
        invariant
            pos <= text@.len(),
            car_idx@ == "CarIdx"@,
            screen_name@ == "CarScreenName"@,
            car_spec(text@) == car_from(text@, idx@, pos as int),
        decreases text@.len() - pos,
    {
        proof {
            lemma_yaml_value_advances(text@, car_idx@, pos as int);
        }
        match yaml_value(text, &car_idx, pos) {
            Some((v, next)) => {
                if crate::text::same_chars(v.as_slice(), idx.as_slice()) {
                    return match yaml_value(text, &screen_name, next) {
                        Some((name, _)) => name,
                        None => Vec::new(),
                    };
                }
                pos = next;
            },
            None => {
                return Vec::new();
            },
        }
    }
}

/// Reads the track, car and sector boundaries out of the session info.
pub fn parse_track_info(yaml: &str) -> (info: TrackText)
    ensures
        info.track_name@ == value_or_empty(yaml@, "TrackName"@),
        info.display_name@ == value_or_empty(yaml@, "TrackDisplayName"@),
        info.config_name@ == value_or_empty(yaml@, "TrackConfigName"@),
        info.length_km matches Some(w) ==> first_word(value_or_empty(yaml@, "TrackLength"@))
            == Some(w@),
        info.length_km is None ==> first_word(value_or_empty(yaml@, "TrackLength"@)) is None,
        info.sector_starts@.map_values(|s: String| s@) == sector_starts_spec(yaml@),
        info.car@ == car_spec(yaml@),
{
    let text = chars_of(yaml);
    let t = text.as_slice();
    let length = value_or_empty_of(t, "TrackLength");
    let length_km = match first_word_of(length.as_slice()) {
        Some(w) => Some(string_from_chars(w.as_slice())),
        None => None,
    };
    let sector_starts = match find_chars(t, chars_of("SplitTimeInfo:").as_slice()) {
        Some(p) => values_from_of(t, "SectorStartPct", p),
        None => Vec::new(),
    };
    let car = car_of(t);
    TrackText {
        track_name: string_from_chars(value_or_empty_of(t, "TrackName").as_slice()),
        display_name: string_from_chars(value_or_empty_of(t, "TrackDisplayName").as_slice()),
        config_name: string_from_chars(value_or_empty_of(t, "TrackConfigName").as_slice()),
        length_km,
        sector_starts,
        car: string_from_chars(car.as_slice()),
    }
}


} // verus!
