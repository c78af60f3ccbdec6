//! Reading a fixture's session info back: the scanner finds in it exactly the track,
//! sector and car values it was written with.

use vstd::prelude::*;

use crate::fixture_text::{
    driver_lines, fixture_lines, fixture_yaml_spec, head_lines, join_lines, sector_lines,
};
use crate::session_info::{
    car_from, car_spec, find_from, item_marker, lemma_line_end, line_end, sector_starts_spec,
    value_or_empty, values_from, yaml_line_value, yaml_value_spec,
};
use crate::text::{
    decimal, is_ws, trim_end_spec, strip_prefix_spec, trim_spec, trim_start_matches_spec, trim_start_spec,
};

verus! {

/// A complete line: it ends with its only line break.
pub open spec fn line_ok(l: Seq<char>) -> bool {
    &&& l.len() > 0
    &&& l.last() == '\n'
    &&& forall|i: int| 0 <= i < l.len() - 1 ==> #[trigger] l[i] != '\n'
}

/// Every line is complete.
pub open spec fn lines_ok(lines: Seq<Seq<char>>) -> bool {
    forall|k: int| 0 <= k < lines.len() ==> line_ok(#[trigger] lines[k])
}

proof fn lemma_scan_line(text: Seq<char>, key: Seq<char>, pos: int, l: Seq<char>)
    requires
        0 <= pos,
        pos + l.len() <= text.len(),
        text.subrange(pos, pos + l.len()) == l,
        line_ok(l),
    ensures
        yaml_value_spec(text, key, pos) == match yaml_line_value(l, key) {
            Some(v) => Some((v, pos + l.len())),
            None => yaml_value_spec(text, key, pos + l.len()),
        },
{
    let e = pos + l.len() - 1;
    assert forall|j: int| pos <= j < e implies #[trigger] text[j] != '\n' by {
        assert(text[j] == l[j - pos]);
    }
    assert(text[e] == l[l.len() - 1]);
    lemma_line_end(text, pos, e);
}

/// Scanning past lines that do not hold the key.
proof fn lemma_scan_skip_lines(text: Seq<char>, key: Seq<char>, pos: int, lines: Seq<Seq<char>>)
    requires
        0 <= pos,
        pos + join_lines(lines).len() <= text.len(),
        text.subrange(pos, pos + join_lines(lines).len()) == join_lines(lines),
        lines_ok(lines),
        forall|k: int| 0 <= k < lines.len() ==> yaml_line_value(#[trigger] lines[k], key) is None,
    ensures
        yaml_value_spec(text, key, pos) == yaml_value_spec(
            text,
            key,
            pos + join_lines(lines).len(),
        ),
    decreases lines.len(),
{
    if lines.len() > 0 {
        let prefix = lines.drop_last();
        let l = lines.last();
        let p = join_lines(prefix);
        assert(join_lines(lines) == p + l);
        assert(text.subrange(pos, pos + p.len()) =~= p) by {
            assert(text.subrange(pos, pos + p.len()) =~= join_lines(lines).subrange(0, p.len() as int));
        }
        assert(lines_ok(prefix)) by {
            assert forall|k: int| 0 <= k < prefix.len() implies line_ok(#[trigger] prefix[k]) by {
                assert(prefix[k] == lines[k]);
            }
        }
        assert forall|k: int| 0 <= k < prefix.len() implies yaml_line_value(
            #[trigger] prefix[k],
            key,
        ) is None by {
            assert(prefix[k] == lines[k]);
        }
        lemma_scan_skip_lines(text, key, pos, prefix);
        assert(text.subrange(pos + p.len(), pos + p.len() + l.len()) =~= l) by {
            assert(text.subrange(pos + p.len(), pos + p.len() + l.len()) =~= join_lines(
                lines,
            ).subrange(p.len() as int, (p.len() + l.len()) as int));
        }
        assert(line_ok(l)) by {
            assert(l == lines[lines.len() - 1]);
        }
        assert(yaml_line_value(l, key) is None) by {
            assert(l == lines[lines.len() - 1]);
        }
        lemma_scan_line(text, key, pos + p.len(), l);
    }
}

/// Values of the lines that hold the key, in order.
pub open spec fn line_values(lines: Seq<Seq<char>>, key: Seq<char>) -> Seq<Seq<char>>
    decreases lines.len(),
{
    if lines.len() == 0 {
        Seq::empty()
    } else {
        let rest = line_values(lines.drop_last(), key);
        match yaml_line_value(lines.last(), key) {
            Some(v) => rest.push(v),
            None => rest,
        }
    }
}

proof fn lemma_line_values_append(a: Seq<Seq<char>>, b: Seq<Seq<char>>, key: Seq<char>)
    ensures
        line_values(a + b, key) == line_values(a, key) + line_values(b, key),
    decreases b.len(),
{
    if b.len() == 0 {
        assert(a + b =~= a);
        assert(line_values(a, key) + line_values(b, key) =~= line_values(a, key));
    } else {
        lemma_line_values_append(a, b.drop_last(), key);
        assert((a + b).drop_last() =~= a + b.drop_last());
        assert((a + b).last() == b.last());
        match yaml_line_value(b.last(), key) {
            Some(v) => {
                assert(line_values(a + b, key) =~= line_values(a, key) + line_values(b, key));
            },
            None => {},
        }
    }
}

proof fn lemma_join_single(l: Seq<char>)
    ensures
        join_lines(seq![l]) == l,
{
    assert(seq![l].drop_last() =~= Seq::<Seq<char>>::empty());
    assert(join_lines(Seq::<Seq<char>>::empty()) =~= Seq::<char>::empty());
    assert(join_lines(seq![l]) =~= l);
}

proof fn lemma_values_single(l: Seq<char>, key: Seq<char>)
    ensures
        line_values(seq![l], key) == match yaml_line_value(l, key) {
            Some(v) => seq![v],
            None => Seq::<Seq<char>>::empty(),
        },
{
    assert(seq![l].drop_last() =~= Seq::<Seq<char>>::empty());
    assert(seq![l].last() == l);
    assert(line_values(Seq::<Seq<char>>::empty(), key) =~= Seq::<Seq<char>>::empty());
    match yaml_line_value(l, key) {
        Some(v) => {
            assert(line_values(seq![l], key) =~= seq![v]);
        },
        None => {},
    }
}

/// Collecting every value of the key from `pos` to the end of the text, when the rest of
/// the text is made of complete lines.
proof fn lemma_values_to_end(text: Seq<char>, key: Seq<char>, pos: int, lines: Seq<Seq<char>>)
    requires
        0 <= pos,
        pos + join_lines(lines).len() == text.len(),
        text.subrange(pos, text.len() as int) == join_lines(lines),
        lines_ok(lines),
    ensures
        values_from(text, key, pos) == line_values(lines, key),
    decreases lines.len(),
{
    if lines.len() == 0 {
        assert(yaml_value_spec(text, key, pos) is None);
    } else {
        let first = lines[0];
        let rest = lines.drop_first();
        crate::fixture_text::lemma_join_lines_append(seq![first], rest);
        assert(seq![first] + rest =~= lines);
        lemma_join_single(first);
        let j = join_lines(rest);
        assert(line_ok(first));
        assert(text.subrange(pos, pos + first.len()) =~= first) by {
            assert(text.subrange(pos, pos + first.len()) =~= join_lines(lines).subrange(
                0,
                first.len() as int,
            ));
        }
        assert(text.subrange(pos + first.len(), text.len() as int) =~= j) by {
            assert(text.subrange(pos + first.len(), text.len() as int) =~= join_lines(
                lines,
            ).subrange(first.len() as int, join_lines(lines).len() as int));
        }
        assert(lines_ok(rest)) by {
            assert forall|k: int| 0 <= k < rest.len() implies line_ok(#[trigger] rest[k]) by {
                assert(rest[k] == lines[k + 1]);
            }
        }
        lemma_scan_line(text, key, pos, first);
        lemma_values_to_end(text, key, pos + first.len(), rest);
        lemma_line_values_append(seq![first], rest, key);
        lemma_values_single(first, key);
        match yaml_line_value(first, key) {
            Some(v) => {
                assert(values_from(text, key, pos) == seq![v] + values_from(
                    text,
                    key,
                    pos + first.len(),
                ));
            },
            None => {
                crate::session_info::lemma_yaml_value_advances(text, key, pos + first.len());
                assert(line_values(lines, key) =~= line_values(rest, key));
            },
        }
    }
}

/// Where line `k` starts in the joined text.
pub open spec fn line_start(lines: Seq<Seq<char>>, k: int) -> int {
    join_lines(lines.take(k)).len() as int
}

proof fn lemma_lines_slice(lines: Seq<Seq<char>>, j: int, h: int)
    requires
        0 <= j <= h <= lines.len(),
    ensures
        line_start(lines, j) <= line_start(lines, h) <= join_lines(lines).len(),
        join_lines(lines).subrange(line_start(lines, j), line_start(lines, h)) == join_lines(
            lines.subrange(j, h),
        ),
{
    let t = join_lines(lines);
    crate::fixture_text::lemma_join_lines_append(lines.take(h), lines.skip(h));
    assert(lines.take(h) + lines.skip(h) =~= lines);
    crate::fixture_text::lemma_join_lines_append(lines.take(j), lines.subrange(j, h));
    assert(lines.take(j) + lines.subrange(j, h) =~= lines.take(h));
    let a = join_lines(lines.take(j));
    let b = join_lines(lines.subrange(j, h));
    assert(t.subrange(a.len() as int, (a.len() + b.len()) as int) =~= b);
}

proof fn lemma_line_slice(lines: Seq<Seq<char>>, k: int)
    requires
        0 <= k < lines.len(),
    ensures
        line_start(lines, k + 1) == line_start(lines, k) + lines[k].len(),
        line_start(lines, k + 1) <= join_lines(lines).len(),
        join_lines(lines).subrange(line_start(lines, k), line_start(lines, k + 1)) == lines[k],
{
    lemma_lines_slice(lines, k, k + 1);
    assert(lines.subrange(k, k + 1) =~= seq![lines[k]]);
    lemma_join_single(lines[k]);
}

/// The scan from the start of line `j` finds the key first on line `h`.
proof fn lemma_first_hit(lines: Seq<Seq<char>>, key: Seq<char>, j: int, h: int)
    requires
        lines_ok(lines),
        0 <= j <= h < lines.len(),
        forall|k: int| j <= k < h ==> yaml_line_value(#[trigger] lines[k], key) is None,
        yaml_line_value(lines[h], key) is Some,
    ensures
        yaml_value_spec(join_lines(lines), key, line_start(lines, j)) == Some(
            (yaml_line_value(lines[h], key)->Some_0, line_start(lines, h + 1)),
        ),
{
    let text = join_lines(lines);
    let sub = lines.subrange(j, h);
    lemma_lines_slice(lines, j, h);
    assert(lines_ok(sub)) by {
        assert forall|k: int| 0 <= k < sub.len() implies line_ok(#[trigger] sub[k]) by {
            assert(sub[k] == lines[j + k]);
        }
    }
    assert forall|k: int| 0 <= k < sub.len() implies yaml_line_value(#[trigger] sub[k], key)
        is None by {
        assert(sub[k] == lines[j + k]);
    }
    lemma_scan_skip_lines(text, key, line_start(lines, j), sub);
    lemma_line_slice(lines, h);
    lemma_scan_line(text, key, line_start(lines, h), lines[h]);
}

/// The line that holds position `p` of the joined text.
proof fn lemma_locate(lines: Seq<Seq<char>>, p: int) -> (k: int)
    requires
        0 <= p < join_lines(lines).len(),
    ensures
        0 <= k < lines.len(),
        line_start(lines, k) <= p < line_start(lines, k + 1),
    decreases lines.len(),
{
    if lines.len() == 0 {
        assert(join_lines(lines) =~= Seq::<char>::empty());
        0
    } else {
        let pre = lines.drop_last();
        let n = lines.len() as int;
        if p < join_lines(pre).len() {
            let k = lemma_locate(pre, p);
            assert(pre.take(k) =~= lines.take(k));
            assert(pre.take(k + 1) =~= lines.take(k + 1));
            k
        } else {
            assert(lines.take(n - 1) =~= pre);
            assert(lines.take(n) =~= lines);
            n - 1
        }
    }
}

/// From a position inside line `k`, the line ends where line `k + 1` starts.
proof fn lemma_mid_line_end(lines: Seq<Seq<char>>, p: int, k: int)
    requires
        lines_ok(lines),
        0 <= k < lines.len(),
        line_start(lines, k) <= p < line_start(lines, k + 1),
    ensures
        line_end(join_lines(lines), p) == line_start(lines, k + 1),
{
    let text = join_lines(lines);
    lemma_line_slice(lines, k);
    let o = line_start(lines, k);
    let l = lines[k];
    assert(line_ok(l));
    let e = line_start(lines, k + 1) - 1;
    assert forall|j: int| p <= j < e implies #[trigger] text[j] != '\n' by {
        assert(text[j] == text.subrange(o, o + l.len())[j - o]);
    }
    assert(text[e] == text.subrange(o, o + l.len())[l.len() - 1]);
    lemma_line_end(text, p, e);
}

/// A line reaches past a stretch without line breaks.
proof fn lemma_line_end_past(text: Seq<char>, p: int, q: int)
    requires
        0 <= p <= q <= text.len(),
        forall|j: int| p <= j < q ==> #[trigger] text[j] != '\n',
    ensures
        q <= line_end(text, p),
    decreases q - p,
{
    if p < q {
        assert(text[p] != '\n');
        lemma_line_end_past(text, p + 1, q);
    } else if p < text.len() {
        crate::session_info::lemma_line_end_advances(text, p);
    }
}

proof fn lemma_find_from_some(text: Seq<char>, pat: Seq<char>, i: int, q: int)
    requires
        0 <= i <= q,
        q + pat.len() <= text.len(),
        text.subrange(q, q + pat.len()) == pat,
    ensures
        find_from(text, pat, i) matches Some(p) && i <= p <= q && text.subrange(p, p + pat.len())
            == pat,
    decreases q - i,
{
    if text.subrange(i, i + pat.len()) != pat {
        lemma_find_from_some(text, pat, i + 1, q);
    }
}

/// No colon in `s`.
pub open spec fn no_colon(s: Seq<char>) -> bool {
    forall|i: int| 0 <= i < s.len() ==> #[trigger] s[i] != ':'
}

/// No line break in `s`.
pub open spec fn one_line(s: Seq<char>) -> bool {
    forall|i: int| 0 <= i < s.len() ==> #[trigger] s[i] != '\n'
}

/// A value that reads back as written: on one line, without surrounding whitespace.
pub open spec fn plain(v: Seq<char>) -> bool {
    &&& one_line(v)
    &&& trim_spec(v) == v
}

/// What is left of `line` once indentation and list-item markers are gone.
pub open spec fn line_body(line: Seq<char>) -> Seq<char> {
    trim_start_matches_spec(trim_start_spec(line), item_marker())
}

proof fn lemma_keyed_body(line: Seq<char>, k: Seq<char>, r: Seq<char>, key: Seq<char>)
    requires
        line_body(line) == k + seq![':'] + r,
        no_colon(k),
        no_colon(key),
    ensures
        yaml_line_value(line, key) == if key == k {
            Some(trim_spec(r))
        } else {
            None::<Seq<char>>
        },
{
    let body = k + seq![':'] + r;
    let pat = key.push(':');
    if key == k {
        assert(body.take(pat.len() as int) =~= pat);
        assert(body.skip(pat.len() as int) =~= r);
    } else {
        if body.len() >= pat.len() && body.take(pat.len() as int) == pat {
            if key.len() < k.len() {
                assert(body[key.len() as int] == pat[key.len() as int]);
                assert(body[key.len() as int] == k[key.len() as int]);
            } else if key.len() > k.len() {
                assert(body[k.len() as int] == pat[k.len() as int]);
                assert(pat[k.len() as int] == key[k.len() as int]);
            } else {
                assert forall|i: int| 0 <= i < k.len() implies key[i] == k[i] by {
                    assert(body[i] == pat[i]);
                }
                assert(key =~= k);
            }
        }
    }
}

proof fn lemma_unkeyed_body(line: Seq<char>, key: Seq<char>)
    requires
        no_colon(line_body(line)),
    ensures
        yaml_line_value(line, key) is None,
{
    let body = line_body(line);
    let pat = key.push(':');
    if body.len() >= pat.len() && body.take(pat.len() as int) == pat {
        assert(body[key.len() as int] == pat[key.len() as int]);
    }
}

proof fn lemma_trim_start_len(s: Seq<char>)
    ensures
        trim_start_spec(s).len() <= s.len(),
    decreases s.len(),
{
    if s.len() > 0 && is_ws(s[0]) {
        lemma_trim_start_len(s.drop_first());
    }
}

proof fn lemma_plain_ends(v: Seq<char>)
    requires
        plain(v),
        v.len() > 0,
    ensures
        !is_ws(v[0]),
        !is_ws(v.last()),
{
    let a = trim_start_spec(v);
    lemma_trim_start_len(v);
    crate::text::lemma_trim_end_shape(a);
    crate::text::lemma_trim_start_shape(v);
    assert(a.len() == v.len());
    if is_ws(v[0]) {
        lemma_trim_start_len(v.drop_first());
    }
    assert(a == v);
    crate::text::lemma_trim_end_shape(v);
}

/// A value padded the way the fixture writes it reads back as itself.
proof fn lemma_trim_padded(v: Seq<char>)
    requires
        plain(v),
    ensures
        trim_spec(" "@ + v + "\n"@) == v,
{
    reveal_strlit(" ");
    reveal_strlit("\n");
    let line = " "@ + v + "\n"@;
    if v.len() == 0 {
        assert(line =~= seq![' ', '\n']);
        crate::text::lemma_trim_start_at(line, 2);
        assert(line.skip(2) =~= Seq::<char>::empty());
    } else {
        lemma_plain_ends(v);
        assert(line[1] == v[0]);
        crate::text::lemma_trim_start_at(line, 1);
        let rest = line.skip(1);
        assert(rest =~= v + "\n"@);
        assert(rest[v.len() - 1] == v.last());
        crate::text::lemma_trim_end_at(rest, v.len() as int);
        assert(rest.take(v.len() as int) =~= v);
    }
}

proof fn lemma_body_flush(body: Seq<char>)
    requires
        body.len() > 0,
        !is_ws(body[0]),
        body[0] != '-',
    ensures
        line_body(body) == body,
{
    if body.len() >= 2 && body.take(2) == item_marker() {
        assert(body.take(2)[0] == body[0]);
    }
}

proof fn lemma_body_indented(pad: Seq<char>, body: Seq<char>)
    requires
        forall|i: int| 0 <= i < pad.len() ==> #[trigger] pad[i] == ' ',
        body.len() > 0,
        !is_ws(body[0]),
        body[0] != '-',
    ensures
        line_body(pad + body) == body,
{
    let line = pad + body;
    assert(line[pad.len() as int] == body[0]);
    assert forall|j: int| 0 <= j < pad.len() implies is_ws(#[trigger] line[j]) by {
        assert(line[j] == pad[j]);
    }
    crate::text::lemma_trim_start_at(line, pad.len() as int);
    assert(line.skip(pad.len() as int) =~= body);
    lemma_body_flush(body);
}

proof fn lemma_body_item(body: Seq<char>)
    requires
        body.len() > 0,
        !is_ws(body[0]),
        body[0] != '-',
    ensures
        line_body(" - "@ + body) == body,
{
    reveal_strlit(" - ");
    let line = " - "@ + body;
    let t = line.skip(1);
    assert(line[1] == '-');
    crate::text::lemma_trim_start_at(line, 1);
    assert(t.len() >= 2 && t.take(2) =~= item_marker());
    assert(t.skip(2) =~= body);
    lemma_body_flush(body);
}

proof fn lemma_trim_newline()
    ensures
        trim_spec("\n"@) == Seq::<char>::empty(),
{
    reveal_strlit("\n");
    crate::text::lemma_trim_start_at("\n"@, 1);
    assert("\n"@.skip(1) =~= Seq::<char>::empty());
}

/// A line `pad` + `k` + `": "` + `v`, with `pad` made of spaces.
proof fn lemma_value_line(pad: Seq<char>, k: Seq<char>, v: Seq<char>, key: Seq<char>)
    requires
        forall|i: int| 0 <= i < pad.len() ==> #[trigger] pad[i] == ' ',
        k.len() > 0,
        !is_ws(k[0]),
        k[0] != '-',
        no_colon(k),
        one_line(k),
        no_colon(key),
        one_line(v),
    ensures
        line_ok(pad + k + ": "@ + v + "\n"@),
        yaml_line_value(pad + k + ": "@ + v + "\n"@, key) == if key == k {
            Some(trim_spec(" "@ + v + "\n"@))
        } else {
            None::<Seq<char>>
        },
{
    reveal_strlit(": ");
    reveal_strlit(" ");
    reveal_strlit("\n");
    let line = pad + k + ": "@ + v + "\n"@;
    let r = " "@ + v + "\n"@;
    let body = k + seq![':'] + r;
    assert(line =~= pad + body);
    assert(body[0] == k[0]);
    lemma_body_indented(pad, body);
    lemma_keyed_body(line, k, r, key);
    assert forall|i: int| 0 <= i < line.len() - 1 implies #[trigger] line[i] != '\n' by {
        if i < pad.len() {
            assert(line[i] == pad[i]);
        } else if i < pad.len() + k.len() {
            assert(line[i] == k[i - pad.len()]);
        } else if i < pad.len() + k.len() + 2 {
        } else {
            assert(line[i] == v[i - pad.len() - k.len() - 2]);
        }
    }
}

/// A list item `" - "` + `k` + `": "` + `v`.
proof fn lemma_item_line(k: Seq<char>, v: Seq<char>, key: Seq<char>)
    requires
        k.len() > 0,
        !is_ws(k[0]),
        k[0] != '-',
        no_colon(k),
        one_line(k),
        no_colon(key),
        one_line(v),
    ensures
        line_ok(" - "@ + k + ": "@ + v + "\n"@),
        yaml_line_value(" - "@ + k + ": "@ + v + "\n"@, key) == if key == k {
            Some(trim_spec(" "@ + v + "\n"@))
        } else {
            None::<Seq<char>>
        },
{
    reveal_strlit(": ");
    reveal_strlit(" - ");
    reveal_strlit(" ");
    reveal_strlit("\n");
    let line = " - "@ + k + ": "@ + v + "\n"@;
    let r = " "@ + v + "\n"@;
    let body = k + seq![':'] + r;
    assert(line =~= " - "@ + body);
    assert(body[0] == k[0]);
    lemma_body_item(body);
    lemma_keyed_body(line, k, r, key);
    assert forall|i: int| 0 <= i < line.len() - 1 implies #[trigger] line[i] != '\n' by {
        if i < 3 {
        } else if i < 3 + k.len() {
            assert(line[i] == k[i - 3]);
        } else if i < 3 + k.len() + 2 {
        } else {
            assert(line[i] == v[i - 3 - k.len() - 2]);
        }
    }
}

/// A line `pad` + `k` + `":"` with nothing after the colon.
proof fn lemma_flag_line(pad: Seq<char>, k: Seq<char>, key: Seq<char>)
    requires
        forall|i: int| 0 <= i < pad.len() ==> #[trigger] pad[i] == ' ',
        k.len() > 0,
        !is_ws(k[0]),
        k[0] != '-',
        no_colon(k),
        one_line(k),
        no_colon(key),
    ensures
        line_ok(pad + k + ":\n"@),
        yaml_line_value(pad + k + ":\n"@, key) == if key == k {
            Some(Seq::<char>::empty())
        } else {
            None::<Seq<char>>
        },
{
    reveal_strlit(":\n");
    reveal_strlit("\n");
    let line = pad + k + ":\n"@;
    let body = k + seq![':'] + "\n"@;
    assert(line =~= pad + body);
    assert(body[0] == k[0]);
    lemma_body_indented(pad, body);
    lemma_keyed_body(line, k, "\n"@, key);
    lemma_trim_newline();
    assert forall|i: int| 0 <= i < line.len() - 1 implies #[trigger] line[i] != '\n' by {
        if i < pad.len() {
            assert(line[i] == pad[i]);
        } else if i < pad.len() + k.len() {
            assert(line[i] == k[i - pad.len()]);
        }
    }
}

/// A key as the fixture writes it: flush with its line, without colon or line break.
spec fn key_ok(k: Seq<char>) -> bool {
    &&& k.len() > 0
    &&& !is_ws(k[0])
    &&& k[0] != '-'
    &&& no_colon(k)
    &&& one_line(k)
}

/// The keys the fixture's session info is written and read with.
proof fn lemma_keys()
    ensures
        key_ok("WeekendInfo"@),
        key_ok("TrackName"@),
        key_ok("TrackDisplayName"@),
        key_ok("TrackConfigName"@),
        key_ok("TrackLength"@),
        key_ok("SplitTimeInfo"@),
        key_ok("Sectors"@),
        key_ok("SectorNum"@),
        key_ok("SectorStartPct"@),
        key_ok("DriverInfo"@),
        key_ok("DriverCarIdx"@),
        key_ok("Drivers"@),
        key_ok("CarIdx"@),
        key_ok("UserName"@),
        key_ok("CarScreenName"@),
{
    reveal_strlit("WeekendInfo");
    reveal_strlit("TrackName");
    reveal_strlit("TrackDisplayName");
    reveal_strlit("TrackConfigName");
    reveal_strlit("TrackLength");
    reveal_strlit("SplitTimeInfo");
    reveal_strlit("Sectors");
    reveal_strlit("SectorNum");
    reveal_strlit("SectorStartPct");
    reveal_strlit("DriverInfo");
    reveal_strlit("DriverCarIdx");
    reveal_strlit("Drivers");
    reveal_strlit("CarIdx");
    reveal_strlit("UserName");
    reveal_strlit("CarScreenName");
}

proof fn lemma_head(
    name: Seq<char>,
    display: Seq<char>,
    config: Seq<char>,
    length: Seq<char>,
    key: Seq<char>,
)
    requires
        plain(name),
        plain(display),
        plain(config),
        plain(length),
        no_colon(key),
    ensures
        lines_ok(head_lines(name, display, config, length)),
        head_lines(name, display, config, length).len() == 8,
        yaml_line_value(head_lines(name, display, config, length)[0], key) is None,
        yaml_line_value(head_lines(name, display, config, length)[1], key) == if key
            == "WeekendInfo"@ {
            Some(Seq::<char>::empty())
        } else {
            None::<Seq<char>>
        },
        yaml_line_value(head_lines(name, display, config, length)[2], key) == if key
            == "TrackName"@ {
            Some(name)
        } else {
            None::<Seq<char>>
        },
        yaml_line_value(head_lines(name, display, config, length)[3], key) == if key
            == "TrackDisplayName"@ {
            Some(display)
        } else {
            None::<Seq<char>>
        },
        yaml_line_value(head_lines(name, display, config, length)[4], key) == if key
            == "TrackConfigName"@ {
            Some(config)
        } else {
            None::<Seq<char>>
        },
        yaml_line_value(head_lines(name, display, config, length)[5], key) == if key
            == "TrackLength"@ {
            Some(length)
        } else {
            None::<Seq<char>>
        },
        yaml_line_value(head_lines(name, display, config, length)[6], key) == if key
            == "SplitTimeInfo"@ {
            Some(Seq::<char>::empty())
        } else {
            None::<Seq<char>>
        },
        yaml_line_value(head_lines(name, display, config, length)[7], key) == if key
            == "Sectors"@ {
            Some(Seq::<char>::empty())
        } else {
            None::<Seq<char>>
        },
{
    let h = head_lines(name, display, config, length);
    lemma_keys();
    reveal_strlit("---\n");
    reveal_strlit("WeekendInfo:\n");
    reveal_strlit(" TrackName: ");
    reveal_strlit(" TrackDisplayName: ");
    reveal_strlit(" TrackConfigName: ");
    reveal_strlit(" TrackLength: ");
    reveal_strlit("SplitTimeInfo:\n");
    reveal_strlit(" Sectors:\n");
    reveal_strlit("WeekendInfo");
    reveal_strlit("TrackName");
    reveal_strlit("TrackDisplayName");
    reveal_strlit("TrackConfigName");
    reveal_strlit("TrackLength");
    reveal_strlit("SplitTimeInfo");
    reveal_strlit("Sectors");
    reveal_strlit(":\n");
    reveal_strlit(": ");
    reveal_strlit(" ");
    reveal_strlit("\n");
    let e = Seq::<char>::empty();
    // "---"
    let l0 = h[0];
    assert(l0 =~= seq!['-', '-', '-', '\n']);
    assert(trim_start_spec(l0) == l0);
    assert(l0.take(2) != item_marker()) by {
        assert(l0.take(2)[1] != item_marker()[1]);
    }
    assert(line_body(l0) == l0);
    lemma_unkeyed_body(l0, key);
    // flag lines
    assert(h[1] =~= e + "WeekendInfo"@ + ":\n"@);
    lemma_flag_line(e, "WeekendInfo"@, key);
    assert(h[6] =~= e + "SplitTimeInfo"@ + ":\n"@);
    lemma_flag_line(e, "SplitTimeInfo"@, key);
    assert(h[7] =~= " "@ + "Sectors"@ + ":\n"@);
    lemma_flag_line(" "@, "Sectors"@, key);
    // valued lines
    assert(h[2] =~= " "@ + "TrackName"@ + ": "@ + name + "\n"@);
    lemma_value_line(" "@, "TrackName"@, name, key);
    lemma_trim_padded(name);
    assert(h[3] =~= " "@ + "TrackDisplayName"@ + ": "@ + display + "\n"@);
    lemma_value_line(" "@, "TrackDisplayName"@, display, key);
    lemma_trim_padded(display);
    assert(h[4] =~= " "@ + "TrackConfigName"@ + ": "@ + config + "\n"@);
    lemma_value_line(" "@, "TrackConfigName"@, config, key);
    lemma_trim_padded(config);
    assert(h[5] =~= " "@ + "TrackLength"@ + ": "@ + length + "\n"@);
    lemma_value_line(" "@, "TrackLength"@, length, key);
    lemma_trim_padded(length);
    assert(line_ok(h[0]));
    assert forall|k: int| 0 <= k < h.len() implies line_ok(#[trigger] h[k]) by {
        if k == 0 {
        } else if k == 1 {
        } else if k == 2 {
        } else if k == 3 {
        } else if k == 4 {
        } else if k == 5 {
        } else if k == 6 {
        } else {
        }
    }
}

proof fn lemma_decimal_one_line(n: nat)
    ensures
        one_line(decimal(n)),
    decreases n,
{
    if n >= 10 {
        lemma_decimal_one_line(n / 10);
        let d = decimal(n / 10);
        let s = decimal(n);
        assert forall|i: int| 0 <= i < s.len() implies #[trigger] s[i] != '\n' by {
            if i < d.len() {
                assert(s[i] == d[i]);
            }
        }
    }
}

proof fn lemma_sectors(pcts: Seq<Seq<char>>, key: Seq<char>)
    requires
        forall|k: int| 0 <= k < pcts.len() ==> plain(#[trigger] pcts[k]),
        no_colon(key),
    ensures
        lines_ok(sector_lines(pcts)),
        sector_lines(pcts).len() == 2 * pcts.len(),
        key != "SectorNum"@ && key != "SectorStartPct"@ ==> forall|k: int|
            0 <= k < sector_lines(pcts).len() ==> yaml_line_value(
                #[trigger] sector_lines(pcts)[k],
                key,
            ) is None,
        key == "SectorStartPct"@ ==> line_values(sector_lines(pcts), key) == pcts,
    decreases pcts.len(),
{
    if pcts.len() == 0 {
        assert(line_values(sector_lines(pcts), key) =~= pcts);
    } else {
        let n = pcts.len();
        let pre = pcts.drop_last();
        assert forall|k: int| 0 <= k < pre.len() implies plain(#[trigger] pre[k]) by {
            assert(pre[k] == pcts[k]);
        }
        lemma_sectors(pre, key);
        lemma_keys();
        reveal_strlit(" - SectorNum: ");
        reveal_strlit("   SectorStartPct: ");
        reveal_strlit("SectorNum");
        reveal_strlit("SectorStartPct");
        reveal_strlit(" - ");
        reveal_strlit("   ");
        reveal_strlit(": ");
        let a = sector_lines(pre);
        let num = " - SectorNum: "@ + decimal((n - 1) as nat) + "\n"@;
        let pct = "   SectorStartPct: "@ + pcts.last() + "\n"@;
        let two = seq![num, pct];
        assert(sector_lines(pcts) == a + two);
        lemma_decimal_one_line((n - 1) as nat);
        assert(num =~= " - "@ + "SectorNum"@ + ": "@ + decimal((n - 1) as nat) + "\n"@);
        lemma_item_line("SectorNum"@, decimal((n - 1) as nat), key);
        assert(plain(pcts[n - 1]));
        assert(pct =~= "   "@ + "SectorStartPct"@ + ": "@ + pcts.last() + "\n"@);
        lemma_value_line("   "@, "SectorStartPct"@, pcts.last(), key);
        lemma_trim_padded(pcts.last());
        let all = a + two;
        assert forall|k: int| 0 <= k < all.len() implies line_ok(#[trigger] all[k]) by {
            if k < a.len() {
                assert(all[k] == a[k]);
            } else if k == a.len() {
                assert(all[k] == num);
            } else {
                assert(all[k] == pct);
            }
        }
        if key != "SectorNum"@ && key != "SectorStartPct"@ {
            assert forall|k: int| 0 <= k < all.len() implies yaml_line_value(
                #[trigger] all[k],
                key,
            ) is None by {
                if k < a.len() {
                    assert(all[k] == a[k]);
                } else if k == a.len() {
                    assert(all[k] == num);
                } else {
                    assert(all[k] == pct);
                }
            }
        }
        if key == "SectorStartPct"@ {
            lemma_line_values_append(a, two, key);
            assert("SectorNum"@.len() != "SectorStartPct"@.len());
            lemma_values_single(num, key);
            assert(two.drop_last() =~= seq![num]);
            assert(two.last() == pct);
            assert(line_values(two, key) =~= seq![pcts.last()]);
            assert(pre + seq![pcts.last()] =~= pcts);
        }
    }
}

proof fn lemma_drivers(car: Seq<char>, key: Seq<char>)
    requires
        plain(car),
        no_colon(key),
    ensures
        lines_ok(driver_lines(car)),
        driver_lines(car).len() == 7,
        yaml_line_value(driver_lines(car)[0], key) == if key == "DriverInfo"@ {
            Some(Seq::<char>::empty())
        } else {
            None::<Seq<char>>
        },
        yaml_line_value(driver_lines(car)[1], key) == if key == "DriverCarIdx"@ {
            Some("0"@)
        } else {
            None::<Seq<char>>
        },
        yaml_line_value(driver_lines(car)[2], key) == if key == "Drivers"@ {
            Some(Seq::<char>::empty())
        } else {
            None::<Seq<char>>
        },
        yaml_line_value(driver_lines(car)[3], key) == if key == "CarIdx"@ {
            Some("0"@)
        } else {
            None::<Seq<char>>
        },
        key != "UserName"@ ==> yaml_line_value(driver_lines(car)[4], key) is None,
        yaml_line_value(driver_lines(car)[5], key) == if key == "CarScreenName"@ {
            Some(car)
        } else {
            None::<Seq<char>>
        },
        yaml_line_value(driver_lines(car)[6], key) is None,
{
    let d = driver_lines(car);
    lemma_keys();
    reveal_strlit("DriverInfo:\n");
    reveal_strlit(" DriverCarIdx: 0\n");
    reveal_strlit(" Drivers:\n");
    reveal_strlit(" - CarIdx: 0\n");
    reveal_strlit("   UserName: Test Driver\n");
    reveal_strlit("   CarScreenName: ");
    reveal_strlit("...\n");
    reveal_strlit("DriverInfo");
    reveal_strlit("DriverCarIdx");
    reveal_strlit("Drivers");
    reveal_strlit("CarIdx");
    reveal_strlit("UserName");
    reveal_strlit("CarScreenName");
    reveal_strlit("Test Driver");
    reveal_strlit("0");
    reveal_strlit(":\n");
    reveal_strlit(": ");
    reveal_strlit(" ");
    reveal_strlit("   ");
    reveal_strlit(" - ");
    reveal_strlit("\n");
    let e = Seq::<char>::empty();
    assert(plain("0"@)) by {
        assert(trim_start_spec("0"@) == "0"@);
        assert(trim_end_spec("0"@) == "0"@);
    }
    assert(d[0] =~= e + "DriverInfo"@ + ":\n"@);
    lemma_flag_line(e, "DriverInfo"@, key);
    assert(d[1] =~= " "@ + "DriverCarIdx"@ + ": "@ + "0"@ + "\n"@);
    lemma_value_line(" "@, "DriverCarIdx"@, "0"@, key);
    lemma_trim_padded("0"@);
    assert(d[2] =~= " "@ + "Drivers"@ + ":\n"@);
    lemma_flag_line(" "@, "Drivers"@, key);
    assert(d[3] =~= " - "@ + "CarIdx"@ + ": "@ + "0"@ + "\n"@);
    lemma_item_line("CarIdx"@, "0"@, key);
    assert(one_line("Test Driver"@));
    assert(d[4] =~= "   "@ + "UserName"@ + ": "@ + "Test Driver"@ + "\n"@);
    lemma_value_line("   "@, "UserName"@, "Test Driver"@, key);
    assert(d[5] =~= "   "@ + "CarScreenName"@ + ": "@ + car + "\n"@);
    lemma_value_line("   "@, "CarScreenName"@, car, key);
    lemma_trim_padded(car);
    let l6 = d[6];
    assert(l6 =~= seq!['.', '.', '.', '\n']);
    lemma_body_flush(l6);
    lemma_unkeyed_body(l6, key);
    assert forall|k: int| 0 <= k < d.len() implies line_ok(#[trigger] d[k]) by {
        if k == 0 {
        } else if k == 1 {
        } else if k == 2 {
        } else if k == 3 {
        } else if k == 4 {
        } else if k == 5 {
        } else {
        }
    }
}

proof fn lemma_values_none(lines: Seq<Seq<char>>, key: Seq<char>)
    requires
        forall|k: int| 0 <= k < lines.len() ==> yaml_line_value(#[trigger] lines[k], key) is None,
    ensures
        line_values(lines, key) == Seq::<Seq<char>>::empty(),
    decreases lines.len(),
{
    if lines.len() > 0 {
        let pre = lines.drop_last();
        assert forall|k: int| 0 <= k < pre.len() implies yaml_line_value(#[trigger] pre[k], key)
            is None by {
            assert(pre[k] == lines[k]);
        }
        lemma_values_none(pre, key);
        assert(yaml_line_value(lines[lines.len() - 1], key) is None);
    }
}

/// Where the scan for `key` goes on after the first occurrence of `kk:`, when line `m`
/// starts with `kk:`: the occurrence lies on some line `k` at or before `m`, and the
/// scan skips the rest of that line.
proof fn lemma_after_marker(lines: Seq<Seq<char>>, key: Seq<char>, kk: Seq<char>, m: int) -> (k:
    int)
    requires
        lines_ok(lines),
        0 <= m < lines.len(),
        key_ok(kk),
        no_colon(key),
        key != kk,
        lines[m].len() >= kk.len() + 1,
        lines[m].take((kk.len() + 1) as int) == kk.push(':'),
    ensures
        0 <= k <= m,
        find_from(join_lines(lines), kk.push(':'), 0) matches Some(p) && p < line_start(
            lines,
            k + 1,
        ) && yaml_value_spec(join_lines(lines), key, p) == yaml_value_spec(
            join_lines(lines),
            key,
            line_start(lines, k + 1),
        ) && values_from(join_lines(lines), key, p) == values_from(
            join_lines(lines),
            key,
            line_start(lines, k + 1),
        ),
{
    let text = join_lines(lines);
    let pat = kk.push(':');
    let m_len = pat.len() as int;
    let q = line_start(lines, m);
    lemma_line_slice(lines, m);
    assert(text.subrange(q, q + m_len) =~= pat) by {
        assert(text.subrange(q, q + m_len) =~= text.subrange(q, line_start(lines, m + 1)).take(
            m_len,
        ));
    }
    lemma_find_from_some(text, pat, 0, q);
    let p = find_from(text, pat, 0)->Some_0;
    let k = lemma_locate(lines, p);
    if k > m {
        lemma_lines_slice(lines, m + 1, k);
        assert(false);
    }
    lemma_mid_line_end(lines, p, k);
    let e = line_start(lines, k + 1);
    assert forall|j: int| p <= j < p + m_len implies #[trigger] text[j] != '\n' by {
        assert(text[j] == text.subrange(p, p + m_len)[j - p]);
        assert(pat[j - p] != '\n') by {
            if j - p < kk.len() {
                assert(pat[j - p] == kk[j - p]);
            }
        }
    }
    lemma_line_end_past(text, p, p + m_len);
    lemma_line_slice(lines, k);
    let partial = text.subrange(p, e);
    assert(partial.take(m_len) =~= pat);
    assert(partial[0] == kk[0]);
    lemma_body_flush(partial);
    assert(partial =~= kk + seq![':'] + partial.skip(m_len));
    lemma_keyed_body(partial, kk, partial.skip(m_len), key);
    assert(yaml_value_spec(text, key, p) == yaml_value_spec(text, key, e));
    crate::session_info::lemma_yaml_value_advances(text, key, e);
    k
}

#[verifier::rlimit(40)]
#[verifier::spinoff_prover]
/// Law: the session info written into a fixture reads back as the values it was written
/// with. Its track name, display name, configuration and length, its sector start points
/// and its car are found again, for any values on one line without surrounding whitespace
/// (the only shape in which the scanner hands a value out).
pub proof fn lemma_fixture_session_reads_back(
    name: Seq<char>,
    display: Seq<char>,
    config: Seq<char>,
    length: Seq<char>,
    pcts: Seq<Seq<char>>,
    car: Seq<char>,
)
    requires
        plain(name),
        plain(display),
        plain(config),
        plain(length),
        forall|k: int| 0 <= k < pcts.len() ==> plain(#[trigger] pcts[k]),
        plain(car),
    ensures
        value_or_empty(
            join_lines(fixture_lines(name, display, config, length, pcts, car)),
            "TrackName"@,
        ) == name,
        value_or_empty(
            join_lines(fixture_lines(name, display, config, length, pcts, car)),
            "TrackDisplayName"@,
        ) == display,
        value_or_empty(
            join_lines(fixture_lines(name, display, config, length, pcts, car)),
            "TrackConfigName"@,
        ) == config,
        value_or_empty(
            join_lines(fixture_lines(name, display, config, length, pcts, car)),
            "TrackLength"@,
        ) == length,
        sector_starts_spec(join_lines(fixture_lines(name, display, config, length, pcts, car)))
            == pcts,
        car_spec(join_lines(fixture_lines(name, display, config, length, pcts, car))) == car,
{
    let h = head_lines(name, display, config, length);
    let sl = sector_lines(pcts);
    let d = driver_lines(car);
    let lines = fixture_lines(name, display, config, length, pcts, car);
    let text = join_lines(lines);
    let n = pcts.len() as int;
    let s0 = 8 + 2 * n;
    reveal_strlit("WeekendInfo");
    reveal_strlit("TrackName");
    reveal_strlit("TrackDisplayName");
    reveal_strlit("TrackConfigName");
    reveal_strlit("TrackLength");
    reveal_strlit("SplitTimeInfo");
    reveal_strlit("Sectors");
    reveal_strlit("SectorNum");
    reveal_strlit("SectorStartPct");
    reveal_strlit("DriverInfo");
    reveal_strlit("DriverCarIdx");
    reveal_strlit("Drivers");
    reveal_strlit("CarIdx");
    reveal_strlit("UserName");
    reveal_strlit("CarScreenName");
    reveal_strlit("SplitTimeInfo:");
    reveal_strlit("DriverInfo:");
    reveal_strlit("SplitTimeInfo:\n");
    reveal_strlit("DriverInfo:\n");
    reveal_strlit("0");
    lemma_keys();
    assert(lines == h + sl + d);
    // every line is complete
    lemma_head(name, display, config, length, "TrackName"@);
    lemma_sectors(pcts, "TrackName"@);
    lemma_drivers(car, "TrackName"@);
    assert(lines.len() == s0 + 7);
    assert forall|k: int| 0 <= k < lines.len() implies line_ok(#[trigger] lines[k]) by {
        if k < 8 {
            assert(lines[k] == h[k]);
        } else if k < s0 {
            assert(lines[k] == sl[k - 8]);
        } else {
            assert(lines[k] == d[k - s0]);
        }
    }
    assert(lines.take(0) =~= Seq::<Seq<char>>::empty());
    assert(line_start(lines, 0) == 0);
    // the track keys, on lines 2 to 5
    assert(yaml_value_spec(text, "TrackName"@, 0) == Some((name, line_start(lines, 3)))) by {
        lemma_head(name, display, config, length, "TrackName"@);
        lemma_first_hit(lines, "TrackName"@, 0, 2);
    }
    assert(yaml_value_spec(text, "TrackDisplayName"@, 0) == Some((display, line_start(lines, 4))))
        by {
        lemma_head(name, display, config, length, "TrackDisplayName"@);
        lemma_first_hit(lines, "TrackDisplayName"@, 0, 3);
    }
    assert(yaml_value_spec(text, "TrackConfigName"@, 0) == Some((config, line_start(lines, 5))))
        by {
        lemma_head(name, display, config, length, "TrackConfigName"@);
        lemma_first_hit(lines, "TrackConfigName"@, 0, 4);
    }
    assert(yaml_value_spec(text, "TrackLength"@, 0) == Some((length, line_start(lines, 6)))) by {
        lemma_head(name, display, config, length, "TrackLength"@);
        assert("TrackLength"@[0] != "WeekendInfo"@[0]);
        lemma_first_hit(lines, "TrackLength"@, 0, 5);
    }
    // the sector start points, after the line `SplitTimeInfo:`
    assert(sector_starts_spec(text) == pcts) by {
        let key = "SectorStartPct"@;
        lemma_head(name, display, config, length, key);
        lemma_sectors(pcts, key);
        lemma_drivers(car, key);
        assert(lines[6] == h[6]);
        assert(lines[6].take(14) =~= "SplitTimeInfo"@.push(':'));
        assert("SplitTimeInfo"@.push(':') =~= "SplitTimeInfo:"@);
        let k = lemma_after_marker(lines, key, "SplitTimeInfo"@, 6);
        let rest = lines.skip(k + 1);
        lemma_lines_slice(lines, k + 1, lines.len() as int);
        assert(lines.subrange(k + 1, lines.len() as int) =~= rest);
        assert(lines.take(lines.len() as int) =~= lines);
        assert(lines_ok(rest)) by {
            assert forall|j: int| 0 <= j < rest.len() implies line_ok(#[trigger] rest[j]) by {
                assert(rest[j] == lines[k + 1 + j]);
            }
        }
        lemma_values_to_end(text, key, line_start(lines, k + 1), rest);
        let front = lines.take(k + 1);
        assert forall|j: int| 0 <= j < front.len() implies yaml_line_value(
            #[trigger] front[j],
            key,
        ) is None by {
            assert(front[j] == h[j]);
        }
        lemma_values_none(front, key);
        lemma_line_values_append(front, rest, key);
        assert(front + rest =~= lines);
        assert forall|j: int| 0 <= j < h.len() implies yaml_line_value(#[trigger] h[j], key)
            is None by {}
        lemma_values_none(h, key);
        assert forall|j: int| 0 <= j < d.len() implies yaml_line_value(#[trigger] d[j], key)
            is None by {}
        lemma_values_none(d, key);
        lemma_line_values_append(h, sl, key);
        lemma_line_values_append(h + sl, d, key);
        assert(line_values(lines, key) =~= pcts);
    }
    // the car, from the driver list
    assert(yaml_value_spec(text, "DriverCarIdx"@, 0) == Some(("0"@, line_start(lines, s0 + 2))))
        by {
        let key = "DriverCarIdx"@;
        lemma_head(name, display, config, length, key);
        lemma_sectors(pcts, key);
        lemma_drivers(car, key);
        assert forall|j: int| 0 <= j < s0 + 1 implies yaml_line_value(#[trigger] lines[j], key)
            is None by {
            if j < 8 {
                assert(lines[j] == h[j]);
            } else if j < s0 {
                assert(lines[j] == sl[j - 8]);
            } else {
                assert(lines[j] == d[0]);
            }
        }
        assert(lines[s0 + 1] == d[1]);
        lemma_first_hit(lines, key, 0, s0 + 1);
    }
    assert(car_spec(text) == car) by {
        let key = "CarIdx"@;
        lemma_head(name, display, config, length, key);
        lemma_sectors(pcts, key);
        lemma_drivers(car, key);
        assert(lines[s0] == d[0]);
        assert(lines[s0].take(11) =~= "DriverInfo"@.push(':'));
        assert("DriverInfo"@.push(':') =~= "DriverInfo:"@);
        let k = lemma_after_marker(lines, key, "DriverInfo"@, s0);
        assert forall|j: int| k + 1 <= j < s0 + 3 implies yaml_line_value(
            #[trigger] lines[j],
            key,
        ) is None by {
            if j < 8 {
                assert(lines[j] == h[j]);
            } else if j < s0 {
                assert(lines[j] == sl[j - 8]);
            } else {
                assert(lines[j] == d[j - s0]);
            }
        }
        assert(lines[s0 + 3] == d[3]);
        lemma_first_hit(lines, key, k + 1, s0 + 3);
        let screen = "CarScreenName"@;
        lemma_drivers(car, screen);
        assert(lines[s0 + 4] == d[4]);
        assert(lines[s0 + 5] == d[5]);
        lemma_first_hit(lines, screen, s0 + 4, s0 + 5);
    }
}

/// No line break in `s` but, possibly, its last character.
spec fn ends_line(s: Seq<char>) -> bool {
    forall|i: int| 0 <= i < s.len() - 1 ==> #[trigger] s[i] != '\n'
}

proof fn lemma_ends_line_skip(s: Seq<char>, c: int)
    requires
        ends_line(s),
        0 <= c <= s.len(),
    ensures
        ends_line(s.skip(c)),
{
    assert forall|i: int| 0 <= i < s.skip(c).len() - 1 implies #[trigger] s.skip(c)[i] != '\n' by {
        assert(s.skip(c)[i] == s[i + c]);
    }
}

proof fn lemma_ends_line_trim_start(s: Seq<char>)
    requires
        ends_line(s),
    ensures
        ends_line(trim_start_spec(s)),
    decreases s.len(),
{
    if s.len() > 0 && is_ws(s[0]) {
        lemma_ends_line_skip(s, 1);
        assert(s.skip(1) =~= s.drop_first());
        lemma_ends_line_trim_start(s.drop_first());
    }
}

proof fn lemma_ends_line_marker(s: Seq<char>)
    requires
        ends_line(s),
    ensures
        ends_line(trim_start_matches_spec(s, item_marker())),
    decreases s.len(),
{
    if s.len() >= 2 && s.take(2) == item_marker() {
        lemma_ends_line_skip(s, 2);
        lemma_ends_line_marker(s.skip(2));
    }
}

/// A value trimmed out of a line holds no line break.
proof fn lemma_trim_one_line(s: Seq<char>)
    requires
        ends_line(s),
    ensures
        plain(trim_spec(s)),
{
    let t = trim_start_spec(s);
    lemma_ends_line_trim_start(s);
    let r = trim_end_spec(t);
    crate::text::lemma_trim_end_shape(t);
    assert forall|i: int| 0 <= i < r.len() implies #[trigger] r[i] != '\n' by {
        assert(r[i] == t[i]);
        if i == r.len() - 1 {
            assert(is_ws('\n'));
        }
    }
    crate::text::lemma_trim_idempotent(s);
}

/// Values the scanner hands out are plain.
proof fn lemma_line_value_plain(line: Seq<char>, key: Seq<char>)
    requires
        ends_line(line),
    ensures
        yaml_line_value(line, key) matches Some(v) ==> plain(v),
{
    lemma_ends_line_trim_start(line);
    lemma_ends_line_marker(trim_start_spec(line));
    let body = line_body(line);
    let pat = key.push(':');
    if body.len() >= pat.len() && body.take(pat.len() as int) == pat {
        lemma_ends_line_skip(body, pat.len() as int);
        lemma_trim_one_line(body.skip(pat.len() as int));
    }
}

proof fn lemma_line_breaks(text: Seq<char>, pos: int)
    requires
        0 <= pos <= text.len(),
    ensures
        forall|j: int| pos <= j < line_end(text, pos) - 1 ==> #[trigger] text[j] != '\n',
    decreases text.len() - pos,
{
    if pos < text.len() && text[pos] != '\n' {
        lemma_line_breaks(text, pos + 1);
    }
}

proof fn lemma_yaml_value_plain(text: Seq<char>, key: Seq<char>, pos: int)
    ensures
        yaml_value_spec(text, key, pos) matches Some((v, _)) ==> plain(v),
    decreases text.len() - pos,
{
    if 0 <= pos < text.len() {
        let end = line_end(text, pos);
        crate::session_info::lemma_line_end_advances(text, pos);
        lemma_line_breaks(text, pos);
        let line = text.subrange(pos, end);
        assert forall|i: int| 0 <= i < line.len() - 1 implies #[trigger] line[i] != '\n' by {
            assert(line[i] == text[pos + i]);
        }
        lemma_line_value_plain(line, key);
        lemma_yaml_value_plain(text, key, end);
    }
}

proof fn lemma_empty_plain()
    ensures
        plain(Seq::<char>::empty()),
{
    assert(trim_start_spec(Seq::<char>::empty()) == Seq::<char>::empty());
    assert(trim_end_spec(Seq::<char>::empty()) == Seq::<char>::empty());
}

proof fn lemma_value_or_empty_plain(text: Seq<char>, key: Seq<char>)
    ensures
        plain(value_or_empty(text, key)),
{
    lemma_yaml_value_plain(text, key, 0);
    lemma_empty_plain();
}

proof fn lemma_car_from_plain(text: Seq<char>, idx: Seq<char>, pos: int)
    ensures
        plain(car_from(text, idx, pos)),
    decreases text.len() - pos,
{
    lemma_empty_plain();
    match yaml_value_spec(text, "CarIdx"@, pos) {
        Some((v, next)) => {
            if v == idx {
                lemma_yaml_value_plain(text, "CarScreenName"@, next);
            } else if pos < next <= text.len() {
                lemma_car_from_plain(text, idx, next);
            }
        },
        None => {},
    }
}

/// Law: the session info of a fixture made from the recorded session info `recorded`
/// reads back with the recorded track name, display name, configuration, length and car,
/// and with the sector start points it was given (when each is on one line, without
/// surrounding whitespace).
pub proof fn lemma_fixture_yaml_keeps_track(recorded: Seq<char>, pcts: Seq<Seq<char>>)
    requires
        forall|k: int| 0 <= k < pcts.len() ==> plain(#[trigger] pcts[k]),
    ensures
        value_or_empty(fixture_yaml_spec(recorded, pcts), "TrackName"@) == value_or_empty(
            recorded,
            "TrackName"@,
        ),
        value_or_empty(fixture_yaml_spec(recorded, pcts), "TrackDisplayName"@)
            == value_or_empty(recorded, "TrackDisplayName"@),
        value_or_empty(fixture_yaml_spec(recorded, pcts), "TrackConfigName"@)
            == value_or_empty(recorded, "TrackConfigName"@),
        value_or_empty(fixture_yaml_spec(recorded, pcts), "TrackLength"@) == value_or_empty(
            recorded,
            "TrackLength"@,
        ),
        sector_starts_spec(fixture_yaml_spec(recorded, pcts)) == pcts,
        car_spec(fixture_yaml_spec(recorded, pcts)) == car_spec(recorded),
{
    lemma_value_or_empty_plain(recorded, "TrackName"@);
    lemma_value_or_empty_plain(recorded, "TrackDisplayName"@);
    lemma_value_or_empty_plain(recorded, "TrackConfigName"@);
    lemma_value_or_empty_plain(recorded, "TrackLength"@);
    lemma_empty_plain();
    match (find_from(recorded, "DriverInfo:"@, 0), yaml_value_spec(recorded, "DriverCarIdx"@, 0)) {
        (Some(d), Some((idx, _))) => {
            lemma_car_from_plain(recorded, idx, d);
        },
        _ => {},
    }
    lemma_fixture_session_reads_back(
        value_or_empty(recorded, "TrackName"@),
        value_or_empty(recorded, "TrackDisplayName"@),
        value_or_empty(recorded, "TrackConfigName"@),
        value_or_empty(recorded, "TrackLength"@),
        pcts,
        car_spec(recorded),
    );
}

} // verus!
