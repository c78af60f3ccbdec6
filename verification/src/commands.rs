//! Finding a program on the search path: which file names to try in each folder. On
//! Windows a command without an extension is also tried with each extension that
//! `PATHEXT` lists.

use vstd::prelude::*;

use crate::text::{
    ascii_lowercase, chars_of, copy_range, lowercase_ascii, push_chars, push_str,
    string_from_chars, trim_bounds, trim_spec,
};

verus! {

/// The pieces of `s` between the separators `sep`, as `str::split` yields them.
pub open spec fn split_spec(s: Seq<char>, sep: char) -> Seq<Seq<char>>
    decreases s.len(),
{
    if s.len() == 0 {
        seq![Seq::<char>::empty()]
    } else {
        let rest = split_spec(s.drop_last(), sep);
        if s.last() == sep {
            rest.push(Seq::<char>::empty())
        } else {
            rest.update(rest.len() - 1, rest.last().push(s.last()))
        }
    }
}

/// The pieces that are not blank, trimmed and in lower case.
pub open spec fn extensions_of(pieces: Seq<Seq<char>>) -> Seq<Seq<char>>
    decreases pieces.len(),
{
    if pieces.len() == 0 {
        Seq::empty()
    } else {
        let kept = extensions_of(pieces.drop_last());
        let t = trim_spec(pieces.last());
        if t.len() > 0 {
            kept.push(ascii_lowercase(t))
        } else {
            kept
        }
    }
}

/// The extensions a `PATHEXT` value lists, in its order.
pub open spec fn pathext_spec(pathext: Seq<char>) -> Seq<Seq<char>> {
    extensions_of(split_spec(pathext, ';'))
}

proof fn lemma_split_len(s: Seq<char>, sep: char)
    ensures
        split_spec(s, sep).len() >= 1,
    decreases s.len(),
{
    if s.len() > 0 {
        lemma_split_len(s.drop_last(), sep);
    }
}

fn lowered_piece(t: &[char], a: usize, b: usize) -> (piece: String)
    requires
        a <= b <= t@.len(),
    ensures
        piece@ == ascii_lowercase(t@.subrange(a as int, b as int)),
{
    let raw = string_from_chars(copy_range(t, a, b).as_slice());
    string_from_chars(lowercase_ascii(raw.as_str()).as_slice())
}

/// The extensions listed in a `PATHEXT` value: split at `;`, blank ones dropped, each
/// trimmed and lowered.
pub fn pathext_extensions(pathext: &str) -> (exts: Vec<String>)
    ensures
        exts@.map_values(|e: String| e@) == pathext_spec(pathext@),
{
    let v = chars_of(pathext);
    let t = v.as_slice();
    let n = t.len();
    let mut out: Vec<String> = Vec::new();
    let mut start: usize = 0;
    let mut i: usize = 0;
    let ghost mut done: Seq<Seq<char>> = Seq::empty();
    assert(t@.take(0) =~= Seq::<char>::empty());
    assert(split_spec(t@.take(0), ';') =~= done.push(t@.subrange(0, 0)));
    while i < n
        invariant
            n == t@.len(),
            start <= i <= n,
            split_spec(t@.take(i as int), ';') == done.push(t@.subrange(start as int, i as int)),
            out@.map_values(|e: String| e@) == extensions_of(done),
        decreases n - i,
    {
        let ghost before = t@.take(i as int);
        assert(t@.take(i + 1).drop_last() =~= before);
        assert(t@.take(i + 1).last() == t@[i as int]);
        if t[i] == ';' {
            let (a, b) = trim_bounds(t, start, i);
            let ghost piece = t@.subrange(start as int, i as int);
            proof {
                assert(extensions_of(done.push(piece)).len() >= 0);
                assert(done.push(piece).drop_last() =~= done);
            }
            if a < b {
                let e = lowered_piece(t, a, b);
                let ghost prev = out@.map_values(|e: String| e@);
                out.push(e);
                assert(out@.map_values(|e: String| e@) =~= prev.push(ascii_lowercase(trim_spec(piece))));
            }
            proof {
                done = done.push(piece);
                assert(t@.subrange(i + 1, i + 1) =~= Seq::<char>::empty());
                assert(split_spec(t@.take(i + 1), ';') =~= done.push(t@.subrange(i + 1, i + 1)));
            }
            start = i + 1;
        } else {
            proof {
                lemma_split_len(before, ';');
                assert(t@.subrange(start as int, i + 1) =~= t@.subrange(start as int, i as int).push(
                    t@[i as int],
                ));
                assert(split_spec(t@.take(i + 1), ';') =~= done.push(t@.subrange(start as int, i + 1)));
            }
        }
        i = i + 1;
    }
    let (a, b) = trim_bounds(t, start, n);
    let ghost last = t@.subrange(start as int, n as int);
    proof {
        assert(t@.take(n as int) =~= t@);
        assert(done.push(last).drop_last() =~= done);
    }
    if a < b {
        let e = lowered_piece(t, a, b);
        let ghost prev = out@.map_values(|e: String| e@);
        out.push(e);
        assert(out@.map_values(|e: String| e@) =~= prev.push(ascii_lowercase(trim_spec(last))));
    }
    out
}

/// The file names to try for `command` in each folder of the search path: the command
/// itself, then, when `with_extensions` holds (a Windows command without an extension),
/// the command with each of `exts` appended.
pub open spec fn command_names_spec(
    command: Seq<char>,
    with_extensions: bool,
    exts: Seq<Seq<char>>,
) -> Seq<Seq<char>> {
    if with_extensions {
        seq![command] + exts.map_values(|e: Seq<char>| command + e)
    } else {
        seq![command]
    }
}

/// The file names to try for `command` in each folder of the search path.
pub fn command_names(command: &str, with_extensions: bool, exts: &[String]) -> (names: Vec<String>)
    ensures
        names@.map_values(|s: String| s@) == command_names_spec(
            command@,
            with_extensions,
            exts@.map_values(|e: String| e@),
        ),
{
    let mut out: Vec<String> = Vec::new();
    out.push(string_from_chars(chars_of(command).as_slice()));
    let ghost ev = exts@.map_values(|e: String| e@);
    if with_extensions {
        let mut i: usize = 0;
        while i < exts.len()
            invariant
                i <= exts@.len(),
                ev == exts@.map_values(|e: String| e@),
                out@.map_values(|s: String| s@) == seq![command@] + ev.take(i as int).map_values(
                    |e: Seq<char>| command@ + e,
                ),
            decreases exts@.len() - i,
        {
            let mut name: Vec<char> = Vec::new();
            push_str(&mut name, command);
            push_chars(&mut name, chars_of(exts[i].as_str()).as_slice());
            let ghost prev = out@.map_values(|s: String| s@);
            out.push(string_from_chars(name.as_slice()));
            proof {
                assert(ev[i as int] == exts@[i as int]@);
                assert(name@ == command@ + ev[i as int]);
                assert(out@.map_values(|s: String| s@) =~= prev.push(name@));
                assert(ev.take(i + 1) =~= ev.take(i as int).push(ev[i as int]));
                assert(ev.take(i + 1).map_values(|e: Seq<char>| command@ + e) =~= ev.take(
                    i as int,
                ).map_values(|e: Seq<char>| command@ + e).push(command@ + ev[i as int]));
                assert(out@.map_values(|s: String| s@) =~= seq![command@] + ev.take(i + 1).map_values(
                    |e: Seq<char>| command@ + e,
                ));
            }
            i = i + 1;
        }
        assert(ev.take(i as int) =~= ev);
    } else {
        assert(out@.map_values(|s: String| s@) =~= seq![command@]);
    }
    out
}

} // verus!
