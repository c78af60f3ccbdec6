//! Cleaning up what the local coach model prints, and choosing the feedback to show.

use vstd::prelude::*;

use crate::text::{
    chars_of, push_chars, push_str, string_from_chars, trim_bounds, trim_char_bounds,
    trim_char_spec, trim_spec,
};

verus! {

/// The escape character that starts a terminal control sequence.
pub open spec fn is_escape(c: char) -> bool {
    c as u32 == 0x1b
}

/// A byte that ends a CSI sequence: `'@'` through `'~'`.
pub open spec fn is_csi_final(c: char) -> bool {
    0x40 <= c as u32 <= 0x7e
}

/// One past the end of a CSI sequence whose parameters start at `i`: just after the first
/// final byte, or the end of the text when there is none.
pub open spec fn csi_end(s: Seq<char>, i: int) -> int
    decreases s.len() - i,
{
    if i >= s.len() {
        s.len() as int
    } else if is_csi_final(s[i]) {
        i + 1
    } else {
        csi_end(s, i + 1)
    }
}

/// `s[i..]` with terminal escape sequences removed: an escape followed by `'['` drops the
/// whole CSI sequence, any other escape is dropped alone.
pub open spec fn strip_ansi_from(s: Seq<char>, i: int) -> Seq<char>
    decreases s.len() - i,
{
    if i < 0 || i >= s.len() {
        Seq::empty()
    } else if is_escape(s[i]) {
        if i + 1 < s.len() && s[i + 1] == '[' {
            let e = csi_end(s, i + 2);
            if i < e <= s.len() {
                strip_ansi_from(s, e)
            } else {
                Seq::empty()
            }
        } else {
            strip_ansi_from(s, i + 1)
        }
    } else {
        seq![s[i]] + strip_ansi_from(s, i + 1)
    }
}

/// `s` with terminal escape sequences (spinner, cursor moves) removed.
pub open spec fn strip_ansi_spec(s: Seq<char>) -> Seq<char> {
    strip_ansi_from(s, 0)
}

proof fn lemma_csi_end(s: Seq<char>, i: int)
    requires
        0 <= i,
    ensures
        i <= csi_end(s, i) <= s.len() || (i > s.len() && csi_end(s, i) == s.len()),
        i < s.len() ==> i < csi_end(s, i),
    decreases s.len() - i,
{
    if i < s.len() && !is_csi_final(s[i]) {
        lemma_csi_end(s, i + 1);
    }
}

/// Removes terminal escape sequences (spinner, cursor moves) that the coach model writes
/// to its output.
pub fn strip_ansi(text: &str) -> (out: String)
    ensures
        out@ == strip_ansi_spec(text@),
{
    let s = chars_of(text);
    let n = s.len();
    let mut out: Vec<char> = Vec::new();
    let mut i: usize = 0;
    while i < n
        invariant
            i <= n,
            n == s@.len(),
            strip_ansi_spec(s@) == out@ + strip_ansi_from(s@, i as int),
        decreases n - i,
    {
        let c = s[i];
        if c as u32 == 0x1b {
            if i + 1 < n && s[i + 1] == '[' {
                let mut j = i + 2;
                proof {
                    lemma_csi_end(s@, i + 2);
                }
                while j < n && !(0x40 <= s[j] as u32 && s[j] as u32 <= 0x7e)
                    invariant
                        i + 2 <= j <= n,
                        n == s@.len(),
                        csi_end(s@, i + 2) == csi_end(s@, j as int),
                    decreases n - j,
                {
                    j = j + 1;
                }
                if j < n {
                    j = j + 1;
                }
                i = j;
            } else {
                i = i + 1;
            }
        } else {
            let ghost before = out@;
            out.push(c);
            assert(before + strip_ansi_from(s@, i as int) =~= out@ + strip_ansi_from(
                s@,
                i + 1,
            ));
            i = i + 1;
        }
    }
    assert(strip_ansi_from(s@, i as int) =~= Seq::<char>::empty());
    assert(out@ + Seq::<char>::empty() =~= out@);
    string_from_chars(out.as_slice())
}

/// Law: cleaned output holds no escape character at all.
pub proof fn lemma_strip_ansi_removes_escapes(s: Seq<char>, i: int)
    ensures
        forall|j: int|
            0 <= j < strip_ansi_from(s, i).len() ==> !is_escape(#[trigger] strip_ansi_from(s, i)[j]),
    decreases s.len() - i,
{
    if 0 <= i < s.len() {
        if is_escape(s[i]) {
            if i + 1 < s.len() && s[i + 1] == '[' {
                let e = csi_end(s, i + 2);
                if i < e <= s.len() {
                    lemma_strip_ansi_removes_escapes(s, e);
                    assert(strip_ansi_from(s, i) == strip_ansi_from(s, e));
                }
            } else {
                lemma_strip_ansi_removes_escapes(s, i + 1);
                assert(strip_ansi_from(s, i) == strip_ansi_from(s, i + 1));
            }
        } else {
            lemma_strip_ansi_removes_escapes(s, i + 1);
            let rest = strip_ansi_from(s, i + 1);
            let all = strip_ansi_from(s, i);
            assert(all == seq![s[i]] + rest);
            assert forall|j: int| 0 <= j < all.len() implies !is_escape(#[trigger] all[j]) by {
                if j > 0 {
                    assert(all[j] == rest[j - 1]);
                }
            }
        }
    }
}

/// Law: text without escape characters passes through unchanged.
pub proof fn lemma_strip_ansi_keeps_plain_text(s: Seq<char>, i: int)
    requires
        0 <= i <= s.len(),
        forall|j: int| 0 <= j < s.len() ==> !is_escape(#[trigger] s[j]),
    ensures
        strip_ansi_from(s, i) == s.skip(i),
    decreases s.len() - i,
{
    if i < s.len() {
        lemma_strip_ansi_keeps_plain_text(s, i + 1);
        assert(s.skip(i) =~= seq![s[i]] + s.skip(i + 1));
    } else {
        assert(s.skip(i) =~= Seq::<char>::empty());
    }
}

/// `parts` joined with `sep` between neighbours.
pub open spec fn join_spec(parts: Seq<Seq<char>>, sep: Seq<char>) -> Seq<char>
    decreases parts.len(),
{
    if parts.len() == 0 {
        Seq::empty()
    } else if parts.len() == 1 {
        parts[0]
    } else {
        join_spec(parts.drop_last(), sep) + sep + parts.last()
    }
}

/// Joins `parts` with `sep` between neighbours.
pub fn join(parts: &[String], sep: &str) -> (joined: String)
    ensures
        joined@ == join_spec(parts@.map_values(|s: String| s@), sep@),
{
    let ghost all = parts@.map_values(|s: String| s@);
    let mut out: Vec<char> = Vec::new();
    let mut i: usize = 0;
    while i < parts.len()
        invariant
            i <= parts@.len(),
            all == parts@.map_values(|s: String| s@),
            out@ == join_spec(all.take(i as int), sep@),
        decreases parts@.len() - i,
    {
        if i > 0 {
            push_str(&mut out, sep);
        }
        push_str(&mut out, parts[i].as_str());
        proof {
            assert(all.take(i + 1).drop_last() =~= all.take(i as int));
            assert(all.take(i + 1).last() == parts@[i as int]@);
            if i == 0 {
                assert(all.take(1)[0] == parts@[0]@);
            }
        }
        i = i + 1;
    }
    assert(all.take(i as int) =~= all);
    string_from_chars(out.as_slice())
}

/// The model's reply as shown: escape sequences removed, then surrounding whitespace,
/// then surrounding double quotes, then whitespace again.
pub open spec fn clean_reply_spec(reply: Seq<char>) -> Seq<char> {
    trim_spec(trim_char_spec(trim_spec(strip_ansi_spec(reply)), '"'))
}

/// Cleans the coach model's printed reply for display.
pub fn clean_reply(reply: &str) -> (cleaned: String)
    ensures
        cleaned@ == clean_reply_spec(reply@),
{
    let stripped = chars_of(strip_ansi(reply).as_str());
    let s = stripped.as_slice();
    let (a, b) = trim_bounds(s, 0, s.len());
    let (c, d) = trim_char_bounds(s, a, b, '"');
    let (e, f) = trim_bounds(s, c, d);
    proof {
        assert(s@.subrange(0, s@.len() as int) =~= s@);
    }
    string_from_chars(crate::text::copy_range(s, e, f).as_slice())
}

/// What running the coach model gave.
#[derive(Clone, Debug, PartialEq, Eq)]
pub enum CoachOutcome {
    /// The model runner is not installed.
    NotInstalled,
    /// It could not be started, or it exited with a failure.
    Failed,
    /// It succeeded and printed this.
    Replied(String),
}

/// Shown when the model runner is not installed.
pub open spec fn no_coach_note() -> Seq<char> {
    "Ollama is not installed or not on PATH. Fallback analysis: focus on the sector where you lose the most time, and smooth your braking and throttle there."@
}

/// The feedback shown for a run: the model's cleaned reply; the run's own suggestions
/// joined by "; " when the model failed or replied with nothing; a fixed note when no
/// model runner is installed.
pub open spec fn coach_feedback_spec(outcome: CoachOutcome, suggestions: Seq<Seq<char>>) -> Seq<
    char,
> {
    match outcome {
        CoachOutcome::NotInstalled => no_coach_note(),
        CoachOutcome::Failed => join_spec(suggestions, "; "@),
        CoachOutcome::Replied(reply) => if clean_reply_spec(reply@).len() > 0 {
            clean_reply_spec(reply@)
        } else {
            join_spec(suggestions, "; "@)
        },
    }
}

/// Chooses the feedback text for a run from what the coach model gave.
pub fn coach_feedback(outcome: &CoachOutcome, suggestions: &[String]) -> (feedback: String)
    ensures
        feedback@ == coach_feedback_spec(*outcome, suggestions@.map_values(|s: String| s@)),
{
    match outcome {
        CoachOutcome::NotInstalled => {
            let mut v: Vec<char> = Vec::new();
            push_str(
                &mut v,
                "Ollama is not installed or not on PATH. Fallback analysis: focus on the sector where you lose the most time, and smooth your braking and throttle there.",
            );
            string_from_chars(v.as_slice())
        },
        CoachOutcome::Failed => join(suggestions, "; "),
        CoachOutcome::Replied(reply) => {
            let cleaned = clean_reply(reply.as_str());
            if cleaned.as_str().is_empty() {
                join(suggestions, "; ")
            } else {
                cleaned
            }
        },
    }
}

} // verus!
