//! Small decisions about recorded runs: where corner notes go among the suggestions, how a
//! run's track is labelled, how runs are named, and how edited turn labels are cleaned.

use vstd::prelude::*;

use crate::text::{
    chars_of, push_chars, push_decimal, push_str, string_from_chars, trim_bounds, trim_spec,
};

verus! {

/// Where corner notes go among the suggestions: right after the focus-sector suggestion
/// when there is one, otherwise first.
pub open spec fn notes_position(has_focus_sector: bool, suggestion_count: int) -> int {
    let at: int = if has_focus_sector {
        1
    } else {
        0
    };
    if at < suggestion_count {
        at
    } else {
        suggestion_count
    }
}

/// Adds corner findings to a summary's suggestions and keeps them as its corner notes.
/// The findings are the most specific advice available, so they lead the suggestions,
/// after the focus-sector suggestion when `has_focus_sector`.
pub fn add_corner_notes(
    suggestions: &mut Vec<String>,
    corner_notes: &mut Vec<String>,
    has_focus_sector: bool,
    notes: Vec<String>,
)
    ensures
        ({
            let at = notes_position(has_focus_sector, old(suggestions)@.len() as int);
            final(suggestions)@ == old(suggestions)@.take(at) + notes@ + old(suggestions)@.skip(
                at,
            )
        }),
        final(corner_notes)@ == notes@,
{
    let at: usize = if has_focus_sector {
        1
    } else {
        0
    };
    let at = if at < suggestions.len() {
        at
    } else {
        suggestions.len()
    };
    let ghost before = suggestions@;
    let mut i: usize = 0;
    while i < notes.len()
        invariant
            i <= notes@.len(),
            at <= before.len(),
            suggestions@ == before.take(at as int) + notes@.take(i as int) + before.skip(at as int),
        decreases notes@.len() - i,
    {
        let cur = suggestions.len();
        assert(at + i <= cur);
        suggestions.insert(at + i, notes[i].clone());
        i = i + 1;
        assert(suggestions@ =~= before.take(at as int) + notes@.take(i as int) + before.skip(
            at as int,
        ));
    }
    assert(notes@.take(i as int) =~= notes@);
    *corner_notes = notes;
}

/// A run's track label: the display name, with the configuration after a middle dot when
/// there is one; empty without a display name.
pub open spec fn track_label_spec(display_name: Seq<char>, config_name: Seq<char>) -> Seq<char> {
    if display_name.len() == 0 {
        Seq::empty()
    } else if config_name.len() == 0 {
        display_name
    } else {
        display_name + " · "@ + config_name
    }
}

/// The label shown for a run's track.
pub fn track_label(display_name: &str, config_name: &str) -> (label: String)
    ensures
        label@ == track_label_spec(display_name@, config_name@),
{
    let mut out: Vec<char> = Vec::new();
    if display_name.is_empty() {
        return string_from_chars(out.as_slice());
    }
    push_str(&mut out, display_name);
    if !config_name.is_empty() {
        push_str(&mut out, " · ");
        push_str(&mut out, config_name);
    }
    string_from_chars(out.as_slice())
}

/// The id of the `n`th stored run: "split-" and the number.
pub fn split_id(n: usize) -> (id: String)
    ensures
        id@ == "split-"@ + crate::text::decimal(n as nat),
{
    let mut out: Vec<char> = Vec::new();
    push_str(&mut out, "split-");
    push_decimal(&mut out, n);
    string_from_chars(out.as_slice())
}

/// An edited turn label as stored: without surrounding whitespace, at most 12 characters.
pub open spec fn turn_label_spec(label: Seq<char>) -> Seq<char> {
    let t = trim_spec(label);
    if t.len() <= 12 {
        t
    } else {
        t.take(12)
    }
}

/// Cleans an edited turn label.
pub fn clean_turn_label(label: &str) -> (clean: String)
    ensures
        clean@ == turn_label_spec(label@),
        clean@.len() <= 12,
{
    let v = chars_of(label);
    let (a, b) = trim_bounds(v.as_slice(), 0, v.len());
    assert(v@.subrange(0, v@.len() as int) =~= v@);
    let end = if b - a <= 12 {
        b
    } else {
        a + 12
    };
    string_from_chars(crate::text::copy_range(v.as_slice(), a, end).as_slice())
}

/// The coach model asked for, unless it is blank; else the default model.
pub open spec fn model_spec(requested: Option<Seq<char>>, default: Seq<char>) -> Seq<char> {
    match requested {
        Some(m) if trim_spec(m).len() > 0 => m,
        _ => default,
    }
}

/// Chooses the coach model for a run.
pub fn pick_model(requested: Option<&str>, default: &str) -> (model: String)
    ensures
        model@ == model_spec(
            match requested {
                Some(m) => Some(m@),
                None => None,
            },
            default@,
        ),
{
    if let Some(m) = requested {
        let v = chars_of(m);
        let (a, b) = trim_bounds(v.as_slice(), 0, v.len());
        assert(v@.subrange(0, v@.len() as int) =~= v@);
        if a < b {
            return string_from_chars(v.as_slice());
        }
    }
    string_from_chars(chars_of(default).as_slice())
}

/// Law: corner notes never go ahead of the focus-sector suggestion. With a focus sector
/// and at least one suggestion, the first suggestion stays first, the notes follow it
/// directly and the other suggestions come after them; otherwise the notes lead.
pub proof fn lemma_notes_follow_focus<A>(suggestions: Seq<A>, notes: Seq<A>, has_focus_sector: bool)
    ensures
        ({
            let at = notes_position(has_focus_sector, suggestions.len() as int);
            let r = suggestions.take(at) + notes + suggestions.skip(at);
            &&& has_focus_sector && suggestions.len() >= 1 ==> {
                &&& r.len() == suggestions.len() + notes.len()
                &&& r[0] == suggestions[0]
                &&& r.subrange(1, (1 + notes.len()) as int) == notes
                &&& r.skip((1 + notes.len()) as int) == suggestions.skip(1)
            }
            &&& !has_focus_sector || suggestions.len() == 0 ==> r == notes + suggestions
        }),
{
    let at = notes_position(has_focus_sector, suggestions.len() as int);
    let r = suggestions.take(at) + notes + suggestions.skip(at);
    if has_focus_sector && suggestions.len() >= 1 {
        assert(at == 1);
        assert(r[0] == suggestions[0]);
        assert(r.subrange(1, (1 + notes.len()) as int) =~= notes);
        assert(r.skip((1 + notes.len()) as int) =~= suggestions.skip(1));
    } else {
        assert(at == 0);
        assert(suggestions.take(0) =~= Seq::<A>::empty());
        assert(suggestions.skip(0) =~= suggestions);
        assert(r =~= notes + suggestions);
    }
}

} // verus!
