//! Character-level text helpers shared by the session-info scanner, the coach-output
//! cleaner and the file-name builders.

use vstd::prelude::*;

verus! {

broadcast use vstd::string::group_string_axioms;

/// The characters of `s`, in order.
pub fn chars_of(s: &str) -> (v: Vec<char>)
    ensures
        v@ == s@,
{
    let mut v: Vec<char> = Vec::new();
    for c in it: s.chars()
        invariant
            v@ == it.seq().take(it.index() as int),
            it.seq() == s@,
    {
        v.push(c);
        assert(v@ =~= it.seq().take(it.index() + 1));
    }
    v
}


/// A `String` holding exactly the given characters.
///
/// Trusted: calls std's `FromIterator<char>` for `String` (through `Iterator::collect`),
/// which std documents as building the string from the characters in order; the contract
/// states that and nothing more.
#[verifier::external_body]
pub(crate) fn string_from_chars(chars: &[char]) -> (s: String)
    ensures
        s@ == chars@,
{
    chars.iter().collect()
}

/// Unicode `White_Space`, as `char::is_whitespace` defines it.
pub open spec fn is_ws(c: char) -> bool {
    let u = c as u32;
    ||| 0x09 <= u <= 0x0D
    ||| u == 0x20
    ||| u == 0x85
    ||| u == 0xA0
    ||| u == 0x1680
    ||| 0x2000 <= u <= 0x200A
    ||| u == 0x2028
    ||| u == 0x2029
    ||| u == 0x202F
    ||| u == 0x205F
    ||| u == 0x3000
}

/// Whether `c` is whitespace.
pub fn is_whitespace(c: char) -> (b: bool)
    ensures
        b == is_ws(c),
{
    let u = c as u32;
    (0x09 <= u && u <= 0x0D) || u == 0x20 || u == 0x85 || u == 0xA0 || u == 0x1680 || (0x2000
        <= u && u <= 0x200A) || u == 0x2028 || u == 0x2029 || u == 0x202F || u == 0x205F || u
        == 0x3000
}

/// `s` without leading whitespace.
pub open spec fn trim_start_spec(s: Seq<char>) -> Seq<char>
    decreases s.len(),
{
    if s.len() > 0 && is_ws(s[0]) {
        trim_start_spec(s.drop_first())
    } else {
        s
    }
}

/// `s` without trailing whitespace.
pub open spec fn trim_end_spec(s: Seq<char>) -> Seq<char>
    decreases s.len(),
{
    if s.len() > 0 && is_ws(s.last()) {
        trim_end_spec(s.drop_last())
    } else {
        s
    }
}

/// `s` without leading or trailing whitespace.
pub open spec fn trim_spec(s: Seq<char>) -> Seq<char> {
    trim_end_spec(trim_start_spec(s))
}

/// `s` with every leading copy of `pat` removed.
pub open spec fn trim_start_matches_spec(s: Seq<char>, pat: Seq<char>) -> Seq<char>
    decreases s.len(),
{
    if pat.len() > 0 && s.len() >= pat.len() && s.take(pat.len() as int) == pat {
        trim_start_matches_spec(s.skip(pat.len() as int), pat)
    } else {
        s
    }
}

/// `s` with every leading and trailing `c` removed.
pub open spec fn trim_char_spec(s: Seq<char>, c: char) -> Seq<char> {
    trim_end_char_spec(trim_start_char_spec(s, c), c)
}

/// `s` with every leading `c` removed.
pub open spec fn trim_start_char_spec(s: Seq<char>, c: char) -> Seq<char>
    decreases s.len(),
{
    if s.len() > 0 && s[0] == c {
        trim_start_char_spec(s.drop_first(), c)
    } else {
        s
    }
}

/// `s` with every trailing `c` removed.
pub open spec fn trim_end_char_spec(s: Seq<char>, c: char) -> Seq<char>
    decreases s.len(),
{
    if s.len() > 0 && s.last() == c {
        trim_end_char_spec(s.drop_last(), c)
    } else {
        s
    }
}

/// What is left of `s` after the prefix `p`, if `s` starts with `p`.
pub open spec fn strip_prefix_spec(s: Seq<char>, p: Seq<char>) -> Option<Seq<char>> {
    if s.len() >= p.len() && s.take(p.len() as int) == p {
        Some(s.skip(p.len() as int))
    } else {
        None
    }
}

pub(crate) proof fn lemma_trim_start_at(s: Seq<char>, i: int)
    requires
        0 <= i <= s.len(),
        forall|j: int| 0 <= j < i ==> is_ws(#[trigger] s[j]),
        i == s.len() || !is_ws(s[i]),
    ensures
        trim_start_spec(s) == s.skip(i),
    decreases i,
{
    if i == 0 {
        assert(s.skip(0) =~= s);
    } else {
        lemma_trim_start_at(s.drop_first(), i - 1);
        assert(s.drop_first().skip(i - 1) =~= s.skip(i));
    }
}

pub(crate) proof fn lemma_trim_end_at(s: Seq<char>, i: int)
    requires
        0 <= i <= s.len(),
        forall|j: int| i <= j < s.len() ==> is_ws(#[trigger] s[j]),
        i == 0 || !is_ws(s[i - 1]),
    ensures
        trim_end_spec(s) == s.take(i),
    decreases s.len() - i,
{
    if i == s.len() {
        assert(s.take(i) =~= s);
    } else {
        lemma_trim_end_at(s.drop_last(), i);
        assert(s.drop_last().take(i) =~= s.take(i));
    }
}

proof fn lemma_trim_start_char_at(s: Seq<char>, c: char, i: int)
    requires
        0 <= i <= s.len(),
        forall|j: int| 0 <= j < i ==> #[trigger] s[j] == c,
        i == s.len() || s[i] != c,
    ensures
        trim_start_char_spec(s, c) == s.skip(i),
    decreases i,
{
    if i == 0 {
        assert(s.skip(0) =~= s);
    } else {
        lemma_trim_start_char_at(s.drop_first(), c, i - 1);
        assert(s.drop_first().skip(i - 1) =~= s.skip(i));
    }
}

proof fn lemma_trim_end_char_at(s: Seq<char>, c: char, i: int)
    requires
        0 <= i <= s.len(),
        forall|j: int| i <= j < s.len() ==> #[trigger] s[j] == c,
        i == 0 || s[i - 1] != c,
    ensures
        trim_end_char_spec(s, c) == s.take(i),
    decreases s.len() - i,
{
    if i == s.len() {
        assert(s.take(i) =~= s);
    } else {
        lemma_trim_end_char_at(s.drop_last(), c, i);
        assert(s.drop_last().take(i) =~= s.take(i));
    }
}

pub(crate) proof fn lemma_trim_start_shape(s: Seq<char>)
    ensures
        trim_start_spec(s).len() == 0 || !is_ws(trim_start_spec(s)[0]),
    decreases s.len(),
{
    if s.len() > 0 && is_ws(s[0]) {
        lemma_trim_start_shape(s.drop_first());
    }
}

pub(crate) proof fn lemma_trim_end_shape(s: Seq<char>)
    ensures
        trim_end_spec(s).len() <= s.len(),
        trim_end_spec(s) == s.take(trim_end_spec(s).len() as int),
        trim_end_spec(s).len() == 0 || !is_ws(trim_end_spec(s).last()),
    decreases s.len(),
{
    if s.len() > 0 && is_ws(s.last()) {
        lemma_trim_end_shape(s.drop_last());
        assert(s.drop_last().take(trim_end_spec(s).len() as int) =~= s.take(
            trim_end_spec(s).len() as int,
        ));
    } else {
        assert(s.take(s.len() as int) =~= s);
    }
}

/// Law: trimming whitespace twice is the same as trimming it once.
pub proof fn lemma_trim_idempotent(s: Seq<char>)
    ensures
        trim_spec(trim_spec(s)) == trim_spec(s),
{
    let a = trim_start_spec(s);
    lemma_trim_start_shape(s);
    let b = trim_end_spec(a);
    lemma_trim_end_shape(a);
    if b.len() > 0 {
        assert(b[0] == a[0]);
    }
    assert(trim_start_spec(b) == b);
    assert(trim_end_spec(b) == b);
}

/// Bounds of `t[lo..hi]` with leading and trailing whitespace removed.
pub fn trim_bounds(t: &[char], lo: usize, hi: usize) -> (r: (usize, usize))
    requires
        lo <= hi <= t@.len(),
    ensures
        lo <= r.0 <= r.1 <= hi,
        t@.subrange(r.0 as int, r.1 as int) == trim_spec(t@.subrange(lo as int, hi as int)),
{
    let mut a = lo;
    while a < hi && is_whitespace(t[a])
        invariant
            lo <= a <= hi <= t@.len(),
            forall|j: int| lo <= j < a ==> is_ws(#[trigger] t@[j]),
        decreases hi - a,
    {
        a = a + 1;
    }
    let mut b = hi;
    while b > a && is_whitespace(t[b - 1])
        invariant
            lo <= a <= b <= hi <= t@.len(),
            forall|j: int| b <= j < hi ==> is_ws(#[trigger] t@[j]),
        decreases b - a,
    {
        b = b - 1;
    }
    proof {
        let s = t@.subrange(lo as int, hi as int);
        assert forall|j: int| 0 <= j < a - lo implies is_ws(#[trigger] s[j]) by {
            assert(s[j] == t@[lo + j]);
        }
        lemma_trim_start_at(s, a - lo);
        let s2 = s.skip(a - lo);
        assert(s2 =~= t@.subrange(a as int, hi as int));
        assert forall|j: int| b - a <= j < s2.len() implies is_ws(#[trigger] s2[j]) by {
            assert(s2[j] == t@[a + j]);
        }
        lemma_trim_end_at(s2, b - a);
        assert(s2.take(b - a) =~= t@.subrange(a as int, b as int));
    }
    (a, b)
}

/// Bounds of `t[lo..hi]` with every leading and trailing `c` removed.
pub fn trim_char_bounds(t: &[char], lo: usize, hi: usize, c: char) -> (r: (usize, usize))
    requires
        lo <= hi <= t@.len(),
    ensures
        lo <= r.0 <= r.1 <= hi,
        t@.subrange(r.0 as int, r.1 as int) == trim_char_spec(
            t@.subrange(lo as int, hi as int),
            c,
        ),
{
    let mut a = lo;
    while a < hi && t[a] == c
        invariant
            lo <= a <= hi <= t@.len(),
            forall|j: int| lo <= j < a ==> #[trigger] t@[j] == c,
        decreases hi - a,
    {
        a = a + 1;
    }
    let mut b = hi;
    while b > a && t[b - 1] == c
        invariant
            lo <= a <= b <= hi <= t@.len(),
            forall|j: int| b <= j < hi ==> #[trigger] t@[j] == c,
        decreases b - a,
    {
        b = b - 1;
    }
    proof {
        let s = t@.subrange(lo as int, hi as int);
        assert forall|j: int| 0 <= j < a - lo implies #[trigger] s[j] == c by {
            assert(s[j] == t@[lo + j]);
        }
        lemma_trim_start_char_at(s, c, a - lo);
        let s2 = s.skip(a - lo);
        assert(s2 =~= t@.subrange(a as int, hi as int));
        assert forall|j: int| b - a <= j < s2.len() implies #[trigger] s2[j] == c by {
            assert(s2[j] == t@[a + j]);
        }
        lemma_trim_end_char_at(s2, c, b - a);
        assert(s2.take(b - a) =~= t@.subrange(a as int, b as int));
    }
    (a, b)
}

/// Whether `t[at..]` starts with `p`.
pub fn starts_with_at(t: &[char], at: usize, p: &[char]) -> (b: bool)
    requires
        at <= t@.len(),
    ensures
        b == (at + p@.len() <= t@.len() && t@.subrange(at as int, at + p@.len()) == p@),
{
    let n = t.len();
    if p.len() > n - at {
        return false;
    }
    let mut i: usize = 0;
    while i < p.len()
        invariant
            n == t@.len(),
            at + p@.len() <= t@.len(),
            i <= p@.len(),
            forall|j: int| 0 <= j < i ==> t@[at + j] == p@[j],
        decreases p@.len() - i,
    {
        if t[at + i] != p[i] {
            assert(t@.subrange(at as int, at + p@.len())[i as int] != p@[i as int]);
            return false;
        }
        i = i + 1;
    }
    assert(t@.subrange(at as int, at + p@.len()) =~= p@);
    true
}

/// A copy of `t[lo..hi]`.
pub fn copy_range(t: &[char], lo: usize, hi: usize) -> (v: Vec<char>)
    requires
        lo <= hi <= t@.len(),
    ensures
        v@ == t@.subrange(lo as int, hi as int),
{
    vstd::slice::slice_to_vec(vstd::slice::slice_subrange(t, lo, hi))
}

/// Appends the characters of `s`.
pub fn push_str(out: &mut Vec<char>, s: &str)
    ensures
        final(out)@ == old(out)@ + s@,
{
    let v = chars_of(s);
    push_chars(out, v.as_slice());
}

/// Appends `src`.
pub fn push_chars(out: &mut Vec<char>, src: &[char])
    ensures
        final(out)@ == old(out)@ + src@,
{
    let mut i: usize = 0;
    while i < src.len()
        invariant
            i <= src@.len(),
            out@ == old(out)@ + src@.take(i as int),
        decreases src@.len() - i,
    {
        out.push(src[i]);
        i = i + 1;
        assert(out@ =~= old(out)@ + src@.take(i as int));
    }
    assert(src@.take(i as int) =~= src@);
}


/// The decimal digit character for `d` (below ten).
pub open spec fn digit_char(d: nat) -> char {
    (48 + d) as char
}

/// Decimal representation of `n`, without leading zeros.
pub open spec fn decimal(n: nat) -> Seq<char>
    decreases n,
{
    if n < 10 {
        seq![digit_char(n)]
    } else {
        decimal(n / 10) + seq![digit_char(n % 10)]
    }
}

fn digit(d: usize) -> (c: char)
    requires
        d < 10,
    ensures
        c == digit_char(d as nat),
{
    match d {
        0 => '0',
        1 => '1',
        2 => '2',
        3 => '3',
        4 => '4',
        5 => '5',
        6 => '6',
        7 => '7',
        8 => '8',
        _ => '9',
    }
}

/// Appends the decimal representation of `n`.
pub fn push_decimal(out: &mut Vec<char>, n: usize)
    ensures
        final(out)@ == old(out)@ + decimal(n as nat),
    decreases n,
{
    if n >= 10 {
        push_decimal(out, n / 10);
    }
    out.push(digit(n % 10));
    assert(out@ =~= old(out)@ + decimal(n as nat));
}


/// Whether two character sequences are equal.
pub fn same_chars(x: &[char], y: &[char]) -> (eq: bool)
    ensures
        eq == (x@ == y@),
{
    if x.len() != y.len() {
        return false;
    }
    let mut i: usize = 0;
    while i < x.len()
        invariant
            x@.len() == y@.len(),
            i <= x@.len(),
            forall|j: int| 0 <= j < i ==> x@[j] == y@[j],
        decreases x@.len() - i,
    {
        if x[i] != y[i] {
            assert(x@[i as int] != y@[i as int]);
            return false;
        }
        i = i + 1;
    }
    assert(x@ =~= y@);
    true
}

/// Whether two strings hold the same characters.
pub fn same_text(a: &str, b: &str) -> (eq: bool)
    ensures
        eq == (a@ == b@),
{
    same_chars(chars_of(a).as_slice(), chars_of(b).as_slice())
}

/// `c` lowered if it is an ASCII capital letter.
pub open spec fn ascii_lower(c: char) -> char {
    if 0x41 <= c as u32 <= 0x5a {
        (c as u32 + 32) as char
    } else {
        c
    }
}

/// ASCII letters and digits.
pub open spec fn is_ascii_alnum(c: char) -> bool {
    let u = c as u32;
    ||| 0x30 <= u <= 0x39
    ||| 0x41 <= u <= 0x5a
    ||| 0x61 <= u <= 0x7a
}

/// `s` with ASCII capital letters lowered.
pub open spec fn ascii_lowercase(s: Seq<char>) -> Seq<char> {
    s.map_values(|c: char| ascii_lower(c))
}

/// `c` lowered if it is an ASCII capital letter.
pub fn to_ascii_lower(c: char) -> (l: char)
    ensures
        l == ascii_lower(c),
{
    let u = c as u32;
    if 0x41 <= u && u <= 0x5a {
        match c {
            'A' => 'a',
            'B' => 'b',
            'C' => 'c',
            'D' => 'd',
            'E' => 'e',
            'F' => 'f',
            'G' => 'g',
            'H' => 'h',
            'I' => 'i',
            'J' => 'j',
            'K' => 'k',
            'L' => 'l',
            'M' => 'm',
            'N' => 'n',
            'O' => 'o',
            'P' => 'p',
            'Q' => 'q',
            'R' => 'r',
            'S' => 's',
            'T' => 't',
            'U' => 'u',
            'V' => 'v',
            'W' => 'w',
            'X' => 'x',
            'Y' => 'y',
            _ => 'z',
        }
    } else {
        c
    }
}

/// Whether `c` is an ASCII letter or digit.
pub fn is_ascii_alphanumeric(c: char) -> (b: bool)
    ensures
        b == is_ascii_alnum(c),
{
    let u = c as u32;
    (0x30 <= u && u <= 0x39) || (0x41 <= u && u <= 0x5a) || (0x61 <= u && u <= 0x7a)
}

/// `s` with ASCII capital letters lowered.
pub fn lowercase_ascii(s: &str) -> (l: Vec<char>)
    ensures
        l@ == ascii_lowercase(s@),
{
    let v = chars_of(s);
    let mut out: Vec<char> = Vec::new();
    let mut i: usize = 0;
    while i < v.len()
        invariant
            i <= v@.len(),
            out@ == ascii_lowercase(v@.take(i as int)),
        decreases v@.len() - i,
    {
        out.push(to_ascii_lower(v[i]));
        i = i + 1;
        assert(out@ =~= ascii_lowercase(v@.take(i as int)));
    }
    assert(v@.take(i as int) =~= v@);
    out
}


/// How many copies of `c` `trim_char_spec` removes from the front.
pub open spec fn trim_char_offset(s: Seq<char>, c: char) -> int
    decreases s.len(),
{
    if s.len() > 0 && s[0] == c {
        1 + trim_char_offset(s.drop_first(), c)
    } else {
        0
    }
}

proof fn lemma_trim_start_char_offset(s: Seq<char>, c: char)
    ensures
        0 <= trim_char_offset(s, c) <= s.len(),
        trim_start_char_spec(s, c) == s.skip(trim_char_offset(s, c)),
    decreases s.len(),
{
    if s.len() > 0 && s[0] == c {
        lemma_trim_start_char_offset(s.drop_first(), c);
        assert(s.drop_first().skip(trim_char_offset(s.drop_first(), c)) =~= s.skip(
            trim_char_offset(s, c),
        ));
    } else {
        assert(s.skip(0) =~= s);
    }
}

proof fn lemma_trim_end_char_prefix(s: Seq<char>, c: char)
    ensures
        trim_end_char_spec(s, c).len() <= s.len(),
        trim_end_char_spec(s, c) == s.take(trim_end_char_spec(s, c).len() as int),
        trim_end_char_spec(s, c).len() == 0 || trim_end_char_spec(s, c).last() != c,
    decreases s.len(),
{
    if s.len() > 0 && s.last() == c {
        lemma_trim_end_char_prefix(s.drop_last(), c);
        assert(s.drop_last().take(trim_end_char_spec(s, c).len() as int) =~= s.take(
            trim_end_char_spec(s, c).len() as int,
        ));
    } else {
        assert(s.take(s.len() as int) =~= s);
    }
}

/// `trim_char_spec(s, c)` is a run of `s` starting at `trim_char_offset(s, c)`, neither
/// starting nor ending with `c`.
pub proof fn lemma_trim_char_shape(s: Seq<char>, c: char)
    ensures
        ({
            let t = trim_char_spec(s, c);
            let k = trim_char_offset(s, c);
            &&& 0 <= k
            &&& k + t.len() <= s.len()
            &&& forall|i: int| 0 <= i < t.len() ==> #[trigger] t[i] == s[k + i]
            &&& t.len() > 0 ==> t[0] != c && t.last() != c
        }),
{
    lemma_trim_start_char_offset(s, c);
    let a = trim_start_char_spec(s, c);
    let k = trim_char_offset(s, c);
    lemma_trim_end_char_prefix(a, c);
    let t = trim_char_spec(s, c);
    assert forall|i: int| 0 <= i < t.len() implies #[trigger] t[i] == s[k + i] by {
        assert(t[i] == a.take(t.len() as int)[i]);
        assert(a[i] == s[k + i]);
    }
    if t.len() > 0 {
        if a.len() > 0 {
            lemma_trim_start_char_first(s, c);
        }
    }
}

proof fn lemma_trim_start_char_first(s: Seq<char>, c: char)
    ensures
        trim_start_char_spec(s, c).len() > 0 ==> trim_start_char_spec(s, c)[0] != c,
    decreases s.len(),
{
    if s.len() > 0 && s[0] == c {
        lemma_trim_start_char_first(s.drop_first(), c);
    }
}

} // verus!
