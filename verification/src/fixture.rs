//! Anonymized, trimmed copies of `.ibt` files for use as test data: which laps and
//! channels to keep, and the bytes of the new file.

use vstd::prelude::*;
use vstd::slice::slice_subrange;
use vstd::string::StringSliceAdditionalSpecFns;

use crate::ibt::{
    header_fields, header_plausible, i32_at, i32_le_bytes, le_i32, lemma_i32_le_roundtrip,
    push_i32, read_value_spec, type_size, type_size_spec, var_name, var_of, IbtHeader, Var,
    VarEntry, HEADER_SIZE, VAR_HEADER_SIZE,
};

verus! {

/// Channels kept in fixtures: what the app reads, plus a few likely to be useful soon.
pub open spec fn fixture_channel_names() -> Seq<&'static str> {
    seq![
        "SessionTime", "Lap", "LapDistPct", "LapDist", "LapLastLapTime", "Speed", "RPM", "Gear",
        "Throttle", "Brake", "SteeringWheelAngle", "Yaw", "YawNorth", "Lat", "Lon", "LatAccel",
        "LongAccel", "OnPitRoad", "IsOnTrack", "LFtempCL", "RFtempCL", "LRtempCL", "RRtempCL",
        "YawRate", "BrakeABSactive", "BrakeRaw", "VelocityX", "VelocityY", "FuelLevel",
        "FuelUsePerHour", "dcBrakeBias", "dcABS", "dcTractionControl", "TrackTempCrew", "AirTemp",
    ]
}

/// The names of the channels kept in fixtures, in the order they are written.
pub fn fixture_channels() -> (names: Vec<&'static str>)
    ensures
        names@ == fixture_channel_names(),
{
    vec![
        "SessionTime", "Lap", "LapDistPct", "LapDist", "LapLastLapTime", "Speed", "RPM", "Gear",
        "Throttle", "Brake", "SteeringWheelAngle", "Yaw", "YawNorth", "Lat", "Lon", "LatAccel",
        "LongAccel", "OnPitRoad", "IsOnTrack", "LFtempCL", "RFtempCL", "LRtempCL", "RRtempCL",
        "YawRate", "BrakeABSactive", "BrakeRaw", "VelocityX", "VelocityY", "FuelLevel",
        "FuelUsePerHour", "dcBrakeBias", "dcABS", "dcTractionControl", "TrackTempCrew", "AirTemp",
    ]
}

/// Every entry holds a full 144-byte table record.
pub open spec fn entries_sized(vars: Seq<VarEntry>) -> bool {
    forall|i: int| 0 <= i < vars.len() ==> (#[trigger] vars[i]).raw@.len() == VAR_HEADER_SIZE
}

/// A variable that can be copied into a fixture: it has the given name and holds a single
/// value (its count field, bytes 8..12 of the record, is 1).
pub open spec fn keepable(e: VarEntry, name: Seq<u8>) -> bool {
    e.name@ == name && le_i32(e.raw@, 8) == 1
}

/// Index of the first keepable variable named `name` at or after `from`.
pub open spec fn kept_from(vars: Seq<VarEntry>, name: Seq<u8>, from: int) -> Option<int>
    decreases vars.len() - from,
{
    if from < 0 || from >= vars.len() {
        None
    } else if keepable(vars[from], name) {
        Some(from)
    } else {
        kept_from(vars, name, from + 1)
    }
}

/// For each fixture channel in order, the index of the variable that carries it; channels
/// the file lacks are skipped.
pub open spec fn kept_spec(vars: Seq<VarEntry>, names: Seq<&'static str>) -> Seq<int>
    decreases names.len(),
{
    if names.len() == 0 {
        Seq::empty()
    } else {
        let rest = kept_spec(vars, names.drop_last());
        match kept_from(vars, names.last().spec_bytes(), 0) {
            Some(j) => rest.push(j),
            None => rest,
        }
    }
}

proof fn lemma_kept_spec_bounds(vars: Seq<VarEntry>, names: Seq<&'static str>)
    ensures
        kept_spec(vars, names).len() <= names.len(),
        forall|i: int|
            0 <= i < kept_spec(vars, names).len() ==> 0 <= #[trigger] kept_spec(vars, names)[i]
                < vars.len(),
    decreases names.len(),
{
    if names.len() > 0 {
        lemma_kept_spec_bounds(vars, names.drop_last());
        lemma_kept_from_bounds(vars, names.last().spec_bytes(), 0);
    }
}

proof fn lemma_kept_from_bounds(vars: Seq<VarEntry>, name: Seq<u8>, from: int)
    ensures
        kept_from(vars, name, from) matches Some(j) ==> from <= j < vars.len(),
    decreases vars.len() - from,
{
    if 0 <= from < vars.len() && !keepable(vars[from], name) {
        lemma_kept_from_bounds(vars, name, from + 1);
    }
}

fn find_keepable(vars: &[VarEntry], name: &str) -> (found: Option<usize>)
    requires
        entries_sized(vars@),
    ensures
        found matches Some(j) ==> kept_from(vars@, name.spec_bytes(), 0) == Some(j as int),
        found is None ==> kept_from(vars@, name.spec_bytes(), 0) is None,
{
    let target = name.as_bytes();
    let n = vars.len();
    let mut i: usize = n;
    // Scan backwards so that the answer for index `i` is always known.
    let mut found: Option<usize> = None;
    while i > 0
        invariant
            i <= n,
            n == vars@.len(),
            entries_sized(vars@),
            target@ == name.spec_bytes(),
            found matches Some(j) ==> kept_from(vars@, target@, i as int) == Some(j as int),
            found is None ==> kept_from(vars@, target@, i as int) is None,
        decreases i,
    {
        i = i - 1;
        assert(vars@[i as int].raw@.len() == VAR_HEADER_SIZE);
        if crate::ibt::bytes_eq(vars[i].name.as_slice(), target) && i32_at(vars[i].raw.as_slice(), 8) == 1 {
            found = Some(i);
        }
    }
    found
}

/// For each fixture channel in order, the index in `vars` of the variable that carries it
/// with a single value; channels the file lacks are left out.
pub fn fixture_kept(vars: &[VarEntry]) -> (kept: Vec<usize>)
    requires
        entries_sized(vars@),
    ensures
        kept@.len() <= 35,
        kept@.map_values(|j: usize| j as int) == kept_spec(vars@, fixture_channel_names()),
        forall|i: int| 0 <= i < kept@.len() ==> #[trigger] kept@[i] < vars@.len(),
{
    let names = fixture_channels();
    let mut kept: Vec<usize> = Vec::new();
    let mut i: usize = 0;
    while i < names.len()
        invariant
            i <= names@.len(),
            names@ == fixture_channel_names(),
            entries_sized(vars@),
            kept@.map_values(|j: usize| j as int) == kept_spec(vars@, names@.take(i as int)),
        decreases names@.len() - i,
    {
        let found = find_keepable(vars, names[i]);
        proof {
            assert(names@.take(i + 1).drop_last() =~= names@.take(i as int));
            assert(names@.take(i + 1).last() == names@[i as int]);
        }
        match found {
            Some(j) => {
                kept.push(j);
                assert(kept@.map_values(|j: usize| j as int) =~= kept_spec(
                    vars@,
                    names@.take(i as int),
                ).push(j as int));
            },
            None => {},
        }
        i = i + 1;
    }
    proof {
        assert(names@.take(i as int) =~= names@);
        lemma_kept_spec_bounds(vars@, names@);
        assert forall|i: int| 0 <= i < kept@.len() implies #[trigger] kept@[i] < vars@.len() by {
            assert(kept@.map_values(|j: usize| j as int)[i] == kept@[i] as int);
        }
    }
    kept
}


/// The kept variables, in the order they are written.
pub open spec fn kept_entries(vars: Seq<VarEntry>, kept: Seq<usize>) -> Seq<VarEntry> {
    kept.map_values(|j: usize| vars[j as int])
}

/// Packed length of one fixture sample: the kept values back to back.
pub open spec fn packed_len(entries: Seq<VarEntry>) -> int
    decreases entries.len(),
{
    if entries.len() == 0 {
        0
    } else {
        packed_len(entries.drop_last()) + type_size_spec(entries.last().var.ty)
    }
}

/// Offset of the `i`th kept value in a fixture sample.
pub open spec fn packed_offset(entries: Seq<VarEntry>, i: int) -> int {
    packed_len(entries.take(i))
}

proof fn lemma_packed_len_bounds(entries: Seq<VarEntry>)
    ensures
        entries.len() <= packed_len(entries) <= 8 * entries.len(),
    decreases entries.len(),
{
    if entries.len() > 0 {
        lemma_packed_len_bounds(entries.drop_last());
    }
}

proof fn lemma_packed_offset_step(entries: Seq<VarEntry>, i: int)
    requires
        0 <= i < entries.len(),
    ensures
        packed_offset(entries, i + 1) == packed_offset(entries, i) + type_size_spec(
            entries[i].var.ty,
        ),
        packed_offset(entries, i + 1) <= packed_len(entries),
{
    assert(entries.take(i + 1).drop_last() =~= entries.take(i));
    lemma_packed_prefix_le(entries, i + 1);
}

proof fn lemma_packed_prefix_le(entries: Seq<VarEntry>, i: int)
    requires
        0 <= i <= entries.len(),
    ensures
        packed_len(entries.take(i)) <= packed_len(entries),
    decreases entries.len() - i,
{
    if i < entries.len() {
        lemma_packed_prefix_le(entries, i + 1);
        assert(entries.take(i + 1).drop_last() =~= entries.take(i));
    } else {
        assert(entries.take(i) =~= entries);
    }
}

fn push_zeros(out: &mut Vec<u8>, n: usize)
    ensures
        final(out)@ == old(out)@ + Seq::new(n as nat, |_i: int| 0u8),
{
    let mut i: usize = 0;
    while i < n
        invariant
            i <= n,
            out@ == old(out)@ + Seq::new(i as nat, |_i: int| 0u8),
        decreases n - i,
    {
        out.push(0);
        i = i + 1;
        assert(out@ =~= old(out)@ + Seq::new(i as nat, |_i: int| 0u8));
    }
}

fn push_bytes(out: &mut Vec<u8>, src: &[u8])
    ensures
        final(out)@ == old(out)@ + src@,
{
    let mut i: usize = 0;
    while i < src.len()
        invariant
            i <= src@.len(),
            out@ == old(out)@ + src@.take(i as int),
        decreases src@.len() - i,
    {
        out.push(src[i]);
        i = i + 1;
        assert(out@ =~= old(out)@ + src@.take(i as int));
    }
    assert(src@.take(i as int) =~= src@);
}

/// `n` zero bytes.
pub open spec fn zeros(n: int) -> Seq<u8> {
    Seq::new(n as nat, |_i: int| 0u8)
}

/// The little-endian bytes of a sequence of 32-bit words, in order.
pub open spec fn le_words(words: Seq<i32>) -> Seq<u8>
    decreases words.len(),
{
    if words.len() == 0 {
        Seq::empty()
    } else {
        le_words(words.drop_last()) + i32_le_bytes(words.last())
    }
}

/// The 28 words of the fixture's main header: the source's version and tick rate, status
/// 1, one sample buffer, and the sizes and offsets of the new layout; all else zero.
pub open spec fn fixture_header_words(
    source: Seq<u8>,
    session_len: int,
    num_vars: int,
    buf_len: int,
) -> Seq<i32> {
    let session_offset = HEADER_SIZE + 32 + num_vars * VAR_HEADER_SIZE;
    let buf_offset = session_offset + session_len;
    seq![
        le_i32(source, 0) as i32, 1, le_i32(source, 8) as i32, 0, session_len as i32,
        session_offset as i32, num_vars as i32, (HEADER_SIZE + 32) as i32, 1, buf_len as i32, 0,
        0, 0, buf_offset as i32, 0, 0, 0, 0, 0, 0, 0, 0, 0, 0, 0, 0, 0, 0,
    ]
}

/// The fixture's main header.
pub open spec fn fixture_header(
    source: Seq<u8>,
    session_len: int,
    num_vars: int,
    buf_len: int,
) -> Seq<u8> {
    le_words(fixture_header_words(source, session_len, num_vars, buf_len))
}

proof fn lemma_le_words(words: Seq<i32>, i: int)
    requires
        0 <= i < words.len(),
    ensures
        le_words(words).len() == 4 * words.len(),
        le_words(words).subrange(4 * i, 4 * i + 4) == i32_le_bytes(words[i]),
    decreases words.len(),
{
    lemma_le_words_len(words);
    let prefix = words.drop_last();
    lemma_le_words_len(prefix);
    if i == words.len() - 1 {
        assert(le_words(words).subrange(4 * i, 4 * i + 4) =~= i32_le_bytes(words[i]));
    } else {
        lemma_le_words(prefix, i);
        assert(le_words(words).subrange(4 * i, 4 * i + 4) =~= le_words(prefix).subrange(
            4 * i,
            4 * i + 4,
        ));
    }
}

proof fn lemma_le_words_len(words: Seq<i32>)
    ensures
        le_words(words).len() == 4 * words.len(),
    decreases words.len(),
{
    if words.len() > 0 {
        lemma_le_words_len(words.drop_last());
    }
}

proof fn lemma_le_words_read(words: Seq<i32>, i: int)
    requires
        0 <= i < words.len(),
    ensures
        le_words(words).len() == 4 * words.len(),
        le_i32(le_words(words), 4 * i) == words[i],
{
    lemma_le_words(words, i);
    lemma_le_i32_at(le_words(words), 4 * i, words[i]);
}

fn push_words(out: &mut Vec<u8>, words: &[i32])
    ensures
        final(out)@ == old(out)@ + le_words(words@),
{
    let mut i: usize = 0;
    while i < words.len()
        invariant
            i <= words@.len(),
            out@ == old(out)@ + le_words(words@.take(i as int)),
        decreases words@.len() - i,
    {
        push_i32(out, words[i]);
        proof {
            assert(words@.take(i + 1).drop_last() =~= words@.take(i as int));
        }
        i = i + 1;
        assert(out@ =~= old(out)@ + le_words(words@.take(i as int)));
    }
    assert(words@.take(i as int) =~= words@);
}

/// The 32-byte disk sub-header: no session date or time, only the record count.
pub open spec fn disk_header(records: int) -> Seq<u8> {
    zeros(28) + i32_le_bytes(records as i32)
}

/// A kept variable's table record with its offset replaced by the packed one.
pub open spec fn moved_record(raw: Seq<u8>, offset: int) -> Seq<u8> {
    raw.subrange(0, 4) + i32_le_bytes(offset as i32) + raw.subrange(8, 144)
}

/// The new variable table: the kept records in order, each pointing at its packed offset.
pub open spec fn moved_table(entries: Seq<VarEntry>) -> Seq<u8>
    decreases entries.len(),
{
    if entries.len() == 0 {
        Seq::empty()
    } else {
        moved_table(entries.drop_last()) + moved_record(
            entries.last().raw@,
            packed_len(entries.drop_last()),
        )
    }
}

/// Everything before the first sample: header, disk sub-header, variable table and the
/// NUL-terminated session info.
pub open spec fn fixture_prefix_spec(
    source: Seq<u8>,
    entries: Seq<VarEntry>,
    session: Seq<u8>,
    records: int,
) -> Seq<u8> {
    fixture_header(source, session.len() as int, entries.len() as int, packed_len(entries))
        + disk_header(records) + moved_table(entries) + session
}

/// Writes everything of a fixture file that comes before the samples. `header` is the
/// source file's main header, `kept` the indices of the variables to copy (from
/// `fixture_kept`), `session` the new session info including its terminating NUL, and
/// `records` the number of samples that will follow.
pub fn fixture_prefix(
    header: &[u8],
    vars: &[VarEntry],
    kept: &[usize],
    session: &[u8],
    records: usize,
) -> (out: Vec<u8>)
    requires
        header@.len() == HEADER_SIZE,
        entries_sized(vars@),
        forall|i: int| 0 <= i < kept@.len() ==> #[trigger] kept@[i] < vars@.len(),
        HEADER_SIZE + 32 + VAR_HEADER_SIZE * kept@.len() + session@.len() <= usize::MAX,
    ensures
        out@ == fixture_prefix_spec(header@, kept_entries(vars@, kept@), session@, records as int),
{
    let ghost entries = kept_entries(vars@, kept@);
    // Packed offsets of the kept values.
    let mut table: Vec<u8> = Vec::new();
    let mut buf_len: usize = 0;
    let mut i: usize = 0;
    while i < kept.len()
        invariant
            i <= kept@.len(),
            entries == kept_entries(vars@, kept@),
            entries_sized(vars@),
            forall|i: int| 0 <= i < kept@.len() ==> #[trigger] kept@[i] < vars@.len(),
            HEADER_SIZE + 32 + VAR_HEADER_SIZE * kept@.len() + session@.len() <= usize::MAX,
            buf_len == packed_len(entries.take(i as int)),
            table@ == moved_table(entries.take(i as int)),
        decreases kept@.len() - i,
    {
        let e = &vars[kept[i]];
        assert(e.raw@.len() == VAR_HEADER_SIZE);
        proof {
            lemma_packed_len_bounds(entries.take(i as int));
            assert(entries.take(i + 1).drop_last() =~= entries.take(i as int));
            assert(entries.take(i + 1).last() == *e);
        }
        push_bytes(&mut table, slice_subrange(e.raw.as_slice(), 0, 4));
        push_i32(&mut table, buf_len as i32);
        push_bytes(&mut table, slice_subrange(e.raw.as_slice(), 8, 144));
        buf_len = buf_len + type_size(e.var.ty);
        i = i + 1;
        assert(table@ =~= moved_table(entries.take(i as int)));
    }
    proof {
        assert(entries.take(i as int) =~= entries);
    }
    let session_offset = HEADER_SIZE + 32 + kept.len() * VAR_HEADER_SIZE;
    let buf_offset = session_offset + session.len();
    let words: Vec<i32> = vec![
        i32_at(header, 0), 1, i32_at(header, 8), 0, session.len() as i32, session_offset as i32,
        kept.len() as i32, (HEADER_SIZE + 32) as i32, 1, buf_len as i32, 0, 0, 0,
        buf_offset as i32, 0, 0, 0, 0, 0, 0, 0, 0, 0, 0, 0, 0, 0, 0,
    ];
    let mut out: Vec<u8> = Vec::new();
    push_words(&mut out, words.as_slice());
    assert(words@ =~= fixture_header_words(
        header@,
        session@.len() as int,
        kept@.len() as int,
        buf_len as int,
    ));
    push_zeros(&mut out, 28);
    push_i32(&mut out, records as i32);
    push_bytes(&mut out, table.as_slice());
    push_bytes(&mut out, session);
    assert(out@ =~= fixture_prefix_spec(header@, entries, session@, records as int));
    out
}

/// One fixture sample: each kept value's bytes, copied back to back.
pub open spec fn projected_sample(sample: Seq<u8>, entries: Seq<VarEntry>) -> Seq<u8>
    decreases entries.len(),
{
    if entries.len() == 0 {
        Seq::empty()
    } else {
        let v = entries.last().var;
        projected_sample(sample, entries.drop_last()) + sample.subrange(
            v.offset as int,
            v.offset + type_size_spec(v.ty),
        )
    }
}

/// Every kept value lies inside the sample buffer.
pub open spec fn values_inside(sample_len: int, entries: Seq<VarEntry>) -> bool {
    forall|i: int|
        0 <= i < entries.len() ==> (#[trigger] entries[i]).var.offset + type_size_spec(
            entries[i].var.ty,
        ) <= sample_len
}

/// Appends the kept values of one source sample to a fixture being written.
pub fn append_fixture_sample(out: &mut Vec<u8>, sample: &[u8], vars: &[VarEntry], kept: &[usize])
    requires
        forall|i: int| 0 <= i < kept@.len() ==> #[trigger] kept@[i] < vars@.len(),
        values_inside(sample@.len() as int, kept_entries(vars@, kept@)),
    ensures
        final(out)@ == old(out)@ + projected_sample(sample@, kept_entries(vars@, kept@)),
{
    let ghost entries = kept_entries(vars@, kept@);
    let len = sample.len();
    let mut i: usize = 0;
    while i < kept.len()
        invariant
            i <= kept@.len(),
            len == sample@.len(),
            entries == kept_entries(vars@, kept@),
            forall|i: int| 0 <= i < kept@.len() ==> #[trigger] kept@[i] < vars@.len(),
            values_inside(sample@.len() as int, entries),
            out@ == old(out)@ + projected_sample(sample@, entries.take(i as int)),
        decreases kept@.len() - i,
    {
        let v = vars[kept[i]].var;
        proof {
            assert(entries[i as int].var == v);
            assert(v.offset + type_size_spec(v.ty) <= sample@.len());
            assert(entries.take(i + 1).drop_last() =~= entries.take(i as int));
        }
        let size = type_size(v.ty);
        push_bytes(out, slice_subrange(sample, v.offset, v.offset + size));
        i = i + 1;
        assert(out@ =~= old(out)@ + projected_sample(sample@, entries.take(i as int)));
    }
    assert(entries.take(i as int) =~= entries);
}


proof fn lemma_le_i32_at(s: Seq<u8>, p: int, v: i32)
    requires
        0 <= p,
        p + 4 <= s.len(),
        s.subrange(p, p + 4) == i32_le_bytes(v),
    ensures
        le_i32(s, p) == v,
{
    lemma_i32_le_roundtrip(v);
    let b = i32_le_bytes(v);
    assert(s[p] == s.subrange(p, p + 4)[0]);
    assert(s[p + 1] == s.subrange(p, p + 4)[1]);
    assert(s[p + 2] == s.subrange(p, p + 4)[2]);
    assert(s[p + 3] == s.subrange(p, p + 4)[3]);
}

proof fn lemma_field_of_header(
    source: Seq<u8>,
    session_len: int,
    num_vars: int,
    buf_len: int,
)
    requires
        source.len() == HEADER_SIZE,
    ensures
        ({
            let h = fixture_header(source, session_len, num_vars, buf_len);
            let session_offset = HEADER_SIZE + 32 + num_vars * VAR_HEADER_SIZE;
            &&& h.len() == HEADER_SIZE
            &&& le_i32(h, 0) == le_i32(source, 0) as i32
            &&& le_i32(h, 8) == le_i32(source, 8) as i32
            &&& le_i32(h, 16) == session_len as i32
            &&& le_i32(h, 20) == session_offset as i32
            &&& le_i32(h, 24) == num_vars as i32
            &&& le_i32(h, 28) == (HEADER_SIZE + 32) as i32
            &&& le_i32(h, 36) == buf_len as i32
            &&& le_i32(h, 52) == (session_offset + session_len) as i32
        }),
{
    let w = fixture_header_words(source, session_len, num_vars, buf_len);
    assert(w.len() == 28);
    lemma_le_words_read(w, 0);
    lemma_le_words_read(w, 2);
    lemma_le_words_read(w, 4);
    lemma_le_words_read(w, 5);
    lemma_le_words_read(w, 6);
    lemma_le_words_read(w, 7);
    lemma_le_words_read(w, 9);
    lemma_le_words_read(w, 13);
}

proof fn lemma_prefix_parts(source: Seq<u8>, entries: Seq<VarEntry>, session: Seq<u8>, records: int)
    requires
        source.len() == HEADER_SIZE,
        entries_sized(entries),
    ensures
        ({
            let out = fixture_prefix_spec(source, entries, session, records);
            let k = entries.len() as int;
            let table_end = HEADER_SIZE + 32 + VAR_HEADER_SIZE * k;
            &&& out.len() == table_end + session.len()
            &&& out.take(HEADER_SIZE as int) == fixture_header(
                source,
                session.len() as int,
                k,
                packed_len(entries),
            )
            &&& out.subrange(HEADER_SIZE as int, HEADER_SIZE + 32) == disk_header(records)
            &&& out.subrange(HEADER_SIZE + 32, table_end) == moved_table(entries)
            &&& out.subrange(table_end, table_end + session.len()) == session
        }),
{
    let k = entries.len() as int;
    let h = fixture_header(source, session.len() as int, k, packed_len(entries));
    assert(h.len() == HEADER_SIZE) by {
        lemma_field_of_header(source, session.len() as int, k, packed_len(entries));
    }
    let d = disk_header(records);
    assert(d.len() == 32);
    lemma_moved_table_len(entries);
    let t = moved_table(entries);
    let out = fixture_prefix_spec(source, entries, session, records);
    assert(out == h + d + t + session);
    assert(out.take(HEADER_SIZE as int) =~= h);
    assert(out.subrange(HEADER_SIZE as int, HEADER_SIZE + 32) =~= d);
    assert(out.subrange(HEADER_SIZE + 32, HEADER_SIZE + 32 + VAR_HEADER_SIZE * k) =~= t);
    assert(out.subrange(
        HEADER_SIZE + 32 + VAR_HEADER_SIZE * k,
        HEADER_SIZE + 32 + VAR_HEADER_SIZE * k + session.len(),
    ) =~= session);
}

/// Law: the header of a written fixture reads back as the new layout. Its session info is
/// `session`, its variable table holds exactly the kept channels and starts right after
/// the disk sub-header, its samples are the packed length, and it is accepted as
/// telemetry exactly when at least one channel was kept. The disk sub-header is zero
/// apart from the record count.
pub proof fn lemma_fixture_header_reads_back(
    source: Seq<u8>,
    entries: Seq<VarEntry>,
    session: Seq<u8>,
    records: int,
)
    requires
        source.len() == HEADER_SIZE,
        entries_sized(entries),
        HEADER_SIZE + 32 + VAR_HEADER_SIZE * entries.len() + session.len() <= i32::MAX,
        0 <= records <= i32::MAX,
    ensures
        ({
            let out = fixture_prefix_spec(source, entries, session, records);
            let k = entries.len() as int;
            &&& out.len() == HEADER_SIZE + 32 + VAR_HEADER_SIZE * k + session.len()
            &&& header_fields(out.take(HEADER_SIZE as int)) == (IbtHeader {
                version: le_i32(source, 0) as i32,
                tick_rate: le_i32(source, 8) as i32,
                session_len: session.len() as usize,
                session_offset: (HEADER_SIZE + 32 + VAR_HEADER_SIZE * k) as u64,
                num_vars: k as usize,
                var_header_offset: (HEADER_SIZE + 32) as u64,
                buf_len: packed_len(entries) as usize,
                buf_offset: (HEADER_SIZE + 32 + VAR_HEADER_SIZE * k + session.len()) as u64,
            })
            &&& header_plausible(out.take(HEADER_SIZE as int)) == (0 < k <= 10_000)
            &&& out.subrange(HEADER_SIZE as int, HEADER_SIZE + 28) == zeros(28)
            &&& le_i32(out, HEADER_SIZE + 28) == records
            &&& out.subrange(
                HEADER_SIZE + 32 + VAR_HEADER_SIZE * k,
                HEADER_SIZE + 32 + VAR_HEADER_SIZE * k + session.len(),
            ) == session
        }),
{
    let out = fixture_prefix_spec(source, entries, session, records);
    let k = entries.len() as int;
    lemma_packed_len_bounds(entries);
    lemma_prefix_parts(source, entries, session, records);
    lemma_field_of_header(source, session.len() as int, k, packed_len(entries));
    let d = disk_header(records);
    assert(out.subrange(HEADER_SIZE as int, HEADER_SIZE + 28) =~= zeros(28)) by {
        assert(out.subrange(HEADER_SIZE as int, HEADER_SIZE + 28) =~= d.take(28));
    }
    assert(le_i32(out, HEADER_SIZE + 28) == records) by {
        assert(out.subrange(HEADER_SIZE + 28, HEADER_SIZE + 32) =~= i32_le_bytes(records as i32))
            by {
            assert(out.subrange(HEADER_SIZE + 28, HEADER_SIZE + 32) =~= d.subrange(28, 32));
        }
        lemma_le_i32_at(out, HEADER_SIZE + 28, records as i32);
    }
}

proof fn lemma_moved_table_len(entries: Seq<VarEntry>)
    requires
        entries_sized(entries),
    ensures
        moved_table(entries).len() == VAR_HEADER_SIZE * entries.len(),
    decreases entries.len(),
{
    if entries.len() > 0 {
        let prefix = entries.drop_last();
        assert(entries_sized(prefix)) by {
            assert forall|i: int| 0 <= i < prefix.len() implies (#[trigger] prefix[i]).raw@.len()
                == VAR_HEADER_SIZE by {
                assert(prefix[i] == entries[i]);
            }
        }
        lemma_moved_table_len(prefix);
        assert(entries.last() == entries[entries.len() - 1]);
    }
}

proof fn lemma_moved_table_record(entries: Seq<VarEntry>, j: int)
    requires
        entries_sized(entries),
        0 <= j < entries.len(),
    ensures
        moved_table(entries).len() == VAR_HEADER_SIZE * entries.len(),
        moved_table(entries).subrange(VAR_HEADER_SIZE * j, VAR_HEADER_SIZE * j + VAR_HEADER_SIZE)
            == moved_record(entries[j].raw@, packed_offset(entries, j)),
    decreases entries.len(),
{
    lemma_moved_table_len(entries);
    let prefix = entries.drop_last();
    assert(entries_sized(prefix)) by {
        assert forall|i: int| 0 <= i < prefix.len() implies (#[trigger] prefix[i]).raw@.len()
            == VAR_HEADER_SIZE by {
            assert(prefix[i] == entries[i]);
        }
    }
    lemma_moved_table_len(prefix);
    let t = moved_table(entries);
    let tp = moved_table(prefix);
    if j == entries.len() - 1 {
        assert(prefix =~= entries.take(j));
        assert(t.subrange(VAR_HEADER_SIZE * j, VAR_HEADER_SIZE * j + VAR_HEADER_SIZE)
            =~= moved_record(entries[j].raw@, packed_offset(entries, j)));
    } else {
        lemma_moved_table_record(prefix, j);
        assert(prefix.take(j) =~= entries.take(j));
        assert(prefix[j] == entries[j]);
        assert(t.subrange(VAR_HEADER_SIZE * j, VAR_HEADER_SIZE * j + VAR_HEADER_SIZE)
            =~= tp.subrange(VAR_HEADER_SIZE * j, VAR_HEADER_SIZE * j + VAR_HEADER_SIZE));
    }
}

proof fn lemma_moved_record_reads(raw: Seq<u8>, off: int)
    requires
        raw.len() == VAR_HEADER_SIZE,
        0 <= off <= i32::MAX,
    ensures
        var_name(moved_record(raw, off)) == var_name(raw),
        var_of(moved_record(raw, off)) == (Var { ty: var_of(raw).ty, offset: off as usize }),
{
    let moved = moved_record(raw, off);
    assert(moved.len() == VAR_HEADER_SIZE);
    assert(moved.subrange(16, 48) =~= raw.subrange(16, 48));
    assert(moved.subrange(4, 8) =~= i32_le_bytes(off as i32));
    lemma_le_i32_at(moved, 4, off as i32);
    assert(le_i32(moved, 0) == le_i32(raw, 0)) by {
        assert(moved[0] == raw[0]);
        assert(moved[1] == raw[1]);
        assert(moved[2] == raw[2]);
        assert(moved[3] == raw[3]);
    }
}

proof fn lemma_prefix_record(
    source: Seq<u8>,
    entries: Seq<VarEntry>,
    session: Seq<u8>,
    records: int,
    j: int,
)
    requires
        source.len() == HEADER_SIZE,
        entries_sized(entries),
        0 <= j < entries.len(),
    ensures
        ({
            let out = fixture_prefix_spec(source, entries, session, records);
            let start = HEADER_SIZE + 32 + VAR_HEADER_SIZE * j;
            out.subrange(start, start + VAR_HEADER_SIZE) == moved_record(
                entries[j].raw@,
                packed_offset(entries, j),
            )
        }),
{
    let out = fixture_prefix_spec(source, entries, session, records);
    let k = entries.len() as int;
    let start = HEADER_SIZE + 32 + VAR_HEADER_SIZE * j;
    lemma_prefix_parts(source, entries, session, records);
    lemma_moved_table_record(entries, j);
    let table = out.subrange(HEADER_SIZE + 32, HEADER_SIZE + 32 + VAR_HEADER_SIZE * k);
    assert(table == moved_table(entries));
    assert(out.subrange(start, start + VAR_HEADER_SIZE) =~= table.subrange(
        VAR_HEADER_SIZE * j,
        VAR_HEADER_SIZE * j + VAR_HEADER_SIZE,
    ));
}

/// Law: each record of a written fixture's variable table reads back as the kept
/// channel it came from, with the same name and type and its packed offset.
pub proof fn lemma_fixture_table_reads_back(
    source: Seq<u8>,
    entries: Seq<VarEntry>,
    session: Seq<u8>,
    records: int,
    j: int,
)
    requires
        source.len() == HEADER_SIZE,
        entries_sized(entries),
        8 * entries.len() <= i32::MAX,
        0 <= j < entries.len(),
        entries[j].name@ == var_name(entries[j].raw@),
        entries[j].var == var_of(entries[j].raw@),
    ensures
        ({
            let out = fixture_prefix_spec(source, entries, session, records);
            let start = HEADER_SIZE + 32 + VAR_HEADER_SIZE * j;
            let record = out.subrange(start, start + VAR_HEADER_SIZE);
            &&& var_name(record) == entries[j].name@
            &&& var_of(record) == (Var {
                ty: entries[j].var.ty,
                offset: packed_offset(entries, j) as usize,
            })
        }),
{
    lemma_prefix_record(source, entries, session, records, j);
    lemma_packed_prefix_le(entries, j);
    lemma_packed_len_bounds(entries);
    lemma_packed_len_bounds(entries.take(j));
    assert(entries[j].raw@.len() == VAR_HEADER_SIZE);
    lemma_moved_record_reads(entries[j].raw@, packed_offset(entries, j));
}

proof fn lemma_projected_sample(sample: Seq<u8>, entries: Seq<VarEntry>, j: int)
    requires
        values_inside(sample.len() as int, entries),
        0 <= j < entries.len(),
    ensures
        projected_sample(sample, entries).len() == packed_len(entries),
        packed_offset(entries, j) + type_size_spec(entries[j].var.ty) <= packed_len(entries),
        projected_sample(sample, entries).subrange(
            packed_offset(entries, j),
            packed_offset(entries, j) + type_size_spec(entries[j].var.ty),
        ) == sample.subrange(
            entries[j].var.offset as int,
            entries[j].var.offset + type_size_spec(entries[j].var.ty),
        ),
    decreases entries.len(),
{
    lemma_projected_len(sample, entries);
    lemma_packed_offset_step(entries, j);
    lemma_packed_len_bounds(entries.take(j));
    let prefix = entries.drop_last();
    assert(values_inside(sample.len() as int, prefix)) by {
        assert forall|i: int| 0 <= i < prefix.len() implies (#[trigger] prefix[i]).var.offset
            + type_size_spec(prefix[i].var.ty) <= sample.len() by {
            assert(prefix[i] == entries[i]);
        }
    }
    lemma_projected_len(sample, prefix);
    let p = projected_sample(sample, entries);
    let pp = projected_sample(sample, prefix);
    let size = type_size_spec(entries[j].var.ty);
    if j == entries.len() - 1 {
        assert(prefix =~= entries.take(j));
        assert(p.subrange(packed_offset(entries, j), packed_offset(entries, j) + size)
            =~= sample.subrange(
            entries[j].var.offset as int,
            entries[j].var.offset + size,
        ));
    } else {
        lemma_projected_sample(sample, prefix, j);
        assert(prefix.take(j) =~= entries.take(j));
        assert(prefix[j] == entries[j]);
        assert(packed_offset(prefix, j) == packed_offset(entries, j));
        assert(p == pp + sample.subrange(
            entries.last().var.offset as int,
            entries.last().var.offset + type_size_spec(entries.last().var.ty),
        ));
        assert(p.subrange(packed_offset(entries, j), packed_offset(entries, j) + size)
            =~= pp.subrange(packed_offset(prefix, j), packed_offset(prefix, j) + size));
    }
}

proof fn lemma_projected_len(sample: Seq<u8>, entries: Seq<VarEntry>)
    requires
        values_inside(sample.len() as int, entries),
    ensures
        projected_sample(sample, entries).len() == packed_len(entries),
    decreases entries.len(),
{
    if entries.len() > 0 {
        let prefix = entries.drop_last();
        assert(values_inside(sample.len() as int, prefix)) by {
            assert forall|i: int| 0 <= i < prefix.len() implies (#[trigger] prefix[i]).var.offset
                + type_size_spec(prefix[i].var.ty) <= sample.len() by {
                assert(prefix[i] == entries[i]);
            }
        }
        lemma_projected_len(sample, prefix);
        assert(entries.last() == entries[entries.len() - 1]);
    }
}

proof fn lemma_same_bytes_same_value(a: Seq<u8>, oa: int, b: Seq<u8>, ob: int, ty: i32)
    requires
        0 <= oa <= usize::MAX,
        0 <= ob <= usize::MAX,
        oa + type_size_spec(ty) <= a.len(),
        ob + type_size_spec(ty) <= b.len(),
        a.subrange(oa, oa + type_size_spec(ty)) == b.subrange(ob, ob + type_size_spec(ty)),
    ensures
        read_value_spec(a, Some(Var { ty, offset: oa as usize })) == read_value_spec(
            b,
            Some(Var { ty, offset: ob as usize }),
        ),
{
    let n = type_size_spec(ty);
    assert forall|t: int| 0 <= t < n implies #[trigger] a.subrange(oa, oa + n)[t] == a[oa + t]
        && b.subrange(ob, ob + n)[t] == b[ob + t] by {}
    assert(oa as usize == oa);
    assert(ob as usize == ob);
    let sa = a.subrange(oa, oa + n);
    if n == 8 {
        assert(sa[4] == a[oa + 4] && sa[4] == b[ob + 4]);
        assert(sa[5] == a[oa + 5] && sa[5] == b[ob + 5]);
        assert(sa[6] == a[oa + 6] && sa[6] == b[ob + 6]);
        assert(sa[7] == a[oa + 7] && sa[7] == b[ob + 7]);
    }
    if n >= 4 {
        assert(sa[1] == a[oa + 1] && sa[1] == b[ob + 1]);
        assert(sa[2] == a[oa + 2] && sa[2] == b[ob + 2]);
        assert(sa[3] == a[oa + 3] && sa[3] == b[ob + 3]);
    }
    assert(sa[0] == a[oa + 0] && sa[0] == b[ob + 0]);
}

/// Law: every kept channel reads back from a fixture sample with exactly the value it
/// had in the source sample.
pub proof fn lemma_fixture_sample_reads_back(sample: Seq<u8>, entries: Seq<VarEntry>, j: int)
    requires
        8 * entries.len() <= usize::MAX,
        values_inside(sample.len() as int, entries),
        0 <= j < entries.len(),
    ensures
        projected_sample(sample, entries).len() == packed_len(entries),
        read_value_spec(
            projected_sample(sample, entries),
            Some(Var { ty: entries[j].var.ty, offset: packed_offset(entries, j) as usize }),
        ) == read_value_spec(sample, Some(entries[j].var)),
{
    lemma_projected_sample(sample, entries, j);
    lemma_packed_prefix_le(entries, j);
    lemma_packed_len_bounds(entries.take(j));
    assert(entries[j].var.offset + type_size_spec(entries[j].var.ty) <= sample.len());
    lemma_same_bytes_same_value(
        projected_sample(sample, entries),
        packed_offset(entries, j),
        sample,
        entries[j].var.offset as int,
        entries[j].var.ty,
    );
    assert(Var { ty: entries[j].var.ty, offset: entries[j].var.offset } == entries[j].var);
}


/// Why no laps could be chosen for a fixture.
#[derive(Clone, Copy, Debug, PartialEq, Eq, Structural)]
pub enum FixtureError {
    /// The recording has no lap from one line crossing to the next.
    NoCompleteLap,
    /// No run of this many consecutive clean laps exists.
    NoCleanRun(usize),
}

/// The laps `first .. first + count` are all clean.
pub open spec fn clean_run(clean: Seq<bool>, first: int, count: int) -> bool {
    forall|j: int| first <= j < first + count ==> #[trigger] clean[j]
}

/// How many laps a fixture asked for `laps` gets: at least one, at most all there are.
pub open spec fn wanted_laps(laps: int, available: int) -> int {
    let asked = if laps < 1 {
        1
    } else {
        laps
    };
    if asked < available {
        asked
    } else {
        available
    }
}

/// Chooses the laps for a fixture. `clean[i]` says whether the lap between the `i`th and
/// the next line crossing was driven continuously. The result is the first of the earliest
/// run of consecutive clean laps, and the run's length: `laps` (at least one), or fewer when
/// the recording holds fewer laps.
pub fn choose_fixture_laps(laps: usize, clean: &[bool]) -> (res: Result<(usize, usize), FixtureError>)
    ensures
        ({
            let wanted = wanted_laps(laps as int, clean@.len() as int);
            &&& (res is Err && res->Err_0 == FixtureError::NoCompleteLap) <==> wanted == 0
            &&& res matches Ok((first, count)) ==> {
                &&& count == wanted
                &&& first + count <= clean@.len()
                &&& clean_run(clean@, first as int, count as int)
                &&& forall|k: int| 0 <= k < first ==> !clean_run(clean@, k, wanted)
            }
            &&& res matches Err(FixtureError::NoCleanRun(count)) ==> {
                &&& count == wanted
                &&& wanted > 0
                &&& forall|k: int|
                    0 <= k && k + wanted <= clean@.len() ==> !clean_run(clean@, k, wanted)
            }
        }),
{
    let asked = if laps < 1 {
        1
    } else {
        laps
    };
    let n = clean.len();
    let wanted = if asked < n {
        asked
    } else {
        n
    };
    if wanted == 0 {
        return Err(FixtureError::NoCompleteLap);
    }
    let mut k: usize = 0;
    while k <= n - wanted
        invariant
            n == clean@.len(),
            0 < wanted <= n,
            wanted == wanted_laps(laps as int, n as int),
            k <= n,
            forall|m: int| 0 <= m < k ==> !clean_run(clean@, m, wanted as int),
        decreases n - k,
    {
        let mut j: usize = k;
        let mut all_clean = true;
        while j < k + wanted
            invariant
                n == clean@.len(),
                k + wanted <= n,
                k <= j <= k + wanted,
                all_clean == clean_run(clean@, k as int, j - k),
            decreases k + wanted - j,
        {
            if !clean[j] {
                all_clean = false;
            }
            j = j + 1;
        }
        if all_clean {
            return Ok((k, wanted));
        }
        k = k + 1;
    }
    Err(FixtureError::NoCleanRun(wanted))
}

/// The channels the telemetry reader looks up (see `channels_of`).
pub open spec fn reader_channel_names() -> Seq<&'static str> {
    seq![
        "SessionTime", "Lap", "LapDistPct", "Speed", "Throttle", "Brake", "Gear",
        "SteeringWheelAngle", "YawNorth", "Yaw", "Lat", "Lon", "OnPitRoad", "LapLastLapTime",
        "LatAccel", "LongAccel", "YawRate", "BrakeABSactive", "LFtempCL", "RFtempCL", "LRtempCL",
        "RRtempCL",
    ]
}

/// A variable found for a listed name is among those kept for the list.
proof fn lemma_listed_is_kept(vars: Seq<VarEntry>, names: Seq<&'static str>, k: int, j: int)
    requires
        0 <= k < names.len(),
        kept_from(vars, names[k].spec_bytes(), 0) == Some(j),
    ensures
        kept_spec(vars, names).contains(j),
    decreases names.len(),
{
    let rest = kept_spec(vars, names.drop_last());
    if k == names.len() - 1 {
        assert(kept_spec(vars, names) == rest.push(j));
        assert(rest.push(j)[rest.len() as int] == j);
    } else {
        assert(names.drop_last()[k] == names[k]);
        lemma_listed_is_kept(vars, names.drop_last(), k, j);
        let i = choose|i: int| 0 <= i < rest.len() && rest[i] == j;
        match kept_from(vars, names.last().spec_bytes(), 0) {
            Some(x) => {
                assert(rest.push(x)[i] == j);
            },
            None => {},
        }
    }
}

/// Law: every channel the reader uses is written into fixtures. Each reader channel is
/// among the fixture channels, so a keepable variable of that name is kept.
pub proof fn lemma_fixture_keeps_reader_channels(vars: Seq<VarEntry>, name: &'static str, j: int)
    requires
        reader_channel_names().contains(name),
        kept_from(vars, name.spec_bytes(), 0) == Some(j),
    ensures
        fixture_channel_names().contains(name),
        kept_spec(vars, fixture_channel_names()).contains(j),
{
    let f = fixture_channel_names();
    let r = reader_channel_names();
    let i = choose|i: int| 0 <= i < r.len() && r[i] == name;
    let k: int = if i == 0 {
        0
    } else if i == 1 {
        1
    } else if i == 2 {
        2
    } else if i == 3 {
        5
    } else if i == 4 {
        8
    } else if i == 5 {
        9
    } else if i == 6 {
        7
    } else if i == 7 {
        10
    } else if i == 8 {
        12
    } else if i == 9 {
        11
    } else if i == 10 {
        13
    } else if i == 11 {
        14
    } else if i == 12 {
        17
    } else if i == 13 {
        4
    } else if i == 14 {
        15
    } else if i == 15 {
        16
    } else if i == 16 {
        23
    } else if i == 17 {
        24
    } else if i == 18 {
        19
    } else if i == 19 {
        20
    } else if i == 20 {
        21
    } else {
        22
    };
    assert(f[k] == name);
    lemma_listed_is_kept(vars, f, k, j);
}

} // verus!
