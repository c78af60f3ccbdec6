//! The `.ibt` telemetry format: the file header, the variable table and sample buffers.

use vstd::prelude::*;
use vstd::slice::{slice_subrange, slice_to_vec};
use vstd::string::StringSliceAdditionalSpecFns;

verus! {

/// Size of the main file header.
pub const HEADER_SIZE: usize = 112;

/// Size of one entry in the variable table.
pub const VAR_HEADER_SIZE: usize = 144;

/// Unsigned little-endian value of the four bytes of `b` starting at `at`.
pub open spec fn le_u32(b: Seq<u8>, at: int) -> int {
    b[at] + 256 * b[at + 1] + 65536 * b[at + 2] + 16777216 * b[at + 3]
}

/// Two's-complement little-endian value of the four bytes of `b` starting at `at`.
pub open spec fn le_i32(b: Seq<u8>, at: int) -> int {
    let u = le_u32(b, at);
    if u < 0x8000_0000 {
        u
    } else {
        u - 0x1_0000_0000
    }
}

/// Unsigned little-endian value of the eight bytes of `b` starting at `at`.
pub open spec fn le_u64(b: Seq<u8>, at: int) -> int {
    le_u32(b, at) + 0x1_0000_0000 * le_u32(b, at + 4)
}

/// The four little-endian bytes that encode `v` in two's complement.
pub open spec fn i32_le_bytes(v: i32) -> Seq<u8> {
    let u: int = if v >= 0 {
        v as int
    } else {
        v + 0x1_0000_0000
    };
    seq![
        (u % 256) as u8,
        ((u / 256) % 256) as u8,
        ((u / 65536) % 256) as u8,
        (u / 16777216) as u8,
    ]
}

/// Encoding four bytes and reading them back gives the value that was encoded.
pub proof fn lemma_i32_le_roundtrip(v: i32)
    ensures
        i32_le_bytes(v).len() == 4,
        le_i32(i32_le_bytes(v), 0) == v,
{
    let u: int = if v >= 0 {
        v as int
    } else {
        v + 0x1_0000_0000
    };
    assert(0 <= u < 0x1_0000_0000);
    let b = i32_le_bytes(v);
    assert(b[0] == u % 256);
    assert(b[1] == (u / 256) % 256);
    assert(b[2] == (u / 65536) % 256);
    assert(b[3] == u / 16777216);
    assert(u == u % 256 + 256 * ((u / 256) % 256) + 65536 * ((u / 65536) % 256) + 16777216 * (u
        / 16777216)) by (nonlinear_arith)
        requires
            0 <= u < 0x1_0000_0000,
    ;
}

fn u32_at(bytes: &[u8], offset: usize) -> (v: u32)
    requires
        offset + 4 <= bytes@.len(),
    ensures
        v as int == le_u32(bytes@, offset as int),
{
    (bytes[offset] as u32) + (bytes[offset + 1] as u32) * 256 + (bytes[offset + 2] as u32) * 65536
        + (bytes[offset + 3] as u32) * 16777216
}

/// The signed 32-bit little-endian integer at `offset`.
pub fn i32_at(bytes: &[u8], offset: usize) -> (v: i32)
    requires
        offset + 4 <= bytes@.len(),
    ensures
        v as int == le_i32(bytes@, offset as int),
{
    let u = u32_at(bytes, offset);
    if u < 0x8000_0000 {
        u as i32
    } else {
        ((u - 0x8000_0000) as i32) - 0x7fff_ffff - 1
    }
}

fn u64_at(bytes: &[u8], offset: usize) -> (v: u64)
    requires
        offset + 8 <= bytes@.len(),
    ensures
        v as int == le_u64(bytes@, offset as int),
{
    let n = bytes.len();
    assert(offset + 4 <= n);
    let lo = u32_at(bytes, offset) as u64;
    let hi = u32_at(bytes, offset + 4) as u64;
    lo + hi * 0x1_0000_0000
}

/// Appends the little-endian encoding of `v`.
pub fn push_i32(out: &mut Vec<u8>, v: i32)
    ensures
        final(out)@ == old(out)@ + i32_le_bytes(v),
{
    let u: u32 = if v >= 0 {
        v as u32
    } else {
        ((v + 0x7fff_ffff + 1) as u32) + 0x8000_0000
    };
    out.push((u % 256) as u8);
    out.push(((u / 256) % 256) as u8);
    out.push(((u / 65536) % 256) as u8);
    out.push((u / 16777216) as u8);
}


/// Size in bytes of one value of the given variable type: one for chars and bools (types 0
/// and 1), eight for doubles (type 5), four for everything else.
pub open spec fn type_size_spec(ty: i32) -> int {
    if ty == 0 || ty == 1 {
        1
    } else if ty == 5 {
        8
    } else {
        4
    }
}

/// Size in bytes of one value of the given variable type.
pub fn type_size(ty: i32) -> (size: usize)
    ensures
        size == type_size_spec(ty),
{
    match ty {
        0 | 1 => 1,
        5 => 8,
        _ => 4,
    }
}

/// Why a byte buffer was refused as telemetry.
#[derive(Clone, Copy, Debug, PartialEq, Eq, Structural)]
pub enum IbtError {
    /// The header's variable count or buffer length is zero, or the variable count is
    /// implausibly large.
    NotTelemetry,
    /// One of the `Lap`, `LapDistPct` or `SessionTime` channels is absent.
    MissingChannels,
}

/// The fields of the main header that the reader and the fixture writer use.
#[derive(Clone, Copy, Debug, PartialEq, Eq, Structural)]
pub struct IbtHeader {
    pub version: i32,
    pub tick_rate: i32,
    pub session_len: usize,
    pub session_offset: u64,
    pub num_vars: usize,
    pub var_header_offset: u64,
    pub buf_len: usize,
    pub buf_offset: u64,
}

/// Whether the header's counts describe a telemetry file: at least one variable, no more
/// than ten thousand, and a non-empty sample buffer.
pub open spec fn header_plausible(h: Seq<u8>) -> bool {
    let num_vars = le_i32(h, 24) as usize;
    let buf_len = le_i32(h, 36) as usize;
    !(num_vars == 0 || buf_len == 0 || num_vars > 10_000)
}

/// The header fields as the reader takes them (offsets and sizes as unsigned integers).
pub open spec fn header_fields(h: Seq<u8>) -> IbtHeader {
    IbtHeader {
        version: le_i32(h, 0) as i32,
        tick_rate: le_i32(h, 8) as i32,
        session_len: le_i32(h, 16) as usize,
        session_offset: le_i32(h, 20) as u64,
        num_vars: le_i32(h, 24) as usize,
        var_header_offset: le_i32(h, 28) as u64,
        buf_len: le_i32(h, 36) as usize,
        buf_offset: le_i32(h, 52) as u64,
    }
}

/// Decodes the 112-byte main header.
pub fn parse_header(header: &[u8]) -> (res: Result<IbtHeader, IbtError>)
    requires
        header@.len() == HEADER_SIZE,
    ensures
        res matches Ok(h) ==> header_plausible(header@) && h == header_fields(header@),
        res matches Err(e) ==> !header_plausible(header@) && e == IbtError::NotTelemetry,
{
    let version = i32_at(header, 0);
    let tick_rate = i32_at(header, 8);
    let session_len = i32_at(header, 16) as usize;
    let session_offset = i32_at(header, 20) as u64;
    let num_vars = i32_at(header, 24) as usize;
    let var_header_offset = i32_at(header, 28) as u64;
    let buf_len = i32_at(header, 36) as usize;
    let buf_offset = i32_at(header, 52) as u64;
    if num_vars == 0 || buf_len == 0 || num_vars > 10_000 {
        return Err(IbtError::NotTelemetry);
    }
    Ok(IbtHeader {
        version,
        tick_rate,
        session_len,
        session_offset,
        num_vars,
        var_header_offset,
        buf_len,
        buf_offset,
    })
}

/// Where a channel's value sits in a sample buffer, and how it is encoded.
#[derive(Clone, Copy, Debug, PartialEq, Eq, Structural)]
pub struct Var {
    pub ty: i32,
    pub offset: usize,
}

/// One entry of the variable table: its name (the bytes before the first NUL of the name
/// field), its type and offset, and the raw 144 bytes it was read from.
#[derive(Debug)]
pub struct VarEntry {
    pub name: Vec<u8>,
    pub var: Var,
    pub raw: Vec<u8>,
}

/// Number of leading bytes of `s` before the first NUL (all of `s` when it has none).
pub open spec fn nul_end(s: Seq<u8>) -> int
    decreases s.len(),
{
    if s.len() == 0 || s[0] == 0 {
        0
    } else {
        1 + nul_end(s.drop_first())
    }
}

/// A variable's name: bytes 16..48 of its table entry, up to the first NUL.
pub open spec fn var_name(raw: Seq<u8>) -> Seq<u8> {
    let field = raw.subrange(16, 48);
    field.take(nul_end(field))
}

/// A variable's type (bytes 0..4) and offset into the sample buffer (bytes 4..8).
pub open spec fn var_of(raw: Seq<u8>) -> Var {
    Var { ty: le_i32(raw, 0) as i32, offset: le_i32(raw, 4) as usize }
}

/// `e` was decoded from the table entry `raw`.
pub open spec fn entry_decodes(e: VarEntry, raw: Seq<u8>) -> bool {
    &&& raw.len() == VAR_HEADER_SIZE
    &&& e.raw@ == raw
    &&& e.name@ == var_name(raw)
    &&& e.var == var_of(raw)
}

pub(crate) proof fn lemma_nul_end(s: Seq<u8>, k: int)
    requires
        0 <= k <= s.len(),
        forall|i: int| 0 <= i < k ==> s[i] != 0,
        k == s.len() || s[k] == 0,
    ensures
        nul_end(s) == k,
    decreases k,
{
    if k > 0 {
        lemma_nul_end(s.drop_first(), k - 1);
    }
}

fn decode_var_entry(raw: &[u8]) -> (e: VarEntry)
    requires
        raw@.len() == VAR_HEADER_SIZE,
    ensures
        entry_decodes(e, raw@),
{
    let mut end: usize = 16;
    while end < 48 && raw[end] != 0
        invariant
            16 <= end <= 48,
            raw@.len() == VAR_HEADER_SIZE,
            forall|i: int| 16 <= i < end ==> raw@[i] != 0,
        decreases 48 - end,
    {
        end = end + 1;
    }
    proof {
        let field = raw@.subrange(16, 48);
        lemma_nul_end(field, end - 16);
        assert(field.take(end - 16) =~= raw@.subrange(16, end as int));
    }
    let name = slice_to_vec(slice_subrange(raw, 16, end));
    let ty = i32_at(raw, 0);
    let offset = i32_at(raw, 4) as usize;
    VarEntry { name, var: Var { ty, offset }, raw: slice_to_vec(raw) }
}

/// Splits the variable table into 144-byte entries (a shorter tail is ignored) and
/// decodes each.
pub fn parse_var_table(bytes: &[u8]) -> (entries: Vec<VarEntry>)
    ensures
        entries@.len() == bytes@.len() / 144,
        forall|i: int|
            0 <= i < entries@.len() ==> entry_decodes(
                #[trigger] entries@[i],
                bytes@.subrange(144 * i, 144 * i + 144),
            ),
{
    let len = bytes.len();
    let n = len / 144;
    let mut entries: Vec<VarEntry> = Vec::new();
    let mut i: usize = 0;
    let mut start: usize = 0;
    while i < n
        invariant
            len == bytes@.len(),
            n == bytes@.len() / 144,
            i <= n,
            start == 144 * i,
            entries@.len() == i,
            forall|j: int|
                0 <= j < i ==> entry_decodes(
                    #[trigger] entries@[j],
                    bytes@.subrange(144 * j, 144 * j + 144),
                ),
        decreases n - i,
    {
        assert(144 * i + 144 <= bytes@.len()) by (nonlinear_arith)
            requires
                i < n,
                n == bytes@.len() / 144,
        ;
        let e = decode_var_entry(slice_subrange(bytes, start, start + 144));
        entries.push(e);
        i = i + 1;
        start = start + 144;
    }
    entries
}

/// The first variable named `name`, if any.
pub open spec fn find_var_spec(vars: Seq<VarEntry>, name: Seq<u8>) -> Option<Var>
    decreases vars.len(),
{
    if vars.len() == 0 {
        None
    } else if vars[0].name@ == name {
        Some(vars[0].var)
    } else {
        find_var_spec(vars.drop_first(), name)
    }
}

/// The channel of the given name: the first variable whose name is its UTF-8 bytes.
pub open spec fn channel(vars: Seq<VarEntry>, name: &str) -> Option<Var> {
    find_var_spec(vars, name.spec_bytes())
}

pub(crate) fn bytes_eq(a: &[u8], b: &[u8]) -> (eq: bool)
    ensures
        eq == (a@ == b@),
{
    if a.len() != b.len() {
        return false;
    }
    let mut i: usize = 0;
    while i < a.len()
        invariant
            a@.len() == b@.len(),
            i <= a@.len(),
            forall|j: int| 0 <= j < i ==> a@[j] == b@[j],
        decreases a@.len() - i,
    {
        if a[i] != b[i] {
            return false;
        }
        i = i + 1;
    }
    assert(a@ =~= b@);
    true
}

proof fn lemma_find_var_skip(vars: Seq<VarEntry>, name: Seq<u8>, i: int)
    requires
        0 <= i <= vars.len(),
        forall|j: int| 0 <= j < i ==> vars[j].name@ != name,
    ensures
        find_var_spec(vars, name) == find_var_spec(vars.skip(i), name),
    decreases i,
{
    if i > 0 {
        lemma_find_var_skip(vars.drop_first(), name, i - 1);
        assert(vars.drop_first().skip(i - 1) =~= vars.skip(i));
    } else {
        assert(vars.skip(0) =~= vars);
    }
}

/// Looks a channel up by name: the first variable in table order that carries it.
pub fn find_var(vars: &[VarEntry], name: &str) -> (found: Option<Var>)
    ensures
        found == channel(vars@, name),
{
    let target = name.as_bytes();
    let mut i: usize = 0;
    while i < vars.len()
        invariant
            i <= vars@.len(),
            target@ == name.spec_bytes(),
            forall|j: int| 0 <= j < i ==> vars@[j].name@ != target@,
        decreases vars@.len() - i,
    {
        if bytes_eq(vars[i].name.as_slice(), target) {
            proof {
                lemma_find_var_skip(vars@, target@, i as int);
                assert(vars@.skip(i as int)[0] == vars@[i as int]);
            }
            return Some(vars[i].var);
        }
        i = i + 1;
    }
    proof {
        lemma_find_var_skip(vars@, target@, i as int);
    }
    None
}


/// A channel value exactly as stored: the integer it encodes, or the bit pattern of a
/// 32-bit or 64-bit IEEE float.
#[derive(Clone, Copy, Debug, PartialEq, Eq, Structural)]
pub enum RawValue {
    /// Types 0 (char) and 1 (bool): one byte.
    Byte(u8),
    /// Type 2: a signed 32-bit integer.
    Int(i32),
    /// Type 3: a 32-bit bit field.
    UInt(u32),
    /// Type 4: the bits of a 32-bit float.
    Float(u32),
    /// Type 5: the bits of a 64-bit float.
    Double(u64),
}

/// The value of `var` in `sample`: none when the channel is absent, its offset lies past
/// the end of the sample, its bytes run past the end, or its type is unknown.
pub open spec fn read_value_spec(sample: Seq<u8>, var: Option<Var>) -> Option<RawValue> {
    match var {
        None => None,
        Some(v) => {
            let o = v.offset as int;
            if o > sample.len() {
                None
            } else if v.ty == 0 || v.ty == 1 {
                if o + 1 <= sample.len() {
                    Some(RawValue::Byte(sample[o]))
                } else {
                    None
                }
            } else if v.ty == 2 {
                if o + 4 <= sample.len() {
                    Some(RawValue::Int(le_i32(sample, o) as i32))
                } else {
                    None
                }
            } else if v.ty == 3 || v.ty == 4 {
                if o + 4 <= sample.len() {
                    if v.ty == 3 {
                        Some(RawValue::UInt(le_u32(sample, o) as u32))
                    } else {
                        Some(RawValue::Float(le_u32(sample, o) as u32))
                    }
                } else {
                    None
                }
            } else if v.ty == 5 {
                if o + 8 <= sample.len() {
                    Some(RawValue::Double(le_u64(sample, o) as u64))
                } else {
                    None
                }
            } else {
                None
            }
        },
    }
}

/// Reads one channel out of a sample buffer.
pub fn read_value(sample: &[u8], var: &Option<Var>) -> (value: Option<RawValue>)
    ensures
        value == read_value_spec(sample@, *var),
{
    let v = match var {
        None => return None,
        Some(v) => *v,
    };
    let len = sample.len();
    let o = v.offset;
    if o > len {
        return None;
    }
    if v.ty == 0 || v.ty == 1 {
        if o < len {
            Some(RawValue::Byte(sample[o]))
        } else {
            None
        }
    } else if v.ty == 2 {
        if len - o >= 4 {
            Some(RawValue::Int(i32_at(sample, o)))
        } else {
            None
        }
    } else if v.ty == 3 {
        if len - o >= 4 {
            Some(RawValue::UInt(u32_at(sample, o)))
        } else {
            None
        }
    } else if v.ty == 4 {
        if len - o >= 4 {
            Some(RawValue::Float(u32_at(sample, o)))
        } else {
            None
        }
    } else if v.ty == 5 {
        if len - o >= 8 {
            Some(RawValue::Double(u64_at(sample, o)))
        } else {
            None
        }
    } else {
        None
    }
}

/// The channels the reader uses, each looked up by name in the variable table.
#[derive(Debug)]
pub struct Channels {
    pub time: Option<Var>,
    pub lap: Option<Var>,
    pub pct: Option<Var>,
    pub speed: Option<Var>,
    pub throttle: Option<Var>,
    pub brake: Option<Var>,
    pub gear: Option<Var>,
    pub steer: Option<Var>,
    /// `YawNorth`, or plain `Yaw` when a file has no `YawNorth`.
    pub yaw: Option<Var>,
    pub lat: Option<Var>,
    pub lon: Option<Var>,
    pub pit: Option<Var>,
    pub last_lap: Option<Var>,
    pub lat_accel: Option<Var>,
    pub long_accel: Option<Var>,
    pub yaw_rate: Option<Var>,
    pub abs: Option<Var>,
    /// Left-front, right-front, left-rear and right-rear centre tyre temperatures.
    pub tyres: Vec<Option<Var>>,
}

/// What `resolve_channels` finds in a variable table.
pub open spec fn channels_of(vars: Seq<VarEntry>, c: Channels) -> bool {
    &&& c.time == channel(vars, "SessionTime")
    &&& c.lap == channel(vars, "Lap")
    &&& c.pct == channel(vars, "LapDistPct")
    &&& c.speed == channel(vars, "Speed")
    &&& c.throttle == channel(vars, "Throttle")
    &&& c.brake == channel(vars, "Brake")
    &&& c.gear == channel(vars, "Gear")
    &&& c.steer == channel(vars, "SteeringWheelAngle")
    &&& c.yaw == (if channel(vars, "YawNorth") is Some {
        channel(vars, "YawNorth")
    } else {
        channel(vars, "Yaw")
    })
    &&& c.lat == channel(vars, "Lat")
    &&& c.lon == channel(vars, "Lon")
    &&& c.pit == channel(vars, "OnPitRoad")
    &&& c.last_lap == channel(vars, "LapLastLapTime")
    &&& c.lat_accel == channel(vars, "LatAccel")
    &&& c.long_accel == channel(vars, "LongAccel")
    &&& c.yaw_rate == channel(vars, "YawRate")
    &&& c.abs == channel(vars, "BrakeABSactive")
    &&& c.tyres@ == seq![
        channel(vars, "LFtempCL"),
        channel(vars, "RFtempCL"),
        channel(vars, "LRtempCL"),
        channel(vars, "RRtempCL"),
    ]
}

/// Looks up every channel the reader uses. A file without `Lap`, `LapDistPct` or
/// `SessionTime` cannot be split into laps and is refused.
pub fn resolve_channels(vars: &[VarEntry]) -> (res: Result<Channels, IbtError>)
    ensures
        res matches Ok(c) ==> channels_of(vars@, c) && c.lap is Some && c.pct is Some
            && c.time is Some,
        res matches Err(e) ==> e == IbtError::MissingChannels && (channel(vars@, "Lap") is None
            || channel(vars@, "LapDistPct") is None || channel(vars@, "SessionTime") is None),
{
    let time = find_var(vars, "SessionTime");
    let lap = find_var(vars, "Lap");
    let pct = find_var(vars, "LapDistPct");
    let yaw_north = find_var(vars, "YawNorth");
    let yaw = match yaw_north {
        Some(v) => Some(v),
        None => find_var(vars, "Yaw"),
    };
    let mut tyres: Vec<Option<Var>> = Vec::new();
    tyres.push(find_var(vars, "LFtempCL"));
    tyres.push(find_var(vars, "RFtempCL"));
    tyres.push(find_var(vars, "LRtempCL"));
    tyres.push(find_var(vars, "RRtempCL"));
    if lap.is_none() || pct.is_none() || time.is_none() {
        return Err(IbtError::MissingChannels);
    }
    let c = Channels {
        time,
        lap,
        pct,
        speed: find_var(vars, "Speed"),
        throttle: find_var(vars, "Throttle"),
        brake: find_var(vars, "Brake"),
        gear: find_var(vars, "Gear"),
        steer: find_var(vars, "SteeringWheelAngle"),
        yaw,
        lat: find_var(vars, "Lat"),
        lon: find_var(vars, "Lon"),
        pit: find_var(vars, "OnPitRoad"),
        last_lap: find_var(vars, "LapLastLapTime"),
        lat_accel: find_var(vars, "LatAccel"),
        long_accel: find_var(vars, "LongAccel"),
        yaw_rate: find_var(vars, "YawRate"),
        abs: find_var(vars, "BrakeABSactive"),
        tyres,
    };
    proof {
        assert(c.tyres@ =~= seq![
            channel(vars@, "LFtempCL"),
            channel(vars@, "RFtempCL"),
            channel(vars@, "LRtempCL"),
            channel(vars@, "RRtempCL"),
        ]);
    }
    Ok(c)
}

/// The values present among `values`, in order.
pub open spec fn present_values(values: Seq<Option<RawValue>>) -> Seq<RawValue>
    decreases values.len(),
{
    if values.len() == 0 {
        Seq::empty()
    } else {
        let rest = present_values(values.drop_last());
        match values.last() {
            Some(v) => rest.push(v),
            None => rest,
        }
    }
}

/// One sample decoded channel by channel.
#[derive(Debug)]
pub struct RawSample {
    pub time: Option<RawValue>,
    pub lap: Option<RawValue>,
    pub pct: Option<RawValue>,
    pub speed: Option<RawValue>,
    pub throttle: Option<RawValue>,
    pub brake: Option<RawValue>,
    pub gear: Option<RawValue>,
    pub steer: Option<RawValue>,
    pub yaw: Option<RawValue>,
    pub lat: Option<RawValue>,
    pub lon: Option<RawValue>,
    pub pit: Option<RawValue>,
    pub last_lap: Option<RawValue>,
    pub lat_accel: Option<RawValue>,
    pub long_accel: Option<RawValue>,
    pub yaw_rate: Option<RawValue>,
    pub abs: Option<RawValue>,
    /// The tyre temperatures that could be read, in channel order.
    pub tyres: Vec<RawValue>,
}

/// Decodes every channel of one sample buffer.
pub fn decode_sample(sample: &[u8], c: &Channels) -> (d: RawSample)
    ensures
        d.time == read_value_spec(sample@, c.time),
        d.lap == read_value_spec(sample@, c.lap),
        d.pct == read_value_spec(sample@, c.pct),
        d.speed == read_value_spec(sample@, c.speed),
        d.throttle == read_value_spec(sample@, c.throttle),
        d.brake == read_value_spec(sample@, c.brake),
        d.gear == read_value_spec(sample@, c.gear),
        d.steer == read_value_spec(sample@, c.steer),
        d.yaw == read_value_spec(sample@, c.yaw),
        d.lat == read_value_spec(sample@, c.lat),
        d.lon == read_value_spec(sample@, c.lon),
        d.pit == read_value_spec(sample@, c.pit),
        d.last_lap == read_value_spec(sample@, c.last_lap),
        d.lat_accel == read_value_spec(sample@, c.lat_accel),
        d.long_accel == read_value_spec(sample@, c.long_accel),
        d.yaw_rate == read_value_spec(sample@, c.yaw_rate),
        d.abs == read_value_spec(sample@, c.abs),
        d.tyres@ == present_values(c.tyres@.map_values(|t: Option<Var>| read_value_spec(sample@, t))),
{
    let mut tyres: Vec<RawValue> = Vec::new();
    let ghost reads = c.tyres@.map_values(|t: Option<Var>| read_value_spec(sample@, t));
    let mut i: usize = 0;
    while i < c.tyres.len()
        invariant
            i <= c.tyres@.len(),
            reads == c.tyres@.map_values(|t: Option<Var>| read_value_spec(sample@, t)),
            tyres@ == present_values(reads.take(i as int)),
        decreases c.tyres@.len() - i,
    {
        let r = read_value(sample, &c.tyres[i]);
        proof {
            assert(reads.take(i + 1).drop_last() =~= reads.take(i as int));
        }
        match r {
            Some(v) => tyres.push(v),
            None => {},
        }
        i = i + 1;
    }
    proof {
        assert(reads.take(i as int) =~= reads);
    }
    RawSample {
        time: read_value(sample, &c.time),
        lap: read_value(sample, &c.lap),
        pct: read_value(sample, &c.pct),
        speed: read_value(sample, &c.speed),
        throttle: read_value(sample, &c.throttle),
        brake: read_value(sample, &c.brake),
        gear: read_value(sample, &c.gear),
        steer: read_value(sample, &c.steer),
        yaw: read_value(sample, &c.yaw),
        lat: read_value(sample, &c.lat),
        lon: read_value(sample, &c.lon),
        pit: read_value(sample, &c.pit),
        last_lap: read_value(sample, &c.last_lap),
        lat_accel: read_value(sample, &c.lat_accel),
        long_accel: read_value(sample, &c.long_accel),
        yaw_rate: read_value(sample, &c.yaw_rate),
        abs: read_value(sample, &c.abs),
        tyres,
    }
}

/// Law: the heading is north-referenced whenever the file can give it. When the table has
/// a `YawNorth` channel the heading channel is that one; plain `Yaw` stands in only when
/// `YawNorth` is absent.
pub proof fn lemma_heading_prefers_yaw_north(vars: Seq<VarEntry>, c: Channels)
    requires
        channels_of(vars, c),
    ensures
        channel(vars, "YawNorth") is Some ==> c.yaw == channel(vars, "YawNorth"),
        channel(vars, "YawNorth") is None ==> c.yaw == channel(vars, "Yaw"),
{
}

} // verus!
