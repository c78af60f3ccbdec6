use pit_crew_coach::fixture::{
    append_fixture_sample, choose_fixture_laps, fixture_channels, fixture_kept, fixture_prefix,
    FixtureError,
};
use pit_crew_coach::ibt::{
    decode_sample, find_var, i32_at, parse_header, parse_var_table, push_i32, read_value,
    resolve_channels, type_size, IbtError, RawValue, Var,
};

fn put(buf: &mut [u8], at: usize, v: i32) {
    buf[at..at + 4].copy_from_slice(&v.to_le_bytes());
}

fn record(name: &str, ty: i32, offset: i32, count: i32) -> Vec<u8> {
    let mut r = vec![0u8; 144];
    put(&mut r, 0, ty);
    put(&mut r, 4, offset);
    put(&mut r, 8, count);
    r[16..16 + name.len()].copy_from_slice(name.as_bytes());
    r
}

fn header(num_vars: i32, buf_len: i32) -> Vec<u8> {
    let mut h = vec![0u8; 112];
    put(&mut h, 0, 2);
    put(&mut h, 8, 60);
    put(&mut h, 16, 40);
    put(&mut h, 20, 1000);
    put(&mut h, 24, num_vars);
    put(&mut h, 28, 144);
    put(&mut h, 36, buf_len);
    put(&mut h, 52, 2000);
    h
}

#[test]
fn i32_at_reads_little_endian_two_complement() {
    let bytes = [0x78, 0x56, 0x34, 0x12, 0xff, 0xff, 0xff, 0xff, 0x00, 0x00, 0x00, 0x80];
    assert_eq!(i32_at(&bytes, 0), 0x1234_5678);
    assert_eq!(i32_at(&bytes, 4), -1);
    assert_eq!(i32_at(&bytes, 8), i32::MIN);
    assert_eq!(i32_at(&bytes, 2), 0xffff_1234u32 as i32);
}

#[test]
fn push_i32_writes_what_i32_at_reads() {
    for v in [0, 1, -1, 123_456, -98_765, i32::MAX, i32::MIN] {
        let mut out = vec![9u8];
        push_i32(&mut out, v);
        assert_eq!(out.len(), 5);
        assert_eq!(&out[1..], &v.to_le_bytes());
        assert_eq!(i32_at(&out, 1), v);
    }
}

#[test]
fn type_sizes_match_the_format() {
    assert_eq!(type_size(0), 1);
    assert_eq!(type_size(1), 1);
    assert_eq!(type_size(2), 4);
    assert_eq!(type_size(3), 4);
    assert_eq!(type_size(4), 4);
    assert_eq!(type_size(5), 8);
    assert_eq!(type_size(17), 4);
}

#[test]
fn header_fields_are_decoded() {
    let h = parse_header(&header(3, 24)).expect("header");
    assert_eq!(h.version, 2);
    assert_eq!(h.tick_rate, 60);
    assert_eq!(h.session_len, 40);
    assert_eq!(h.session_offset, 1000);
    assert_eq!(h.num_vars, 3);
    assert_eq!(h.var_header_offset, 144);
    assert_eq!(h.buf_len, 24);
    assert_eq!(h.buf_offset, 2000);
}

#[test]
fn implausible_headers_are_refused() {
    assert_eq!(parse_header(&header(0, 24)), Err(IbtError::NotTelemetry));
    assert_eq!(parse_header(&header(3, 0)), Err(IbtError::NotTelemetry));
    assert_eq!(parse_header(&header(10_001, 24)), Err(IbtError::NotTelemetry));
    assert!(parse_header(&header(10_000, 24)).is_ok());
}

#[test]
fn variable_table_entries_are_split_and_named() {
    let mut table = record("Lap", 2, 0, 1);
    table.extend(record("LapDistPct", 4, 4, 1));
    table.extend([1, 2, 3]);
    let vars = parse_var_table(&table);
    assert_eq!(vars.len(), 2);
    assert_eq!(vars[0].name, b"Lap".to_vec());
    assert_eq!(vars[0].var, Var { ty: 2, offset: 0 });
    assert_eq!(vars[1].name, b"LapDistPct".to_vec());
    assert_eq!(vars[1].var, Var { ty: 4, offset: 4 });
    assert_eq!(vars[1].raw.len(), 144);
}

#[test]
fn full_length_names_have_no_terminator() {
    let long = "A".repeat(32);
    let mut r = record("", 2, 0, 1);
    r[16..48].copy_from_slice(long.as_bytes());
    let vars = parse_var_table(&r);
    assert_eq!(vars[0].name, long.as_bytes().to_vec());
}

#[test]
fn channels_are_found_by_first_name() {
    let mut table = record("Speed", 4, 8, 1);
    table.extend(record("Speed", 4, 12, 1));
    let vars = parse_var_table(&table);
    assert_eq!(find_var(&vars, "Speed"), Some(Var { ty: 4, offset: 8 }));
    assert_eq!(find_var(&vars, "Spee"), None);
}

#[test]
fn values_are_decoded_by_type() {
    let mut sample = vec![0u8; 24];
    sample[0] = 7;
    put(&mut sample, 4, -5);
    sample[8..12].copy_from_slice(&1.5f32.to_bits().to_le_bytes());
    sample[12..20].copy_from_slice(&2.25f64.to_bits().to_le_bytes());
    put(&mut sample, 20, 0x0f0f);
    assert_eq!(read_value(&sample, &Some(Var { ty: 1, offset: 0 })), Some(RawValue::Byte(7)));
    assert_eq!(read_value(&sample, &Some(Var { ty: 2, offset: 4 })), Some(RawValue::Int(-5)));
    assert_eq!(
        read_value(&sample, &Some(Var { ty: 4, offset: 8 })),
        Some(RawValue::Float(1.5f32.to_bits()))
    );
    assert_eq!(
        read_value(&sample, &Some(Var { ty: 5, offset: 12 })),
        Some(RawValue::Double(2.25f64.to_bits()))
    );
    assert_eq!(read_value(&sample, &Some(Var { ty: 3, offset: 20 })), Some(RawValue::UInt(0x0f0f)));
    assert_eq!(read_value(&sample, &None), None);
    assert_eq!(read_value(&sample, &Some(Var { ty: 9, offset: 0 })), None);
    assert_eq!(read_value(&sample, &Some(Var { ty: 5, offset: 20 })), None);
    assert_eq!(read_value(&sample, &Some(Var { ty: 0, offset: 24 })), None);
    assert_eq!(read_value(&sample, &Some(Var { ty: 0, offset: 25 })), None);
}

#[test]
fn missing_core_channels_are_refused() {
    let mut table = record("Lap", 2, 0, 1);
    table.extend(record("SessionTime", 5, 4, 1));
    let vars = parse_var_table(&table);
    assert_eq!(resolve_channels(&vars).err(), Some(IbtError::MissingChannels));
}

#[test]
fn yaw_falls_back_to_plain_yaw_and_samples_decode() {
    let mut table = record("SessionTime", 5, 0, 1);
    table.extend(record("Lap", 2, 8, 1));
    table.extend(record("LapDistPct", 4, 12, 1));
    table.extend(record("Yaw", 4, 16, 1));
    table.extend(record("LFtempCL", 4, 20, 1));
    table.extend(record("RRtempCL", 4, 24, 1));
    let vars = parse_var_table(&table);
    let channels = resolve_channels(&vars).expect("channels");
    assert_eq!(channels.yaw, Some(Var { ty: 4, offset: 16 }));
    assert_eq!(channels.speed, None);
    let mut sample = vec![0u8; 28];
    sample[0..8].copy_from_slice(&12.5f64.to_bits().to_le_bytes());
    put(&mut sample, 8, 3);
    sample[12..16].copy_from_slice(&0.25f32.to_bits().to_le_bytes());
    sample[20..24].copy_from_slice(&80.0f32.to_bits().to_le_bytes());
    sample[24..28].copy_from_slice(&82.0f32.to_bits().to_le_bytes());
    let d = decode_sample(&sample, &channels);
    assert_eq!(d.time, Some(RawValue::Double(12.5f64.to_bits())));
    assert_eq!(d.lap, Some(RawValue::Int(3)));
    assert_eq!(d.pct, Some(RawValue::Float(0.25f32.to_bits())));
    assert_eq!(d.speed, None);
    assert_eq!(
        d.tyres,
        vec![RawValue::Float(80.0f32.to_bits()), RawValue::Float(82.0f32.to_bits())]
    );
}

#[test]
fn fixture_channel_list_is_fixed() {
    let names = fixture_channels();
    assert_eq!(names.len(), 35);
    assert_eq!(names[0], "SessionTime");
    assert_eq!(names[34], "AirTemp");
}

#[test]
fn fixture_keeps_listed_single_value_channels_in_list_order() {
    let mut table = record("Speed", 4, 0, 1);
    table.extend(record("PlayerName", 0, 4, 32));
    table.extend(record("Lap", 2, 40, 6));
    table.extend(record("Lap", 2, 44, 1));
    table.extend(record("SessionTime", 5, 48, 1));
    let vars = parse_var_table(&table);
    assert_eq!(fixture_kept(&vars), vec![4, 3, 0]);
}

#[test]
fn fixture_reads_back_with_the_kept_channels() {
    let mut table = record("Speed", 4, 0, 1);
    table.extend(record("Lap", 2, 8, 1));
    table.extend(record("SessionTime", 5, 12, 1));
    table.extend(record("CarIdxLap", 2, 20, 64));
    let vars = parse_var_table(&table);
    let kept = fixture_kept(&vars);
    assert_eq!(kept, vec![2, 1, 0]);
    let source = header(4, 276);
    let session = b"---\nWeekendInfo:\n...\n\0".to_vec();
    let mut out = fixture_prefix(&source, &vars, &kept, &session, 2);
    let mut sample = vec![0u8; 276];
    sample[0..4].copy_from_slice(&61.5f32.to_bits().to_le_bytes());
    put(&mut sample, 8, 7);
    sample[12..20].copy_from_slice(&300.25f64.to_bits().to_le_bytes());
    append_fixture_sample(&mut out, &sample, &vars, &kept);
    append_fixture_sample(&mut out, &sample, &vars, &kept);

    let h = parse_header(&out[..112]).expect("fixture header");
    assert_eq!(h.version, 2);
    assert_eq!(h.tick_rate, 60);
    assert_eq!(h.num_vars, 3);
    assert_eq!(h.var_header_offset, 144);
    assert_eq!(h.session_len, session.len());
    assert_eq!(h.session_offset as usize, 144 + 3 * 144);
    assert_eq!(h.buf_len, 8 + 4 + 4);
    assert_eq!(h.buf_offset as usize, 144 + 3 * 144 + session.len());
    assert!(out[112..140].iter().all(|b| *b == 0));
    assert_eq!(i32_at(&out, 140), 2);
    let start = h.session_offset as usize;
    assert_eq!(&out[start..start + session.len()], &session[..]);

    let new_vars = parse_var_table(&out[144..144 + 3 * 144]);
    let names: Vec<&[u8]> = new_vars.iter().map(|v| v.name.as_slice()).collect();
    assert_eq!(names, vec![&b"SessionTime"[..], &b"Lap"[..], &b"Speed"[..]]);
    let channels = resolve_channels(&new_vars).err();
    assert_eq!(channels, Some(IbtError::MissingChannels));
    let first = &out[h.buf_offset as usize..h.buf_offset as usize + h.buf_len];
    assert_eq!(
        read_value(first, &find_var(&new_vars, "SessionTime")),
        Some(RawValue::Double(300.25f64.to_bits()))
    );
    assert_eq!(read_value(first, &find_var(&new_vars, "Lap")), Some(RawValue::Int(7)));
    assert_eq!(
        read_value(first, &find_var(&new_vars, "Speed")),
        Some(RawValue::Float(61.5f32.to_bits()))
    );
    assert_eq!(out.len(), h.buf_offset as usize + 2 * h.buf_len);
}

#[test]
fn fixture_laps_are_the_earliest_clean_run() {
    assert_eq!(choose_fixture_laps(2, &[true, false, true, true, true]), Ok((2, 2)));
    assert_eq!(choose_fixture_laps(4, &[true, true]), Ok((0, 2)));
    assert_eq!(choose_fixture_laps(0, &[false, true]), Ok((1, 1)));
    assert_eq!(choose_fixture_laps(3, &[]), Err(FixtureError::NoCompleteLap));
    assert_eq!(
        choose_fixture_laps(2, &[true, false, true, false]),
        Err(FixtureError::NoCleanRun(2))
    );
}
