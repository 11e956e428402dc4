use attofab_core::gds::{
    decode_real8_parts, i16_from_be, i32_from_be, parse_gds, parse_i32_array, read_records, GdsError,
    Real8, BGNLIB, BGNSTR, BOUNDARY, ENDEL, ENDLIB, ENDSTR, HEADER, LAYER, LIBNAME, STRNAME, UNITS, XY,
};

fn record(rtype: u8, dtype: u8, data: &[u8]) -> Vec<u8> {
    let len = 4 + data.len();
    let mut out = Vec::with_capacity(len);
    out.extend_from_slice(&(len as u16).to_be_bytes());
    out.push(rtype);
    out.push(dtype);
    out.extend_from_slice(data);
    out
}

/// GDSII real8 encoding of 0.001.
const REAL8_0_001: [u8; 8] = [0x3e, 0x41, 0x89, 0x37, 0x4b, 0xc6, 0xa7, 0xf0];
/// GDSII real8 encoding of 1e-9.
const REAL8_1E_9: [u8; 8] = [0x39, 0x44, 0xb8, 0x2f, 0xa0, 0x9b, 0x5a, 0x54];

/// The value a real8's fields stand for.
fn real8_value(r: &Real8) -> f64 {
    let sign = if r.negative { -1.0 } else { 1.0 };
    sign * (r.mantissa as f64 / (1u64 << 56) as f64) * 16f64.powi(r.exponent)
}

/// Hand-assembles a minimal, valid GDSII stream in memory: HEADER, BGNLIB,
/// LIBNAME, UNITS, BGNSTR, STRNAME, BOUNDARY(layer=1, a 2x1 um rectangle),
/// ENDEL, ENDSTR, ENDLIB.
fn synthetic_gds_with_rectangle() -> Vec<u8> {
    let mut buf = Vec::new();
    buf.extend(record(HEADER, 0x02, &600i16.to_be_bytes()));
    buf.extend(record(BGNLIB, 0x02, &[0u8; 24]));
    buf.extend(record(LIBNAME, 0x06, b"TESTLIB\0"));

    // UNITS: user-units-per-dbu, meters-per-dbu. 1 dbu = 1nm = 1e-9 m.
    let mut units_data = Vec::new();
    units_data.extend_from_slice(&REAL8_0_001);
    units_data.extend_from_slice(&REAL8_1E_9);
    buf.extend(record(UNITS, 0x05, &units_data));

    buf.extend(record(BGNSTR, 0x02, &[0u8; 24]));
    buf.extend(record(STRNAME, 0x06, b"TOP\0"));

    buf.extend(record(BOUNDARY, 0x00, &[]));
    buf.extend(record(LAYER, 0x02, &1i16.to_be_bytes()));
    let xy: Vec<i32> = vec![0, 0, 2000, 0, 2000, 1000, 0, 1000, 0, 0];
    let mut xy_data = Vec::new();
    for v in xy {
        xy_data.extend_from_slice(&v.to_be_bytes());
    }
    buf.extend(record(XY, 0x03, &xy_data));
    buf.extend(record(ENDEL, 0x00, &[]));

    buf.extend(record(ENDSTR, 0x00, &[]));
    buf.extend(record(ENDLIB, 0x00, &[]));
    buf
}

#[test]
fn real8_decodes_known_literal_byte_patterns() {
    let one = [0x41, 0x10, 0x00, 0x00, 0x00, 0x00, 0x00, 0x00];
    let r = decode_real8_parts(&one);
    assert_eq!(r, Real8 { negative: false, exponent: 1, mantissa: 0x10_0000_0000_0000 });
    assert!((real8_value(&r) - 1.0).abs() < 1e-12);

    let neg_two = [0xC1, 0x20, 0x00, 0x00, 0x00, 0x00, 0x00, 0x00];
    let r = decode_real8_parts(&neg_two);
    assert_eq!(r, Real8 { negative: true, exponent: 1, mantissa: 0x20_0000_0000_0000 });
    assert!((real8_value(&r) - (-2.0)).abs() < 1e-12);
}

#[test]
fn parses_synthetic_gds_and_extracts_rectangle() {
    let bytes = synthetic_gds_with_rectangle();
    let lib = parse_gds(&bytes).expect("should parse");

    let meters_per_dbu = lib.meters_per_dbu.expect("UNITS present");
    assert_eq!(meters_per_dbu, decode_real8_parts(&REAL8_1E_9));
    let um_per_dbu = real8_value(&meters_per_dbu) * 1e6;
    assert!((um_per_dbu - 0.001).abs() < 1e-12, "expected 1nm/dbu, got {}", um_per_dbu);
    assert_eq!(lib.structures.len(), 1);
    let s = &lib.structures[0];
    assert_eq!(s.name, "TOP");
    assert_eq!(s.polygons.len(), 1);
    assert_eq!(s.polygons[0].layer, 1);
    assert_eq!(s.polygons[0].points_dbu, vec![(0, 0), (2000, 0), (2000, 1000), (0, 1000), (0, 0)]);
}

#[test]
fn rejects_non_gds_data() {
    let garbage = b"not a gds file at all, just some text".to_vec();
    assert!(parse_gds(&garbage).is_err());
}

#[test]
fn truncated_header_is_unexpected_eof() {
    let mut bytes = record(HEADER, 0x02, &600i16.to_be_bytes());
    bytes.extend_from_slice(&[0x00, 0x04, 0x04]);
    assert_eq!(parse_gds(&bytes).err(), Some(GdsError::UnexpectedEof));
}

#[test]
fn record_longer_than_stream_is_unexpected_eof() {
    let bytes = vec![0x00, 0x10, HEADER, 0x02, 0x02];
    assert_eq!(parse_gds(&bytes).err(), Some(GdsError::UnexpectedEof));
}

#[test]
fn record_length_below_header_size_is_invalid() {
    let bytes = vec![0x00, 0x03, HEADER, 0x02];
    assert_eq!(parse_gds(&bytes).err(), Some(GdsError::InvalidRecordLength));
}

#[test]
fn stream_not_starting_with_header_is_not_gds() {
    let bytes = record(BGNLIB, 0x02, &[0u8; 24]);
    assert_eq!(parse_gds(&bytes).err(), Some(GdsError::NotAGdsFile));
    assert_eq!(parse_gds(&[]).err(), Some(GdsError::NotAGdsFile));
}

#[test]
fn error_messages_describe_the_failure() {
    assert_eq!(GdsError::UnexpectedEof.message(), "unexpected end of GDSII stream");
    assert_eq!(GdsError::InvalidRecordLength.message(), "invalid GDSII record length");
    assert_eq!(GdsError::NotAGdsFile.message(), "file does not start with a GDSII HEADER record");
}

#[test]
fn missing_units_leaves_units_unset() {
    let mut bytes = record(HEADER, 0x02, &600i16.to_be_bytes());
    bytes.extend(record(ENDLIB, 0x00, &[]));
    let lib = parse_gds(&bytes).unwrap();
    assert_eq!(lib.meters_per_dbu, None);
    assert!(lib.structures.is_empty());
}

#[test]
fn records_after_endlib_are_ignored() {
    let mut bytes = record(HEADER, 0x02, &600i16.to_be_bytes());
    bytes.extend(record(ENDLIB, 0x00, &[]));
    bytes.extend(record(BGNSTR, 0x02, &[0u8; 24]));
    bytes.extend(record(STRNAME, 0x06, b"LATE"));
    bytes.extend(record(ENDSTR, 0x00, &[]));
    let lib = parse_gds(&bytes).unwrap();
    assert!(lib.structures.is_empty());
}

#[test]
fn structure_names_are_lossy_utf8_without_nul_padding() {
    let mut bytes = record(HEADER, 0x02, &600i16.to_be_bytes());
    bytes.extend(record(BGNSTR, 0x02, &[]));
    bytes.extend(record(STRNAME, 0x06, &[b'A', 0xff, b'B', 0, 0]));
    bytes.extend(record(ENDSTR, 0x00, &[]));
    bytes.extend(record(BGNSTR, 0x02, &[]));
    bytes.extend(record(STRNAME, 0x06, "µm\0".as_bytes()));
    bytes.extend(record(ENDSTR, 0x00, &[]));
    let lib = parse_gds(&bytes).unwrap();
    assert_eq!(lib.structures.len(), 2);
    assert_eq!(lib.structures[0].name, "A\u{FFFD}B");
    assert_eq!(lib.structures[1].name, "µm");
}

#[test]
fn boundary_fields_outside_a_boundary_are_ignored() {
    let mut bytes = record(HEADER, 0x02, &600i16.to_be_bytes());
    bytes.extend(record(BGNSTR, 0x02, &[]));
    bytes.extend(record(STRNAME, 0x06, b"S"));
    bytes.extend(record(LAYER, 0x02, &7i16.to_be_bytes()));
    bytes.extend(record(BOUNDARY, 0x00, &[]));
    bytes.extend(record(LAYER, 0x02, &(-3i16).to_be_bytes()));
    let mut xy = Vec::new();
    for v in [-5i32, 6, 7, -8, 9] {
        xy.extend_from_slice(&v.to_be_bytes());
    }
    bytes.extend(record(XY, 0x03, &xy));
    bytes.extend(record(ENDEL, 0x00, &[]));
    bytes.extend(record(ENDEL, 0x00, &[]));
    bytes.extend(record(ENDSTR, 0x00, &[]));
    let lib = parse_gds(&bytes).unwrap();
    let s = &lib.structures[0];
    assert_eq!(s.polygons.len(), 1);
    assert_eq!(s.polygons[0].layer, -3);
    assert_eq!(s.polygons[0].points_dbu, vec![(-5, 6), (7, -8)]);
}

#[test]
fn endstr_without_a_name_keeps_collecting_polygons() {
    let mut bytes = record(HEADER, 0x02, &600i16.to_be_bytes());
    bytes.extend(record(BOUNDARY, 0x00, &[]));
    bytes.extend(record(ENDEL, 0x00, &[]));
    bytes.extend(record(ENDSTR, 0x00, &[]));
    bytes.extend(record(STRNAME, 0x06, b"LATE"));
    bytes.extend(record(BOUNDARY, 0x00, &[]));
    bytes.extend(record(ENDEL, 0x00, &[]));
    bytes.extend(record(ENDSTR, 0x00, &[]));
    let lib = parse_gds(&bytes).unwrap();
    assert_eq!(lib.structures.len(), 1);
    assert_eq!(lib.structures[0].name, "LATE");
    assert_eq!(lib.structures[0].polygons.len(), 2);
}

#[test]
fn read_records_frames_each_record() {
    let mut bytes = record(HEADER, 0x02, &[1, 2]);
    bytes.extend(record(0x2a, 0x07, &[]));
    let recs = read_records(&bytes).unwrap();
    assert_eq!(recs.len(), 2);
    assert_eq!((recs[0].rtype, recs[0].dtype, recs[0].data.clone()), (HEADER, 0x02, vec![1, 2]));
    assert_eq!((recs[1].rtype, recs[1].dtype, recs[1].data.len()), (0x2a, 0x07, 0));
    assert!(read_records(&[]).unwrap().is_empty());
}

#[test]
fn big_endian_integers_decode_with_sign() {
    assert_eq!(i32_from_be(0xff, 0xff, 0xff, 0xfe), -2);
    assert_eq!(i32_from_be(0x80, 0, 0, 0), i32::MIN);
    assert_eq!(i32_from_be(0x00, 0x00, 0x07, 0xd0), 2000);
    assert_eq!(i16_from_be(0xff, 0xfd), -3);
    assert_eq!(i16_from_be(0x80, 0x00), i16::MIN);
    assert_eq!(i16_from_be(0x02, 0x58), 600);
    assert_eq!(parse_i32_array(&[0, 0, 0, 1, 0xff, 0xff, 0xff, 0xff, 9]), vec![1, -1]);
}

#[test]
fn written_library_reads_back_structure_by_structure() {
    let mut units = Vec::new();
    units.extend_from_slice(&REAL8_0_001);
    units.extend_from_slice(&REAL8_1E_9);
    let polygons: Vec<(&[u8], Vec<(i16, Vec<(i32, i32)>)>)> = vec![
        (b"INV", vec![(1, vec![(0, 0), (10, 0), (10, 5)]), (-2, vec![(-7, i32::MAX), (i32::MIN, 3)])]),
        (b"EMPTY", vec![]),
        (b"NAND\0\0", vec![(68, vec![])]),
    ];
    let mut bytes = record(HEADER, 0x02, &600i16.to_be_bytes());
    bytes.extend(record(UNITS, 0x05, &units));
    for (name, polys) in &polygons {
        bytes.extend(record(BGNSTR, 0x02, &[]));
        bytes.extend(record(STRNAME, 0x06, name));
        for (layer, pts) in polys {
            bytes.extend(record(BOUNDARY, 0x00, &[]));
            bytes.extend(record(LAYER, 0x02, &layer.to_be_bytes()));
            let mut xy = Vec::new();
            for (x, y) in pts {
                xy.extend_from_slice(&x.to_be_bytes());
                xy.extend_from_slice(&y.to_be_bytes());
            }
            bytes.extend(record(XY, 0x03, &xy));
            bytes.extend(record(ENDEL, 0x00, &[]));
        }
        bytes.extend(record(ENDSTR, 0x00, &[]));
    }
    bytes.extend(record(ENDLIB, 0x00, &[]));

    let lib = parse_gds(&bytes).unwrap();
    assert_eq!(lib.meters_per_dbu, Some(decode_real8_parts(&REAL8_1E_9)));
    let names: Vec<&str> = lib.structures.iter().map(|s| s.name.as_str()).collect();
    assert_eq!(names, vec!["INV", "EMPTY", "NAND"]);
    for (s, (_, polys)) in lib.structures.iter().zip(polygons.iter()) {
        assert_eq!(s.polygons.len(), polys.len());
        for (p, (layer, pts)) in s.polygons.iter().zip(polys.iter()) {
            assert_eq!(p.layer, *layer);
            assert_eq!(&p.points_dbu, pts);
        }
    }
}
