//! GDSII layout stream reader.
//!
//! A GDSII stream is a sequence of records, each:
//!   [2 bytes: record length, big-endian, includes this 4-byte header]
//!   [1 byte:  record type]
//!   [1 byte:  data type]
//!   [(length-4) bytes: data, interpreted per data type]
//!
//! This reader extracts BOUNDARY elements (polygon outlines) per structure,
//! which is what is needed to drive a lithography mask; it does not resolve
//! SREF/AREF (cell instance references) or PATH elements.
//!
//! GDSII "real" numbers (1 sign bit, 7-bit excess-64 base-16 exponent,
//! 56-bit mantissa; not IEEE 754) are returned split into those three
//! integer fields (`Real8`); turning them into a floating-point value is
//! left to the caller.
use vstd::prelude::*;
use vstd::utf8::{decode_utf8, valid_utf8};

verus! {

// GDSII record type codes (the record type byte of the record header).
pub const HEADER: u8 = 0x00;

pub const BGNLIB: u8 = 0x01;

pub const LIBNAME: u8 = 0x02;

pub const UNITS: u8 = 0x03;

pub const ENDLIB: u8 = 0x04;

pub const BGNSTR: u8 = 0x05;

pub const STRNAME: u8 = 0x06;

pub const ENDSTR: u8 = 0x07;

pub const BOUNDARY: u8 = 0x08;

pub const LAYER: u8 = 0x0d;

pub const XY: u8 = 0x10;

pub const ENDEL: u8 = 0x11;

#[derive(Debug, Clone, Copy, PartialEq, Eq, Structural)]
pub enum GdsError {
    UnexpectedEof,
    InvalidRecordLength,
    NotAGdsFile,
}

impl GdsError {
    /// Human-readable description of the error.
    pub fn message(&self) -> (s: &'static str)
        ensures
            s@ == gds_error_message(*self),
    {
        match self {
            GdsError::UnexpectedEof => "unexpected end of GDSII stream",
            GdsError::InvalidRecordLength => "invalid GDSII record length",
            GdsError::NotAGdsFile => "file does not start with a GDSII HEADER record",
        }
    }
}

pub open spec fn gds_error_message(e: GdsError) -> Seq<char> {
    match e {
        GdsError::UnexpectedEof => "unexpected end of GDSII stream"@,
        GdsError::InvalidRecordLength => "invalid GDSII record length"@,
        GdsError::NotAGdsFile => "file does not start with a GDSII HEADER record"@,
    }
}

// ---------------------------------------------------------------------------
// Big-endian integers
/// Unsigned value of two big-endian bytes.
pub open spec fn be_u16(b0: u8, b1: u8) -> int {
    b0 * 0x100 + b1
}

/// Unsigned value of four big-endian bytes.
pub open spec fn be_u32(b0: u8, b1: u8, b2: u8, b3: u8) -> int {
    b0 * 0x100_0000 + b1 * 0x1_0000 + b2 * 0x100 + b3
}

/// Two's-complement value of two big-endian bytes.
pub open spec fn be_i16(b0: u8, b1: u8) -> i16 {
    let u = be_u16(b0, b1);
    if u < 0x8000 {
        u as i16
    } else {
        (u - 0x1_0000) as i16
    }
}

/// Two's-complement value of four big-endian bytes.
pub open spec fn be_i32(b0: u8, b1: u8, b2: u8, b3: u8) -> i32 {
    let u = be_u32(b0, b1, b2, b3);
    if u < 0x8000_0000 {
        u as i32
    } else {
        (u - 0x1_0000_0000) as i32
    }
}

/// `i16::from_be_bytes`.
pub fn i16_from_be(b0: u8, b1: u8) -> (v: i16)
    ensures
        v == be_i16(b0, b1),
{
    let u: u16 = (b0 as u16) * 0x100 + (b1 as u16);
    if u < 0x8000 {
        u as i16
    } else {
        ((u - 0x8000) as i16) + i16::MIN
    }
}

/// `i32::from_be_bytes`.
pub fn i32_from_be(b0: u8, b1: u8, b2: u8, b3: u8) -> (v: i32)
    ensures
        v == be_i32(b0, b1, b2, b3),
{
    let u: u32 = (b0 as u32) * 0x100_0000 + (b1 as u32) * 0x1_0000 + (b2 as u32) * 0x100
        + (b3 as u32);
    if u < 0x8000_0000 {
        u as i32
    } else {
        ((u - 0x8000_0000) as i32) + i32::MIN
    }
}

/// The big-endian 4-byte signed integers packed in `d` (a trailing partial
/// group is ignored).
pub open spec fn i32s_of(d: Seq<u8>) -> Seq<i32> {
    Seq::new(
        (d.len() / 4) as nat,
        |k: int| be_i32(d[4 * k], d[4 * k + 1], d[4 * k + 2], d[4 * k + 3]),
    )
}

/// Decode a packed array of big-endian `i32`s.
pub fn parse_i32_array(data: &[u8]) -> (v: Vec<i32>)
    ensures
        v@ == i32s_of(data@),
{
    let dlen = data.len();
    let n = dlen / 4;
    proof {
        vstd::arithmetic::div_mod::lemma_fundamental_div_mod(data@.len() as int, 4);
    }
    let mut out: Vec<i32> = Vec::new();
    for k in 0..n
        invariant
            n == data@.len() / 4,
            dlen == data@.len(),
            4 * n <= dlen,
            out@.len() == k,
            forall|j: int|
                0 <= j < k ==> #[trigger] out@[j] == be_i32(
                    data@[4 * j],
                    data@[4 * j + 1],
                    data@[4 * j + 2],
                    data@[4 * j + 3],
                ),
    {
        let b = 4 * k;
        out.push(i32_from_be(data[b], data[b + 1], data[b + 2], data[b + 3]));
    }
    proof {
        assert(out@ =~= i32s_of(data@));
    }
    out
}

/// The coordinate pairs of an XY record: consecutive `i32`s taken two at a time.
pub open spec fn points_of(d: Seq<u8>) -> Seq<(i32, i32)> {
    let c = i32s_of(d);
    Seq::new((c.len() / 2) as nat, |k: int| (c[2 * k], c[2 * k + 1]))
}

fn parse_points(data: &[u8]) -> (p: Vec<(i32, i32)>)
    ensures
        p@ == points_of(data@),
{
    let coords = parse_i32_array(data);
    let clen = coords.len();
    let n = clen / 2;
    proof {
        vstd::arithmetic::div_mod::lemma_fundamental_div_mod(coords@.len() as int, 2);
    }
    let mut out: Vec<(i32, i32)> = Vec::new();
    for k in 0..n
        invariant
            n == coords@.len() / 2,
            clen == coords@.len(),
            2 * n <= clen,
            coords@ == i32s_of(data@),
            out@.len() == k,
            forall|j: int| 0 <= j < k ==> #[trigger] out@[j] == (coords@[2 * j], coords@[2 * j + 1]),
    {
        out.push((coords[2 * k], coords[2 * k + 1]));
    }
    proof {
        assert(out@ =~= points_of(data@));
    }
    out
}

// ---------------------------------------------------------------------------
// GDSII real numbers
/// A GDSII 8-byte real, split into its fields:
/// value = (-1)^negative * (mantissa / 2^56) * 16^exponent.
#[derive(Debug, Clone, Copy, PartialEq, Eq, Structural)]
pub struct Real8 {
    pub negative: bool,
    /// Base-16 exponent, excess-64 already removed (-64..=63).
    pub exponent: i32,
    /// 56-bit mantissa.
    pub mantissa: u64,
}

/// The fields of the GDSII real stored in the 8 bytes `b`.
pub open spec fn real8_of(b: Seq<u8>) -> Real8 {
    Real8 {
        negative: b[0] >= 0x80,
        exponent: ((b[0] % 0x80) - 64) as i32,
        mantissa: (b[1] * 0x1_0000_0000_0000 + b[2] * 0x100_0000_0000 + b[3] * 0x1_0000_0000 + b[4]
            * 0x100_0000 + b[5] * 0x1_0000 + b[6] * 0x100 + b[7]) as u64,
    }
}

/// Split an 8-byte GDSII real into sign, exponent and mantissa.
pub fn decode_real8_parts(bytes: &[u8; 8]) -> (r: Real8)
    ensures
        r == real8_of(bytes@),
        0 <= r.mantissa < 0x100_0000_0000_0000,
        -64 <= r.exponent < 64,
{
    let b0 = bytes[0];
    let negative = b0 & 0x80 != 0;
    let exponent = (b0 & 0x7f) as i32 - 64;
    proof {
        assert(b0 & 0x80 != 0 <==> b0 >= 0x80) by (bit_vector);
        assert(b0 & 0x7f == b0 % 0x80) by (bit_vector);
    }
    let mantissa: u64 = (bytes[1] as u64) * 0x1_0000_0000_0000 + (bytes[2] as u64)
        * 0x100_0000_0000 + (bytes[3] as u64) * 0x1_0000_0000 + (bytes[4] as u64) * 0x100_0000
        + (bytes[5] as u64) * 0x1_0000 + (bytes[6] as u64) * 0x100 + (bytes[7] as u64);
    Real8 { negative, exponent, mantissa }
}

// ---------------------------------------------------------------------------
// Record framing
/// A record as read from the stream.
pub struct RawRecord {
    pub rtype: u8,
    pub dtype: u8,
    pub data: Vec<u8>,
}

/// A record's content.
pub struct RecordModel {
    pub rtype: u8,
    pub dtype: u8,
    pub data: Seq<u8>,
}

impl View for RawRecord {
    type V = RecordModel;

    open spec fn view(&self) -> RecordModel {
        RecordModel { rtype: self.rtype, dtype: self.dtype, data: self.data@ }
    }
}

pub open spec fn records_view(v: Seq<RawRecord>) -> Seq<RecordModel> {
    v.map_values(|r: RawRecord| r@)
}

/// The records that the bytes `b` frame, or the first framing error.
pub open spec fn parse_records(b: Seq<u8>) -> Result<Seq<RecordModel>, GdsError>
    decreases b.len(),
{
    if b.len() == 0 {
        Ok(Seq::empty())
    } else if b.len() < 4 {
        Err(GdsError::UnexpectedEof)
    } else {
        let len = be_u16(b[0], b[1]);
        if len < 4 {
            Err(GdsError::InvalidRecordLength)
        } else if len > b.len() {
            Err(GdsError::UnexpectedEof)
        } else {
            match parse_records(b.subrange(len, b.len() as int)) {
                Ok(rest) => Ok(
                    seq![RecordModel { rtype: b[2], dtype: b[3], data: b.subrange(4, len) }]
                        + rest,
                ),
                Err(e) => Err(e),
            }
        }
    }
}

/// `pre` followed by the records of `r`, or the error of `r`.
pub open spec fn prepend_records(pre: Seq<RecordModel>, r: Result<Seq<RecordModel>, GdsError>) -> Result<
    Seq<RecordModel>,
    GdsError,
> {
    match r {
        Ok(rest) => Ok(pre + rest),
        Err(e) => Err(e),
    }
}

/// The bytes of one record: its length, type, data type and data.
pub open spec fn encode_record(r: RecordModel) -> Seq<u8> {
    let len = r.data.len() + 4;
    seq![(len / 0x100) as u8, (len % 0x100) as u8, r.rtype, r.dtype] + r.data
}

/// The bytes of a sequence of records, one after another.
pub open spec fn encode_records(rs: Seq<RecordModel>) -> Seq<u8>
    decreases rs.len(),
{
    if rs.len() == 0 {
        Seq::empty()
    } else {
        encode_record(rs[0]) + encode_records(rs.drop_first())
    }
}

/// A record fits in a GDSII record when its data leaves room for the
/// 4-byte header within the 16-bit length.
pub open spec fn record_fits(r: RecordModel) -> bool {
    r.data.len() + 4 <= 0xffff
}

fn copy_range(bytes: &[u8], start: usize, end: usize) -> (v: Vec<u8>)
    requires
        start <= end <= bytes@.len(),
    ensures
        v@ == bytes@.subrange(start as int, end as int),
{
    let mut out: Vec<u8> = Vec::new();
    let mut k = start;
    while k < end
        invariant
            start <= k <= end,
            end <= bytes@.len(),
            out@ == bytes@.subrange(start as int, k as int),
        decreases end - k,
    {
        out.push(bytes[k]);
        k += 1;
        proof {
            assert(out@ =~= bytes@.subrange(start as int, k as int));
        }
    }
    out
}

/// Split a GDSII byte stream into its records.
pub fn read_records(bytes: &[u8]) -> (r: Result<Vec<RawRecord>, GdsError>)
    ensures
        r matches Ok(v) ==> parse_records(bytes@) == Ok::<Seq<RecordModel>, GdsError>(records_view(v@)),
        r matches Err(e) ==> parse_records(bytes@) == Err::<Seq<RecordModel>, GdsError>(e),
{
    let n = bytes.len();
    let mut records: Vec<RawRecord> = Vec::new();
    let mut i: usize = 0;
    proof {
        assert(bytes@.subrange(0, n as int) =~= bytes@);
        assert(records_view(records@) + Seq::<RecordModel>::empty() =~= records_view(records@));
    }
    while i < n
        invariant
            n == bytes@.len(),
            i <= n,
            parse_records(bytes@) == prepend_records(
                records_view(records@),
                parse_records(bytes@.subrange(i as int, n as int)),
            ),
        decreases n - i,
    {
        let ghost s = bytes@.subrange(i as int, n as int);
        if n - i < 4 {
            return Err(GdsError::UnexpectedEof);
        }
        let len = (bytes[i] as usize) * 256 + (bytes[i + 1] as usize);
        assert(len == be_u16(s[0], s[1]));
        if len < 4 {
            return Err(GdsError::InvalidRecordLength);
        }
        if len > n - i {
            return Err(GdsError::UnexpectedEof);
        }
        let rtype = bytes[i + 2];
        let dtype = bytes[i + 3];
        let data = copy_range(bytes, i + 4, i + len);
        let ghost pre = records_view(records@);
        let rec = RawRecord { rtype, dtype, data };
        proof {
            assert(s.subrange(len as int, s.len() as int) =~= bytes@.subrange(
                (i + len) as int,
                n as int,
            ));
            assert(s.subrange(4, len as int) =~= bytes@.subrange((i + 4) as int, (i + len) as int));
        }
        records.push(rec);
        proof {
            assert(records_view(records@) =~= pre.push(rec@));
            match parse_records(bytes@.subrange((i + len) as int, n as int)) {
                Ok(rest) => {
                    assert(pre + (seq![rec@] + rest) =~= pre.push(rec@) + rest);
                },
                Err(e) => {},
            }
        }
        i += len;
    }
    proof {
        assert(bytes@.subrange(n as int, n as int) =~= Seq::<u8>::empty());
        assert(records_view(records@) + Seq::<RecordModel>::empty() =~= records_view(records@));
    }
    Ok(records)
}

/// A stream that frames into records is exactly those records written one
/// after another, each small enough for its 16-bit length: reading frames
/// the bytes into consecutive chunks, each chunk's first two bytes giving
/// its length (at least 4), and re-encoding the records gives the bytes back.
pub proof fn law_framed_records_reencode(b: Seq<u8>)
    ensures
        parse_records(b) matches Ok(rs) ==> encode_records(rs) == b && records_fit(rs),
    decreases b.len(),
{
    if let Ok(rs) = parse_records(b) {
        if b.len() == 0 {
            assert(rs =~= Seq::<RecordModel>::empty());
            assert(encode_records(rs) =~= b);
        } else {
            let len = be_u16(b[0], b[1]);
            let rest = b.subrange(len, b.len() as int);
            law_framed_records_reencode(rest);
            let rest_rs = parse_records(rest)->Ok_0;
            let r = RecordModel { rtype: b[2], dtype: b[3], data: b.subrange(4, len) };
            assert(rs == seq![r] + rest_rs);
            assert(rs[0] == r);
            assert(rs.drop_first() =~= rest_rs);
            assert(r.data.len() + 4 == len);
            assert((len / 0x100) as u8 == b[0]);
            assert((len % 0x100) as u8 == b[1]);
            assert(encode_record(r) =~= b.subrange(0, len));
            assert(b =~= b.subrange(0, len) + rest);
            assert(record_fits(r));
            assert forall|k: int| 0 <= k < rs.len() implies #[trigger] record_fits(rs[k]) by {
                if k > 0 {
                    assert(rs[k] == rest_rs[k - 1]);
                }
            }
        }
    }
}

/// Reading back a stream of well-sized records gives those records.
pub proof fn lemma_read_encoded_records(rs: Seq<RecordModel>)
    requires
        forall|k: int| 0 <= k < rs.len() ==> #[trigger] record_fits(rs[k]),
    ensures
        parse_records(encode_records(rs)) == Ok::<Seq<RecordModel>, GdsError>(rs),
    decreases rs.len(),
{
    if rs.len() == 0 {
        assert(encode_records(rs) =~= Seq::<u8>::empty());
        assert(rs =~= Seq::<RecordModel>::empty());
    } else {
        let r = rs[0];
        let rest = rs.drop_first();
        assert forall|k: int| 0 <= k < rest.len() implies #[trigger] record_fits(rest[k]) by {
            assert(rest[k] == rs[k + 1]);
            assert(record_fits(rs[k + 1]));
        }
        lemma_read_encoded_records(rest);
        assert(record_fits(rs[0]));
        let e = encode_record(r);
        let b = encode_records(rs);
        let len: int = r.data.len() + 4int;
        assert(b == e + encode_records(rest));
        assert(b.len() >= 4);
        assert(len <= b.len());
        assert(be_u16(b[0], b[1]) == len);
        assert(b.subrange(len, b.len() as int) =~= encode_records(rest));
        assert(b.subrange(4, len) =~= r.data);
        assert(seq![RecordModel { rtype: b[2], dtype: b[3], data: b.subrange(4, len) }] + rest
            =~= rs);
        assert(parse_records(b.subrange(len, b.len() as int)) == Ok::<Seq<RecordModel>, GdsError>(rest));
    }
}


// ---------------------------------------------------------------------------
// Layout structures
/// The text that `String::from_utf8_lossy` makes of a byte sequence.
pub uninterp spec fn utf8_lossy(bytes: Seq<u8>) -> Seq<char>;

/// Trusted: `String::from_utf8_lossy(bytes).into_owned()` decodes the
/// bytes as UTF-8, replacing each invalid sequence by U+FFFD. The contract
/// claims that the result depends on the bytes alone (`utf8_lossy`) and
/// that well-formed UTF-8 decodes to exactly its characters; what it is
/// for ill-formed input is left unsaid.
#[verifier::external_body]
fn string_from_utf8_lossy(bytes: &[u8]) -> (s: String)
    ensures
        s@ == utf8_lossy(bytes@),
        valid_utf8(bytes@) ==> s@ == decode_utf8(bytes@),
{
    String::from_utf8_lossy(bytes).into_owned()
}

/// `d` without its trailing NUL bytes.
pub open spec fn trim_nul(d: Seq<u8>) -> Seq<u8>
    decreases d.len(),
{
    if d.len() > 0 && d.last() == 0 {
        trim_nul(d.drop_last())
    } else {
        d
    }
}

/// The name a STRNAME record's data spells: the bytes without trailing
/// NUL padding, decoded as UTF-8 (lossily, when they are not valid UTF-8).
pub open spec fn structure_name(d: Seq<u8>) -> Seq<char> {
    if valid_utf8(trim_nul(d)) {
        decode_utf8(trim_nul(d))
    } else {
        utf8_lossy(trim_nul(d))
    }
}

fn trim_trailing_nul(d: &[u8]) -> (v: Vec<u8>)
    ensures
        v@ == trim_nul(d@),
{
    let mut end = d.len();
    proof {
        assert(d@.subrange(0, end as int) =~= d@);
    }
    while end > 0 && d[end - 1] == 0
        invariant
            end <= d@.len(),
            trim_nul(d@) == trim_nul(d@.subrange(0, end as int)),
        decreases end,
    {
        proof {
            assert(d@.subrange(0, end as int).drop_last() =~= d@.subrange(0, end - 1));
        }
        end -= 1;
    }
    copy_range(d, 0, end)
}

fn copy_points(p: &Vec<(i32, i32)>) -> (v: Vec<(i32, i32)>)
    ensures
        v@ == p@,
{
    let mut out: Vec<(i32, i32)> = Vec::new();
    for k in 0..p.len()
        invariant
            out@ == p@.subrange(0, k as int),
    {
        out.push(p[k]);
        proof {
            assert(out@ =~= p@.subrange(0, k + 1));
        }
    }
    proof {
        assert(p@.subrange(0, p@.len() as int) =~= p@);
    }
    out
}

/// A BOUNDARY element: a polygon outline on one layer.
pub struct PolygonModel {
    pub layer: i16,
    pub points: Seq<(i32, i32)>,
}

/// A structure (cell): its name and its polygons.
pub struct StructureModel {
    pub name: Seq<char>,
    pub polygons: Seq<PolygonModel>,
}

/// A parsed library: the meters-per-database-unit real from UNITS (if any
/// UNITS record carried one) and the structures in stream order.
pub struct LibraryModel {
    pub meters_per_dbu: Option<Real8>,
    pub structures: Seq<StructureModel>,
}

#[derive(Debug, Clone)]
pub struct GdsPolygon {
    pub layer: i16,
    /// Polygon vertices in database units (integer GDSII coordinates).
    pub points_dbu: Vec<(i32, i32)>,
}

#[derive(Debug, Clone)]
pub struct GdsStructure {
    pub name: String,
    pub polygons: Vec<GdsPolygon>,
}

#[derive(Debug, Clone)]
pub struct GdsLibrary {
    /// Meters per database unit, as the GDSII real of the UNITS record;
    /// `None` when the stream has no UNITS record.
    pub meters_per_dbu: Option<Real8>,
    pub structures: Vec<GdsStructure>,
}

impl View for GdsPolygon {
    type V = PolygonModel;

    open spec fn view(&self) -> PolygonModel {
        PolygonModel { layer: self.layer, points: self.points_dbu@ }
    }
}

pub open spec fn polygons_view(v: Seq<GdsPolygon>) -> Seq<PolygonModel> {
    v.map_values(|p: GdsPolygon| p@)
}

impl View for GdsStructure {
    type V = StructureModel;

    open spec fn view(&self) -> StructureModel {
        StructureModel { name: self.name@, polygons: polygons_view(self.polygons@) }
    }
}

pub open spec fn structures_view(v: Seq<GdsStructure>) -> Seq<StructureModel> {
    v.map_values(|s: GdsStructure| s@)
}

impl View for GdsLibrary {
    type V = LibraryModel;

    open spec fn view(&self) -> LibraryModel {
        LibraryModel {
            meters_per_dbu: self.meters_per_dbu,
            structures: structures_view(self.structures@),
        }
    }
}

/// The reader's state between records.
pub struct ParseState {
    pub units: Option<Real8>,
    pub structures: Seq<StructureModel>,
    /// Name of the structure being read, once its STRNAME was seen.
    pub name: Option<Seq<char>>,
    /// Polygons of the structure being read.
    pub polygons: Seq<PolygonModel>,
    /// Inside a BOUNDARY element.
    pub in_boundary: bool,
    pub layer: i16,
    pub points: Seq<(i32, i32)>,
    /// ENDLIB was seen: later records are ignored.
    pub done: bool,
}

pub open spec fn initial_state() -> ParseState {
    ParseState {
        units: None,
        structures: Seq::empty(),
        name: None,
        polygons: Seq::empty(),
        in_boundary: false,
        layer: 0,
        points: Seq::empty(),
        done: false,
    }
}

/// The effect of one record on the reader's state.
pub open spec fn gds_step(s: ParseState, r: RecordModel) -> ParseState {
    let t = r.rtype;
    let d = r.data;
    if t == UNITS {
        // Two reals: user units per database unit, meters per database unit.
        if d.len() >= 16 {
            ParseState { units: Some(real8_of(d.subrange(8, 16))), ..s }
        } else {
            s
        }
    } else if t == BGNSTR {
        ParseState { name: None, polygons: Seq::empty(), ..s }
    } else if t == STRNAME {
        ParseState { name: Some(structure_name(d)), ..s }
    } else if t == BOUNDARY {
        ParseState { in_boundary: true, layer: 0, points: Seq::empty(), ..s }
    } else if t == LAYER && s.in_boundary {
        if d.len() >= 2 {
            ParseState { layer: be_i16(d[0], d[1]), ..s }
        } else {
            s
        }
    } else if t == XY && s.in_boundary {
        ParseState { points: points_of(d), ..s }
    } else if t == ENDEL && s.in_boundary {
        ParseState {
            polygons: s.polygons.push(PolygonModel { layer: s.layer, points: s.points }),
            in_boundary: false,
            ..s
        }
    } else if t == ENDSTR {
        match s.name {
            Some(n) => ParseState {
                structures: s.structures.push(StructureModel { name: n, polygons: s.polygons }),
                name: None,
                polygons: Seq::empty(),
                ..s
            },
            None => s,
        }
    } else if t == ENDLIB {
        ParseState { done: true, ..s }
    } else {
        s
    }
}

/// The reader's state after the first `k` records (records after ENDLIB
/// are ignored).
pub open spec fn state_after(rs: Seq<RecordModel>, k: int) -> ParseState
    decreases k,
{
    if k <= 0 {
        initial_state()
    } else {
        let s = state_after(rs, k - 1);
        if s.done {
            s
        } else {
            gds_step(s, rs[k - 1])
        }
    }
}

/// What `parse_gds` returns for the stream `b`.
pub open spec fn parse_gds_spec(b: Seq<u8>) -> Result<LibraryModel, GdsError> {
    match parse_records(b) {
        Err(e) => Err(e),
        Ok(rs) => if rs.len() == 0 || rs[0].rtype != HEADER {
            Err(GdsError::NotAGdsFile)
        } else {
            let s = state_after(rs, rs.len() as int);
            Ok(LibraryModel { meters_per_dbu: s.units, structures: s.structures })
        },
    }
}

/// Once ENDLIB has been read, the state no longer changes.
pub proof fn lemma_done_stays(rs: Seq<RecordModel>, k1: int, k2: int)
    requires
        0 <= k1 <= k2,
        state_after(rs, k1).done,
    ensures
        state_after(rs, k2) == state_after(rs, k1),
    decreases k2 - k1,
{
    if k1 < k2 {
        lemma_done_stays(rs, k1, k2 - 1);
    }
}

pub open spec fn name_view(n: Option<String>) -> Option<Seq<char>> {
    match n {
        Some(s) => Some(s@),
        None => None,
    }
}

/// Parse a GDSII byte stream, extracting BOUNDARY polygons per structure.
/// SREF/AREF (cell references) and PATH elements are not resolved.
pub fn parse_gds(bytes: &[u8]) -> (r: Result<GdsLibrary, GdsError>)
    ensures
        r matches Ok(lib) ==> parse_gds_spec(bytes@) == Ok::<LibraryModel, GdsError>(lib@),
        r matches Err(e) ==> parse_gds_spec(bytes@) == Err::<LibraryModel, GdsError>(e),
{
    let records = match read_records(bytes) {
        Ok(records) => records,
        Err(e) => {
            return Err(e);
        },
    };
    let ghost rs = records_view(records@);
    if records.len() == 0 || records[0].rtype != HEADER {
        return Err(GdsError::NotAGdsFile);
    }
    let mut units: Option<Real8> = None;
    let mut structures: Vec<GdsStructure> = Vec::new();
    let mut cur_struct_name: Option<String> = None;
    let mut cur_polygons: Vec<GdsPolygon> = Vec::new();
    let mut in_boundary = false;
    let mut cur_layer: i16 = 0;
    let mut cur_points: Vec<(i32, i32)> = Vec::new();
    let mut done = false;
    let n = records.len();
    let mut k: usize = 0;
    proof {
        assert(structures_view(structures@) =~= Seq::<StructureModel>::empty());
        assert(polygons_view(cur_polygons@) =~= Seq::<PolygonModel>::empty());
    }
    while k < n && !done
        invariant
            n == records@.len(),
            rs == records_view(records@),
            k <= n,
            ({
                let s = state_after(rs, k as int);
                &&& s.units == units
                &&& s.structures == structures_view(structures@)
                &&& s.name == name_view(cur_struct_name)
                &&& s.polygons == polygons_view(cur_polygons@)
                &&& s.in_boundary == in_boundary
                &&& s.layer == cur_layer
                &&& s.points == cur_points@
                &&& s.done == done
            }),
        decreases n - k,
    {
        let rec = &records[k];
        let t = rec.rtype;
        let ghost s = state_after(rs, k as int);
        assert(rs[k as int] == rec@);
        if t == UNITS {
            if rec.data.len() >= 16 {
                let d = &rec.data;
                let meters_per_dbu_bytes: [u8; 8] = [d[8], d[9], d[10], d[11], d[12], d[13], d[14], d[15]];
                proof {
                    assert(meters_per_dbu_bytes@ =~= d@.subrange(8, 16));
                }
                units = Some(decode_real8_parts(&meters_per_dbu_bytes));
            }
        } else if t == BGNSTR {
            cur_struct_name = None;
            cur_polygons = Vec::new();
            proof {
                assert(polygons_view(cur_polygons@) =~= Seq::<PolygonModel>::empty());
            }
        } else if t == STRNAME {
            let trimmed = trim_trailing_nul(rec.data.as_slice());
            let name = string_from_utf8_lossy(trimmed.as_slice());
            cur_struct_name = Some(name);
        } else if t == BOUNDARY {
            in_boundary = true;
            cur_layer = 0;
            cur_points = Vec::new();
        } else if t == LAYER && in_boundary {
            if rec.data.len() >= 2 {
                cur_layer = i16_from_be(rec.data[0], rec.data[1]);
            }
        } else if t == XY && in_boundary {
            cur_points = parse_points(rec.data.as_slice());
        } else if t == ENDEL && in_boundary {
            let ghost before = cur_polygons@;
            let poly = GdsPolygon { layer: cur_layer, points_dbu: copy_points(&cur_points) };
            cur_polygons.push(poly);
            in_boundary = false;
            proof {
                assert(polygons_view(cur_polygons@) =~= polygons_view(before).push(poly@));
            }
        } else if t == ENDSTR {
            if let Some(name) = cur_struct_name.take() {
                let mut polygons: Vec<GdsPolygon> = Vec::new();
                std::mem::swap(&mut polygons, &mut cur_polygons);
                let ghost before = structures@;
                let st = GdsStructure { name, polygons };
                structures.push(st);
                proof {
                    assert(structures_view(structures@) =~= structures_view(before).push(st@));
                    assert(polygons_view(cur_polygons@) =~= Seq::<PolygonModel>::empty());
                }
            }
        } else if t == ENDLIB {
            done = true;
        }
        k += 1;
    }
    proof {
        if done {
            lemma_done_stays(rs, k as int, n as int);
        }
    }
    Ok(GdsLibrary { meters_per_dbu: units, structures })
}


// ---------------------------------------------------------------------------
// Laws
/// The 4 big-endian two's-complement bytes of `v`.
pub open spec fn i32_bytes(v: i32) -> Seq<u8> {
    let u: int = if v >= 0 {
        v as int
    } else {
        v + 0x1_0000_0000
    };
    seq![(u / 0x100_0000) as u8, ((u / 0x1_0000) % 0x100) as u8, ((u / 0x100) % 0x100) as u8, (u % 0x100) as u8]
}

/// The 2 big-endian two's-complement bytes of `v`.
pub open spec fn i16_bytes(v: i16) -> Seq<u8> {
    let u: int = if v >= 0 {
        v as int
    } else {
        v + 0x1_0000
    };
    seq![(u / 0x100) as u8, (u % 0x100) as u8]
}

/// The XY data of a list of points: each coordinate as 4 big-endian bytes.
pub open spec fn points_bytes(pts: Seq<(i32, i32)>) -> Seq<u8>
    decreases pts.len(),
{
    if pts.len() == 0 {
        Seq::empty()
    } else {
        points_bytes(pts.drop_last()) + i32_bytes(pts.last().0) + i32_bytes(pts.last().1)
    }
}

proof fn lemma_i32_bytes(v: i32)
    ensures
        i32_bytes(v).len() == 4,
        be_i32(i32_bytes(v)[0], i32_bytes(v)[1], i32_bytes(v)[2], i32_bytes(v)[3]) == v,
{
    let u: int = if v >= 0 {
        v as int
    } else {
        v + 0x1_0000_0000
    };
    assert(0 <= u < 0x1_0000_0000);
    assert(u == (u / 0x100_0000) * 0x100_0000 + ((u / 0x1_0000) % 0x100) * 0x1_0000 + ((u / 0x100)
        % 0x100) * 0x100 + u % 0x100) by (nonlinear_arith)
        requires
            0 <= u < 0x1_0000_0000,
    ;
    assert(0 <= u / 0x100_0000 < 0x100) by (nonlinear_arith)
        requires
            0 <= u < 0x1_0000_0000,
    ;
}

proof fn lemma_i16_bytes(v: i16)
    ensures
        i16_bytes(v).len() == 2,
        be_i16(i16_bytes(v)[0], i16_bytes(v)[1]) == v,
{
    let u: int = if v >= 0 {
        v as int
    } else {
        v + 0x1_0000
    };
    assert(u == (u / 0x100) * 0x100 + u % 0x100) by (nonlinear_arith)
        requires
            0 <= u < 0x1_0000,
    ;
    assert(0 <= u / 0x100 < 0x100) by (nonlinear_arith)
        requires
            0 <= u < 0x1_0000,
    ;
}

/// Appending the bytes of one more integer appends it to the decoded integers.
proof fn lemma_i32s_of_push(b: Seq<u8>, v: i32)
    requires
        b.len() % 4 == 0,
    ensures
        i32s_of(b + i32_bytes(v)) == i32s_of(b).push(v),
{
    lemma_i32_bytes(v);
    let c = b + i32_bytes(v);
    assert(c.len() / 4 == b.len() / 4 + 1);
    assert forall|k: int| 0 <= k < b.len() / 4 implies #[trigger] i32s_of(c)[k] == i32s_of(b)[k] by {
        assert(4 * k + 3 < b.len());
    }
    let k: int = (b.len() / 4) as int;
    assert(4 * k == b.len());
    assert(c[4 * k] == i32_bytes(v)[0]);
    assert(c[4 * k + 1] == i32_bytes(v)[1]);
    assert(c[4 * k + 2] == i32_bytes(v)[2]);
    assert(c[4 * k + 3] == i32_bytes(v)[3]);
    assert(i32s_of(c) =~= i32s_of(b).push(v));
}

/// The XY data of a point list decodes to that point list.
pub proof fn lemma_points_round_trip(pts: Seq<(i32, i32)>)
    ensures
        points_bytes(pts).len() == 8 * pts.len(),
        i32s_of(points_bytes(pts)).len() == 2 * pts.len(),
        points_of(points_bytes(pts)) == pts,
    decreases pts.len(),
{
    if pts.len() == 0 {
        assert(points_of(points_bytes(pts)) =~= pts);
    } else {
        let init = pts.drop_last();
        let (x, y) = pts.last();
        lemma_points_round_trip(init);
        let b0 = points_bytes(init);
        lemma_i32_bytes(x);
        lemma_i32_bytes(y);
        lemma_i32s_of_push(b0, x);
        lemma_i32s_of_push(b0 + i32_bytes(x), y);
        let c = i32s_of(points_bytes(pts));
        assert(c == i32s_of(b0).push(x).push(y));
        let p0 = points_of(b0);
        assert(points_of(points_bytes(pts)) =~= pts) by {
            assert forall|k: int| 0 <= k < pts.len() implies #[trigger] points_of(points_bytes(pts))[k] == pts[k] by {
                if k < init.len() {
                    assert(p0[k] == init[k]);
                }
            }
        }
    }
}


/// The reader's state after the records `rs`, starting from state `s`.
pub open spec fn run_from(s: ParseState, rs: Seq<RecordModel>) -> ParseState
    decreases rs.len(),
{
    if rs.len() == 0 {
        s
    } else {
        let t = run_from(s, rs.drop_last());
        if t.done {
            t
        } else {
            gds_step(t, rs.last())
        }
    }
}

proof fn lemma_state_after_is_run(rs: Seq<RecordModel>, k: int)
    requires
        0 <= k <= rs.len(),
    ensures
        state_after(rs, k) == run_from(initial_state(), rs.take(k)),
    decreases k,
{
    if k > 0 {
        lemma_state_after_is_run(rs, k - 1);
        assert(rs.take(k).drop_last() =~= rs.take(k - 1));
    } else {
        assert(rs.take(k) =~= Seq::<RecordModel>::empty());
    }
}

proof fn lemma_run_concat(s: ParseState, a: Seq<RecordModel>, b: Seq<RecordModel>)
    ensures
        run_from(s, a + b) == run_from(run_from(s, a), b),
    decreases b.len(),
{
    if b.len() == 0 {
        assert(a + b =~= a);
    } else {
        lemma_run_concat(s, a, b.drop_last());
        assert((a + b).drop_last() =~= a + b.drop_last());
        assert((a + b).last() == b.last());
    }
}

proof fn lemma_run_one(s: ParseState, r: RecordModel)
    ensures
        run_from(s, seq![r]) == if s.done {
            s
        } else {
            gds_step(s, r)
        },
{
    assert(seq![r].drop_last() =~= Seq::<RecordModel>::empty());
    assert(run_from(s, Seq::<RecordModel>::empty()) == s);
    assert(seq![r].last() == r);
}

/// A record with the given type, data type and data.
pub open spec fn record_of(rtype: u8, dtype: u8, data: Seq<u8>) -> RecordModel {
    RecordModel { rtype, dtype, data }
}

/// The records of one BOUNDARY element.
pub open spec fn boundary_records(p: PolygonModel) -> Seq<RecordModel> {
    seq![
        record_of(BOUNDARY, 0x00, Seq::empty()),
        record_of(LAYER, 0x02, i16_bytes(p.layer)),
        record_of(XY, 0x03, points_bytes(p.points)),
        record_of(ENDEL, 0x00, Seq::empty()),
    ]
}

/// The records of a list of BOUNDARY elements.
pub open spec fn boundaries_records(ps: Seq<PolygonModel>) -> Seq<RecordModel>
    decreases ps.len(),
{
    if ps.len() == 0 {
        Seq::empty()
    } else {
        boundaries_records(ps.drop_last()) + boundary_records(ps.last())
    }
}

/// A structure to write: the bytes of its name and its polygons.
pub struct StructureSource {
    pub name_bytes: Seq<u8>,
    pub polygons: Seq<PolygonModel>,
}

/// The records of one structure.
pub open spec fn structure_records(st: StructureSource) -> Seq<RecordModel> {
    seq![record_of(BGNSTR, 0x02, Seq::empty()), record_of(STRNAME, 0x06, st.name_bytes)]
        + boundaries_records(st.polygons) + seq![record_of(ENDSTR, 0x00, Seq::empty())]
}

/// The records of a list of structures.
pub open spec fn structures_records(sts: Seq<StructureSource>) -> Seq<RecordModel>
    decreases sts.len(),
{
    if sts.len() == 0 {
        Seq::empty()
    } else {
        structures_records(sts.drop_last()) + structure_records(sts.last())
    }
}

/// The records of a library: HEADER, UNITS, the structures, ENDLIB.
pub open spec fn library_records(header: Seq<u8>, units: Seq<u8>, sts: Seq<StructureSource>) -> Seq<
    RecordModel,
> {
    seq![record_of(HEADER, 0x02, header), record_of(UNITS, 0x05, units)] + structures_records(sts)
        + seq![record_of(ENDLIB, 0x00, Seq::empty())]
}

/// What reading a structure gives back.
pub open spec fn structure_read(st: StructureSource) -> StructureModel {
    StructureModel { name: structure_name(st.name_bytes), polygons: st.polygons }
}

/// Every record fits in a GDSII record.
pub open spec fn records_fit(rs: Seq<RecordModel>) -> bool {
    forall|k: int| 0 <= k < rs.len() ==> #[trigger] record_fits(rs[k])
}

/// A structure fits: its name and every polygon's points fit in a record.
pub open spec fn structure_fits(st: StructureSource) -> bool {
    &&& st.name_bytes.len() + 4 <= 0xffff
    &&& forall|k: int| 0 <= k < st.polygons.len() ==> 8 * #[trigger] st.polygons[k].points.len() + 4 <= 0xffff
}

proof fn lemma_fit_concat(a: Seq<RecordModel>, b: Seq<RecordModel>)
    requires
        records_fit(a),
        records_fit(b),
    ensures
        records_fit(a + b),
{
    assert forall|k: int| 0 <= k < (a + b).len() implies #[trigger] record_fits((a + b)[k]) by {
        if k < a.len() {
            assert((a + b)[k] == a[k]);
        } else {
            assert((a + b)[k] == b[k - a.len()]);
        }
    }
}

proof fn lemma_boundaries_fit(ps: Seq<PolygonModel>)
    requires
        forall|k: int| 0 <= k < ps.len() ==> 8 * #[trigger] ps[k].points.len() + 4 <= 0xffff,
    ensures
        records_fit(boundaries_records(ps)),
    decreases ps.len(),
{
    if ps.len() > 0 {
        assert forall|k: int| 0 <= k < ps.drop_last().len() implies 8 * #[trigger] ps.drop_last()[k].points.len() + 4 <= 0xffff by {
            assert(ps.drop_last()[k] == ps[k]);
        }
        lemma_boundaries_fit(ps.drop_last());
        let p = ps.last();
        assert(8 * ps[ps.len() - 1].points.len() + 4 <= 0xffff);
        lemma_points_round_trip(p.points);
        lemma_i16_bytes(p.layer);
        assert(records_fit(boundary_records(p)));
        lemma_fit_concat(boundaries_records(ps.drop_last()), boundary_records(p));
    }
}

proof fn lemma_structures_fit(sts: Seq<StructureSource>)
    requires
        forall|k: int| 0 <= k < sts.len() ==> structure_fits(#[trigger] sts[k]),
    ensures
        records_fit(structures_records(sts)),
    decreases sts.len(),
{
    if sts.len() > 0 {
        assert forall|k: int| 0 <= k < sts.drop_last().len() implies structure_fits(#[trigger] sts.drop_last()[k]) by {
            assert(sts.drop_last()[k] == sts[k]);
        }
        lemma_structures_fit(sts.drop_last());
        let st = sts.last();
        assert(structure_fits(sts[sts.len() - 1]));
        lemma_boundaries_fit(st.polygons);
        let head = seq![record_of(BGNSTR, 0x02, Seq::empty()), record_of(STRNAME, 0x06, st.name_bytes)];
        let tail = seq![record_of(ENDSTR, 0x00, Seq::empty())];
        assert(records_fit(head));
        assert(records_fit(tail));
        lemma_fit_concat(head, boundaries_records(st.polygons));
        lemma_fit_concat(head + boundaries_records(st.polygons), tail);
        lemma_fit_concat(structures_records(sts.drop_last()), structure_records(st));
    }
}

proof fn lemma_boundary_run(s: ParseState, p: PolygonModel)
    requires
        !s.done,
    ensures
        ({
            let t = run_from(s, boundary_records(p));
            &&& t.polygons == s.polygons.push(p)
            &&& t.structures == s.structures
            &&& t.name == s.name
            &&& t.units == s.units
            &&& !t.in_boundary
            &&& !t.done
        }),
{
    let r1 = record_of(BOUNDARY, 0x00, Seq::empty());
    let r2 = record_of(LAYER, 0x02, i16_bytes(p.layer));
    let r3 = record_of(XY, 0x03, points_bytes(p.points));
    let r4 = record_of(ENDEL, 0x00, Seq::empty());
    assert(boundary_records(p) =~= seq![r1] + seq![r2] + seq![r3] + seq![r4]);
    lemma_run_concat(s, seq![r1] + seq![r2] + seq![r3], seq![r4]);
    lemma_run_concat(s, seq![r1] + seq![r2], seq![r3]);
    lemma_run_concat(s, seq![r1], seq![r2]);
    let s1 = run_from(s, seq![r1]);
    lemma_run_one(s, r1);
    let s2 = run_from(s1, seq![r2]);
    lemma_run_one(s1, r2);
    lemma_i16_bytes(p.layer);
    let s3 = run_from(s2, seq![r3]);
    lemma_run_one(s2, r3);
    lemma_points_round_trip(p.points);
    lemma_run_one(s3, r4);
}

proof fn lemma_boundaries_run(s: ParseState, ps: Seq<PolygonModel>)
    requires
        !s.done,
        !s.in_boundary,
    ensures
        ({
            let t = run_from(s, boundaries_records(ps));
            &&& t.polygons == s.polygons + ps
            &&& t.structures == s.structures
            &&& t.name == s.name
            &&& t.units == s.units
            &&& !t.in_boundary
            &&& !t.done
        }),
    decreases ps.len(),
{
    if ps.len() == 0 {
        assert(s.polygons + ps =~= s.polygons);
    } else {
        lemma_boundaries_run(s, ps.drop_last());
        lemma_run_concat(s, boundaries_records(ps.drop_last()), boundary_records(ps.last()));
        lemma_boundary_run(run_from(s, boundaries_records(ps.drop_last())), ps.last());
        assert(s.polygons + ps =~= (s.polygons + ps.drop_last()).push(ps.last()));
    }
}

proof fn lemma_structure_run(s: ParseState, st: StructureSource)
    requires
        !s.done,
        !s.in_boundary,
    ensures
        ({
            let t = run_from(s, structure_records(st));
            &&& t.structures == s.structures.push(structure_read(st))
            &&& t.units == s.units
            &&& !t.in_boundary
            &&& !t.done
        }),
{
    let r1 = record_of(BGNSTR, 0x02, Seq::empty());
    let r2 = record_of(STRNAME, 0x06, st.name_bytes);
    let mid = boundaries_records(st.polygons);
    let r4 = record_of(ENDSTR, 0x00, Seq::empty());
    assert(structure_records(st) =~= seq![r1] + seq![r2] + mid + seq![r4]);
    lemma_run_concat(s, seq![r1] + seq![r2] + mid, seq![r4]);
    lemma_run_concat(s, seq![r1] + seq![r2], mid);
    lemma_run_concat(s, seq![r1], seq![r2]);
    let s1 = run_from(s, seq![r1]);
    lemma_run_one(s, r1);
    let s2 = run_from(s1, seq![r2]);
    lemma_run_one(s1, r2);
    lemma_boundaries_run(s2, st.polygons);
    let s3 = run_from(s2, mid);
    assert(s2.polygons + st.polygons =~= st.polygons);
    lemma_run_one(s3, r4);
}

proof fn lemma_structures_run(s: ParseState, sts: Seq<StructureSource>)
    requires
        !s.done,
        !s.in_boundary,
    ensures
        ({
            let t = run_from(s, structures_records(sts));
            &&& t.structures == s.structures + sts.map_values(|st: StructureSource| structure_read(st))
            &&& t.units == s.units
            &&& !t.in_boundary
            &&& !t.done
        }),
    decreases sts.len(),
{
    if sts.len() == 0 {
        assert(s.structures + sts.map_values(|st: StructureSource| structure_read(st)) =~= s.structures);
    } else {
        lemma_structures_run(s, sts.drop_last());
        lemma_run_concat(s, structures_records(sts.drop_last()), structure_records(sts.last()));
        lemma_structure_run(run_from(s, structures_records(sts.drop_last())), sts.last());
        assert(s.structures + sts.map_values(|st: StructureSource| structure_read(st)) =~= (
        s.structures + sts.drop_last().map_values(|st: StructureSource| structure_read(st))).push(
            structure_read(sts.last()),
        ));
    }
}

/// Reading back a GDSII stream written from a HEADER, a UNITS record and a
/// list of structures of BOUNDARY polygons (every record small enough to
/// fit) gives the units and exactly those structures, in order: each with
/// the name its STRNAME bytes spell and its polygons' layers and points.
pub proof fn law_gds_write_then_read(header: Seq<u8>, units: Seq<u8>, sts: Seq<StructureSource>)
    requires
        header.len() + 4 <= 0xffff,
        units.len() == 16,
        forall|k: int| 0 <= k < sts.len() ==> structure_fits(#[trigger] sts[k]),
    ensures
        parse_gds_spec(encode_records(library_records(header, units, sts))) == Ok::<
            LibraryModel,
            GdsError,
        >(
            LibraryModel {
                meters_per_dbu: Some(real8_of(units.subrange(8, 16))),
                structures: sts.map_values(|st: StructureSource| structure_read(st)),
            },
        ),
{
    let h = seq![record_of(HEADER, 0x02, header), record_of(UNITS, 0x05, units)];
    let mid = structures_records(sts);
    let e = seq![record_of(ENDLIB, 0x00, Seq::empty())];
    let rs = library_records(header, units, sts);
    assert(rs == h + mid + e);
    lemma_structures_fit(sts);
    assert(records_fit(h));
    assert(records_fit(e));
    lemma_fit_concat(h, mid);
    lemma_fit_concat(h + mid, e);
    lemma_read_encoded_records(rs);
    assert(rs[0] == record_of(HEADER, 0x02, header));
    lemma_state_after_is_run(rs, rs.len() as int);
    assert(rs.take(rs.len() as int) =~= rs);
    let init = initial_state();
    lemma_run_concat(init, h + mid, e);
    lemma_run_concat(init, h, mid);
    let r1 = record_of(HEADER, 0x02, header);
    let r2 = record_of(UNITS, 0x05, units);
    assert(h =~= seq![r1] + seq![r2]);
    lemma_run_concat(init, seq![r1], seq![r2]);
    lemma_run_one(init, r1);
    let s1 = run_from(init, seq![r1]);
    lemma_run_one(s1, r2);
    let s2 = run_from(init, h);
    lemma_structures_run(s2, sts);
    assert(s2.structures + sts.map_values(|st: StructureSource| structure_read(st)) =~= sts.map_values(
        |st: StructureSource| structure_read(st),
    ));
    let s3 = run_from(s2, mid);
    lemma_run_one(s3, record_of(ENDLIB, 0x00, Seq::empty()));
}


proof fn lemma_run_done(s: ParseState, rs: Seq<RecordModel>)
    requires
        s.done,
    ensures
        run_from(s, rs) == s,
    decreases rs.len(),
{
    if rs.len() > 0 {
        lemma_run_done(s, rs.drop_last());
    }
}

/// Everything after ENDLIB is ignored: a stream that ends at ENDLIB reads
/// the same whatever well-formed records are appended after it.
pub proof fn law_gds_ignores_records_after_endlib(
    before: Seq<RecordModel>,
    endlib: RecordModel,
    after: Seq<RecordModel>,
)
    requires
        endlib.rtype == ENDLIB,
        records_fit(before),
        record_fits(endlib),
        records_fit(after),
    ensures
        parse_gds_spec(encode_records(before.push(endlib) + after)) == parse_gds_spec(
            encode_records(before.push(endlib)),
        ),
{
    let a = before.push(endlib);
    let ab = a + after;
    assert forall|k: int| 0 <= k < a.len() implies #[trigger] record_fits(a[k]) by {
        if k < before.len() {
            assert(a[k] == before[k]);
        }
    }
    lemma_fit_concat(a, after);
    lemma_read_encoded_records(a);
    lemma_read_encoded_records(ab);
    lemma_state_after_is_run(a, a.len() as int);
    lemma_state_after_is_run(ab, ab.len() as int);
    assert(a.take(a.len() as int) =~= a);
    assert(ab.take(ab.len() as int) =~= ab);
    let init = initial_state();
    lemma_run_concat(init, a, after);
    assert(a.drop_last() =~= before);
    let t = run_from(init, before);
    assert(run_from(init, a) == if t.done {
        t
    } else {
        gds_step(t, endlib)
    });
    lemma_run_done(run_from(init, a), after);
    if a.len() > 0 {
        assert(ab[0] == a[0]);
    }
}


/// Only a LAYER record inside a BOUNDARY sets the current polygon's layer
/// (BOUNDARY itself starts it at 0): every other record, DATATYPE and any
/// unhandled record included, leaves the layer as it was.
pub proof fn law_gds_only_layer_sets_layer(s: ParseState, r: RecordModel)
    requires
        r.rtype != LAYER,
        r.rtype != BOUNDARY,
    ensures
        gds_step(s, r).layer == s.layer,
{
}

/// A LAYER record of at least two bytes inside a BOUNDARY sets the layer to
/// its big-endian 16-bit value; BOUNDARY starts a polygon on layer 0 with no
/// points.
pub proof fn law_gds_layer_record_sets_layer(s: ParseState, r: RecordModel)
    ensures
        r.rtype == LAYER && s.in_boundary && r.data.len() >= 2 ==> gds_step(s, r).layer
            == be_i16(r.data[0], r.data[1]),
        r.rtype == BOUNDARY ==> gds_step(s, r).layer == 0 && gds_step(s, r).in_boundary
            && gds_step(s, r).points.len() == 0,
{
}

/// Only an XY record inside a BOUNDARY sets the current polygon's points,
/// to the big-endian 32-bit pairs of its data; every other record but
/// BOUNDARY leaves them as they were.
pub proof fn law_gds_only_xy_sets_points(s: ParseState, r: RecordModel)
    ensures
        r.rtype != XY && r.rtype != BOUNDARY ==> gds_step(s, r).points == s.points,
        r.rtype == XY && s.in_boundary ==> gds_step(s, r).points == points_of(r.data),
{
}

/// A record that is none of the handled ones (UNITS, BGNSTR, STRNAME,
/// BOUNDARY, LAYER, XY, ENDEL, ENDSTR, ENDLIB) leaves the reader's state
/// unchanged.
pub proof fn law_gds_ignores_unhandled_records(s: ParseState, r: RecordModel)
    requires
        r.rtype != UNITS,
        r.rtype != BGNSTR,
        r.rtype != STRNAME,
        r.rtype != BOUNDARY,
        r.rtype != LAYER,
        r.rtype != XY,
        r.rtype != ENDEL,
        r.rtype != ENDSTR,
        r.rtype != ENDLIB,
    ensures
        gds_step(s, r) == s,
{
}

} // verus!
