//! Decoding of the attribute stream inside an NTFS file record: the
//! standard-information payload, the file-naming payload, and the compressed
//! extent list of the data attribute.

use crate::bytes::as_signed_64;
use crate::bytes::le_value;
use crate::bytes::lemma_le_value_bound;
use crate::bytes::lemma_pow256_increases;
use crate::bytes::lemma_pow256_u64;
use crate::bytes::pow256;
use crate::bytes::read_le;
use crate::errors::ErrorKind;
use crate::text::collect_utf16_units;
use crate::text::utf16_chars;
use crate::text::utf16_to_string;
use crate::text::utf16_units;
use crate::text::utf16_valid;
use vstd::prelude::*;

verus! {

/// Attribute-type marker of the standard-information payload.
pub const STANDARD: u32 = 0x10;

/// Attribute-type marker of the file-naming payload.
pub const FILENAME: u32 = 0x30;

/// Attribute-type marker of the data attribute, whose payload is the extent list.
pub const DATA: u32 = 0x80;

/// Attribute-type marker that terminates the attribute stream.
pub const END1: u32 = 0xFFFF_FFFF;

/// One run of contiguous clusters.  `offset_lcn` is relative to the previous
/// run's absolute start, so absolute locations arise only by folding over the
/// whole sequence.
#[derive(Clone, Copy, Debug, PartialEq, Eq, Structural)]
pub struct Datarun {
    pub length_lcn: u64,
    pub offset_lcn: i64,
}

/// The number of bytes of a field that take part in its value: at most the
/// first eight.
pub open spec fn field_width(s: Seq<u8>) -> int {
    if s.len() < 8 {
        s.len() as int
    } else {
        8
    }
}

/// The value of a run-length field: its first eight bytes at most,
/// little-endian unsigned.
pub open spec fn length_field_value(s: Seq<u8>) -> nat {
    le_value(s.take(field_width(s)))
}

/// The value of a run-offset field: little-endian, signed by two's
/// complement over the width of the field.  A field under eight bytes whose
/// high bit is set denotes `value - 256^len`; a field of eight bytes or more
/// is read as a 64-bit two's-complement value of its first eight bytes.
pub open spec fn offset_field_value(s: Seq<u8>) -> int {
    if s.len() >= 8 {
        as_signed_64(le_value(s.take(8)))
    } else if s.last() >= 0x80 {
        le_value(s) - pow256(s.len())
    } else {
        le_value(s) as int
    }
}

/// The byte-wise complement of a buffer.
pub open spec fn complement(s: Seq<u8>) -> Seq<u8> {
    s.map_values(|b: u8| (255 - b) as u8)
}

/// Complementing a buffer complements its little-endian value with respect
/// to `256^len - 1`.
pub proof fn lemma_le_value_complement(s: Seq<u8>)
    ensures
        le_value(complement(s)) == pow256(s.len()) - 1 - le_value(s),
    decreases s.len(),
{
    if s.len() == 0 {
    } else {
        lemma_le_value_complement(s.skip(1));
        assert(complement(s).skip(1) =~= complement(s.skip(1)));
    }
}

/// The top byte of a buffer bounds its little-endian value.
pub proof fn lemma_le_value_top_byte(s: Seq<u8>)
    requires
        s.len() >= 1,
    ensures
        le_value(s) >= s.last() as nat * pow256((s.len() - 1) as nat),
        le_value(s) < (s.last() as nat + 1) * pow256((s.len() - 1) as nat),
    decreases s.len(),
{
    if s.len() == 1 {
        assert(le_value(s.skip(1)) == 0);
        assert(le_value(s) == s[0] as nat);
        assert(pow256(0) == 1);
    } else {
        lemma_le_value_top_byte(s.skip(1));
        assert(s.skip(1).last() == s.last());
        let b = s.last() as nat;
        let p = pow256((s.len() - 2) as nat);
        let q = pow256((s.len() - 1) as nat);
        let v = le_value(s.skip(1));
        assert(le_value(s) == s[0] as nat + 256 * v);
        assert(v >= b * p);
        assert(v < (b + 1) * p);
        assert(q == 256 * p);
        assert(256 * (b * p) == b * (256 * p)) by (nonlinear_arith);
        assert(256 * ((b + 1) * p) == (b + 1) * (256 * p)) by (nonlinear_arith);
        assert(256 * v >= 256 * (b * p));
        assert(v + 1 <= (b + 1) * p);
        assert(256 * (v + 1) <= 256 * ((b + 1) * p));
        assert(le_value(s) >= b * q);
        assert(le_value(s) < (b + 1) * q);
    }
}

/// An offset field of up to eight bytes decodes by two's complement over
/// its own width: its unsigned little-endian value, less `256^len` when
/// the high bit of its most significant byte is set.
pub proof fn lemma_offset_twos_complement(s: Seq<u8>)
    requires
        1 <= s.len() <= 8,
    ensures
        offset_field_value(s) == le_value(s) - (if s.last() >= 0x80 {
            pow256(s.len()) as int
        } else {
            0
        }),
{
    if s.len() == 8 {
        assert(s.take(8) =~= s);
        lemma_le_value_top_byte(s);
        lemma_le_value_bound(s);
        lemma_pow256_u64();
        if s.last() >= 0x80 {
            assert(s.last() as nat * pow256(7) >= 0x80 * pow256(7)) by (nonlinear_arith)
                requires
                    s.last() >= 0x80,
                    pow256(7) >= 0,
            ;
            assert(le_value(s) >= 0x80 * pow256(7));
        } else {
            assert(le_value(s) < (s.last() as nat + 1) * pow256(7));
            assert((s.last() as nat + 1) * pow256(7) <= 0x80 * pow256(7)) by (nonlinear_arith)
                requires
                    s.last() < 0x80,
                    pow256(7) >= 0,
            ;
        }
    }
}

/// Reads a run-length field: at most the first eight bytes, little-endian.
pub fn length_in_lcn(input: &[u8]) -> (r: u64)
    ensures
        r as nat == length_field_value(input@),
{
    let n: usize = input.len();
    let w: usize = if n < 8 {
        n
    } else {
        8
    };
    proof {
        assert(input@.subrange(0, w as int) =~= input@.take(field_width(input@)));
    }
    read_le(input, 0, w)
}

/// Reinterprets a 64-bit unsigned value as a two's-complement signed one.
fn u64_as_i64(v: u64) -> (r: i64)
    ensures
        r as int == as_signed_64(v as nat),
{
    if v < 0x8000_0000_0000_0000 {
        v as i64
    } else {
        -((u64::MAX - v) as i64) - 1
    }
}

/// Reads a run-offset field as a signed relative cluster offset.
pub fn offset_in_lcn(input: &[u8]) -> (r: i64)
    requires
        input@.len() >= 1,
    ensures
        r as int == offset_field_value(input@),
{
    let n: usize = input.len();
    proof {
        lemma_le_value_bound(input@.take(field_width(input@)));
        if n < 8 {
            assert(input@.take(field_width(input@)) =~= input@);
            lemma_pow256_increases(input@.len() as nat, 7);
            lemma_pow256_u64();
        }
    }
    if input[n - 1] < 0x80 {
        let v = length_in_lcn(input);
        proof {
            if n >= 8 {
            } else {
                lemma_le_value_top_byte(input@);
            }
        }
        u64_as_i64(v)
    } else {
        let mut comp: Vec<u8> = Vec::new();
        let mut i: usize = 0;
        while i < n
            invariant
                n == input@.len(),
                i <= n,
                comp@ =~= complement(input@).take(i as int),
            decreases n - i,
        {
            comp.push(255 - input[i]);
            proof {
                assert(complement(input@).take(i as int + 1) =~= complement(input@).take(
                    i as int,
                ).push((255 - input@[i as int]) as u8));
            }
            i = i + 1;
        }
        proof {
            assert(complement(input@).take(n as int) =~= complement(input@));
        }
        let v = length_in_lcn(comp.as_slice());
        proof {
            let c = complement(input@);
            if n < 8 {
                assert(c.take(field_width(c)) =~= c);
                lemma_le_value_complement(input@);
            } else {
                assert(c.take(8) =~= complement(input@.take(8)));
                lemma_le_value_complement(input@.take(8));
                lemma_le_value_bound(input@.take(8));
                lemma_pow256_u64();
            }
        }
        if v < 0x8000_0000_0000_0000 {
            -(v as i64) - 1
        } else {
            (u64::MAX - v) as i64
        }
    }
}

/// The extent list that a data-attribute payload denotes, or `None` where
/// the payload is malformed.  Each run starts with a header byte whose low
/// nibble gives the width of the length field and whose high nibble gives
/// the width of the offset field; a zero header byte ends the list.  A zero
/// width, or a run reaching past the buffer, or a missing end marker, is
/// malformed.
pub open spec fn parse_dataruns(s: Seq<u8>) -> Option<Seq<Datarun>>
    decreases s.len(),
{
    if s.len() == 0 {
        None
    } else if s[0] == 0 {
        Some(Seq::empty())
    } else {
        let length_size = s[0] as int % 16;
        let offset_size = s[0] as int / 16;
        if length_size == 0 || offset_size == 0 || 1 + length_size + offset_size > s.len() {
            None
        } else {
            let length_lcn = length_field_value(s.subrange(1, 1 + length_size));
            let offset_lcn = offset_field_value(
                s.subrange(1 + length_size, 1 + length_size + offset_size),
            );
            let run = Datarun { length_lcn: length_lcn as u64, offset_lcn: offset_lcn as i64 };
            match parse_dataruns(s.skip(1 + length_size + offset_size)) {
                Some(rest) => Some(seq![run] + rest),
                None => None,
            }
        }
    }
}

/// Decodes a data-attribute payload into its extent list.
#[verifier::rlimit(60)]
pub fn data_attr(input: &[u8]) -> (r: Result<Vec<Datarun>, ErrorKind>)
    ensures
        match r {
            Ok(v) => parse_dataruns(input@) == Some(v@),
            Err(e) => parse_dataruns(input@) is None && e == ErrorKind::MalformedRecord,
        },
{
    let n: usize = input.len();
    let mut runs: Vec<Datarun> = Vec::new();
    let mut offset: usize = 0;
    proof {
        assert(input@.skip(0) =~= input@);
        match parse_dataruns(input@) {
            Some(rest) => {
                assert(runs@ + rest =~= rest);
            },
            None => {},
        }
    }
    loop
        invariant
            n == input@.len(),
            offset <= n,
            match parse_dataruns(input@.skip(offset as int)) {
                Some(rest) => parse_dataruns(input@) == Some(runs@ + rest),
                None => parse_dataruns(input@) is None,
            },
        decreases n - offset,
    {
        let ghost tail = input@.skip(offset as int);
        if offset == n {
            return Err(ErrorKind::MalformedRecord);
        }
        let header = input[offset];
        if header == 0 {
            proof {
                assert(runs@ + Seq::<Datarun>::empty() =~= runs@);
            }
            return Ok(runs);
        }
        let length_size: usize = (header % 16) as usize;
        let offset_size: usize = (header / 16) as usize;
        proof {
            assert(tail[0] == header);
            assert(tail[0] as int % 16 == length_size as int);
            assert(tail[0] as int / 16 == offset_size as int);
        }
        if length_size == 0 || offset_size == 0 || n - offset - 1 < length_size || n - offset - 1
            - length_size < offset_size {
            return Err(ErrorKind::MalformedRecord);
        }
        let length_lcn = length_in_lcn(&input[offset + 1..offset + 1 + length_size]);
        let offset_lcn = offset_in_lcn(
            &input[offset + 1 + length_size..offset + 1 + length_size + offset_size],
        );
        proof {
            assert(input@.subrange(
                offset as int + 1,
                offset as int + 1 + length_size as int,
            ) =~= tail.subrange(1, 1 + length_size as int));
            assert(input@.subrange(
                offset as int + 1 + length_size as int,
                offset as int + 1 + length_size as int + offset_size as int,
            ) =~= tail.subrange(1 + length_size as int, 1 + length_size as int + offset_size as int));
            lemma_le_value_bound(
                tail.subrange(1, 1 + length_size as int).take(
                    field_width(tail.subrange(1, 1 + length_size as int)),
                ),
            );
        }
        let run = Datarun { length_lcn, offset_lcn };
        let ghost old_runs = runs@;
        runs.push(run);
        proof {
            let consumed = 1 + length_size as int + offset_size as int;
            assert(tail.skip(consumed) =~= input@.skip(offset as int + consumed));
            match parse_dataruns(tail.skip(consumed)) {
                Some(rest) => {
                    assert(parse_dataruns(tail) == Some(seq![run] + rest));
                    assert(old_runs + (seq![run] + rest) =~= runs@ + rest);
                },
                None => {},
            }
        }
        offset = offset + 1 + length_size + offset_size;
    }
}

/// Timestamps and DOS flags from the standard-information payload.
#[derive(Clone, Copy, Debug, PartialEq, Eq, Structural)]
pub struct StandardAttr {
    pub dos_flags: u32,
    pub modified: u64,
    pub created: u64,
}

/// The record that a standard-information payload denotes, or `None` where
/// the payload is too short.
pub open spec fn parse_standard(s: Seq<u8>) -> Option<StandardAttr> {
    if s.len() < 0x24 {
        None
    } else {
        Some(
            StandardAttr {
                dos_flags: le_value(s.subrange(0x20, 0x24)) as u32,
                modified: le_value(s.subrange(0x08, 0x10)) as u64,
                created: le_value(s.subrange(0x00, 0x08)) as u64,
            },
        )
    }
}

/// Decodes a standard-information payload.
pub fn standard_attr(input: &[u8]) -> (r: Result<StandardAttr, ErrorKind>)
    ensures
        match r {
            Ok(a) => parse_standard(input@) == Some(a),
            Err(e) => parse_standard(input@) is None && e == ErrorKind::MalformedRecord,
        },
{
    let n: usize = input.len();
    if n < 0x24 {
        return Err(ErrorKind::MalformedRecord);
    }
    proof {
        lemma_le_value_bound(input@.subrange(0x20, 0x24));
        lemma_le_value_bound(input@.subrange(0x08, 0x10));
        lemma_le_value_bound(input@.subrange(0x00, 0x08));
        lemma_pow256_u64();
    }
    let created = read_le(input, 0x00, 8);
    let modified = read_le(input, 0x08, 8);
    let dos_flags = read_le(input, 0x20, 4) as u32;
    Ok(StandardAttr { dos_flags, modified, created })
}

/// One hard link's naming record: the identity of the directory holding the
/// link, the file's sizes and flags, the naming namespace, and the name.
#[derive(Debug, PartialEq)]
pub struct FilenameAttr {
    pub parent_id: u64,
    pub allocated_size: u64,
    pub real_size: u64,
    pub flags: u32,
    pub namespace: u8,
    pub name: String,
}

/// Mathematical image of a `FilenameAttr`.
pub struct FilenameAttrView {
    pub parent_id: u64,
    pub allocated_size: u64,
    pub real_size: u64,
    pub flags: u32,
    pub namespace: u8,
    pub name: Seq<char>,
}

impl View for FilenameAttr {
    type V = FilenameAttrView;

    open spec fn view(&self) -> FilenameAttrView {
        FilenameAttrView {
            parent_id: self.parent_id,
            allocated_size: self.allocated_size,
            real_size: self.real_size,
            flags: self.flags,
            namespace: self.namespace,
            name: self.name@,
        }
    }
}

/// The record that a file-naming payload denotes, or `None` where the
/// payload is too short or its name is not well-formed UTF-16.
pub open spec fn parse_filename(s: Seq<u8>) -> Option<FilenameAttrView> {
    if s.len() < 0x42 {
        None
    } else {
        let name_len = 2 * (s[0x40] as int);
        if s.len() < 0x42 + name_len {
            None
        } else {
            let units = utf16_units(s.subrange(0x42, 0x42 + name_len));
            if !utf16_valid(units) {
                None
            } else {
                Some(
                    FilenameAttrView {
                        parent_id: le_value(s.subrange(0x00, 0x08)) as u64,
                        allocated_size: le_value(s.subrange(0x28, 0x30)) as u64,
                        real_size: le_value(s.subrange(0x30, 0x38)) as u64,
                        flags: le_value(s.subrange(0x38, 0x3C)) as u32,
                        namespace: s[0x41],
                        name: utf16_chars(units),
                    },
                )
            }
        }
    }
}

/// Decodes a file-naming payload.
pub fn filename_attr(input: &[u8]) -> (r: Result<FilenameAttr, ErrorKind>)
    ensures
        match r {
            Ok(a) => parse_filename(input@) == Some(a@),
            Err(e) => parse_filename(input@) is None && e == ErrorKind::MalformedRecord,
        },
{
    let n: usize = input.len();
    if n < 0x42 {
        return Err(ErrorKind::MalformedRecord);
    }
    let name_len: usize = 2 * (input[0x40] as usize);
    if n - 0x42 < name_len {
        return Err(ErrorKind::MalformedRecord);
    }
    let units = collect_utf16_units(&input[0x42..0x42 + name_len]);
    proof {
        assert(input@.subrange(0x42, 0x42 + name_len as int) =~= input@.subrange(
            0x42,
            0x42 + 2 * (input@[0x40] as int),
        ));
    }
    let name = match utf16_to_string(&units) {
        Some(name) => name,
        None => {
            return Err(ErrorKind::MalformedRecord);
        },
    };
    proof {
        lemma_le_value_bound(input@.subrange(0x00, 0x08));
        lemma_le_value_bound(input@.subrange(0x28, 0x30));
        lemma_le_value_bound(input@.subrange(0x30, 0x38));
        lemma_le_value_bound(input@.subrange(0x38, 0x3C));
        lemma_pow256_u64();
    }
    let parent_id = read_le(input, 0x00, 8);
    let allocated_size = read_le(input, 0x28, 8);
    let real_size = read_le(input, 0x30, 8);
    let flags = read_le(input, 0x38, 4) as u32;
    let namespace = input[0x41];
    Ok(FilenameAttr { parent_id, allocated_size, real_size, flags, namespace, name })
}

/// A decoded attribute: its stream flags and its typed payload.
#[derive(Debug, PartialEq)]
pub enum AttributeType {
    Standard(StandardAttr),
    Filename(FilenameAttr),
    Data(Vec<Datarun>),
}

/// Mathematical image of an `AttributeType`.
pub enum AttributeTypeView {
    Standard(StandardAttr),
    Filename(FilenameAttrView),
    Data(Seq<Datarun>),
}

impl View for AttributeType {
    type V = AttributeTypeView;

    open spec fn view(&self) -> AttributeTypeView {
        match self {
            AttributeType::Standard(a) => AttributeTypeView::Standard(*a),
            AttributeType::Filename(a) => AttributeTypeView::Filename(a@),
            AttributeType::Data(v) => AttributeTypeView::Data(v@),
        }
    }
}

/// One attribute of a file record.
#[derive(Debug, PartialEq)]
pub struct Attribute {
    pub attr_flags: u16,
    pub attr_type: AttributeType,
}

/// Mathematical image of an `Attribute`.
pub struct AttributeView {
    pub attr_flags: u16,
    pub attr_type: AttributeTypeView,
}

impl View for Attribute {
    type V = AttributeView;

    open spec fn view(&self) -> AttributeView {
        AttributeView { attr_flags: self.attr_flags, attr_type: self.attr_type@ }
    }
}

/// The images of a sequence of decoded attributes.
pub open spec fn attrs_view(v: Seq<Attribute>) -> Seq<AttributeView> {
    v.map_values(|a: Attribute| a@)
}

/// The recognized attributes of an attribute stream, or `None` where the
/// stream is malformed.  Attribute headers are walked from the front; the
/// walk stops at the terminator marker or at the first type above
/// `last_attr`, and keeps only the standard-information, file-naming and
/// data attributes.  A truncated stream, a zero-length header, or a
/// malformed payload is malformed.
pub open spec fn parse_attrs(s: Seq<u8>, last_attr: u32) -> Option<Seq<AttributeView>>
    decreases s.len(),
{
    if s.len() < 4 {
        None
    } else {
        let ty = le_value(s.subrange(0, 4));
        if ty == END1 || ty > last_attr {
            Some(Seq::empty())
        } else if s.len() < 0x10 {
            None
        } else {
            let attr_flags = le_value(s.subrange(0x0C, 0x0E)) as u16;
            let attr_length = le_value(s.subrange(0x04, 0x08)) as int;
            if attr_length == 0 || attr_length > s.len() {
                None
            } else {
                let item = parse_attr_payload(s, ty);
                match item {
                    None => None,
                    Some(item) => match parse_attrs(s.skip(attr_length), last_attr) {
                        None => None,
                        Some(rest) => match item {
                            Some(payload) => Some(
                                seq![AttributeView { attr_flags, attr_type: payload }] + rest,
                            ),
                            None => Some(rest),
                        },
                    },
                }
            }
        }
    }
}

/// The payload of one recognized attribute header: `None` where the payload
/// is malformed, `Some(None)` where the type is not recognized and the
/// attribute is skipped, and `Some(Some(payload))` otherwise.
pub open spec fn parse_attr_payload(s: Seq<u8>, ty: nat) -> Option<Option<AttributeTypeView>> {
    if ty == STANDARD || ty == FILENAME {
        if s.len() < 0x16 {
            None
        } else {
            let attr_offset = le_value(s.subrange(0x14, 0x16)) as int;
            if attr_offset > s.len() {
                None
            } else if ty == STANDARD {
                match parse_standard(s.skip(attr_offset)) {
                    None => None,
                    Some(a) => Some(Some(AttributeTypeView::Standard(a))),
                }
            } else {
                match parse_filename(s.skip(attr_offset)) {
                    None => None,
                    Some(a) => Some(Some(AttributeTypeView::Filename(a))),
                }
            }
        }
    } else if ty == DATA {
        if s.len() < 0x22 {
            None
        } else {
            let attr_offset = le_value(s.subrange(0x20, 0x22)) as int;
            if attr_offset > s.len() {
                None
            } else {
                match parse_dataruns(s.skip(attr_offset)) {
                    None => None,
                    Some(runs) => Some(Some(AttributeTypeView::Data(runs))),
                }
            }
        }
    } else {
        Some(None)
    }
}

/// Walks an attribute stream and decodes every recognized attribute whose
/// type marker does not exceed `last_attr`.  Callers that need only naming
/// information pass a low `last_attr` to skip the data attribute.
#[verifier::rlimit(100)]
pub fn parse_attributes(input: &[u8], last_attr: u32) -> (r: Result<Vec<Attribute>, ErrorKind>)
    ensures
        match r {
            Ok(v) => parse_attrs(input@, last_attr) == Some(attrs_view(v@)),
            Err(e) => parse_attrs(input@, last_attr) is None && e == ErrorKind::MalformedRecord,
        },
{
    let n: usize = input.len();
    let mut out: Vec<Attribute> = Vec::new();
    let mut offset: usize = 0;
    proof {
        assert(input@.skip(0) =~= input@);
        match parse_attrs(input@, last_attr) {
            Some(rest) => {
                assert(attrs_view(out@) + rest =~= rest);
            },
            None => {},
        }
    }
    loop
        invariant
            n == input@.len(),
            offset <= n,
            match parse_attrs(input@.skip(offset as int), last_attr) {
                Some(rest) => parse_attrs(input@, last_attr) == Some(attrs_view(out@) + rest),
                None => parse_attrs(input@, last_attr) is None,
            },
        decreases n - offset,
    {
        let ghost tail = input@.skip(offset as int);
        if n - offset < 4 {
            return Err(ErrorKind::MalformedRecord);
        }
        proof {
            lemma_le_value_bound(tail.subrange(0, 4));
            lemma_le_value_bound(tail.subrange(0x04, 0x08));
            lemma_pow256_u64();
            assert(input@.subrange(offset as int, offset as int + 4) =~= tail.subrange(0, 4));
        }
        let ty = read_le(input, offset, 4) as u32;
        if ty == END1 || ty > last_attr {
            proof {
                assert(attrs_view(out@) + Seq::<AttributeView>::empty() =~= attrs_view(out@));
            }
            return Ok(out);
        }
        if n - offset < 0x10 {
            return Err(ErrorKind::MalformedRecord);
        }
        proof {
            assert(input@.subrange(offset as int + 0x0C, offset as int + 0x0E) =~= tail.subrange(
                0x0C,
                0x0E,
            ));
            assert(input@.subrange(offset as int + 0x04, offset as int + 0x08) =~= tail.subrange(
                0x04,
                0x08,
            ));
            lemma_le_value_bound(tail.subrange(0x0C, 0x0E));
        }
        let attr_flags = read_le(input, offset + 0x0C, 2) as u16;
        let attr_length_64 = read_le(input, offset + 0x04, 4);
        if attr_length_64 == 0 || attr_length_64 > (n - offset) as u64 {
            return Err(ErrorKind::MalformedRecord);
        }
        let attr_length: usize = attr_length_64 as usize;
        let item: Option<AttributeType> = if ty == STANDARD || ty == FILENAME {
            if n - offset < 0x16 {
                return Err(ErrorKind::MalformedRecord);
            }
            proof {
                assert(input@.subrange(offset as int + 0x14, offset as int + 0x16)
                    =~= tail.subrange(0x14, 0x16));
                lemma_le_value_bound(tail.subrange(0x14, 0x16));
            }
            let attr_offset_64 = read_le(input, offset + 0x14, 2);
            if attr_offset_64 > (n - offset) as u64 {
                return Err(ErrorKind::MalformedRecord);
            }
            let attr_offset: usize = attr_offset_64 as usize;
            proof {
                assert(input@.subrange(offset as int + attr_offset as int, n as int)
                    =~= tail.skip(attr_offset as int));
            }
            if ty == STANDARD {
                match standard_attr(&input[offset + attr_offset..n]) {
                    Ok(a) => Some(AttributeType::Standard(a)),
                    Err(e) => {
                        return Err(e);
                    },
                }
            } else {
                match filename_attr(&input[offset + attr_offset..n]) {
                    Ok(a) => Some(AttributeType::Filename(a)),
                    Err(e) => {
                        return Err(e);
                    },
                }
            }
        } else if ty == DATA {
            if n - offset < 0x22 {
                return Err(ErrorKind::MalformedRecord);
            }
            proof {
                assert(input@.subrange(offset as int + 0x20, offset as int + 0x22)
                    =~= tail.subrange(0x20, 0x22));
                lemma_le_value_bound(tail.subrange(0x20, 0x22));
            }
            let attr_offset_64 = read_le(input, offset + 0x20, 2);
            if attr_offset_64 > (n - offset) as u64 {
                return Err(ErrorKind::MalformedRecord);
            }
            let attr_offset: usize = attr_offset_64 as usize;
            proof {
                assert(input@.subrange(offset as int + attr_offset as int, n as int)
                    =~= tail.skip(attr_offset as int));
            }
            match data_attr(&input[offset + attr_offset..n]) {
                Ok(runs) => Some(AttributeType::Data(runs)),
                Err(e) => {
                    return Err(e);
                },
            }
        } else {
            None
        };
        let ghost old_out = out@;
        if let Some(payload) = item {
            out.push(Attribute { attr_flags, attr_type: payload });
        }
        proof {
            assert(tail.skip(attr_length as int) =~= input@.skip(
                offset as int + attr_length as int,
            ));
            match parse_attrs(tail.skip(attr_length as int), last_attr) {
                Some(rest) => {
                    if out@.len() > old_out.len() {
                        let pushed = out@[out@.len() - 1];
                        assert(attrs_view(out@) =~= attrs_view(old_out).push(pushed@));
                        assert(attrs_view(old_out) + (seq![pushed@] + rest) =~= attrs_view(out@)
                            + rest);
                    } else {
                        assert(attrs_view(out@) =~= attrs_view(old_out));
                    }
                },
                None => {},
            }
        }
        offset = offset + attr_length;
    }
}

} // verus!
