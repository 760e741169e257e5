//! The GGUF format decoder: a byte buffer is parsed into a header, a sequence
//! of typed key/value metadata entries, and a sequence of tensor descriptor
//! records. The whole format is first written down as a mathematical parser
//! over `Seq<u8>`; the executable decoder is proved to agree with it exactly,
//! on every input.
//!
//! All multi-byte integers are little-endian; strings are 64-bit
//! length-prefixed UTF-8; no padding stands between fields. The decoder never
//! seeks backward and never reads the tensor payload region.

use vstd::prelude::*;
use vstd::slice::{slice_subrange, slice_to_vec};
use vstd::utf8::{decode_utf8, valid_utf8};

use crate::bytes::{
    le_val, lemma_le_val_bound, pow256, read_u16_le, read_u32_le, read_u64_le, read_u8,
};
use crate::ggml::GGMLType;
use crate::GGUF_MAGIC;

verus! {

/// Why a buffer failed to decode. Each variant carries the byte offset of the
/// field where decoding stopped, so a human can locate the malformed region.
#[derive(Debug, Clone, Copy, PartialEq, Eq, Structural)]
pub enum DecodeError {
    /// The first four bytes are not the GGUF magic; `found` is the 32-bit
    /// value that was read instead.
    MagicMismatch { found: u32 },
    /// A metadata value carried a type tag outside the recognized set;
    /// `offset` is where the tag's 32-bit field starts.
    UnknownTypeTag { tag: u32, offset: usize },
    /// A tensor record carried a numeric-encoding tag outside the recognized
    /// set; `offset` is where the tag's 32-bit field starts.
    UnknownEncodingTag { tag: u32, offset: usize },
    /// The buffer ended before a declared field, string or array finished;
    /// `offset` is where the unfinished field starts.
    TruncatedInput { offset: usize },
    /// A string field held bytes that are not valid UTF-8; `offset` is where
    /// the string field (its length prefix) starts.
    InvalidUtf8 { offset: usize },
}

/// The mathematical shape of a decoded metadata value: the closed union of
/// the twelve scalar kinds and the homogeneous array. Floats are carried as
/// their raw little-endian bit patterns.
pub enum ValueModel {
    U8(u8),
    I8(i8),
    U16(u16),
    I16(i16),
    U32(u32),
    I32(i32),
    F32Bits(u32),
    Bool(bool),
    Str(Seq<char>),
    Array(Seq<ValueModel>),
    U64(u64),
    I64(i64),
    F64Bits(u64),
}

/// The fixed header: four little-endian fields in fixed order.
#[derive(Debug, Clone, Copy, PartialEq, Eq, Structural)]
pub struct GGUFHeader {
    pub magic: u32,
    pub version: u32,
    pub tensor_count: u64,
    pub metadata_kv_count: u64,
}

/// The mathematical shape of one decoded metadata entry.
pub struct EntryModel {
    pub key: Seq<char>,
    pub value: ValueModel,
}

/// The mathematical shape of one decoded tensor descriptor.
pub struct TensorModel {
    pub name: Seq<char>,
    pub dimensions: Seq<u64>,
    pub tensor_type: GGMLType,
    pub offset: u64,
}

/// The mathematical shape of a fully decoded buffer.
pub struct FileModel {
    pub header: GGUFHeader,
    pub metadata: Seq<EntryModel>,
    pub tensors: Seq<TensorModel>,
}

/// The value type tags the format recognizes: 0 through 8 and 10 through 12
/// select the scalar kinds, 9 selects an array.
pub open spec fn valid_value_tag(tag: u32) -> bool {
    tag <= 12
}

pub const ARRAY_TAG: u32 = 9;

/// The type tag that selects each kind of value.
pub open spec fn value_tag(m: ValueModel) -> u32 {
    match m {
        ValueModel::U8(_) => 0u32,
        ValueModel::I8(_) => 1u32,
        ValueModel::U16(_) => 2u32,
        ValueModel::I16(_) => 3u32,
        ValueModel::U32(_) => 4u32,
        ValueModel::I32(_) => 5u32,
        ValueModel::F32Bits(_) => 6u32,
        ValueModel::Bool(_) => 7u32,
        ValueModel::Str(_) => 8u32,
        ValueModel::Array(_) => 9u32,
        ValueModel::U64(_) => 10u32,
        ValueModel::I64(_) => 11u32,
        ValueModel::F64Bits(_) => 12u32,
    }
}

/// A value the format can carry: every array is homogeneous (all elements of
/// one kind) and no sequence outgrows its 64-bit count field.
pub open spec fn wf_value(m: ValueModel) -> bool
    decreases m,
{
    match m {
        ValueModel::Array(vs) => vs.len() <= u64::MAX && (forall|i: int|
            0 <= i < vs.len() ==> wf_value(#[trigger] vs[i]) && value_tag(vs[i]) == value_tag(
                vs[0],
            )),
        _ => true,
    }
}

/// Reading a fixed-width little-endian field: the value and the position
/// after it, or where the buffer ran out.
pub open spec fn spec_read_u8(data: Seq<u8>, pos: int) -> Result<(u8, int), DecodeError> {
    if pos + 1 <= data.len() {
        Ok(((le_val(data, pos, 1) as u8), pos + 1))
    } else {
        Err(DecodeError::TruncatedInput { offset: pos as usize })
    }
}

pub open spec fn spec_read_u16(data: Seq<u8>, pos: int) -> Result<(u16, int), DecodeError> {
    if pos + 2 <= data.len() {
        Ok(((le_val(data, pos, 2) as u16), pos + 2))
    } else {
        Err(DecodeError::TruncatedInput { offset: pos as usize })
    }
}

pub open spec fn spec_read_u32(data: Seq<u8>, pos: int) -> Result<(u32, int), DecodeError> {
    if pos + 4 <= data.len() {
        Ok(((le_val(data, pos, 4) as u32), pos + 4))
    } else {
        Err(DecodeError::TruncatedInput { offset: pos as usize })
    }
}

pub open spec fn spec_read_u64(data: Seq<u8>, pos: int) -> Result<(u64, int), DecodeError> {
    if pos + 8 <= data.len() {
        Ok(((le_val(data, pos, 8) as u64), pos + 8))
    } else {
        Err(DecodeError::TruncatedInput { offset: pos as usize })
    }
}

/// Reading a length-prefixed UTF-8 string starting at `pos`: the decoded
/// characters and the position after the content, a truncation error when the
/// buffer ends before the declared length, or a UTF-8 error when the content
/// is not valid UTF-8. Errors carry the offset of the string field itself.
pub open spec fn spec_read_string(data: Seq<u8>, pos: int) -> Result<(Seq<char>, int), DecodeError> {
    match spec_read_u64(data, pos) {
        Err(e) => Err(e),
        Ok((len, p1)) => {
            if p1 + len <= data.len() {
                let content = data.subrange(p1, p1 + len);
                if valid_utf8(content) {
                    Ok((decode_utf8(content), p1 + len))
                } else {
                    Err(DecodeError::InvalidUtf8 { offset: pos as usize })
                }
            } else {
                Err(DecodeError::TruncatedInput { offset: pos as usize })
            }
        },
    }
}

/// A string field whose 64-bit length prefix does not fit in the remaining
/// bytes reports truncation at the field's own offset — for every buffer
/// and every such position, not just a chosen example.
pub proof fn lemma_short_length_field_truncates(data: Seq<u8>, pos: int)
    requires
        0 <= pos <= data.len(),
        data.len() < pos + 8,
    ensures
        spec_read_string(data, pos) == Err::<(Seq<char>, int), DecodeError>(
            DecodeError::TruncatedInput { offset: pos as usize },
        ),
{
}

/// A buffer that announces at least one metadata entry but ends inside the
/// first key's length field fails with `TruncatedInput` at that field's
/// offset. Since `GGUFFile::read` returns exactly what the mathematical
/// parser says, the decoder reports this error — and returns no partial
/// value — on every such buffer.
pub proof fn lemma_truncated_key_length(data: Seq<u8>)
    requires
        24 <= data.len() < 32,
        le_val(data, 0, 4) == GGUF_MAGIC as nat,
        le_val(data, 16, 8) >= 1,
    ensures
        spec_parse_file(data) == Err::<FileModel, DecodeError>(
            DecodeError::TruncatedInput { offset: 24 },
        ),
{
    lemma_le_val_bound(data, 0, 4);
    lemma_le_val_bound(data, 16, 8);
    reveal_with_fuel(pow256, 9);
    lemma_short_length_field_truncates(data, 24);
    assert(le_val(data, 0, 4) as u32 == GGUF_MAGIC);
    let kv = le_val(data, 16, 8) as u64;
    assert(kv >= 1);
    assert(spec_parse_entries(data, 24, kv as nat) == Err::<(Seq<EntryModel>, int), DecodeError>(
        DecodeError::TruncatedInput { offset: 24 },
    ));
}

/// Parsing one value of kind `tag`, starting at `pos` (the tag itself stands
/// before `pos` and has already been read and recognized). An array reads a
/// 32-bit element tag and 64-bit count, then that many values of that kind;
/// nesting is bounded only by the input.
pub open spec fn spec_parse_value(data: Seq<u8>, pos: int, tag: u32) -> Result<
    (ValueModel, int),
    DecodeError,
>
    decreases data.len() - pos, 0int, 0int,
{
    match tag {
        0u32 => match spec_read_u8(data, pos) {
            Ok((v, np)) => Ok((ValueModel::U8(v), np)),
            Err(e) => Err(e),
        },
        1u32 => match spec_read_u8(data, pos) {
            Ok((v, np)) => Ok((ValueModel::I8(v as i8), np)),
            Err(e) => Err(e),
        },
        2u32 => match spec_read_u16(data, pos) {
            Ok((v, np)) => Ok((ValueModel::U16(v), np)),
            Err(e) => Err(e),
        },
        3u32 => match spec_read_u16(data, pos) {
            Ok((v, np)) => Ok((ValueModel::I16(v as i16), np)),
            Err(e) => Err(e),
        },
        4u32 => match spec_read_u32(data, pos) {
            Ok((v, np)) => Ok((ValueModel::U32(v), np)),
            Err(e) => Err(e),
        },
        5u32 => match spec_read_u32(data, pos) {
            Ok((v, np)) => Ok((ValueModel::I32(v as i32), np)),
            Err(e) => Err(e),
        },
        6u32 => match spec_read_u32(data, pos) {
            Ok((v, np)) => Ok((ValueModel::F32Bits(v), np)),
            Err(e) => Err(e),
        },
        7u32 => match spec_read_u8(data, pos) {
            Ok((v, np)) => Ok((ValueModel::Bool(v != 0), np)),
            Err(e) => Err(e),
        },
        8u32 => match spec_read_string(data, pos) {
            Ok((s, np)) => Ok((ValueModel::Str(s), np)),
            Err(e) => Err(e),
        },
        9u32 => match spec_read_u32(data, pos) {
            Err(e) => Err(e),
            Ok((elem_tag, p1)) => match spec_read_u64(data, p1) {
                Err(e) => Err(e),
                Ok((count, p2)) => {
                    if !valid_value_tag(elem_tag) {
                        Err(DecodeError::UnknownTypeTag { tag: elem_tag, offset: pos as usize })
                    } else {
                        match spec_parse_elems(data, p2, elem_tag, count as nat) {
                            Ok((vs, fp)) => Ok((ValueModel::Array(vs), fp)),
                            Err(e) => Err(e),
                        }
                    }
                },
            },
        },
        10u32 => match spec_read_u64(data, pos) {
            Ok((v, np)) => Ok((ValueModel::U64(v), np)),
            Err(e) => Err(e),
        },
        11u32 => match spec_read_u64(data, pos) {
            Ok((v, np)) => Ok((ValueModel::I64(v as i64), np)),
            Err(e) => Err(e),
        },
        12u32 => match spec_read_u64(data, pos) {
            Ok((v, np)) => Ok((ValueModel::F64Bits(v), np)),
            Err(e) => Err(e),
        },
        _ => Err(DecodeError::UnknownTypeTag { tag, offset: pos as usize }),
    }
}

/// Parsing `count` consecutive values of kind `tag` starting at `pos`.
pub open spec fn spec_parse_elems(data: Seq<u8>, pos: int, tag: u32, count: nat) -> Result<
    (Seq<ValueModel>, int),
    DecodeError,
>
    decreases data.len() - pos, 1int, count,
{
    if count == 0 {
        Ok((Seq::empty(), pos))
    } else {
        match spec_parse_value(data, pos, tag) {
            Err(e) => Err(e),
            Ok((v, np)) => {
                if np < pos || np > data.len() {
                    Err(DecodeError::TruncatedInput { offset: pos as usize })
                } else {
                    match spec_parse_elems(data, np, tag, (count - 1) as nat) {
                        Err(e) => Err(e),
                        Ok((rest, fp)) => Ok((seq![v] + rest, fp)),
                    }
                }
            },
        }
    }
}

/// Parsing one metadata entry: a string key, a 32-bit type tag (validated
/// against the recognized set), then a value of that kind.
pub open spec fn spec_parse_entry(data: Seq<u8>, pos: int) -> Result<(EntryModel, int), DecodeError> {
    match spec_read_string(data, pos) {
        Err(e) => Err(e),
        Ok((key, p1)) => match spec_read_u32(data, p1) {
            Err(e) => Err(e),
            Ok((tag, p2)) => {
                if !valid_value_tag(tag) {
                    Err(DecodeError::UnknownTypeTag { tag, offset: p1 as usize })
                } else {
                    match spec_parse_value(data, p2, tag) {
                        Err(e) => Err(e),
                        Ok((value, fp)) => Ok((EntryModel { key, value }, fp)),
                    }
                }
            },
        },
    }
}

/// Parsing exactly `count` metadata entries.
pub open spec fn spec_parse_entries(data: Seq<u8>, pos: int, count: nat) -> Result<
    (Seq<EntryModel>, int),
    DecodeError,
>
    decreases count,
{
    if count == 0 {
        Ok((Seq::empty(), pos))
    } else {
        match spec_parse_entry(data, pos) {
            Err(e) => Err(e),
            Ok((entry, np)) => match spec_parse_entries(data, np, (count - 1) as nat) {
                Err(e) => Err(e),
                Ok((rest, fp)) => Ok((seq![entry] + rest, fp)),
            },
        }
    }
}

/// Parsing `count` consecutive 64-bit dimension extents.
pub open spec fn spec_parse_dims(data: Seq<u8>, pos: int, count: nat) -> Result<
    (Seq<u64>, int),
    DecodeError,
>
    decreases count,
{
    if count == 0 {
        Ok((Seq::empty(), pos))
    } else {
        match spec_read_u64(data, pos) {
            Err(e) => Err(e),
            Ok((d, np)) => match spec_parse_dims(data, np, (count - 1) as nat) {
                Err(e) => Err(e),
                Ok((rest, fp)) => Ok((seq![d] + rest, fp)),
            },
        }
    }
}

/// Parsing one tensor descriptor: name, 32-bit dimension count, that many
/// 64-bit extents, a numeric-encoding tag validated against the catalog, and
/// a 64-bit data offset.
pub open spec fn spec_parse_tensor(data: Seq<u8>, pos: int) -> Result<
    (TensorModel, int),
    DecodeError,
> {
    match spec_read_string(data, pos) {
        Err(e) => Err(e),
        Ok((name, p1)) => match spec_read_u32(data, p1) {
            Err(e) => Err(e),
            Ok((n_dims, p2)) => match spec_parse_dims(data, p2, n_dims as nat) {
                Err(e) => Err(e),
                Ok((dimensions, p3)) => match spec_read_u32(data, p3) {
                    Err(e) => Err(e),
                    Ok((enc_tag, p4)) => match GGMLType::spec_from_u32(enc_tag) {
                        None => Err(
                            DecodeError::UnknownEncodingTag { tag: enc_tag, offset: p3 as usize },
                        ),
                        Some(tensor_type) => match spec_read_u64(data, p4) {
                            Err(e) => Err(e),
                            Ok((offset, fp)) => Ok(
                                (TensorModel { name, dimensions, tensor_type, offset }, fp),
                            ),
                        },
                    },
                },
            },
        },
    }
}

/// Parsing exactly `count` tensor descriptors.
pub open spec fn spec_parse_tensors(data: Seq<u8>, pos: int, count: nat) -> Result<
    (Seq<TensorModel>, int),
    DecodeError,
>
    decreases count,
{
    if count == 0 {
        Ok((Seq::empty(), pos))
    } else {
        match spec_parse_tensor(data, pos) {
            Err(e) => Err(e),
            Ok((t, np)) => match spec_parse_tensors(data, np, (count - 1) as nat) {
                Err(e) => Err(e),
                Ok((rest, fp)) => Ok((seq![t] + rest, fp)),
            },
        }
    }
}

/// The whole format: header (magic validated immediately after its own four
/// bytes are read, before anything else), then exactly `metadata_kv_count`
/// entries, then exactly `tensor_count` tensor descriptors. Bytes after the
/// last tensor record (the payload region) are not read.
pub open spec fn spec_parse_file(data: Seq<u8>) -> Result<FileModel, DecodeError> {
    match spec_read_u32(data, 0) {
        Err(e) => Err(e),
        Ok((magic, p1)) => {
            if magic != GGUF_MAGIC {
                Err(DecodeError::MagicMismatch { found: magic })
            } else {
                match spec_read_u32(data, p1) {
                    Err(e) => Err(e),
                    Ok((version, p2)) => match spec_read_u64(data, p2) {
                        Err(e) => Err(e),
                        Ok((tensor_count, p3)) => match spec_read_u64(data, p3) {
                            Err(e) => Err(e),
                            Ok((metadata_kv_count, p4)) => match spec_parse_entries(
                                data,
                                p4,
                                metadata_kv_count as nat,
                            ) {
                                Err(e) => Err(e),
                                Ok((metadata, p5)) => match spec_parse_tensors(
                                    data,
                                    p5,
                                    tensor_count as nat,
                                ) {
                                    Err(e) => Err(e),
                                    Ok((tensors, _)) => Ok(
                                        FileModel {
                                            header: GGUFHeader {
                                                magic,
                                                version,
                                                tensor_count,
                                                metadata_kv_count,
                                            },
                                            metadata,
                                            tensors,
                                        },
                                    ),
                                },
                            },
                        },
                    },
                }
            }
        },
    }
}

/// A decoded metadata value. Floats are carried as their raw little-endian
/// bit patterns, so that every field of the union is a plain value.
#[derive(Debug, PartialEq)]
pub enum GGUFValue {
    U8(u8),
    I8(i8),
    U16(u16),
    I16(i16),
    U32(u32),
    I32(i32),
    F32Bits(u32),
    Bool(bool),
    Str(String),
    Array(Vec<GGUFValue>),
    U64(u64),
    I64(i64),
    F64Bits(u64),
}

/// The models of a sequence of decoded values, element by element.
pub open spec fn value_views(s: Seq<GGUFValue>) -> Seq<ValueModel>
    decreases s,
{
    if s.len() == 0 {
        Seq::empty()
    } else {
        value_views(s.drop_last()).push(s.last()@)
    }
}

pub proof fn lemma_value_views(s: Seq<GGUFValue>)
    ensures
        value_views(s).len() == s.len(),
        forall|i: int| 0 <= i < s.len() ==> value_views(s)[i] == (#[trigger] s[i])@,
    decreases s.len(),
{
    if s.len() > 0 {
        lemma_value_views(s.drop_last());
        assert(value_views(s) == value_views(s.drop_last()).push(s.last()@));
        assert forall|i: int| 0 <= i < s.len() implies value_views(s)[i] == (#[trigger] s[i])@ by {
            if i < s.len() - 1 {
                assert(value_views(s)[i] == value_views(s.drop_last())[i]);
                assert(s.drop_last()[i] == s[i]);
            } else {
                assert(value_views(s)[i] == s.last()@);
            }
        }
    }
}

pub proof fn lemma_value_views_push(s: Seq<GGUFValue>, v: GGUFValue)
    ensures
        value_views(s.push(v)) == value_views(s).push(v@),
{
    assert(s.push(v).drop_last() =~= s);
    assert(s.push(v).last() == v);
    assert(s.push(v).len() == s.len() + 1);
}

impl View for GGUFValue {
    type V = ValueModel;

    open spec fn view(&self) -> ValueModel
        decreases self,
    {
        match self {
            GGUFValue::U8(x) => ValueModel::U8(*x),
            GGUFValue::I8(x) => ValueModel::I8(*x),
            GGUFValue::U16(x) => ValueModel::U16(*x),
            GGUFValue::I16(x) => ValueModel::I16(*x),
            GGUFValue::U32(x) => ValueModel::U32(*x),
            GGUFValue::I32(x) => ValueModel::I32(*x),
            GGUFValue::F32Bits(x) => ValueModel::F32Bits(*x),
            GGUFValue::Bool(x) => ValueModel::Bool(*x),
            GGUFValue::Str(s) => ValueModel::Str(s@),
            GGUFValue::Array(elems) => ValueModel::Array(value_views(elems@)),
            GGUFValue::U64(x) => ValueModel::U64(*x),
            GGUFValue::I64(x) => ValueModel::I64(*x),
            GGUFValue::F64Bits(x) => ValueModel::F64Bits(*x),
        }
    }
}

/// One decoded metadata entry. Key uniqueness is not enforced by the decoder;
/// entries stand in the order they were read.
#[derive(Debug, PartialEq)]
pub struct GGUFMetadataEntry {
    pub key: String,
    pub value: GGUFValue,
}

impl View for GGUFMetadataEntry {
    type V = EntryModel;

    open spec fn view(&self) -> EntryModel {
        EntryModel { key: self.key@, value: self.value@ }
    }
}

pub open spec fn entry_views(s: Seq<GGUFMetadataEntry>) -> Seq<EntryModel> {
    Seq::new(s.len(), |i: int| s[i]@)
}

/// One decoded tensor descriptor: dimension extents stand outer-to-inner, the
/// data offset points into the (unread) payload region.
#[derive(Debug, Clone, PartialEq)]
pub struct GGUFTensorInfo {
    pub name: String,
    pub dimensions: Vec<u64>,
    pub tensor_type: GGMLType,
    pub offset: u64,
}

impl View for GGUFTensorInfo {
    type V = TensorModel;

    open spec fn view(&self) -> TensorModel {
        TensorModel {
            name: self.name@,
            dimensions: self.dimensions@,
            tensor_type: self.tensor_type,
            offset: self.offset,
        }
    }
}

pub open spec fn tensor_views(s: Seq<GGUFTensorInfo>) -> Seq<TensorModel> {
    Seq::new(s.len(), |i: int| s[i]@)
}

/// A fully decoded buffer: header, metadata entries in read order, tensor
/// descriptors in read order.
#[derive(Debug)]
pub struct GGUFFile {
    pub header: GGUFHeader,
    pub metadata: Vec<GGUFMetadataEntry>,
    pub tensors: Vec<GGUFTensorInfo>,
}

impl View for GGUFFile {
    type V = FileModel;

    open spec fn view(&self) -> FileModel {
        FileModel {
            header: self.header,
            metadata: entry_views(self.metadata@),
            tensors: tensor_views(self.tensors@),
        }
    }
}

/// Relies on `String::from_utf8`: it returns `Ok` exactly on valid UTF-8
/// input, and the returned string holds that input's decoding.
#[verifier::external_body]
fn string_from_utf8(bytes: Vec<u8>) -> (r: Option<String>)
    ensures
        r is Some <==> valid_utf8(bytes@),
        r matches Some(s) ==> s@ == decode_utf8(bytes@),
{
    String::from_utf8(bytes).ok()
}

fn take_u8(data: &[u8], pos: usize) -> (r: Result<(u8, usize), DecodeError>)
    requires
        pos <= data@.len(),
    ensures
        match r {
            Ok((v, np)) => spec_read_u8(data@, pos as int) == Ok::<_, DecodeError>((v, np as int))
                && pos < np <= data@.len(),
            Err(e) => spec_read_u8(data@, pos as int) == Err::<(u8, int), _>(e),
        },
{
    if data.len() - pos < 1 {
        Err(DecodeError::TruncatedInput { offset: pos })
    } else {
        proof {
            lemma_le_val_bound(data@, pos as int, 1);
            reveal_with_fuel(pow256, 2);
        }
        Ok((read_u8(data, pos), pos + 1))
    }
}

fn take_u16(data: &[u8], pos: usize) -> (r: Result<(u16, usize), DecodeError>)
    requires
        pos <= data@.len(),
    ensures
        match r {
            Ok((v, np)) => spec_read_u16(data@, pos as int) == Ok::<_, DecodeError>((v, np as int))
                && pos < np <= data@.len(),
            Err(e) => spec_read_u16(data@, pos as int) == Err::<(u16, int), _>(e),
        },
{
    if data.len() - pos < 2 {
        Err(DecodeError::TruncatedInput { offset: pos })
    } else {
        proof {
            lemma_le_val_bound(data@, pos as int, 2);
            reveal_with_fuel(pow256, 3);
        }
        Ok((read_u16_le(data, pos), pos + 2))
    }
}

fn take_u32(data: &[u8], pos: usize) -> (r: Result<(u32, usize), DecodeError>)
    requires
        pos <= data@.len(),
    ensures
        match r {
            Ok((v, np)) => spec_read_u32(data@, pos as int) == Ok::<_, DecodeError>((v, np as int))
                && pos < np <= data@.len(),
            Err(e) => spec_read_u32(data@, pos as int) == Err::<(u32, int), _>(e),
        },
{
    if data.len() - pos < 4 {
        Err(DecodeError::TruncatedInput { offset: pos })
    } else {
        proof {
            lemma_le_val_bound(data@, pos as int, 4);
            reveal_with_fuel(pow256, 5);
        }
        Ok((read_u32_le(data, pos), pos + 4))
    }
}

fn take_u64(data: &[u8], pos: usize) -> (r: Result<(u64, usize), DecodeError>)
    requires
        pos <= data@.len(),
    ensures
        match r {
            Ok((v, np)) => spec_read_u64(data@, pos as int) == Ok::<_, DecodeError>((v, np as int))
                && pos < np <= data@.len(),
            Err(e) => spec_read_u64(data@, pos as int) == Err::<(u64, int), _>(e),
        },
{
    if data.len() - pos < 8 {
        Err(DecodeError::TruncatedInput { offset: pos })
    } else {
        proof {
            lemma_le_val_bound(data@, pos as int, 8);
            reveal_with_fuel(pow256, 9);
        }
        Ok((read_u64_le(data, pos), pos + 8))
    }
}

fn take_string(data: &[u8], pos: usize) -> (r: Result<(String, usize), DecodeError>)
    requires
        pos <= data@.len(),
    ensures
        match r {
            Ok((s, np)) => spec_read_string(data@, pos as int) == Ok::<_, DecodeError>(
                (s@, np as int),
            ) && pos < np <= data@.len(),
            Err(e) => spec_read_string(data@, pos as int) == Err::<(Seq<char>, int), _>(e),
        },
{
    let (len, p1) = match take_u64(data, pos) {
        Ok(x) => x,
        Err(e) => {
            return Err(e);
        },
    };
    let remaining = data.len() - p1;
    if len > remaining as u64 {
        return Err(DecodeError::TruncatedInput { offset: pos });
    }
    let content_len: usize = len as usize;
    let content = slice_subrange(data, p1, p1 + content_len);
    let content_vec = slice_to_vec(content);
    match string_from_utf8(content_vec) {
        Some(s) => Ok((s, p1 + content_len)),
        None => Err(DecodeError::InvalidUtf8 { offset: pos }),
    }
}

/// Reads one value of kind `tag` starting at `pos`, exactly as the
/// mathematical parser describes it.
fn read_value(data: &[u8], pos: usize, tag: u32) -> (r: Result<(GGUFValue, usize), DecodeError>)
    requires
        pos <= data@.len(),
    ensures
        match r {
            Ok((v, np)) => spec_parse_value(data@, pos as int, tag) == Ok::<_, DecodeError>(
                (v@, np as int),
            ) && pos < np <= data@.len(),
            Err(e) => spec_parse_value(data@, pos as int, tag) == Err::<(ValueModel, int), _>(e),
        },
    decreases data@.len() - pos,
{
    match tag {
        0 => match take_u8(data, pos) {
            Ok((v, np)) => Ok((GGUFValue::U8(v), np)),
            Err(e) => Err(e),
        },
        1 => match take_u8(data, pos) {
            Ok((v, np)) => Ok((GGUFValue::I8(#[verifier::truncate] (v as i8)), np)),
            Err(e) => Err(e),
        },
        2 => match take_u16(data, pos) {
            Ok((v, np)) => Ok((GGUFValue::U16(v), np)),
            Err(e) => Err(e),
        },
        3 => match take_u16(data, pos) {
            Ok((v, np)) => Ok((GGUFValue::I16(#[verifier::truncate] (v as i16)), np)),
            Err(e) => Err(e),
        },
        4 => match take_u32(data, pos) {
            Ok((v, np)) => Ok((GGUFValue::U32(v), np)),
            Err(e) => Err(e),
        },
        5 => match take_u32(data, pos) {
            Ok((v, np)) => Ok((GGUFValue::I32(#[verifier::truncate] (v as i32)), np)),
            Err(e) => Err(e),
        },
        6 => match take_u32(data, pos) {
            Ok((v, np)) => Ok((GGUFValue::F32Bits(v), np)),
            Err(e) => Err(e),
        },
        7 => match take_u8(data, pos) {
            Ok((v, np)) => Ok((GGUFValue::Bool(v != 0), np)),
            Err(e) => Err(e),
        },
        8 => match take_string(data, pos) {
            Ok((s, np)) => Ok((GGUFValue::Str(s), np)),
            Err(e) => Err(e),
        },
        9 => read_array(data, pos),
        10 => match take_u64(data, pos) {
            Ok((v, np)) => Ok((GGUFValue::U64(v), np)),
            Err(e) => Err(e),
        },
        11 => match take_u64(data, pos) {
            Ok((v, np)) => Ok((GGUFValue::I64(#[verifier::truncate] (v as i64)), np)),
            Err(e) => Err(e),
        },
        12 => match take_u64(data, pos) {
            Ok((v, np)) => Ok((GGUFValue::F64Bits(v), np)),
            Err(e) => Err(e),
        },
        _ => Err(DecodeError::UnknownTypeTag { tag, offset: pos }),
    }
}

/// Reads an array value: element tag, element count, then that many values
/// of that kind.
#[verifier::loop_isolation(false)]
fn read_array(data: &[u8], pos: usize) -> (r: Result<(GGUFValue, usize), DecodeError>)
    requires
        pos <= data@.len(),
    ensures
        match r {
            Ok((v, np)) => spec_parse_value(data@, pos as int, ARRAY_TAG) == Ok::<_, DecodeError>(
                (v@, np as int),
            ) && pos < np <= data@.len(),
            Err(e) => spec_parse_value(data@, pos as int, ARRAY_TAG) == Err::<(ValueModel, int), _>(
                e,
            ),
        },
    decreases data@.len() - pos, 1int,
{
    let (elem_tag, p1) = match take_u32(data, pos) {
        Ok(x) => x,
        Err(e) => {
            return Err(e);
        },
    };
    let (count, p2) = match take_u64(data, p1) {
        Ok(x) => x,
        Err(e) => {
            return Err(e);
        },
    };
    if elem_tag > 12 {
        return Err(DecodeError::UnknownTypeTag { tag: elem_tag, offset: pos });
    }
    let ghost g_count: nat = count as nat;
    let mut elems: Vec<GGUFValue> = Vec::new();
    let mut cur: usize = p2;
    let mut i: u64 = 0;
    while i < count
        invariant
            i <= count,
            pos < p2 <= cur <= data@.len(),
            valid_value_tag(elem_tag),
            elems@.len() == i as nat,
            match spec_parse_elems(data@, cur as int, elem_tag, (count - i) as nat) {
                Ok((rest, fp)) => spec_parse_elems(data@, p2 as int, elem_tag, g_count)
                    == Ok::<_, DecodeError>((value_views(elems@) + rest, fp)),
                Err(e) => spec_parse_elems(data@, p2 as int, elem_tag, g_count) == Err::<
                    (Seq<ValueModel>, int),
                    _,
                >(e),
            },
            g_count == count as nat,
        decreases count - i,
    {
        match read_value(data, cur, elem_tag) {
            Err(e) => {
                proof {
                    assert(spec_parse_elems(data@, cur as int, elem_tag, (count - i) as nat)
                        == Err::<(Seq<ValueModel>, int), DecodeError>(e));
                }
                return Err(e);
            },
            Ok((v, np)) => {
                proof {
                    lemma_value_views_push(elems@, v);
                    let rest_r = spec_parse_elems(data@, np as int, elem_tag, (count - i
                        - 1) as nat);
                    match rest_r {
                        Ok((rest2, fp2)) => {
                            assert(spec_parse_elems(data@, cur as int, elem_tag, (count
                                - i) as nat) == Ok::<_, DecodeError>((seq![v@] + rest2, fp2)));
                            assert(value_views(elems@.push(v)) + rest2 =~= value_views(elems@) + (
                            seq![v@] + rest2));
                        },
                        Err(e2) => {
                            assert(spec_parse_elems(data@, cur as int, elem_tag, (count
                                - i) as nat) == Err::<(Seq<ValueModel>, int), DecodeError>(e2));
                        },
                    }
                }
                elems.push(v);
                cur = np;
                i = i + 1;
            },
        }
    }
    proof {
        assert(spec_parse_elems(data@, cur as int, elem_tag, 0) == Ok::<_, DecodeError>((
        Seq::<ValueModel>::empty(), cur as int)));
        assert(value_views(elems@) + Seq::<ValueModel>::empty() =~= value_views(elems@));
    }
    Ok((GGUFValue::Array(elems), cur))
}

/// Reads one metadata entry: key, type tag (validated), value.
fn take_entry(data: &[u8], pos: usize) -> (r: Result<(GGUFMetadataEntry, usize), DecodeError>)
    requires
        pos <= data@.len(),
    ensures
        match r {
            Ok((entry, np)) => spec_parse_entry(data@, pos as int) == Ok::<_, DecodeError>(
                (entry@, np as int),
            ) && pos < np <= data@.len(),
            Err(e) => spec_parse_entry(data@, pos as int) == Err::<(EntryModel, int), _>(e),
        },
{
    let (key, p1) = match take_string(data, pos) {
        Ok(x) => x,
        Err(e) => {
            return Err(e);
        },
    };
    let (tag, p2) = match take_u32(data, p1) {
        Ok(x) => x,
        Err(e) => {
            return Err(e);
        },
    };
    if tag > 12 {
        return Err(DecodeError::UnknownTypeTag { tag, offset: p1 });
    }
    match read_value(data, p2, tag) {
        Ok((value, fp)) => Ok((GGUFMetadataEntry { key, value }, fp)),
        Err(e) => Err(e),
    }
}

/// Reads one tensor descriptor: name, dimension count, extents, encoding tag
/// (validated against the catalog), data offset.
#[verifier::loop_isolation(false)]
fn take_tensor(data: &[u8], pos: usize) -> (r: Result<(GGUFTensorInfo, usize), DecodeError>)
    requires
        pos <= data@.len(),
    ensures
        match r {
            Ok((t, np)) => spec_parse_tensor(data@, pos as int) == Ok::<_, DecodeError>(
                (t@, np as int),
            ) && pos < np <= data@.len(),
            Err(e) => spec_parse_tensor(data@, pos as int) == Err::<(TensorModel, int), _>(e),
        },
{
    let (name, p1) = match take_string(data, pos) {
        Ok(x) => x,
        Err(e) => {
            return Err(e);
        },
    };
    let (n_dims, p2) = match take_u32(data, p1) {
        Ok(x) => x,
        Err(e) => {
            return Err(e);
        },
    };
    let ghost g_dims: nat = n_dims as nat;
    let mut dimensions: Vec<u64> = Vec::new();
    let mut cur: usize = p2;
    let mut i: u32 = 0;
    while i < n_dims
        invariant
            i <= n_dims,
            p2 <= cur <= data@.len(),
            dimensions@.len() == i as nat,
            match spec_parse_dims(data@, cur as int, (n_dims - i) as nat) {
                Ok((rest, fp)) => spec_parse_dims(data@, p2 as int, g_dims) == Ok::<_, DecodeError>(
                    (dimensions@ + rest, fp),
                ),
                Err(e) => spec_parse_dims(data@, p2 as int, g_dims) == Err::<(Seq<u64>, int), _>(e),
            },
            g_dims == n_dims as nat,
        decreases n_dims - i,
    {
        match take_u64(data, cur) {
            Err(e) => {
                return Err(e);
            },
            Ok((d, np)) => {
                proof {
                    let rest_r = spec_parse_dims(data@, np as int, (n_dims - i - 1) as nat);
                    match rest_r {
                        Ok((rest2, fp2)) => {
                            assert(dimensions@.push(d) + rest2 =~= dimensions@ + (seq![d] + rest2));
                        },
                        Err(_) => {},
                    }
                }
                dimensions.push(d);
                cur = np;
                i = i + 1;
            },
        }
    }
    proof {
        assert(dimensions@ + Seq::<u64>::empty() =~= dimensions@);
    }
    let (enc_tag, p3) = match take_u32(data, cur) {
        Ok(x) => x,
        Err(e) => {
            return Err(e);
        },
    };
    let tensor_type = match GGMLType::from_u32(enc_tag) {
        Some(t) => t,
        None => {
            return Err(DecodeError::UnknownEncodingTag { tag: enc_tag, offset: cur });
        },
    };
    match take_u64(data, p3) {
        Ok((offset, fp)) => Ok((GGUFTensorInfo { name, dimensions, tensor_type, offset }, fp)),
        Err(e) => Err(e),
    }
}

impl GGUFFile {
    /// Decodes a whole buffer. The result agrees exactly with the
    /// mathematical parser: the same structured values on the same inputs,
    /// the same error on the same malformed inputs. In particular, any
    /// buffer of at least four bytes whose first four bytes are not the
    /// magic fails with `MagicMismatch`, whatever follows them.
    #[verifier::loop_isolation(false)]
    pub fn read(data: &[u8]) -> (r: Result<GGUFFile, DecodeError>)
        ensures
            match r {
                Ok(f) => spec_parse_file(data@) == Ok::<FileModel, DecodeError>(f@),
                Err(e) => spec_parse_file(data@) == Err::<FileModel, DecodeError>(e),
            },
            data@.len() >= 4 && le_val(data@, 0, 4) != GGUF_MAGIC as nat ==> r == Err::<
                GGUFFile,
                DecodeError,
            >(DecodeError::MagicMismatch { found: le_val(data@, 0, 4) as u32 }),
    {
        proof {
            lemma_le_val_bound(data@, 0, 4);
            reveal_with_fuel(pow256, 5);
        }
        let (magic, p1) = match take_u32(data, 0) {
            Ok(x) => x,
            Err(e) => {
                return Err(e);
            },
        };
        if magic != GGUF_MAGIC {
            return Err(DecodeError::MagicMismatch { found: magic });
        }
        let (version, p2) = match take_u32(data, p1) {
            Ok(x) => x,
            Err(e) => {
                return Err(e);
            },
        };
        let (tensor_count, p3) = match take_u64(data, p2) {
            Ok(x) => x,
            Err(e) => {
                return Err(e);
            },
        };
        let (metadata_kv_count, p4) = match take_u64(data, p3) {
            Ok(x) => x,
            Err(e) => {
                return Err(e);
            },
        };
        let ghost g_kv: nat = metadata_kv_count as nat;
        let mut metadata: Vec<GGUFMetadataEntry> = Vec::new();
        let mut cur: usize = p4;
        let mut i: u64 = 0;
        while i < metadata_kv_count
            invariant
                i <= metadata_kv_count,
                p4 <= cur <= data@.len(),
                metadata@.len() == i as nat,
                match spec_parse_entries(data@, cur as int, (metadata_kv_count - i) as nat) {
                    Ok((rest, fp)) => spec_parse_entries(data@, p4 as int, g_kv) == Ok::<
                        _,
                        DecodeError,
                    >((entry_views(metadata@) + rest, fp)),
                    Err(e) => spec_parse_entries(data@, p4 as int, g_kv) == Err::<
                        (Seq<EntryModel>, int),
                        _,
                    >(e),
                },
                g_kv == metadata_kv_count as nat,
            decreases metadata_kv_count - i,
        {
            match take_entry(data, cur) {
                Err(e) => {
                    return Err(e);
                },
                Ok((entry, np)) => {
                    proof {
                        let rest_r = spec_parse_entries(data@, np as int, (metadata_kv_count - i
                            - 1) as nat);
                        match rest_r {
                            Ok((rest2, fp2)) => {
                                assert(entry_views(metadata@.push(entry)) =~= entry_views(
                                    metadata@,
                                ).push(entry@));
                                assert(entry_views(metadata@.push(entry)) + rest2 =~= entry_views(
                                    metadata@,
                                ) + (seq![entry@] + rest2));
                            },
                            Err(_) => {},
                        }
                    }
                    metadata.push(entry);
                    cur = np;
                    i = i + 1;
                },
            }
        }
        proof {
            assert(entry_views(metadata@) + Seq::<EntryModel>::empty() =~= entry_views(metadata@));
        }
        let ghost g_tc: nat = tensor_count as nat;
        let ghost p5: usize = cur;
        let mut tensors: Vec<GGUFTensorInfo> = Vec::new();
        let mut j: u64 = 0;
        while j < tensor_count
            invariant
                j <= tensor_count,
                p5 <= cur <= data@.len(),
                tensors@.len() == j as nat,
                match spec_parse_tensors(data@, cur as int, (tensor_count - j) as nat) {
                    Ok((rest, fp)) => spec_parse_tensors(data@, p5 as int, g_tc) == Ok::<
                        _,
                        DecodeError,
                    >((tensor_views(tensors@) + rest, fp)),
                    Err(e) => spec_parse_tensors(data@, p5 as int, g_tc) == Err::<
                        (Seq<TensorModel>, int),
                        _,
                    >(e),
                },
                g_tc == tensor_count as nat,
            decreases tensor_count - j,
        {
            match take_tensor(data, cur) {
                Err(e) => {
                    return Err(e);
                },
                Ok((t, np)) => {
                    proof {
                        let rest_r = spec_parse_tensors(data@, np as int, (tensor_count - j
                            - 1) as nat);
                        match rest_r {
                            Ok((rest2, fp2)) => {
                                assert(tensor_views(tensors@.push(t)) =~= tensor_views(
                                    tensors@,
                                ).push(t@));
                                assert(tensor_views(tensors@.push(t)) + rest2 =~= tensor_views(
                                    tensors@,
                                ) + (seq![t@] + rest2));
                            },
                            Err(_) => {},
                        }
                    }
                    tensors.push(t);
                    cur = np;
                    j = j + 1;
                },
            }
        }
        proof {
            assert(tensor_views(tensors@) + Seq::<TensorModel>::empty() =~= tensor_views(tensors@));
        }
        Ok(
            GGUFFile {
                header: GGUFHeader { magic, version, tensor_count, metadata_kv_count },
                metadata,
                tensors,
            },
        )
    }
}

} // verus!
