//! The GGUF encoder, and the round trip: any header + metadata + tensor
//! record set written out by `encode_file` decodes back to exactly the same
//! structured values. The encoders carry that statement in their contracts,
//! proved against the same mathematical parser the decoder is proved against.

use vstd::prelude::*;
use vstd::string::StrSliceExecFns;
use vstd::utf8::{
    decode_utf8, encode_utf8, encode_utf8_decode_utf8, encode_utf8_valid_utf8, valid_utf8,
};

use crate::bytes::{le_val, lemma_le_val_agrees, push_u16_le, push_u32_le, push_u64_le, push_u8};
use crate::gguf::{
    entry_views, lemma_value_views, lemma_value_views_push, spec_parse_dims, spec_parse_elems,
    spec_parse_entries, spec_parse_entry, spec_parse_file, spec_parse_tensor, spec_parse_tensors,
    spec_parse_value, spec_read_string, spec_read_u32, spec_read_u64, tensor_views,
    valid_value_tag, value_tag, value_views, wf_value, DecodeError, EntryModel,
    FileModel, GGUFHeader, GGUFMetadataEntry, GGUFTensorInfo, GGUFValue, TensorModel, ValueModel,
};
use crate::GGUF_MAGIC;

verus! {

/// A successfully parsed value ends strictly after it starts and within the
/// buffer.
pub proof fn lemma_parse_value_bounds(data: Seq<u8>, pos: int, tag: u32)
    requires
        0 <= pos <= data.len(),
    ensures
        spec_parse_value(data, pos, tag) matches Ok(p) ==> pos < p.1 <= data.len(),
    decreases data.len() - pos, 0int, 0int,
{
    if tag == 9 {
        match spec_read_u32(data, pos) {
            Err(_) => {},
            Ok((elem_tag, p1)) => match spec_read_u64(data, p1) {
                Err(_) => {},
                Ok((count, p2)) => {
                    if valid_value_tag(elem_tag) {
                        lemma_parse_elems_bounds(data, p2, elem_tag, count as nat);
                    }
                },
            },
        }
    }
}

/// A successfully parsed run of elements ends at or after its start and
/// within the buffer.
pub proof fn lemma_parse_elems_bounds(data: Seq<u8>, pos: int, tag: u32, count: nat)
    requires
        0 <= pos <= data.len(),
    ensures
        spec_parse_elems(data, pos, tag, count) matches Ok(p) ==> pos <= p.1 <= data.len(),
    decreases data.len() - pos, 1int, count,
{
    if count > 0 {
        match spec_parse_value(data, pos, tag) {
            Err(_) => {},
            Ok((_, np)) => {
                lemma_parse_value_bounds(data, pos, tag);
                if pos < np <= data.len() {
                    lemma_parse_elems_bounds(data, np, tag, (count - 1) as nat);
                }
            },
        }
    }
}

/// A successfully parsed string field ends strictly after it starts and
/// within the buffer.
pub proof fn lemma_read_string_bounds(data: Seq<u8>, pos: int)
    requires
        0 <= pos <= data.len(),
    ensures
        spec_read_string(data, pos) matches Ok(p) ==> pos < p.1 <= data.len(),
{
}

/// A successfully parsed metadata entry ends strictly after it starts and
/// within the buffer.
pub proof fn lemma_parse_entry_bounds(data: Seq<u8>, pos: int)
    requires
        0 <= pos <= data.len(),
    ensures
        spec_parse_entry(data, pos) matches Ok(p) ==> pos < p.1 <= data.len(),
{
    match spec_read_string(data, pos) {
        Err(_) => {},
        Ok((_, p1)) => match spec_read_u32(data, p1) {
            Err(_) => {},
            Ok((tag, p2)) => {
                if valid_value_tag(tag) {
                    lemma_parse_value_bounds(data, p2, tag);
                }
            },
        },
    }
}

/// A successfully parsed run of entries ends at or after its start and
/// within the buffer.
pub proof fn lemma_parse_entries_bounds(data: Seq<u8>, pos: int, count: nat)
    requires
        0 <= pos <= data.len(),
    ensures
        spec_parse_entries(data, pos, count) matches Ok(p) ==> pos <= p.1 <= data.len(),
    decreases count,
{
    if count > 0 {
        match spec_parse_entry(data, pos) {
            Err(_) => {},
            Ok((_, np)) => {
                lemma_parse_entry_bounds(data, pos);
                lemma_parse_entries_bounds(data, np, (count - 1) as nat);
            },
        }
    }
}

/// A successfully parsed run of dimension extents ends at or after its start
/// and within the buffer.
pub proof fn lemma_parse_dims_bounds(data: Seq<u8>, pos: int, count: nat)
    requires
        0 <= pos <= data.len(),
    ensures
        spec_parse_dims(data, pos, count) matches Ok(p) ==> pos <= p.1 <= data.len(),
    decreases count,
{
    if count > 0 {
        match spec_read_u64(data, pos) {
            Err(_) => {},
            Ok((_, np)) => {
                lemma_parse_dims_bounds(data, np, (count - 1) as nat);
            },
        }
    }
}

/// A successfully parsed tensor record ends strictly after it starts and
/// within the buffer.
pub proof fn lemma_parse_tensor_bounds(data: Seq<u8>, pos: int)
    requires
        0 <= pos <= data.len(),
    ensures
        spec_parse_tensor(data, pos) matches Ok(p) ==> pos < p.1 <= data.len(),
{
    match spec_read_string(data, pos) {
        Err(_) => {},
        Ok((_, p1)) => match spec_read_u32(data, p1) {
            Err(_) => {},
            Ok((n_dims, p2)) => {
                lemma_parse_dims_bounds(data, p2, n_dims as nat);
            },
        },
    }
}

/// A successfully parsed run of tensor records ends at or after its start
/// and within the buffer.
pub proof fn lemma_parse_tensors_bounds(data: Seq<u8>, pos: int, count: nat)
    requires
        0 <= pos <= data.len(),
    ensures
        spec_parse_tensors(data, pos, count) matches Ok(p) ==> pos <= p.1 <= data.len(),
    decreases count,
{
    if count > 0 {
        match spec_parse_tensor(data, pos) {
            Err(_) => {},
            Ok((_, np)) => {
                lemma_parse_tensor_bounds(data, pos);
                lemma_parse_tensors_bounds(data, np, (count - 1) as nat);
            },
        }
    }
}

/// What a string field parses to depends only on the bytes it covers: the
/// parse carries over to any buffer that holds the same bytes there.
pub proof fn lemma_read_string_frame(d1: Seq<u8>, d2: Seq<u8>, pos: int, s: Seq<char>, np: int)
    requires
        0 <= pos <= d1.len(),
        spec_read_string(d1, pos) == Ok::<(Seq<char>, int), DecodeError>((s, np)),
        np <= d2.len(),
        forall|k: int| pos <= k < np ==> #[trigger] d2[k] == d1[k],
    ensures
        spec_read_string(d2, pos) == Ok::<(Seq<char>, int), DecodeError>((s, np)),
{
    assert forall|k2: int| 0 <= k2 < 8 implies #[trigger] d1[pos + k2] == d2[pos + k2] by {
        assert(d2[pos + k2] == d1[pos + k2]);
    }
    lemma_le_val_agrees(d1, d2, pos, pos, 8);
    let p1 = pos + 8;
    let len = le_val(d1, pos, 8) as u64;
    assert(d2.subrange(p1, p1 + len) =~= d1.subrange(p1, p1 + len)) by {
        assert forall|j: int| 0 <= j < len implies #[trigger] d2.subrange(p1, p1 + len)[j] == d1.subrange(
            p1,
            p1 + len,
        )[j] by {
            assert(d2[p1 + j] == d1[p1 + j]);
        }
    }
}

/// What a value parses to depends only on the bytes it covers.
pub proof fn lemma_parse_value_frame(
    d1: Seq<u8>,
    d2: Seq<u8>,
    pos: int,
    tag: u32,
    v: ValueModel,
    np: int,
)
    requires
        0 <= pos <= d1.len(),
        spec_parse_value(d1, pos, tag) == Ok::<(ValueModel, int), DecodeError>((v, np)),
        np <= d2.len(),
        forall|k: int| pos <= k < np ==> #[trigger] d2[k] == d1[k],
    ensures
        spec_parse_value(d2, pos, tag) == Ok::<(ValueModel, int), DecodeError>((v, np)),
    decreases d1.len() - pos, 0int, 0int,
{
    lemma_parse_value_bounds(d1, pos, tag);
    if tag == 0 || tag == 1 || tag == 7 {
        assert(d2[pos + 0] == d1[pos + 0]);
        lemma_le_val_agrees(d1, d2, pos, pos, 1);
    } else if tag == 2 || tag == 3 {
        assert forall|k2: int| 0 <= k2 < 2 implies #[trigger] d1[pos + k2] == d2[pos + k2] by {
            assert(d2[pos + k2] == d1[pos + k2]);
        }
        lemma_le_val_agrees(d1, d2, pos, pos, 2);
    } else if tag == 4 || tag == 5 || tag == 6 {
        assert forall|k2: int| 0 <= k2 < 4 implies #[trigger] d1[pos + k2] == d2[pos + k2] by {
            assert(d2[pos + k2] == d1[pos + k2]);
        }
        lemma_le_val_agrees(d1, d2, pos, pos, 4);
    } else if tag == 10 || tag == 11 || tag == 12 {
        assert forall|k2: int| 0 <= k2 < 8 implies #[trigger] d1[pos + k2] == d2[pos + k2] by {
            assert(d2[pos + k2] == d1[pos + k2]);
        }
        lemma_le_val_agrees(d1, d2, pos, pos, 8);
    } else if tag == 8 {
        match spec_read_string(d1, pos) {
            Ok((s, np2)) => {
                lemma_read_string_frame(d1, d2, pos, s, np2);
            },
            Err(_) => {},
        }
    } else if tag == 9 {
        match spec_read_u32(d1, pos) {
            Err(_) => {},
            Ok((elem_tag, p1)) => match spec_read_u64(d1, p1) {
                Err(_) => {},
                Ok((count, p2)) => {
                    if valid_value_tag(elem_tag) {
                        match spec_parse_elems(d1, p2, elem_tag, count as nat) {
                            Ok((vs, fp)) => {
                                lemma_parse_elems_bounds(d1, p2, elem_tag, count as nat);
                                assert(np == fp && p2 <= fp);
                                assert forall|k2: int| 0 <= k2 < 4 implies #[trigger] d1[pos + k2]
                                    == d2[pos + k2] by {
                                    assert(d2[pos + k2] == d1[pos + k2]);
                                }
                                lemma_le_val_agrees(d1, d2, pos, pos, 4);
                                assert forall|k2: int| 0 <= k2 < 8 implies #[trigger] d1[p1 + k2]
                                    == d2[p1 + k2] by {
                                    assert(d2[p1 + k2] == d1[p1 + k2]);
                                }
                                lemma_le_val_agrees(d1, d2, p1, p1, 8);
                                lemma_parse_elems_frame(d1, d2, p2, elem_tag, count as nat, vs, fp);
                            },
                            Err(_) => {},
                        }
                    }
                },
            },
        }
    }
}

/// What a run of elements parses to depends only on the bytes it covers.
pub proof fn lemma_parse_elems_frame(
    d1: Seq<u8>,
    d2: Seq<u8>,
    pos: int,
    tag: u32,
    count: nat,
    vs: Seq<ValueModel>,
    np: int,
)
    requires
        0 <= pos <= d1.len(),
        pos <= d2.len(),
        spec_parse_elems(d1, pos, tag, count) == Ok::<(Seq<ValueModel>, int), DecodeError>(
            (vs, np),
        ),
        np <= d2.len(),
        forall|k: int| pos <= k < np ==> #[trigger] d2[k] == d1[k],
    ensures
        spec_parse_elems(d2, pos, tag, count) == Ok::<(Seq<ValueModel>, int), DecodeError>(
            (vs, np),
        ),
    decreases d1.len() - pos, 1int, count,
{
    if count > 0 {
        match spec_parse_value(d1, pos, tag) {
            Err(_) => {},
            Ok((v0, np1)) => {
                lemma_parse_value_bounds(d1, pos, tag);
                lemma_parse_elems_bounds(d1, np1, tag, (count - 1) as nat);
                lemma_parse_value_frame(d1, d2, pos, tag, v0, np1);
                match spec_parse_elems(d1, np1, tag, (count - 1) as nat) {
                    Err(_) => {},
                    Ok((rest, fp)) => {
                        lemma_parse_elems_frame(d1, d2, np1, tag, (count - 1) as nat, rest, fp);
                    },
                }
            },
        }
    }
}

/// What a metadata entry parses to depends only on the bytes it covers.
pub proof fn lemma_parse_entry_frame(
    d1: Seq<u8>,
    d2: Seq<u8>,
    pos: int,
    entry: EntryModel,
    np: int,
)
    requires
        0 <= pos <= d1.len(),
        spec_parse_entry(d1, pos) == Ok::<(EntryModel, int), DecodeError>((entry, np)),
        np <= d2.len(),
        forall|k: int| pos <= k < np ==> #[trigger] d2[k] == d1[k],
    ensures
        spec_parse_entry(d2, pos) == Ok::<(EntryModel, int), DecodeError>((entry, np)),
{
    match spec_read_string(d1, pos) {
        Err(_) => {},
        Ok((key, p1)) => {
            lemma_read_string_bounds(d1, pos);
            match spec_read_u32(d1, p1) {
                Err(_) => {},
                Ok((tag, p2)) => {
                    if valid_value_tag(tag) {
                        match spec_parse_value(d1, p2, tag) {
                            Err(_) => {},
                            Ok((value, fp)) => {
                                lemma_parse_value_bounds(d1, p2, tag);
                                lemma_read_string_frame(d1, d2, pos, key, p1);
                                assert forall|k2: int| 0 <= k2 < 4 implies #[trigger] d1[p1 + k2] == d2[p1
                                    + k2] by {
                                    assert(d2[p1 + k2] == d1[p1 + k2]);
                                }
                                lemma_le_val_agrees(d1, d2, p1, p1, 4);
                                lemma_parse_value_frame(d1, d2, p2, tag, value, fp);
                            },
                        }
                    }
                },
            }
        },
    }
}

/// What a run of dimension extents parses to depends only on the bytes it
/// covers.
pub proof fn lemma_parse_dims_frame(
    d1: Seq<u8>,
    d2: Seq<u8>,
    pos: int,
    count: nat,
    dims: Seq<u64>,
    np: int,
)
    requires
        0 <= pos <= d1.len(),
        pos <= d2.len(),
        spec_parse_dims(d1, pos, count) == Ok::<(Seq<u64>, int), DecodeError>((dims, np)),
        np <= d2.len(),
        forall|k: int| pos <= k < np ==> #[trigger] d2[k] == d1[k],
    ensures
        spec_parse_dims(d2, pos, count) == Ok::<(Seq<u64>, int), DecodeError>((dims, np)),
    decreases count,
{
    if count > 0 {
        match spec_read_u64(d1, pos) {
            Err(_) => {},
            Ok((d, np1)) => {
                lemma_parse_dims_bounds(d1, np1, (count - 1) as nat);
                assert forall|k2: int| 0 <= k2 < 8 implies #[trigger] d1[pos + k2] == d2[pos + k2] by {
                    assert(d2[pos + k2] == d1[pos + k2]);
                }
                lemma_le_val_agrees(d1, d2, pos, pos, 8);
                match spec_parse_dims(d1, np1, (count - 1) as nat) {
                    Err(_) => {},
                    Ok((rest, fp)) => {
                        lemma_parse_dims_frame(d1, d2, np1, (count - 1) as nat, rest, fp);
                    },
                }
            },
        }
    }
}

/// What a tensor record parses to depends only on the bytes it covers.
pub proof fn lemma_parse_tensor_frame(
    d1: Seq<u8>,
    d2: Seq<u8>,
    pos: int,
    t: TensorModel,
    np: int,
)
    requires
        0 <= pos <= d1.len(),
        spec_parse_tensor(d1, pos) == Ok::<(TensorModel, int), DecodeError>((t, np)),
        np <= d2.len(),
        forall|k: int| pos <= k < np ==> #[trigger] d2[k] == d1[k],
    ensures
        spec_parse_tensor(d2, pos) == Ok::<(TensorModel, int), DecodeError>((t, np)),
{
    match spec_read_string(d1, pos) {
        Err(_) => {},
        Ok((name, p1)) => {
            lemma_read_string_bounds(d1, pos);
            match spec_read_u32(d1, p1) {
                Err(_) => {},
                Ok((n_dims, p2)) => match spec_parse_dims(d1, p2, n_dims as nat) {
                    Err(_) => {},
                    Ok((dims, p3)) => {
                        lemma_parse_dims_bounds(d1, p2, n_dims as nat);
                        match spec_read_u32(d1, p3) {
                            Err(_) => {},
                            Ok((enc_tag, p4)) => {
                                if crate::ggml::GGMLType::spec_from_u32(enc_tag) is Some {
                                    match spec_read_u64(d1, p4) {
                                        Err(_) => {},
                                        Ok((_, fp)) => {
                                            lemma_read_string_frame(d1, d2, pos, name, p1);
                                            assert forall|k2: int| 0 <= k2 < 4 implies #[trigger] d1[p1 + k2]
                                                == d2[p1 + k2] by {
                                                assert(d2[p1 + k2] == d1[p1 + k2]);
                                            }
                                            lemma_le_val_agrees(d1, d2, p1, p1, 4);
                                            lemma_parse_dims_frame(
                                                d1,
                                                d2,
                                                p2,
                                                n_dims as nat,
                                                dims,
                                                p3,
                                            );
                                            assert forall|k2: int| 0 <= k2 < 4 implies #[trigger] d1[p3 + k2]
                                                == d2[p3 + k2] by {
                                                assert(d2[p3 + k2] == d1[p3 + k2]);
                                            }
                                            lemma_le_val_agrees(d1, d2, p3, p3, 4);
                                            assert forall|k2: int| 0 <= k2 < 8 implies #[trigger] d1[p4 + k2]
                                                == d2[p4 + k2] by {
                                                assert(d2[p4 + k2] == d1[p4 + k2]);
                                            }
                                            lemma_le_val_agrees(d1, d2, p4, p4, 8);
                                        },
                                    }
                                }
                            },
                        }
                    },
                },
            }
        },
    }
}

/// One more value at the end of a parsed run extends the run by one.
pub proof fn lemma_parse_elems_snoc(
    data: Seq<u8>,
    pos: int,
    tag: u32,
    count: nat,
    vs: Seq<ValueModel>,
    q: int,
    v: ValueModel,
    q2: int,
)
    requires
        0 <= pos <= data.len(),
        spec_parse_elems(data, pos, tag, count) == Ok::<(Seq<ValueModel>, int), DecodeError>(
            (vs, q),
        ),
        spec_parse_value(data, q, tag) == Ok::<(ValueModel, int), DecodeError>((v, q2)),
    ensures
        spec_parse_elems(data, pos, tag, count + 1) == Ok::<(Seq<ValueModel>, int), DecodeError>(
            (vs.push(v), q2),
        ),
    decreases count,
{
    lemma_parse_elems_bounds(data, pos, tag, count);
    lemma_parse_value_bounds(data, q, tag);
    if count == 0 {
        assert(spec_parse_elems(data, q2, tag, 0) == Ok::<(Seq<ValueModel>, int), DecodeError>((
        Seq::empty(), q2)));
        assert(seq![v] + Seq::<ValueModel>::empty() =~= vs.push(v));
    } else {
        match spec_parse_value(data, pos, tag) {
            Err(_) => {},
            Ok((v0, np1)) => {
                lemma_parse_value_bounds(data, pos, tag);
                match spec_parse_elems(data, np1, tag, (count - 1) as nat) {
                    Err(_) => {},
                    Ok((vs2, _)) => {
                        lemma_parse_elems_snoc(data, np1, tag, (count - 1) as nat, vs2, q, v, q2);
                        assert(seq![v0] + vs2.push(v) =~= (seq![v0] + vs2).push(v));
                    },
                }
            },
        }
    }
}

/// One more entry at the end of a parsed run extends the run by one.
pub proof fn lemma_parse_entries_snoc(
    data: Seq<u8>,
    pos: int,
    count: nat,
    es: Seq<EntryModel>,
    q: int,
    e: EntryModel,
    q2: int,
)
    requires
        0 <= pos <= data.len(),
        spec_parse_entries(data, pos, count) == Ok::<(Seq<EntryModel>, int), DecodeError>((es, q)),
        spec_parse_entry(data, q) == Ok::<(EntryModel, int), DecodeError>((e, q2)),
    ensures
        spec_parse_entries(data, pos, count + 1) == Ok::<(Seq<EntryModel>, int), DecodeError>(
            (es.push(e), q2),
        ),
    decreases count,
{
    if count == 0 {
        assert(spec_parse_entries(data, q2, 0) == Ok::<(Seq<EntryModel>, int), DecodeError>((
        Seq::empty(), q2)));
        assert(seq![e] + Seq::<EntryModel>::empty() =~= es.push(e));
    } else {
        match spec_parse_entry(data, pos) {
            Err(_) => {},
            Ok((e0, np1)) => {
                lemma_parse_entry_bounds(data, pos);
                match spec_parse_entries(data, np1, (count - 1) as nat) {
                    Err(_) => {},
                    Ok((es2, _)) => {
                        lemma_parse_entries_snoc(data, np1, (count - 1) as nat, es2, q, e, q2);
                        assert(seq![e0] + es2.push(e) =~= (seq![e0] + es2).push(e));
                    },
                }
            },
        }
    }
}

/// One more extent at the end of a parsed run extends the run by one.
pub proof fn lemma_parse_dims_snoc(
    data: Seq<u8>,
    pos: int,
    count: nat,
    dims: Seq<u64>,
    q: int,
    d: u64,
    q2: int,
)
    requires
        0 <= pos <= data.len(),
        spec_parse_dims(data, pos, count) == Ok::<(Seq<u64>, int), DecodeError>((dims, q)),
        spec_read_u64(data, q) == Ok::<(u64, int), DecodeError>((d, q2)),
    ensures
        spec_parse_dims(data, pos, count + 1) == Ok::<(Seq<u64>, int), DecodeError>(
            (dims.push(d), q2),
        ),
    decreases count,
{
    if count == 0 {
        assert(spec_parse_dims(data, q2, 0) == Ok::<(Seq<u64>, int), DecodeError>((Seq::empty(),
        q2)));
        assert(seq![d] + Seq::<u64>::empty() =~= dims.push(d));
    } else {
        match spec_read_u64(data, pos) {
            Err(_) => {},
            Ok((d0, np1)) => {
                match spec_parse_dims(data, np1, (count - 1) as nat) {
                    Err(_) => {},
                    Ok((dims2, _)) => {
                        lemma_parse_dims_snoc(data, np1, (count - 1) as nat, dims2, q, d, q2);
                        assert(seq![d0] + dims2.push(d) =~= (seq![d0] + dims2).push(d));
                    },
                }
            },
        }
    }
}

/// One more tensor record at the end of a parsed run extends the run by one.
pub proof fn lemma_parse_tensors_snoc(
    data: Seq<u8>,
    pos: int,
    count: nat,
    ts: Seq<TensorModel>,
    q: int,
    t: TensorModel,
    q2: int,
)
    requires
        0 <= pos <= data.len(),
        spec_parse_tensors(data, pos, count) == Ok::<(Seq<TensorModel>, int), DecodeError>(
            (ts, q),
        ),
        spec_parse_tensor(data, q) == Ok::<(TensorModel, int), DecodeError>((t, q2)),
    ensures
        spec_parse_tensors(data, pos, count + 1) == Ok::<(Seq<TensorModel>, int), DecodeError>(
            (ts.push(t), q2),
        ),
    decreases count,
{
    if count == 0 {
        assert(spec_parse_tensors(data, q2, 0) == Ok::<(Seq<TensorModel>, int), DecodeError>((
        Seq::empty(), q2)));
        assert(seq![t] + Seq::<TensorModel>::empty() =~= ts.push(t));
    } else {
        match spec_parse_tensor(data, pos) {
            Err(_) => {},
            Ok((t0, np1)) => {
                lemma_parse_tensor_bounds(data, pos);
                match spec_parse_tensors(data, np1, (count - 1) as nat) {
                    Err(_) => {},
                    Ok((ts2, _)) => {
                        lemma_parse_tensors_snoc(data, np1, (count - 1) as nat, ts2, q, t, q2);
                        assert(seq![t0] + ts2.push(t) =~= (seq![t0] + ts2).push(t));
                    },
                }
            },
        }
    }
}

/// `a` stands unchanged at the front of `b`.
pub open spec fn is_prefix_of(a: Seq<u8>, b: Seq<u8>) -> bool {
    a.len() <= b.len() && b.subrange(0, a.len() as int) == a
}

pub proof fn lemma_prefix_trans(a: Seq<u8>, b: Seq<u8>, c: Seq<u8>)
    requires
        is_prefix_of(a, b),
        is_prefix_of(b, c),
    ensures
        is_prefix_of(a, c),
{
    lemma_prefix_bytes(a, b);
    lemma_prefix_bytes(b, c);
    assert(c.subrange(0, a.len() as int) =~= a) by {
        assert forall|k: int| 0 <= k < a.len() implies #[trigger] c.subrange(0, a.len() as int)[k]
            == a[k] by {
            assert(c[k] == b[k]);
            assert(b[k] == a[k]);
        }
    }
}

pub proof fn lemma_prefix_bytes(a: Seq<u8>, b: Seq<u8>)
    requires
        is_prefix_of(a, b),
    ensures
        forall|k: int| 0 <= k < a.len() ==> #[trigger] b[k] == a[k],
{
    assert forall|k: int| 0 <= k < a.len() implies #[trigger] b[k] == a[k] by {
        assert(b.subrange(0, a.len() as int)[k] == a[k]);
    }
}

/// The tag of the kind of value this is.
pub fn value_tag_of(v: &GGUFValue) -> (r: u32)
    ensures
        r == value_tag(v@),
{
    match v {
        GGUFValue::U8(_) => 0,
        GGUFValue::I8(_) => 1,
        GGUFValue::U16(_) => 2,
        GGUFValue::I16(_) => 3,
        GGUFValue::U32(_) => 4,
        GGUFValue::I32(_) => 5,
        GGUFValue::F32Bits(_) => 6,
        GGUFValue::Bool(_) => 7,
        GGUFValue::Str(_) => 8,
        GGUFValue::Array(_) => 9,
        GGUFValue::U64(_) => 10,
        GGUFValue::I64(_) => 11,
        GGUFValue::F64Bits(_) => 12,
    }
}

/// Appends a length-prefixed UTF-8 string field; the new bytes read back as
/// exactly the characters of `s`.
pub fn encode_string(s: &String, buf: &mut Vec<u8>)
    ensures
        old(buf)@.len() < final(buf)@.len(),
        is_prefix_of(old(buf)@, final(buf)@),
        spec_read_string(final(buf)@, old(buf)@.len() as int) == Ok::<(Seq<char>, int), DecodeError>(
            (s@, final(buf)@.len() as int),
        ),
{
    let ghost start = buf@.len() as int;
    let bytes = s.as_str().as_bytes_vec();
    push_u64_le(buf, bytes.len() as u64);
    let ghost buf1 = buf@;
    buf.extend_from_slice(bytes.as_slice());
    proof {
        encode_utf8_valid_utf8(s@);
        encode_utf8_decode_utf8(s@);
        assert(is_prefix_of(buf1, buf@)) by {
            assert(buf@.subrange(0, buf1.len() as int) =~= buf1);
        }
        lemma_prefix_bytes(buf1, buf@);
        assert forall|k2: int| 0 <= k2 < 8 implies #[trigger] buf1[start + k2] == buf@[start
            + k2] by {
            assert(buf@[start + k2] == buf1[start + k2]);
        }
        lemma_le_val_agrees(buf1, buf@, start, start, 8);
        assert(le_val(buf@, start, 8) == bytes.len() as nat);
        assert(buf@.subrange(start + 8, start + 8 + bytes@.len()) =~= bytes@) by {
            assert forall|j: int| 0 <= j < bytes@.len() implies #[trigger] buf@.subrange(
                start + 8,
                start + 8 + bytes@.len(),
            )[j] == bytes@[j] by {
                assert(buf@[start + 8 + j] == bytes@[j]);
            }
        }
        assert(is_prefix_of(old(buf)@, buf@)) by {
            assert(buf@.subrange(0, start) =~= old(buf)@) by {
                assert forall|k: int| 0 <= k < start implies #[trigger] buf@.subrange(0, start)[k]
                    == old(buf)@[k] by {
                    assert(buf@[k] == buf1[k]);
                    assert(buf1.subrange(0, start)[k] == old(buf)@[k]);
                }
            }
        }
    }
}

/// Appends one value; the new bytes read back, under the value's own type
/// tag, as exactly that value.
#[verifier::loop_isolation(false)]
pub fn encode_value(v: &GGUFValue, buf: &mut Vec<u8>)
    requires
        wf_value(v@),
    ensures
        old(buf)@.len() < final(buf)@.len(),
        is_prefix_of(old(buf)@, final(buf)@),
        spec_parse_value(final(buf)@, old(buf)@.len() as int, value_tag(v@)) == Ok::<
            (ValueModel, int),
            DecodeError,
        >((v@, final(buf)@.len() as int)),
    decreases v,
{
    let ghost start = buf@.len() as int;
    match v {
        GGUFValue::U8(x) => {
            push_u8(buf, *x);
        },
        GGUFValue::I8(x) => {
            push_u8(buf, #[verifier::truncate] (*x as u8));
            proof {
                let xv = *x;
                assert(((xv as u8) as i8) == xv) by (bit_vector);
            }
        },
        GGUFValue::U16(x) => {
            push_u16_le(buf, *x);
        },
        GGUFValue::I16(x) => {
            push_u16_le(buf, #[verifier::truncate] (*x as u16));
            proof {
                let xv = *x;
                assert(((xv as u16) as i16) == xv) by (bit_vector);
            }
        },
        GGUFValue::U32(x) => {
            push_u32_le(buf, *x);
        },
        GGUFValue::I32(x) => {
            push_u32_le(buf, #[verifier::truncate] (*x as u32));
            proof {
                let xv = *x;
                assert(((xv as u32) as i32) == xv) by (bit_vector);
            }
        },
        GGUFValue::F32Bits(x) => {
            push_u32_le(buf, *x);
        },
        GGUFValue::Bool(b) => {
            push_u8(buf, if *b {
                1
            } else {
                0
            });
        },
        GGUFValue::Str(s) => {
            encode_string(s, buf);
        },
        GGUFValue::U64(x) => {
            push_u64_le(buf, *x);
        },
        GGUFValue::I64(x) => {
            push_u64_le(buf, #[verifier::truncate] (*x as u64));
            proof {
                let xv = *x;
                assert(((xv as u64) as i64) == xv) by (bit_vector);
            }
        },
        GGUFValue::F64Bits(x) => {
            push_u64_le(buf, *x);
        },
        GGUFValue::Array(elems) => {
            let etag: u32 = if elems.len() == 0 {
                0
            } else {
                value_tag_of(&elems[0])
            };
            push_u32_le(buf, etag);
            let ghost buf_a = buf@;
            push_u64_le(buf, elems.len() as u64);
            let ghost buf1 = buf@;
            proof {
                lemma_value_views(elems@);
                assert(is_prefix_of(buf1, buf@)) by {
                    assert(buf@.subrange(0, buf1.len() as int) =~= buf1);
                }
                assert(value_views(elems@.subrange(0, 0)) =~= Seq::<ValueModel>::empty());
            }
            let mut j: usize = 0;
            while j < elems.len()
                invariant
                    j <= elems@.len(),
                    buf1.len() == start + 12,
                    is_prefix_of(buf1, buf@),
                    valid_value_tag(etag),
                    elems@.len() > 0 ==> etag == value_tag(elems@[0]@),
                    spec_parse_elems(buf@, buf1.len() as int, etag, j as nat) == Ok::<
                        (Seq<ValueModel>, int),
                        DecodeError,
                    >((value_views(elems@.subrange(0, j as int)), buf@.len() as int)),
                decreases elems@.len() - j,
            {
                let ghost pre = buf@;
                proof {
                    assert(decreases_to!(v => elems@[j as int]));
                    assert(wf_value(elems@[j as int]@)) by {
                        assert(value_views(elems@)[j as int] == elems@[j as int]@);
                    }
                }
                encode_value(&elems[j], buf);
                proof {
                    lemma_prefix_bytes(pre, buf@);
                    lemma_parse_elems_frame(
                        pre,
                        buf@,
                        buf1.len() as int,
                        etag,
                        j as nat,
                        value_views(elems@.subrange(0, j as int)),
                        pre.len() as int,
                    );
                    assert(value_tag(elems@[j as int]@) == etag) by {
                        assert(value_views(elems@)[j as int] == elems@[j as int]@);
                        assert(value_views(elems@)[0] == elems@[0]@);
                    }
                    lemma_parse_elems_snoc(
                        buf@,
                        buf1.len() as int,
                        etag,
                        j as nat,
                        value_views(elems@.subrange(0, j as int)),
                        pre.len() as int,
                        elems@[j as int]@,
                        buf@.len() as int,
                    );
                    assert(elems@.subrange(0, j + 1) =~= elems@.subrange(0, j as int).push(
                        elems@[j as int],
                    ));
                    lemma_value_views_push(elems@.subrange(0, j as int), elems@[j as int]);
                    lemma_prefix_trans(buf1, pre, buf@);
                }
                j = j + 1;
            }
            proof {
                assert(elems@.subrange(0, elems@.len() as int) =~= elems@);
                lemma_prefix_bytes(buf1, buf@);
                assert(is_prefix_of(buf_a, buf1)) by {
                    assert(buf1.subrange(0, buf_a.len() as int) =~= buf_a);
                }
                lemma_prefix_trans(buf_a, buf1, buf@);
                lemma_prefix_bytes(buf_a, buf@);
                assert forall|k2: int| 0 <= k2 < 4 implies #[trigger] buf_a[start + k2] == buf@[
                    start + k2
                ] by {
                    assert(buf@[start + k2] == buf_a[start + k2]);
                }
                lemma_le_val_agrees(buf_a, buf@, start, start, 4);
                assert forall|k2: int| 0 <= k2 < 8 implies #[trigger] buf1[start + 4 + k2] == buf@[
                    start + 4 + k2
                ] by {
                    assert(buf@[start + 4 + k2] == buf1[start + 4 + k2]);
                }
                lemma_le_val_agrees(buf1, buf@, start + 4, start + 4, 8);
                assert(is_prefix_of(old(buf)@, buf@)) by {
                    assert(is_prefix_of(old(buf)@, buf_a)) by {
                        assert(buf_a.subrange(0, start) =~= old(buf)@);
                    }
                    lemma_prefix_trans(old(buf)@, buf_a, buf@);
                }
            }
        },
    }
}

/// Appends one metadata entry: key, type tag, value.
pub fn encode_entry(entry: &GGUFMetadataEntry, buf: &mut Vec<u8>)
    requires
        wf_value(entry@.value),
    ensures
        old(buf)@.len() < final(buf)@.len(),
        is_prefix_of(old(buf)@, final(buf)@),
        spec_parse_entry(final(buf)@, old(buf)@.len() as int) == Ok::<(EntryModel, int), DecodeError>(
            (entry@, final(buf)@.len() as int),
        ),
{
    let ghost start = buf@.len() as int;
    encode_string(&entry.key, buf);
    let ghost buf1 = buf@;
    let tag = value_tag_of(&entry.value);
    push_u32_le(buf, tag);
    let ghost buf2 = buf@;
    encode_value(&entry.value, buf);
    proof {
        assert(is_prefix_of(buf1, buf2)) by {
            assert(buf2.subrange(0, buf1.len() as int) =~= buf1);
        }
        lemma_prefix_trans(buf1, buf2, buf@);
        lemma_prefix_bytes(buf1, buf@);
        lemma_read_string_frame(buf1, buf@, start, entry.key@, buf1.len() as int);
        lemma_prefix_bytes(buf2, buf@);
        assert forall|k2: int| 0 <= k2 < 4 implies #[trigger] buf2[buf1.len() + k2] == buf@[
            buf1.len() + k2
        ] by {
            assert(buf@[buf1.len() + k2] == buf2[buf1.len() + k2]);
        }
        lemma_le_val_agrees(buf2, buf@, buf1.len() as int, buf1.len() as int, 4);
        assert(is_prefix_of(old(buf)@, buf@)) by {
            assert(is_prefix_of(old(buf)@, buf1));
            lemma_prefix_trans(old(buf)@, buf1, buf@);
        }
    }
}

/// Appends one tensor record: name, dimension count, extents, encoding tag,
/// data offset.
#[verifier::loop_isolation(false)]
pub fn encode_tensor(t: &GGUFTensorInfo, buf: &mut Vec<u8>)
    requires
        t.dimensions@.len() <= u32::MAX,
    ensures
        old(buf)@.len() < final(buf)@.len(),
        is_prefix_of(old(buf)@, final(buf)@),
        spec_parse_tensor(final(buf)@, old(buf)@.len() as int) == Ok::<
            (TensorModel, int),
            DecodeError,
        >((t@, final(buf)@.len() as int)),
{
    let ghost start = buf@.len() as int;
    encode_string(&t.name, buf);
    let ghost buf1 = buf@;
    push_u32_le(buf, t.dimensions.len() as u32);
    let ghost buf2 = buf@;
    proof {
        assert(is_prefix_of(buf2, buf@)) by {
            assert(buf@.subrange(0, buf2.len() as int) =~= buf2);
        }
        assert(t.dimensions@.subrange(0, 0) =~= Seq::<u64>::empty());
    }
    let mut j: usize = 0;
    while j < t.dimensions.len()
        invariant
            j <= t.dimensions@.len(),
            is_prefix_of(buf2, buf@),
            spec_parse_dims(buf@, buf2.len() as int, j as nat) == Ok::<(Seq<u64>, int), DecodeError>(
                (t.dimensions@.subrange(0, j as int), buf@.len() as int),
            ),
        decreases t.dimensions@.len() - j,
    {
        let ghost pre = buf@;
        push_u64_le(buf, t.dimensions[j]);
        proof {
            assert(is_prefix_of(pre, buf@)) by {
                assert(buf@.subrange(0, pre.len() as int) =~= pre);
            }
            lemma_prefix_bytes(pre, buf@);
            lemma_parse_dims_frame(
                pre,
                buf@,
                buf2.len() as int,
                j as nat,
                t.dimensions@.subrange(0, j as int),
                pre.len() as int,
            );
            lemma_parse_dims_snoc(
                buf@,
                buf2.len() as int,
                j as nat,
                t.dimensions@.subrange(0, j as int),
                pre.len() as int,
                t.dimensions@[j as int],
                buf@.len() as int,
            );
            assert(t.dimensions@.subrange(0, j + 1) =~= t.dimensions@.subrange(0, j as int).push(
                t.dimensions@[j as int],
            ));
            lemma_prefix_trans(buf2, pre, buf@);
        }
        j = j + 1;
    }
    let ghost buf3 = buf@;
    push_u32_le(buf, t.tensor_type.to_u32());
    let ghost buf4 = buf@;
    push_u64_le(buf, t.offset);
    proof {
        assert(t.dimensions@.subrange(0, t.dimensions@.len() as int) =~= t.dimensions@);
        assert(is_prefix_of(buf4, buf@)) by {
            assert(buf@.subrange(0, buf4.len() as int) =~= buf4);
        }
        assert(is_prefix_of(buf3, buf4)) by {
            assert(buf4.subrange(0, buf3.len() as int) =~= buf3);
        }
        assert(is_prefix_of(buf1, buf2)) by {
            assert(buf2.subrange(0, buf1.len() as int) =~= buf1);
        }
        lemma_prefix_trans(buf3, buf4, buf@);
        lemma_prefix_trans(buf2, buf3, buf@);
        lemma_prefix_trans(buf1, buf2, buf@);
        lemma_prefix_bytes(buf1, buf@);
        lemma_prefix_bytes(buf2, buf@);
        lemma_prefix_bytes(buf3, buf@);
        lemma_prefix_bytes(buf4, buf@);
        lemma_read_string_frame(buf1, buf@, start, t.name@, buf1.len() as int);
        assert forall|k2: int| 0 <= k2 < 4 implies #[trigger] buf2[buf1.len() + k2] == buf@[
            buf1.len() + k2
        ] by {
            assert(buf@[buf1.len() + k2] == buf2[buf1.len() + k2]);
        }
        lemma_le_val_agrees(buf2, buf@, buf1.len() as int, buf1.len() as int, 4);
        lemma_parse_dims_frame(
            buf3,
            buf@,
            buf2.len() as int,
            t.dimensions@.len(),
            t.dimensions@,
            buf3.len() as int,
        );
        assert forall|k2: int| 0 <= k2 < 4 implies #[trigger] buf4[buf3.len() + k2] == buf@[
            buf3.len() + k2
        ] by {
            assert(buf@[buf3.len() + k2] == buf4[buf3.len() + k2]);
        }
        lemma_le_val_agrees(buf4, buf@, buf3.len() as int, buf3.len() as int, 4);
        assert(is_prefix_of(old(buf)@, buf@)) by {
            assert(is_prefix_of(old(buf)@, buf1));
            lemma_prefix_trans(old(buf)@, buf1, buf@);
        }
    }
}

/// Writes out a whole file: header with the magic and the given version,
/// then every metadata entry, then every tensor record. Decoding the result
/// recovers exactly the same header fields, entries and records — the
/// encode/decode round trip, stated over the same mathematical parser the
/// decoder is proved against.
#[verifier::loop_isolation(false)]
pub fn encode_file(
    version: u32,
    metadata: &Vec<GGUFMetadataEntry>,
    tensors: &Vec<GGUFTensorInfo>,
) -> (r: Vec<u8>)
    requires
        forall|i: int| 0 <= i < metadata@.len() ==> wf_value((#[trigger] metadata@[i])@.value),
        forall|i: int| 0 <= i < tensors@.len() ==> (#[trigger] tensors@[i])@.dimensions.len()
            <= u32::MAX,
    ensures
        spec_parse_file(r@) == Ok::<FileModel, DecodeError>(
            FileModel {
                header: GGUFHeader {
                    magic: GGUF_MAGIC,
                    version,
                    tensor_count: tensors@.len() as u64,
                    metadata_kv_count: metadata@.len() as u64,
                },
                metadata: entry_views(metadata@),
                tensors: tensor_views(tensors@),
            },
        ),
{
    let mut buf: Vec<u8> = Vec::new();
    push_u32_le(&mut buf, GGUF_MAGIC);
    let ghost b_magic = buf@;
    push_u32_le(&mut buf, version);
    let ghost b_version = buf@;
    push_u64_le(&mut buf, tensors.len() as u64);
    let ghost b_tc = buf@;
    push_u64_le(&mut buf, metadata.len() as u64);
    let ghost b_kv = buf@;
    proof {
        assert(is_prefix_of(b_kv, buf@)) by {
            assert(buf@.subrange(0, b_kv.len() as int) =~= b_kv);
        }
        assert(entry_views(metadata@.subrange(0, 0)) =~= Seq::<EntryModel>::empty());
    }
    let mut i: usize = 0;
    while i < metadata.len()
        invariant
            i <= metadata@.len(),
            b_kv.len() == 24,
            is_prefix_of(b_kv, buf@),
            forall|k: int| 0 <= k < metadata@.len() ==> wf_value((#[trigger] metadata@[k])@.value),
            spec_parse_entries(buf@, 24, i as nat) == Ok::<(Seq<EntryModel>, int), DecodeError>(
                (entry_views(metadata@.subrange(0, i as int)), buf@.len() as int),
            ),
        decreases metadata@.len() - i,
    {
        let ghost pre = buf@;
        encode_entry(&metadata[i], &mut buf);
        proof {
            lemma_prefix_bytes(pre, buf@);
            lemma_parse_entries_frame(
                pre,
                buf@,
                24,
                i as nat,
                entry_views(metadata@.subrange(0, i as int)),
                pre.len() as int,
            );
            lemma_parse_entries_snoc(
                buf@,
                24,
                i as nat,
                entry_views(metadata@.subrange(0, i as int)),
                pre.len() as int,
                metadata@[i as int]@,
                buf@.len() as int,
            );
            assert(metadata@.subrange(0, i + 1) =~= metadata@.subrange(0, i as int).push(
                metadata@[i as int],
            ));
            assert(entry_views(metadata@.subrange(0, i + 1)) =~= entry_views(
                metadata@.subrange(0, i as int),
            ).push(metadata@[i as int]@));
            lemma_prefix_trans(b_kv, pre, buf@);
        }
        i = i + 1;
    }
    let ghost b_entries = buf@;
    proof {
        assert(is_prefix_of(b_entries, buf@)) by {
            assert(buf@.subrange(0, b_entries.len() as int) =~= b_entries);
        }
        assert(tensor_views(tensors@.subrange(0, 0)) =~= Seq::<TensorModel>::empty());
    }
    let mut j: usize = 0;
    while j < tensors.len()
        invariant
            j <= tensors@.len(),
            b_entries.len() >= 24,
            is_prefix_of(b_entries, buf@),
            forall|k: int| 0 <= k < tensors@.len() ==> (#[trigger] tensors@[k])@.dimensions.len()
                <= u32::MAX,
            spec_parse_tensors(buf@, b_entries.len() as int, j as nat) == Ok::<
                (Seq<TensorModel>, int),
                DecodeError,
            >((tensor_views(tensors@.subrange(0, j as int)), buf@.len() as int)),
        decreases tensors@.len() - j,
    {
        let ghost pre = buf@;
        encode_tensor(&tensors[j], &mut buf);
        proof {
            lemma_prefix_bytes(pre, buf@);
            lemma_parse_tensors_frame(
                pre,
                buf@,
                b_entries.len() as int,
                j as nat,
                tensor_views(tensors@.subrange(0, j as int)),
                pre.len() as int,
            );
            lemma_parse_tensors_snoc(
                buf@,
                b_entries.len() as int,
                j as nat,
                tensor_views(tensors@.subrange(0, j as int)),
                pre.len() as int,
                tensors@[j as int]@,
                buf@.len() as int,
            );
            assert(tensors@.subrange(0, j + 1) =~= tensors@.subrange(0, j as int).push(
                tensors@[j as int],
            ));
            assert(tensor_views(tensors@.subrange(0, j + 1)) =~= tensor_views(
                tensors@.subrange(0, j as int),
            ).push(tensors@[j as int]@));
            lemma_prefix_trans(b_entries, pre, buf@);
        }
        j = j + 1;
    }
    proof {
        assert(metadata@.subrange(0, metadata@.len() as int) =~= metadata@);
        assert(tensors@.subrange(0, tensors@.len() as int) =~= tensors@);
        assert(entry_views(metadata@.subrange(0, metadata@.len() as int)) =~= entry_views(
            metadata@,
        ));
        assert(tensor_views(tensors@.subrange(0, tensors@.len() as int)) =~= tensor_views(
            tensors@,
        ));
        assert(is_prefix_of(b_magic, b_version)) by {
            assert(b_version.subrange(0, b_magic.len() as int) =~= b_magic);
        }
        assert(is_prefix_of(b_version, b_tc)) by {
            assert(b_tc.subrange(0, b_version.len() as int) =~= b_version);
        }
        assert(is_prefix_of(b_tc, b_kv)) by {
            assert(b_kv.subrange(0, b_tc.len() as int) =~= b_tc);
        }
        lemma_prefix_trans(b_tc, b_kv, b_entries);
        lemma_prefix_trans(b_version, b_tc, b_entries);
        lemma_prefix_trans(b_magic, b_version, b_entries);
        lemma_prefix_trans(b_magic, b_entries, buf@);
        lemma_prefix_trans(b_version, b_entries, buf@);
        lemma_prefix_trans(b_tc, b_entries, buf@);
        lemma_prefix_trans(b_kv, b_entries, buf@);
        lemma_prefix_bytes(b_magic, buf@);
        lemma_prefix_bytes(b_version, buf@);
        lemma_prefix_bytes(b_tc, buf@);
        lemma_prefix_bytes(b_kv, buf@);
        lemma_prefix_bytes(b_entries, buf@);
        assert forall|k2: int| 0 <= k2 < 4 implies #[trigger] b_magic[0 + k2] == buf@[0 + k2] by {
            assert(buf@[0 + k2] == b_magic[0 + k2]);
        }
        lemma_le_val_agrees(b_magic, buf@, 0, 0, 4);
        assert forall|k2: int| 0 <= k2 < 4 implies #[trigger] b_version[4 + k2] == buf@[4 + k2] by {
            assert(buf@[4 + k2] == b_version[4 + k2]);
        }
        lemma_le_val_agrees(b_version, buf@, 4, 4, 4);
        assert forall|k2: int| 0 <= k2 < 8 implies #[trigger] b_tc[8 + k2] == buf@[8 + k2] by {
            assert(buf@[8 + k2] == b_tc[8 + k2]);
        }
        lemma_le_val_agrees(b_tc, buf@, 8, 8, 8);
        assert forall|k2: int| 0 <= k2 < 8 implies #[trigger] b_kv[16 + k2] == buf@[16 + k2] by {
            assert(buf@[16 + k2] == b_kv[16 + k2]);
        }
        lemma_le_val_agrees(b_kv, buf@, 16, 16, 8);
        lemma_parse_entries_frame(
            b_entries,
            buf@,
            24,
            metadata@.len(),
            entry_views(metadata@),
            b_entries.len() as int,
        );
    }
    buf
}

/// What a run of entries parses to depends only on the bytes it covers.
pub proof fn lemma_parse_entries_frame(
    d1: Seq<u8>,
    d2: Seq<u8>,
    pos: int,
    count: nat,
    es: Seq<EntryModel>,
    np: int,
)
    requires
        0 <= pos <= d1.len(),
        pos <= d2.len(),
        spec_parse_entries(d1, pos, count) == Ok::<(Seq<EntryModel>, int), DecodeError>((es, np)),
        np <= d2.len(),
        forall|k: int| pos <= k < np ==> #[trigger] d2[k] == d1[k],
    ensures
        spec_parse_entries(d2, pos, count) == Ok::<(Seq<EntryModel>, int), DecodeError>((es, np)),
    decreases count,
{
    if count > 0 {
        match spec_parse_entry(d1, pos) {
            Err(_) => {},
            Ok((e0, np1)) => {
                lemma_parse_entry_bounds(d1, pos);
                lemma_parse_entries_bounds(d1, np1, (count - 1) as nat);
                lemma_parse_entry_frame(d1, d2, pos, e0, np1);
                match spec_parse_entries(d1, np1, (count - 1) as nat) {
                    Err(_) => {},
                    Ok((rest, fp)) => {
                        lemma_parse_entries_frame(d1, d2, np1, (count - 1) as nat, rest, fp);
                    },
                }
            },
        }
    }
}

/// What a run of tensor records parses to depends only on the bytes it
/// covers.
pub proof fn lemma_parse_tensors_frame(
    d1: Seq<u8>,
    d2: Seq<u8>,
    pos: int,
    count: nat,
    ts: Seq<TensorModel>,
    np: int,
)
    requires
        0 <= pos <= d1.len(),
        pos <= d2.len(),
        spec_parse_tensors(d1, pos, count) == Ok::<(Seq<TensorModel>, int), DecodeError>((ts, np)),
        np <= d2.len(),
        forall|k: int| pos <= k < np ==> #[trigger] d2[k] == d1[k],
    ensures
        spec_parse_tensors(d2, pos, count) == Ok::<(Seq<TensorModel>, int), DecodeError>((ts, np)),
    decreases count,
{
    if count > 0 {
        match spec_parse_tensor(d1, pos) {
            Err(_) => {},
            Ok((t0, np1)) => {
                lemma_parse_tensor_bounds(d1, pos);
                lemma_parse_tensors_bounds(d1, np1, (count - 1) as nat);
                lemma_parse_tensor_frame(d1, d2, pos, t0, np1);
                match spec_parse_tensors(d1, np1, (count - 1) as nat) {
                    Err(_) => {},
                    Ok((rest, fp)) => {
                        lemma_parse_tensors_frame(d1, d2, np1, (count - 1) as nat, rest, fp);
                    },
                }
            },
        }
    }
}

} // verus!
