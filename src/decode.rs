//! Decoding of raw property payloads into typed values.
use vstd::prelude::*;
use vstd::slice::{slice_subrange, slice_to_vec};
use vstd::utf8::{decode_utf8, valid_utf8};

use crate::text::text_from_utf8;
use crate::value::{DiPropValue, PropModel};

verus! {

/// Number of leading bytes of `b` before its first zero byte.
pub open spec fn zero_free_len(b: Seq<u8>) -> nat
    decreases b.len(),
{
    if b.len() == 0 || b[0] == 0 {
        0
    } else {
        1 + zero_free_len(b.drop_first())
    }
}

/// The pieces of `b` between zero bytes, as a split on zero gives them.
pub open spec fn split_zero(b: Seq<u8>) -> Seq<Seq<u8>>
    decreases b.len(),
{
    let k = zero_free_len(b);
    if k >= b.len() {
        seq![b]
    } else {
        seq![b.take(k as int)] + split_zero(b.skip(k + 1 as int))
    }
}

/// Length of `b` once its trailing zero bytes are taken off.
pub open spec fn trimmed_len(b: Seq<u8>) -> nat
    decreases b.len(),
{
    if b.len() == 0 {
        0
    } else if b.last() == 0 {
        trimmed_len(b.drop_last())
    } else {
        b.len()
    }
}

/// The strings of a blob of zero-terminated strings: the pieces between
/// terminators, with no empty pieces after the last string.
pub open spec fn segments(b: Seq<u8>) -> Seq<Seq<u8>> {
    let t = b.take(trimmed_len(b) as int);
    if t.len() == 0 {
        seq![]
    } else {
        split_zero(t)
    }
}

pub open spec fn all_utf8(segs: Seq<Seq<u8>>) -> bool {
    forall|i: int| 0 <= i < segs.len() ==> valid_utf8(#[trigger] segs[i])
}

pub open spec fn decode_all(segs: Seq<Seq<u8>>) -> Seq<Seq<char>> {
    segs.map_values(|s: Seq<u8>| decode_utf8(s))
}

proof fn lemma_zero_free_len(b: Seq<u8>, k: int)
    requires
        0 <= k <= b.len(),
        forall|j: int| 0 <= j < k ==> b[j] != 0,
        k == b.len() || b[k] == 0,
    ensures
        zero_free_len(b) == k,
    decreases k,
{
    if k > 0 {
        assert forall|j: int| 0 <= j < k - 1 implies b.drop_first()[j] != 0 by {
            assert(b.drop_first()[j] == b[j + 1]);
        }
        lemma_zero_free_len(b.drop_first(), k - 1);
    }
}

/// Splits a blob of zero-terminated strings into its strings.
pub fn split_segments(b: &[u8]) -> (r: Vec<Vec<u8>>)
    ensures
        r@.map_values(|s: Vec<u8>| s@) == segments(b@),
{
    let mut end: usize = b.len();
    assert(b@.take(end as int) =~= b@);
    while end > 0 && b[end - 1] == 0
        invariant
            end <= b@.len(),
            trimmed_len(b@) == trimmed_len(b@.take(end as int)),
        decreases end,
    {
        assert(b@.take(end as int).drop_last() =~= b@.take(end - 1));
        end = end - 1;
    }
    let ghost t = b@.take(end as int);
    let mut out: Vec<Vec<u8>> = Vec::new();
    if end == 0 {
        assert(out@.map_values(|s: Vec<u8>| s@) =~= segments(b@));
        return out;
    }
    assert(trimmed_len(t) == end);
    let mut start: usize = 0;
    let mut i: usize = 0;
    assert(t.skip(0) =~= t);
    while i < end
        invariant
            end <= b@.len(),
            t == b@.take(end as int),
            start <= i <= end,
            forall|j: int| start <= j < i ==> t[j] != 0,
            out@.map_values(|s: Vec<u8>| s@) + split_zero(t.skip(start as int)) == split_zero(t),
        decreases end - i,
    {
        if b[i] == 0 {
            let piece = slice_to_vec(slice_subrange(b, start, i));
            proof {
                let rest = t.skip(start as int);
                lemma_zero_free_len(rest, i - start);
                assert(rest.take(i - start) =~= piece@);
                assert(rest.skip(i - start + 1) =~= t.skip(i + 1));
            }
            let ghost before = out@;
            out.push(piece);
            assert(out@.map_values(|s: Vec<u8>| s@) =~= before.map_values(|s: Vec<u8>| s@).push(
                piece@,
            ));
            start = i + 1;
        }
        i = i + 1;
    }
    let piece = slice_to_vec(slice_subrange(b, start, end));
    proof {
        let rest = t.skip(start as int);
        lemma_zero_free_len(rest, end - start);
        assert(rest =~= piece@);
    }
    let ghost before = out@;
    out.push(piece);
    assert(out@.map_values(|s: Vec<u8>| s@) =~= before.map_values(|s: Vec<u8>| s@).push(piece@));
    out
}

/// Why a single property could not be decoded.
#[derive(Clone, Copy, Debug, PartialEq, Eq, Structural)]
pub enum DecodeError {
    /// The native accessor reported a negative count.
    NativeCallFailed,
    /// A string was not valid UTF-8.
    Encoding,
}

/// Splits a blob of zero-terminated strings and decodes each one as UTF-8.
pub fn decode_strings(b: &[u8]) -> (r: Result<Vec<String>, DecodeError>)
    ensures
        r is Ok <==> all_utf8(segments(b@)),
        r is Ok ==> r->Ok_0@.map_values(|s: String| s@) == decode_all(segments(b@)),
        r is Err ==> r->Err_0 == DecodeError::Encoding,
{
    let segs = split_segments(b);
    let ghost sv = segs@.map_values(|s: Vec<u8>| s@);
    let mut out: Vec<String> = Vec::new();
    let mut i: usize = 0;
    while i < segs.len()
        invariant
            i <= segs@.len(),
            sv == segments(b@),
            sv == segs@.map_values(|s: Vec<u8>| s@),
            forall|j: int| 0 <= j < i ==> valid_utf8(#[trigger] sv[j]),
            out@.map_values(|s: String| s@) == decode_all(sv).take(i as int),
        decreases segs@.len() - i,
    {
        assert(sv[i as int] == segs@[i as int]@);
        match text_from_utf8(segs[i].as_slice()) {
            Some(s) => {
                let ghost before = out@;
                assert(s@ == decode_all(sv)[i as int]);
                out.push(s);
                assert(out@.map_values(|s: String| s@) =~= before.map_values(|s: String| s@).push(
                    s@,
                ));
                assert(decode_all(sv).take(i + 1) =~= decode_all(sv).take(i as int).push(
                    decode_all(sv)[i as int],
                ));
            },
            None => {
                assert(!valid_utf8(sv[i as int]));
                return Err(DecodeError::Encoding);
            },
        }
        i = i + 1;
    }
    assert(decode_all(sv).take(i as int) =~= decode_all(sv));
    Ok(out)
}

/// A property's payload as the native accessor for its type tag gave it.
pub enum RawPayload {
    /// A Boolean property: its presence is its value.
    Flag,
    /// 32-bit integers, with the count that the accessor returned.
    Ints { count: i32, data: Vec<i32> },
    /// 64-bit integers, with the count that the accessor returned.
    Int64s { count: i32, data: Vec<i64> },
    /// A blob of zero-terminated strings, with the count that the accessor
    /// returned.
    Text { count: i32, data: Vec<u8> },
    /// A byte, unknown or reserved type: it has no typed value.
    Other,
}

/// The decoded value of a payload: `None` for types that have no typed value.
pub open spec fn decode_spec(p: RawPayload) -> Result<Option<PropModel>, DecodeError> {
    match p {
        RawPayload::Flag => Ok(Some(PropModel::Boolean(true))),
        RawPayload::Ints { count, data } => if count < 0 {
            Err(DecodeError::NativeCallFailed)
        } else {
            Ok(Some(PropModel::Ints(data@)))
        },
        RawPayload::Int64s { count, data } => if count < 0 {
            Err(DecodeError::NativeCallFailed)
        } else {
            Ok(Some(PropModel::Int64s(data@)))
        },
        RawPayload::Text { count, data } => if count < 0 {
            Err(DecodeError::NativeCallFailed)
        } else if !all_utf8(segments(data@)) {
            Err(DecodeError::Encoding)
        } else {
            Ok(Some(PropModel::Strings(decode_all(segments(data@)))))
        },
        RawPayload::Other => Ok(None),
    }
}

pub open spec fn decoded_view(r: Result<Option<DiPropValue>, DecodeError>) -> Result<
    Option<PropModel>,
    DecodeError,
> {
    match r {
        Ok(Some(v)) => Ok(Some(v@)),
        Ok(None) => Ok(None),
        Err(e) => Err(e),
    }
}

/// Decodes one property payload.
pub fn decode_property(p: RawPayload) -> (r: Result<Option<DiPropValue>, DecodeError>)
    ensures
        decoded_view(r) == decode_spec(p),
{
    match p {
        RawPayload::Flag => Ok(Some(DiPropValue::Boolean(true))),
        RawPayload::Ints { count, data } => {
            if count < 0 {
                Err(DecodeError::NativeCallFailed)
            } else {
                Ok(Some(DiPropValue::Ints(data)))
            }
        },
        RawPayload::Int64s { count, data } => {
            if count < 0 {
                Err(DecodeError::NativeCallFailed)
            } else {
                Ok(Some(DiPropValue::Int64s(data)))
            }
        },
        RawPayload::Text { count, data } => {
            if count < 0 {
                Err(DecodeError::NativeCallFailed)
            } else {
                match decode_strings(data.as_slice()) {
                    Ok(v) => Ok(Some(DiPropValue::Strings(v))),
                    Err(e) => Err(e),
                }
            }
        },
        RawPayload::Other => Ok(None),
    }
}

/// No payload decodes to a false Boolean: a Boolean property's presence is
/// its value.
pub proof fn lemma_no_false_boolean(p: RawPayload)
    ensures
        decode_spec(p) != Ok::<Option<PropModel>, DecodeError>(Some(PropModel::Boolean(false))),
{
}

proof fn lemma_trimmed_len_le(b: Seq<u8>)
    ensures
        trimmed_len(b) <= b.len(),
        trimmed_len(b) > 0 ==> b[trimmed_len(b) - 1] != 0,
    decreases b.len(),
{
    if b.len() > 0 && b.last() == 0 {
        lemma_trimmed_len_le(b.drop_last());
    }
}

proof fn lemma_split_zero_last_nonempty(t: Seq<u8>)
    requires
        t.len() > 0,
        t.last() != 0,
    ensures
        split_zero(t).len() > 0,
        split_zero(t).last().len() > 0,
    decreases t.len(),
{
    let k = zero_free_len(t);
    if k < t.len() {
        let rest = t.skip(k + 1 as int);
        assert(rest.len() > 0) by {
            if rest.len() == 0 {
                lemma_zero_free_is_zero(t);
            }
        }
        assert(rest.last() == t.last());
        lemma_split_zero_last_nonempty(rest);
    }
}

proof fn lemma_zero_free_is_zero(b: Seq<u8>)
    ensures
        zero_free_len(b) <= b.len(),
        zero_free_len(b) < b.len() ==> b[zero_free_len(b) as int] == 0,
    decreases b.len(),
{
    if b.len() > 0 && b[0] != 0 {
        lemma_zero_free_is_zero(b.drop_first());
    }
}

/// An extra terminator after the last string changes nothing, and the last
/// string of a blob is never empty.
pub proof fn lemma_trailing_terminator(b: Seq<u8>)
    ensures
        segments(b.push(0)) == segments(b),
        segments(b).len() > 0 ==> segments(b).last().len() > 0,
{
    let bz = b.push(0);
    assert(bz.drop_last() =~= b);
    lemma_trimmed_len_le(b);
    assert(trimmed_len(bz) == trimmed_len(b));
    assert(bz.take(trimmed_len(b) as int) =~= b.take(trimmed_len(b) as int));
    let t = b.take(trimmed_len(b) as int);
    if t.len() > 0 {
        lemma_split_zero_last_nonempty(t);
    }
}

} // verus!
