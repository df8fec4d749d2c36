//! The binary form of an entry payload: the bytes stored inside one log
//! frame, after decryption, spell one dynamic [`Value`].
//!
//! Layout, all lengths little-endian: tag `0` is null; `1` and `2` are the
//! booleans false and true; `3` is a number as eight bytes of IEEE-754
//! bits; `4` is a string as a `u32` byte length followed by that many
//! UTF-8 bytes; `5` is a sequence as a `u32` element count followed by
//! that many values; `6` is a mapping as a `u32` entry count followed by
//! that many key strings (`u32` length plus UTF-8 bytes), each with its
//! value. A payload is exactly one value with nothing trailing.
//!
//! Parsing never allocates ahead of the bytes actually present beyond
//! [`crate::codec::MAX_ALLOC`] slots, however large a count the payload
//! claims.

use vstd::prelude::*;

use crate::DecodeError;
use crate::codec::MAX_ALLOC;
use crate::codec::Value;
use crate::codec::ValueModel;
use crate::codec::host_model;
use crate::codec::host_models;
use crate::codec::host_entry_models;
use crate::codec::group_codec_models;
use vstd::utf8::valid_utf8;
use vstd::utf8::decode_utf8;

verus! {

broadcast use vstd::std_specs::vec::group_vec_axioms;

/// A 32-bit little-endian length field.
pub open spec fn le32(b0: u8, b1: u8, b2: u8, b3: u8) -> u32 {
    (b0 as u32) | ((b1 as u32) << 8) | ((b2 as u32) << 16) | ((b3 as u32) << 24)
}

/// A 64-bit little-endian number field.
pub open spec fn le64(b: Seq<u8>, pos: int) -> u64 {
    (b[pos] as u64) | ((b[pos + 1] as u64) << 8) | ((b[pos + 2] as u64) << 16) | ((b[pos + 3]
        as u64) << 24) | ((b[pos + 4] as u64) << 32) | ((b[pos + 5] as u64) << 40) | ((b[pos + 6]
        as u64) << 48) | ((b[pos + 7] as u64) << 56)
}

/// What parsing one value at `pos` must produce: the value and the
/// position just past it, or the malformed-payload rejection.
pub open spec fn spec_parse_value(b: Seq<u8>, pos: nat) -> Result<
    (ValueModel, nat),
    DecodeError,
>
    decreases b.len() - pos, 1nat,
{
    if pos >= b.len() {
        Err(DecodeError::MalformedPayload)
    } else if b[pos as int] == 0 {
        Ok((ValueModel::Null, (pos + 1) as nat))
    } else if b[pos as int] == 1 {
        Ok((ValueModel::Bool(false), (pos + 1) as nat))
    } else if b[pos as int] == 2 {
        Ok((ValueModel::Bool(true), (pos + 1) as nat))
    } else if b[pos as int] == 3 {
        if pos + 9 <= b.len() {
            Ok((ValueModel::Num(le64(b, pos as int + 1)), (pos + 9) as nat))
        } else {
            Err(DecodeError::MalformedPayload)
        }
    } else if b[pos as int] == 4 {
        match spec_parse_string(b, (pos + 1) as nat) {
            Ok((s, p)) => Ok((ValueModel::Str(s), p)),
            Err(e) => Err(e),
        }
    } else if b[pos as int] == 5 {
        if pos + 5 <= b.len() {
            let count = le32(
                b[pos as int + 1],
                b[pos as int + 2],
                b[pos as int + 3],
                b[pos as int + 4],
            );
            match spec_parse_list(b, (pos + 5) as nat, count as nat) {
                Ok((elems, p)) => Ok((ValueModel::Arr(count as u64, elems), p)),
                Err(e) => Err(e),
            }
        } else {
            Err(DecodeError::MalformedPayload)
        }
    } else if b[pos as int] == 6 {
        if pos + 5 <= b.len() {
            let count = le32(
                b[pos as int + 1],
                b[pos as int + 2],
                b[pos as int + 3],
                b[pos as int + 4],
            );
            match spec_parse_entries(b, (pos + 5) as nat, count as nat) {
                Ok((entries, p)) => Ok((ValueModel::Obj(count as u64, entries), p)),
                Err(e) => Err(e),
            }
        } else {
            Err(DecodeError::MalformedPayload)
        }
    } else {
        Err(DecodeError::MalformedPayload)
    }
}

/// A length-prefixed UTF-8 string field at `pos`.
pub open spec fn spec_parse_string(b: Seq<u8>, pos: nat) -> Result<(Seq<char>, nat), DecodeError> {
    if pos + 4 <= b.len() {
        let n = le32(b[pos as int], b[pos as int + 1], b[pos as int + 2], b[pos as int + 3]);
        if pos + 4 + n <= b.len() {
            let raw = b.subrange(pos as int + 4, pos as int + 4 + n);
            if valid_utf8(raw) {
                Ok((decode_utf8(raw), (pos + 4 + n) as nat))
            } else {
                Err(DecodeError::MalformedPayload)
            }
        } else {
            Err(DecodeError::MalformedPayload)
        }
    } else {
        Err(DecodeError::MalformedPayload)
    }
}

/// `count` consecutive values starting at `pos`.
pub open spec fn spec_parse_list(b: Seq<u8>, pos: nat, count: nat) -> Result<
    (Seq<ValueModel>, nat),
    DecodeError,
>
    decreases b.len() - pos, 2nat, count,
{
    if count == 0 {
        Ok((Seq::empty(), pos))
    } else if pos >= b.len() {
        Err(DecodeError::MalformedPayload)
    } else {
        match spec_parse_value(b, pos) {
            Err(e) => Err(e),
            Ok((v, p)) => {
                let p2: nat = if p <= pos {
                    pos + 1
                } else if p > b.len() {
                    b.len()
                } else {
                    p
                };
                match spec_parse_list(b, p2, (count - 1) as nat) {
                    Err(e) => Err(e),
                    Ok((rest, pend)) => Ok((seq![v] + rest, pend)),
                }
            },
        }
    }
}

/// `count` consecutive key-value pairs starting at `pos`.
pub open spec fn spec_parse_entries(b: Seq<u8>, pos: nat, count: nat) -> Result<
    (Seq<(Seq<char>, ValueModel)>, nat),
    DecodeError,
>
    decreases b.len() - pos, 2nat, count,
{
    if count == 0 {
        Ok((Seq::empty(), pos))
    } else if pos >= b.len() {
        Err(DecodeError::MalformedPayload)
    } else {
        match spec_parse_string(b, pos) {
            Err(e) => Err(e),
            Ok((key, kp)) => {
                let kp2: nat = if kp <= pos {
                    pos + 1
                } else if kp > b.len() {
                    b.len()
                } else {
                    kp
                };
                match spec_parse_value(b, kp2) {
                    Err(e) => Err(e),
                    Ok((v, p)) => {
                        let p2: nat = if p <= pos {
                            pos + 1
                        } else if p > b.len() {
                            b.len()
                        } else {
                            p
                        };
                        match spec_parse_entries(b, p2, (count - 1) as nat) {
                            Err(e) => Err(e),
                            Ok((rest, pend)) => Ok((seq![(key, v)] + rest, pend)),
                        }
                    },
                }
            },
        }
    }
}

/// What parsing a whole payload must produce: exactly one value spanning
/// all of the bytes.
pub open spec fn spec_parse_payload(b: Seq<u8>) -> Result<ValueModel, DecodeError> {
    match spec_parse_value(b, 0) {
        Err(e) => Err(e),
        Ok((v, p)) => if p == b.len() {
            Ok(v)
        } else {
            Err(DecodeError::MalformedPayload)
        },
    }
}

/// The parsed view of a payload result.
pub open spec fn parse_result_model(r: Result<Value, DecodeError>) -> Result<
    ValueModel,
    DecodeError,
> {
    match r {
        Ok(v) => Ok(v@),
        Err(e) => Err(e),
    }
}

/// Relies on `String::from_utf8`: it succeeds exactly on valid UTF-8 and
/// returns the string those bytes encode.
#[verifier::external_body]
fn string_from_utf8(v: Vec<u8>) -> (r: Option<String>)
    ensures
        r is Some <==> valid_utf8(v@),
        r matches Some(s) ==> s@ == decode_utf8(v@),
{
    match String::from_utf8(v) {
        Ok(s) => Some(s),
        Err(_) => None,
    }
}

/// The bytes of `b` from `start` to `end`, as their own vector.
pub(crate) fn copy_range(b: &Vec<u8>, start: usize, end: usize) -> (out: Vec<u8>)
    requires
        start <= end <= b.len(),
    ensures
        out@ == b@.subrange(start as int, end as int),
{
    let mut out: Vec<u8> = Vec::with_capacity(end - start);
    let mut i: usize = start;
    while i < end
        invariant
            start <= i <= end <= b.len(),
            out@ == b@.subrange(start as int, i as int),
        decreases end - i,
    {
        out.push(b[i]);
        proof {
            assert(b@.subrange(start as int, i as int).push(b@[i as int]) =~= b@.subrange(
                start as int,
                i as int + 1,
            ));
        }
        i = i + 1;
    }
    out
}

/// Reads one length-prefixed UTF-8 string field.
fn parse_string(b: &Vec<u8>, pos: usize) -> (r: Result<(String, usize), DecodeError>)
    ensures
        r matches Ok(sp) ==> spec_parse_string(b@, pos as nat) == Ok::<_, DecodeError>(
            (sp.0@, sp.1 as nat),
        ) && pos < sp.1 <= b.len(),
        r matches Err(e) ==> spec_parse_string(b@, pos as nat) == Err::<(Seq<char>, nat), _>(e),
{
    if pos >= b.len() || b.len() - pos < 4 {
        return Err(DecodeError::MalformedPayload);
    }
    let n: u32 = (b[pos] as u32) | ((b[pos + 1] as u32) << 8) | ((b[pos + 2] as u32) << 16) | ((b[
        pos + 3] as u32) << 24);
    let nn: usize = n as usize;
    if b.len() - (pos + 4) < nn {
        return Err(DecodeError::MalformedPayload);
    }
    let raw = copy_range(b, pos + 4, pos + 4 + nn);
    match string_from_utf8(raw) {
        Some(s) => Ok((s, pos + 4 + nn)),
        None => Err(DecodeError::MalformedPayload),
    }
}

/// Reads one value, returning it with the position just past it. The
/// rejection is exactly [`spec_parse_value`]'s: a truncated field, an
/// unknown tag, or an ill-formed string is `MalformedPayload`.
#[verifier::loop_isolation(false)]
#[verifier::rlimit(80)]
pub fn parse_value(b: &Vec<u8>, pos: usize) -> (r: Result<(Value, usize), DecodeError>)
    ensures
        r matches Ok(vp) ==> spec_parse_value(b@, pos as nat) == Ok::<_, DecodeError>(
            (vp.0@, vp.1 as nat),
        ) && pos < vp.1 <= b.len(),
        r matches Err(e) ==> spec_parse_value(b@, pos as nat) == Err::<(ValueModel, nat), _>(e),
    decreases b.len() - pos,
{
    broadcast use group_codec_models;

    if pos >= b.len() {
        return Err(DecodeError::MalformedPayload);
    }
    let tag: u8 = b[pos];
    if tag == 0 {
        Ok((Value::Null, pos + 1))
    } else if tag == 1 {
        Ok((Value::Boolean(false), pos + 1))
    } else if tag == 2 {
        Ok((Value::Boolean(true), pos + 1))
    } else if tag == 3 {
        if b.len() - pos < 9 {
            return Err(DecodeError::MalformedPayload);
        }
        let bits: u64 = (b[pos + 1] as u64) | ((b[pos + 2] as u64) << 8) | ((b[pos + 3]
            as u64) << 16) | ((b[pos + 4] as u64) << 24) | ((b[pos + 5] as u64) << 32) | ((b[pos
            + 6] as u64) << 40) | ((b[pos + 7] as u64) << 48) | ((b[pos + 8] as u64) << 56);
        Ok((Value::Number(bits), pos + 9))
    } else if tag == 4 {
        match parse_string(b, pos + 1) {
            Ok((s, p)) => Ok((Value::Str(s), p)),
            Err(e) => Err(e),
        }
    } else if tag == 5 {
        if b.len() - pos < 5 {
            return Err(DecodeError::MalformedPayload);
        }
        let count: u32 = (b[pos + 1] as u32) | ((b[pos + 2] as u32) << 8) | ((b[pos + 3]
            as u32) << 16) | ((b[pos + 4] as u32) << 24);
        let total: usize = count as usize;
        let cap: usize = if total < MAX_ALLOC {
            total
        } else {
            MAX_ALLOC
        };
        let mut elems: Vec<Value> = Vec::with_capacity(cap);
        let mut k: usize = 0;
        let mut cur: usize = pos + 5;
        proof {
            assert(host_models(elems@) =~= Seq::<ValueModel>::empty());
        }
        while k < total
            invariant
                0 <= k <= total,
                pos + 5 <= cur <= b.len() || (k == 0 && cur == pos + 5),
                cur <= b.len() || k == 0,
                elems@.len() == k as int,
                spec_parse_list(b@, cur as nat, (total - k) as nat) matches Ok(rp)
                    ==> spec_parse_list(b@, (pos + 5) as nat, total as nat) == Ok::<
                    _,
                    DecodeError,
                >((host_models(elems@) + rp.0, rp.1)),
                spec_parse_list(b@, cur as nat, (total - k) as nat) matches Err(e)
                    ==> spec_parse_list(b@, (pos + 5) as nat, total as nat) == Err::<
                    (Seq<ValueModel>, nat),
                    _,
                >(e),
            decreases total - k,
        {
            match parse_value(b, cur) {
                Err(e) => {
                    return Err(e);
                },
                Ok((v, p)) => {
                    let ghost old_elems = elems@;
                    elems.push(v);
                    proof {
                        assert(host_models(elems@) =~= host_models(old_elems) + seq![
                            host_model(v),
                        ]);
                        let tail = spec_parse_list(b@, p as nat, (total - k - 1) as nat);
                        if tail is Ok {
                            assert((host_models(old_elems) + seq![host_model(v)]) + tail->Ok_0.0
                                =~= host_models(old_elems) + (seq![host_model(v)] + tail->Ok_0.0));
                        }
                    }
                    k = k + 1;
                    cur = p;
                },
            }
        }
        proof {
            assert(host_models(elems@) + Seq::<ValueModel>::empty() =~= host_models(elems@));
        }
        Ok((Value::Sequence(count as u64, elems), cur))
    } else if tag == 6 {
        if b.len() - pos < 5 {
            return Err(DecodeError::MalformedPayload);
        }
        let count: u32 = (b[pos + 1] as u32) | ((b[pos + 2] as u32) << 8) | ((b[pos + 3]
            as u32) << 16) | ((b[pos + 4] as u32) << 24);
        let total: usize = count as usize;
        let cap: usize = if total < MAX_ALLOC {
            total
        } else {
            MAX_ALLOC
        };
        let mut entries: Vec<(String, Value)> = Vec::with_capacity(cap);
        let mut k: usize = 0;
        let mut cur: usize = pos + 5;
        proof {
            assert(host_entry_models(entries@) =~= Seq::<(Seq<char>, ValueModel)>::empty());
        }
        while k < total
            invariant
                0 <= k <= total,
                pos + 5 <= cur,
                cur <= b.len() || k == 0,
                entries@.len() == k as int,
                spec_parse_entries(b@, cur as nat, (total - k) as nat) matches Ok(rp)
                    ==> spec_parse_entries(b@, (pos + 5) as nat, total as nat) == Ok::<
                    _,
                    DecodeError,
                >((host_entry_models(entries@) + rp.0, rp.1)),
                spec_parse_entries(b@, cur as nat, (total - k) as nat) matches Err(e)
                    ==> spec_parse_entries(b@, (pos + 5) as nat, total as nat) == Err::<
                    (Seq<(Seq<char>, ValueModel)>, nat),
                    _,
                >(e),
            decreases total - k,
        {
            if cur >= b.len() {
                return Err(DecodeError::MalformedPayload);
            }
            let key = match parse_string(b, cur) {
                Err(e) => {
                    return Err(e);
                },
                Ok(kp) => kp,
            };
            match parse_value(b, key.1) {
                Err(e) => {
                    return Err(e);
                },
                Ok((v, p)) => {
                    let ghost old_entries = entries@;
                    entries.push((key.0, v));
                    proof {
                        assert(host_entry_models(entries@) =~= host_entry_models(old_entries)
                            + seq![(key.0@, host_model(v))]);
                        let tail = spec_parse_entries(b@, p as nat, (total - k - 1) as nat);
                        if tail is Ok {
                            assert((host_entry_models(old_entries) + seq![
                                (key.0@, host_model(v)),
                            ]) + tail->Ok_0.0 =~= host_entry_models(old_entries) + (seq![
                                (key.0@, host_model(v)),
                            ] + tail->Ok_0.0));
                        }
                    }
                    k = k + 1;
                    cur = p;
                },
            }
        }
        proof {
            assert(host_entry_models(entries@) + Seq::<(Seq<char>, ValueModel)>::empty()
                =~= host_entry_models(entries@));
        }
        Ok((Value::Mapping(count as u64, entries), cur))
    } else {
        Err(DecodeError::MalformedPayload)
    }
}

/// Parses a whole entry payload: exactly one value spanning all of the
/// bytes; anything else is rejected as `MalformedPayload`.
pub fn parse_payload(b: &Vec<u8>) -> (r: Result<Value, DecodeError>)
    ensures
        parse_result_model(r) == spec_parse_payload(b@),
{
    match parse_value(b, 0) {
        Err(e) => Err(e),
        Ok((v, p)) => {
            if p == b.len() {
                Ok(v)
            } else {
                Err(DecodeError::MalformedPayload)
            }
        },
    }
}

} // verus!
