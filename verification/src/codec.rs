//! The legacy value codec: a bounded, strict bridge between dynamic
//! host-supplied values and the strongly typed legacy representation.
//!
//! Decoding enforces the legacy wire constraints: numbers must satisfy the
//! legacy float predicate, mappings must not repeat a key, and no collection
//! ever materialises more than [`MAX_ALLOC`] elements, however large a
//! length the host claims.

use vstd::prelude::*;

use crate::DecodeError;

verus! {

broadcast use vstd::std_specs::vec::group_vec_axioms;

/// The maximum number of entries the codec will ever materialise for one
/// array or object. Even if malicious input claims a much larger
/// collection, only this much memory is blindly allocated.
pub const MAX_ALLOC: usize = 2048;

/// A dynamic value as the embedding host supplies it: the raw, not yet
/// validated shape of an entry payload or of a query result.
///
/// Numbers carry the IEEE-754 bit pattern of a double, so that every
/// structural rule of the codec is a rule about plain integers.
/// Collections carry, next to their actual elements, the length the host
/// *claimed* for them; the claim is never trusted.
#[derive(Debug, PartialEq)]
pub enum Value {
    Null,
    Boolean(bool),
    /// IEEE-754 bit pattern of a double.
    Number(u64),
    Str(String),
    /// Claimed length, then the elements actually present.
    Sequence(u64, Vec<Value>),
    /// Claimed length, then the entries actually present.
    Mapping(u64, Vec<(String, Value)>),
    /// Any host kind the codec does not model.
    Other,
}

/// A strictly legacy-shaped value: numbers satisfy the legacy float
/// predicate, mapping keys are unique, and collections were materialised
/// under the allocation cap.
#[derive(Debug, PartialEq)]
pub enum LegacyValue {
    Null,
    Boolean(bool),
    /// IEEE-754 bit pattern of a double; always legacy-valid by
    /// construction.
    Number(u64),
    Str(String),
    Sequence(Vec<LegacyValue>),
    Mapping(Vec<(String, LegacyValue)>),
}

/// The mathematical shape of a [`Value`].
#[verifier::ext_equal]
pub enum ValueModel {
    Null,
    Bool(bool),
    Num(u64),
    Str(Seq<char>),
    Arr(u64, Seq<ValueModel>),
    Obj(u64, Seq<(Seq<char>, ValueModel)>),
    Other,
}

/// The mathematical shape of a [`LegacyValue`].
#[verifier::ext_equal]
pub enum LegacyModel {
    Null,
    Bool(bool),
    Num(u64),
    Str(Seq<char>),
    Arr(Seq<LegacyModel>),
    Obj(Seq<(Seq<char>, LegacyModel)>),
}

pub open spec fn host_model(v: Value) -> ValueModel
    decreases v,
{
    match v {
        Value::Null => ValueModel::Null,
        Value::Boolean(b) => ValueModel::Bool(b),
        Value::Number(n) => ValueModel::Num(n),
        Value::Str(s) => ValueModel::Str(s@),
        Value::Sequence(hint, elems) => ValueModel::Arr(hint, host_models(elems@)),
        Value::Mapping(hint, entries) => ValueModel::Obj(hint, host_entry_models(entries@)),
        Value::Other => ValueModel::Other,
    }
}

pub open spec fn host_models(s: Seq<Value>) -> Seq<ValueModel>
    decreases s,
{
    if s.len() == 0 {
        Seq::empty()
    } else {
        seq![host_model(s[0])] + host_models(s.drop_first())
    }
}

pub open spec fn host_entry_models(s: Seq<(String, Value)>) -> Seq<(Seq<char>, ValueModel)>
    decreases s,
{
    if s.len() == 0 {
        Seq::empty()
    } else {
        seq![(s[0].0@, host_model(s[0].1))] + host_entry_models(s.drop_first())
    }
}

pub open spec fn legacy_model(v: LegacyValue) -> LegacyModel
    decreases v,
{
    match v {
        LegacyValue::Null => LegacyModel::Null,
        LegacyValue::Boolean(b) => LegacyModel::Bool(b),
        LegacyValue::Number(n) => LegacyModel::Num(n),
        LegacyValue::Str(s) => LegacyModel::Str(s@),
        LegacyValue::Sequence(elems) => LegacyModel::Arr(legacy_models(elems@)),
        LegacyValue::Mapping(entries) => LegacyModel::Obj(legacy_entry_models(entries@)),
    }
}

pub open spec fn legacy_models(s: Seq<LegacyValue>) -> Seq<LegacyModel>
    decreases s,
{
    if s.len() == 0 {
        Seq::empty()
    } else {
        seq![legacy_model(s[0])] + legacy_models(s.drop_first())
    }
}

pub open spec fn legacy_entry_models(s: Seq<(String, LegacyValue)>) -> Seq<
    (Seq<char>, LegacyModel),
>
    decreases s,
{
    if s.len() == 0 {
        Seq::empty()
    } else {
        seq![(s[0].0@, legacy_model(s[0].1))] + legacy_entry_models(s.drop_first())
    }
}

/// Pointwise reading of [`host_models`].
pub broadcast proof fn host_models_pointwise(s: Seq<Value>)
    ensures
        (#[trigger] host_models(s)).len() == s.len(),
        forall|i: int| 0 <= i < s.len() ==> host_models(s)[i] == host_model(s[i]),
    decreases s,
{
    if s.len() != 0 {
        host_models_pointwise(s.drop_first());
        assert forall|i: int| 0 <= i < s.len() implies host_models(s)[i] == host_model(s[i]) by {
            if i > 0 {
                assert(host_models(s)[i] == host_models(s.drop_first())[i - 1]);
                assert(s.drop_first()[i - 1] == s[i]);
            }
        }
    }
}

/// Pointwise reading of [`host_entry_models`].
pub broadcast proof fn host_entry_models_pointwise(s: Seq<(String, Value)>)
    ensures
        (#[trigger] host_entry_models(s)).len() == s.len(),
        forall|i: int|
            0 <= i < s.len() ==> host_entry_models(s)[i] == (s[i].0@, host_model(s[i].1)),
    decreases s,
{
    if s.len() != 0 {
        host_entry_models_pointwise(s.drop_first());
        assert forall|i: int|
            0 <= i < s.len() implies host_entry_models(s)[i] == (
            s[i].0@,
            host_model(s[i].1),
        ) by {
            if i > 0 {
                assert(host_entry_models(s)[i] == host_entry_models(s.drop_first())[i - 1]);
                assert(s.drop_first()[i - 1] == s[i]);
            }
        }
    }
}

/// Pointwise reading of [`legacy_models`].
pub broadcast proof fn legacy_models_pointwise(s: Seq<LegacyValue>)
    ensures
        (#[trigger] legacy_models(s)).len() == s.len(),
        forall|i: int| 0 <= i < s.len() ==> legacy_models(s)[i] == legacy_model(s[i]),
    decreases s,
{
    if s.len() != 0 {
        legacy_models_pointwise(s.drop_first());
        assert forall|i: int|
            0 <= i < s.len() implies legacy_models(s)[i] == legacy_model(s[i]) by {
            if i > 0 {
                assert(legacy_models(s)[i] == legacy_models(s.drop_first())[i - 1]);
                assert(s.drop_first()[i - 1] == s[i]);
            }
        }
    }
}

/// Pointwise reading of [`legacy_entry_models`].
pub broadcast proof fn legacy_entry_models_pointwise(s: Seq<(String, LegacyValue)>)
    ensures
        (#[trigger] legacy_entry_models(s)).len() == s.len(),
        forall|i: int|
            0 <= i < s.len() ==> legacy_entry_models(s)[i] == (s[i].0@, legacy_model(s[i].1)),
    decreases s,
{
    if s.len() != 0 {
        legacy_entry_models_pointwise(s.drop_first());
        assert forall|i: int|
            0 <= i < s.len() implies legacy_entry_models(s)[i] == (
            s[i].0@,
            legacy_model(s[i].1),
        ) by {
            if i > 0 {
                assert(legacy_entry_models(s)[i] == legacy_entry_models(s.drop_first())[i - 1]);
                assert(s.drop_first()[i - 1] == s[i]);
            }
        }
    }
}

pub broadcast group group_codec_models {
    host_models_pointwise,
    host_entry_models_pointwise,
    legacy_models_pointwise,
    legacy_entry_models_pointwise,
}

impl View for Value {
    type V = ValueModel;

    open spec fn view(&self) -> ValueModel {
        host_model(*self)
    }
}

impl View for LegacyValue {
    type V = LegacyModel;

    open spec fn view(&self) -> LegacyModel {
        legacy_model(*self)
    }
}

/// The legacy float predicate over the IEEE-754 bit pattern of a double:
/// the exponent field must not be all ones (which rules out `NaN` and both
/// infinities), and the pattern must not be negative zero.
pub open spec fn legacy_number_ok(bits: u64) -> bool {
    ((bits >> 52) & 0x7ff) != 0x7ff && bits != 0x8000_0000_0000_0000u64
}

/// Decides the legacy float predicate for a double given by its bit
/// pattern.
pub fn number_is_legacy(bits: u64) -> (r: bool)
    ensures
        r == legacy_number_ok(bits),
{
    ((bits >> 52) & 0x7ff) != 0x7ff && bits != 0x8000_0000_0000_0000u64
}

/// The keys of a modelled mapping, in entry order.
pub open spec fn keys_of(s: Seq<(Seq<char>, LegacyModel)>) -> Seq<Seq<char>> {
    s.map_values(|p: (Seq<char>, LegacyModel)| p.0)
}

/// What decoding a host value must produce: the first rejection in
/// depth-first entry order, or the fully validated legacy value.
pub open spec fn spec_decode(m: ValueModel) -> Result<LegacyModel, DecodeError>
    decreases m,
{
    match m {
        ValueModel::Null => Ok(LegacyModel::Null),
        ValueModel::Bool(b) => Ok(LegacyModel::Bool(b)),
        ValueModel::Num(bits) => if legacy_number_ok(bits) {
            Ok(LegacyModel::Num(bits))
        } else {
            Err(DecodeError::InvalidLegacyNumber)
        },
        ValueModel::Str(s) => Ok(LegacyModel::Str(s)),
        ValueModel::Arr(_, elems) => match spec_decode_list(elems, MAX_ALLOC as nat) {
            Ok(l) => Ok(LegacyModel::Arr(l)),
            Err(e) => Err(e),
        },
        ValueModel::Obj(_, entries) => match spec_decode_entries(
            entries,
            MAX_ALLOC as nat,
            Seq::empty(),
        ) {
            Ok(l) => Ok(LegacyModel::Obj(l)),
            Err(e) => Err(e),
        },
        ValueModel::Other => Ok(LegacyModel::Null),
    }
}

/// Decoding of the elements of a sequence, left to right, with `budget`
/// elements still admitted before the allocation cap strikes.
pub open spec fn spec_decode_list(s: Seq<ValueModel>, budget: nat) -> Result<
    Seq<LegacyModel>,
    DecodeError,
>
    decreases s,
{
    if s.len() == 0 {
        Ok(Seq::empty())
    } else if budget == 0 {
        Err(DecodeError::AllocationCapExceeded)
    } else {
        match spec_decode(s[0]) {
            Err(e) => Err(e),
            Ok(x) => match spec_decode_list(s.drop_first(), (budget - 1) as nat) {
                Err(e) => Err(e),
                Ok(rest) => Ok(seq![x] + rest),
            },
        }
    }
}

/// Decoding of the entries of a mapping, left to right; `seen` holds the
/// keys already accepted, and meeting one of them again is the duplicate
/// key rejection.
pub open spec fn spec_decode_entries(
    s: Seq<(Seq<char>, ValueModel)>,
    budget: nat,
    seen: Seq<Seq<char>>,
) -> Result<Seq<(Seq<char>, LegacyModel)>, DecodeError>
    decreases s,
{
    if s.len() == 0 {
        Ok(Seq::empty())
    } else if budget == 0 {
        Err(DecodeError::AllocationCapExceeded)
    } else {
        match spec_decode(s[0].1) {
            Err(e) => Err(e),
            Ok(x) => if seen.contains(s[0].0) {
                Err(DecodeError::DuplicateKey)
            } else {
                match spec_decode_entries(s.drop_first(), (budget - 1) as nat, seen.push(s[0].0)) {
                    Err(e) => Err(e),
                    Ok(rest) => Ok(seq![(s[0].0, x)] + rest),
                }
            },
        }
    }
}

/// The decoded view of a decode result.
pub open spec fn decode_result_model(r: Result<LegacyValue, DecodeError>) -> Result<
    LegacyModel,
    DecodeError,
> {
    match r {
        Ok(l) => Ok(l@),
        Err(e) => Err(e),
    }
}

/// Whether a mapping under construction already holds `key`.
fn mapping_has_key(entries: &Vec<(String, LegacyValue)>, key: &String) -> (r: bool)
    ensures
        r == keys_of(legacy_entry_models(entries@)).contains(key@),
{
    broadcast use group_codec_models;

    let mut i: usize = 0;
    let mut found: bool = false;
    while i < entries.len()
        invariant
            0 <= i <= entries.len(),
            found == exists|j: int| 0 <= j < i && entries@[j].0@ == key@,
        decreases entries.len() - i,
    {
        if entries[i].0 == *key {
            found = true;
            proof {
                assert(entries@[i as int].0@ == key@);
            }
        }
        i = i + 1;
    }
    proof {
        let ks = keys_of(legacy_entry_models(entries@));
        assert(ks.len() == entries@.len());
        assert forall|j: int| 0 <= j < entries@.len() implies ks[j] == entries@[j].0@ by {
            assert(legacy_entry_models(entries@)[j] == (
                entries@[j].0@,
                legacy_model(entries@[j].1),
            ));
        }
        if found {
            let j = choose|j: int| 0 <= j < entries@.len() && entries@[j].0@ == key@;
            assert(ks[j] == key@);
        }
        if ks.contains(key@) {
            let j = choose|j: int| 0 <= j < ks.len() && ks[j] == key@;
            assert(entries@[j].0@ == key@);
        }
    }
    found
}

/// Converts one host value into its legacy representation, or rejects it:
/// a number failing the legacy float predicate is `InvalidLegacyNumber`, a
/// repeated mapping key is `DuplicateKey`, and a collection with more than
/// [`MAX_ALLOC`] actual elements is `AllocationCapExceeded` — whatever
/// length the host claimed, no more than `min(claimed, MAX_ALLOC)` slots
/// are ever allocated ahead of the elements actually present.
#[verifier::loop_isolation(false)]
pub fn decode_value(v: &Value) -> (r: Result<LegacyValue, DecodeError>)
    ensures
        decode_result_model(r) == spec_decode(v@),
    decreases *v,
{
    broadcast use group_codec_models;

    match v {
        Value::Null => Ok(LegacyValue::Null),
        Value::Boolean(b) => Ok(LegacyValue::Boolean(*b)),
        Value::Number(bits) => {
            if number_is_legacy(*bits) {
                Ok(LegacyValue::Number(*bits))
            } else {
                Err(DecodeError::InvalidLegacyNumber)
            }
        },
        Value::Str(s) => Ok(LegacyValue::Str(s.clone())),
        Value::Sequence(hint, elems) => {
            let ghost s: Seq<ValueModel> = host_models(elems@);
            let cap: usize = if *hint < (MAX_ALLOC as u64) {
                *hint as usize
            } else {
                MAX_ALLOC
            };
            let mut out: Vec<LegacyValue> = Vec::with_capacity(cap);
            let mut i: usize = 0;
            proof {
                assert(s.skip(0) =~= s);
                assert(legacy_models(out@) =~= Seq::<LegacyModel>::empty());
                if spec_decode_list(s, MAX_ALLOC as nat) is Ok {
                    assert(Seq::<LegacyModel>::empty() + spec_decode_list(s, MAX_ALLOC as nat)->Ok_0
                        =~= spec_decode_list(s, MAX_ALLOC as nat)->Ok_0);
                }
            }
            while i < elems.len()
                invariant
                    0 <= i <= elems.len(),
                    i <= MAX_ALLOC,
                    out@.len() == i as int,
                    s == host_models(elems@),
                    spec_decode_list(s.skip(i as int), (MAX_ALLOC - i) as nat) is Ok
                        ==> spec_decode_list(s, MAX_ALLOC as nat) == Ok::<_, DecodeError>(
                        legacy_models(out@) + spec_decode_list(
                            s.skip(i as int),
                            (MAX_ALLOC - i) as nat,
                        )->Ok_0,
                    ),
                    spec_decode_list(s.skip(i as int), (MAX_ALLOC - i) as nat) is Err
                        ==> spec_decode_list(s, MAX_ALLOC as nat) == Err::<Seq<LegacyModel>, _>(
                        spec_decode_list(s.skip(i as int), (MAX_ALLOC - i) as nat)->Err_0,
                    ),
                decreases elems.len() - i,
            {
                proof {
                    assert(s.skip(i as int).len() > 0);
                    assert(s.skip(i as int)[0] == host_model(elems@[i as int]));
                    assert(*elems == v->Sequence_1);
                    assert(decreases_to!(*v => v->Sequence_1));
                    assert(decreases_to!(v->Sequence_1 => v->Sequence_1[i as int]));
                    assert(decreases_to!(*v => elems[i as int]));
                }
                if i == MAX_ALLOC {
                    return Err(DecodeError::AllocationCapExceeded);
                }
                match decode_value(&elems[i]) {
                    Err(e) => {
                        return Err(e);
                    },
                    Ok(x) => {
                        proof {
                            assert(s.skip(i as int).drop_first() =~= s.skip(i as int + 1));
                        }
                        let ghost old_out = out@;
                        out.push(x);
                        proof {
                            assert(legacy_models(out@) =~= legacy_models(old_out) + seq![
                                legacy_model(x),
                            ]);
                            let tail = spec_decode_list(
                                s.skip(i as int + 1),
                                (MAX_ALLOC - i - 1) as nat,
                            );
                            if tail is Ok {
                                assert((legacy_models(old_out) + seq![legacy_model(x)])
                                    + tail->Ok_0 =~= legacy_models(old_out) + (seq![
                                    legacy_model(x),
                                ] + tail->Ok_0));
                            }
                        }
                        i = i + 1;
                    },
                }
            }
            proof {
                assert(s.skip(i as int) =~= Seq::<ValueModel>::empty());
                assert(legacy_models(out@) + Seq::<LegacyModel>::empty() =~= legacy_models(out@));
            }
            Ok(LegacyValue::Sequence(out))
        },
        Value::Mapping(hint, entries) => {
            let ghost s: Seq<(Seq<char>, ValueModel)> = host_entry_models(entries@);
            let cap: usize = if *hint < (MAX_ALLOC as u64) {
                *hint as usize
            } else {
                MAX_ALLOC
            };
            let mut out: Vec<(String, LegacyValue)> = Vec::with_capacity(cap);
            let mut i: usize = 0;
            proof {
                assert(s.skip(0) =~= s);
                assert(legacy_entry_models(out@) =~= Seq::<(Seq<char>, LegacyModel)>::empty());
                assert(keys_of(legacy_entry_models(out@)) =~= Seq::<Seq<char>>::empty());
                if spec_decode_entries(s, MAX_ALLOC as nat, Seq::empty()) is Ok {
                    assert(Seq::<(Seq<char>, LegacyModel)>::empty() + spec_decode_entries(
                        s,
                        MAX_ALLOC as nat,
                        Seq::empty(),
                    )->Ok_0 =~= spec_decode_entries(s, MAX_ALLOC as nat, Seq::empty())->Ok_0);
                }
            }
            while i < entries.len()
                invariant
                    0 <= i <= entries.len(),
                    i <= MAX_ALLOC,
                    out@.len() == i as int,
                    s == host_entry_models(entries@),
                    spec_decode_entries(
                        s.skip(i as int),
                        (MAX_ALLOC - i) as nat,
                        keys_of(legacy_entry_models(out@)),
                    ) is Ok ==> spec_decode_entries(s, MAX_ALLOC as nat, Seq::empty())
                        == Ok::<_, DecodeError>(
                        legacy_entry_models(out@) + spec_decode_entries(
                            s.skip(i as int),
                            (MAX_ALLOC - i) as nat,
                            keys_of(legacy_entry_models(out@)),
                        )->Ok_0,
                    ),
                    spec_decode_entries(
                        s.skip(i as int),
                        (MAX_ALLOC - i) as nat,
                        keys_of(legacy_entry_models(out@)),
                    ) is Err ==> spec_decode_entries(s, MAX_ALLOC as nat, Seq::empty()) == Err::<
                        Seq<(Seq<char>, LegacyModel)>,
                        _,
                    >(
                        spec_decode_entries(
                            s.skip(i as int),
                            (MAX_ALLOC - i) as nat,
                            keys_of(legacy_entry_models(out@)),
                        )->Err_0,
                    ),
                decreases entries.len() - i,
            {
                proof {
                    assert(s.skip(i as int).len() > 0);
                    assert(s.skip(i as int)[0] == (
                        entries@[i as int].0@,
                        host_model(entries@[i as int].1),
                    ));
                    assert(*entries == v->Mapping_1);
                    assert(decreases_to!(*v => v->Mapping_1));
                    assert(decreases_to!(v->Mapping_1 => v->Mapping_1[i as int]));
                    assert(decreases_to!(v->Mapping_1[i as int] => v->Mapping_1[i as int].1));
                    assert(decreases_to!(*v => entries[i as int].1));
                }
                if i == MAX_ALLOC {
                    return Err(DecodeError::AllocationCapExceeded);
                }
                match decode_value(&entries[i].1) {
                    Err(e) => {
                        return Err(e);
                    },
                    Ok(x) => {
                        if mapping_has_key(&out, &entries[i].0) {
                            return Err(DecodeError::DuplicateKey);
                        }
                        proof {
                            assert(s.skip(i as int).drop_first() =~= s.skip(i as int + 1));
                        }
                        let ghost old_out = out@;
                        let key: String = entries[i].0.clone();
                        out.push((key, x));
                        proof {
                            assert(legacy_entry_models(out@) =~= legacy_entry_models(old_out)
                                + seq![(entries@[i as int].0@, legacy_model(x))]);
                            assert(keys_of(legacy_entry_models(out@)) =~= keys_of(
                                legacy_entry_models(old_out),
                            ).push(entries@[i as int].0@));
                            let tail = spec_decode_entries(
                                s.skip(i as int + 1),
                                (MAX_ALLOC - i - 1) as nat,
                                keys_of(legacy_entry_models(out@)),
                            );
                            if tail is Ok {
                                assert((legacy_entry_models(old_out) + seq![
                                    (entries@[i as int].0@, legacy_model(x)),
                                ]) + tail->Ok_0 =~= legacy_entry_models(old_out) + (seq![
                                    (entries@[i as int].0@, legacy_model(x)),
                                ] + tail->Ok_0));
                            }
                        }
                        i = i + 1;
                    },
                }
            }
            proof {
                assert(s.skip(i as int) =~= Seq::<(Seq<char>, ValueModel)>::empty());
                assert(legacy_entry_models(out@) + Seq::<(Seq<char>, LegacyModel)>::empty()
                    =~= legacy_entry_models(out@));
            }
            Ok(LegacyValue::Mapping(out))
        },
        Value::Other => Ok(LegacyValue::Null),
    }
}

/// What encoding a legacy value back into a host value must produce: the
/// structural mirror of decoding, with each collection's claimed length
/// equal to its actual length.
pub open spec fn spec_encode(m: LegacyModel) -> ValueModel
    decreases m,
{
    match m {
        LegacyModel::Null => ValueModel::Null,
        LegacyModel::Bool(b) => ValueModel::Bool(b),
        LegacyModel::Num(bits) => ValueModel::Num(bits),
        LegacyModel::Str(s) => ValueModel::Str(s),
        LegacyModel::Arr(elems) => ValueModel::Arr(elems.len() as u64, spec_encode_list(elems)),
        LegacyModel::Obj(entries) => ValueModel::Obj(
            entries.len() as u64,
            spec_encode_entries(entries),
        ),
    }
}

pub open spec fn spec_encode_list(s: Seq<LegacyModel>) -> Seq<ValueModel>
    decreases s,
{
    if s.len() == 0 {
        Seq::empty()
    } else {
        seq![spec_encode(s[0])] + spec_encode_list(s.drop_first())
    }
}

pub open spec fn spec_encode_entries(s: Seq<(Seq<char>, LegacyModel)>) -> Seq<
    (Seq<char>, ValueModel),
>
    decreases s,
{
    if s.len() == 0 {
        Seq::empty()
    } else {
        seq![(s[0].0, spec_encode(s[0].1))] + spec_encode_entries(s.drop_first())
    }
}

/// Pointwise reading of [`spec_encode_list`].
pub broadcast proof fn spec_encode_list_pointwise(s: Seq<LegacyModel>)
    ensures
        (#[trigger] spec_encode_list(s)).len() == s.len(),
        forall|i: int| 0 <= i < s.len() ==> spec_encode_list(s)[i] == spec_encode(s[i]),
    decreases s,
{
    if s.len() != 0 {
        spec_encode_list_pointwise(s.drop_first());
        assert forall|i: int|
            0 <= i < s.len() implies spec_encode_list(s)[i] == spec_encode(s[i]) by {
            if i > 0 {
                assert(spec_encode_list(s)[i] == spec_encode_list(s.drop_first())[i - 1]);
                assert(s.drop_first()[i - 1] == s[i]);
            }
        }
    }
}

/// Pointwise reading of [`spec_encode_entries`].
pub broadcast proof fn spec_encode_entries_pointwise(s: Seq<(Seq<char>, LegacyModel)>)
    ensures
        (#[trigger] spec_encode_entries(s)).len() == s.len(),
        forall|i: int|
            0 <= i < s.len() ==> spec_encode_entries(s)[i] == (s[i].0, spec_encode(s[i].1)),
    decreases s,
{
    if s.len() != 0 {
        spec_encode_entries_pointwise(s.drop_first());
        assert forall|i: int|
            0 <= i < s.len() implies spec_encode_entries(s)[i] == (
            s[i].0,
            spec_encode(s[i].1),
        ) by {
            if i > 0 {
                assert(spec_encode_entries(s)[i] == spec_encode_entries(s.drop_first())[i - 1]);
                assert(s.drop_first()[i - 1] == s[i]);
            }
        }
    }
}

/// No two entries share a key.
pub open spec fn keys_unique(s: Seq<(Seq<char>, LegacyModel)>) -> bool {
    forall|i: int, j: int| 0 <= i < j < s.len() ==> s[i].0 != s[j].0
}

/// A legacy value as decoding alone can build it: every number passes the
/// legacy float predicate, every mapping has unique keys, and no
/// collection is longer than [`MAX_ALLOC`].
pub open spec fn legacy_wf(m: LegacyModel) -> bool
    decreases m,
{
    match m {
        LegacyModel::Null => true,
        LegacyModel::Bool(_) => true,
        LegacyModel::Num(bits) => legacy_number_ok(bits),
        LegacyModel::Str(_) => true,
        LegacyModel::Arr(elems) => elems.len() <= MAX_ALLOC && legacy_wf_list(elems),
        LegacyModel::Obj(entries) => entries.len() <= MAX_ALLOC && keys_unique(entries)
            && legacy_wf_entries(entries),
    }
}

pub open spec fn legacy_wf_list(s: Seq<LegacyModel>) -> bool
    decreases s,
{
    if s.len() == 0 {
        true
    } else {
        legacy_wf(s[0]) && legacy_wf_list(s.drop_first())
    }
}

pub open spec fn legacy_wf_entries(s: Seq<(Seq<char>, LegacyModel)>) -> bool
    decreases s,
{
    if s.len() == 0 {
        true
    } else {
        legacy_wf(s[0].1) && legacy_wf_entries(s.drop_first())
    }
}

/// Law: the codec never mutates a number's legacy-observable meaning. A
/// bit pattern passing the legacy float predicate decodes and re-encodes
/// bit for bit; any other pattern is rejected as `InvalidLegacyNumber`.
pub proof fn lemma_number_codec(bits: u64)
    ensures
        legacy_number_ok(bits) ==> spec_decode(ValueModel::Num(bits)) == Ok::<
            _,
            DecodeError,
        >(LegacyModel::Num(bits)) && spec_encode(LegacyModel::Num(bits)) == ValueModel::Num(bits),
        !legacy_number_ok(bits) ==> spec_decode(ValueModel::Num(bits)) == Err::<
            LegacyModel,
            _,
        >(DecodeError::InvalidLegacyNumber),
{
}

/// Law: round-tripping a well-formed legacy value through encode and then
/// decode reproduces it exactly.
pub proof fn lemma_encode_decode_roundtrip(m: LegacyModel)
    requires
        legacy_wf(m),
    ensures
        spec_decode(spec_encode(m)) == Ok::<_, DecodeError>(m),
    decreases m,
{
    match m {
        LegacyModel::Arr(elems) => {
            lemma_roundtrip_list(elems, MAX_ALLOC as nat);
        },
        LegacyModel::Obj(entries) => {
            lemma_roundtrip_entries(entries, MAX_ALLOC as nat, Seq::empty());
        },
        _ => {},
    }
}

proof fn lemma_roundtrip_list(s: Seq<LegacyModel>, budget: nat)
    requires
        legacy_wf_list(s),
        s.len() <= budget,
    ensures
        spec_decode_list(spec_encode_list(s), budget) == Ok::<_, DecodeError>(s),
    decreases s,
{
    if s.len() == 0 {
        assert(spec_encode_list(s).len() == 0);
        assert(Seq::<LegacyModel>::empty() =~= s);
    } else {
        lemma_encode_decode_roundtrip(s[0]);
        assert(spec_encode_list(s).drop_first() =~= spec_encode_list(s.drop_first()));
        lemma_roundtrip_list(s.drop_first(), (budget - 1) as nat);
        assert(spec_encode_list(s)[0] == spec_encode(s[0]));
        assert(seq![s[0]] + s.drop_first() =~= s);
    }
}

proof fn lemma_roundtrip_entries(s: Seq<(Seq<char>, LegacyModel)>, budget: nat, seen: Seq<Seq<char>>)
    requires
        legacy_wf_entries(s),
        keys_unique(s),
        s.len() <= budget,
        forall|i: int| 0 <= i < s.len() ==> !seen.contains(#[trigger] s[i].0),
    ensures
        spec_decode_entries(spec_encode_entries(s), budget, seen) == Ok::<_, DecodeError>(s),
    decreases s,
{
    if s.len() == 0 {
        assert(spec_encode_entries(s).len() == 0);
        assert(Seq::<(Seq<char>, LegacyModel)>::empty() =~= s);
    } else {
        lemma_encode_decode_roundtrip(s[0].1);
        assert(spec_encode_entries(s).drop_first() =~= spec_encode_entries(s.drop_first()));
        assert(spec_encode_entries(s)[0] == (s[0].0, spec_encode(s[0].1)));
        let seen2 = seen.push(s[0].0);
        assert forall|i: int| 0 <= i < s.drop_first().len() implies !seen2.contains(
            #[trigger] s.drop_first()[i].0,
        ) by {
            assert(s.drop_first()[i] == s[i + 1]);
            assert(s[i + 1].0 != s[0].0);
            if seen2.contains(s[i + 1].0) {
                let k = choose|k: int| 0 <= k < seen2.len() && seen2[k] == s[i + 1].0;
                if k < seen.len() {
                    assert(seen.contains(s[i + 1].0));
                }
            }
        }
        assert forall|i: int, j: int|
            0 <= i < j < s.drop_first().len() implies s.drop_first()[i].0
            != s.drop_first()[j].0 by {
            assert(s.drop_first()[i] == s[i + 1]);
            assert(s.drop_first()[j] == s[j + 1]);
        }
        lemma_roundtrip_entries(s.drop_first(), (budget - 1) as nat, seen2);
        assert(!seen.contains(s[0].0));
        assert(seq![s[0]] + s.drop_first() =~= s);
    }
}

/// Converts a legacy value back into the dynamic host representation: the
/// structural mirror of [`decode_value`], preserving element and key
/// order, with every number re-materialised from its stored bit pattern.
#[verifier::loop_isolation(false)]
pub fn encode_value(l: &LegacyValue) -> (v: Value)
    ensures
        v@ == spec_encode(l@),
    decreases *l,
{
    broadcast use group_codec_models;
    broadcast use spec_encode_list_pointwise, spec_encode_entries_pointwise;

    match l {
        LegacyValue::Null => Value::Null,
        LegacyValue::Boolean(b) => Value::Boolean(*b),
        LegacyValue::Number(bits) => Value::Number(*bits),
        LegacyValue::Str(s) => Value::Str(s.clone()),
        LegacyValue::Sequence(elems) => {
            let mut out: Vec<Value> = Vec::with_capacity(elems.len());
            let mut i: usize = 0;
            while i < elems.len()
                invariant
                    0 <= i <= elems.len(),
                    out@.len() == i as int,
                    forall|j: int| 0 <= j < i ==> host_model(out@[j]) == spec_encode(
                        legacy_model(#[trigger] elems@[j]),
                    ),
                decreases elems.len() - i,
            {
                proof {
                    assert(decreases_to!(*l => l->Sequence_0));
                    assert(decreases_to!(l->Sequence_0 => l->Sequence_0[i as int]));
                    assert(decreases_to!(*l => elems[i as int]));
                }
                let x = encode_value(&elems[i]);
                out.push(x);
                i = i + 1;
            }
            let res = Value::Sequence(elems.len() as u64, out);
            proof {
                assert(host_models(out@) =~= spec_encode_list(legacy_models(elems@)));
                assert(res@ =~= spec_encode(l@));
            }
            res
        },
        LegacyValue::Mapping(entries) => {
            let mut out: Vec<(String, Value)> = Vec::with_capacity(entries.len());
            let mut i: usize = 0;
            while i < entries.len()
                invariant
                    0 <= i <= entries.len(),
                    out@.len() == i as int,
                    forall|j: int|
                        0 <= j < i ==> (#[trigger] out@[j]).0@ == entries@[j].0@ && host_model(
                            out@[j].1,
                        ) == spec_encode(legacy_model(entries@[j].1)),
                decreases entries.len() - i,
            {
                proof {
                    assert(decreases_to!(*l => l->Mapping_0));
                    assert(decreases_to!(l->Mapping_0 => l->Mapping_0[i as int]));
                    assert(decreases_to!(l->Mapping_0[i as int] => l->Mapping_0[i as int].1));
                    assert(decreases_to!(*l => entries[i as int].1));
                }
                let x = encode_value(&entries[i].1);
                let key: String = entries[i].0.clone();
                out.push((key, x));
                i = i + 1;
            }
            let res = Value::Mapping(entries.len() as u64, out);
            proof {
                assert(host_entry_models(out@) =~= spec_encode_entries(
                    legacy_entry_models(entries@),
                ));
                assert(res@ =~= spec_encode(l@));
            }
            res
        },
    }
}


} // verus!
