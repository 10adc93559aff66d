//! Runtime value layouts and typed values, the canonical binary value
//! codec, and the bidirectional JSON conversion specifications.
use vstd::prelude::*;
use crate::canon::{enc_uleb, dec_uleb, bytes_at, lemma_dec_enc_uleb};
use crate::errors::{Error, ErrorV};
use crate::hex::{
    addr_lit_wf, addr_of_lit, addr_to_lit, bytes_of_hex_digits, hex_of_bytes, hex_str_wf,
    strip_hex_prefix, lemma_addr_lit_roundtrip, lemma_hex_bytes_roundtrip,
};
use crate::json::{JsonV, JsonValue, view_json_fields};
use crate::types::{AccountAddress, Identifier, ADDRESS_LENGTH, addr_wf, ident_wf};

verus! {

broadcast use vstd::std_specs::vec::group_vec_axioms, vstd::seq::group_seq_axioms;

// ---------------------------------------------------------------------------
// Types and their ghost mirrors
// ---------------------------------------------------------------------------

/// Ghost mirror of [`MoveTypeLayout`].
pub enum LayoutV {
    Bool,
    U8,
    U64,
    U128,
    Address,
    Signer,
    Vector(Box<LayoutV>),
    Struct(Seq<(Seq<u8>, LayoutV)>),
}

/// Ghost mirror of [`MoveValue`].
pub enum ValueV {
    Bool(bool),
    U8(u8),
    U64(u64),
    U128(u128),
    Address(Seq<u8>),
    Vector(Seq<ValueV>),
    Struct(Seq<ValueV>),
}

/// The shape of a value's binary encoding: primitive, vector, or
/// struct-with-named-fields. `Signer` only ever appears as a top-level,
/// leading function parameter.
#[derive(Debug, PartialEq, Eq)]
pub enum MoveTypeLayout {
    Bool,
    U8,
    U64,
    U128,
    Address,
    Signer,
    Vector(Box<MoveTypeLayout>),
    Struct(MoveStructLayout),
}

/// An ordered list of named field layouts.
#[derive(Debug, PartialEq, Eq)]
pub struct MoveStructLayout {
    pub fields: Vec<(Identifier, MoveTypeLayout)>,
}

/// A runtime value tagged with the corresponding layout variant. Struct
/// values hold their fields in declaration order, without names.
#[derive(Debug, PartialEq, Eq)]
pub enum MoveValue {
    Bool(bool),
    U8(u8),
    U64(u64),
    U128(u128),
    Address(AccountAddress),
    Vector(Vec<MoveValue>),
    Struct(Vec<MoveValue>),
}

pub open spec fn view_field_layouts(fs: Seq<(Identifier, MoveTypeLayout)>) -> Seq<
    (Seq<u8>, LayoutV),
>
    decreases fs,
{
    if fs.len() == 0 {
        Seq::empty()
    } else {
        view_field_layouts(fs.drop_last()).push((fs.last().0@, fs.last().1@))
    }
}

impl View for MoveTypeLayout {
    type V = LayoutV;

    open spec fn view(&self) -> LayoutV
        decreases self,
    {
        match self {
            MoveTypeLayout::Bool => LayoutV::Bool,
            MoveTypeLayout::U8 => LayoutV::U8,
            MoveTypeLayout::U64 => LayoutV::U64,
            MoveTypeLayout::U128 => LayoutV::U128,
            MoveTypeLayout::Address => LayoutV::Address,
            MoveTypeLayout::Signer => LayoutV::Signer,
            MoveTypeLayout::Vector(t) => LayoutV::Vector(Box::new((**t)@)),
            MoveTypeLayout::Struct(s) => LayoutV::Struct(view_field_layouts(s.fields@)),
        }
    }
}

impl View for MoveStructLayout {
    type V = Seq<(Seq<u8>, LayoutV)>;

    open spec fn view(&self) -> Seq<(Seq<u8>, LayoutV)> {
        view_field_layouts(self.fields@)
    }
}

pub open spec fn view_values(vs: Seq<MoveValue>) -> Seq<ValueV>
    decreases vs,
{
    if vs.len() == 0 {
        Seq::empty()
    } else {
        view_values(vs.drop_last()).push(vs.last()@)
    }
}

impl View for MoveValue {
    type V = ValueV;

    open spec fn view(&self) -> ValueV
        decreases self,
    {
        match self {
            MoveValue::Bool(b) => ValueV::Bool(*b),
            MoveValue::U8(x) => ValueV::U8(*x),
            MoveValue::U64(x) => ValueV::U64(*x),
            MoveValue::U128(x) => ValueV::U128(*x),
            MoveValue::Address(a) => ValueV::Address(a@),
            MoveValue::Vector(vs) => ValueV::Vector(view_values(vs@)),
            MoveValue::Struct(vs) => ValueV::Struct(view_values(vs@)),
        }
    }
}

pub broadcast proof fn lemma_view_field_layouts_len(fs: Seq<(Identifier, MoveTypeLayout)>)
    ensures
        #[trigger] view_field_layouts(fs).len() == fs.len(),
    decreases fs,
{
    if fs.len() > 0 {
        assert(view_field_layouts(fs) == view_field_layouts(fs.drop_last()).push(
            (fs.last().0@, fs.last().1@),
        ));
        lemma_view_field_layouts_len(fs.drop_last());
    } else {
        assert(view_field_layouts(fs) == Seq::<(Seq<u8>, LayoutV)>::empty());
    }
}

pub broadcast proof fn lemma_view_field_layouts_index(fs: Seq<(Identifier, MoveTypeLayout)>, i: int)
    requires
        0 <= i < fs.len(),
    ensures
        #[trigger] view_field_layouts(fs)[i] == (fs[i].0@, fs[i].1@),
    decreases fs,
{
    lemma_view_field_layouts_len(fs);
    assert(view_field_layouts(fs) == view_field_layouts(fs.drop_last()).push(
        (fs.last().0@, fs.last().1@),
    ));
    if i < fs.len() - 1 {
        lemma_view_field_layouts_index(fs.drop_last(), i);
    }
}

pub broadcast proof fn lemma_view_values_len(vs: Seq<MoveValue>)
    ensures
        #[trigger] view_values(vs).len() == vs.len(),
    decreases vs,
{
    if vs.len() > 0 {
        assert(view_values(vs) == view_values(vs.drop_last()).push(vs.last()@));
        lemma_view_values_len(vs.drop_last());
    } else {
        assert(view_values(vs) == Seq::<ValueV>::empty());
    }
}

pub broadcast proof fn lemma_view_values_index(vs: Seq<MoveValue>, i: int)
    requires
        0 <= i < vs.len(),
    ensures
        #[trigger] view_values(vs)[i] == vs[i]@,
    decreases vs,
{
    lemma_view_values_len(vs);
    assert(view_values(vs) == view_values(vs.drop_last()).push(vs.last()@));
    if i < vs.len() - 1 {
        lemma_view_values_index(vs.drop_last(), i);
    }
}

// ---------------------------------------------------------------------------
// Well-formedness and shape agreement
// ---------------------------------------------------------------------------

/// A layout fit to describe data (function arguments, field or element
/// types): no `Signer` anywhere, well-formed distinct field names, and
/// member counts small enough for a canonical length prefix.
pub open spec fn data_layout_wf(l: LayoutV) -> bool
    decreases l, 0int,
{
    match l {
        LayoutV::Signer => false,
        LayoutV::Vector(t) => data_layout_wf(*t),
        LayoutV::Struct(fs) => {
            &&& fs.len() < 0x1_0000_0000
            &&& forall|i: int| 0 <= i < fs.len() ==> ident_wf((#[trigger] fs[i]).0)
            &&& forall|i: int, j: int|
                0 <= i < j < fs.len() ==> (#[trigger] fs[i]).0 != (#[trigger] fs[j]).0
            &&& fields_layout_wf(fs)
        },
        _ => true,
    }
}

pub open spec fn fields_layout_wf(fs: Seq<(Seq<u8>, LayoutV)>) -> bool
    decreases fs, 1int,
{
    if fs.len() == 0 {
        true
    } else {
        data_layout_wf(fs[0].1) && fields_layout_wf(fs.drop_first())
    }
}

pub broadcast proof fn lemma_fields_layout_wf_index(fs: Seq<(Seq<u8>, LayoutV)>, i: int)
    requires
        #[trigger] fields_layout_wf(fs),
        0 <= i < fs.len(),
    ensures
        data_layout_wf((#[trigger] fs[i]).1),
    decreases fs,
{
    if i > 0 {
        lemma_fields_layout_wf_index(fs.drop_first(), i - 1);
    }
}

/// A parameter layout: a leading `Signer`, or a data layout.
pub open spec fn param_layout_wf(l: LayoutV) -> bool {
    l is Signer || data_layout_wf(l)
}

/// Shape agreement between a layout and a value.
pub open spec fn value_matches(l: LayoutV, v: ValueV) -> bool
    decreases l, 0int,
{
    match l {
        LayoutV::Bool => v is Bool,
        LayoutV::U8 => v is U8,
        LayoutV::U64 => v is U64,
        LayoutV::U128 => v is U128,
        LayoutV::Address => v matches ValueV::Address(a) && addr_wf(a),
        LayoutV::Signer => false,
        LayoutV::Vector(t) => v matches ValueV::Vector(vs) && vs.len() < 0x1_0000_0000
            && values_match(*t, vs),
        LayoutV::Struct(fs) => v matches ValueV::Struct(vs) && vs.len() == fs.len()
            && fields_match(fs, vs),
    }
}

pub open spec fn values_match(t: LayoutV, vs: Seq<ValueV>) -> bool
    decreases t, vs.len() + 1,
{
    if vs.len() == 0 {
        true
    } else {
        value_matches(t, vs[0]) && values_match(t, vs.drop_first())
    }
}

pub open spec fn fields_match(fs: Seq<(Seq<u8>, LayoutV)>, vs: Seq<ValueV>) -> bool
    decreases fs, 1int,
{
    if fs.len() == 0 {
        vs.len() == 0
    } else {
        vs.len() > 0 && value_matches(fs[0].1, vs[0]) && fields_match(
            fs.drop_first(),
            vs.drop_first(),
        )
    }
}

pub broadcast proof fn lemma_values_match_index(t: LayoutV, vs: Seq<ValueV>, i: int)
    requires
        #[trigger] values_match(t, vs),
        0 <= i < vs.len(),
    ensures
        value_matches(t, #[trigger] vs[i]),
    decreases vs.len(),
{
    if i > 0 {
        lemma_values_match_index(t, vs.drop_first(), i - 1);
    }
}

pub broadcast proof fn lemma_fields_match_index(fs: Seq<(Seq<u8>, LayoutV)>, vs: Seq<ValueV>, i: int)
    requires
        #[trigger] fields_match(fs, vs),
        0 <= i < fs.len(),
    ensures
        vs.len() == fs.len(),
        value_matches((#[trigger] fs[i]).1, vs[i]),
    decreases fs,
{
    if i > 0 {
        lemma_fields_match_index(fs.drop_first(), vs.drop_first(), i - 1);
    } else if fs.len() > 0 {
        lemma_fields_match_len(fs.drop_first(), vs.drop_first());
    }
}

pub proof fn lemma_fields_match_len(fs: Seq<(Seq<u8>, LayoutV)>, vs: Seq<ValueV>)
    requires
        fields_match(fs, vs),
    ensures
        vs.len() == fs.len(),
    decreases fs,
{
    if fs.len() > 0 {
        lemma_fields_match_len(fs.drop_first(), vs.drop_first());
    }
}


// ---------------------------------------------------------------------------
// Canonical binary value encoding
// ---------------------------------------------------------------------------

/// Little-endian bytes of `n` over a fixed width of `k` bytes.
pub open spec fn le_bytes(n: nat, k: nat) -> Seq<u8>
    decreases k,
{
    if k == 0 {
        Seq::empty()
    } else {
        seq![(n % 0x100) as u8] + le_bytes(n / 0x100, (k - 1) as nat)
    }
}

/// The canonical binary encoding of a value: integers little-endian at
/// their fixed width, addresses raw, vectors length-prefixed, struct fields
/// concatenated in order.
pub open spec fn enc_value(v: ValueV) -> Seq<u8>
    decreases v, 0int,
{
    match v {
        ValueV::Bool(b) => seq![if b { 1u8 } else { 0u8 }],
        ValueV::U8(x) => seq![x],
        ValueV::U64(x) => le_bytes(x as nat, 8),
        ValueV::U128(x) => le_bytes(x as nat, 16),
        ValueV::Address(a) => a,
        ValueV::Vector(vs) => enc_uleb(vs.len()) + enc_values(vs),
        ValueV::Struct(vs) => enc_values(vs),
    }
}

pub open spec fn enc_values(vs: Seq<ValueV>) -> Seq<u8>
    decreases vs, 1int,
{
    if vs.len() == 0 {
        Seq::empty()
    } else {
        enc_value(vs[0]) + enc_values(vs.drop_first())
    }
}

/// Little-endian value of `k` bytes at `i`.
pub open spec fn le_val(s: Seq<u8>, i: int, k: nat) -> nat
    decreases k,
{
    if k == 0 {
        0
    } else {
        (s[i] + 0x100 * le_val(s, i + 1, (k - 1) as nat)) as nat
    }
}

/// Layout-directed decoding of a canonical binary value.
pub open spec fn dec_value(l: LayoutV, s: Seq<u8>, i: int) -> Option<(ValueV, int)>
    decreases s.len() - i, l, 0int,
{
    match l {
        LayoutV::Bool => {
            if 0 <= i < s.len() {
                if s[i] == 0 {
                    Some((ValueV::Bool(false), i + 1))
                } else if s[i] == 1 {
                    Some((ValueV::Bool(true), i + 1))
                } else {
                    None
                }
            } else {
                None
            }
        },
        LayoutV::U8 => {
            if 0 <= i < s.len() {
                Some((ValueV::U8(s[i]), i + 1))
            } else {
                None
            }
        },
        LayoutV::U64 => {
            if 0 <= i && i + 8 <= s.len() {
                Some((ValueV::U64(le_val(s, i, 8) as u64), i + 8))
            } else {
                None
            }
        },
        LayoutV::U128 => {
            if 0 <= i && i + 16 <= s.len() {
                Some((ValueV::U128(le_val(s, i, 16) as u128), i + 16))
            } else {
                None
            }
        },
        LayoutV::Address => {
            if 0 <= i && i + ADDRESS_LENGTH <= s.len() {
                Some((ValueV::Address(s.subrange(i, i + ADDRESS_LENGTH)), i + ADDRESS_LENGTH))
            } else {
                None
            }
        },
        LayoutV::Signer => None,
        LayoutV::Vector(t) => {
            match dec_uleb(s, i) {
                None => None,
                Some((n, j)) => {
                    if j <= i || j > s.len() {
                        None
                    } else {
                        match dec_velems(*t, s, j, n) {
                            None => None,
                            Some((vs, k)) => Some((ValueV::Vector(vs), k)),
                        }
                    }
                },
            }
        },
        LayoutV::Struct(fs) => {
            match dec_vfields(fs, s, i) {
                None => None,
                Some((vs, j)) => Some((ValueV::Struct(vs), j)),
            }
        },
    }
}

pub open spec fn dec_velems(t: LayoutV, s: Seq<u8>, i: int, n: nat) -> Option<(Seq<ValueV>, int)>
    decreases s.len() - i, t, n,
{
    if n == 0 {
        Some((Seq::empty(), i))
    } else {
        match dec_value(t, s, i) {
            None => None,
            Some((v, j)) => {
                if j < i || j > s.len() {
                    None
                } else {
                    match dec_velems(t, s, j, (n - 1) as nat) {
                        None => None,
                        Some((rest, k)) => Some((seq![v] + rest, k)),
                    }
                }
            },
        }
    }
}

pub open spec fn dec_vfields(fs: Seq<(Seq<u8>, LayoutV)>, s: Seq<u8>, i: int) -> Option<
    (Seq<ValueV>, int),
>
    decreases s.len() - i, fs, 0int,
{
    if fs.len() == 0 {
        Some((Seq::empty(), i))
    } else {
        match dec_value(fs[0].1, s, i) {
            None => None,
            Some((v, j)) => {
                if j < i || j > s.len() {
                    None
                } else {
                    match dec_vfields(fs.drop_first(), s, j) {
                        None => None,
                        Some((rest, k)) => Some((seq![v] + rest, k)),
                    }
                }
            },
        }
    }
}

/// Whole-input decoding: trailing bytes are an error.
pub open spec fn decode_value_spec(l: LayoutV, s: Seq<u8>) -> Option<ValueV> {
    match dec_value(l, s, 0) {
        None => None,
        Some((v, j)) => {
            if j == s.len() {
                Some(v)
            } else {
                None
            }
        },
    }
}

// ---------------------------------------------------------------------------
// Projection to JSON (decode direction)
// ---------------------------------------------------------------------------

/// The bytes held by a vector of `U8` values.
pub open spec fn u8s_of(vs: Seq<ValueV>) -> Seq<u8> {
    Seq::new(vs.len(), |i: int| vs[i]->U8_0)
}

/// `U8` values for a byte string.
pub open spec fn u8_vals(bs: Seq<u8>) -> Seq<ValueV> {
    Seq::new(bs.len(), |i: int| ValueV::U8(bs[i]))
}

/// Projects a typed value into JSON: byte vectors as hex strings, addresses
/// as full-width hex literals, integers as JSON numbers, struct fields as an
/// object in declaration order.
pub open spec fn value_to_json(l: LayoutV, v: ValueV) -> JsonV
    decreases l, 0int,
{
    match l {
        LayoutV::Bool => JsonV::Bool(v->Bool_0),
        LayoutV::U8 => JsonV::Num { neg: false, mag: v->U8_0 as nat },
        LayoutV::U64 => JsonV::Num { neg: false, mag: v->U64_0 as nat },
        LayoutV::U128 => JsonV::Num { neg: false, mag: v->U128_0 as nat },
        LayoutV::Address => JsonV::Str(addr_to_lit(v->Address_0)),
        LayoutV::Signer => JsonV::Null,
        LayoutV::Vector(t) => {
            let vs = v->Vector_0;
            if *t is U8 {
                JsonV::Str(hex_of_bytes(u8s_of(vs)))
            } else {
                JsonV::Arr(vals_to_json(*t, vs))
            }
        },
        LayoutV::Struct(fs) => JsonV::Obj(fields_to_json(fs, v->Struct_0)),
    }
}

pub open spec fn vals_to_json(t: LayoutV, vs: Seq<ValueV>) -> Seq<JsonV>
    decreases t, vs.len() + 1,
{
    if vs.len() == 0 {
        Seq::empty()
    } else {
        seq![value_to_json(t, vs[0])] + vals_to_json(t, vs.drop_first())
    }
}

pub open spec fn fields_to_json(fs: Seq<(Seq<u8>, LayoutV)>, vs: Seq<ValueV>) -> Seq<
    (Seq<u8>, JsonV),
>
    decreases fs, 1int,
{
    if fs.len() == 0 || vs.len() == 0 {
        Seq::empty()
    } else {
        seq![(fs[0].0, value_to_json(fs[0].1, vs[0]))] + fields_to_json(
            fs.drop_first(),
            vs.drop_first(),
        )
    }
}

pub proof fn lemma_vals_to_json_index(t: LayoutV, vs: Seq<ValueV>, i: int)
    requires
        0 <= i < vs.len(),
    ensures
        vals_to_json(t, vs).len() == vs.len(),
        vals_to_json(t, vs)[i] == value_to_json(t, vs[i]),
    decreases vs.len(),
{
    lemma_vals_to_json_len(t, vs);
    if i > 0 {
        lemma_vals_to_json_index(t, vs.drop_first(), i - 1);
    }
}

pub proof fn lemma_vals_to_json_len(t: LayoutV, vs: Seq<ValueV>)
    ensures
        vals_to_json(t, vs).len() == vs.len(),
    decreases vs.len(),
{
    if vs.len() > 0 {
        lemma_vals_to_json_len(t, vs.drop_first());
    }
}

pub proof fn lemma_fields_to_json_len(fs: Seq<(Seq<u8>, LayoutV)>, vs: Seq<ValueV>)
    requires
        vs.len() == fs.len(),
    ensures
        fields_to_json(fs, vs).len() == fs.len(),
    decreases fs,
{
    if fs.len() > 0 && vs.len() > 0 {
        lemma_fields_to_json_len(fs.drop_first(), vs.drop_first());
    }
}

pub proof fn lemma_fields_to_json_index(fs: Seq<(Seq<u8>, LayoutV)>, vs: Seq<ValueV>, i: int)
    requires
        vs.len() == fs.len(),
        0 <= i < fs.len(),
    ensures
        fields_to_json(fs, vs).len() == fs.len(),
        fields_to_json(fs, vs)[i] == (fs[i].0, value_to_json(fs[i].1, vs[i])),
    decreases fs,
{
    lemma_fields_to_json_len(fs, vs);
    if i > 0 {
        lemma_fields_to_json_index(fs.drop_first(), vs.drop_first(), i - 1);
    }
}

// ---------------------------------------------------------------------------
// JSON to value (encode direction)
// ---------------------------------------------------------------------------

/// The value of the last member named `name`, as a JSON object lookup
/// resolves duplicate keys to the member stored last.
pub open spec fn obj_lookup(ms: Seq<(Seq<u8>, JsonV)>, name: Seq<u8>) -> Option<JsonV>
    decreases ms,
{
    if ms.len() == 0 {
        None
    } else if ms.last().0 == name {
        Some(ms.last().1)
    } else {
        obj_lookup(ms.drop_last(), name)
    }
}

/// Encodes a JSON value against a layout. Shape disagreement is
/// `TypeMismatch`, an out-of-width number is `NumericOverflow`, an absent
/// struct member is `MissingField`, and a `Signer` target is
/// `UnexpectedSignerType`. Struct fields are encoded in declaration order
/// regardless of JSON member order; extra members are ignored.
pub open spec fn jenc_value(l: LayoutV, j: JsonV) -> Result<ValueV, ErrorV>
    decreases l, j, 0int,
{
    match l {
        LayoutV::Bool => match j {
            JsonV::Bool(b) => Ok(ValueV::Bool(b)),
            _ => Err(ErrorV::TypeMismatch),
        },
        LayoutV::U8 => match j {
            JsonV::Num { neg, mag } => {
                if neg {
                    Err(ErrorV::TypeMismatch)
                } else if mag > u8::MAX as nat {
                    Err(ErrorV::NumericOverflow)
                } else {
                    Ok(ValueV::U8(mag as u8))
                }
            },
            _ => Err(ErrorV::TypeMismatch),
        },
        LayoutV::U64 => match j {
            JsonV::Num { neg, mag } => {
                if neg {
                    Err(ErrorV::TypeMismatch)
                } else if mag > u64::MAX as nat {
                    Err(ErrorV::NumericOverflow)
                } else {
                    Ok(ValueV::U64(mag as u64))
                }
            },
            _ => Err(ErrorV::TypeMismatch),
        },
        LayoutV::U128 => match j {
            JsonV::Num { neg, mag } => {
                if neg {
                    Err(ErrorV::TypeMismatch)
                } else if mag > u128::MAX as nat {
                    Err(ErrorV::NumericOverflow)
                } else {
                    Ok(ValueV::U128(mag as u128))
                }
            },
            _ => Err(ErrorV::TypeMismatch),
        },
        LayoutV::Address => match j {
            JsonV::Str(s) => {
                if addr_lit_wf(s) {
                    Ok(ValueV::Address(addr_of_lit(s)))
                } else {
                    Err(ErrorV::TypeMismatch)
                }
            },
            _ => Err(ErrorV::TypeMismatch),
        },
        LayoutV::Signer => Err(ErrorV::UnexpectedSignerType),
        LayoutV::Vector(t) => jenc_vector(*t, j),
        LayoutV::Struct(fs) => jenc_struct(fs, j),
    }
}

/// Encodes a JSON value as a vector with the given element layout: byte
/// vectors are transmitted as a single hex string, any other element type
/// as a JSON array.
pub open spec fn jenc_vector(t: LayoutV, j: JsonV) -> Result<ValueV, ErrorV>
    decreases t, j, 1int,
{
    if t is U8 {
        match j {
            JsonV::Str(s) => {
                if hex_str_wf(s) {
                    let bs = bytes_of_hex_digits(strip_hex_prefix(s));
                    if bs.len() < 0x1_0000_0000 {
                        Ok(ValueV::Vector(u8_vals(bs)))
                    } else {
                        Err(ErrorV::TypeMismatch)
                    }
                } else {
                    Err(ErrorV::TypeMismatch)
                }
            },
            _ => Err(ErrorV::TypeMismatch),
        }
    } else {
        match j {
            JsonV::Arr(elems) => {
                if elems.len() < 0x1_0000_0000 {
                    match jenc_elems(t, elems) {
                        Ok(vs) => Ok(ValueV::Vector(vs)),
                        Err(e) => Err(e),
                    }
                } else {
                    Err(ErrorV::TypeMismatch)
                }
            },
            _ => Err(ErrorV::TypeMismatch),
        }
    }
}

/// Encodes a JSON object as a struct with the given field layouts; each
/// declared field is looked up by name, in declaration order.
pub open spec fn jenc_struct(fs: Seq<(Seq<u8>, LayoutV)>, j: JsonV) -> Result<ValueV, ErrorV>
    decreases fs, j, 1int,
{
    match j {
        JsonV::Obj(ms) => match jenc_fields(fs, ms) {
            Ok(vs) => Ok(ValueV::Struct(vs)),
            Err(e) => Err(e),
        },
        _ => Err(ErrorV::TypeMismatch),
    }
}

pub open spec fn jenc_elems(t: LayoutV, elems: Seq<JsonV>) -> Result<Seq<ValueV>, ErrorV>
    decreases t, elems, 0int,
{
    if elems.len() == 0 {
        Ok(Seq::empty())
    } else {
        match jenc_value(t, elems[0]) {
            Err(e) => Err(e),
            Ok(v) => match jenc_elems(t, elems.drop_first()) {
                Err(e) => Err(e),
                Ok(rest) => Ok(seq![v] + rest),
            },
        }
    }
}

pub open spec fn jenc_fields(fs: Seq<(Seq<u8>, LayoutV)>, ms: Seq<(Seq<u8>, JsonV)>) -> Result<
    Seq<ValueV>,
    ErrorV,
>
    decreases fs, ms, 0int,
{
    if fs.len() == 0 {
        Ok(Seq::empty())
    } else {
        match obj_lookup(ms, fs[0].0) {
            None => Err(ErrorV::MissingField { field: fs[0].0 }),
            Some(jv) => match jenc_value(fs[0].1, jv) {
                Err(e) => Err(e),
                Ok(v) => match jenc_fields(fs.drop_first(), ms) {
                    Err(e) => Err(e),
                    Ok(rest) => Ok(seq![v] + rest),
                },
            },
        }
    }
}

/// Struct encoding reads the supplied JSON object only through member
/// lookup: two objects that resolve every declared field name to the same
/// member encode identically, whatever order their members come in.
pub proof fn lemma_jenc_fields_order_independent(
    fs: Seq<(Seq<u8>, LayoutV)>,
    ms1: Seq<(Seq<u8>, JsonV)>,
    ms2: Seq<(Seq<u8>, JsonV)>,
)
    requires
        forall|k: int|
            0 <= k < fs.len() ==> obj_lookup(ms1, (#[trigger] fs[k]).0) == obj_lookup(
                ms2,
                fs[k].0,
            ),
    ensures
        jenc_fields(fs, ms1) == jenc_fields(fs, ms2),
    decreases fs,
{
    if fs.len() > 0 {
        assert forall|k: int|
            0 <= k < fs.drop_first().len() implies obj_lookup(
            ms1,
            (#[trigger] fs.drop_first()[k]).0,
        ) == obj_lookup(ms2, fs.drop_first()[k].0) by {
            assert(fs.drop_first()[k] == fs[k + 1]);
        }
        lemma_jenc_fields_order_independent(fs.drop_first(), ms1, ms2);
    }
}

// ---------------------------------------------------------------------------
// The encode/decode inverse law
// ---------------------------------------------------------------------------

pub proof fn lemma_obj_lookup_unique(ms: Seq<(Seq<u8>, JsonV)>, k: int)
    requires
        0 <= k < ms.len(),
        forall|j: int| 0 <= j < ms.len() && j != k ==> (#[trigger] ms[j]).0 != ms[k].0,
    ensures
        obj_lookup(ms, ms[k].0) == Some(ms[k].1),
    decreases ms,
{
    if ms.last().0 == ms[k].0 {
        assert(k == ms.len() - 1);
    } else {
        assert(k < ms.len() - 1);
        lemma_obj_lookup_unique(ms.drop_last(), k);
    }
}

/// Encoding the JSON projection of any value that matches a well-formed
/// data layout reproduces that value exactly.
pub proof fn lemma_encode_inverts_decode(l: LayoutV, v: ValueV)
    requires
        data_layout_wf(l),
        value_matches(l, v),
    ensures
        jenc_value(l, value_to_json(l, v)) == Ok::<ValueV, ErrorV>(v),
    decreases l, 0int,
{
    match l {
        LayoutV::Address => {
            lemma_addr_lit_roundtrip(v->Address_0);
        },
        LayoutV::Vector(t) => {
            let vs = v->Vector_0;
            if *t is U8 {
                let bs = u8s_of(vs);
                lemma_hex_bytes_roundtrip(bs);
                assert forall|i: int| 0 <= i < vs.len() implies u8_vals(bs)[i] == vs[i] by {
                    lemma_values_match_index(*t, vs, i);
                }
                assert(u8_vals(bs) =~= vs);
            } else {
                lemma_vals_to_json_len(*t, vs);
                lemma_jenc_elems_roundtrip(*t, vs);
            }
        },
        LayoutV::Struct(fs) => {
            let vs = v->Struct_0;
            let ms = fields_to_json(fs, vs);
            lemma_jenc_fields_roundtrip(fs, vs, ms, 0);
            assert(fs.skip(0) =~= fs);
            assert(vs.skip(0) =~= vs);
            assert(jenc_fields(fs, ms) == Ok::<Seq<ValueV>, ErrorV>(vs));
        },
        _ => {},
    }
}

pub proof fn lemma_jenc_elems_roundtrip(t: LayoutV, vs: Seq<ValueV>)
    requires
        data_layout_wf(t),
        values_match(t, vs),
    ensures
        jenc_elems(t, vals_to_json(t, vs)) == Ok::<Seq<ValueV>, ErrorV>(vs),
    decreases t, vs.len() + 1,
{
    lemma_vals_to_json_len(t, vs);
    if vs.len() > 0 {
        let elems = vals_to_json(t, vs);
        assert(elems[0] == value_to_json(t, vs[0]));
        lemma_encode_inverts_decode(t, vs[0]);
        assert(jenc_value(t, elems[0]) == Ok::<ValueV, ErrorV>(vs[0]));
        assert(elems.drop_first() =~= vals_to_json(t, vs.drop_first()));
        lemma_jenc_elems_roundtrip(t, vs.drop_first());
        assert(jenc_elems(t, elems.drop_first()) == Ok::<Seq<ValueV>, ErrorV>(vs.drop_first()));
        assert(seq![vs[0]] + vs.drop_first() =~= vs);
        assert(jenc_elems(t, elems) == Ok::<Seq<ValueV>, ErrorV>(seq![vs[0]] + vs.drop_first()));
    } else {
        assert(vals_to_json(t, vs) =~= Seq::<JsonV>::empty());
        assert(vs =~= Seq::<ValueV>::empty());
        assert(jenc_elems(t, vals_to_json(t, vs)) == Ok::<Seq<ValueV>, ErrorV>(Seq::empty()));
    }
}

/// From field `d` on, re-encoding the projected object yields the value
/// fields from `d` on.
pub proof fn lemma_jenc_fields_roundtrip(
    fs: Seq<(Seq<u8>, LayoutV)>,
    vs: Seq<ValueV>,
    ms: Seq<(Seq<u8>, JsonV)>,
    d: int,
)
    requires
        data_layout_wf(LayoutV::Struct(fs)),
        fields_match(fs, vs),
        ms == fields_to_json(fs, vs),
        0 <= d <= fs.len(),
    ensures
        jenc_fields(fs.skip(d), ms) == Ok::<Seq<ValueV>, ErrorV>(vs.skip(d)),
    decreases fs, fs.len() - d + 1,
{
    lemma_fields_match_len(fs, vs);
    if d == fs.len() {
        assert(fs.skip(d) =~= Seq::<(Seq<u8>, LayoutV)>::empty());
        assert(vs.skip(d) =~= Seq::<ValueV>::empty());
    } else {
        let sub = fs.skip(d);
        assert(sub[0] == fs[d]);
        lemma_fields_to_json_index(fs, vs, d);
        assert forall|j: int| 0 <= j < ms.len() && j != d implies (#[trigger] ms[j]).0 != ms[d].0
            by {
            lemma_fields_to_json_index(fs, vs, j);
        }
        lemma_obj_lookup_unique(ms, d);
        assert(obj_lookup(ms, fs[d].0) == Some(value_to_json(fs[d].1, vs[d])));
        lemma_fields_match_index(fs, vs, d);
        lemma_fields_layout_wf_index(fs, d);
        lemma_encode_inverts_decode(fs[d].1, vs[d]);
        lemma_jenc_fields_roundtrip(fs, vs, ms, d + 1);
        assert(sub.drop_first() =~= fs.skip(d + 1));
        assert(seq![vs[d]] + vs.skip(d + 1) =~= vs.skip(d));
    }
}

/// Decoded values always match their layout.
pub proof fn lemma_dec_value_matches(l: LayoutV, s: Seq<u8>, i: int)
    requires
        dec_value(l, s, i) is Some,
    ensures
        value_matches(l, dec_value(l, s, i)->Some_0.0),
    decreases s.len() - i, l, 0int,
{
    match l {
        LayoutV::Vector(t) => {
            match dec_uleb(s, i) {
                Some((n, j)) => {
                    assert(n < 0x1_0000_0000);
                    if i < j <= s.len() {
                        lemma_dec_velems_match(*t, s, j, n);
                    }
                },
                None => {},
            }
        },
        LayoutV::Struct(fs) => {
            lemma_dec_vfields_match(fs, s, i);
            lemma_fields_match_len(fs, dec_vfields(fs, s, i)->Some_0.0);
        },
        _ => {},
    }
}

pub proof fn lemma_dec_velems_match(t: LayoutV, s: Seq<u8>, i: int, n: nat)
    requires
        dec_velems(t, s, i, n) is Some,
    ensures
        ({
            let vs = dec_velems(t, s, i, n)->Some_0.0;
            vs.len() == n && values_match(t, vs)
        }),
    decreases s.len() - i, t, n,
{
    if n > 0 {
        match dec_value(t, s, i) {
            Some((v, j)) => {
                lemma_dec_value_matches(t, s, i);
                if i <= j <= s.len() {
                    lemma_dec_velems_match(t, s, j, (n - 1) as nat);
                    let rest = dec_velems(t, s, j, (n - 1) as nat)->Some_0.0;
                    assert((seq![v] + rest).drop_first() =~= rest);
                }
            },
            None => {},
        }
    }
}

pub proof fn lemma_dec_vfields_match(fs: Seq<(Seq<u8>, LayoutV)>, s: Seq<u8>, i: int)
    requires
        dec_vfields(fs, s, i) is Some,
    ensures
        fields_match(fs, dec_vfields(fs, s, i)->Some_0.0),
    decreases s.len() - i, fs, 0int,
{
    if fs.len() > 0 {
        match dec_value(fs[0].1, s, i) {
            Some((v, j)) => {
                lemma_dec_value_matches(fs[0].1, s, i);
                if i <= j <= s.len() {
                    lemma_dec_vfields_match(fs.drop_first(), s, j);
                    let rest = dec_vfields(fs.drop_first(), s, j)->Some_0.0;
                    assert((seq![v] + rest).drop_first() =~= rest);
                }
            },
            None => {},
        }
    }
}

/// The encode/decode inverse law, stated for decoded byte strings: any
/// value decoded against a well-formed data layout re-encodes from its JSON
/// projection to an equivalent value.
pub proof fn lemma_decode_json_encode_roundtrip(l: LayoutV, s: Seq<u8>)
    requires
        data_layout_wf(l),
        decode_value_spec(l, s) is Some,
    ensures
        jenc_value(l, value_to_json(l, decode_value_spec(l, s)->0)) == Ok::<ValueV, ErrorV>(
            decode_value_spec(l, s)->0,
        ),
{
    lemma_dec_value_matches(l, s, 0);
    lemma_encode_inverts_decode(l, decode_value_spec(l, s)->0);
}



// ---------------------------------------------------------------------------
// Executable decoding
// ---------------------------------------------------------------------------

/// Reads a little-endian `u64`.
pub fn read_u64_le(s: &[u8], i: usize) -> (r: u64)
    requires
        i + 8 <= s@.len(),
    ensures
        r as nat == le_val(s@, i as int, 8),
{
    let slen = s.len();
    proof {
        assert(i + 8 <= slen);
    }
    let v7: u64 = s[i + 7] as u64;
    let v6: u64 = s[i + 6] as u64 + 0x100u64 * v7;
    let v5: u64 = s[i + 5] as u64 + 0x100u64 * v6;
    let v4: u64 = s[i + 4] as u64 + 0x100u64 * v5;
    let v3: u64 = s[i + 3] as u64 + 0x100u64 * v4;
    let v2: u64 = s[i + 2] as u64 + 0x100u64 * v3;
    let v1: u64 = s[i + 1] as u64 + 0x100u64 * v2;
    let v0: u64 = s[i] as u64 + 0x100u64 * v1;
    proof {
        assert(le_val(s@, i + 8, 0) == 0);
        assert(le_val(s@, i + 7, 1) == v7);
        assert(le_val(s@, i + 6, 2) == v6);
        assert(le_val(s@, i + 5, 3) == v5);
        assert(le_val(s@, i + 4, 4) == v4);
        assert(le_val(s@, i + 3, 5) == v3);
        assert(le_val(s@, i + 2, 6) == v2);
        assert(le_val(s@, i + 1, 7) == v1);
        assert(le_val(s@, i as int, 8) == v0);
    }
    v0
}

/// An eight-byte little-endian run is bounded by 2^64, and a sixteen-byte
/// run splits into two eight-byte halves.
pub proof fn lemma_le_val8(s: Seq<u8>, i: int)
    requires
        0 <= i,
        i + 8 <= s.len(),
    ensures
        le_val(s, i, 8) < 0x1_0000_0000_0000_0000,
{
    assert(le_val(s, i + 8, 0) == 0);
    assert(le_val(s, i + 7, 1) == s[i + 7] + 0x100 * le_val(s, i + 8, 0));
    assert(le_val(s, i + 6, 2) == s[i + 6] + 0x100 * le_val(s, i + 7, 1));
    assert(le_val(s, i + 5, 3) == s[i + 5] + 0x100 * le_val(s, i + 6, 2));
    assert(le_val(s, i + 4, 4) == s[i + 4] + 0x100 * le_val(s, i + 5, 3));
    assert(le_val(s, i + 3, 5) == s[i + 3] + 0x100 * le_val(s, i + 4, 4));
    assert(le_val(s, i + 2, 6) == s[i + 2] + 0x100 * le_val(s, i + 3, 5));
    assert(le_val(s, i + 1, 7) == s[i + 1] + 0x100 * le_val(s, i + 2, 6));
    assert(le_val(s, i, 8) == s[i] + 0x100 * le_val(s, i + 1, 7));
}

pub proof fn lemma_le_val_split(s: Seq<u8>, i: int)
    requires
        0 <= i,
        i + 16 <= s.len(),
    ensures
        le_val(s, i, 16) == le_val(s, i, 8) + 0x1_0000_0000_0000_0000 * le_val(s, i + 8, 8),
        le_val(s, i, 8) < 0x1_0000_0000_0000_0000,
        le_val(s, i + 8, 8) < 0x1_0000_0000_0000_0000,
        le_val(s, i, 16) < 0x1_0000_0000_0000_0000_0000_0000_0000_0000,
{
    lemma_le_val8(s, i);
    lemma_le_val8(s, i + 8);
    assert(le_val(s, i + 7, 9) == s[i + 7] + 0x100 * le_val(s, i + 8, 8));
    assert(le_val(s, i + 6, 10) == s[i + 6] + 0x100 * le_val(s, i + 7, 9));
    assert(le_val(s, i + 5, 11) == s[i + 5] + 0x100 * le_val(s, i + 6, 10));
    assert(le_val(s, i + 4, 12) == s[i + 4] + 0x100 * le_val(s, i + 5, 11));
    assert(le_val(s, i + 3, 13) == s[i + 3] + 0x100 * le_val(s, i + 4, 12));
    assert(le_val(s, i + 2, 14) == s[i + 2] + 0x100 * le_val(s, i + 3, 13));
    assert(le_val(s, i + 1, 15) == s[i + 1] + 0x100 * le_val(s, i + 2, 14));
    assert(le_val(s, i, 16) == s[i] + 0x100 * le_val(s, i + 1, 15));
    assert(le_val(s, i + 7, 1) == s[i + 7] + 0x100 * le_val(s, i + 8, 0));
    assert(le_val(s, i + 6, 2) == s[i + 6] + 0x100 * le_val(s, i + 7, 1));
    assert(le_val(s, i + 5, 3) == s[i + 5] + 0x100 * le_val(s, i + 6, 2));
    assert(le_val(s, i + 4, 4) == s[i + 4] + 0x100 * le_val(s, i + 5, 3));
    assert(le_val(s, i + 3, 5) == s[i + 3] + 0x100 * le_val(s, i + 4, 4));
    assert(le_val(s, i + 2, 6) == s[i + 2] + 0x100 * le_val(s, i + 3, 5));
    assert(le_val(s, i + 1, 7) == s[i + 1] + 0x100 * le_val(s, i + 2, 6));
    assert(le_val(s, i, 8) == s[i] + 0x100 * le_val(s, i + 1, 7));
    assert(le_val(s, i + 8, 0) == 0);
}

/// Reads a little-endian `u128`.
pub fn read_u128_le(s: &[u8], i: usize) -> (r: u128)
    requires
        i + 16 <= s@.len(),
    ensures
        r as nat == le_val(s@, i as int, 16),
{
    let slen = s.len();
    proof {
        assert(i + 16 <= slen);
        lemma_le_val_split(s@, i as int);
    }
    let lo: u64 = read_u64_le(s, i);
    let hi: u64 = read_u64_le(s, i + 8);
    let r: u128 = lo as u128 + 0x1_0000_0000_0000_0000u128 * hi as u128;
    r
}

/// Layout-directed decoding of one value.
#[verifier::loop_isolation(false)]
#[verifier::rlimit(100)]
pub fn read_value(l: &MoveTypeLayout, s: &[u8], i: usize) -> (r: Option<(MoveValue, usize)>)
    requires
        i <= s@.len(),
    ensures
        match r {
            Some((v, j)) => dec_value(l@, s@, i as int) == Some((v@, j as int)) && i <= j
                <= s@.len(),
            None => dec_value(l@, s@, i as int) is None,
        },
    decreases s@.len() - i, l, 0int,
{
    let slen = s.len();
    match l {
        MoveTypeLayout::Bool => {
            if i < slen {
                if s[i] == 0 {
                    Some((MoveValue::Bool(false), i + 1))
                } else if s[i] == 1 {
                    Some((MoveValue::Bool(true), i + 1))
                } else {
                    None
                }
            } else {
                None
            }
        },
        MoveTypeLayout::U8 => {
            if i < slen {
                Some((MoveValue::U8(s[i]), i + 1))
            } else {
                None
            }
        },
        MoveTypeLayout::U64 => {
            if slen - i >= 8 {
                let v = read_u64_le(s, i);
                proof {
                    lemma_le_val8(s@, i as int);
                }
                Some((MoveValue::U64(v), i + 8))
            } else {
                None
            }
        },
        MoveTypeLayout::U128 => {
            if slen - i >= 16 {
                let v = read_u128_le(s, i);
                proof {
                    lemma_le_val_split(s@, i as int);
                }
                Some((MoveValue::U128(v), i + 16))
            } else {
                None
            }
        },
        MoveTypeLayout::Address => {
            if slen - i >= ADDRESS_LENGTH {
                let bytes = crate::canon::copy_range(s, i, ADDRESS_LENGTH);
                Some((MoveValue::Address(AccountAddress { bytes }), i + ADDRESS_LENGTH))
            } else {
                None
            }
        },
        MoveTypeLayout::Signer => None,
        MoveTypeLayout::Vector(t) => {
            let (n, j) = match crate::canon::read_uleb(s, i) {
                None => {
                    return None;
                },
                Some(x) => x,
            };
            let ghost gn = n as nat;
            let mut vals: Vec<MoveValue> = Vec::new();
            let mut cur = j;
            let mut left = n;
            proof {
                match dec_velems(t@, s@, j as int, gn) {
                    Some((rest, m)) => {
                        assert(view_values(vals@) + rest =~= rest);
                    },
                    None => {},
                }
            }
            while left > 0
                invariant
                    i < j <= s@.len(),
                    j <= cur <= s@.len(),
                    left <= n,
                    dec_uleb(s@, i as int) == Some((n as nat, j as int)),
                    vals@.len() == n - left,
                    match dec_velems(t@, s@, cur as int, left as nat) {
                        None => dec_velems(t@, s@, j as int, gn) is None,
                        Some((rest, m)) => dec_velems(t@, s@, j as int, gn) == Some(
                            (view_values(vals@) + rest, m),
                        ),
                    },
                decreases left,
            {
                let (v, k) = match read_value(t, s, cur) {
                    None => {
                        return None;
                    },
                    Some(x) => x,
                };
                let ghost vals0 = vals@;
                vals.push(v);
                proof {
                    assert(vals@.drop_last() =~= vals0);
                    assert(view_values(vals@) == view_values(vals0).push(v@));
                    match dec_velems(t@, s@, k as int, (left - 1) as nat) {
                        Some((rest, m)) => {
                            assert(view_values(vals0) + (seq![v@] + rest) =~= view_values(vals@)
                                + rest);
                        },
                        None => {},
                    }
                }
                cur = k;
                left = left - 1;
            }
            proof {
                assert(dec_velems(t@, s@, cur as int, 0) == Some(
                    (Seq::<ValueV>::empty(), cur as int),
                ));
                assert(view_values(vals@) + Seq::<ValueV>::empty() =~= view_values(vals@));
            }
            Some((MoveValue::Vector(vals), cur))
        },
        MoveTypeLayout::Struct(sl) => {
            let ghost gfs = view_field_layouts(sl.fields@);
            let mut vals: Vec<MoveValue> = Vec::new();
            let mut cur = i;
            let mut fi: usize = 0;
            proof {
                lemma_view_field_layouts_len(sl.fields@);
                assert(gfs.skip(0) =~= gfs);
                match dec_vfields(gfs, s@, i as int) {
                    Some((rest, m)) => {
                        assert(view_values(vals@) + rest =~= rest);
                    },
                    None => {},
                }
            }
            while fi < sl.fields.len()
                invariant
                    i <= cur <= s@.len(),
                    fi <= sl.fields@.len(),
                    vals@.len() == fi,
                    match dec_vfields(gfs.skip(fi as int), s@, cur as int) {
                        None => dec_vfields(gfs, s@, i as int) is None,
                        Some((rest, m)) => dec_vfields(gfs, s@, i as int) == Some(
                            (view_values(vals@) + rest, m),
                        ),
                    },
                decreases sl.fields@.len() - fi,
            {
                proof {
                    lemma_view_field_layouts_index(sl.fields@, fi as int);
                    assert(gfs.skip(fi as int)[0] == (sl.fields@[fi as int].0@, sl.fields@[fi as int].1@));
                }
                let (v, k) = match read_value(&sl.fields[fi].1, s, cur) {
                    None => {
                        proof {
                            assert(dec_vfields(gfs.skip(fi as int), s@, cur as int) is None);
                        }
                        return None;
                    },
                    Some(x) => x,
                };
                let ghost vals0 = vals@;
                vals.push(v);
                proof {
                    assert(vals@.drop_last() =~= vals0);
                    assert(view_values(vals@) == view_values(vals0).push(v@));
                    assert(gfs.skip(fi as int).drop_first() =~= gfs.skip(fi + 1));
                    match dec_vfields(gfs.skip(fi + 1), s@, k as int) {
                        Some((rest, m)) => {
                            assert(view_values(vals0) + (seq![v@] + rest) =~= view_values(vals@)
                                + rest);
                        },
                        None => {},
                    }
                }
                cur = k;
                fi += 1;
            }
            proof {
                assert(gfs.skip(gfs.len() as int) =~= Seq::<(Seq<u8>, LayoutV)>::empty());
                assert(dec_vfields(gfs.skip(fi as int), s@, cur as int) == Some(
                    (Seq::<ValueV>::empty(), cur as int),
                ));
                assert(view_values(vals@) + Seq::<ValueV>::empty() =~= view_values(vals@));
            }
            Some((MoveValue::Struct(vals), cur))
        },
    }
}

/// Decodes a complete canonical value; trailing bytes are rejected.
pub fn decode_value(l: &MoveTypeLayout, s: &[u8]) -> (r: Result<MoveValue, Error>)
    ensures
        r matches Ok(v) ==> decode_value_spec(l@, s@) == Some(v@),
        r is Err <==> decode_value_spec(l@, s@) is None,
        r matches Err(e) ==> e@ == ErrorV::CorruptEncoding,
{
    match read_value(l, s, 0) {
        Some((v, j)) => {
            if j == s.len() {
                Ok(v)
            } else {
                Err(Error::CorruptEncoding)
            }
        },
        None => Err(Error::CorruptEncoding),
    }
}



// ---------------------------------------------------------------------------
// Executable encoding to canonical binary
// ---------------------------------------------------------------------------

pub proof fn lemma_enc_values_snoc(vs: Seq<ValueV>, x: ValueV)
    ensures
        enc_values(vs.push(x)) == enc_values(vs) + enc_value(x),
    decreases vs,
{
    let p = vs.push(x);
    assert(p.len() == vs.len() + 1);
    if vs.len() == 0 {
        assert(p[0] == x);
        assert(p.drop_first() =~= Seq::<ValueV>::empty());
        assert(enc_values(p) == enc_value(x) + enc_values(p.drop_first()));
        assert(enc_values(p.drop_first()) == Seq::<u8>::empty());
        assert(enc_value(x) + Seq::<u8>::empty() =~= enc_value(x));
        assert(enc_values(vs) == Seq::<u8>::empty());
        assert(Seq::<u8>::empty() + enc_value(x) =~= enc_value(x));
    } else {
        assert(p[0] == vs[0]);
        assert(p.drop_first() =~= vs.drop_first().push(x));
        lemma_enc_values_snoc(vs.drop_first(), x);
        assert(enc_value(vs[0]) + (enc_values(vs.drop_first()) + enc_value(x)) =~= (enc_value(
            vs[0],
        ) + enc_values(vs.drop_first())) + enc_value(x));
    }
}

/// Appends `k` little-endian bytes of `n`.
pub fn write_le(out: &mut Vec<u8>, n: u128, k: usize)
    ensures
        final(out)@ == old(out)@ + le_bytes(n as nat, k as nat),
    decreases k,
{
    if k == 0 {
        proof {
            assert(old(out)@ + le_bytes(n as nat, 0) =~= old(out)@);
        }
    } else {
        out.push((n % 0x100) as u8);
        write_le(out, n / 0x100, k - 1);
        proof {
            assert(old(out)@ + seq![(n % 0x100) as u8] + le_bytes((n / 0x100) as nat, (k - 1) as nat)
                =~= old(out)@ + le_bytes(n as nat, k as nat));
        }
    }
}

/// Appends the canonical binary encoding of a value.
#[verifier::loop_isolation(false)]
#[verifier::rlimit(100)]
pub fn write_value(out: &mut Vec<u8>, v: &MoveValue)
    ensures
        final(out)@ == old(out)@ + enc_value(v@),
    decreases v, 0int,
{
    match v {
        MoveValue::Bool(b) => {
            out.push(if *b { 1 } else { 0 });
            proof {
                assert(final(out)@ =~= old(out)@ + enc_value(v@));
            }
        },
        MoveValue::U8(x) => {
            out.push(*x);
            proof {
                assert(final(out)@ =~= old(out)@ + enc_value(v@));
            }
        },
        MoveValue::U64(x) => {
            write_le(out, *x as u128, 8);
        },
        MoveValue::U128(x) => {
            write_le(out, *x, 16);
        },
        MoveValue::Address(a) => {
            crate::canon::write_bytes(out, a.bytes.as_slice());
        },
        MoveValue::Vector(vs) => {
            proof {
                lemma_view_values_len(vs@);
            }
            crate::canon::write_uleb(out, vs.len() as u64);
            let ghost base = out@;
            let ghost vvs = view_values(vs@);
            let mut i: usize = 0;
            while i < vs.len()
                invariant
                    i <= vs@.len(),
                    vvs == view_values(vs@),
                    vvs.len() == vs@.len(),
                    out@ == base + enc_values(vvs.take(i as int)),
                decreases vs@.len() - i,
            {
                proof {
                    lemma_view_values_index(vs@, i as int);
                }
                write_value(out, &vs[i]);
                proof {
                    lemma_enc_values_snoc(vvs.take(i as int), vvs[i as int]);
                    assert(vvs.take(i as int).push(vvs[i as int]) =~= vvs.take(i + 1));
                    assert(base + enc_values(vvs.take(i as int)) + enc_value(vs@[i as int]@)
                        =~= base + enc_values(vvs.take(i + 1)));
                }
                i += 1;
            }
            proof {
                assert(vvs.take(vvs.len() as int) =~= vvs);
                assert(old(out)@ + enc_uleb(vvs.len()) + enc_values(vvs) =~= old(out)@ + enc_value(
                    v@,
                ));
            }
        },
        MoveValue::Struct(vs) => {
            proof {
                lemma_view_values_len(vs@);
            }
            let ghost base = out@;
            let ghost vvs = view_values(vs@);
            let mut i: usize = 0;
            while i < vs.len()
                invariant
                    i <= vs@.len(),
                    vvs == view_values(vs@),
                    vvs.len() == vs@.len(),
                    out@ == base + enc_values(vvs.take(i as int)),
                decreases vs@.len() - i,
            {
                proof {
                    lemma_view_values_index(vs@, i as int);
                }
                write_value(out, &vs[i]);
                proof {
                    lemma_enc_values_snoc(vvs.take(i as int), vvs[i as int]);
                    assert(vvs.take(i as int).push(vvs[i as int]) =~= vvs.take(i + 1));
                    assert(base + enc_values(vvs.take(i as int)) + enc_value(vs@[i as int]@)
                        =~= base + enc_values(vvs.take(i + 1)));
                }
                i += 1;
            }
            proof {
                assert(vvs.take(vvs.len() as int) =~= vvs);
                assert(out@ =~= old(out)@ + enc_value(v@));
            }
        },
    }
}

/// Serializes a value to its canonical binary form.
pub fn serialize_value(v: &MoveValue) -> (r: Vec<u8>)
    ensures
        r@ == enc_value(v@),
{
    let mut out: Vec<u8> = Vec::new();
    write_value(&mut out, v);
    proof {
        assert(Seq::<u8>::empty() + enc_value(v@) =~= enc_value(v@));
    }
    out
}

// ---------------------------------------------------------------------------
// Executable JSON-to-value encoding
// ---------------------------------------------------------------------------

/// Byte-for-byte slice equality.
pub fn bytes_eq(a: &[u8], b: &[u8]) -> (r: bool)
    ensures
        r == (a@ == b@),
{
    if a.len() != b.len() {
        return false;
    }
    let mut i: usize = 0;
    while i < a.len()
        invariant
            i <= a@.len(),
            a@.len() == b@.len(),
            forall|m: int| 0 <= m < i ==> a@[m] == b@[m],
        decreases a@.len() - i,
    {
        if a[i] != b[i] {
            return false;
        }
        i += 1;
    }
    proof {
        assert(a@ =~= b@);
    }
    true
}

/// Finds the member a JSON object lookup resolves `name` to (the last one
/// stored under that key).
#[verifier::loop_isolation(false)]
pub fn obj_get<'a>(ms: &'a Vec<(Vec<u8>, JsonValue)>, name: &[u8]) -> (r: Option<&'a JsonValue>)
    ensures
        match r {
            Some(v) => obj_lookup(view_json_fields(ms@), name@) == Some(v@),
            None => obj_lookup(view_json_fields(ms@), name@) is None,
        },
{
    let ghost vms = view_json_fields(ms@);
    proof {
        crate::json::lemma_view_json_fields_len(ms@);
        assert(vms.take(ms@.len() as int) =~= vms);
    }
    let mut k = ms.len();
    while k > 0
        invariant
            k <= ms@.len(),
            vms == view_json_fields(ms@),
            vms.len() == ms@.len(),
            obj_lookup(vms, name@) == obj_lookup(vms.take(k as int), name@),
        decreases k,
    {
        proof {
            crate::json::lemma_view_json_fields_index(ms@, k - 1);
            assert(vms.take(k as int).last() == vms[k - 1]);
        }
        if bytes_eq(ms[k - 1].0.as_slice(), name) {
            return Some(&ms[k - 1].1);
        }
        proof {
            assert(vms.take(k as int).drop_last() =~= vms.take(k - 1));
        }
        k -= 1;
    }
    proof {
        assert(vms.take(0) =~= Seq::<(Seq<u8>, JsonV)>::empty());
    }
    None
}

/// True for the signer layout.
pub fn is_signer_layout(l: &MoveTypeLayout) -> (r: bool)
    ensures
        r == (l@ is Signer),
{
    match l {
        MoveTypeLayout::Signer => true,
        _ => false,
    }
}

/// True for the byte layout.
pub fn is_u8_layout(l: &MoveTypeLayout) -> (r: bool)
    ensures
        r == (l@ is U8),
{
    match l {
        MoveTypeLayout::U8 => true,
        _ => false,
    }
}

/// Encodes a JSON value against a layout; see [`jenc_value`] for the exact
/// behaviour, including the hex special case for byte vectors and the
/// declaration-order struct fields.
#[verifier::loop_isolation(false)]
#[verifier::rlimit(100)]
pub fn encode_json_value(l: &MoveTypeLayout, j: &JsonValue) -> (r: Result<MoveValue, Error>)
    ensures
        r matches Ok(v) ==> jenc_value(l@, j@) == Ok::<ValueV, ErrorV>(v@),
        r matches Err(e) ==> jenc_value(l@, j@) == Err::<ValueV, ErrorV>(e@),
    decreases l, j, 0int,
{
    match l {
        MoveTypeLayout::Bool => match j {
            JsonValue::Bool(b) => Ok(MoveValue::Bool(*b)),
            _ => Err(Error::TypeMismatch),
        },
        MoveTypeLayout::U8 => match j {
            JsonValue::Num { neg, mag } => {
                if *neg {
                    Err(Error::TypeMismatch)
                } else if *mag > u8::MAX as u128 {
                    Err(Error::NumericOverflow)
                } else {
                    Ok(MoveValue::U8(*mag as u8))
                }
            },
            _ => Err(Error::TypeMismatch),
        },
        MoveTypeLayout::U64 => match j {
            JsonValue::Num { neg, mag } => {
                if *neg {
                    Err(Error::TypeMismatch)
                } else if *mag > u64::MAX as u128 {
                    Err(Error::NumericOverflow)
                } else {
                    Ok(MoveValue::U64(*mag as u64))
                }
            },
            _ => Err(Error::TypeMismatch),
        },
        MoveTypeLayout::U128 => match j {
            JsonValue::Num { neg, mag } => {
                if *neg {
                    Err(Error::TypeMismatch)
                } else {
                    Ok(MoveValue::U128(*mag))
                }
            },
            _ => Err(Error::TypeMismatch),
        },
        MoveTypeLayout::Address => match j {
            JsonValue::Str(sv) => match crate::hex::parse_address_literal(sv.as_slice()) {
                Some(a) => Ok(MoveValue::Address(a)),
                None => Err(Error::TypeMismatch),
            },
            _ => Err(Error::TypeMismatch),
        },
        MoveTypeLayout::Signer => Err(Error::UnexpectedSignerType),
        MoveTypeLayout::Vector(t) => encode_vector_value(t, j),
        MoveTypeLayout::Struct(sl) => encode_struct_value(sl, j),
    }
}



/// Encodes a JSON value as a vector of the given element layout; byte
/// vectors accept a single hex string, other element types a JSON array.
#[verifier::loop_isolation(false)]
#[verifier::rlimit(100)]
pub fn encode_vector_value(t: &MoveTypeLayout, j: &JsonValue) -> (r: Result<MoveValue, Error>)
    ensures
        r matches Ok(v) ==> jenc_vector(t@, j@) == Ok::<ValueV, ErrorV>(v@),
        r matches Err(e) ==> jenc_vector(t@, j@) == Err::<ValueV, ErrorV>(e@),
    decreases t, j, 1int,
{
    if is_u8_layout(t) {
        match j {
            JsonValue::Str(sv) => match crate::hex::parse_hex_string(sv.as_slice()) {
                Some(bs) => {
                    if bs.len() as u64 >= 0x1_0000_0000u64 {
                        Err(Error::TypeMismatch)
                    } else {
                        let mut vals: Vec<MoveValue> = Vec::new();
                        let mut i: usize = 0;
                        while i < bs.len()
                            invariant
                                i <= bs@.len(),
                                view_values(vals@) == u8_vals(bs@).take(i as int),
                            decreases bs@.len() - i,
                        {
                            let ghost vals0 = vals@;
                            let v8 = MoveValue::U8(bs[i]);
                            vals.push(v8);
                            proof {
                                assert(vals@.drop_last() =~= vals0);
                                assert(vals@.last() == v8);
                                assert(v8@ == ValueV::U8(bs@[i as int]));
                                assert(view_values(vals@) == view_values(vals0).push(
                                    ValueV::U8(bs@[i as int]),
                                ));
                                assert(u8_vals(bs@).take(i as int).push(ValueV::U8(bs@[i as int]))
                                    =~= u8_vals(bs@).take(i + 1));
                            }
                            i += 1;
                        }
                        proof {
                            assert(u8_vals(bs@).take(bs@.len() as int) =~= u8_vals(bs@));
                        }
                        Ok(MoveValue::Vector(vals))
                    }
                },
                None => Err(Error::TypeMismatch),
            },
            _ => Err(Error::TypeMismatch),
        }
    } else {
        match j {
            JsonValue::Arr(elems) => {
                if elems.len() as u64 >= 0x1_0000_0000u64 {
                    proof {
                        crate::json::lemma_view_json_list_len(elems@);
                    }
                    Err(Error::TypeMismatch)
                } else {
                    let ghost evs = crate::json::view_json_list(elems@);
                    proof {
                        crate::json::lemma_view_json_list_len(elems@);
                        assert(evs.skip(0) =~= evs);
                        match jenc_elems(t@, evs) {
                            Ok(rest) => {
                                assert(Seq::<ValueV>::empty() + rest =~= rest);
                            },
                            Err(_) => {},
                        }
                    }
                    let mut vals: Vec<MoveValue> = Vec::new();
                    let mut i: usize = 0;
                    while i < elems.len()
                        invariant
                            i <= elems@.len(),
                            evs == crate::json::view_json_list(elems@),
                            evs.len() == elems@.len(),
                            match jenc_elems(t@, evs.skip(i as int)) {
                                Ok(rest) => jenc_elems(t@, evs) == Ok::<Seq<ValueV>, ErrorV>(
                                    view_values(vals@) + rest,
                                ),
                                Err(e) => jenc_elems(t@, evs) == Err::<Seq<ValueV>, ErrorV>(e),
                            },
                        decreases elems@.len() - i,
                    {
                        proof {
                            crate::json::lemma_view_json_list_index(elems@, i as int);
                            assert(evs.skip(i as int)[0] == elems@[i as int]@);
                        }
                        let v = match encode_json_value(t, &elems[i]) {
                            Err(e) => {
                                return Err(e);
                            },
                            Ok(v) => v,
                        };
                        let ghost vals0 = vals@;
                        vals.push(v);
                        proof {
                            assert(vals@.drop_last() =~= vals0);
                            assert(view_values(vals@) == view_values(vals0).push(v@));
                            assert(evs.skip(i as int).drop_first() =~= evs.skip(i + 1));
                            match jenc_elems(t@, evs.skip(i + 1)) {
                                Ok(rest) => {
                                    assert(view_values(vals0) + (seq![v@] + rest) =~= view_values(
                                        vals@,
                                    ) + rest);
                                },
                                Err(_) => {},
                            }
                        }
                        i += 1;
                    }
                    proof {
                        assert(evs.skip(evs.len() as int) =~= Seq::<JsonV>::empty());
                        assert(view_values(vals@) + Seq::<ValueV>::empty() =~= view_values(vals@));
                    }
                    Ok(MoveValue::Vector(vals))
                }
            },
            _ => Err(Error::TypeMismatch),
        }
    }
}

/// Encodes a JSON object as a struct with the given field layouts; the
/// produced field order always matches the declared order, not the JSON
/// member order.
#[verifier::loop_isolation(false)]
#[verifier::rlimit(100)]
pub fn encode_struct_value(sl: &MoveStructLayout, j: &JsonValue) -> (r: Result<MoveValue, Error>)
    ensures
        r matches Ok(v) ==> jenc_struct(sl@, j@) == Ok::<ValueV, ErrorV>(v@),
        r matches Err(e) ==> jenc_struct(sl@, j@) == Err::<ValueV, ErrorV>(e@),
    decreases sl, j, 1int,
{
    match j {
        JsonValue::Obj(msv) => {
            let ghost fsv = view_field_layouts(sl.fields@);
            let ghost msvv = view_json_fields(msv@);
            proof {
                lemma_view_field_layouts_len(sl.fields@);
                assert(fsv.skip(0) =~= fsv);
                match jenc_fields(fsv, msvv) {
                    Ok(rest) => {
                        assert(Seq::<ValueV>::empty() + rest =~= rest);
                    },
                    Err(_) => {},
                }
            }
            let mut vals: Vec<MoveValue> = Vec::new();
            let mut k: usize = 0;
            while k < sl.fields.len()
                invariant
                    k <= sl.fields@.len(),
                    fsv == view_field_layouts(sl.fields@),
                    fsv.len() == sl.fields@.len(),
                    msvv == view_json_fields(msv@),
                    match jenc_fields(fsv.skip(k as int), msvv) {
                        Ok(rest) => jenc_fields(fsv, msvv) == Ok::<Seq<ValueV>, ErrorV>(
                            view_values(vals@) + rest,
                        ),
                        Err(e) => jenc_fields(fsv, msvv) == Err::<Seq<ValueV>, ErrorV>(e),
                    },
                decreases sl.fields@.len() - k,
            {
                proof {
                    lemma_view_field_layouts_index(sl.fields@, k as int);
                    assert(fsv.skip(k as int)[0] == (sl.fields@[k as int].0@, sl.fields@[k as int].1@));
                }
                let jv = match obj_get(msv, sl.fields[k].0.bytes.as_slice()) {
                    None => {
                        return Err(
                            Error::MissingField {
                                field: crate::types::clone_bytes(&sl.fields[k].0.bytes),
                            },
                        );
                    },
                    Some(x) => x,
                };
                let v = match encode_json_value(&sl.fields[k].1, jv) {
                    Err(e) => {
                        return Err(e);
                    },
                    Ok(v) => v,
                };
                let ghost vals0 = vals@;
                vals.push(v);
                proof {
                    assert(vals@.drop_last() =~= vals0);
                    assert(view_values(vals@) == view_values(vals0).push(v@));
                    assert(fsv.skip(k as int).drop_first() =~= fsv.skip(k + 1));
                    match jenc_fields(fsv.skip(k + 1), msvv) {
                        Ok(rest) => {
                            assert(view_values(vals0) + (seq![v@] + rest) =~= view_values(vals@)
                                + rest);
                        },
                        Err(_) => {},
                    }
                }
                k += 1;
            }
            proof {
                assert(fsv.skip(fsv.len() as int) =~= Seq::<(Seq<u8>, LayoutV)>::empty());
                assert(view_values(vals@) + Seq::<ValueV>::empty() =~= view_values(vals@));
            }
            Ok(MoveValue::Struct(vals))
        },
        _ => Err(Error::TypeMismatch),
    }
}

/// Projects a typed value into its JSON form; see [`value_to_json`].
#[verifier::loop_isolation(false)]
#[verifier::rlimit(100)]
pub fn project_value_to_json(l: &MoveTypeLayout, v: &MoveValue) -> (r: JsonValue)
    requires
        value_matches(l@, v@),
    ensures
        r@ == value_to_json(l@, v@),
    decreases l, 0int,
{
    match (l, v) {
        (MoveTypeLayout::Bool, MoveValue::Bool(b)) => JsonValue::Bool(*b),
        (MoveTypeLayout::U8, MoveValue::U8(x)) => JsonValue::Num { neg: false, mag: *x as u128 },
        (MoveTypeLayout::U64, MoveValue::U64(x)) => JsonValue::Num { neg: false, mag: *x as u128 },
        (MoveTypeLayout::U128, MoveValue::U128(x)) => JsonValue::Num { neg: false, mag: *x },
        (MoveTypeLayout::Address, MoveValue::Address(a)) => JsonValue::Str(
            crate::hex::address_to_literal(a),
        ),
        (MoveTypeLayout::Vector(t), MoveValue::Vector(vs)) => {
            proof {
                lemma_view_values_len(vs@);
            }
            if is_u8_layout(t) {
                let mut bytes: Vec<u8> = Vec::new();
                let mut i: usize = 0;
                while i < vs.len()
                    invariant
                        i <= vs@.len(),
                        values_match(LayoutV::U8, view_values(vs@)),
                        view_values(vs@).len() == vs@.len(),
                        bytes@ =~= u8s_of(view_values(vs@)).take(i as int),
                    decreases vs@.len() - i,
                {
                    proof {
                        lemma_view_values_index(vs@, i as int);
                        lemma_values_match_index(LayoutV::U8, view_values(vs@), i as int);
                    }
                    let b = match &vs[i] {
                        MoveValue::U8(x) => *x,
                        _ => {
                            proof {
                                assert(false);
                            }
                            0
                        },
                    };
                    bytes.push(b);
                    proof {
                        assert(u8s_of(view_values(vs@)).take(i as int).push(b) =~= u8s_of(
                            view_values(vs@),
                        ).take(i + 1));
                    }
                    i += 1;
                }
                proof {
                    assert(u8s_of(view_values(vs@)).take(vs@.len() as int) =~= u8s_of(
                        view_values(vs@),
                    ));
                }
                JsonValue::Str(crate::hex::bytes_to_hex_string(bytes.as_slice()))
            } else {
                let mut elems: Vec<JsonValue> = Vec::new();
                let mut i: usize = 0;
                proof {
                    lemma_vals_to_json_len(t@, view_values(vs@));
                }
                while i < vs.len()
                    invariant
                        i <= vs@.len(),
                        values_match(t@, view_values(vs@)),
                        view_values(vs@).len() == vs@.len(),
                        vals_to_json(t@, view_values(vs@)).len() == vs@.len(),
                        crate::json::view_json_list(elems@) =~= vals_to_json(
                            t@,
                            view_values(vs@),
                        ).take(i as int),
                    decreases vs@.len() - i,
                {
                    proof {
                        lemma_view_values_index(vs@, i as int);
                        lemma_values_match_index(t@, view_values(vs@), i as int);
                        lemma_vals_to_json_index(t@, view_values(vs@), i as int);
                    }
                    let jv = project_value_to_json(t, &vs[i]);
                    let ghost elems0 = elems@;
                    elems.push(jv);
                    proof {
                        assert(elems@.drop_last() =~= elems0);
                        crate::json::lemma_view_json_list_len(elems@);
                        assert(crate::json::view_json_list(elems@) == crate::json::view_json_list(
                            elems0,
                        ).push(elems@.last()@));
                        assert(vals_to_json(t@, view_values(vs@)).take(i as int).push(
                            value_to_json(t@, view_values(vs@)[i as int]),
                        ) =~= vals_to_json(t@, view_values(vs@)).take(i + 1));
                    }
                    i += 1;
                }
                proof {
                    assert(vals_to_json(t@, view_values(vs@)).take(vs@.len() as int)
                        =~= vals_to_json(t@, view_values(vs@)));
                }
                JsonValue::Arr(elems)
            }
        },
        (MoveTypeLayout::Struct(sl), MoveValue::Struct(vs)) => {
            let ghost fsv = view_field_layouts(sl.fields@);
            let ghost vvs = view_values(vs@);
            proof {
                lemma_view_field_layouts_len(sl.fields@);
                lemma_view_values_len(vs@);
                lemma_fields_match_len(fsv, vvs);
                lemma_fields_to_json_len(fsv, vvs);
            }
            let mut members: Vec<(Vec<u8>, JsonValue)> = Vec::new();
            let mut k: usize = 0;
            while k < sl.fields.len()
                invariant
                    k <= sl.fields@.len(),
                    fsv == view_field_layouts(sl.fields@),
                    vvs == view_values(vs@),
                    fsv.len() == sl.fields@.len(),
                    vvs.len() == vs@.len(),
                    vs@.len() == sl.fields@.len(),
                    fields_match(fsv, vvs),
                    fields_to_json(fsv, vvs).len() == fsv.len(),
                    view_json_fields(members@) =~= fields_to_json(fsv, vvs).take(k as int),
                decreases sl.fields@.len() - k,
            {
                proof {
                    lemma_view_field_layouts_index(sl.fields@, k as int);
                    lemma_view_values_index(vs@, k as int);
                    lemma_fields_match_index(fsv, vvs, k as int);
                    lemma_fields_to_json_index(fsv, vvs, k as int);
                }
                let jv = project_value_to_json(&sl.fields[k].1, &vs[k]);
                let name = crate::types::clone_bytes(&sl.fields[k].0.bytes);
                let ghost members0 = members@;
                members.push((name, jv));
                proof {
                    assert(members@.drop_last() =~= members0);
                    crate::json::lemma_view_json_fields_len(members@);
                    assert(view_json_fields(members@) == view_json_fields(members0).push(
                        (members@.last().0@, members@.last().1@),
                    ));
                    assert(fields_to_json(fsv, vvs).take(k as int).push(
                        (fsv[k as int].0, value_to_json(fsv[k as int].1, vvs[k as int])),
                    ) =~= fields_to_json(fsv, vvs).take(k + 1));
                }
                k += 1;
            }
            proof {
                assert(fields_to_json(fsv, vvs).take(fsv.len() as int) =~= fields_to_json(
                    fsv,
                    vvs,
                ));
            }
            JsonValue::Obj(members)
        },
        _ => {
            proof {
                assert(false);
            }
            JsonValue::Null
        },
    }
}



// ---------------------------------------------------------------------------
// The binary value round trip: decoding an encoding yields the value back
// ---------------------------------------------------------------------------

pub open spec fn pow256(k: nat) -> nat
    decreases k,
{
    if k == 0 {
        1
    } else {
        0x100 * pow256((k - 1) as nat)
    }
}

pub proof fn lemma_pow256_widths()
    ensures
        pow256(8) == 0x1_0000_0000_0000_0000,
        pow256(16) == 0x1_0000_0000_0000_0000_0000_0000_0000_0000,
{
    assert(pow256(0) == 1);
    assert(pow256(1) == 0x100);
    assert(pow256(2) == 0x1_0000);
    assert(pow256(3) == 0x100_0000);
    assert(pow256(4) == 0x1_0000_0000);
    assert(pow256(5) == 0x100_0000_0000);
    assert(pow256(6) == 0x1_0000_0000_0000);
    assert(pow256(7) == 0x100_0000_0000_0000);
    assert(pow256(8) == 0x1_0000_0000_0000_0000);
    assert(pow256(9) == 0x100_0000_0000_0000_0000);
    assert(pow256(10) == 0x1_0000_0000_0000_0000_0000);
    assert(pow256(11) == 0x100_0000_0000_0000_0000_0000);
    assert(pow256(12) == 0x1_0000_0000_0000_0000_0000_0000);
    assert(pow256(13) == 0x100_0000_0000_0000_0000_0000_0000);
    assert(pow256(14) == 0x1_0000_0000_0000_0000_0000_0000_0000);
    assert(pow256(15) == 0x100_0000_0000_0000_0000_0000_0000_0000);
    assert(pow256(16) == 0x1_0000_0000_0000_0000_0000_0000_0000_0000);
}

/// Fixed-width little-endian bytes read back as the value they encode.
pub proof fn lemma_dec_enc_le(s: Seq<u8>, i: int, n: nat, k: nat)
    requires
        n < pow256(k),
        bytes_at(s, i, le_bytes(n, k)),
        le_bytes(n, k).len() == k,
    ensures
        le_val(s, i, k) == n,
    decreases k,
{
    if k > 0 {
        let e = le_bytes(n, k);
        let rest = le_bytes((n / 0x100) as nat, (k - 1) as nat);
        assert(s[i] == e[0]);
        assert(e[0] == (n % 0x100) as u8);
        lemma_le_bytes_len((n / 0x100) as nat, (k - 1) as nat);
        assert(s.subrange(i + 1, i + 1 + rest.len()) =~= e.subrange(1, e.len() as int));
        assert(e.subrange(1, e.len() as int) =~= rest);
        assert(n / 0x100 < pow256((k - 1) as nat)) by (nonlinear_arith)
            requires
                n < pow256(k),
                pow256(k) == 0x100 * pow256((k - 1) as nat),
                pow256((k - 1) as nat) >= 0,
        ;
        lemma_dec_enc_le(s, i + 1, (n / 0x100) as nat, (k - 1) as nat);
        assert(le_val(s, i, k) == s[i] + 0x100 * le_val(s, i + 1, (k - 1) as nat));
        assert(n % 0x100 + 0x100 * (n / 0x100) == n);
    }
}

pub proof fn lemma_le_bytes_len(n: nat, k: nat)
    ensures
        le_bytes(n, k).len() == k,
    decreases k,
{
    if k > 0 {
        lemma_le_bytes_len((n / 0x100) as nat, (k - 1) as nat);
    }
}

/// Decoding the canonical encoding of any value that matches a well-formed
/// data layout yields exactly that value.
pub proof fn lemma_dec_enc_value(l: LayoutV, v: ValueV, s: Seq<u8>, i: int)
    requires
        data_layout_wf(l),
        value_matches(l, v),
        bytes_at(s, i, enc_value(v)),
    ensures
        dec_value(l, s, i) == Some((v, i + enc_value(v).len())),
    decreases l, 0int,
{
    let e = enc_value(v);
    match l {
        LayoutV::Bool => {
            assert(s[i] == e[0]);
        },
        LayoutV::U8 => {
            assert(s[i] == e[0]);
        },
        LayoutV::U64 => {
            let x = v->U64_0;
            lemma_le_bytes_len(x as nat, 8);
            lemma_pow256_widths();
            lemma_dec_enc_le(s, i, x as nat, 8);
        },
        LayoutV::U128 => {
            let x = v->U128_0;
            lemma_le_bytes_len(x as nat, 16);
            lemma_pow256_widths();
            lemma_dec_enc_le(s, i, x as nat, 16);
        },
        LayoutV::Address => {
            assert(s.subrange(i, i + ADDRESS_LENGTH) =~= v->Address_0);
        },
        LayoutV::Signer => {
            assert(false);
        },
        LayoutV::Vector(t) => {
            let vs = v->Vector_0;
            let lenb = enc_uleb(vs.len());
            crate::canon::lemma_enc_uleb_len(vs.len());
            assert(s.subrange(i, i + lenb.len()) =~= e.subrange(0, lenb.len() as int));
            assert(e.subrange(0, lenb.len() as int) =~= lenb);
            lemma_dec_enc_uleb(s, i, vs.len());
            let j = i + lenb.len();
            assert(s.subrange(j, j + enc_values(vs).len()) =~= e.subrange(
                lenb.len() as int,
                e.len() as int,
            ));
            assert(e.subrange(lenb.len() as int, e.len() as int) =~= enc_values(vs));
            lemma_dec_enc_velems(*t, vs, s, j);
        },
        LayoutV::Struct(fs) => {
            lemma_fields_match_len(fs, v->Struct_0);
            lemma_dec_enc_vfields(fs, v->Struct_0, s, i);
        },
    }
}

pub proof fn lemma_dec_enc_velems(t: LayoutV, vs: Seq<ValueV>, s: Seq<u8>, i: int)
    requires
        data_layout_wf(t),
        values_match(t, vs),
        bytes_at(s, i, enc_values(vs)),
    ensures
        dec_velems(t, s, i, vs.len()) == Some((vs, i + enc_values(vs).len())),
    decreases t, vs.len() + 1,
{
    if vs.len() == 0 {
        assert(vs =~= Seq::<ValueV>::empty());
    } else {
        let e = enc_values(vs);
        let e0 = enc_value(vs[0]);
        let rest = vs.drop_first();
        let erest = enc_values(rest);
        assert(s.subrange(i, i + e0.len()) =~= e.subrange(0, e0.len() as int));
        assert(e.subrange(0, e0.len() as int) =~= e0);
        lemma_dec_enc_value(t, vs[0], s, i);
        let j = i + e0.len();
        assert(s.subrange(j, j + erest.len()) =~= e.subrange(e0.len() as int, e.len() as int));
        assert(e.subrange(e0.len() as int, e.len() as int) =~= erest);
        lemma_dec_enc_velems(t, rest, s, j);
        assert(seq![vs[0]] + rest =~= vs);
    }
}

pub proof fn lemma_dec_enc_vfields(
    fs: Seq<(Seq<u8>, LayoutV)>,
    vs: Seq<ValueV>,
    s: Seq<u8>,
    i: int,
)
    requires
        data_layout_wf(LayoutV::Struct(fs)),
        fields_match(fs, vs),
        bytes_at(s, i, enc_values(vs)),
    ensures
        dec_vfields(fs, s, i) == Some((vs, i + enc_values(vs).len())),
    decreases fs, 1int,
{
    lemma_fields_match_len(fs, vs);
    if fs.len() == 0 {
        assert(vs =~= Seq::<ValueV>::empty());
    } else {
        let e = enc_values(vs);
        let e0 = enc_value(vs[0]);
        let vrest = vs.drop_first();
        let erest = enc_values(vrest);
        assert(s.subrange(i, i + e0.len()) =~= e.subrange(0, e0.len() as int));
        assert(e.subrange(0, e0.len() as int) =~= e0);
        lemma_fields_layout_wf_index(fs, 0);
        lemma_dec_enc_value(fs[0].1, vs[0], s, i);
        let j = i + e0.len();
        assert(s.subrange(j, j + erest.len()) =~= e.subrange(e0.len() as int, e.len() as int));
        assert(e.subrange(e0.len() as int, e.len() as int) =~= erest);
        assert(data_layout_wf(LayoutV::Struct(fs.drop_first()))) by {
            assert(fields_layout_wf(fs));
            assert(fields_layout_wf(fs.drop_first()));
            assert forall|m: int| 0 <= m < fs.drop_first().len() implies ident_wf(
                (#[trigger] fs.drop_first()[m]).0,
            ) by {
                assert(fs.drop_first()[m] == fs[m + 1]);
            }
            assert forall|m: int, m2: int|
                0 <= m < m2 < fs.drop_first().len() implies (#[trigger] fs.drop_first()[m]).0 != (
            #[trigger] fs.drop_first()[m2]).0 by {
                assert(fs.drop_first()[m] == fs[m + 1]);
                assert(fs.drop_first()[m2] == fs[m2 + 1]);
            }
        }
        lemma_dec_enc_vfields(fs.drop_first(), vrest, s, j);
        assert(seq![vs[0]] + vrest =~= vs);
    }
}

/// The full round trip: the canonical encoding of any value that matches a
/// well-formed data layout decodes back to exactly that value.
pub proof fn lemma_value_codec_roundtrip(l: LayoutV, v: ValueV)
    requires
        data_layout_wf(l),
        value_matches(l, v),
    ensures
        decode_value_spec(l, enc_value(v)) == Some(v),
{
    let s = enc_value(v);
    assert(s.subrange(0, s.len() as int) =~= s);
    lemma_dec_enc_value(l, v, s, 0);
}



/// The JSON projection of any matching value is printable and parseable.
pub proof fn lemma_value_to_json_wf(l: LayoutV, v: ValueV)
    requires
        value_matches(l, v),
    ensures
        crate::json::json_wf(value_to_json(l, v)),
    decreases l, 0int,
{
    match l {
        LayoutV::Vector(t) => {
            if !(*t is U8) {
                lemma_vals_to_json_len(*t, v->Vector_0);
                lemma_vals_to_json_wf(*t, v->Vector_0);
            }
        },
        LayoutV::Struct(fs) => {
            lemma_fields_to_json_wf(fs, v->Struct_0);
        },
        _ => {},
    }
}

pub proof fn lemma_vals_to_json_wf(t: LayoutV, vs: Seq<ValueV>)
    requires
        values_match(t, vs),
    ensures
        crate::json::json_list_wf(vals_to_json(t, vs)),
    decreases t, vs.len() + 1,
{
    if vs.len() > 0 {
        lemma_value_to_json_wf(t, vs[0]);
        lemma_vals_to_json_wf(t, vs.drop_first());
        assert(vals_to_json(t, vs)[0] == value_to_json(t, vs[0]));
        assert(vals_to_json(t, vs).drop_first() =~= vals_to_json(t, vs.drop_first()));
    }
}

pub proof fn lemma_fields_to_json_wf(fs: Seq<(Seq<u8>, LayoutV)>, vs: Seq<ValueV>)
    requires
        fields_match(fs, vs),
    ensures
        crate::json::json_fields_wf(fields_to_json(fs, vs)),
    decreases fs, 1int,
{
    lemma_fields_match_len(fs, vs);
    if fs.len() > 0 {
        lemma_value_to_json_wf(fs[0].1, vs[0]);
        lemma_fields_to_json_wf(fs.drop_first(), vs.drop_first());
        assert(fields_to_json(fs, vs)[0] == (fs[0].0, value_to_json(fs[0].1, vs[0])));
        assert(fields_to_json(fs, vs).drop_first() =~= fields_to_json(
            fs.drop_first(),
            vs.drop_first(),
        ));
    }
}

/// The displayed-text inverse: printing the JSON projection of a decoded
/// value, parsing the text back, and encoding it against the same layout
/// reproduces the value exactly.
pub proof fn lemma_display_text_roundtrip(l: LayoutV, v: ValueV)
    requires
        data_layout_wf(l),
        value_matches(l, v),
    ensures
        crate::json::json_parse(crate::json::print_json(value_to_json(l, v))) == Some(
            value_to_json(l, v),
        ),
        jenc_value(l, value_to_json(l, v)) == Ok::<ValueV, ErrorV>(v),
{
    lemma_value_to_json_wf(l, v);
    crate::json::lemma_json_print_parse_roundtrip(value_to_json(l, v));
    lemma_encode_inverts_decode(l, v);
}


} // verus!
