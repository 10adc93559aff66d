//! The value converter: JSON to typed values for call arguments and table
//! keys, and raw bytes plus a resolved layout to JSON for display; plus the
//! fixed state view handed to the layout annotator.
use vstd::prelude::*;
use crate::canon::{enc_module_id, parse_canonical_spec, parse_canonical, module_id_to_canonical};
use crate::errors::{Error, ErrorV};
use crate::json::{JsonV, JsonValue, json_parse, parse_json, json_to_bytes, print_json};
use crate::types::{
    AccountAddress, Identifier, ModuleId, StructTag, TypeTag, TypeTagV, clone_bytes,
    derive_module_id,
};
use crate::value::{
    LayoutV, MoveStructLayout, MoveTypeLayout, MoveValue, ValueV, decode_value, decode_value_spec,
    encode_json_value, encode_struct_value, encode_vector_value, jenc_struct, jenc_value,
    jenc_vector, lemma_dec_value_matches, project_value_to_json, u8_vals, value_to_json,
    view_values,
};

verus! {

broadcast use vstd::std_specs::vec::group_vec_axioms, vstd::seq::group_seq_axioms;

// ---------------------------------------------------------------------------
// A fixed state view
// ---------------------------------------------------------------------------

/// A state view over one resource blob and one module blob: the resolver
/// pair handed to the layout annotator when all context is already in hand.
pub struct StateView {
    pub bytes: Vec<u8>,
    pub module_bytes: Vec<u8>,
}

impl StateView {
    pub fn new(bytes: Vec<u8>, module_bytes: Vec<u8>) -> (r: StateView)
        ensures
            r.bytes@ == bytes@,
            r.module_bytes@ == module_bytes@,
    {
        StateView { bytes, module_bytes }
    }

    /// Module resolution against this view: always the stored module blob.
    pub fn get_module(&self, _module_id: &ModuleId) -> (r: Option<Vec<u8>>)
        ensures
            r matches Some(b) && b@ == self.module_bytes@,
    {
        Some(clone_bytes(&self.module_bytes))
    }

    /// Resource resolution against this view: always the stored blob.
    pub fn get_resource(&self, _address: &AccountAddress, _tag: &StructTag) -> (r: Option<Vec<u8>>)
        ensures
            r matches Some(b) && b@ == self.bytes@,
    {
        Some(clone_bytes(&self.bytes))
    }
}

// ---------------------------------------------------------------------------
// Tag-to-layout resolution for dependency-free tags
// ---------------------------------------------------------------------------

/// The layout of a type tag that needs no struct resolution; struct tags
/// require the layout annotator and have no direct layout here.
pub open spec fn tag_layout_spec(t: TypeTagV) -> Option<LayoutV>
    decreases t,
{
    match t {
        TypeTagV::Bool => Some(LayoutV::Bool),
        TypeTagV::U8 => Some(LayoutV::U8),
        TypeTagV::U64 => Some(LayoutV::U64),
        TypeTagV::U128 => Some(LayoutV::U128),
        TypeTagV::Address => Some(LayoutV::Address),
        TypeTagV::Signer => Some(LayoutV::Signer),
        TypeTagV::Vector(inner) => match tag_layout_spec(*inner) {
            None => None,
            Some(l) => Some(LayoutV::Vector(Box::new(l))),
        },
        TypeTagV::Struct(_) => None,
    }
}

/// Resolves a dependency-free type tag to its layout.
pub fn tag_to_layout(t: &TypeTag) -> (r: Option<MoveTypeLayout>)
    ensures
        match r {
            Some(l) => tag_layout_spec(t@) == Some(l@),
            None => tag_layout_spec(t@) is None,
        },
    decreases t,
{
    match t {
        TypeTag::Bool => Some(MoveTypeLayout::Bool),
        TypeTag::U8 => Some(MoveTypeLayout::U8),
        TypeTag::U64 => Some(MoveTypeLayout::U64),
        TypeTag::U128 => Some(MoveTypeLayout::U128),
        TypeTag::Address => Some(MoveTypeLayout::Address),
        TypeTag::Signer => Some(MoveTypeLayout::Signer),
        TypeTag::Vector(inner) => match tag_to_layout(inner) {
            None => None,
            Some(l) => Some(MoveTypeLayout::Vector(Box::new(l))),
        },
        TypeTag::Struct(_) => None,
    }
}

// ---------------------------------------------------------------------------
// Argument lists
// ---------------------------------------------------------------------------

/// UTF-8 bytes of a string value.
pub open spec fn utf8_bytes(s: Seq<char>) -> Seq<u8> {
    vstd::utf8::encode_utf8(s)
}

/// The byte form of each argument string.
pub open spec fn args_bytes(args: Seq<String>) -> Seq<Seq<u8>> {
    Seq::new(args.len(), |i: int| utf8_bytes(args[i]@))
}

/// Length of the maximal prefix of `Signer` layouts.
pub open spec fn signers_prefix(ls: Seq<LayoutV>) -> int
    decreases ls,
{
    if ls.len() > 0 && ls[0] is Signer {
        1 + signers_prefix(ls.drop_first())
    } else {
        0
    }
}

pub proof fn lemma_signers_prefix(ls: Seq<LayoutV>)
    ensures
        0 <= signers_prefix(ls) <= ls.len(),
        forall|m: int| 0 <= m < signers_prefix(ls) ==> (#[trigger] ls[m]) is Signer,
        signers_prefix(ls) < ls.len() ==> !(ls[signers_prefix(ls)] is Signer),
    decreases ls,
{
    if ls.len() > 0 && ls[0] is Signer {
        lemma_signers_prefix(ls.drop_first());
        assert forall|m: int| 0 <= m < signers_prefix(ls) implies (#[trigger] ls[m]) is Signer by {
            if m > 0 {
                assert(ls.drop_first()[m - 1] == ls[m]);
            }
        }
        if signers_prefix(ls) < ls.len() {
            assert(ls.drop_first()[signers_prefix(ls) - 1] == ls[signers_prefix(ls)]);
        }
    }
}

/// Pairwise conversion of argument byte strings against data layouts:
/// each argument is parsed as JSON and encoded against its layout; the
/// first failure is reported.
pub open spec fn convert_args_spec(params: Seq<LayoutV>, args: Seq<Seq<u8>>) -> Result<
    Seq<ValueV>,
    ErrorV,
>
    decreases params,
{
    if params.len() == 0 {
        Ok(Seq::empty())
    } else {
        match json_parse(args[0]) {
            None => Err(ErrorV::TypeMismatch),
            Some(jv) => match jenc_value(params[0], jv) {
                Err(e) => Err(e),
                Ok(v) => match convert_args_spec(params.drop_first(), args.drop_first()) {
                    Err(e) => Err(e),
                    Ok(rest) => Ok(seq![v] + rest),
                },
            },
        }
    }
}

/// Conversion of a full parameter list: leading `Signer` parameters are
/// stripped, the remaining count must equal the argument count, and each
/// argument is converted in order.
pub open spec fn try_into_vm_values_spec(params: Seq<LayoutV>, args: Seq<Seq<u8>>) -> Result<
    Seq<ValueV>,
    ErrorV,
>{
    let ps = params.skip(signers_prefix(params));
    if ps.len() != args.len() {
        Err(ErrorV::ArityMismatch { expected: ps.len() as nat, got: args.len() as nat })
    } else {
        convert_args_spec(ps, args)
    }
}

/// View of a layout list.
pub open spec fn view_layouts(ls: Seq<MoveTypeLayout>) -> Seq<LayoutV>
    decreases ls,
{
    if ls.len() == 0 {
        Seq::empty()
    } else {
        view_layouts(ls.drop_last()).push(ls.last()@)
    }
}

pub broadcast proof fn lemma_view_layouts_len(ls: Seq<MoveTypeLayout>)
    ensures
        #[trigger] view_layouts(ls).len() == ls.len(),
    decreases ls,
{
    if ls.len() > 0 {
        assert(view_layouts(ls) == view_layouts(ls.drop_last()).push(ls.last()@));
        lemma_view_layouts_len(ls.drop_last());
    } else {
        assert(view_layouts(ls) == Seq::<LayoutV>::empty());
    }
}

pub broadcast proof fn lemma_view_layouts_index(ls: Seq<MoveTypeLayout>, i: int)
    requires
        0 <= i < ls.len(),
    ensures
        #[trigger] view_layouts(ls)[i] == ls[i]@,
    decreases ls,
{
    lemma_view_layouts_len(ls);
    assert(view_layouts(ls) == view_layouts(ls.drop_last()).push(ls.last()@));
    if i < ls.len() - 1 {
        lemma_view_layouts_index(ls.drop_last(), i);
    }
}

/// The Move converter: JSON to canonical typed values and back.
pub struct MoveConverter {}

impl MoveConverter {
    /// Converts caller argument strings against declared parameter layouts:
    /// leading signers stripped, arity enforced, each argument parsed as
    /// JSON and encoded in order.
    #[verifier::loop_isolation(false)]
    #[verifier::rlimit(100)]
    pub fn try_into_vm_values(params: &[MoveTypeLayout], args: &[String]) -> (r: Result<
        Vec<MoveValue>,
        Error,
    >)
        ensures
            r matches Ok(vs) ==> try_into_vm_values_spec(view_layouts(params@), args_bytes(args@))
                == Ok::<Seq<ValueV>, ErrorV>(view_values(vs@)),
            r matches Err(e) ==> try_into_vm_values_spec(view_layouts(params@), args_bytes(args@))
                == Err::<Seq<ValueV>, ErrorV>(e@),
    {
        let ghost lv = view_layouts(params@);
        proof {
            lemma_view_layouts_len(params@);
            lemma_signers_prefix(lv);
        }
        let mut sp: usize = 0;
        while sp < params.len() && crate::value::is_signer_layout(&params[sp])
            invariant
                sp <= params@.len(),
                forall|m: int| 0 <= m < sp ==> (#[trigger] lv[m]) is Signer,
            decreases params@.len() - sp,
        {
            proof {
                lemma_view_layouts_index(params@, sp as int);
            }
            sp += 1;
        }
        proof {
            if sp < params@.len() {
                lemma_view_layouts_index(params@, sp as int);
            }
            lemma_signers_prefix_exact(lv, sp as int);
        }
        let data_count = params.len() - sp;
        if data_count != args.len() {
            return Err(Error::ArityMismatch { expected: data_count, got: args.len() });
        }
        let ghost ps = lv.skip(sp as int);
        let ghost abs = args_bytes(args@);
        proof {
            assert(ps.skip(0) =~= ps);
            assert(abs.skip(0) =~= abs);
            match convert_args_spec(ps, abs) {
                Ok(rest) => {
                    assert(Seq::<ValueV>::empty() + rest =~= rest);
                },
                Err(_) => {},
            }
        }
        let mut vals: Vec<MoveValue> = Vec::new();
        let mut k: usize = 0;
        while k < args.len()
            invariant
                k <= args@.len(),
                sp + args@.len() == params@.len(),
                lv == view_layouts(params@),
                lv.len() == params@.len(),
                ps == lv.skip(sp as int),
                abs == args_bytes(args@),
                match convert_args_spec(ps.skip(k as int), abs.skip(k as int)) {
                    Ok(rest) => convert_args_spec(ps, abs) == Ok::<Seq<ValueV>, ErrorV>(
                        view_values(vals@) + rest,
                    ),
                    Err(e) => convert_args_spec(ps, abs) == Err::<Seq<ValueV>, ErrorV>(e),
                },
            decreases args@.len() - k,
        {
            proof {
                lemma_view_layouts_index(params@, sp + k);
                assert(ps.skip(k as int)[0] == lv[sp + k]);
                assert(abs.skip(k as int)[0] == abs[k as int]);
            }
            let arg_bytes = args[k].as_str().as_bytes();
            let jv = match parse_json(arg_bytes) {
                Err(_) => {
                    return Err(Error::TypeMismatch);
                },
                Ok(x) => x,
            };
            let v = match encode_json_value(&params[sp + k], &jv) {
                Err(e) => {
                    return Err(e);
                },
                Ok(v) => v,
            };
            let ghost vals0 = vals@;
            vals.push(v);
            proof {
                assert(vals@.drop_last() =~= vals0);
                assert(view_values(vals@) == view_values(vals0).push(v@));
                assert(ps.skip(k as int).drop_first() =~= ps.skip(k + 1));
                assert(abs.skip(k as int).drop_first() =~= abs.skip(k + 1));
                match convert_args_spec(ps.skip(k + 1), abs.skip(k + 1)) {
                    Ok(rest) => {
                        assert(view_values(vals0) + (seq![v@] + rest) =~= view_values(vals@)
                            + rest);
                    },
                    Err(_) => {},
                }
            }
            k += 1;
        }
        proof {
            assert(ps.skip(args@.len() as int) =~= Seq::<LayoutV>::empty());
            assert(abs.skip(args@.len() as int) =~= Seq::<Seq<u8>>::empty());
            assert(convert_args_spec(
                ps.skip(args@.len() as int),
                abs.skip(args@.len() as int),
            ) == Ok::<Seq<ValueV>, ErrorV>(Seq::empty()));
            assert(view_values(vals@) + Seq::<ValueV>::empty() =~= view_values(vals@));
        }
        Ok(vals)
    }

    /// Converts one JSON value against a dependency-free type tag.
    pub fn try_into_vm_value_from_tag(type_tag: &TypeTag, val: &JsonValue) -> (r: Result<
        MoveValue,
        Error,
    >)
        ensures
            r matches Ok(v) ==> tag_layout_spec(type_tag@) matches Some(l) && jenc_value(l, val@)
                == Ok::<ValueV, ErrorV>(v@),
            r matches Err(e) ==> (tag_layout_spec(type_tag@) is None && e@
                == ErrorV::UnsupportedParameterType) || (tag_layout_spec(type_tag@) matches Some(l)
                && jenc_value(l, val@) == Err::<ValueV, ErrorV>(e@)),
    {
        match tag_to_layout(type_tag) {
            None => Err(Error::UnsupportedParameterType),
            Some(l) => MoveConverter::try_into_vm_value(&l, val),
        }
    }

    /// Converts one JSON value against a layout.
    pub fn try_into_vm_value(layout: &MoveTypeLayout, val: &JsonValue) -> (r: Result<
        MoveValue,
        Error,
    >)
        ensures
            r matches Ok(v) ==> jenc_value(layout@, val@) == Ok::<ValueV, ErrorV>(v@),
            r matches Err(e) ==> jenc_value(layout@, val@) == Err::<ValueV, ErrorV>(e@),
    {
        encode_json_value(layout, val)
    }

    /// Converts one JSON value as a vector of the given element layout.
    pub fn try_into_vm_value_vector(layout: &MoveTypeLayout, val: &JsonValue) -> (r: Result<
        MoveValue,
        Error,
    >)
        ensures
            r matches Ok(v) ==> jenc_vector(layout@, val@) == Ok::<ValueV, ErrorV>(v@),
            r matches Err(e) ==> jenc_vector(layout@, val@) == Err::<ValueV, ErrorV>(e@),
    {
        encode_vector_value(layout, val)
    }

    /// Converts one JSON object against a struct layout.
    pub fn try_into_vm_value_struct(layout: &MoveStructLayout, val: &JsonValue) -> (r: Result<
        MoveValue,
        Error,
    >)
        ensures
            r matches Ok(v) ==> jenc_struct(layout@, val@) == Ok::<ValueV, ErrorV>(v@),
            r matches Err(e) ==> jenc_struct(layout@, val@) == Err::<ValueV, ErrorV>(e@),
    {
        encode_struct_value(layout, val)
    }

    /// Decodes canonical value bytes against a dependency-free type tag and
    /// projects the value into JSON.
    pub fn try_into_move_value(typ: &TypeTag, bytes: &[u8]) -> (r: Result<JsonValue, Error>)
        ensures
            r matches Ok(j) ==> move_value_json_spec(typ@, bytes@) == Ok::<JsonV, ErrorV>(j@),
            r matches Err(e) ==> move_value_json_spec(typ@, bytes@) == Err::<JsonV, ErrorV>(e@),
    {
        match tag_to_layout(typ) {
            None => Err(Error::UnsupportedParameterType),
            Some(l) => {
                match decode_value(&l, bytes) {
                    Err(_) => Err(Error::CorruptEncoding),
                    Ok(v) => {
                        proof {
                            lemma_dec_value_matches(l@, bytes@, 0);
                        }
                        Ok(project_value_to_json(&l, &v))
                    },
                }
            },
        }
    }
}

/// The JSON display of canonical value bytes under a dependency-free tag.
pub open spec fn move_value_json_spec(t: TypeTagV, bs: Seq<u8>) -> Result<JsonV, ErrorV> {
    match tag_layout_spec(t) {
        None => Err(ErrorV::UnsupportedParameterType),
        Some(l) => match decode_value_spec(l, bs) {
            None => Err(ErrorV::CorruptEncoding),
            Some(v) => Ok(value_to_json(l, v)),
        },
    }
}

pub proof fn lemma_signers_prefix_exact(ls: Seq<LayoutV>, sp: int)
    requires
        0 <= sp <= ls.len(),
        forall|m: int| 0 <= m < sp ==> (#[trigger] ls[m]) is Signer,
        sp < ls.len() ==> !(ls[sp] is Signer),
    ensures
        signers_prefix(ls) == sp,
    decreases ls,
{
    if ls.len() > 0 && ls[0] is Signer {
        assert(sp > 0);
        assert forall|m: int| 0 <= m < sp - 1 implies (#[trigger] ls.drop_first()[m]) is Signer by {
            assert(ls.drop_first()[m] == ls[m + 1]);
        }
        lemma_signers_prefix_exact(ls.drop_first(), sp - 1);
    } else {
        assert(sp == 0);
    }
}

// ---------------------------------------------------------------------------
// Resource and table-value display
// ---------------------------------------------------------------------------

/// Decodes a resource blob against its fully resolved layout and projects
/// it into JSON. The layout comes from the layout annotator, which resolves
/// the whole struct dependency chain.
pub fn struct_to_json(layout: &MoveTypeLayout, res: &[u8]) -> (r: Result<JsonValue, Error>)
    ensures
        r matches Ok(j) ==> decode_value_spec(layout@, res@) matches Some(v) && j@ == value_to_json(
            layout@,
            v,
        ),
        r is Err <==> decode_value_spec(layout@, res@) is None,
        r matches Err(e) ==> e@ == ErrorV::CorruptEncoding,
{
    match decode_value(layout, res) {
        Err(_) => Err(Error::CorruptEncoding),
        Ok(v) => {
            proof {
                lemma_dec_value_matches(layout@, res@, 0);
            }
            Ok(project_value_to_json(layout, &v))
        },
    }
}

/// Renders a table entry as JSON text against its resolved value layout.
/// Empty bytes signal "no such entry" and yield `None` rather than an
/// error, so clients can tell an absent entry from a bad request.
pub fn table_item_value_bytes(value_layout: &MoveTypeLayout, bytes: &[u8]) -> (r: Result<
    Option<Vec<u8>>,
    Error,
>)
    ensures
        bytes@.len() == 0 ==> (r matches Ok(o) && o is None),
        bytes@.len() > 0 ==> match decode_value_spec(value_layout@, bytes@) {
            None => r matches Err(e) && e@ == ErrorV::CorruptEncoding,
            Some(v) => r matches Ok(o) && o matches Some(b) && b@ == print_json(
                value_to_json(value_layout@, v),
            ),
        },
{
    if bytes.len() == 0 {
        return Ok(None);
    }
    match struct_to_json(value_layout, bytes) {
        Err(e) => Err(e),
        Ok(j) => Ok(Some(json_to_bytes(&j))),
    }
}

/// Builds the canonical runtime representation of a UTF-8 string value: a
/// one-field struct holding the byte vector.
pub fn new_vm_utf8_string(string: &str) -> (r: MoveValue)
    ensures
        r@ == ValueV::Struct(seq![ValueV::Vector(u8_vals(utf8_bytes(string@)))]),
{
    let bs = string.as_bytes();
    let mut bytes: Vec<MoveValue> = Vec::new();
    let mut i: usize = 0;
    while i < bs.len()
        invariant
            i <= bs@.len(),
            bs@ == utf8_bytes(string@),
            view_values(bytes@) =~= u8_vals(bs@).take(i as int),
        decreases bs@.len() - i,
    {
        let v8 = MoveValue::U8(bs[i]);
        let ghost bytes0 = bytes@;
        bytes.push(v8);
        proof {
            assert(bytes@.drop_last() =~= bytes0);
            assert(bytes@.last() == v8);
            assert(v8@ == ValueV::U8(bs@[i as int]));
            crate::value::lemma_view_values_len(bytes@);
            assert(view_values(bytes@) == view_values(bytes0).push(ValueV::U8(bs@[i as int])));
            assert(u8_vals(bs@).take(i as int).push(ValueV::U8(bs@[i as int])) =~= u8_vals(
                bs@,
            ).take(i + 1));
        }
        i += 1;
    }
    proof {
        assert(u8_vals(bs@).take(bs@.len() as int) =~= u8_vals(bs@));
    }
    let byte_vector = MoveValue::Vector(bytes);
    let ghost bv = byte_vector@;
    let mut fields: Vec<MoveValue> = Vec::new();
    fields.push(byte_vector);
    proof {
        assert(bv == ValueV::Vector(u8_vals(utf8_bytes(string@))));
        assert(fields@.drop_last() =~= Seq::<MoveValue>::empty());
        assert(fields@.last()@ == bv);
        assert(view_values(fields@) == view_values(Seq::<MoveValue>::empty()).push(bv));
        assert(view_values(Seq::<MoveValue>::empty()) == Seq::<ValueV>::empty());
        assert(view_values(fields@) =~= seq![ValueV::Vector(u8_vals(utf8_bytes(string@)))]);
    }
    MoveValue::Struct(fields)
}

/// Decodes a canonical struct-tag encoding, returning the encoding, the
/// tag, and the canonical module id bytes it points at.
pub fn parse_struct_tag_string(tag: Vec<u8>) -> (r: Result<(Vec<u8>, StructTag, Vec<u8>), Vec<u8>>)
    ensures
        r matches Ok((b, st, mb)) ==> parse_canonical_spec(tag@) == Some(st@) && st.wf() && b@
            == tag@ && mb@ == enc_module_id(
            crate::types::ModuleIdV { addr: st@.addr, name: st@.module },
        ),
        r is Err <==> parse_canonical_spec(tag@) is None,
{
    match parse_canonical(tag.as_slice()) {
        Err(_) => Err(clone_bytes(&tag)),
        Ok(st) => {
            let module_id = derive_module_id(&st);
            let mb = module_id_to_canonical(&module_id);
            Ok((tag, st, mb))
        },
    }
}


/// Reads a struct tag from its textual form, returning its canonical
/// encoding, the tag, and the canonical module id bytes it points at.
pub fn parse_struct_tag_string3(tag: Vec<u8>) -> (r: Result<(Vec<u8>, StructTag, Vec<u8>), Vec<u8>>)
    ensures
        r matches Ok((b, st, mb)) ==> ({
            &&& crate::text::parse_textual_spec(tag@) == Some(st@)
            &&& st.wf()
            &&& b@ == crate::canon::enc_struct_tag(st@)
            &&& mb@ == enc_module_id(crate::types::ModuleIdV { addr: st@.addr, name: st@.module })
        }),
        r is Err <==> crate::text::parse_textual_spec(tag@) is None,
{
    match crate::text::parse_textual(tag.as_slice()) {
        Err(_) => Err(tag),
        Ok(st) => {
            let b = crate::canon::to_canonical(&st);
            let module_id = derive_module_id(&st);
            let mb = module_id_to_canonical(&module_id);
            Ok((b, st, mb))
        },
    }
}

/// Key construction for a table lookup: the textual key type is read and
/// resolved to a layout, the JSON key text is parsed and encoded against
/// it, and the canonical binary encoding of the result is the storage key.
/// Any failure in the chain is `KeyConstructionFailed`.
pub open spec fn table_key_spec(ktext: Seq<u8>, kjson: Seq<u8>) -> Result<Seq<u8>, ErrorV> {
    match crate::text::parse_type_tag_text_spec(ktext) {
        None => Err(ErrorV::KeyConstructionFailed),
        Some(t) => match tag_layout_spec(t) {
            None => Err(ErrorV::KeyConstructionFailed),
            Some(l) => match json_parse(kjson) {
                None => Err(ErrorV::KeyConstructionFailed),
                Some(j) => match jenc_value(l, j) {
                    Err(_) => Err(ErrorV::KeyConstructionFailed),
                    Ok(v) => Ok(crate::value::enc_value(v)),
                },
            },
        },
    }
}

/// Builds the canonical binary key for a table lookup from the textual key
/// type and the JSON key value.
pub fn table_item_key(key_type: Vec<u8>, key: Vec<u8>) -> (r: Result<Vec<u8>, Error>)
    ensures
        r matches Ok(b) ==> table_key_spec(key_type@, key@) == Ok::<Seq<u8>, ErrorV>(b@),
        r matches Err(e) ==> table_key_spec(key_type@, key@) == Err::<Seq<u8>, ErrorV>(e@),
{
    let t = match crate::text::parse_type_tag_text(key_type.as_slice()) {
        Err(_) => {
            return Err(Error::KeyConstructionFailed);
        },
        Ok(t) => t,
    };
    let l = match tag_to_layout(&t) {
        None => {
            return Err(Error::KeyConstructionFailed);
        },
        Some(l) => l,
    };
    let j = match crate::json::parse_json(key.as_slice()) {
        Err(_) => {
            return Err(Error::KeyConstructionFailed);
        },
        Ok(j) => j,
    };
    let v = match encode_json_value(&l, &j) {
        Err(_) => {
            return Err(Error::KeyConstructionFailed);
        },
        Ok(v) => v,
    };
    Ok(crate::value::serialize_value(&v))
}


} // verus!
