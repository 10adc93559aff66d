//! The call-argument binder: reconciling a function's declared parameter
//! layouts against the caller's positional string arguments, and building
//! the resulting function-call transaction.
use vstd::prelude::*;
use vstd::slice::slice_subrange;
use crate::canon::enc_module_id;
use crate::convert::{
    MoveConverter, args_bytes, signers_prefix, try_into_vm_values_spec, utf8_bytes, view_layouts,
    lemma_view_layouts_len, lemma_view_layouts_index, lemma_signers_prefix_exact,
};
use crate::errors::{Error, ErrorV};
use crate::hex::{addr_lit_wf, addr_of_lit, parse_address_literal};
use crate::info::{CompiledModule, Script, FunctionDeclV, ScriptV, find_script_spec,
    find_script_function, script_of, lemma_view_opt_layouts_len, lemma_view_opt_layouts_index,
    view_opt_layouts};
use crate::model::{
    Signer, SignerV, Signers, enc_func_tx, new_func_tx, from_str, signer_of_str, view_signers,
    lemma_view_signers_len, lemma_view_signers_index,
};
use crate::types::{
    AccountAddress, Identifier, ModuleIdV, ident_wf, ident_bytes_ok,
};
use crate::value::{LayoutV, MoveTypeLayout, MoveValue, ValueV, view_values};

verus! {

broadcast use vstd::std_specs::vec::group_vec_axioms, vstd::seq::group_seq_axioms;

// ---------------------------------------------------------------------------
// The binder
// ---------------------------------------------------------------------------

/// The signer slots of a call: the first `ai` designators the caller
/// supplied, and a placeholder for every slot the caller omitted.
pub open spec fn bind_signers_spec(args: Seq<Seq<u8>>, sc: int, ai: int) -> Seq<SignerV> {
    Seq::new(
        sc as nat,
        |i: int|
            if i < ai {
                signer_of_str(args[i])
            } else {
                SignerV::Placeholder
            },
    )
}

/// The binder: counts the maximal prefix of `Signer` parameters, treats the
/// trailing arguments as data arguments (failing on a shortfall), converts
/// them in order, and fills signer slots from the leading arguments with
/// placeholders for any the caller omitted.
pub open spec fn bind_spec(params: Seq<LayoutV>, args: Seq<Seq<u8>>) -> Result<
    (Seq<SignerV>, Seq<ValueV>),
    ErrorV,
> {
    let sc = signers_prefix(params);
    let dc = params.len() - sc;
    if args.len() < dc {
        Err(ErrorV::ArityMismatch { expected: dc as nat, got: args.len() as nat })
    } else {
        let ai = args.len() - dc;
        match try_into_vm_values_spec(params.skip(sc), args.skip(ai)) {
            Err(e) => Err(e),
            Ok(vs) => Ok((bind_signers_spec(args, sc, ai), vs)),
        }
    }
}

/// Binds caller arguments against declared parameter layouts; see
/// [`bind_spec`] for the exact algorithm.
#[verifier::loop_isolation(false)]
#[verifier::rlimit(100)]
pub fn prepare_function_signature(code_args: &[MoveTypeLayout], call_args: &[String]) -> (r: Result<
    (Signers, Vec<MoveValue>),
    Error,
>)
    ensures
        r matches Ok((sgs, vals)) ==> bind_spec(view_layouts(code_args@), args_bytes(call_args@))
            matches Ok(p) && sgs matches Signers::Implicit(v) && view_signers(v@) == p.0
            && view_values(vals@) == p.1,
        r matches Err(e) ==> bind_spec(view_layouts(code_args@), args_bytes(call_args@)) == Err::<
            (Seq<SignerV>, Seq<ValueV>),
            ErrorV,
        >(e@),
{
    let ghost lv = view_layouts(code_args@);
    let ghost abs = args_bytes(call_args@);
    proof {
        lemma_view_layouts_len(code_args@);
    }
    let mut sc: usize = 0;
    while sc < code_args.len() && crate::value::is_signer_layout(&code_args[sc])
        invariant
            sc <= code_args@.len(),
            forall|m: int| 0 <= m < sc ==> (#[trigger] lv[m]) is Signer,
        decreases code_args@.len() - sc,
    {
        proof {
            lemma_view_layouts_index(code_args@, sc as int);
        }
        sc += 1;
    }
    proof {
        if sc < code_args@.len() {
            lemma_view_layouts_index(code_args@, sc as int);
        }
        lemma_signers_prefix_exact(lv, sc as int);
    }
    let dc = code_args.len() - sc;
    if call_args.len() < dc {
        return Err(Error::ArityMismatch { expected: dc, got: call_args.len() });
    }
    let ai = call_args.len() - dc;
    let data_params = slice_subrange(code_args, sc, code_args.len());
    let data_args = slice_subrange(call_args, ai, call_args.len());
    proof {
        lemma_view_layouts_len(data_params@);
        assert forall|m: int| 0 <= m < data_params@.len() implies view_layouts(data_params@)[m]
            == lv.skip(sc as int)[m] by {
            lemma_view_layouts_index(data_params@, m);
            lemma_view_layouts_index(code_args@, sc + m);
        }
        assert(view_layouts(data_params@) =~= lv.skip(sc as int));
        assert(args_bytes(data_args@) =~= abs.skip(ai as int));
    }
    let vals = match MoveConverter::try_into_vm_values(data_params, data_args) {
        Err(e) => {
            return Err(e);
        },
        Ok(vs) => vs,
    };
    let mut sgs: Vec<Signer> = Vec::new();
    let mut i: usize = 0;
    while i < sc
        invariant
            i <= sc <= code_args@.len(),
            ai + dc == call_args@.len(),
            dc == code_args@.len() - sc,
            abs == args_bytes(call_args@),
            view_signers(sgs@) =~= bind_signers_spec(abs, sc as int, ai as int).take(i as int),
        decreases sc - i,
    {
        let ghost sgs0 = sgs@;
        if i < ai {
            let sg = match from_str(call_args[i].as_str().as_bytes()) {
                Some(sg) => sg,
                None => {
                    return Err(Error::TypeMismatch);
                },
            };
            sgs.push(sg);
        } else {
            sgs.push(Signer::Placeholder);
        }
        proof {
            assert(sgs@.drop_last() =~= sgs0);
            lemma_view_signers_len(sgs@);
            assert(view_signers(sgs@) == view_signers(sgs0).push(sgs@.last()@));
            assert(bind_signers_spec(abs, sc as int, ai as int).take(i as int).push(
                bind_signers_spec(abs, sc as int, ai as int)[i as int],
            ) =~= bind_signers_spec(abs, sc as int, ai as int).take(i + 1));
        }
        i += 1;
    }
    proof {
        assert(bind_signers_spec(abs, sc as int, ai as int).take(sc as int) =~= bind_signers_spec(
            abs,
            sc as int,
            ai as int,
        ));
    }
    Ok((Signers::Implicit(sgs), vals))
}

/// Signer defaulting: when the caller supplies exactly the data arguments
/// and omits every leading signer designator, all signer slots are filled
/// with placeholders.
pub proof fn lemma_omitted_signers_are_placeholders(params: Seq<LayoutV>, args: Seq<Seq<u8>>)
    requires
        args.len() == params.len() - signers_prefix(params),
        bind_spec(params, args) is Ok,
    ensures
        ({
            let (sgs, _) = bind_spec(params, args)->Ok_0;
            &&& sgs.len() == signers_prefix(params)
            &&& forall|i: int| 0 <= i < sgs.len() ==> #[trigger] sgs[i] is Placeholder
        }),
{
    crate::convert::lemma_signers_prefix(params);
}

// ---------------------------------------------------------------------------
// Selecting and calling a script function
// ---------------------------------------------------------------------------

/// Unwraps parameter layouts; `None` when any parameter has no layout.
pub open spec fn params_unwrap(ps: Seq<Option<LayoutV>>) -> Option<Seq<LayoutV>>
    decreases ps,
{
    if ps.len() == 0 {
        Some(Seq::empty())
    } else {
        match ps[0] {
            None => None,
            Some(l) => match params_unwrap(ps.drop_first()) {
                None => None,
                Some(rest) => Some(seq![l] + rest),
            },
        }
    }
}

/// Looks up a script function and binds the caller's arguments against it:
/// absent functions are `NotFound`, a type-argument count mismatch is an
/// arity error, a parameter without a layout is unsupported, and the rest
/// is the binder.
pub open spec fn select_spec(
    fns: Seq<FunctionDeclV>,
    name: Seq<u8>,
    ntags: nat,
    args: Seq<Seq<u8>>,
) -> Result<(Seq<SignerV>, Seq<ValueV>), ErrorV> {
    match find_script_spec(fns, name) {
        None => Err(ErrorV::NotFound),
        Some(f) => {
            let sc = script_of(f);
            if ntags != sc.type_parameters.len() {
                Err(ErrorV::ArityMismatch { expected: sc.type_parameters.len(), got: ntags })
            } else {
                match params_unwrap(sc.parameters) {
                    None => Err(ErrorV::UnsupportedParameterType),
                    Some(ls) => bind_spec(ls, args),
                }
            }
        },
    }
}

/// Selects the script function named `name` and binds `args` against its
/// parameters; `type_tag` only supplies the declared type-argument count.
#[verifier::loop_isolation(false)]
#[verifier::rlimit(100)]
pub fn select_function(
    module: &CompiledModule,
    name: &Identifier,
    args: &[String],
    type_tag: &[String],
) -> (r: Result<(Signers, Vec<MoveValue>), Error>)
    ensures
        r matches Ok((sgs, vals)) ==> select_spec(
            module@,
            name@,
            type_tag@.len() as nat,
            args_bytes(args@),
        ) matches Ok(p) && sgs matches Signers::Implicit(v) && view_signers(v@) == p.0
            && view_values(vals@) == p.1,
        r matches Err(e) ==> select_spec(module@, name@, type_tag@.len() as nat, args_bytes(args@))
            == Err::<(Seq<SignerV>, Seq<ValueV>), ErrorV>(e@),
{
    let script = match find_script_function(module, name.bytes.as_slice()) {
        None => {
            return Err(Error::NotFound);
        },
        Some(sc) => sc,
    };
    if type_tag.len() != script.type_params_count() {
        return Err(
            Error::ArityMismatch { expected: script.type_params_count(), got: type_tag.len() },
        );
    }
    let ghost psv = view_opt_layouts(script.parameters@);
    proof {
        lemma_view_opt_layouts_len(script.parameters@);
        assert(psv.skip(0) =~= psv);
        assert forall|m: int| 0 <= m < script.parameters@.len() implies (
        match #[trigger] script.parameters@[m] {
            Some(l) => Some(l@),
            None => None::<LayoutV>,
        }) == psv[m] by {
            lemma_view_opt_layouts_index(script.parameters@, m);
        }
        match params_unwrap(psv) {
            Some(rest) => {
                assert(Seq::<LayoutV>::empty() + rest =~= rest);
            },
            None => {},
        }
    }
    let mut opts = script.parameters;
    let total = opts.len();
    let mut params: Vec<MoveTypeLayout> = Vec::new();
    let mut k: usize = 0;
    while k < total
        invariant
            k <= total,
            total == psv.len(),
            opts@.len() == total - k,
            forall|m: int|
                0 <= m < opts@.len() ==> (match #[trigger] opts@[m] {
                    Some(l) => Some(l@),
                    None => None::<LayoutV>,
                }) == psv.skip(k as int)[m],
            match params_unwrap(psv.skip(k as int)) {
                None => params_unwrap(psv) is None,
                Some(rest) => params_unwrap(psv) == Some(view_layouts(params@) + rest),
            },
        decreases total - k,
    {
        let opt = opts.remove(0);
        match opt {
            None => {
                proof {
                    assert(psv.skip(k as int)[0] is None);
                    assert(params_unwrap(psv.skip(k as int)) is None);
                }
                return Err(Error::UnsupportedParameterType);
            },
            Some(l) => {
                let ghost params0 = params@;
                let ghost lview = l@;
                params.push(l);
                proof {
                    assert(psv.skip(k as int)[0] == Some(lview));
                    assert(params@.drop_last() =~= params0);
                    lemma_view_layouts_len(params@);
                    assert(view_layouts(params@) == view_layouts(params0).push(lview));
                    assert(psv.skip(k as int).drop_first() =~= psv.skip(k + 1));
                    assert forall|m: int| 0 <= m < opts@.len() implies (match #[trigger] opts@[m] {
                        Some(l2) => Some(l2@),
                        None => None::<LayoutV>,
                    }) == psv.skip(k + 1)[m] by {
                        assert(psv.skip(k + 1)[m] == psv.skip(k as int)[m + 1]);
                    }
                    match params_unwrap(psv.skip(k + 1)) {
                        Some(rest) => {
                            assert(view_layouts(params0) + (seq![lview] + rest) =~= view_layouts(
                                params@,
                            ) + rest);
                        },
                        None => {},
                    }
                }
                k += 1;
            },
        }
    }
    proof {
        assert(psv.skip(total as int) =~= Seq::<Option<LayoutV>>::empty());
        assert(view_layouts(params@) + Seq::<LayoutV>::empty() =~= view_layouts(params@));
        assert(params_unwrap(psv) == Some(view_layouts(params@)));
    }
    prepare_function_signature(params.as_slice(), args)
}

/// The whole call construction: validated names, function selection,
/// argument binding, and the canonical transaction encoding. Type
/// arguments are counted, not parsed, and the built call carries none.
pub open spec fn make_call_spec(
    fns: Seq<FunctionDeclV>,
    addr: Seq<u8>,
    mod_name: Seq<u8>,
    func_name: Seq<u8>,
    ntags: nat,
    args: Seq<Seq<u8>>,
) -> Result<Seq<u8>, ErrorV> {
    if !ident_wf(mod_name) || !ident_wf(func_name) {
        Err(ErrorV::MalformedTypeTag)
    } else {
        match select_spec(fns, func_name, ntags, args) {
            Err(e) => Err(e),
            Ok((sgs, vs)) => Ok(enc_func_tx(sgs, addr, func_name, mod_name, vs, Seq::empty())),
        }
    }
}

/// Builds the canonical function-call transaction for one script function
/// of a compiled module.
pub fn make_function_call(
    module: &CompiledModule,
    addr: AccountAddress,
    module_name: &str,
    func_name: &str,
    type_tag: &[String],
    args: &[String],
) -> (r: Result<Vec<u8>, Error>)
    ensures
        r matches Ok(b) ==> make_call_spec(
            module@,
            addr@,
            utf8_bytes(module_name@),
            utf8_bytes(func_name@),
            type_tag@.len() as nat,
            args_bytes(args@),
        ) == Ok::<Seq<u8>, ErrorV>(b@),
        r matches Err(e) ==> make_call_spec(
            module@,
            addr@,
            utf8_bytes(module_name@),
            utf8_bytes(func_name@),
            type_tag@.len() as nat,
            args_bytes(args@),
        ) == Err::<Seq<u8>, ErrorV>(e@),
{
    let mod_bytes = crate::canon::copy_range(module_name.as_bytes(), 0, module_name.as_bytes().len());
    let func_bytes = crate::canon::copy_range(func_name.as_bytes(), 0, func_name.as_bytes().len());
    proof {
        assert(mod_bytes@ =~= utf8_bytes(module_name@));
        assert(func_bytes@ =~= utf8_bytes(func_name@));
    }
    let mod_ident = match Identifier::from_bytes(mod_bytes) {
        Err(_) => {
            return Err(Error::MalformedTypeTag);
        },
        Ok(id) => id,
    };
    let func_ident = match Identifier::from_bytes(func_bytes) {
        Err(_) => {
            return Err(Error::MalformedTypeTag);
        },
        Ok(id) => id,
    };
    match select_function(module, &func_ident, args, type_tag) {
        Err(e) => Err(e),
        Ok((signers, vals)) => {
            match signers {
                Signers::Implicit(sgs) => {
                    new_func_tx(sgs, addr, mod_ident, func_ident, vals, Vec::new())
                },
                Signers::Explicit(_) => {
                    new_func_tx(Vec::new(), addr, mod_ident, func_ident, vals, Vec::new())
                },
            }
        },
    }
}

// ---------------------------------------------------------------------------
// Identifier and address helpers for the dispatcher
// ---------------------------------------------------------------------------

/// Reads an owner address literal and a module name, producing the
/// canonical module-id bytes used as the bytecode lookup key.
pub fn parse_function_string(addr: &String, module: &String) -> (r: Result<
    (Option<Vec<u8>>, AccountAddress),
    Vec<u8>,
>)
    ensures
        r matches Ok((mb, a)) ==> ({
            &&& addr_lit_wf(utf8_bytes(addr@))
            &&& ident_wf(utf8_bytes(module@))
            &&& a@ == addr_of_lit(utf8_bytes(addr@))
            &&& mb matches Some(b) && b@ == enc_module_id(
                ModuleIdV { addr: a@, name: utf8_bytes(module@) },
            )
        }),
        r is Err <==> !(addr_lit_wf(utf8_bytes(addr@)) && ident_wf(utf8_bytes(module@))),
{
    let owner = match parse_address_literal(addr.as_str().as_bytes()) {
        None => {
            return Err(crate::canon::copy_range(
                addr.as_str().as_bytes(),
                0,
                addr.as_str().as_bytes().len(),
            ));
        },
        Some(a) => a,
    };
    let mod_bytes = crate::canon::copy_range(
        module.as_str().as_bytes(),
        0,
        module.as_str().as_bytes().len(),
    );
    proof {
        assert(mod_bytes@ =~= utf8_bytes(module@));
    }
    let ident = match Identifier::from_bytes(mod_bytes) {
        Err(_) => {
            return Err(crate::canon::copy_range(
                module.as_str().as_bytes(),
                0,
                module.as_str().as_bytes().len(),
            ));
        },
        Ok(id) => id,
    };
    let mid = crate::types::ModuleId { address: owner, name: ident };
    let mb = crate::canon::module_id_to_canonical(&mid);
    Ok((Some(mb), mid.address))
}

/// Turns an account id (its raw bytes) and a module name into the access
/// key for that module's code: a code-tag byte followed by the canonical
/// module id.
pub fn move_module_id_to_module_id(owner: &[u8], module: Vec<u8>) -> (r: Result<
    Option<Vec<u8>>,
    Vec<u8>,
>)
    ensures
        r matches Ok(ob) ==> ({
            &&& owner@.len() == crate::types::ADDRESS_LENGTH
            &&& ident_wf(module@)
            &&& ob matches Some(b) && b@ == seq![0u8] + enc_module_id(
                ModuleIdV { addr: owner@, name: module@ },
            )
        }),
        r is Err <==> !(owner@.len() == crate::types::ADDRESS_LENGTH && ident_wf(module@)),
{
    if owner.len() != crate::types::ADDRESS_LENGTH {
        return Err(module);
    }
    if !ident_bytes_ok(module.as_slice()) {
        return Err(module);
    }
    let address = AccountAddress { bytes: crate::canon::copy_range(owner, 0, owner.len()) };
    proof {
        assert(address@ =~= owner@);
    }
    let ident = Identifier { bytes: module };
    let mid = crate::types::ModuleId { address, name: ident };
    let mut out: Vec<u8> = Vec::new();
    out.push(0);
    let mb = crate::canon::module_id_to_canonical(&mid);
    crate::canon::write_bytes(&mut out, mb.as_slice());
    proof {
        assert(out@ =~= seq![0u8] + enc_module_id(mid@));
    }
    Ok(Some(out))
}

/// Reads a hex address literal (`0x` plus up to 64 digits, left-padded).
/// Other designator forms are resolved by the caller's account system
/// before they reach this reader.
pub fn pontem_parse_address(addr: &str) -> (r: Result<AccountAddress, Error>)
    ensures
        r matches Ok(a) ==> addr_lit_wf(utf8_bytes(addr@)) && a@ == addr_of_lit(
            utf8_bytes(addr@),
        ) && a.wf(),
        r is Err <==> !addr_lit_wf(utf8_bytes(addr@)),
        r matches Err(e) ==> e@ == ErrorV::MalformedTypeTag,
{
    match parse_address_literal(addr.as_bytes()) {
        None => Err(Error::MalformedTypeTag),
        Some(a) => Ok(a),
    }
}

} // verus!
