//! Compiled-module introspection: finding externally callable functions and
//! describing their parameters, returns and type-parameter abilities.
use vstd::prelude::*;
use crate::constant::{SignatureToken, TokenV, sig_to_ty, sig_to_ty_spec, view_tokens};
use crate::types::{AccountAddress, Identifier, ident_wf};
use crate::value::{LayoutV, MoveTypeLayout};

verus! {

broadcast use vstd::std_specs::vec::group_vec_axioms, vstd::seq::group_seq_axioms;

/// Marker type for the introspection facility.
#[derive(Debug)]
pub struct BytecodeInfo {}

/// Function visibility as declared in a compiled module; only `Script`
/// functions are externally invocable.
#[derive(Debug, Clone, Copy, PartialEq, Eq, Structural)]
pub enum Visibility {
    Private,
    Friend,
    Public,
    Script,
}

/// The ability flags attached to one generic type parameter.
#[derive(Debug, Clone, Copy, PartialEq, Eq, Structural)]
pub struct AbilitySet {
    pub has_copy: bool,
    pub has_drop: bool,
    pub has_store: bool,
    pub has_key: bool,
}

/// One function of a compiled module, as the introspector reads it.
#[derive(Debug, PartialEq, Eq)]
pub struct FunctionDecl {
    pub name: Identifier,
    pub visibility: Visibility,
    pub parameters: Vec<SignatureToken>,
    pub returns: Vec<SignatureToken>,
    pub type_parameters: Vec<AbilitySet>,
}

/// A compiled module's callable surface: its function declarations in
/// definition order.
#[derive(Debug, PartialEq, Eq)]
pub struct CompiledModule {
    pub functions: Vec<FunctionDecl>,
}

/// Ghost mirror of [`FunctionDecl`].
pub struct FunctionDeclV {
    pub name: Seq<u8>,
    pub visibility: Visibility,
    pub parameters: Seq<TokenV>,
    pub returns: Seq<TokenV>,
    pub type_parameters: Seq<AbilitySet>,
}

impl View for FunctionDecl {
    type V = FunctionDeclV;

    open spec fn view(&self) -> FunctionDeclV {
        FunctionDeclV {
            name: self.name@,
            visibility: self.visibility,
            parameters: view_tokens(self.parameters@),
            returns: view_tokens(self.returns@),
            type_parameters: self.type_parameters@,
        }
    }
}

pub open spec fn view_decls(fs: Seq<FunctionDecl>) -> Seq<FunctionDeclV>
    decreases fs,
{
    if fs.len() == 0 {
        Seq::empty()
    } else {
        view_decls(fs.drop_last()).push(fs.last()@)
    }
}

impl View for CompiledModule {
    type V = Seq<FunctionDeclV>;

    open spec fn view(&self) -> Seq<FunctionDeclV> {
        view_decls(self.functions@)
    }
}

pub broadcast proof fn lemma_view_decls_len(fs: Seq<FunctionDecl>)
    ensures
        #[trigger] view_decls(fs).len() == fs.len(),
    decreases fs,
{
    if fs.len() > 0 {
        assert(view_decls(fs) == view_decls(fs.drop_last()).push(fs.last()@));
        lemma_view_decls_len(fs.drop_last());
    } else {
        assert(view_decls(fs) == Seq::<FunctionDeclV>::empty());
    }
}

pub broadcast proof fn lemma_view_decls_index(fs: Seq<FunctionDecl>, i: int)
    requires
        0 <= i < fs.len(),
    ensures
        #[trigger] view_decls(fs)[i] == fs[i]@,
    decreases fs,
{
    lemma_view_decls_len(fs);
    assert(view_decls(fs) == view_decls(fs.drop_last()).push(fs.last()@));
    if i < fs.len() - 1 {
        lemma_view_decls_index(fs.drop_last(), i);
    }
}

/// A resolved parameter type as a caller-facing description: primitives,
/// vectors, struct references, references and generic parameters.
#[derive(Debug, Ord, PartialOrd, Eq, PartialEq)]
pub enum Type {
    Bool,
    U8,
    U64,
    U128,
    Address,
    Signer,
    Vector(Box<Type>),
    Struct(StructDef),
    Reference(Box<Type>),
    MutableReference(Box<Type>),
    TypeParameter(u16),
}

/// A struct type reference: where it is declared and its type arguments.
#[derive(Debug, Ord, PartialOrd, Eq, PartialEq)]
pub struct StructDef {
    pub address: AccountAddress,
    pub module_name: Identifier,
    pub name: Identifier,
    pub type_parameters: Vec<Type>,
}

/// The per-ability breakdown of an ability set, in the canonical order
/// copy, drop, store, key.
#[derive(Debug, Ord, PartialOrd, Eq, PartialEq)]
pub enum TypeAbility {
    Copy,
    Drop,
    Store,
    Key,
}

/// The ability list of one generic type parameter.
#[derive(Debug, Ord, PartialOrd, Eq, PartialEq)]
pub struct TypeAbilities {
    pub abilities: Vec<TypeAbility>,
}

/// The abilities named by a set, in the order copy, drop, store, key.
pub open spec fn abilities_of(a: AbilitySet) -> Seq<TypeAbility> {
    let s0 = Seq::<TypeAbility>::empty();
    let s1 = if a.has_copy {
        s0.push(TypeAbility::Copy)
    } else {
        s0
    };
    let s2 = if a.has_drop {
        s1.push(TypeAbility::Drop)
    } else {
        s1
    };
    let s3 = if a.has_store {
        s2.push(TypeAbility::Store)
    } else {
        s2
    };
    if a.has_key {
        s3.push(TypeAbility::Key)
    } else {
        s3
    }
}

impl TypeAbilities {
    /// Expands an ability set into the canonical ability list.
    pub fn from_set(a: &AbilitySet) -> (r: TypeAbilities)
        ensures
            r.abilities@ == abilities_of(*a),
    {
        let mut abilities: Vec<TypeAbility> = Vec::new();
        if a.has_copy {
            abilities.push(TypeAbility::Copy);
        }
        if a.has_drop {
            abilities.push(TypeAbility::Drop);
        }
        if a.has_store {
            abilities.push(TypeAbility::Store);
        }
        if a.has_key {
            abilities.push(TypeAbility::Key);
        }
        proof {
            assert(abilities@ =~= abilities_of(*a));
        }
        TypeAbilities { abilities }
    }
}

/// Ghost mirror of [`Script`].
pub struct ScriptV {
    pub name: Seq<u8>,
    pub parameters: Seq<Option<LayoutV>>,
    pub type_parameters: Seq<Seq<TypeAbility>>,
    pub returns: Seq<Option<LayoutV>>,
}

/// An externally callable function: name, parameter and return layouts
/// (`None` where a token has no layout equivalent), and per-type-parameter
/// abilities. A later attempt to bind arguments against a `None` parameter
/// fails with `UnsupportedParameterType`.
#[derive(Debug, PartialEq, Eq)]
pub struct Script {
    pub name: Identifier,
    pub parameters: Vec<Option<MoveTypeLayout>>,
    pub type_parameters: Vec<TypeAbilities>,
    pub returns: Vec<Option<MoveTypeLayout>>,
}

pub open spec fn view_opt_layouts(ls: Seq<Option<MoveTypeLayout>>) -> Seq<Option<LayoutV>>
    decreases ls,
{
    if ls.len() == 0 {
        Seq::empty()
    } else {
        view_opt_layouts(ls.drop_last()).push(
            match ls.last() {
                Some(l) => Some(l@),
                None => None,
            },
        )
    }
}

pub open spec fn view_type_abilities(ts: Seq<TypeAbilities>) -> Seq<Seq<TypeAbility>>
    decreases ts,
{
    if ts.len() == 0 {
        Seq::empty()
    } else {
        view_type_abilities(ts.drop_last()).push(ts.last().abilities@)
    }
}

impl View for Script {
    type V = ScriptV;

    open spec fn view(&self) -> ScriptV {
        ScriptV {
            name: self.name@,
            parameters: view_opt_layouts(self.parameters@),
            type_parameters: view_type_abilities(self.type_parameters@),
            returns: view_opt_layouts(self.returns@),
        }
    }
}

impl Script {
    /// Number of generic type parameters the function declares.
    pub fn type_params_count(&self) -> (r: usize)
        ensures
            r == self@.type_parameters.len(),
    {
        proof {
            lemma_view_type_abilities_len(self.type_parameters@);
        }
        self.type_parameters.len()
    }
}

pub broadcast proof fn lemma_view_opt_layouts_len(ls: Seq<Option<MoveTypeLayout>>)
    ensures
        #[trigger] view_opt_layouts(ls).len() == ls.len(),
    decreases ls,
{
    if ls.len() > 0 {
        assert(view_opt_layouts(ls) == view_opt_layouts(ls.drop_last()).push(
            match ls.last() {
                Some(l) => Some(l@),
                None => None,
            },
        ));
        lemma_view_opt_layouts_len(ls.drop_last());
    } else {
        assert(view_opt_layouts(ls) == Seq::<Option<LayoutV>>::empty());
    }
}

pub broadcast proof fn lemma_view_opt_layouts_index(ls: Seq<Option<MoveTypeLayout>>, i: int)
    requires
        0 <= i < ls.len(),
    ensures
        #[trigger] view_opt_layouts(ls)[i] == (match ls[i] {
            Some(l) => Some(l@),
            None => None::<LayoutV>,
        }),
    decreases ls,
{
    lemma_view_opt_layouts_len(ls);
    assert(view_opt_layouts(ls) == view_opt_layouts(ls.drop_last()).push(
        match ls.last() {
            Some(l) => Some(l@),
            None => None,
        },
    ));
    if i < ls.len() - 1 {
        lemma_view_opt_layouts_index(ls.drop_last(), i);
    }
}

pub broadcast proof fn lemma_view_type_abilities_len(ts: Seq<TypeAbilities>)
    ensures
        #[trigger] view_type_abilities(ts).len() == ts.len(),
    decreases ts,
{
    if ts.len() > 0 {
        assert(view_type_abilities(ts) == view_type_abilities(ts.drop_last()).push(
            ts.last().abilities@,
        ));
        lemma_view_type_abilities_len(ts.drop_last());
    } else {
        assert(view_type_abilities(ts) == Seq::<Seq<TypeAbility>>::empty());
    }
}

pub broadcast proof fn lemma_view_type_abilities_index(ts: Seq<TypeAbilities>, i: int)
    requires
        0 <= i < ts.len(),
    ensures
        #[trigger] view_type_abilities(ts)[i] == ts[i].abilities@,
    decreases ts,
{
    lemma_view_type_abilities_len(ts);
    assert(view_type_abilities(ts) == view_type_abilities(ts.drop_last()).push(
        ts.last().abilities@,
    ));
    if i < ts.len() - 1 {
        lemma_view_type_abilities_index(ts.drop_last(), i);
    }
}

/// Whether a declaration is an externally invocable function of this name.
pub open spec fn script_match(f: FunctionDeclV, name: Seq<u8>) -> bool {
    f.visibility == Visibility::Script && f.name == name
}

/// The first externally invocable function of this name, if any. Script
/// function names are unique within one module, so first-match is
/// unambiguous.
pub open spec fn find_script_spec(fns: Seq<FunctionDeclV>, name: Seq<u8>) -> Option<FunctionDeclV>
    decreases fns,
{
    if fns.len() == 0 {
        None
    } else if script_match(fns[0], name) {
        Some(fns[0])
    } else {
        find_script_spec(fns.drop_first(), name)
    }
}

/// The description the introspector derives from one declaration.
pub open spec fn script_of(f: FunctionDeclV) -> ScriptV {
    ScriptV {
        name: f.name,
        parameters: Seq::new(f.parameters.len(), |i: int| sig_to_ty_spec(f.parameters[i])),
        type_parameters: Seq::new(
            f.type_parameters.len(),
            |i: int| abilities_of(f.type_parameters[i]),
        ),
        returns: Seq::new(f.returns.len(), |i: int| sig_to_ty_spec(f.returns[i])),
    }
}

/// Maps a token list to layouts, `None` where a token has no equivalent.
fn tokens_to_layouts(ts: &Vec<SignatureToken>) -> (r: Vec<Option<MoveTypeLayout>>)
    ensures
        view_opt_layouts(r@) =~= Seq::new(
            view_tokens(ts@).len(),
            |i: int| sig_to_ty_spec(view_tokens(ts@)[i]),
        ),
{
    let mut out: Vec<Option<MoveTypeLayout>> = Vec::new();
    let mut i: usize = 0;
    while i < ts.len()
        invariant
            i <= ts@.len(),
            out@.len() == i,
            forall|m: int|
                0 <= m < i ==> view_opt_layouts(out@)[m] == sig_to_ty_spec(
                    #[trigger] view_tokens(ts@)[m],
                ),
        decreases ts@.len() - i,
    {
        let ghost out0 = out@;
        out.push(sig_to_ty(&ts[i]));
        proof {
            lemma_view_opt_layouts_len(out@);
            assert(out@.drop_last() =~= out0);
            lemma_view_tokens_index(ts@, i as int);
            assert forall|m: int| 0 <= m < i + 1 implies view_opt_layouts(out@)[m] == sig_to_ty_spec(
                #[trigger] view_tokens(ts@)[m],
            ) by {
                lemma_view_opt_layouts_index(out@, m);
                if m < i {
                    lemma_view_opt_layouts_index(out0, m);
                    assert(out@[m] == out0[m]);
                }
            }
        }
        i += 1;
    }
    proof {
        lemma_view_opt_layouts_len(out@);
        lemma_view_tokens_len(ts@);
    }
    out
}

pub broadcast proof fn lemma_view_tokens_len(ts: Seq<SignatureToken>)
    ensures
        #[trigger] view_tokens(ts).len() == ts.len(),
    decreases ts,
{
    if ts.len() > 0 {
        assert(view_tokens(ts) == view_tokens(ts.drop_last()).push(ts.last()@));
        lemma_view_tokens_len(ts.drop_last());
    } else {
        assert(view_tokens(ts) == Seq::<TokenV>::empty());
    }
}

pub broadcast proof fn lemma_view_tokens_index(ts: Seq<SignatureToken>, i: int)
    requires
        0 <= i < ts.len(),
    ensures
        #[trigger] view_tokens(ts)[i] == ts[i]@,
    decreases ts,
{
    lemma_view_tokens_len(ts);
    assert(view_tokens(ts) == view_tokens(ts.drop_last()).push(ts.last()@));
    if i < ts.len() - 1 {
        lemma_view_tokens_index(ts.drop_last(), i);
    }
}

/// Finds the first externally invocable (script-visibility) function named
/// `need_name` and describes its signature; `None` when the module has no
/// such function.
#[verifier::loop_isolation(false)]
pub fn find_script_function(module: &CompiledModule, need_name: &[u8]) -> (r: Option<Script>)
    ensures
        match r {
            Some(sc) => find_script_spec(module@, need_name@) matches Some(f) && sc@ == script_of(
                f,
            ),
            None => find_script_spec(module@, need_name@) is None,
        },
{
    proof {
        lemma_view_decls_len(module.functions@);
        assert(module@.skip(0) =~= module@);
    }
    let mut d: usize = 0;
    while d < module.functions.len()
        invariant
            d <= module.functions@.len(),
            find_script_spec(module@, need_name@) == find_script_spec(
                module@.skip(d as int),
                need_name@,
            ),
        decreases module.functions@.len() - d,
    {
        proof {
            lemma_view_decls_index(module.functions@, d as int);
            assert(module@.skip(d as int)[0] == module@[d as int]);
        }
        let f = &module.functions[d];
        let is_script = match f.visibility {
            Visibility::Script => true,
            _ => false,
        };
        if is_script && crate::value::bytes_eq(f.name.bytes.as_slice(), need_name) {
            let parameters = tokens_to_layouts(&f.parameters);
            let ret_layouts = tokens_to_layouts(&f.returns);
            let mut type_parameters: Vec<TypeAbilities> = Vec::new();
            let mut k: usize = 0;
            while k < f.type_parameters.len()
                invariant
                    k <= f.type_parameters@.len(),
                    view_type_abilities(type_parameters@) =~= Seq::new(
                        k as nat,
                        |i: int| abilities_of(f.type_parameters@[i]),
                    ),
                decreases f.type_parameters@.len() - k,
            {
                let ghost tp0 = type_parameters@;
                type_parameters.push(TypeAbilities::from_set(&f.type_parameters[k]));
                proof {
                    assert(type_parameters@.drop_last() =~= tp0);
                    lemma_view_type_abilities_len(type_parameters@);
                    assert forall|m: int|
                        0 <= m < k + 1 implies view_type_abilities(type_parameters@)[m]
                        == abilities_of(f.type_parameters@[m]) by {
                        lemma_view_type_abilities_index(type_parameters@, m);
                        if m < k {
                            assert(view_type_abilities(tp0)[m] == abilities_of(
                                f.type_parameters@[m],
                            ));
                            assert(type_parameters@[m] == tp0[m]);
                        }
                    }
                    assert(view_type_abilities(type_parameters@) =~= Seq::new(
                        (k + 1) as nat,
                        |i: int| abilities_of(f.type_parameters@[i]),
                    ));
                }
                k += 1;
            }
            let sc = Script {
                name: f.name.dup(),
                parameters,
                type_parameters,
                returns: ret_layouts,
            };
            proof {
                assert(sc@.parameters =~= script_of(module@[d as int]).parameters);
                assert(sc@.returns =~= script_of(module@[d as int]).returns);
                assert(sc@.type_parameters =~= script_of(module@[d as int]).type_parameters);
                assert(sc@ == script_of(module@[d as int]));
                assert(script_match(module@[d as int], need_name@));
                assert(find_script_spec(module@, need_name@) == Some(module@[d as int]));
            }
            return Some(sc);
        }
        proof {
            assert(module@.skip(d as int).drop_first() =~= module@.skip(d + 1));
        }
        d += 1;
    }
    proof {
        assert(module@.skip(d as int) =~= Seq::<FunctionDeclV>::empty());
    }
    None
}

} // verus!
