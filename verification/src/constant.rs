//! The bidirectional, partial mapping between instruction-level signature
//! tokens (as found inside compiled modules) and runtime value layouts.
use vstd::prelude::*;
use crate::value::{LayoutV, MoveTypeLayout};

verus! {

broadcast use vstd::std_specs::vec::group_vec_axioms, vstd::seq::group_seq_axioms;

/// Ghost mirror of [`SignatureToken`].
pub enum TokenV {
    Bool,
    U8,
    U64,
    U128,
    Address,
    Signer,
    Vector(Box<TokenV>),
    Struct(nat),
    StructInstantiation(nat, Seq<TokenV>),
    Reference(Box<TokenV>),
    MutableReference(Box<TokenV>),
    TypeParameter(u16),
}

/// An instruction-level type token. Struct references carry the handle
/// index they were declared with.
#[derive(Debug, PartialEq, Eq)]
pub enum SignatureToken {
    Bool,
    U8,
    U64,
    U128,
    Address,
    Signer,
    Vector(Box<SignatureToken>),
    Struct(usize),
    StructInstantiation(usize, Vec<SignatureToken>),
    Reference(Box<SignatureToken>),
    MutableReference(Box<SignatureToken>),
    TypeParameter(u16),
}

pub open spec fn view_tokens(ts: Seq<SignatureToken>) -> Seq<TokenV>
    decreases ts,
{
    if ts.len() == 0 {
        Seq::empty()
    } else {
        view_tokens(ts.drop_last()).push(ts.last()@)
    }
}

impl View for SignatureToken {
    type V = TokenV;

    open spec fn view(&self) -> TokenV
        decreases self,
    {
        match self {
            SignatureToken::Bool => TokenV::Bool,
            SignatureToken::U8 => TokenV::U8,
            SignatureToken::U64 => TokenV::U64,
            SignatureToken::U128 => TokenV::U128,
            SignatureToken::Address => TokenV::Address,
            SignatureToken::Signer => TokenV::Signer,
            SignatureToken::Vector(t) => TokenV::Vector(Box::new((**t)@)),
            SignatureToken::Struct(h) => TokenV::Struct(*h as nat),
            SignatureToken::StructInstantiation(h, args) => TokenV::StructInstantiation(
                *h as nat,
                view_tokens(args@),
            ),
            SignatureToken::Reference(t) => TokenV::Reference(Box::new((**t)@)),
            SignatureToken::MutableReference(t) => TokenV::MutableReference(Box::new((**t)@)),
            SignatureToken::TypeParameter(ix) => TokenV::TypeParameter(*ix),
        }
    }
}

/// The layout a token describes, if it has one. References, struct
/// references and type parameters have no layout equivalent.
pub open spec fn sig_to_ty_spec(t: TokenV) -> Option<LayoutV>
    decreases t,
{
    match t {
        TokenV::Signer => Some(LayoutV::Signer),
        TokenV::Address => Some(LayoutV::Address),
        TokenV::Bool => Some(LayoutV::Bool),
        TokenV::U8 => Some(LayoutV::U8),
        TokenV::U64 => Some(LayoutV::U64),
        TokenV::U128 => Some(LayoutV::U128),
        TokenV::Vector(inner) => match sig_to_ty_spec(*inner) {
            None => None,
            Some(l) => Some(LayoutV::Vector(Box::new(l))),
        },
        _ => None,
    }
}

/// The token a layout came from, if unambiguous. Struct layouts cannot be
/// mapped back: the original generic instantiation is not recoverable from
/// a resolved layout alone.
pub open spec fn ty_to_sig_spec(l: LayoutV) -> Option<TokenV>
    decreases l,
{
    match l {
        LayoutV::Address => Some(TokenV::Address),
        LayoutV::Signer => Some(TokenV::Signer),
        LayoutV::U8 => Some(TokenV::U8),
        LayoutV::U64 => Some(TokenV::U64),
        LayoutV::U128 => Some(TokenV::U128),
        LayoutV::Bool => Some(TokenV::Bool),
        LayoutV::Vector(inner) => match ty_to_sig_spec(*inner) {
            None => None,
            Some(t) => Some(TokenV::Vector(Box::new(t))),
        },
        LayoutV::Struct(_) => None,
    }
}

/// Maps an instruction-level token to the layout it describes; total, with
/// `None` for references, struct types and type parameters.
pub fn sig_to_ty(sig: &SignatureToken) -> (r: Option<MoveTypeLayout>)
    ensures
        match r {
            Some(l) => sig_to_ty_spec(sig@) == Some(l@),
            None => sig_to_ty_spec(sig@) is None,
        },
    decreases sig,
{
    match sig {
        SignatureToken::Signer => Some(MoveTypeLayout::Signer),
        SignatureToken::Address => Some(MoveTypeLayout::Address),
        SignatureToken::Bool => Some(MoveTypeLayout::Bool),
        SignatureToken::U8 => Some(MoveTypeLayout::U8),
        SignatureToken::U64 => Some(MoveTypeLayout::U64),
        SignatureToken::U128 => Some(MoveTypeLayout::U128),
        SignatureToken::Vector(v) => match sig_to_ty(v) {
            None => None,
            Some(l) => Some(MoveTypeLayout::Vector(Box::new(l))),
        },
        _ => None,
    }
}

/// Maps a layout back to the token it came from; `None` for struct layouts.
pub fn ty_to_sig(ty: &MoveTypeLayout) -> (r: Option<SignatureToken>)
    ensures
        match r {
            Some(t) => ty_to_sig_spec(ty@) == Some(t@),
            None => ty_to_sig_spec(ty@) is None,
        },
    decreases ty,
{
    match ty {
        MoveTypeLayout::Address => Some(SignatureToken::Address),
        MoveTypeLayout::Signer => Some(SignatureToken::Signer),
        MoveTypeLayout::U8 => Some(SignatureToken::U8),
        MoveTypeLayout::U64 => Some(SignatureToken::U64),
        MoveTypeLayout::U128 => Some(SignatureToken::U128),
        MoveTypeLayout::Vector(v) => match ty_to_sig(v) {
            None => None,
            Some(t) => Some(SignatureToken::Vector(Box::new(t))),
        },
        MoveTypeLayout::Struct(_) => None,
        MoveTypeLayout::Bool => Some(SignatureToken::Bool),
    }
}

/// The two directions of the mapper invert each other wherever they are
/// defined: a token with a layout maps back to itself, and a layout with a
/// token maps back to itself.
pub proof fn lemma_mapper_partial_inverse(t: TokenV, l: LayoutV)
    ensures
        sig_to_ty_spec(t) matches Some(l2) ==> ty_to_sig_spec(l2) == Some(t),
        ty_to_sig_spec(l) matches Some(t2) ==> sig_to_ty_spec(t2) == Some(l),
    decreases t, l,
{
    match t {
        TokenV::Vector(inner) => {
            lemma_mapper_partial_inverse(*inner, l);
        },
        _ => {},
    }
    match l {
        LayoutV::Vector(inner) => {
            lemma_mapper_partial_inverse(t, *inner);
        },
        _ => {},
    }
}

} // verus!
