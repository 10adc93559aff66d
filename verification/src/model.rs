//! Call-side model: signer designators, script argument values, and the
//! canonical encoding of a function-call transaction.
use vstd::prelude::*;
use crate::canon::{enc_uleb, enc_tag, enc_tags, write_uleb, write_bytes, write_tag};
use crate::errors::Error;
use crate::types::{
    AccountAddress, Identifier, TypeTag, TypeTagV, ident_wf, type_tag_wf, view_tags,
    lemma_view_tags_len, lemma_view_tags_index, clone_bytes,
};
use crate::value::{
    MoveValue, ValueV, enc_value, view_values, lemma_view_values_len, lemma_view_values_index,
};

verus! {

broadcast use vstd::std_specs::vec::group_vec_axioms, vstd::seq::group_seq_axioms;

// ---------------------------------------------------------------------------
// Signers
// ---------------------------------------------------------------------------

/// Ghost mirror of [`Signer`].
pub enum SignerV {
    Root,
    Placeholder,
    Name(Seq<u8>),
}

/// A signer designator for an implicit call: the chain's root signer, a
/// placeholder the runtime substitutes out-of-band, or a named signer.
/// Placeholder signers carry no real authority.
#[derive(Debug, Clone, PartialEq, Eq)]
pub enum Signer {
    Root,
    Placeholder,
    Name(Vec<u8>),
}

impl View for Signer {
    type V = SignerV;

    open spec fn view(&self) -> SignerV {
        match self {
            Signer::Root => SignerV::Root,
            Signer::Placeholder => SignerV::Placeholder,
            Signer::Name(b) => SignerV::Name(b@),
        }
    }
}

/// ASCII lower-casing of a byte string.
pub open spec fn ascii_lower(s: Seq<u8>) -> Seq<u8> {
    Seq::new(s.len(), |i: int| if 65 <= s[i] <= 90 { (s[i] + 32) as u8 } else { s[i] })
}

/// The signer a designator string denotes: `root`, `rt` or `dr`
/// (case-insensitively) name the root signer, `_` the placeholder, and
/// anything else a named signer.
pub open spec fn signer_of_str(s: Seq<u8>) -> SignerV {
    let l = ascii_lower(s);
    if l == seq![114u8, 111u8, 111u8, 116u8] || l == seq![114u8, 116u8] || l == seq![
        100u8,
        114u8,
    ] {
        SignerV::Root
    } else if l == seq![95u8] {
        SignerV::Placeholder
    } else {
        SignerV::Name(s)
    }
}

/// Reads a signer designator; never fails.
pub fn from_str(s: &[u8]) -> (r: Option<Signer>)
    ensures
        r matches Some(sg) ==> sg@ == signer_of_str(s@),
        r is Some,
{
    let mut low: Vec<u8> = Vec::new();
    let mut i: usize = 0;
    while i < s.len()
        invariant
            i <= s@.len(),
            low@.len() == i,
            forall|m: int| 0 <= m < i ==> low@[m] == ascii_lower(s@)[m],
        decreases s@.len() - i,
    {
        let b = s[i];
        if 65 <= b && b <= 90 {
            low.push(b + 32);
        } else {
            low.push(b);
        }
        i += 1;
    }
    proof {
        assert(low@ =~= ascii_lower(s@));
    }
    let is_root = (low.len() == 4 && low[0] == 114 && low[1] == 111 && low[2] == 111 && low[3]
        == 116) || (low.len() == 2 && low[0] == 114 && low[1] == 116) || (low.len() == 2 && low[0]
        == 100 && low[1] == 114);
    proof {
        let l = ascii_lower(s@);
        if is_root {
            assert(l =~= seq![114u8, 111u8, 111u8, 116u8] || l =~= seq![114u8, 116u8] || l =~= seq![
                100u8,
                114u8,
            ]);
        } else {
            assert(!(l =~= seq![114u8, 111u8, 111u8, 116u8]) && !(l =~= seq![114u8, 116u8]) && !(l
                =~= seq![100u8, 114u8]));
        }
    }
    if is_root {
        Some(Signer::Root)
    } else if low.len() == 1 && low[0] == 95 {
        proof {
            assert(ascii_lower(s@) =~= seq![95u8]);
        }
        Some(Signer::Placeholder)
    } else {
        proof {
            assert(!(ascii_lower(s@) =~= seq![95u8]));
        }
        let mut name: Vec<u8> = Vec::new();
        let mut k: usize = 0;
        while k < s.len()
            invariant
                k <= s@.len(),
                name@ == s@.subrange(0, k as int),
            decreases s@.len() - k,
        {
            name.push(s[k]);
            proof {
                assert(s@.subrange(0, k as int) + seq![s@[k as int]] =~= s@.subrange(0, k + 1));
            }
            k += 1;
        }
        proof {
            assert(name@ =~= s@);
        }
        Some(Signer::Name(name))
    }
}

/// The signer list of a call: explicit addresses, or implicit designators
/// the runtime resolves.
#[derive(Debug, PartialEq, Eq)]
pub enum Signers {
    Explicit(Vec<AccountAddress>),
    Implicit(Vec<Signer>),
}

impl Signers {
    /// Number of signers, whichever form they take.
    pub fn len(&self) -> (r: usize)
        ensures
            self matches Signers::Explicit(v) ==> r == v@.len(),
            self matches Signers::Implicit(v) ==> r == v@.len(),
    {
        match self {
            Signers::Explicit(v) => v.len(),
            Signers::Implicit(v) => v.len(),
        }
    }
}

/// A script argument value.
#[derive(Debug, PartialEq, Eq)]
pub enum ScriptArg {
    U8(u8),
    U64(u64),
    U128(u128),
    Bool(bool),
    Address(AccountAddress),
    VectorU8(Vec<u8>),
    VectorU64(Vec<u64>),
    VectorU128(Vec<u128>),
    VectorBool(Vec<bool>),
    VectorAddress(Vec<AccountAddress>),
}

// ---------------------------------------------------------------------------
// Function-call transaction encoding
// ---------------------------------------------------------------------------

/// Canonical encoding of one signer designator.
pub open spec fn enc_signer(sg: SignerV) -> Seq<u8> {
    match sg {
        SignerV::Root => seq![0u8],
        SignerV::Placeholder => seq![1u8],
        SignerV::Name(b) => seq![2u8] + enc_uleb(b.len()) + b,
    }
}

pub open spec fn enc_signers(sgs: Seq<SignerV>) -> Seq<u8>
    decreases sgs,
{
    if sgs.len() == 0 {
        Seq::empty()
    } else {
        enc_signers(sgs.drop_last()) + enc_signer(sgs.last())
    }
}

pub open spec fn enc_args(args: Seq<ValueV>) -> Seq<u8>
    decreases args,
{
    if args.len() == 0 {
        Seq::empty()
    } else {
        enc_args(args.drop_last()) + enc_uleb(enc_value(args.last()).len()) + enc_value(
            args.last(),
        )
    }
}

/// The canonical binary form of a function-call transaction: version tag,
/// signer list, callee (address, function name, module name), the
/// individually length-prefixed canonical argument encodings, and the type
/// arguments.
pub open spec fn enc_func_tx(
    signers: Seq<SignerV>,
    mod_address: Seq<u8>,
    func_name: Seq<u8>,
    mod_name: Seq<u8>,
    args: Seq<ValueV>,
    type_args: Seq<TypeTagV>,
) -> Seq<u8> {
    seq![0u8] + enc_uleb(signers.len()) + enc_signers(signers) + mod_address + enc_uleb(
        func_name.len(),
    ) + func_name + enc_uleb(mod_name.len()) + mod_name + enc_uleb(args.len()) + enc_args(args)
        + enc_uleb(type_args.len()) + enc_tags(type_args)
}

/// Builds the canonical binary form of a function-call transaction.
#[verifier::loop_isolation(false)]
#[verifier::rlimit(100)]
pub fn new_func_tx(
    signers: Vec<Signer>,
    mod_address: AccountAddress,
    mod_name: Identifier,
    func_name: Identifier,
    args: Vec<MoveValue>,
    type_args: Vec<TypeTag>,
) -> (r: Result<Vec<u8>, Error>)
    requires
        ident_wf(mod_name@),
        ident_wf(func_name@),
        forall|i: int| 0 <= i < type_args@.len() ==> type_tag_wf((#[trigger] type_args@[i])@),
    ensures
        r matches Ok(b) ==> b@ == enc_func_tx(
            view_signers(signers@),
            mod_address@,
            func_name@,
            mod_name@,
            view_values(args@),
            view_tags(type_args@),
        ),
        r is Ok,
{
    let mut out: Vec<u8> = Vec::new();
    out.push(0);
    write_uleb(&mut out, signers.len() as u64);
    let ghost base0 = out@;
    let ghost sgv = view_signers(signers@);
    proof {
        lemma_view_signers_len(signers@);
    }
    let mut i: usize = 0;
    while i < signers.len()
        invariant
            i <= signers@.len(),
            sgv == view_signers(signers@),
            sgv.len() == signers@.len(),
            out@ == base0 + enc_signers(sgv.take(i as int)),
        decreases signers@.len() - i,
    {
        proof {
            lemma_view_signers_index(signers@, i as int);
        }
        let ghost pre = out@;
        match &signers[i] {
            Signer::Root => {
                out.push(0);
            },
            Signer::Placeholder => {
                out.push(1);
            },
            Signer::Name(b) => {
                out.push(2);
                write_uleb(&mut out, b.len() as u64);
                write_bytes(&mut out, b.as_slice());
            },
        }
        proof {
            assert(out@ =~= pre + enc_signer(sgv[i as int]));
            assert(sgv.take(i + 1).drop_last() =~= sgv.take(i as int));
            assert(base0 + enc_signers(sgv.take(i as int)) + enc_signer(sgv[i as int]) =~= base0
                + enc_signers(sgv.take(i + 1)));
        }
        i += 1;
    }
    proof {
        assert(sgv.take(sgv.len() as int) =~= sgv);
    }
    write_bytes(&mut out, mod_address.bytes.as_slice());
    write_uleb(&mut out, func_name.bytes.len() as u64);
    write_bytes(&mut out, func_name.bytes.as_slice());
    write_uleb(&mut out, mod_name.bytes.len() as u64);
    write_bytes(&mut out, mod_name.bytes.as_slice());
    write_uleb(&mut out, args.len() as u64);
    let ghost base1 = out@;
    let ghost avs = view_values(args@);
    proof {
        lemma_view_values_len(args@);
    }
    let mut k: usize = 0;
    while k < args.len()
        invariant
            k <= args@.len(),
            avs == view_values(args@),
            avs.len() == args@.len(),
            out@ == base1 + enc_args(avs.take(k as int)),
        decreases args@.len() - k,
    {
        proof {
            lemma_view_values_index(args@, k as int);
        }
        let ghost pre = out@;
        let bytes = crate::value::serialize_value(&args[k]);
        write_uleb(&mut out, bytes.len() as u64);
        write_bytes(&mut out, bytes.as_slice());
        proof {
            assert(avs.take(k + 1).drop_last() =~= avs.take(k as int));
            assert(avs.take(k + 1).last() == avs[k as int]);
            assert(out@ =~= pre + enc_uleb(enc_value(avs[k as int]).len()) + enc_value(
                avs[k as int],
            ));
            assert(base1 + enc_args(avs.take(k as int)) + enc_uleb(enc_value(avs[k as int]).len())
                + enc_value(avs[k as int]) =~= base1 + enc_args(avs.take(k + 1)));
        }
        k += 1;
    }
    proof {
        assert(avs.take(avs.len() as int) =~= avs);
    }
    write_uleb(&mut out, type_args.len() as u64);
    let ghost base2 = out@;
    let ghost tvs = view_tags(type_args@);
    proof {
        lemma_view_tags_len(type_args@);
    }
    let mut m: usize = 0;
    while m < type_args.len()
        invariant
            m <= type_args@.len(),
            tvs == view_tags(type_args@),
            tvs.len() == type_args@.len(),
            out@ == base2 + enc_tags(tvs.take(m as int)),
        decreases type_args@.len() - m,
    {
        proof {
            lemma_view_tags_index(type_args@, m as int);
        }
        write_tag(&mut out, &type_args[m]);
        proof {
            crate::canon::lemma_enc_tags_snoc(tvs.take(m as int), tvs[m as int]);
            assert(tvs.take(m as int).push(tvs[m as int]) =~= tvs.take(m + 1));
            assert(base2 + enc_tags(tvs.take(m as int)) + enc_tag(type_args@[m as int]@) =~= base2
                + enc_tags(tvs.take(m + 1)));
        }
        m += 1;
    }
    proof {
        assert(tvs.take(tvs.len() as int) =~= tvs);
        assert(out@ =~= enc_func_tx(
            sgv,
            mod_address@,
            func_name@,
            mod_name@,
            avs,
            tvs,
        ));
    }
    Ok(out)
}

pub open spec fn view_signers(sgs: Seq<Signer>) -> Seq<SignerV>
    decreases sgs,
{
    if sgs.len() == 0 {
        Seq::empty()
    } else {
        view_signers(sgs.drop_last()).push(sgs.last()@)
    }
}

pub broadcast proof fn lemma_view_signers_len(sgs: Seq<Signer>)
    ensures
        #[trigger] view_signers(sgs).len() == sgs.len(),
    decreases sgs,
{
    if sgs.len() > 0 {
        assert(view_signers(sgs) == view_signers(sgs.drop_last()).push(sgs.last()@));
        lemma_view_signers_len(sgs.drop_last());
    } else {
        assert(view_signers(sgs) == Seq::<SignerV>::empty());
    }
}

pub broadcast proof fn lemma_view_signers_index(sgs: Seq<Signer>, i: int)
    requires
        0 <= i < sgs.len(),
    ensures
        #[trigger] view_signers(sgs)[i] == sgs[i]@,
    decreases sgs,
{
    lemma_view_signers_len(sgs);
    assert(view_signers(sgs) == view_signers(sgs.drop_last()).push(sgs.last()@));
    if i < sgs.len() - 1 {
        lemma_view_signers_index(sgs.drop_last(), i);
    }
}

} // verus!
