//! Canonical binary encoding of type tags and module ids: the fixed,
//! deterministic serialization used as both storage key and wire format.
//!
//! Addresses are raw fixed-width bytes, identifiers a ULEB128 length prefix
//! plus their bytes, and argument counts and enum variant indexes ULEB128
//! runs (minimal form only, capped at 32 bits). Decoding rejects truncated
//! input, trailing bytes, non-minimal length encodings and invalid
//! identifiers, so encoding and decoding invert each other in both
//! directions.
use vstd::prelude::*;
use crate::errors::Error;
use crate::types::{
    AccountAddress, Identifier, ModuleId, ModuleIdV, StructTag, StructTagV, TypeTag, TypeTagV,
    ADDRESS_LENGTH, addr_wf, ident_wf, module_id_wf, struct_tag_wf, type_tag_wf, view_tags,
    lemma_view_tags_len, lemma_view_tags_index, ident_bytes_ok,
};

verus! {

broadcast use vstd::std_specs::vec::group_vec_axioms, vstd::seq::group_seq_axioms;

// ---------------------------------------------------------------------------
// Specification: encoding
// ---------------------------------------------------------------------------

/// Minimal ULEB128 encoding of `n`.
pub open spec fn enc_uleb(n: nat) -> Seq<u8>
    decreases n,
{
    if n < 0x80 {
        seq![n as u8]
    } else {
        seq![(n % 0x80 + 0x80) as u8] + enc_uleb(n / 0x80)
    }
}

/// Length-prefixed identifier bytes.
pub open spec fn enc_ident(s: Seq<u8>) -> Seq<u8> {
    enc_uleb(s.len()) + s
}

/// Variant index of a type tag in the canonical enum order.
pub open spec fn tag_variant(t: TypeTagV) -> u8 {
    match t {
        TypeTagV::Bool => 0,
        TypeTagV::U8 => 1,
        TypeTagV::U64 => 2,
        TypeTagV::U128 => 3,
        TypeTagV::Address => 4,
        TypeTagV::Signer => 5,
        TypeTagV::Vector(_) => 6,
        TypeTagV::Struct(_) => 7,
    }
}

pub open spec fn enc_tag(t: TypeTagV) -> Seq<u8>
    decreases t, 2int,
{
    seq![tag_variant(t)] + match t {
        TypeTagV::Vector(inner) => enc_tag(*inner),
        TypeTagV::Struct(s) => enc_struct_tag(s),
        _ => Seq::empty(),
    }
}

pub open spec fn enc_struct_tag(t: StructTagV) -> Seq<u8>
    decreases t, 1int,
{
    t.addr + enc_ident(t.module) + enc_ident(t.name) + enc_uleb(t.type_args.len())
        + enc_tags(t.type_args)
}

pub open spec fn enc_tags(ts: Seq<TypeTagV>) -> Seq<u8>
    decreases ts, 3int,
{
    if ts.len() == 0 {
        Seq::empty()
    } else {
        enc_tag(ts[0]) + enc_tags(ts.drop_first())
    }
}

pub open spec fn enc_module_id(m: ModuleIdV) -> Seq<u8> {
    m.addr + enc_ident(m.name)
}

// ---------------------------------------------------------------------------
// Specification: decoding
// ---------------------------------------------------------------------------

/// Decodes a minimal ULEB128 run whose value (and every suffix value) fits
/// in 32 bits; yields the value and the next index.
pub open spec fn dec_uleb(s: Seq<u8>, i: int) -> Option<(nat, int)>
    decreases s.len() - i,
{
    if i < 0 || i >= s.len() {
        None
    } else {
        let b = s[i];
        if b < 0x80 {
            Some((b as nat, i + 1))
        } else {
            match dec_uleb(s, i + 1) {
                None => None,
                Some((v, j)) => {
                    if v == 0 {
                        None
                    } else {
                        let val = (b - 0x80) + 0x80 * v;
                        if val < 0x1_0000_0000 {
                            Some((val as nat, j))
                        } else {
                            None
                        }
                    }
                },
            }
        }
    }
}

/// Decodes a fixed-width address.
pub open spec fn dec_addr(s: Seq<u8>, i: int) -> Option<(Seq<u8>, int)> {
    if 0 <= i && i + ADDRESS_LENGTH <= s.len() {
        Some((s.subrange(i, i + ADDRESS_LENGTH), i + ADDRESS_LENGTH))
    } else {
        None
    }
}

/// Decodes a length-prefixed identifier and validates the name grammar.
pub open spec fn dec_ident(s: Seq<u8>, i: int) -> Option<(Seq<u8>, int)> {
    match dec_uleb(s, i) {
        None => None,
        Some((n, j)) => {
            if j + n <= s.len() {
                let id = s.subrange(j, j + n);
                if ident_wf(id) {
                    Some((id, j + n))
                } else {
                    None
                }
            } else {
                None
            }
        },
    }
}

pub open spec fn dec_tag(s: Seq<u8>, i: int) -> Option<(TypeTagV, int)>
    decreases s.len() - i, 2int, 0int,
{
    if i < 0 || i >= s.len() {
        None
    } else {
        let b = s[i];
        if b == 0 {
            Some((TypeTagV::Bool, i + 1))
        } else if b == 1 {
            Some((TypeTagV::U8, i + 1))
        } else if b == 2 {
            Some((TypeTagV::U64, i + 1))
        } else if b == 3 {
            Some((TypeTagV::U128, i + 1))
        } else if b == 4 {
            Some((TypeTagV::Address, i + 1))
        } else if b == 5 {
            Some((TypeTagV::Signer, i + 1))
        } else if b == 6 {
            match dec_tag(s, i + 1) {
                None => None,
                Some((t, j)) => Some((TypeTagV::Vector(Box::new(t)), j)),
            }
        } else if b == 7 {
            match dec_struct_tag(s, i + 1) {
                None => None,
                Some((t, j)) => Some((TypeTagV::Struct(t), j)),
            }
        } else {
            None
        }
    }
}

pub open spec fn dec_struct_tag(s: Seq<u8>, i: int) -> Option<(StructTagV, int)>
    decreases s.len() - i, 1int, 0int,
{
    match dec_addr(s, i) {
        None => None,
        Some((addr, i1)) => {
            if i1 <= i || i1 > s.len() {
                None
            } else {
            match dec_ident(s, i1) {
            None => None,
            Some((module, i2)) => {
                if i2 <= i1 || i2 > s.len() {
                    None
                } else {
                    match dec_ident(s, i2) {
                        None => None,
                        Some((name, i3)) => {
                            if i3 <= i2 || i3 > s.len() {
                                None
                            } else {
                                match dec_uleb(s, i3) {
                                    None => None,
                                    Some((n, i4)) => {
                                        if i4 <= i3 || i4 > s.len() {
                                            None
                                        } else {
                                            match dec_tags(s, i4, n) {
                                                None => None,
                                                Some((args, i5)) => Some(
                                                    (
                                                        StructTagV {
                                                            addr,
                                                            module,
                                                            name,
                                                            type_args: args,
                                                        },
                                                        i5,
                                                    ),
                                                ),
                                            }
                                        }
                                    },
                                }
                            }
                        },
                    }
                }
            },
            }
            }
        },
    }
}

pub open spec fn dec_tags(s: Seq<u8>, i: int, n: nat) -> Option<(Seq<TypeTagV>, int)>
    decreases s.len() - i, 3int, n,
{
    if n == 0 {
        Some((Seq::empty(), i))
    } else {
        match dec_tag(s, i) {
            None => None,
            Some((t, j)) => {
                if j <= i || j > s.len() {
                    None
                } else {
                    match dec_tags(s, j, (n - 1) as nat) {
                        None => None,
                        Some((rest, k)) => Some((seq![t] + rest, k)),
                    }
                }
            },
        }
    }
}

/// The whole-input decoding of a struct tag: all bytes must be consumed.
pub open spec fn parse_canonical_spec(s: Seq<u8>) -> Option<StructTagV> {
    match dec_struct_tag(s, 0) {
        None => None,
        Some((t, j)) => {
            if j == s.len() {
                Some(t)
            } else {
                None
            }
        },
    }
}

// ---------------------------------------------------------------------------
// Round trip: decoding an encoding yields the original value
// ---------------------------------------------------------------------------

/// `e` appears in `s` starting at `i`.
pub open spec fn bytes_at(s: Seq<u8>, i: int, e: Seq<u8>) -> bool {
    0 <= i && i + e.len() <= s.len() && s.subrange(i, i + e.len()) == e
}

pub proof fn lemma_enc_uleb_len(n: nat)
    ensures
        1 <= enc_uleb(n).len(),
        n < 0x80 ==> enc_uleb(n).len() == 1,
    decreases n,
{
    if n >= 0x80 {
        lemma_enc_uleb_len(n / 0x80);
    }
}

pub proof fn lemma_dec_enc_uleb(s: Seq<u8>, i: int, n: nat)
    requires
        n < 0x1_0000_0000,
        bytes_at(s, i, enc_uleb(n)),
    ensures
        dec_uleb(s, i) == Some((n, i + enc_uleb(n).len())),
    decreases n,
{
    let e = enc_uleb(n);
    lemma_enc_uleb_len(n);
    assert(s[i] == e[0]);
    if n < 0x80 {
        assert(e[0] == n as u8);
    } else {
        let rest = enc_uleb(n / 0x80);
        assert(e[0] == (n % 0x80 + 0x80) as u8);
        assert(s.subrange(i + 1, i + 1 + rest.len()) =~= e.subrange(1, e.len() as int));
        assert(e.subrange(1, e.len() as int) =~= rest);
        lemma_dec_enc_uleb(s, i + 1, n / 0x80);
        assert(n / 0x80 >= 1);
        let b = s[i];
        assert(b == (n % 0x80 + 0x80) as u8);
        assert((b - 0x80) + 0x80 * (n / 0x80) == n) by {
            assert(b - 0x80 == n % 0x80);
            assert(n % 0x80 + 0x80 * (n / 0x80) == n) by (nonlinear_arith);
        }
    }
}

pub proof fn lemma_dec_enc_ident(s: Seq<u8>, i: int, id: Seq<u8>)
    requires
        ident_wf(id),
        bytes_at(s, i, enc_ident(id)),
    ensures
        dec_ident(s, i) == Some((id, i + enc_ident(id).len())),
        i + enc_ident(id).len() > i,
{
    let lenb = enc_uleb(id.len());
    let e = enc_ident(id);
    lemma_enc_uleb_len(id.len());
    assert(s.subrange(i, i + lenb.len()) =~= e.subrange(0, lenb.len() as int));
    assert(e.subrange(0, lenb.len() as int) =~= lenb);
    lemma_dec_enc_uleb(s, i, id.len());
    let j = i + lenb.len();
    assert(s.subrange(j, j + id.len()) =~= e.subrange(lenb.len() as int, e.len() as int));
    assert(e.subrange(lenb.len() as int, e.len() as int) =~= id);
}

pub proof fn lemma_dec_enc_tag(s: Seq<u8>, i: int, t: TypeTagV)
    requires
        type_tag_wf(t),
        bytes_at(s, i, enc_tag(t)),
    ensures
        dec_tag(s, i) == Some((t, i + enc_tag(t).len())),
        i + enc_tag(t).len() > i,
    decreases t, 2int,
{
    let e = enc_tag(t);
    assert(s[i] == e[0]);
    assert(e[0] == tag_variant(t));
    match t {
        TypeTagV::Vector(inner) => {
            let einner = enc_tag(*inner);
            assert(s.subrange(i + 1, i + 1 + einner.len()) =~= e.subrange(1, e.len() as int));
            assert(e.subrange(1, e.len() as int) =~= einner);
            lemma_dec_enc_tag(s, i + 1, *inner);
        },
        TypeTagV::Struct(st) => {
            let einner = enc_struct_tag(st);
            assert(s.subrange(i + 1, i + 1 + einner.len()) =~= e.subrange(1, e.len() as int));
            assert(e.subrange(1, e.len() as int) =~= einner);
            lemma_dec_enc_struct_tag(s, i + 1, st);
        },
        _ => {
            assert(e.len() == 1);
        },
    }
}

pub proof fn lemma_dec_enc_struct_tag(s: Seq<u8>, i: int, t: StructTagV)
    requires
        struct_tag_wf(t),
        bytes_at(s, i, enc_struct_tag(t)),
    ensures
        dec_struct_tag(s, i) == Some((t, i + enc_struct_tag(t).len())),
        i + enc_struct_tag(t).len() > i,
    decreases t, 1int,
{
    let e = enc_struct_tag(t);
    let e_mod = enc_ident(t.module);
    let e_name = enc_ident(t.name);
    let e_cnt = enc_uleb(t.type_args.len());
    let e_args = enc_tags(t.type_args);
    let i1 = i + ADDRESS_LENGTH;
    let i2 = i1 + e_mod.len();
    let i3 = i2 + e_name.len();
    let i4 = i3 + e_cnt.len();
    let i5 = i4 + e_args.len();
    assert(e.len() == ADDRESS_LENGTH + e_mod.len() + e_name.len() + e_cnt.len() + e_args.len());
    assert(s.subrange(i, i1) =~= e.subrange(0, ADDRESS_LENGTH as int));
    assert(e.subrange(0, ADDRESS_LENGTH as int) =~= t.addr);
    assert(dec_addr(s, i) == Some((t.addr, i1)));
    assert(s.subrange(i1, i2) =~= e.subrange(ADDRESS_LENGTH as int, i2 - i));
    assert(e.subrange(ADDRESS_LENGTH as int, i2 - i) =~= e_mod);
    lemma_dec_enc_ident(s, i1, t.module);
    assert(s.subrange(i2, i3) =~= e.subrange(i2 - i, i3 - i));
    assert(e.subrange(i2 - i, i3 - i) =~= e_name);
    lemma_dec_enc_ident(s, i2, t.name);
    assert(s.subrange(i3, i4) =~= e.subrange(i3 - i, i4 - i));
    assert(e.subrange(i3 - i, i4 - i) =~= e_cnt);
    lemma_dec_enc_uleb(s, i3, t.type_args.len());
    lemma_enc_uleb_len(t.type_args.len());
    assert(s.subrange(i4, i5) =~= e.subrange(i4 - i, i5 - i));
    assert(e.subrange(i4 - i, i5 - i) =~= e_args);
    lemma_dec_enc_tags(s, i4, t.type_args);
}

pub proof fn lemma_dec_enc_tags(s: Seq<u8>, i: int, ts: Seq<TypeTagV>)
    requires
        forall|m: int| 0 <= m < ts.len() ==> type_tag_wf(#[trigger] ts[m]),
        bytes_at(s, i, enc_tags(ts)),
    ensures
        dec_tags(s, i, ts.len()) == Some((ts, i + enc_tags(ts).len())),
        i + enc_tags(ts).len() >= i,
    decreases ts, 3int,
{
    let e = enc_tags(ts);
    if ts.len() == 0 {
        assert(dec_tags(s, i, 0) == Some((Seq::<TypeTagV>::empty(), i)));
        assert(ts =~= Seq::<TypeTagV>::empty());
    } else {
        let e0 = enc_tag(ts[0]);
        let rest = ts.drop_first();
        let erest = enc_tags(rest);
        assert(s.subrange(i, i + e0.len()) =~= e.subrange(0, e0.len() as int));
        assert(e.subrange(0, e0.len() as int) =~= e0);
        lemma_dec_enc_tag(s, i, ts[0]);
        let j = i + e0.len();
        assert(s.subrange(j, j + erest.len()) =~= e.subrange(e0.len() as int, e.len() as int));
        assert(e.subrange(e0.len() as int, e.len() as int) =~= erest);
        assert(forall|m: int| 0 <= m < rest.len() ==> type_tag_wf(#[trigger] rest[m]));
        lemma_dec_enc_tags(s, j, rest);
        assert(seq![ts[0]] + rest =~= ts);
    }
}

/// Whatever a minimal ULEB128 run decodes to re-encodes to the same bytes.
pub proof fn lemma_enc_dec_uleb(s: Seq<u8>, i: int)
    requires
        dec_uleb(s, i) is Some,
    ensures
        ({
            let (n, j) = dec_uleb(s, i)->Some_0;
            &&& i < j <= s.len()
            &&& n < 0x1_0000_0000
            &&& enc_uleb(n) == s.subrange(i, j)
        }),
    decreases s.len() - i,
{
    let (n, j) = dec_uleb(s, i)->Some_0;
    let b = s[i];
    if b < 0x80 {
        assert(enc_uleb(n) =~= s.subrange(i, i + 1));
    } else {
        lemma_enc_dec_uleb(s, i + 1);
        let (v, j2) = dec_uleb(s, i + 1)->Some_0;
        assert(v >= 1);
        let val = (b - 0x80) + 0x80 * v;
        assert(val >= 0x80);
        assert(((b - 0x80) + 0x80 * v) % 0x80 == b - 0x80 && ((b - 0x80) + 0x80 * v) / 0x80
            == v) by (nonlinear_arith)
            requires
                0 <= b - 0x80 < 0x80,
                v >= 0,
        ;
        assert(enc_uleb(n) == seq![(val % 0x80 + 0x80) as u8] + enc_uleb((val / 0x80) as nat));
        assert((val % 0x80 + 0x80) as u8 == b);
        assert(enc_uleb(n) =~= s.subrange(i, j2));
    }
}

/// Whatever an identifier field decodes to re-encodes to the same bytes.
pub proof fn lemma_enc_dec_ident(s: Seq<u8>, i: int)
    requires
        dec_ident(s, i) is Some,
    ensures
        ({
            let (id, j) = dec_ident(s, i)->Some_0;
            &&& i < j <= s.len()
            &&& ident_wf(id)
            &&& enc_ident(id) == s.subrange(i, j)
        }),
{
    lemma_enc_dec_uleb(s, i);
    let (n, j1) = dec_uleb(s, i)->Some_0;
    let (id, j) = dec_ident(s, i)->Some_0;
    assert(id.len() == n);
    assert(enc_ident(id) =~= s.subrange(i, j1) + s.subrange(j1, j));
    assert(s.subrange(i, j1) + s.subrange(j1, j) =~= s.subrange(i, j));
}

/// Whatever a tag decodes to is well-formed and re-encodes to the same
/// bytes.
pub proof fn lemma_enc_dec_tag(s: Seq<u8>, i: int)
    requires
        dec_tag(s, i) is Some,
    ensures
        ({
            let (t, j) = dec_tag(s, i)->Some_0;
            &&& i < j <= s.len()
            &&& type_tag_wf(t)
            &&& enc_tag(t) == s.subrange(i, j)
        }),
    decreases s.len() - i, 2int, 0int,
{
    let (t, j) = dec_tag(s, i)->Some_0;
    let b = s[i];
    if b == 6 {
        lemma_enc_dec_tag(s, i + 1);
        let (inner, j2) = dec_tag(s, i + 1)->Some_0;
        assert(enc_tag(t) =~= seq![6u8] + s.subrange(i + 1, j2));
        assert(seq![s[i]] + s.subrange(i + 1, j2) =~= s.subrange(i, j2));
    } else if b == 7 {
        lemma_enc_dec_struct_tag(s, i + 1);
        let (st, j2) = dec_struct_tag(s, i + 1)->Some_0;
        assert(enc_tag(t) =~= seq![7u8] + s.subrange(i + 1, j2));
        assert(seq![s[i]] + s.subrange(i + 1, j2) =~= s.subrange(i, j2));
    } else {
        assert(enc_tag(t) =~= s.subrange(i, i + 1));
    }
}

/// Whatever a struct tag decodes to is well-formed and re-encodes to the
/// same bytes.
pub proof fn lemma_enc_dec_struct_tag(s: Seq<u8>, i: int)
    requires
        dec_struct_tag(s, i) is Some,
    ensures
        ({
            let (t, j) = dec_struct_tag(s, i)->Some_0;
            &&& i < j <= s.len()
            &&& struct_tag_wf(t)
            &&& enc_struct_tag(t) == s.subrange(i, j)
        }),
    decreases s.len() - i, 1int, 0int,
{
    let (t, j) = dec_struct_tag(s, i)->Some_0;
    let i1 = i + ADDRESS_LENGTH;
    assert(t.addr == s.subrange(i, i1));
    lemma_enc_dec_ident(s, i1);
    let (m, i2) = dec_ident(s, i1)->Some_0;
    lemma_enc_dec_ident(s, i2);
    let (nm, i3) = dec_ident(s, i2)->Some_0;
    lemma_enc_dec_uleb(s, i3);
    let (n, i4) = dec_uleb(s, i3)->Some_0;
    lemma_enc_dec_tags(s, i4, n);
    let (args, i5) = dec_tags(s, i4, n)->Some_0;
    assert(args.len() == n);
    assert(enc_struct_tag(t) == t.addr + enc_ident(t.module) + enc_ident(t.name) + enc_uleb(
        t.type_args.len(),
    ) + enc_tags(t.type_args));
    assert(enc_struct_tag(t) =~= s.subrange(i, i1) + s.subrange(i1, i2) + s.subrange(i2, i3)
        + s.subrange(i3, i4) + s.subrange(i4, i5));
    assert(s.subrange(i, i1) + s.subrange(i1, i2) + s.subrange(i2, i3) + s.subrange(i3, i4)
        + s.subrange(i4, i5) =~= s.subrange(i, i5));
}

/// Whatever a tag list decodes to is well-formed and re-encodes to the
/// same bytes.
pub proof fn lemma_enc_dec_tags(s: Seq<u8>, i: int, n: nat)
    requires
        0 <= i <= s.len(),
        dec_tags(s, i, n) is Some,
    ensures
        ({
            let (ts, j) = dec_tags(s, i, n)->Some_0;
            &&& i <= j <= s.len()
            &&& ts.len() == n
            &&& forall|m: int| 0 <= m < ts.len() ==> type_tag_wf(#[trigger] ts[m])
            &&& enc_tags(ts) == s.subrange(i, j)
        }),
    decreases s.len() - i, 3int, n,
{
    let (ts, j) = dec_tags(s, i, n)->Some_0;
    if n == 0 {
        assert(enc_tags(ts) =~= s.subrange(i, i));
    } else {
        lemma_enc_dec_tag(s, i);
        let (t, j1) = dec_tag(s, i)->Some_0;
        lemma_enc_dec_tags(s, j1, (n - 1) as nat);
        let (rest, j2) = dec_tags(s, j1, (n - 1) as nat)->Some_0;
        assert(ts == seq![t] + rest);
        assert(ts[0] == t);
        assert(ts.drop_first() =~= rest);
        assert forall|m: int| 0 <= m < ts.len() implies type_tag_wf(#[trigger] ts[m]) by {
            if m > 0 {
                assert(ts[m] == rest[m - 1]);
            }
        }
        assert(enc_tags(ts) == enc_tag(t) + enc_tags(rest));
        assert(enc_tags(ts) =~= s.subrange(i, j1) + s.subrange(j1, j2));
        assert(s.subrange(i, j1) + s.subrange(j1, j2) =~= s.subrange(i, j2));
    }
}

/// The other direction of the round-trip law: re-encoding a decoded tag is
/// byte-identical to the original encoding, and the decoded tag is
/// well-formed.
pub proof fn lemma_canonical_byte_identity(s: Seq<u8>)
    requires
        parse_canonical_spec(s) is Some,
    ensures
        struct_tag_wf(parse_canonical_spec(s)->Some_0),
        enc_struct_tag(parse_canonical_spec(s)->Some_0) == s,
{
    lemma_enc_dec_struct_tag(s, 0);
    assert(s.subrange(0, s.len() as int) =~= s);
}

/// The round-trip law: decoding the canonical encoding of any well-formed
/// struct tag yields exactly that tag, consuming the whole input.
pub proof fn lemma_canonical_roundtrip(t: StructTagV)
    requires
        struct_tag_wf(t),
    ensures
        parse_canonical_spec(enc_struct_tag(t)) == Some(t),
{
    let s = enc_struct_tag(t);
    assert(s.subrange(0, s.len() as int) =~= s);
    lemma_dec_enc_struct_tag(s, 0, t);
}


// ---------------------------------------------------------------------------
// Executable encoding
// ---------------------------------------------------------------------------

/// Appends a byte slice.
pub fn write_bytes(out: &mut Vec<u8>, b: &[u8])
    ensures
        final(out)@ == old(out)@ + b@,
{
    let mut i: usize = 0;
    while i < b.len()
        invariant
            i <= b@.len(),
            out@ == old(out)@ + b@.subrange(0, i as int),
        decreases b@.len() - i,
    {
        out.push(b[i]);
        proof {
            assert(old(out)@ + b@.subrange(0, i as int) + seq![b@[i as int]] =~= old(out)@
                + b@.subrange(0, i + 1));
        }
        i += 1;
    }
    proof {
        assert(b@.subrange(0, b@.len() as int) =~= b@);
    }
}

/// Appends the minimal ULEB128 form of `n`.
pub fn write_uleb(out: &mut Vec<u8>, n: u64)
    ensures
        final(out)@ == old(out)@ + enc_uleb(n as nat),
    decreases n,
{
    if n < 0x80 {
        out.push(n as u8);
        proof {
            assert(old(out)@ + seq![n as u8] =~= old(out)@ + enc_uleb(n as nat));
        }
    } else {
        out.push((n % 0x80 + 0x80) as u8);
        write_uleb(out, n / 0x80);
        proof {
            assert(old(out)@ + seq![(n % 0x80 + 0x80) as u8] + enc_uleb((n / 0x80) as nat)
                =~= old(out)@ + enc_uleb(n as nat));
        }
    }
}

/// Appends a length-prefixed identifier.
pub fn write_ident(out: &mut Vec<u8>, id: &Identifier)
    requires
        id.wf(),
    ensures
        final(out)@ == old(out)@ + enc_ident(id@),
{
    write_uleb(out, id.bytes.len() as u64);
    write_bytes(out, id.bytes.as_slice());
    proof {
        assert(old(out)@ + enc_uleb(id@.len()) + id@ =~= old(out)@ + enc_ident(id@));
    }
}

/// Appends the raw address bytes.
pub fn write_addr(out: &mut Vec<u8>, a: &AccountAddress)
    ensures
        final(out)@ == old(out)@ + a@,
{
    write_bytes(out, a.bytes.as_slice());
}

pub proof fn lemma_enc_tags_snoc(ts: Seq<TypeTagV>, x: TypeTagV)
    ensures
        enc_tags(ts.push(x)) == enc_tags(ts) + enc_tag(x),
    decreases ts,
{
    let p = ts.push(x);
    assert(p.len() == ts.len() + 1);
    if ts.len() == 0 {
        assert(p[0] == x);
        assert(p.drop_first() =~= Seq::<TypeTagV>::empty());
        assert(enc_tags(p) == enc_tag(x) + enc_tags(p.drop_first()));
        assert(enc_tag(x) + Seq::<u8>::empty() =~= enc_tag(x));
        assert(Seq::<u8>::empty() + enc_tag(x) =~= enc_tag(x));
    } else {
        assert(p[0] == ts[0]);
        assert(p.drop_first() =~= ts.drop_first().push(x));
        lemma_enc_tags_snoc(ts.drop_first(), x);
        assert(enc_tag(ts[0]) + (enc_tags(ts.drop_first()) + enc_tag(x)) =~= (enc_tag(ts[0])
            + enc_tags(ts.drop_first())) + enc_tag(x));
    }
}

/// Appends the canonical form of one type tag.
pub fn write_tag(out: &mut Vec<u8>, t: &TypeTag)
    requires
        t.wf(),
    ensures
        final(out)@ == old(out)@ + enc_tag(t@),
    decreases t, 2int,
{
    match t {
        TypeTag::Bool => {
            out.push(0);
            proof {
                assert(old(out)@ + seq![0u8] =~= old(out)@ + enc_tag(t@));
            }
        },
        TypeTag::U8 => {
            out.push(1);
            proof {
                assert(old(out)@ + seq![1u8] =~= old(out)@ + enc_tag(t@));
            }
        },
        TypeTag::U64 => {
            out.push(2);
            proof {
                assert(old(out)@ + seq![2u8] =~= old(out)@ + enc_tag(t@));
            }
        },
        TypeTag::U128 => {
            out.push(3);
            proof {
                assert(old(out)@ + seq![3u8] =~= old(out)@ + enc_tag(t@));
            }
        },
        TypeTag::Address => {
            out.push(4);
            proof {
                assert(old(out)@ + seq![4u8] =~= old(out)@ + enc_tag(t@));
            }
        },
        TypeTag::Signer => {
            out.push(5);
            proof {
                assert(old(out)@ + seq![5u8] =~= old(out)@ + enc_tag(t@));
            }
        },
        TypeTag::Vector(inner) => {
            out.push(6);
            write_tag(out, inner);
            proof {
                assert(old(out)@ + seq![6u8] + enc_tag(inner@) =~= old(out)@ + enc_tag(t@));
            }
        },
        TypeTag::Struct(st) => {
            out.push(7);
            write_struct_tag(out, st);
            proof {
                assert(old(out)@ + seq![7u8] + enc_struct_tag(st@) =~= old(out)@ + enc_tag(t@));
            }
        },
    }
}

/// Appends the canonical form of a struct tag.
pub fn write_struct_tag(out: &mut Vec<u8>, t: &StructTag)
    requires
        t.wf(),
    ensures
        final(out)@ == old(out)@ + enc_struct_tag(t@),
    decreases t, 1int,
{
    write_addr(out, &t.address);
    write_ident(out, &t.module);
    write_ident(out, &t.name);
    proof {
        lemma_view_tags_len(t.type_args@);
    }
    write_uleb(out, t.type_args.len() as u64);
    let ghost base = out@;
    let ghost tvs = view_tags(t.type_args@);
    let mut i: usize = 0;
    while i < t.type_args.len()
        invariant
            i <= t.type_args@.len(),
            t.wf(),
            tvs == view_tags(t.type_args@),
            tvs.len() == t.type_args@.len(),
            out@ == base + enc_tags(tvs.take(i as int)),
        decreases t.type_args@.len() - i,
    {
        proof {
            lemma_view_tags_index(t.type_args@, i as int);
            assert(type_tag_wf(t.type_args@[i as int]@)) by {
                assert(struct_tag_wf(t@));
                assert(t@.type_args[i as int] == tvs[i as int]);
            }
        }
        write_tag(out, &t.type_args[i]);
        proof {
            lemma_enc_tags_snoc(tvs.take(i as int), tvs[i as int]);
            assert(tvs.take(i as int).push(tvs[i as int]) =~= tvs.take(i + 1));
            assert(base + enc_tags(tvs.take(i as int)) + enc_tag(t.type_args@[i as int]@) =~= base
                + enc_tags(tvs.take(i + 1)));
        }
        i += 1;
    }
    proof {
        assert(tvs.take(tvs.len() as int) =~= tvs);
        assert(old(out)@ + t.address@ + enc_ident(t.module@) + enc_ident(t.name@) + enc_uleb(
            t.type_args@.len(),
        ) + enc_tags(tvs) =~= old(out)@ + enc_struct_tag(t@));
    }
}

/// Serializes a struct tag to its canonical binary form; deterministic, and
/// decoding it yields the tag back (see [`lemma_canonical_roundtrip`]).
pub fn to_canonical(tag: &StructTag) -> (r: Vec<u8>)
    requires
        tag.wf(),
    ensures
        r@ == enc_struct_tag(tag@),
{
    let mut out: Vec<u8> = Vec::new();
    write_struct_tag(&mut out, tag);
    proof {
        assert(Seq::<u8>::empty() + enc_struct_tag(tag@) =~= enc_struct_tag(tag@));
    }
    out
}

/// Serializes a module id to its canonical binary form.
pub fn module_id_to_canonical(m: &ModuleId) -> (r: Vec<u8>)
    requires
        m.wf(),
    ensures
        r@ == enc_module_id(m@),
{
    let mut out: Vec<u8> = Vec::new();
    write_addr(&mut out, &m.address);
    write_ident(&mut out, &m.name);
    proof {
        assert(Seq::<u8>::empty() + m.address@ + enc_ident(m.name@) =~= enc_module_id(m@));
    }
    out
}

// ---------------------------------------------------------------------------
// Executable decoding
// ---------------------------------------------------------------------------

/// Reads one minimal ULEB128 run.
pub fn read_uleb(s: &[u8], i: usize) -> (r: Option<(u32, usize)>)
    ensures
        match r {
            Some((v, j)) => dec_uleb(s@, i as int) == Some(((v as nat), j as int)) && i < j
                <= s@.len(),
            None => dec_uleb(s@, i as int) is None,
        },
    decreases s@.len() - i,
{
    if i >= s.len() {
        return None;
    }
    let b = s[i];
    if b < 0x80 {
        Some((b as u32, i + 1))
    } else {
        match read_uleb(s, i + 1) {
            None => None,
            Some((v, j)) => {
                if v == 0 {
                    None
                } else {
                    let val: u64 = (b - 0x80) as u64 + 0x80u64 * (v as u64);
                    if val < 0x1_0000_0000u64 {
                        Some((val as u32, j))
                    } else {
                        None
                    }
                }
            },
        }
    }
}

/// Copies `s[i .. i + n]` out into a fresh vector.
pub fn copy_range(s: &[u8], i: usize, n: usize) -> (r: Vec<u8>)
    requires
        i + n <= s@.len(),
    ensures
        r@ == s@.subrange(i as int, i + n),
{
    let slen: usize = s.len();
    let mut out: Vec<u8> = Vec::new();
    let mut k: usize = 0;
    while k < n
        invariant
            k <= n,
            i + n <= s@.len(),
            s@.len() == slen,
            out@ == s@.subrange(i as int, i + k),
        decreases n - k,
    {
        out.push(s[i + k]);
        proof {
            assert(s@.subrange(i as int, i + k) + seq![s@[i + k]] =~= s@.subrange(
                i as int,
                i + k + 1,
            ));
        }
        k += 1;
    }
    out
}

/// Reads a fixed-width address.
pub fn read_addr(s: &[u8], i: usize) -> (r: Option<(AccountAddress, usize)>)
    ensures
        match r {
            Some((a, j)) => dec_addr(s@, i as int) == Some((a@, j as int)) && a.wf() && i < j
                <= s@.len(),
            None => dec_addr(s@, i as int) is None,
        },
{
    if i > s.len() || s.len() - i < ADDRESS_LENGTH {
        return None;
    }
    let bytes = copy_range(s, i, ADDRESS_LENGTH);
    Some((AccountAddress { bytes }, i + ADDRESS_LENGTH))
}

/// Reads a length-prefixed identifier, validating the name grammar.
pub fn read_ident(s: &[u8], i: usize) -> (r: Option<(Identifier, usize)>)
    ensures
        match r {
            Some((id, j)) => dec_ident(s@, i as int) == Some((id@, j as int)) && id.wf() && i < j
                <= s@.len(),
            None => dec_ident(s@, i as int) is None,
        },
{
    match read_uleb(s, i) {
        None => None,
        Some((n, j)) => {
            let n = n as usize;
            if n > s.len() - j {
                return None;
            }
            let bytes = copy_range(s, j, n);
            if ident_bytes_ok(bytes.as_slice()) {
                Some((Identifier { bytes }, j + n))
            } else {
                None
            }
        },
    }
}

/// Reads one type tag.
pub fn read_tag(s: &[u8], i: usize) -> (r: Option<(TypeTag, usize)>)
    ensures
        match r {
            Some((t, j)) => dec_tag(s@, i as int) == Some((t@, j as int)) && t.wf() && i < j
                <= s@.len(),
            None => dec_tag(s@, i as int) is None,
        },
    decreases s@.len() - i, 2int, 0int,
{
    if i >= s.len() {
        return None;
    }
    let b = s[i];
    if b == 0 {
        Some((TypeTag::Bool, i + 1))
    } else if b == 1 {
        Some((TypeTag::U8, i + 1))
    } else if b == 2 {
        Some((TypeTag::U64, i + 1))
    } else if b == 3 {
        Some((TypeTag::U128, i + 1))
    } else if b == 4 {
        Some((TypeTag::Address, i + 1))
    } else if b == 5 {
        Some((TypeTag::Signer, i + 1))
    } else if b == 6 {
        match read_tag(s, i + 1) {
            None => None,
            Some((t, j)) => Some((TypeTag::Vector(Box::new(t)), j)),
        }
    } else if b == 7 {
        match read_struct_tag(s, i + 1) {
            None => None,
            Some((t, j)) => Some((TypeTag::Struct(t), j)),
        }
    } else {
        None
    }
}

/// Reads one struct tag.
pub fn read_struct_tag(s: &[u8], i: usize) -> (r: Option<(StructTag, usize)>)
    ensures
        match r {
            Some((t, j)) => dec_struct_tag(s@, i as int) == Some((t@, j as int)) && t.wf() && i < j
                <= s@.len(),
            None => dec_struct_tag(s@, i as int) is None,
        },
    decreases s@.len() - i, 1int, 0int,
{
    let (address, i1) = match read_addr(s, i) {
        None => {
            return None;
        },
        Some(x) => x,
    };
    let (module, i2) = match read_ident(s, i1) {
        None => {
            return None;
        },
        Some(x) => x,
    };
    let (name, i3) = match read_ident(s, i2) {
        None => {
            return None;
        },
        Some(x) => x,
    };
    let (n, i4) = match read_uleb(s, i3) {
        None => {
            return None;
        },
        Some(x) => x,
    };
    let (type_args, i5) = match read_tags(s, i4, n) {
        None => {
            return None;
        },
        Some(x) => x,
    };
    let st = StructTag { address, module, name, type_args };
    proof {
        lemma_view_tags_len(st.type_args@);
        assert forall|m: int| 0 <= m < st@.type_args.len() implies type_tag_wf(
            #[trigger] st@.type_args[m],
        ) by {
            lemma_view_tags_index(st.type_args@, m);
        }
        assert(struct_tag_wf(st@));
    }
    Some((st, i5))
}

/// Reads `n` consecutive type tags.
pub fn read_tags(s: &[u8], i: usize, n: u32) -> (r: Option<(Vec<TypeTag>, usize)>)
    ensures
        match r {
            Some((ts, j)) => dec_tags(s@, i as int, n as nat) == Some(
                (view_tags(ts@), j as int),
            ) && i <= j && (n == 0 ==> j == i) && (n > 0 ==> j <= s@.len()) && ts@.len() == n
                && forall|m: int| 0 <= m < ts@.len() ==> (#[trigger] ts@[m]).wf(),
            None => dec_tags(s@, i as int, n as nat) is None,
        },
    decreases s@.len() - i, 3int, n,
{
    if n == 0 {
        let empty: Vec<TypeTag> = Vec::new();
        proof {
            assert(view_tags(empty@) =~= Seq::<TypeTagV>::empty());
        }
        return Some((empty, i));
    }
    let (t, j) = match read_tag(s, i) {
        None => {
            return None;
        },
        Some(x) => x,
    };
    let (mut rest, k) = match read_tags(s, j, n - 1) {
        None => {
            return None;
        },
        Some(x) => x,
    };
    let ghost rest0 = rest@;
    rest.insert(0, t);
    proof {
        assert(rest@ =~= seq![t] + rest0);
        lemma_view_tags_prepend(t, rest0);
    }
    Some((rest, k))
}

pub proof fn lemma_view_tags_prepend(t: TypeTag, rest: Seq<TypeTag>)
    ensures
        view_tags(seq![t] + rest) == seq![t@] + view_tags(rest),
{
    let a = seq![t] + rest;
    lemma_view_tags_len(a);
    lemma_view_tags_len(rest);
    assert forall|m: int| 0 <= m < a.len() implies view_tags(a)[m] == (seq![t@] + view_tags(
        rest,
    ))[m] by {
        lemma_view_tags_index(a, m);
        if m > 0 {
            lemma_view_tags_index(rest, m - 1);
        }
    }
    assert(view_tags(a) =~= seq![t@] + view_tags(rest));
}

/// Decodes a struct tag from its canonical binary form; all bytes must be
/// consumed, and any truncated, trailing or non-canonical input is rejected.
pub fn parse_canonical(bytes: &[u8]) -> (r: Result<StructTag, Error>)
    ensures
        r matches Ok(t) ==> parse_canonical_spec(bytes@) == Some(t@) && t.wf(),
        r is Err <==> parse_canonical_spec(bytes@) is None,
        r matches Err(e) ==> e@ == crate::errors::ErrorV::CorruptEncoding,
{
    match read_struct_tag(bytes, 0) {
        Some((t, j)) => {
            if j == bytes.len() {
                Ok(t)
            } else {
                Err(Error::CorruptEncoding)
            }
        },
        None => Err(Error::CorruptEncoding),
    }
}


} // verus!
