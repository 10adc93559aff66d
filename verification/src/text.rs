//! The textual form of type descriptors: `0x1::Module::Name<args>` with
//! primitive names, `vector<..>` and nested struct tags as arguments.
//! The grammar is strict: no whitespace, and the whole input must be
//! consumed.
use vstd::prelude::*;
use crate::errors::Error;
use crate::hex::{addr_of_lit, addr_lit_wf, is_hex_digit, parse_address_literal};
use crate::types::{
    AccountAddress, Identifier, StructTag, StructTagV, TypeTag, TypeTagV, ident_wf, is_ident_char,
    ident_bytes_ok, struct_tag_wf, type_tag_wf, view_tags, lemma_view_tags_len,
    lemma_view_tags_index,
};
use crate::canon::copy_range;

verus! {

broadcast use vstd::std_specs::vec::group_vec_axioms, vstd::seq::group_seq_axioms;

/// Index just past the run of hex digits starting at `i`.
pub open spec fn hex_run_end(s: Seq<u8>, i: int) -> int
    decreases s.len() - i,
{
    if 0 <= i < s.len() && is_hex_digit(s[i]) {
        hex_run_end(s, i + 1)
    } else {
        i
    }
}

pub proof fn lemma_hex_run_end(s: Seq<u8>, i: int)
    requires
        0 <= i <= s.len(),
    ensures
        i <= hex_run_end(s, i) <= s.len(),
        forall|m: int| i <= m < hex_run_end(s, i) ==> is_hex_digit(#[trigger] s[m]),
        hex_run_end(s, i) < s.len() ==> !is_hex_digit(s[hex_run_end(s, i)]),
    decreases s.len() - i,
{
    if i < s.len() && is_hex_digit(s[i]) {
        lemma_hex_run_end(s, i + 1);
    }
}

/// Index just past the run of identifier characters starting at `i`.
pub open spec fn ident_run_end(s: Seq<u8>, i: int) -> int
    decreases s.len() - i,
{
    if 0 <= i < s.len() && is_ident_char(s[i]) {
        ident_run_end(s, i + 1)
    } else {
        i
    }
}

pub proof fn lemma_ident_run_end(s: Seq<u8>, i: int)
    requires
        0 <= i <= s.len(),
    ensures
        i <= ident_run_end(s, i) <= s.len(),
        forall|m: int| i <= m < ident_run_end(s, i) ==> is_ident_char(#[trigger] s[m]),
        ident_run_end(s, i) < s.len() ==> !is_ident_char(s[ident_run_end(s, i)]),
    decreases s.len() - i,
{
    if i < s.len() && is_ident_char(s[i]) {
        lemma_ident_run_end(s, i + 1);
    }
}

/// Parses an address literal token: `0x` plus a maximal run of one to 64
/// hex digits.
pub open spec fn ts_addr(s: Seq<u8>, i: int) -> Option<(Seq<u8>, int)> {
    if 0 <= i && i + 2 <= s.len() && s[i] == 48 && s[i + 1] == 120 {
        let e = hex_run_end(s, i + 2);
        if e <= i + 2 || e > i + 2 + 64 {
            None
        } else {
            Some((addr_of_lit(s.subrange(i, e)), e))
        }
    } else {
        None
    }
}

/// Parses one type-tag token: a primitive name, `vector<..>`, or a struct
/// tag starting with an address literal.
pub open spec fn ts_tag(s: Seq<u8>, i: int) -> Option<(TypeTagV, int)>
    decreases s.len() - i, 2int,
{
    if i < 0 || i >= s.len() {
        None
    } else if s[i] == 48 {
        match ts_struct_tag(s, i) {
            None => None,
            Some((st, j)) => Some((TypeTagV::Struct(st), j)),
        }
    } else {
        let e = ident_run_end(s, i);
        if e <= i || e > s.len() {
            None
        } else {
            let w = s.subrange(i, e);
            if w == seq![117u8, 56u8] {
                Some((TypeTagV::U8, e))
            } else if w == seq![117u8, 54u8, 52u8] {
                Some((TypeTagV::U64, e))
            } else if w == seq![117u8, 49u8, 50u8, 56u8] {
                Some((TypeTagV::U128, e))
            } else if w == seq![98u8, 111u8, 111u8, 108u8] {
                Some((TypeTagV::Bool, e))
            } else if w == seq![97u8, 100u8, 100u8, 114u8, 101u8, 115u8, 115u8] {
                Some((TypeTagV::Address, e))
            } else if w == seq![115u8, 105u8, 103u8, 110u8, 101u8, 114u8] {
                Some((TypeTagV::Signer, e))
            } else if w == seq![118u8, 101u8, 99u8, 116u8, 111u8, 114u8] {
                if e < s.len() && s[e] == 60 {
                    match ts_tag(s, e + 1) {
                        None => None,
                        Some((inner, j)) => {
                            if 0 <= j < s.len() && s[j] == 62 {
                                Some((TypeTagV::Vector(Box::new(inner)), j + 1))
                            } else {
                                None
                            }
                        },
                    }
                } else {
                    None
                }
            } else {
                None
            }
        }
    }
}

/// Parses a struct tag: address, `::`, module, `::`, name, and an optional
/// angle-bracketed argument list.
pub open spec fn ts_struct_tag(s: Seq<u8>, i: int) -> Option<(StructTagV, int)>
    decreases s.len() - i, 1int,
{
    match ts_addr(s, i) {
        None => None,
        Some((a, e)) => {
            if e <= i || e > s.len() {
                None
            } else if e + 2 <= s.len() && s[e] == 58 && s[e + 1] == 58 {
                let m_end = ident_run_end(s, e + 2);
                let m = s.subrange(e + 2, m_end);
                if m_end <= e + 2 || m_end > s.len() || !ident_wf(m) {
                    None
                } else if m_end + 2 <= s.len() && s[m_end] == 58 && s[m_end + 1] == 58 {
                    let n_end = ident_run_end(s, m_end + 2);
                    let nm = s.subrange(m_end + 2, n_end);
                    if n_end <= m_end + 2 || n_end > s.len() || !ident_wf(nm) {
                        None
                    } else if n_end < s.len() && s[n_end] == 60 {
                        match ts_tags(s, n_end + 1) {
                            None => None,
                            Some((args, j)) => {
                                if args.len() < 0x1_0000_0000 {
                                    Some(
                                        (
                                            StructTagV {
                                                addr: a,
                                                module: m,
                                                name: nm,
                                                type_args: args,
                                            },
                                            j,
                                        ),
                                    )
                                } else {
                                    None
                                }
                            },
                        }
                    } else {
                        Some(
                            (
                                StructTagV { addr: a, module: m, name: nm, type_args: Seq::empty() },
                                n_end,
                            ),
                        )
                    }
                } else {
                    None
                }
            } else {
                None
            }
        },
    }
}

/// Parses one or more comma-separated tags up to the closing `>`.
pub open spec fn ts_tags(s: Seq<u8>, i: int) -> Option<(Seq<TypeTagV>, int)>
    decreases s.len() - i, 3int,
{
    match ts_tag(s, i) {
        None => None,
        Some((t, j)) => {
            if j <= i || j > s.len() {
                None
            } else if j < s.len() && s[j] == 44 {
                match ts_tags(s, j + 1) {
                    None => None,
                    Some((rest, k)) => Some((seq![t] + rest, k)),
                }
            } else if j < s.len() && s[j] == 62 {
                Some((seq![t], j + 1))
            } else {
                None
            }
        },
    }
}

/// The whole-input textual reading of a struct tag.
pub open spec fn parse_textual_spec(s: Seq<u8>) -> Option<StructTagV> {
    match ts_struct_tag(s, 0) {
        None => None,
        Some((t, j)) => {
            if j == s.len() {
                Some(t)
            } else {
                None
            }
        },
    }
}

/// The whole-input textual reading of a type tag.
pub open spec fn parse_type_tag_text_spec(s: Seq<u8>) -> Option<TypeTagV> {
    match ts_tag(s, 0) {
        None => None,
        Some((t, j)) => {
            if j == s.len() {
                Some(t)
            } else {
                None
            }
        },
    }
}

// ---------------------------------------------------------------------------
// Executable parsing
// ---------------------------------------------------------------------------

/// Finds the end of the maximal hex-digit run.
fn hex_run(s: &[u8], i: usize) -> (r: usize)
    requires
        i <= s@.len(),
    ensures
        r == hex_run_end(s@, i as int),
        i <= r <= s@.len(),
{
    proof {
        lemma_hex_run_end(s@, i as int);
    }
    let ghost end = hex_run_end(s@, i as int);
    let slen = s.len();
    let mut cur = i;
    while cur < slen && crate::hex::hex_digit_check(s[cur])
        invariant
            i <= cur <= end <= s@.len(),
            slen == s@.len(),
            end == hex_run_end(s@, i as int),
            forall|m: int| i <= m < end ==> is_hex_digit(#[trigger] s@[m]),
            end < s@.len() ==> !is_hex_digit(s@[end as int]),
        decreases s@.len() - cur,
    {
        proof {
            assert(cur < end);
        }
        cur += 1;
    }
    proof {
        assert(cur == end);
    }
    cur
}

/// Finds the end of the maximal identifier-character run.
fn ident_run(s: &[u8], i: usize) -> (r: usize)
    requires
        i <= s@.len(),
    ensures
        r == ident_run_end(s@, i as int),
        i <= r <= s@.len(),
{
    proof {
        lemma_ident_run_end(s@, i as int);
    }
    let ghost end = ident_run_end(s@, i as int);
    let slen = s.len();
    let mut cur = i;
    while cur < slen && crate::types::ident_char_check(s[cur])
        invariant
            i <= cur <= end <= s@.len(),
            slen == s@.len(),
            end == ident_run_end(s@, i as int),
            forall|m: int| i <= m < end ==> is_ident_char(#[trigger] s@[m]),
            end < s@.len() ==> !is_ident_char(s@[end as int]),
        decreases s@.len() - cur,
    {
        proof {
            assert(cur < end);
        }
        cur += 1;
    }
    proof {
        assert(cur == end);
    }
    cur
}

/// Reads an address literal token.
fn read_ts_addr(s: &[u8], i: usize) -> (r: Option<(AccountAddress, usize)>)
    requires
        i <= s@.len(),
    ensures
        match r {
            Some((a, j)) => ts_addr(s@, i as int) == Some((a@, j as int)) && a.wf() && i < j
                <= s@.len(),
            None => ts_addr(s@, i as int) is None,
        },
{
    let slen = s.len();
    if slen - i < 2 || s[i] != 48 || s[i + 1] != 120 {
        return None;
    }
    let e = hex_run(s, i + 2);
    if e <= i + 2 || e - (i + 2) > 64 {
        return None;
    }
    let lit = copy_range(s, i, e - i);
    proof {
        lemma_hex_run_end(s@, i + 2);
        assert(lit@ =~= s@.subrange(i as int, e as int));
        assert(addr_lit_wf(lit@));
    }
    match parse_address_literal(lit.as_slice()) {
        Some(a) => Some((a, e)),
        None => {
            proof {
                assert(false);
            }
            None
        },
    }
}

/// Reads one type-tag token.
#[verifier::loop_isolation(false)]
#[verifier::rlimit(100)]
pub fn read_ts_tag(s: &[u8], i: usize) -> (r: Option<(TypeTag, usize)>)
    requires
        i <= s@.len(),
    ensures
        match r {
            Some((t, j)) => ts_tag(s@, i as int) == Some((t@, j as int)) && t.wf() && i < j
                <= s@.len(),
            None => ts_tag(s@, i as int) is None,
        },
    decreases s@.len() - i, 2int,
{
    let slen = s.len();
    if i >= slen {
        return None;
    }
    if s[i] == 48 {
        return match read_ts_struct_tag(s, i) {
            None => None,
            Some((st, j)) => Some((TypeTag::Struct(st), j)),
        };
    }
    let e = ident_run(s, i);
    if e <= i {
        return None;
    }
    let w = copy_range(s, i, e - i);
    proof {
        assert(w@ =~= s@.subrange(i as int, e as int));
    }
    if w.len() == 2 && w[0] == 117 && w[1] == 56 {
        proof {
            assert(w@ =~= seq![117u8, 56u8]);
        }
        Some((TypeTag::U8, e))
    } else if w.len() == 3 && w[0] == 117 && w[1] == 54 && w[2] == 52 {
        proof {
            assert(w@ =~= seq![117u8, 54u8, 52u8]);
        }
        Some((TypeTag::U64, e))
    } else if w.len() == 4 && w[0] == 117 && w[1] == 49 && w[2] == 50 && w[3] == 56 {
        proof {
            assert(w@ =~= seq![117u8, 49u8, 50u8, 56u8]);
        }
        Some((TypeTag::U128, e))
    } else if w.len() == 4 && w[0] == 98 && w[1] == 111 && w[2] == 111 && w[3] == 108 {
        proof {
            assert(w@ =~= seq![98u8, 111u8, 111u8, 108u8]);
        }
        Some((TypeTag::Bool, e))
    } else if w.len() == 7 && w[0] == 97 && w[1] == 100 && w[2] == 100 && w[3] == 114 && w[4]
        == 101 && w[5] == 115 && w[6] == 115 {
        proof {
            assert(w@ =~= seq![97u8, 100u8, 100u8, 114u8, 101u8, 115u8, 115u8]);
        }
        Some((TypeTag::Address, e))
    } else if w.len() == 6 && w[0] == 115 && w[1] == 105 && w[2] == 103 && w[3] == 110 && w[4]
        == 101 && w[5] == 114 {
        proof {
            assert(w@ =~= seq![115u8, 105u8, 103u8, 110u8, 101u8, 114u8]);
        }
        Some((TypeTag::Signer, e))
    } else if w.len() == 6 && w[0] == 118 && w[1] == 101 && w[2] == 99 && w[3] == 116 && w[4]
        == 111 && w[5] == 114 {
        proof {
            assert(w@ =~= seq![118u8, 101u8, 99u8, 116u8, 111u8, 114u8]);
        }
        if e < slen && s[e] == 60 {
            match read_ts_tag(s, e + 1) {
                None => None,
                Some((inner, j)) => {
                    if j < slen && s[j] == 62 {
                        Some((TypeTag::Vector(Box::new(inner)), j + 1))
                    } else {
                        None
                    }
                },
            }
        } else {
            None
        }
    } else {
        proof {
            assert(!(w@ == seq![117u8, 56u8]));
            assert(!(w@ == seq![117u8, 54u8, 52u8]));
            assert(!(w@ == seq![117u8, 49u8, 50u8, 56u8]));
            assert(!(w@ == seq![98u8, 111u8, 111u8, 108u8]));
            assert(!(w@ == seq![97u8, 100u8, 100u8, 114u8, 101u8, 115u8, 115u8]));
            assert(!(w@ == seq![115u8, 105u8, 103u8, 110u8, 101u8, 114u8]));
            assert(!(w@ == seq![118u8, 101u8, 99u8, 116u8, 111u8, 114u8]));
        }
        None
    }
}

/// Reads a struct tag.
#[verifier::loop_isolation(false)]
#[verifier::rlimit(100)]
pub fn read_ts_struct_tag(s: &[u8], i: usize) -> (r: Option<(StructTag, usize)>)
    requires
        i <= s@.len(),
    ensures
        match r {
            Some((st, j)) => ts_struct_tag(s@, i as int) == Some((st@, j as int)) && st.wf() && i
                < j <= s@.len(),
            None => ts_struct_tag(s@, i as int) is None,
        },
    decreases s@.len() - i, 1int,
{
    let slen = s.len();
    let (address, e) = match read_ts_addr(s, i) {
        None => {
            return None;
        },
        Some(x) => x,
    };
    if slen - e < 2 || s[e] != 58 || s[e + 1] != 58 {
        return None;
    }
    let m_end = ident_run(s, e + 2);
    if m_end <= e + 2 {
        return None;
    }
    let m_bytes = copy_range(s, e + 2, m_end - (e + 2));
    proof {
        assert(m_bytes@ =~= s@.subrange(e + 2, m_end as int));
    }
    let module = match Identifier::from_bytes(m_bytes) {
        Err(_) => {
            return None;
        },
        Ok(id) => id,
    };
    if slen - m_end < 2 || s[m_end] != 58 || s[m_end + 1] != 58 {
        return None;
    }
    let n_end = ident_run(s, m_end + 2);
    if n_end <= m_end + 2 {
        return None;
    }
    let n_bytes = copy_range(s, m_end + 2, n_end - (m_end + 2));
    proof {
        assert(n_bytes@ =~= s@.subrange(m_end + 2, n_end as int));
    }
    let name = match Identifier::from_bytes(n_bytes) {
        Err(_) => {
            return None;
        },
        Ok(id) => id,
    };
    if n_end < slen && s[n_end] == 60 {
        match read_ts_tags(s, n_end + 1) {
            None => None,
            Some((args, j)) => {
                if args.len() as u64 >= 0x1_0000_0000u64 {
                    proof {
                        lemma_view_tags_len(args@);
                    }
                    None
                } else {
                    let st = StructTag { address, module, name, type_args: args };
                    proof {
                        lemma_view_tags_len(st.type_args@);
                        assert forall|m: int| 0 <= m < st@.type_args.len() implies type_tag_wf(
                            #[trigger] st@.type_args[m],
                        ) by {
                            lemma_view_tags_index(st.type_args@, m);
                        }
                        assert(struct_tag_wf(st@));
                    }
                    Some((st, j))
                }
            },
        }
    } else {
        let st = StructTag { address, module, name, type_args: Vec::new() };
        proof {
            lemma_view_tags_len(st.type_args@);
            assert(view_tags(st.type_args@) =~= Seq::<TypeTagV>::empty());
            assert(struct_tag_wf(st@));
        }
        Some((st, n_end))
    }
}

/// Reads one or more comma-separated tags through the closing `>`.
#[verifier::loop_isolation(false)]
#[verifier::rlimit(100)]
pub fn read_ts_tags(s: &[u8], i: usize) -> (r: Option<(Vec<TypeTag>, usize)>)
    requires
        i <= s@.len(),
    ensures
        match r {
            Some((ts, j)) => ts_tags(s@, i as int) == Some((view_tags(ts@), j as int)) && i < j
                <= s@.len() && forall|m: int| 0 <= m < ts@.len() ==> (#[trigger] ts@[m]).wf(),
            None => ts_tags(s@, i as int) is None,
        },
    decreases s@.len() - i, 3int,
{
    let slen = s.len();
    let (t, j) = match read_ts_tag(s, i) {
        None => {
            return None;
        },
        Some(x) => x,
    };
    if j < slen && s[j] == 44 {
        match read_ts_tags(s, j + 1) {
            None => None,
            Some((mut rest, k)) => {
                let ghost rest0 = rest@;
                rest.insert(0, t);
                proof {
                    assert(rest@ =~= seq![t] + rest0);
                    crate::canon::lemma_view_tags_prepend(t, rest0);
                }
                Some((rest, k))
            },
        }
    } else if j < slen && s[j] == 62 {
        let mut one: Vec<TypeTag> = Vec::new();
        one.push(t);
        proof {
            lemma_view_tags_len(one@);
            lemma_view_tags_index(one@, 0);
            assert(view_tags(one@) =~= seq![one@[0]@]);
        }
        Some((one, j + 1))
    } else {
        None
    }
}

/// Reads a struct tag from its textual form; the whole input must be one
/// well-formed tag.
pub fn parse_textual(s: &[u8]) -> (r: Result<StructTag, Error>)
    ensures
        r matches Ok(st) ==> parse_textual_spec(s@) == Some(st@) && st.wf(),
        r is Err <==> parse_textual_spec(s@) is None,
        r matches Err(e) ==> e@ == crate::errors::ErrorV::MalformedTypeTag,
{
    match read_ts_struct_tag(s, 0) {
        None => Err(Error::MalformedTypeTag),
        Some((st, j)) => {
            if j == s.len() {
                Ok(st)
            } else {
                Err(Error::MalformedTypeTag)
            }
        },
    }
}

/// Reads a type tag from its textual form; the whole input must be one
/// well-formed tag.
pub fn parse_type_tag_text(s: &[u8]) -> (r: Result<TypeTag, Error>)
    ensures
        r matches Ok(t) ==> parse_type_tag_text_spec(s@) == Some(t@) && t.wf(),
        r is Err <==> parse_type_tag_text_spec(s@) is None,
        r matches Err(e) ==> e@ == crate::errors::ErrorV::MalformedTypeTag,
{
    match read_ts_tag(s, 0) {
        None => Err(Error::MalformedTypeTag),
        Some((t, j)) => {
            if j == s.len() {
                Ok(t)
            } else {
                Err(Error::MalformedTypeTag)
            }
        },
    }
}

} // verus!
