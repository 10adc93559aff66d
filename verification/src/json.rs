//! A JSON value tree, a strict parser and a compact printer.
//!
//! Numbers are integers only (sign plus magnitude up to 128 bits): the value
//! codec targets fixed-width unsigned integers, so fractions and exponents
//! are rejected at the grammar, as are digit runs that exceed 128 bits.
//! Strings are stored as UTF-8 bytes; `\uXXXX` escapes cover the basic
//! multilingual plane (surrogate pairs are rejected).
use vstd::prelude::*;
use crate::errors::Error;
use crate::hex::{hex_char, hex_char_lower, hex_val, is_hex_digit, hex_digit_val};

verus! {

broadcast use vstd::std_specs::vec::group_vec_axioms, vstd::seq::group_seq_axioms;

// ---------------------------------------------------------------------------
// Values
// ---------------------------------------------------------------------------

/// Ghost mirror of [`JsonValue`].
pub enum JsonV {
    Null,
    Bool(bool),
    /// An integer: sign and magnitude. `neg` implies `mag > 0`.
    Num { neg: bool, mag: nat },
    Str(Seq<u8>),
    Arr(Seq<JsonV>),
    Obj(Seq<(Seq<u8>, JsonV)>),
}

/// A JSON value: null, boolean, integer, string, array or object.
/// Object member order is preserved as parsed.
#[derive(Debug, PartialEq, Eq)]
pub enum JsonValue {
    Null,
    Bool(bool),
    Num { neg: bool, mag: u128 },
    Str(Vec<u8>),
    Arr(Vec<JsonValue>),
    Obj(Vec<(Vec<u8>, JsonValue)>),
}

pub open spec fn view_json_list(vs: Seq<JsonValue>) -> Seq<JsonV>
    decreases vs,
{
    if vs.len() == 0 {
        Seq::empty()
    } else {
        view_json_list(vs.drop_last()).push(vs.last()@)
    }
}

pub open spec fn view_json_fields(fs: Seq<(Vec<u8>, JsonValue)>) -> Seq<(Seq<u8>, JsonV)>
    decreases fs,
{
    if fs.len() == 0 {
        Seq::empty()
    } else {
        view_json_fields(fs.drop_last()).push((fs.last().0@, fs.last().1@))
    }
}

impl View for JsonValue {
    type V = JsonV;

    open spec fn view(&self) -> JsonV
        decreases self,
    {
        match self {
            JsonValue::Null => JsonV::Null,
            JsonValue::Bool(b) => JsonV::Bool(*b),
            JsonValue::Num { neg, mag } => JsonV::Num { neg: *neg, mag: *mag as nat },
            JsonValue::Str(s) => JsonV::Str(s@),
            JsonValue::Arr(vs) => JsonV::Arr(view_json_list(vs@)),
            JsonValue::Obj(fs) => JsonV::Obj(view_json_fields(fs@)),
        }
    }
}

pub broadcast proof fn lemma_view_json_list_len(vs: Seq<JsonValue>)
    ensures
        #[trigger] view_json_list(vs).len() == vs.len(),
    decreases vs,
{
    if vs.len() > 0 {
        assert(view_json_list(vs) == view_json_list(vs.drop_last()).push(vs.last()@));
        lemma_view_json_list_len(vs.drop_last());
    } else {
        assert(view_json_list(vs) == Seq::<JsonV>::empty());
    }
}

pub broadcast proof fn lemma_view_json_list_index(vs: Seq<JsonValue>, i: int)
    requires
        0 <= i < vs.len(),
    ensures
        #[trigger] view_json_list(vs)[i] == vs[i]@,
    decreases vs,
{
    lemma_view_json_list_len(vs);
    assert(view_json_list(vs) == view_json_list(vs.drop_last()).push(vs.last()@));
    if i < vs.len() - 1 {
        lemma_view_json_list_index(vs.drop_last(), i);
    }
}

pub broadcast proof fn lemma_view_json_fields_len(fs: Seq<(Vec<u8>, JsonValue)>)
    ensures
        #[trigger] view_json_fields(fs).len() == fs.len(),
    decreases fs,
{
    if fs.len() > 0 {
        assert(view_json_fields(fs) == view_json_fields(fs.drop_last()).push(
            (fs.last().0@, fs.last().1@),
        ));
        lemma_view_json_fields_len(fs.drop_last());
    } else {
        assert(view_json_fields(fs) == Seq::<(Seq<u8>, JsonV)>::empty());
    }
}

pub broadcast proof fn lemma_view_json_fields_index(fs: Seq<(Vec<u8>, JsonValue)>, i: int)
    requires
        0 <= i < fs.len(),
    ensures
        #[trigger] view_json_fields(fs)[i] == (fs[i].0@, fs[i].1@),
    decreases fs,
{
    lemma_view_json_fields_len(fs);
    assert(view_json_fields(fs) == view_json_fields(fs.drop_last()).push(
        (fs.last().0@, fs.last().1@),
    ));
    if i < fs.len() - 1 {
        lemma_view_json_fields_index(fs.drop_last(), i);
    }
}

// ---------------------------------------------------------------------------
// Printing
// ---------------------------------------------------------------------------

/// Decimal digits of `n`, most significant first.
pub open spec fn dec_digits(n: nat) -> Seq<u8>
    decreases n,
{
    if n < 10 {
        seq![(48 + n) as u8]
    } else {
        dec_digits(n / 10) + seq![(48 + n % 10) as u8]
    }
}

/// Escaped content of one string byte.
pub open spec fn esc_byte(b: u8) -> Seq<u8> {
    if b == 34 {
        seq![92u8, 34u8]
    } else if b == 92 {
        seq![92u8, 92u8]
    } else if b == 8 {
        seq![92u8, 98u8]
    } else if b == 9 {
        seq![92u8, 116u8]
    } else if b == 10 {
        seq![92u8, 110u8]
    } else if b == 12 {
        seq![92u8, 102u8]
    } else if b == 13 {
        seq![92u8, 114u8]
    } else if b < 0x20 {
        seq![92u8, 117u8, 48u8, 48u8, hex_char_lower(b / 16), hex_char_lower(b % 16)]
    } else {
        seq![b]
    }
}

pub open spec fn esc_str(s: Seq<u8>) -> Seq<u8>
    decreases s,
{
    if s.len() == 0 {
        Seq::empty()
    } else {
        esc_str(s.drop_last()) + esc_byte(s.last())
    }
}

/// The compact printed form of a JSON value: no whitespace, object members
/// in stored order, strings minimally escaped.
pub open spec fn print_json(v: JsonV) -> Seq<u8>
    decreases v, 0int,
{
    match v {
        JsonV::Null => seq![110u8, 117u8, 108u8, 108u8],
        JsonV::Bool(b) => if b {
            seq![116u8, 114u8, 117u8, 101u8]
        } else {
            seq![102u8, 97u8, 108u8, 115u8, 101u8]
        },
        JsonV::Num { neg, mag } => if neg {
            seq![45u8] + dec_digits(mag)
        } else {
            dec_digits(mag)
        },
        JsonV::Str(s) => seq![34u8] + esc_str(s) + seq![34u8],
        JsonV::Arr(vs) => seq![91u8] + print_elems(vs) + seq![93u8],
        JsonV::Obj(fs) => seq![123u8] + print_fields(fs) + seq![125u8],
    }
}

pub open spec fn print_elems(vs: Seq<JsonV>) -> Seq<u8>
    decreases vs, 1int,
{
    if vs.len() == 0 {
        Seq::empty()
    } else if vs.len() == 1 {
        print_json(vs[0])
    } else {
        print_json(vs[0]) + seq![44u8] + print_elems(vs.drop_first())
    }
}

pub open spec fn print_fields(fs: Seq<(Seq<u8>, JsonV)>) -> Seq<u8>
    decreases fs, 1int,
{
    if fs.len() == 0 {
        Seq::empty()
    } else {
        let head = seq![34u8] + esc_str(fs[0].0) + seq![34u8, 58u8] + print_json(fs[0].1);
        if fs.len() == 1 {
            head
        } else {
            head + seq![44u8] + print_fields(fs.drop_first())
        }
    }
}

pub proof fn lemma_print_elems_snoc(vs: Seq<JsonV>, x: JsonV)
    ensures
        vs.len() == 0 ==> print_elems(vs.push(x)) == print_json(x),
        vs.len() > 0 ==> print_elems(vs.push(x)) == print_elems(vs) + seq![44u8] + print_json(x),
    decreases vs,
{
    let p = vs.push(x);
    if vs.len() == 0 {
        assert(p.len() == 1 && p[0] == x);
    } else {
        assert(p[0] == vs[0]);
        assert(p.drop_first() =~= vs.drop_first().push(x));
        lemma_print_elems_snoc(vs.drop_first(), x);
        if vs.len() == 1 {
            assert(print_elems(p) == print_json(p[0]) + seq![44u8] + print_elems(p.drop_first()));
            assert(print_json(vs[0]) + seq![44u8] + print_json(x) =~= print_elems(vs) + seq![44u8]
                + print_json(x));
        } else {
            assert(print_json(vs[0]) + seq![44u8] + (print_elems(vs.drop_first()) + seq![44u8]
                + print_json(x)) =~= (print_json(vs[0]) + seq![44u8] + print_elems(
                vs.drop_first(),
            )) + seq![44u8] + print_json(x));
        }
    }
}

pub proof fn lemma_print_fields_snoc(fs: Seq<(Seq<u8>, JsonV)>, k: Seq<u8>, x: JsonV)
    ensures
        fs.len() == 0 ==> print_fields(fs.push((k, x))) == seq![34u8] + esc_str(k) + seq![
            34u8,
            58u8,
        ] + print_json(x),
        fs.len() > 0 ==> print_fields(fs.push((k, x))) == print_fields(fs) + seq![44u8] + (seq![
            34u8,
        ] + esc_str(k) + seq![34u8, 58u8] + print_json(x)),
    decreases fs,
{
    let p = fs.push((k, x));
    if fs.len() == 0 {
        assert(p.len() == 1 && p[0] == (k, x));
    } else {
        assert(p[0] == fs[0]);
        assert(p.drop_first() =~= fs.drop_first().push((k, x)));
        lemma_print_fields_snoc(fs.drop_first(), k, x);
        let head = seq![34u8] + esc_str(fs[0].0) + seq![34u8, 58u8] + print_json(fs[0].1);
        let tail = seq![34u8] + esc_str(k) + seq![34u8, 58u8] + print_json(x);
        if fs.len() == 1 {
            assert(print_fields(p) == head + seq![44u8] + print_fields(p.drop_first()));
            assert(head + seq![44u8] + tail =~= print_fields(fs) + seq![44u8] + tail);
        } else {
            assert(head + seq![44u8] + (print_fields(fs.drop_first()) + seq![44u8] + tail) =~= (head
                + seq![44u8] + print_fields(fs.drop_first())) + seq![44u8] + tail);
        }
    }
}

/// Appends the decimal digits of `n`.
pub fn write_decimal(out: &mut Vec<u8>, n: u128)
    ensures
        final(out)@ == old(out)@ + dec_digits(n as nat),
    decreases n,
{
    if n < 10 {
        out.push(48 + n as u8);
        proof {
            assert(old(out)@ + seq![(48 + n) as u8] =~= old(out)@ + dec_digits(n as nat));
        }
    } else {
        write_decimal(out, n / 10);
        out.push(48 + (n % 10) as u8);
        proof {
            assert(old(out)@ + dec_digits((n / 10) as nat) + seq![(48 + n % 10) as u8] =~= old(
                out,
            )@ + dec_digits(n as nat));
        }
    }
}

/// Appends the escaped content of one string byte.
pub fn write_escaped_byte(out: &mut Vec<u8>, b: u8)
    ensures
        final(out)@ == old(out)@ + esc_byte(b),
{
    if b == 34 {
        out.push(92);
        out.push(34);
    } else if b == 92 {
        out.push(92);
        out.push(92);
    } else if b == 8 {
        out.push(92);
        out.push(98);
    } else if b == 9 {
        out.push(92);
        out.push(116);
    } else if b == 10 {
        out.push(92);
        out.push(110);
    } else if b == 12 {
        out.push(92);
        out.push(102);
    } else if b == 13 {
        out.push(92);
        out.push(114);
    } else if b < 0x20 {
        out.push(92);
        out.push(117);
        out.push(48);
        out.push(48);
        out.push(hex_char(b / 16));
        out.push(hex_char(b % 16));
    } else {
        out.push(b);
    }
    proof {
        assert(final(out)@ =~= old(out)@ + esc_byte(b));
    }
}

/// Appends a quoted, escaped string.
pub fn write_quoted(out: &mut Vec<u8>, s: &[u8])
    ensures
        final(out)@ == old(out)@ + seq![34u8] + esc_str(s@) + seq![34u8],
{
    out.push(34);
    let mut i: usize = 0;
    while i < s.len()
        invariant
            i <= s@.len(),
            out@ == old(out)@ + seq![34u8] + esc_str(s@.subrange(0, i as int)),
        decreases s@.len() - i,
    {
        let ghost pre = s@.subrange(0, i as int);
        write_escaped_byte(out, s[i]);
        proof {
            let post = s@.subrange(0, i + 1);
            assert(post.drop_last() =~= pre);
            assert(post.last() == s@[i as int]);
            assert(esc_str(post) == esc_str(pre) + esc_byte(s@[i as int]));
            assert(old(out)@ + seq![34u8] + esc_str(pre) + esc_byte(s@[i as int]) =~= old(out)@
                + seq![34u8] + esc_str(post));
        }
        i += 1;
    }
    out.push(34);
    proof {
        assert(s@.subrange(0, s@.len() as int) =~= s@);
        assert(final(out)@ =~= old(out)@ + seq![34u8] + esc_str(s@) + seq![34u8]);
    }
}

/// Appends the compact printed form of a JSON value.
#[verifier::loop_isolation(false)]
#[verifier::rlimit(60)]
pub fn write_json(out: &mut Vec<u8>, v: &JsonValue)
    ensures
        final(out)@ == old(out)@ + print_json(v@),
    decreases v,
{
    match v {
        JsonValue::Null => {
            out.push(110);
            out.push(117);
            out.push(108);
            out.push(108);
            proof {
                assert(final(out)@ =~= old(out)@ + print_json(v@));
            }
        },
        JsonValue::Bool(b) => {
            if *b {
                out.push(116);
                out.push(114);
                out.push(117);
                out.push(101);
            } else {
                out.push(102);
                out.push(97);
                out.push(108);
                out.push(115);
                out.push(101);
            }
            proof {
                assert(final(out)@ =~= old(out)@ + print_json(v@));
            }
        },
        JsonValue::Num { neg, mag } => {
            if *neg {
                out.push(45);
            }
            write_decimal(out, *mag);
            proof {
                assert(final(out)@ =~= old(out)@ + print_json(v@));
            }
        },
        JsonValue::Str(s) => {
            write_quoted(out, s.as_slice());
            proof {
                assert(final(out)@ =~= old(out)@ + print_json(v@));
            }
        },
        JsonValue::Arr(vs) => {
            out.push(91);
            let ghost vvs = view_json_list(vs@);
            proof {
                lemma_view_json_list_len(vs@);
            }
            let mut i: usize = 0;
            while i < vs.len()
                invariant
                    i <= vs@.len(),
                    vvs == view_json_list(vs@),
                    vvs.len() == vs@.len(),
                    out@ == old(out)@ + seq![91u8] + print_elems(vvs.take(i as int)),
                decreases vs@.len() - i,
            {
                if i > 0 {
                    out.push(44);
                }
                write_json(out, &vs[i]);
                proof {
                    lemma_view_json_list_index(vs@, i as int);
                    lemma_print_elems_snoc(vvs.take(i as int), vvs[i as int]);
                    assert(vvs.take(i as int).push(vvs[i as int]) =~= vvs.take(i + 1));
                    if i == 0 {
                        assert(out@ =~= old(out)@ + seq![91u8] + print_elems(vvs.take(i + 1)));
                    } else {
                        assert(out@ =~= old(out)@ + seq![91u8] + print_elems(vvs.take(i + 1)));
                    }
                }
                i += 1;
            }
            out.push(93);
            proof {
                assert(vvs.take(vvs.len() as int) =~= vvs);
                assert(final(out)@ =~= old(out)@ + print_json(v@));
            }
        },
        JsonValue::Obj(fs) => {
            out.push(123);
            let ghost vfs = view_json_fields(fs@);
            proof {
                lemma_view_json_fields_len(fs@);
            }
            let mut i: usize = 0;
            while i < fs.len()
                invariant
                    i <= fs@.len(),
                    vfs == view_json_fields(fs@),
                    vfs.len() == fs@.len(),
                    out@ == old(out)@ + seq![123u8] + print_fields(vfs.take(i as int)),
                decreases fs@.len() - i,
            {
                if i > 0 {
                    out.push(44);
                }
                write_quoted(out, fs[i].0.as_slice());
                out.push(58);
                write_json(out, &fs[i].1);
                proof {
                    lemma_view_json_fields_index(fs@, i as int);
                    lemma_print_fields_snoc(vfs.take(i as int), vfs[i as int].0, vfs[i as int].1);
                    assert(vfs.take(i as int).push(vfs[i as int]) =~= vfs.take(i + 1));
                    assert(out@ =~= old(out)@ + seq![123u8] + print_fields(vfs.take(i + 1)));
                }
                i += 1;
            }
            out.push(125);
            proof {
                assert(vfs.take(vfs.len() as int) =~= vfs);
                assert(final(out)@ =~= old(out)@ + print_json(v@));
            }
        },
    }
}

/// Prints a JSON value in its compact form.
pub fn json_to_bytes(v: &JsonValue) -> (r: Vec<u8>)
    ensures
        r@ == print_json(v@),
{
    let mut out: Vec<u8> = Vec::new();
    write_json(&mut out, v);
    proof {
        assert(Seq::<u8>::empty() + print_json(v@) =~= print_json(v@));
    }
    out
}


// ---------------------------------------------------------------------------
// Parsing: specification
// ---------------------------------------------------------------------------

pub open spec fn is_ws(b: u8) -> bool {
    b == 32 || b == 9 || b == 10 || b == 13
}

pub open spec fn is_digit(b: u8) -> bool {
    48 <= b <= 57
}

/// Skips whitespace and returns the first meaningful byte with the index
/// just past it; `None` when only whitespace remains.
pub open spec fn ps_delim(s: Seq<u8>, i: int) -> Option<(u8, int)>
    decreases s.len() - i,
{
    if i < 0 || i >= s.len() {
        None
    } else if is_ws(s[i]) {
        ps_delim(s, i + 1)
    } else {
        Some((s[i], i + 1))
    }
}

/// Index just past the run of decimal digits starting at `i`.
pub open spec fn digits_end(s: Seq<u8>, i: int) -> int
    decreases s.len() - i,
{
    if 0 <= i < s.len() && is_digit(s[i]) {
        digits_end(s, i + 1)
    } else {
        i
    }
}

/// Value of the digit run `s[i .. end)`.
pub open spec fn digits_val(s: Seq<u8>, i: int, end: int) -> nat
    decreases end - i,
{
    if i >= end {
        0
    } else {
        digits_val(s, i, end - 1) * 10 + (s[end - 1] - 48) as nat
    }
}

pub proof fn lemma_digits_end(s: Seq<u8>, i: int)
    requires
        0 <= i <= s.len(),
    ensures
        i <= digits_end(s, i) <= s.len(),
        forall|m: int| i <= m < digits_end(s, i) ==> is_digit(#[trigger] s[m]),
        digits_end(s, i) < s.len() ==> !is_digit(s[digits_end(s, i)]),
    decreases s.len() - i,
{
    if i < s.len() && is_digit(s[i]) {
        lemma_digits_end(s, i + 1);
    }
}

pub proof fn lemma_digits_val_mono(s: Seq<u8>, i: int, e1: int, e2: int)
    requires
        i <= e1 <= e2,
    ensures
        digits_val(s, i, e1) <= digits_val(s, i, e2),
    decreases e2 - e1,
{
    if e1 < e2 {
        lemma_digits_val_mono(s, i, e1, e2 - 1);
        assert(digits_val(s, i, e2) == digits_val(s, i, e2 - 1) * 10 + (s[e2 - 1] - 48) as nat);
        assert(digits_val(s, i, e2 - 1) * 10 >= digits_val(s, i, e2 - 1));
    }
}

/// Parses a number token (no leading whitespace): optional minus, then a
/// digit run without a redundant leading zero, fitting in 128 bits.
pub open spec fn ps_number(s: Seq<u8>, i: int) -> Option<(JsonV, int)> {
    let neg = 0 <= i < s.len() && s[i] == 45;
    let d0 = if neg {
        i + 1
    } else {
        i
    };
    let end = digits_end(s, d0);
    if !(0 <= d0 < s.len()) || end <= d0 {
        None
    } else if s[d0] == 48 && end > d0 + 1 {
        None
    } else {
        let v = digits_val(s, d0, end);
        if v > u128::MAX as nat {
            None
        } else if v == 0 {
            Some((JsonV::Num { neg: false, mag: 0 }, end))
        } else {
            Some((JsonV::Num { neg, mag: v }, end))
        }
    }
}

/// The byte a simple escape character denotes.
pub open spec fn esc_simple(c: u8) -> Option<u8> {
    if c == 34 {
        Some(34u8)
    } else if c == 92 {
        Some(92u8)
    } else if c == 47 {
        Some(47u8)
    } else if c == 98 {
        Some(8u8)
    } else if c == 102 {
        Some(12u8)
    } else if c == 110 {
        Some(10u8)
    } else if c == 114 {
        Some(13u8)
    } else if c == 116 {
        Some(9u8)
    } else {
        None
    }
}

/// UTF-8 encoding of a scalar below 0x10000 (not a surrogate).
pub open spec fn utf8_enc(u: nat) -> Seq<u8> {
    if u < 0x80 {
        seq![u as u8]
    } else if u < 0x800 {
        seq![(0xC0 + u / 0x40) as u8, (0x80 + u % 0x40) as u8]
    } else {
        seq![
            (0xE0 + u / 0x1000) as u8,
            (0x80 + (u / 0x40) % 0x40) as u8,
            (0x80 + u % 0x40) as u8,
        ]
    }
}

/// Parses string content after the opening quote, up to and including the
/// closing quote.
pub open spec fn ps_str_rest(s: Seq<u8>, i: int) -> Option<(Seq<u8>, int)>
    decreases s.len() - i,
{
    if i < 0 || i >= s.len() {
        None
    } else {
        let c = s[i];
        if c == 34 {
            Some((Seq::empty(), i + 1))
        } else if c == 92 {
            if i + 1 >= s.len() {
                None
            } else {
                let e = s[i + 1];
                if e == 117 {
                    if i + 6 > s.len() {
                        None
                    } else if !(is_hex_digit(s[i + 2]) && is_hex_digit(s[i + 3]) && is_hex_digit(
                        s[i + 4],
                    ) && is_hex_digit(s[i + 5])) {
                        None
                    } else {
                        let u = hex_digit_val(s[i + 2]) * 0x1000 + hex_digit_val(s[i + 3]) * 0x100
                            + hex_digit_val(s[i + 4]) * 16 + hex_digit_val(s[i + 5]);
                        if 0xD800 <= u < 0xE000 {
                            None
                        } else {
                            match ps_str_rest(s, i + 6) {
                                None => None,
                                Some((rest, j)) => Some((utf8_enc(u as nat) + rest, j)),
                            }
                        }
                    }
                } else {
                    match esc_simple(e) {
                        None => None,
                        Some(b) => match ps_str_rest(s, i + 2) {
                            None => None,
                            Some((rest, j)) => Some((seq![b] + rest, j)),
                        },
                    }
                }
            }
        } else if c < 0x20 {
            None
        } else {
            match ps_str_rest(s, i + 1) {
                None => None,
                Some((rest, j)) => Some((seq![c] + rest, j)),
            }
        }
    }
}

/// Parses one JSON value, skipping leading whitespace.
pub open spec fn ps_value(s: Seq<u8>, i: int) -> Option<(JsonV, int)>
    decreases s.len() - i, 0int,
{
    if i < 0 || i >= s.len() {
        None
    } else if is_ws(s[i]) {
        ps_value(s, i + 1)
    } else {
        let c = s[i];
        if c == 110 {
            if i + 4 <= s.len() && s[i + 1] == 117 && s[i + 2] == 108 && s[i + 3] == 108 {
                Some((JsonV::Null, i + 4))
            } else {
                None
            }
        } else if c == 116 {
            if i + 4 <= s.len() && s[i + 1] == 114 && s[i + 2] == 117 && s[i + 3] == 101 {
                Some((JsonV::Bool(true), i + 4))
            } else {
                None
            }
        } else if c == 102 {
            if i + 5 <= s.len() && s[i + 1] == 97 && s[i + 2] == 108 && s[i + 3] == 115 && s[i + 4]
                == 101 {
                Some((JsonV::Bool(false), i + 5))
            } else {
                None
            }
        } else if c == 34 {
            match ps_str_rest(s, i + 1) {
                None => None,
                Some((str, j)) => Some((JsonV::Str(str), j)),
            }
        } else if c == 45 || is_digit(c) {
            ps_number(s, i)
        } else if c == 91 {
            match ps_delim(s, i + 1) {
                None => None,
                Some((d, k)) => {
                    if d == 93 {
                        Some((JsonV::Arr(Seq::empty()), k))
                    } else {
                        match ps_elems(s, i + 1) {
                            None => None,
                            Some((vs, m)) => Some((JsonV::Arr(vs), m)),
                        }
                    }
                },
            }
        } else if c == 123 {
            match ps_delim(s, i + 1) {
                None => None,
                Some((d, k)) => {
                    if d == 125 {
                        Some((JsonV::Obj(Seq::empty()), k))
                    } else {
                        match ps_fields(s, i + 1) {
                            None => None,
                            Some((fs, m)) => Some((JsonV::Obj(fs), m)),
                        }
                    }
                },
            }
        } else {
            None
        }
    }
}

/// Parses one or more comma-separated values up to the closing bracket.
pub open spec fn ps_elems(s: Seq<u8>, i: int) -> Option<(Seq<JsonV>, int)>
    decreases s.len() - i, 1int,
{
    match ps_value(s, i) {
        None => None,
        Some((v, j)) => {
            if j <= i || j > s.len() {
                None
            } else {
                match ps_delim(s, j) {
                    None => None,
                    Some((d, k)) => {
                        if k <= j || k > s.len() {
                            None
                        } else if d == 44 {
                            match ps_elems(s, k) {
                                None => None,
                                Some((rest, m)) => Some((seq![v] + rest, m)),
                            }
                        } else if d == 93 {
                            Some((seq![v], k))
                        } else {
                            None
                        }
                    },
                }
            }
        },
    }
}

/// Parses one or more `"key": value` members up to the closing brace.
pub open spec fn ps_fields(s: Seq<u8>, i: int) -> Option<(Seq<(Seq<u8>, JsonV)>, int)>
    decreases s.len() - i, 2int,
{
    if i < 0 || i >= s.len() {
        None
    } else if is_ws(s[i]) {
        ps_fields(s, i + 1)
    } else if s[i] != 34 {
        None
    } else {
        match ps_str_rest(s, i + 1) {
            None => None,
            Some((key, j)) => {
                if j <= i || j > s.len() {
                    None
                } else {
                    match ps_delim(s, j) {
                        None => None,
                        Some((d, k)) => {
                            if d != 58 || k <= j || k > s.len() {
                                None
                            } else {
                                match ps_value(s, k) {
                                    None => None,
                                    Some((v, m)) => {
                                        if m <= k || m > s.len() {
                                            None
                                        } else {
                                            match ps_delim(s, m) {
                                                None => None,
                                                Some((d2, p)) => {
                                                    if p <= m || p > s.len() {
                                                        None
                                                    } else if d2 == 44 {
                                                        match ps_fields(s, p) {
                                                            None => None,
                                                            Some((rest, q)) => Some(
                                                                (seq![(key, v)] + rest, q),
                                                            ),
                                                        }
                                                    } else if d2 == 125 {
                                                        Some((seq![(key, v)], p))
                                                    } else {
                                                        None
                                                    }
                                                },
                                            }
                                        }
                                    },
                                }
                            }
                        },
                    }
                }
            },
        }
    }
}

/// Parses a complete JSON document: one value with only whitespace around it.
pub open spec fn json_parse(s: Seq<u8>) -> Option<JsonV> {
    match ps_value(s, 0) {
        None => None,
        Some((v, j)) => {
            if ps_delim(s, j) is None {
                Some(v)
            } else {
                None
            }
        },
    }
}



// ---------------------------------------------------------------------------
// Parsing: executable
// ---------------------------------------------------------------------------

/// Skips whitespace and returns the first meaningful byte plus the index
/// just past it.
pub fn exec_delim(s: &[u8], i: usize) -> (r: Option<(u8, usize)>)
    ensures
        match r {
            Some((d, k)) => ps_delim(s@, i as int) == Some((d, k as int)) && i < k <= s@.len(),
            None => ps_delim(s@, i as int) is None,
        },
{
    let slen = s.len();
    let mut cur = i;
    while cur < slen && (s[cur] == 32 || s[cur] == 9 || s[cur] == 10 || s[cur] == 13)
        invariant
            i <= cur,
            slen == s@.len(),
            ps_delim(s@, i as int) == ps_delim(s@, cur as int),
        decreases s@.len() - cur,
    {
        cur += 1;
    }
    if cur >= slen {
        None
    } else {
        Some((s[cur], cur + 1))
    }
}

/// Parses a number token at `i` (no leading whitespace).
#[verifier::loop_isolation(false)]
pub fn parse_number_at(s: &[u8], i: usize) -> (r: Option<(JsonValue, usize)>)
    requires
        i <= s@.len(),
    ensures
        match r {
            Some((v, j)) => ps_number(s@, i as int) == Some((v@, j as int)) && i < j <= s@.len(),
            None => ps_number(s@, i as int) is None,
        },
{
    let slen = s.len();
    let (neg, d0) = if i < slen && s[i] == 45 {
        (true, i + 1)
    } else {
        (false, i)
    };
    proof {
        lemma_digits_end(s@, d0 as int);
    }
    let ghost end = digits_end(s@, d0 as int);
    if d0 >= slen {
        return None;
    }
    let b0 = s[d0];
    if !(48 <= b0 && b0 <= 57) {
        return None;
    }
    let mut cur = d0;
    let mut acc: u128 = 0;
    while cur < slen && 48 <= s[cur] && s[cur] <= 57
        invariant
            d0 <= cur <= end <= slen,
            slen == s@.len(),
            end == digits_end(s@, d0 as int),
            forall|m: int| d0 <= m < end ==> is_digit(#[trigger] s@[m]),
            end < slen ==> !is_digit(s@[end as int]),
            acc == digits_val(s@, d0 as int, cur as int),
        decreases s@.len() - cur,
    {
        proof {
            assert(cur < end);
        }
        let d = s[cur] - 48;
        if acc > (u128::MAX - d as u128) / 10 {
            proof {
                let m = u128::MAX as int;
                let dd = d as int;
                let q = (m - dd) / 10;
                assert(m - dd == 10 * q + (m - dd) % 10);
                assert(acc * 10 + dd > m) by {
                    assert(acc >= q + 1);
                    assert(acc * 10 >= (q + 1) * 10) by (nonlinear_arith)
                        requires acc >= q + 1;
                }
                assert(digits_val(s@, d0 as int, cur + 1) == acc * 10 + dd);
                lemma_digits_val_mono(s@, d0 as int, cur + 1, end);
                assert(digits_val(s@, d0 as int, end) > u128::MAX as nat);
                assert(end > d0);
                assert(ps_number(s@, i as int) is None);
            }
            return None;
        }
        proof {
            let m = u128::MAX as int;
            let dd = d as int;
            let q = (m - dd) / 10;
            assert(m - dd == 10 * q + (m - dd) % 10);
            assert(acc * 10 <= q * 10) by (nonlinear_arith)
                requires acc <= q;
            assert(acc * 10 + dd <= m);
        }
        acc = acc * 10 + d as u128;
        cur += 1;
    }
    proof {
        assert(cur == end);
    }
    if b0 == 48 && cur > d0 + 1 {
        return None;
    }
    if acc == 0 {
        Some((JsonValue::Num { neg: false, mag: 0 }, cur))
    } else {
        Some((JsonValue::Num { neg, mag: acc }, cur))
    }
}

/// Parses string content after the opening quote through the closing quote.
pub fn parse_string_rest(s: &[u8], i: usize) -> (r: Option<(Vec<u8>, usize)>)
    ensures
        match r {
            Some((b, j)) => ps_str_rest(s@, i as int) == Some((b@, j as int)) && i < j <= s@.len(),
            None => ps_str_rest(s@, i as int) is None,
        },
{
    let slen = s.len();
    let mut out: Vec<u8> = Vec::new();
    let mut cur = i;
    while cur < slen
        invariant
            i <= cur,
            slen == s@.len(),
            match ps_str_rest(s@, cur as int) {
                None => ps_str_rest(s@, i as int) is None,
                Some((rest, j)) => ps_str_rest(s@, i as int) == Some((out@ + rest, j)),
            },
        decreases s@.len() - cur,
    {
        let c = s[cur];
        if c == 34 {
            proof {
                assert(out@ + Seq::<u8>::empty() =~= out@);
            }
            return Some((out, cur + 1));
        } else if c == 92 {
            if cur + 1 >= slen {
                return None;
            }
            let e = s[cur + 1];
            if e == 117 {
                if slen - cur < 6 {
                    return None;
                }
                let h1 = match hex_val(s[cur + 2]) {
                    Some(v) => v,
                    None => {
                        return None;
                    },
                };
                let h2 = match hex_val(s[cur + 3]) {
                    Some(v) => v,
                    None => {
                        return None;
                    },
                };
                let h3 = match hex_val(s[cur + 4]) {
                    Some(v) => v,
                    None => {
                        return None;
                    },
                };
                let h4 = match hex_val(s[cur + 5]) {
                    Some(v) => v,
                    None => {
                        return None;
                    },
                };
                let u: u32 = (h1 as u32) * 0x1000 + (h2 as u32) * 0x100 + (h3 as u32) * 16
                    + (h4 as u32);
                if 0xD800 <= u && u < 0xE000 {
                    return None;
                }
                let ghost out0 = out@;
                if u < 0x80 {
                    out.push(u as u8);
                } else if u < 0x800 {
                    out.push((0xC0 + u / 0x40) as u8);
                    out.push((0x80 + u % 0x40) as u8);
                } else {
                    out.push((0xE0 + u / 0x1000) as u8);
                    out.push((0x80 + (u / 0x40) % 0x40) as u8);
                    out.push((0x80 + u % 0x40) as u8);
                }
                proof {
                    assert(out@ =~= out0 + utf8_enc(u as nat));
                    assert forall|rest: Seq<u8>| true implies out0 + (utf8_enc(u as nat) + rest)
                        =~= out@ + rest by {}
                }
                cur += 6;
            } else {
                let b: u8 = if e == 34 {
                    34
                } else if e == 92 {
                    92
                } else if e == 47 {
                    47
                } else if e == 98 {
                    8
                } else if e == 102 {
                    12
                } else if e == 110 {
                    10
                } else if e == 114 {
                    13
                } else if e == 116 {
                    9
                } else {
                    return None;
                };
                let ghost out0 = out@;
                out.push(b);
                proof {
                    assert(esc_simple(e) == Some(b));
                    assert forall|rest: Seq<u8>| true implies out0 + (seq![b] + rest) =~= out@
                        + rest by {}
                }
                cur += 2;
            }
        } else if c < 0x20 {
            return None;
        } else {
            let ghost out0 = out@;
            out.push(c);
            proof {
                assert forall|rest: Seq<u8>| true implies out0 + (seq![c] + rest) =~= out@
                    + rest by {}
            }
            cur += 1;
        }
    }
    None
}



/// Parses one JSON value, skipping leading whitespace.
#[verifier::loop_isolation(false)]
#[verifier::rlimit(100)]
pub fn parse_value(s: &[u8], i: usize) -> (r: Option<(JsonValue, usize)>)
    ensures
        match r {
            Some((v, j)) => ps_value(s@, i as int) == Some((v@, j as int)) && i < j <= s@.len(),
            None => ps_value(s@, i as int) is None,
        },
    decreases s@.len() - i, 0int,
{
    let slen = s.len();
    let mut cur = i;
    while cur < slen && (s[cur] == 32 || s[cur] == 9 || s[cur] == 10 || s[cur] == 13)
        invariant
            i <= cur,
            ps_value(s@, i as int) == ps_value(s@, cur as int),
        decreases s@.len() - cur,
    {
        cur += 1;
    }
    if cur >= slen {
        return None;
    }
    let c = s[cur];
    if c == 110 {
        if slen - cur >= 4 && s[cur + 1] == 117 && s[cur + 2] == 108 && s[cur + 3] == 108 {
            Some((JsonValue::Null, cur + 4))
        } else {
            None
        }
    } else if c == 116 {
        if slen - cur >= 4 && s[cur + 1] == 114 && s[cur + 2] == 117 && s[cur + 3] == 101 {
            Some((JsonValue::Bool(true), cur + 4))
        } else {
            None
        }
    } else if c == 102 {
        if slen - cur >= 5 && s[cur + 1] == 97 && s[cur + 2] == 108 && s[cur + 3] == 115 && s[cur
            + 4] == 101 {
            Some((JsonValue::Bool(false), cur + 5))
        } else {
            None
        }
    } else if c == 34 {
        match parse_string_rest(s, cur + 1) {
            None => None,
            Some((b, j)) => Some((JsonValue::Str(b), j)),
        }
    } else if c == 45 || (48 <= c && c <= 57) {
        parse_number_at(s, cur)
    } else if c == 91 {
        let (d, k) = match exec_delim(s, cur + 1) {
            None => {
                return None;
            },
            Some(x) => x,
        };
        if d == 93 {
            let empty: Vec<JsonValue> = Vec::new();
            proof {
                assert(view_json_list(empty@) =~= Seq::<JsonV>::empty());
            }
            return Some((JsonValue::Arr(empty), k));
        }
        match parse_array_body(s, cur + 1) {
            None => None,
            Some((vals, m)) => Some((JsonValue::Arr(vals), m)),
        }
    } else if c == 123 {
        let (d, k) = match exec_delim(s, cur + 1) {
            None => {
                return None;
            },
            Some(x) => x,
        };
        if d == 125 {
            let empty: Vec<(Vec<u8>, JsonValue)> = Vec::new();
            proof {
                assert(view_json_fields(empty@) =~= Seq::<(Seq<u8>, JsonV)>::empty());
            }
            return Some((JsonValue::Obj(empty), k));
        }
        match parse_object_body(s, cur + 1) {
            None => None,
            Some((fields, m)) => Some((JsonValue::Obj(fields), m)),
        }
    } else {
        None
    }
}

/// Parses the members of a non-empty array, including the closing bracket.
#[verifier::loop_isolation(false)]
#[verifier::rlimit(100)]
pub fn parse_array_body(s: &[u8], start: usize) -> (r: Option<(Vec<JsonValue>, usize)>)
    requires
        start <= s@.len(),
    ensures
        match r {
            Some((vals, k)) => ps_elems(s@, start as int) == Some(
                (view_json_list(vals@), k as int),
            ) && start < k <= s@.len(),
            None => ps_elems(s@, start as int) is None,
        },
    decreases s@.len() - start, 1int,
{
    let slen = s.len();
    let mut vals: Vec<JsonValue> = Vec::new();
    let mut p = start;
    loop
        invariant
            start <= p <= s@.len(),
            slen == s@.len(),
            match ps_elems(s@, p as int) {
                None => ps_elems(s@, start as int) is None,
                Some((rest, m)) => ps_elems(s@, start as int) == Some(
                    (view_json_list(vals@) + rest, m),
                ),
            },
        decreases s@.len() - p,
    {
        let (v, j) = match parse_value(s, p) {
            None => {
                return None;
            },
            Some(x) => x,
        };
        let (d2, k2) = match exec_delim(s, j) {
            None => {
                return None;
            },
            Some(x) => x,
        };
        let ghost vals0 = vals@;
        vals.push(v);
        proof {
            assert(vals@.drop_last() =~= vals0);
            assert(view_json_list(vals@) == view_json_list(vals0).push(v@));
        }
        if d2 == 44 {
            proof {
                assert(ps_elems(s@, p as int) == (match ps_elems(s@, k2 as int) {
                    None => None::<(Seq<JsonV>, int)>,
                    Some((rest, m)) => Some((seq![v@] + rest, m)),
                }));
                match ps_elems(s@, k2 as int) {
                    Some((rest, m)) => {
                        assert(view_json_list(vals0) + (seq![v@] + rest) =~= view_json_list(vals@)
                            + rest);
                    },
                    None => {},
                }
            }
            p = k2;
        } else if d2 == 93 {
            proof {
                assert(ps_elems(s@, p as int) == Some((seq![v@], k2 as int)));
                assert(view_json_list(vals0) + seq![v@] =~= view_json_list(vals@));
                assert(ps_elems(s@, start as int) == Some((view_json_list(vals@), k2 as int)));
            }
            return Some((vals, k2));
        } else {
            proof {
                assert(ps_elems(s@, p as int) is None);
            }
            return None;
        }
    }
}

/// Parses one `"key": value` member plus its trailing delimiter.
#[verifier::loop_isolation(false)]
#[verifier::rlimit(100)]
pub fn parse_member(s: &[u8], p: usize) -> (r: Option<(Vec<u8>, JsonValue, u8, usize)>)
    requires
        p <= s@.len(),
    ensures
        match r {
            None => ps_fields(s@, p as int) is None,
            Some((key, v, d3, p3)) => p < p3 <= s@.len() && (d3 == 44 || d3 == 125) && (d3 == 44
                ==> ps_fields(s@, p as int) == (match ps_fields(s@, p3 as int) {
                None => None::<(Seq<(Seq<u8>, JsonV)>, int)>,
                Some((rest, q)) => Some((seq![(key@, v@)] + rest, q)),
            })) && (d3 == 125 ==> ps_fields(s@, p as int) == Some(
                (seq![(key@, v@)], p3 as int),
            )),
        },
    decreases s@.len() - p, 1int,
{
    let slen = s.len();
    let mut cur = p;
    while cur < slen && (s[cur] == 32 || s[cur] == 9 || s[cur] == 10 || s[cur] == 13)
        invariant
            p <= cur <= s@.len(),
            ps_fields(s@, p as int) == ps_fields(s@, cur as int),
        decreases s@.len() - cur,
    {
        cur += 1;
    }
    if cur >= slen {
        return None;
    }
    if s[cur] != 34 {
        return None;
    }
    let (key, j) = match parse_string_rest(s, cur + 1) {
        None => {
            return None;
        },
        Some(x) => x,
    };
    let (d2, k2) = match exec_delim(s, j) {
        None => {
            return None;
        },
        Some(x) => x,
    };
    if d2 != 58 {
        return None;
    }
    let (v, m) = match parse_value(s, k2) {
        None => {
            return None;
        },
        Some(x) => x,
    };
    let (d3, p3) = match exec_delim(s, m) {
        None => {
            return None;
        },
        Some(x) => x,
    };
    if d3 == 44 || d3 == 125 {
        Some((key, v, d3, p3))
    } else {
        None
    }
}

/// Parses the members of a non-empty object, including the closing brace.
#[verifier::loop_isolation(false)]
#[verifier::rlimit(100)]
pub fn parse_object_body(s: &[u8], start: usize) -> (r: Option<(Vec<(Vec<u8>, JsonValue)>, usize)>)
    requires
        start <= s@.len(),
    ensures
        match r {
            Some((fields, k)) => ps_fields(s@, start as int) == Some(
                (view_json_fields(fields@), k as int),
            ) && start < k <= s@.len(),
            None => ps_fields(s@, start as int) is None,
        },
    decreases s@.len() - start, 2int,
{
    let mut fields: Vec<(Vec<u8>, JsonValue)> = Vec::new();
    let mut p = start;
    loop
        invariant
            start <= p <= s@.len(),
            match ps_fields(s@, p as int) {
                None => ps_fields(s@, start as int) is None,
                Some((rest, m)) => ps_fields(s@, start as int) == Some(
                    (view_json_fields(fields@) + rest, m),
                ),
            },
        decreases s@.len() - p,
    {
        let (key, v, d3, p3) = match parse_member(s, p) {
            None => {
                return None;
            },
            Some(x) => x,
        };
        let ghost fields0 = fields@;
        fields.push((key, v));
        proof {
            assert(fields@.drop_last() =~= fields0);
            assert(view_json_fields(fields@) == view_json_fields(fields0).push((key@, v@)));
        }
        if d3 == 44 {
            proof {
                match ps_fields(s@, p3 as int) {
                    Some((rest, q)) => {
                        assert(view_json_fields(fields0) + (seq![(key@, v@)] + rest)
                            =~= view_json_fields(fields@) + rest);
                    },
                    None => {},
                }
            }
            p = p3;
        } else {
            proof {
                assert(view_json_fields(fields0) + seq![(key@, v@)] =~= view_json_fields(fields@));
            }
            return Some((fields, p3));
        }
    }
}

/// Parses a complete JSON document; any syntax violation, trailing input,
/// fractional or oversized number is rejected.
pub fn parse_json(s: &[u8]) -> (r: Result<JsonValue, Error>)
    ensures
        r matches Ok(v) ==> json_parse(s@) == Some(v@),
        r is Err <==> json_parse(s@) is None,
        r matches Err(e) ==> e@ == crate::errors::ErrorV::TypeMismatch,
{
    match parse_value(s, 0) {
        None => Err(Error::TypeMismatch),
        Some((v, j)) => {
            match exec_delim(s, j) {
                None => Ok(v),
                Some(_) => Err(Error::TypeMismatch),
            }
        },
    }
}



// ---------------------------------------------------------------------------
// Print/parse round trip
// ---------------------------------------------------------------------------

/// A value the printer and parser agree on: integers fit in 128 bits and a
/// negative sign implies a non-zero magnitude.
pub open spec fn json_wf(v: JsonV) -> bool
    decreases v, 0int,
{
    match v {
        JsonV::Num { neg, mag } => mag <= u128::MAX && (neg ==> mag > 0),
        JsonV::Arr(vs) => json_list_wf(vs),
        JsonV::Obj(fs) => json_fields_wf(fs),
        _ => true,
    }
}

pub open spec fn json_list_wf(vs: Seq<JsonV>) -> bool
    decreases vs, 1int,
{
    if vs.len() == 0 {
        true
    } else {
        json_wf(vs[0]) && json_list_wf(vs.drop_first())
    }
}

pub open spec fn json_fields_wf(fs: Seq<(Seq<u8>, JsonV)>) -> bool
    decreases fs, 1int,
{
    if fs.len() == 0 {
        true
    } else {
        json_wf(fs[0].1) && json_fields_wf(fs.drop_first())
    }
}

pub proof fn lemma_dec_digits_shape(n: nat)
    ensures
        dec_digits(n).len() >= 1,
        forall|m: int| 0 <= m < dec_digits(n).len() ==> is_digit(#[trigger] dec_digits(n)[m]),
        dec_digits(n)[0] == 48 ==> n == 0,
        n == 0 ==> dec_digits(n).len() == 1,
    decreases n,
{
    if n >= 10 {
        lemma_dec_digits_shape(n / 10);
        assert(dec_digits(n)[0] == dec_digits(n / 10)[0]);
        assert(n / 10 >= 1);
    }
}

pub proof fn lemma_digits_end_exact(s: Seq<u8>, i: int, e: int)
    requires
        0 <= i <= e <= s.len(),
        forall|m: int| i <= m < e ==> is_digit(#[trigger] s[m]),
        e == s.len() || !is_digit(s[e]),
    ensures
        digits_end(s, i) == e,
    decreases e - i,
{
    if i < e {
        lemma_digits_end_exact(s, i + 1, e);
    }
}

/// The decimal digits of `n` read back as the value `n`.
pub proof fn lemma_digits_val_of_dec(s: Seq<u8>, i: int, n: nat)
    requires
        0 <= i,
        i + dec_digits(n).len() <= s.len(),
        s.subrange(i, i + dec_digits(n).len()) == dec_digits(n),
    ensures
        digits_val(s, i, i + dec_digits(n).len()) == n,
    decreases n,
{
    let e = dec_digits(n);
    if n < 10 {
        assert(s[i] == e[0]);
        assert(digits_val(s, i, i + 1) == digits_val(s, i, i) * 10 + (s[i] - 48) as nat);
    } else {
        let hd = dec_digits(n / 10);
        lemma_dec_digits_shape(n / 10);
        assert(s.subrange(i, i + hd.len()) =~= e.subrange(0, hd.len() as int));
        assert(e.subrange(0, hd.len() as int) =~= hd);
        lemma_digits_val_of_dec(s, i, n / 10);
        let last = i + e.len() - 1;
        assert(s[last] == e[e.len() - 1]);
        assert(e[e.len() - 1] == (48 + n % 10) as u8);
        assert(digits_val(s, i, i + e.len()) == digits_val(s, i, last) * 10 + (s[last]
            - 48) as nat);
    }
}

/// A printed number parses back to the same number, provided no digit
/// immediately follows it.
pub proof fn lemma_ps_number_print(s: Seq<u8>, i: int, neg: bool, mag: nat)
    requires
        mag <= u128::MAX,
        neg ==> mag > 0,
        crate::canon::bytes_at(s, i, print_json(JsonV::Num { neg, mag })),
        i + print_json(JsonV::Num { neg, mag }).len() == s.len() || !is_digit(
            s[i + print_json(JsonV::Num { neg, mag }).len()],
        ),
    ensures
        ps_number(s, i) == Some(
            (JsonV::Num { neg, mag }, i + print_json(JsonV::Num { neg, mag }).len()),
        ),
{
    let e = print_json(JsonV::Num { neg, mag });
    let d0 = if neg {
        i + 1
    } else {
        i
    };
    lemma_dec_digits_shape(mag);
    if neg {
        assert(e =~= seq![45u8] + dec_digits(mag));
    } else {
        assert(e =~= dec_digits(mag));
    }
    assert forall|m: int| 0 <= m < dec_digits(mag).len() implies s[d0 + m] == dec_digits(mag)[m]
        by {
        assert(s.subrange(i, i + e.len())[(d0 - i) + m] == s[d0 + m]);
        assert(e[(d0 - i) + m] == dec_digits(mag)[m]);
    }
    assert(s.subrange(d0, i + e.len()) =~= dec_digits(mag));
    assert forall|m: int| d0 <= m < i + e.len() implies is_digit(#[trigger] s[m]) by {
        assert(s[m] == dec_digits(mag)[m - d0]);
    }
    if neg {
        assert(s[i] == e[0]);
        assert(e[0] == 45);
    }
    lemma_digits_end_exact(s, d0, i + e.len());
    lemma_digits_val_of_dec(s, d0, mag);
    assert(s[d0] == dec_digits(mag)[0]);
    if s[d0] == 48 {
        assert(mag == 0);
    }
}



/// Splits a placed concatenation into its two placed halves.
pub proof fn lemma_bytes_at_split(s: Seq<u8>, i: int, x: Seq<u8>, y: Seq<u8>)
    requires
        crate::canon::bytes_at(s, i, x + y),
    ensures
        crate::canon::bytes_at(s, i, x),
        crate::canon::bytes_at(s, i + x.len(), y),
{
    assert(s.subrange(i, i + x.len()) =~= (x + y).subrange(0, x.len() as int));
    assert((x + y).subrange(0, x.len() as int) =~= x);
    assert(s.subrange(i + x.len(), i + x.len() + y.len()) =~= (x + y).subrange(
        x.len() as int,
        (x + y).len() as int,
    ));
    assert((x + y).subrange(x.len() as int, (x + y).len() as int) =~= y);
}

pub proof fn lemma_esc_str_cons(b: Seq<u8>)
    requires
        b.len() > 0,
    ensures
        esc_str(b) == esc_byte(b[0]) + esc_str(b.drop_first()),
    decreases b,
{
    if b.len() == 1 {
        assert(b.drop_last() =~= Seq::<u8>::empty());
        assert(b.drop_first() =~= Seq::<u8>::empty());
        assert(esc_str(b) == esc_str(b.drop_last()) + esc_byte(b.last()));
        assert(Seq::<u8>::empty() + esc_byte(b[0]) =~= esc_byte(b[0]));
        assert(esc_byte(b[0]) + Seq::<u8>::empty() =~= esc_byte(b[0]));
    } else {
        lemma_esc_str_cons(b.drop_last());
        assert(b.drop_last()[0] == b[0]);
        assert(b.drop_last().drop_first() =~= b.drop_first().drop_last());
        assert(b.drop_first().last() == b.last());
        assert(esc_str(b) == esc_str(b.drop_last()) + esc_byte(b.last()));
        assert(esc_str(b.drop_first()) == esc_str(b.drop_first().drop_last()) + esc_byte(
            b.last(),
        ));
        assert((esc_byte(b[0]) + esc_str(b.drop_first().drop_last())) + esc_byte(b.last())
            =~= esc_byte(b[0]) + (esc_str(b.drop_first().drop_last()) + esc_byte(b.last())));
    }
}

/// A printed, escaped string body plus its closing quote parses back to
/// the same bytes.
pub proof fn lemma_ps_str_print(s: Seq<u8>, i: int, b: Seq<u8>)
    requires
        crate::canon::bytes_at(s, i, esc_str(b) + seq![34u8]),
    ensures
        ps_str_rest(s, i) == Some((b, i + esc_str(b).len() + 1)),
    decreases b.len(),
{
    let e = esc_str(b) + seq![34u8];
    if b.len() == 0 {
        assert(s[i] == e[0]);
        assert(e[0] == 34);
        assert(b =~= Seq::<u8>::empty());
    } else {
        let b0 = b[0];
        let e0 = esc_byte(b0);
        lemma_esc_str_cons(b);
        assert((esc_byte(b0) + esc_str(b.drop_first())) + seq![34u8] =~= e0 + (esc_str(
            b.drop_first(),
        ) + seq![34u8]));
        lemma_bytes_at_split(s, i, e0, esc_str(b.drop_first()) + seq![34u8]);
        lemma_ps_str_print(s, i + e0.len(), b.drop_first());
        assert forall|m: int| 0 <= m < e0.len() implies s[i + m] == e0[m] by {
            assert(s.subrange(i, i + e0.len())[m] == s[i + m]);
        }
        assert(seq![b0] + b.drop_first() =~= b);
        if b0 == 34 || b0 == 92 || b0 == 8 || b0 == 9 || b0 == 10 || b0 == 12 || b0 == 13 {
            assert(s[i] == 92);
            assert(esc_simple(s[i + 1]) == Some(b0));
        } else if b0 < 0x20 {
            assert(s[i] == 92 && s[i + 1] == 117 && s[i + 2] == 48 && s[i + 3] == 48);
            assert(s[i + 4] == hex_char_lower(b0 / 16) && s[i + 5] == hex_char_lower(b0 % 16));
            crate::hex::lemma_hex_digit_roundtrip(b0 / 16);
            crate::hex::lemma_hex_digit_roundtrip(b0 % 16);
            assert(hex_digit_val(48) == 0);
            let u = hex_digit_val(s[i + 2]) * 0x1000 + hex_digit_val(s[i + 3]) * 0x100
                + hex_digit_val(s[i + 4]) * 16 + hex_digit_val(s[i + 5]);
            assert(u == (b0 / 16) * 16 + b0 % 16);
            assert(u == b0);
            assert(utf8_enc(u as nat) =~= seq![b0]);
        } else {
            assert(s[i] == b0);
        }
    }
}



/// The first byte of a printed value: a value opener, never whitespace nor
/// a closing bracket, separator or colon.
pub proof fn lemma_print_first_byte(v: JsonV)
    ensures
        print_json(v).len() >= 1,
        !is_ws(print_json(v)[0]),
        print_json(v)[0] != 93 && print_json(v)[0] != 125 && print_json(v)[0] != 44
            && print_json(v)[0] != 58,
{
    match v {
        JsonV::Num { neg, mag } => {
            lemma_dec_digits_shape(mag);
            if !neg {
                assert(print_json(v)[0] == dec_digits(mag)[0]);
            }
        },
        _ => {},
    }
}

/// A printed value parses back to itself, provided no digit immediately
/// follows it.
pub proof fn lemma_ps_value_print(s: Seq<u8>, i: int, v: JsonV)
    requires
        json_wf(v),
        crate::canon::bytes_at(s, i, print_json(v)),
        i + print_json(v).len() == s.len() || !is_digit(s[i + print_json(v).len()]),
    ensures
        ps_value(s, i) == Some((v, i + print_json(v).len())),
    decreases v, 0int,
{
    let e = print_json(v);
    lemma_print_first_byte(v);
    assert forall|m: int| 0 <= m < e.len() implies s[i + m] == e[m] by {
        assert(s.subrange(i, i + e.len())[m] == s[i + m]);
    }
    match v {
        JsonV::Null => {},
        JsonV::Bool(_) => {},
        JsonV::Num { neg, mag } => {
            lemma_ps_number_print(s, i, neg, mag);
        },
        JsonV::Str(b) => {
            assert(seq![34u8] + (esc_str(b) + seq![34u8]) =~= e);
            lemma_bytes_at_split(s, i, seq![34u8], esc_str(b) + seq![34u8]);
            lemma_ps_str_print(s, i + 1, b);
        },
        JsonV::Arr(vs) => {
            if vs.len() == 0 {
                assert(print_elems(vs) =~= Seq::<u8>::empty());
                assert(e =~= seq![91u8, 93u8]);
                assert(s[i + 1] == 93);
                assert(ps_delim(s, i + 1) == Some((93u8, i + 2)));
                assert(vs =~= Seq::<JsonV>::empty());
            } else {
                assert(seq![91u8] + (print_elems(vs) + seq![93u8]) =~= e);
                lemma_bytes_at_split(s, i, seq![91u8], print_elems(vs) + seq![93u8]);
                lemma_print_first_byte(vs[0]);
                assert(print_elems(vs)[0] == print_json(vs[0])[0]);
                assert(s[i + 1] == e[1]) by {
                    assert(s.subrange(i, i + e.len())[1] == s[i + 1]);
                }
                assert(e[1] == print_elems(vs)[0]);
                assert(ps_delim(s, i + 1) == Some((s[i + 1], i + 2)));
                lemma_ps_elems_print(s, i + 1, vs);
            }
        },
        JsonV::Obj(fs) => {
            if fs.len() == 0 {
                assert(print_fields(fs) =~= Seq::<u8>::empty());
                assert(e =~= seq![123u8, 125u8]);
                assert(s[i + 1] == 125);
                assert(ps_delim(s, i + 1) == Some((125u8, i + 2)));
                assert(fs =~= Seq::<(Seq<u8>, JsonV)>::empty());
            } else {
                assert(seq![123u8] + (print_fields(fs) + seq![125u8]) =~= e);
                lemma_bytes_at_split(s, i, seq![123u8], print_fields(fs) + seq![125u8]);
                let head = seq![34u8] + esc_str(fs[0].0) + seq![34u8, 58u8] + print_json(
                    fs[0].1,
                );
                assert(print_fields(fs)[0] == head[0]);
                assert(head[0] == 34);
                assert(s[i + 1] == e[1]) by {
                    assert(s.subrange(i, i + e.len())[1] == s[i + 1]);
                }
                assert(e[1] == print_fields(fs)[0]);
                assert(s[i + 1] == 34);
                assert(ps_delim(s, i + 1) == Some((34u8, i + 2)));
                lemma_ps_fields_print(s, i + 1, fs);
            }
        },
    }
}

/// A printed, non-empty element list plus its closing bracket parses back
/// to the same elements.
pub proof fn lemma_ps_elems_print(s: Seq<u8>, i: int, vs: Seq<JsonV>)
    requires
        vs.len() >= 1,
        json_list_wf(vs),
        crate::canon::bytes_at(s, i, print_elems(vs) + seq![93u8]),
    ensures
        ps_elems(s, i) == Some((vs, i + print_elems(vs).len() + 1)),
    decreases vs, 1int,
{
    let pv = print_json(vs[0]);
    if vs.len() == 1 {
        assert(print_elems(vs) + seq![93u8] =~= pv + seq![93u8]);
        lemma_bytes_at_split(s, i, pv, seq![93u8]);
        assert(s.subrange(i + pv.len(), i + pv.len() + 1)[0] == s[i + pv.len()]);
        assert(s[i + pv.len()] == 93);
        lemma_ps_value_print(s, i, vs[0]);
        assert(ps_delim(s, i + pv.len()) == Some((93u8, i + pv.len() + 1)));
        assert(seq![vs[0]] =~= vs);
    } else {
        let rest = vs.drop_first();
        assert(print_elems(vs) + seq![93u8] =~= pv + (seq![44u8] + (print_elems(rest) + seq![
            93u8,
        ])));
        lemma_bytes_at_split(s, i, pv, seq![44u8] + (print_elems(rest) + seq![93u8]));
        lemma_bytes_at_split(s, i + pv.len(), seq![44u8], print_elems(rest) + seq![93u8]);
        assert(s.subrange(i + pv.len(), i + pv.len() + 1)[0] == s[i + pv.len()]);
        assert(s[i + pv.len()] == 44);
        lemma_ps_value_print(s, i, vs[0]);
        assert(ps_delim(s, i + pv.len()) == Some((44u8, i + pv.len() + 1)));
        lemma_ps_elems_print(s, i + pv.len() + 1, rest);
        assert(seq![vs[0]] + rest =~= vs);
    }
}

/// A printed, non-empty member list plus its closing brace parses back to
/// the same members.
pub proof fn lemma_ps_fields_print(s: Seq<u8>, i: int, fs: Seq<(Seq<u8>, JsonV)>)
    requires
        fs.len() >= 1,
        json_fields_wf(fs),
        crate::canon::bytes_at(s, i, print_fields(fs) + seq![125u8]),
    ensures
        ps_fields(s, i) == Some((fs, i + print_fields(fs).len() + 1)),
    decreases fs, 1int,
{
    let k0 = fs[0].0;
    let v0 = fs[0].1;
    let pv = print_json(v0);
    let head = seq![34u8] + esc_str(k0) + seq![34u8, 58u8] + pv;
    let jkey = i + 1 + esc_str(k0).len() + 1;
    let jval = jkey + 1;
    if fs.len() == 1 {
        assert(print_fields(fs) + seq![125u8] =~= seq![34u8] + ((esc_str(k0) + seq![34u8])
            + (seq![58u8] + (pv + seq![125u8]))));
        lemma_bytes_at_split(s, i, seq![34u8], (esc_str(k0) + seq![34u8]) + (seq![58u8] + (pv
            + seq![125u8])));
        lemma_bytes_at_split(s, i + 1, esc_str(k0) + seq![34u8], seq![58u8] + (pv + seq![125u8]));
        lemma_bytes_at_split(s, jkey, seq![58u8], pv + seq![125u8]);
        lemma_bytes_at_split(s, jval, pv, seq![125u8]);
        assert(s.subrange(i, i + 1)[0] == s[i]);
        assert(s[i] == 34);
        lemma_ps_str_print(s, i + 1, k0);
        assert(s.subrange(jkey, jkey + 1)[0] == s[jkey]);
        assert(s[jkey] == 58);
        assert(ps_delim(s, jkey) == Some((58u8, jval)));
        assert(s.subrange(jval + pv.len(), jval + pv.len() + 1)[0] == s[jval + pv.len()]);
        assert(s[jval + pv.len()] == 125);
        lemma_ps_value_print(s, jval, v0);
        assert(ps_delim(s, jval + pv.len()) == Some((125u8, jval + pv.len() + 1)));
        assert(seq![(k0, v0)] =~= fs);
    } else {
        let rest = fs.drop_first();
        assert(print_fields(fs) + seq![125u8] =~= seq![34u8] + ((esc_str(k0) + seq![34u8])
            + (seq![58u8] + (pv + (seq![44u8] + (print_fields(rest) + seq![125u8]))))));
        lemma_bytes_at_split(s, i, seq![34u8], (esc_str(k0) + seq![34u8]) + (seq![58u8] + (pv
            + (seq![44u8] + (print_fields(rest) + seq![125u8])))));
        lemma_bytes_at_split(s, i + 1, esc_str(k0) + seq![34u8], seq![58u8] + (pv + (seq![44u8]
            + (print_fields(rest) + seq![125u8]))));
        lemma_bytes_at_split(s, jkey, seq![58u8], pv + (seq![44u8] + (print_fields(rest) + seq![
            125u8,
        ])));
        lemma_bytes_at_split(s, jval, pv, seq![44u8] + (print_fields(rest) + seq![125u8]));
        lemma_bytes_at_split(s, jval + pv.len(), seq![44u8], print_fields(rest) + seq![125u8]);
        assert(s.subrange(i, i + 1)[0] == s[i]);
        assert(s[i] == 34);
        lemma_ps_str_print(s, i + 1, k0);
        assert(s.subrange(jkey, jkey + 1)[0] == s[jkey]);
        assert(s[jkey] == 58);
        assert(ps_delim(s, jkey) == Some((58u8, jval)));
        assert(s.subrange(jval + pv.len(), jval + pv.len() + 1)[0] == s[jval + pv.len()]);
        assert(s[jval + pv.len()] == 44);
        lemma_ps_value_print(s, jval, v0);
        assert(ps_delim(s, jval + pv.len()) == Some((44u8, jval + pv.len() + 1)));
        lemma_ps_fields_print(s, jval + pv.len() + 1, rest);
        assert(seq![(k0, v0)] + rest =~= fs);
    }
}

/// The print/parse round trip: parsing the compact printed form of any
/// well-formed value yields exactly that value.
pub proof fn lemma_json_print_parse_roundtrip(v: JsonV)
    requires
        json_wf(v),
    ensures
        json_parse(print_json(v)) == Some(v),
{
    let s = print_json(v);
    assert(s.subrange(0, s.len() as int) =~= s);
    lemma_ps_value_print(s, 0, v);
}


} // verus!
