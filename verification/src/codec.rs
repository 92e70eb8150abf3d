//! JSON text: serialization and parsing.
//!
//! `stringify` prints a `JsonValue` as compact JSON text (no whitespace,
//! strings escaped); `parse` reads JSON text back into a tree. Both are
//! specified against spec-level functions over character sequences.
//! `lemma_round_trip` proves that parsing inverts printing for every tree
//! the builders can construct, and `lemma_parse_round_trip` extends this to
//! every tree the parser itself produces: serializing never loses a value.
//!
//! Numbers that are not integers in `i64` range are read into `Num` literal
//! nodes and printed back verbatim. `\uXXXX` escapes decode, surrogate
//! pairs included; an unpaired surrogate escape makes the text unparsable.

use crate::json::{JsonVal, JsonValue};
use vstd::prelude::*;

verus! {

broadcast use vstd::std_specs::vec::group_vec_axioms;

// ---------------------------------------------------------------------------
// Character classes
// ---------------------------------------------------------------------------
pub open spec fn is_ws(c: char) -> bool {
    c == ' ' || c == '\t' || c == '\n' || c == '\r'
}

pub open spec fn is_digit(c: char) -> bool {
    '0' <= c <= '9'
}

pub open spec fn digit_val(c: char) -> nat {
    (c as u32 - '0' as u32) as nat
}

/// A character that could extend a number literal to its right.
pub open spec fn is_num_cont(c: char) -> bool {
    is_digit(c) || c == '.' || c == 'e' || c == 'E'
}

/// `rest` may stand directly after a printed value without changing how far
/// the parser reads.
pub open spec fn safe_rest(rest: Seq<char>) -> bool {
    rest.len() == 0 || !is_num_cont(rest[0])
}

pub open spec fn digit_char(n: nat) -> char {
    if n == 0 {
        '0'
    } else if n == 1 {
        '1'
    } else if n == 2 {
        '2'
    } else if n == 3 {
        '3'
    } else if n == 4 {
        '4'
    } else if n == 5 {
        '5'
    } else if n == 6 {
        '6'
    } else if n == 7 {
        '7'
    } else if n == 8 {
        '8'
    } else {
        '9'
    }
}

pub open spec fn hex_char(n: nat) -> char {
    if n < 10 {
        digit_char(n)
    } else if n == 10 {
        'a'
    } else if n == 11 {
        'b'
    } else if n == 12 {
        'c'
    } else if n == 13 {
        'd'
    } else if n == 14 {
        'e'
    } else {
        'f'
    }
}

pub open spec fn is_hex_digit(c: char) -> bool {
    is_digit(c) || ('a' <= c <= 'f') || ('A' <= c <= 'F')
}

pub open spec fn hex_val(c: char) -> nat {
    if is_digit(c) {
        digit_val(c)
    } else if 'a' <= c <= 'f' {
        (c as u32 - 'a' as u32 + 10) as nat
    } else {
        (c as u32 - 'A' as u32 + 10) as nat
    }
}

// ---------------------------------------------------------------------------
// Decimal digit sequences
// ---------------------------------------------------------------------------
/// The number written by a digit sequence.
pub open spec fn dec_value(s: Seq<char>) -> nat
    decreases s.len(),
{
    if s.len() == 0 {
        0
    } else {
        dec_value(s.drop_last()) * 10 + digit_val(s.last())
    }
}

/// The digit sequence of `n`, no leading zeros (except for `n == 0` itself).
pub open spec fn digits_of(n: nat) -> Seq<char>
    decreases n,
{
    if n < 10 {
        seq![digit_char(n)]
    } else {
        digits_of(n / 10).push(digit_char(n % 10))
    }
}

/// The compact decimal text of a signed integer.
pub open spec fn int_print(i: i64) -> Seq<char> {
    if i >= 0 {
        digits_of(i as nat)
    } else {
        seq!['-'] + digits_of((-(i as int)) as nat)
    }
}

// ---------------------------------------------------------------------------
// Printing
// ---------------------------------------------------------------------------
/// The escape of one string character: quotes and backslashes get a
/// backslash, control characters a `\u00XX` escape, all else stands as is.
pub open spec fn esc_char(c: char) -> Seq<char> {
    if c == '"' {
        seq!['\\', '"']
    } else if c == '\\' {
        seq!['\\', '\\']
    } else if (c as u32) < 0x20 {
        seq!['\\', 'u', '0', '0', hex_char(((c as u32) / 16) as nat), hex_char(((c as u32) % 16) as nat)]
    } else {
        seq![c]
    }
}

pub open spec fn str_print(s: Seq<char>) -> Seq<char>
    decreases s.len(),
{
    if s.len() == 0 {
        Seq::empty()
    } else {
        esc_char(s[0]) + str_print(s.drop_first())
    }
}

/// The full printed form of a string node, quotes included.
pub open spec fn quoted_print(s: Seq<char>) -> Seq<char> {
    seq!['"'] + str_print(s) + seq!['"']
}

pub open spec fn print_val(v: JsonVal) -> Seq<char>
    decreases v, 1nat,
{
    match v {
        JsonVal::Null => seq!['n', 'u', 'l', 'l'],
        JsonVal::Bool(b) => if b {
            seq!['t', 'r', 'u', 'e']
        } else {
            seq!['f', 'a', 'l', 's', 'e']
        },
        JsonVal::Int(i) => int_print(i),
        JsonVal::Num(lit) => lit,
        JsonVal::Str(s) => quoted_print(s),
        JsonVal::Arr(elems) => seq!['['] + print_elems(elems) + seq![']'],
        JsonVal::Obj(pairs) => seq!['{'] + print_members(pairs) + seq!['}'],
    }
}

pub open spec fn print_elems(elems: Seq<JsonVal>) -> Seq<char>
    decreases elems, 0nat,
{
    if elems.len() == 0 {
        Seq::empty()
    } else if elems.len() == 1 {
        print_val(elems[0])
    } else {
        print_val(elems[0]) + seq![','] + print_elems(elems.drop_first())
    }
}

pub open spec fn print_members(pairs: Seq<(Seq<char>, JsonVal)>) -> Seq<char>
    decreases pairs, 0nat,
{
    if pairs.len() == 0 {
        Seq::empty()
    } else if pairs.len() == 1 {
        quoted_print(pairs[0].0) + seq![':'] + print_val(pairs[0].1)
    } else {
        quoted_print(pairs[0].0) + seq![':'] + print_val(pairs[0].1) + seq![','] + print_members(
            pairs.drop_first(),
        )
    }
}

/// A tree the scalar/array/object builders can construct: object keys are
/// unique and every number node is an `i64` integer.
pub open spec fn encodable(v: JsonVal) -> bool
    decreases v,
{
    match v {
        JsonVal::Num(_) => false,
        JsonVal::Arr(elems) => forall|i: int|
            0 <= i < elems.len() ==> encodable(#[trigger] elems[i]),
        JsonVal::Obj(pairs) => {
            &&& forall|i: int, j: int|
                0 <= i < j < pairs.len() ==> (#[trigger] pairs[i].0) != (#[trigger] pairs[j].0)
            &&& forall|i: int| 0 <= i < pairs.len() ==> encodable((#[trigger] pairs[i]).1)
        },
        _ => true,
    }
}

/// A tree whose printed text reads back as the same tree: object keys are
/// unique and every number literal stands for itself. Wider than
/// `encodable`: the parser's own output lands here too.
pub open spec fn printable(v: JsonVal) -> bool
    decreases v,
{
    match v {
        JsonVal::Num(lit) => num_wf(lit),
        JsonVal::Arr(elems) => forall|i: int|
            0 <= i < elems.len() ==> printable(#[trigger] elems[i]),
        JsonVal::Obj(pairs) => {
            &&& forall|i: int, j: int|
                0 <= i < j < pairs.len() ==> (#[trigger] pairs[i].0) != (#[trigger] pairs[j].0)
            &&& forall|i: int| 0 <= i < pairs.len() ==> printable((#[trigger] pairs[i]).1)
        },
        _ => true,
    }
}

// ---------------------------------------------------------------------------
// Parsing, specified
// ---------------------------------------------------------------------------
/// The input without its leading whitespace.
pub open spec fn skip_ws(s: Seq<char>) -> Seq<char>
    decreases s.len(),
{
    if s.len() > 0 && is_ws(s[0]) {
        skip_ws(s.drop_first())
    } else {
        s
    }
}

/// Splits the longest leading run of decimal digits off the input.
pub open spec fn take_digits(s: Seq<char>) -> (Seq<char>, Seq<char>)
    decreases s.len(),
{
    if s.len() > 0 && is_digit(s[0]) {
        let (d, r) = take_digits(s.drop_first());
        (seq![s[0]] + d, r)
    } else {
        (Seq::empty(), s)
    }
}

/// Parses the body of a string literal, the opening quote already consumed:
/// the decoded characters and the rest after the closing quote.
pub open spec fn sp_string_body(s: Seq<char>) -> Option<(Seq<char>, Seq<char>)>
    decreases s.len(),
{
    if s.len() == 0 {
        None
    } else if s[0] == '"' {
        Some((Seq::empty(), s.drop_first()))
    } else if s[0] == '\\' {
        if s.len() < 2 {
            None
        } else if s[1] == 'u' {
            if s.len() < 6 {
                None
            } else if is_hex_digit(s[2]) && is_hex_digit(s[3]) && is_hex_digit(s[4])
                && is_hex_digit(s[5]) {
                let code = ((hex_val(s[2]) * 4096 + hex_val(s[3]) * 256 + hex_val(s[4]) * 16
                    + hex_val(s[5])) as nat);
                if 0xDC00 <= code < 0xE000 {
                    // a low surrogate may only follow a high one
                    None
                } else if 0xD800 <= code < 0xDC00 {
                    // a high surrogate must pair with a following low one
                    if s.len() < 12 {
                        None
                    } else if s[6] == '\\' && s[7] == 'u' && is_hex_digit(s[8]) && is_hex_digit(
                        s[9],
                    ) && is_hex_digit(s[10]) && is_hex_digit(s[11]) {
                        let low = ((hex_val(s[8]) * 4096 + hex_val(s[9]) * 256 + hex_val(s[10])
                            * 16 + hex_val(s[11])) as nat);
                        if 0xDC00 <= low < 0xE000 {
                            let cp = (0x10000 + (code - 0xD800) * 0x400 + (low - 0xDC00)) as nat;
                            match sp_string_body(s.skip(12)) {
                                Some((tail, rest)) => Some((seq![code_char(cp)] + tail, rest)),
                                None => None,
                            }
                        } else {
                            None
                        }
                    } else {
                        None
                    }
                } else {
                    match sp_string_body(s.skip(6)) {
                        Some((tail, rest)) => Some((seq![code_char(code)] + tail, rest)),
                        None => None,
                    }
                }
            } else {
                None
            }
        } else {
            let e = esc_of(s[1]);
            match e {
                Some(c) => match sp_string_body(s.skip(2)) {
                    Some((tail, rest)) => Some((seq![c] + tail, rest)),
                    None => None,
                },
                None => None,
            }
        }
    } else if (s[0] as u32) < 0x20 {
        None
    } else {
        match sp_string_body(s.drop_first()) {
            Some((tail, rest)) => Some((seq![s[0]] + tail, rest)),
            None => None,
        }
    }
}

/// The character a single-character escape stands for.
pub open spec fn esc_of(c: char) -> Option<char> {
    if c == '"' {
        Some('"')
    } else if c == '\\' {
        Some('\\')
    } else if c == '/' {
        Some('/')
    } else if c == 'b' {
        Some('\u{0008}')
    } else if c == 'f' {
        Some('\u{000C}')
    } else if c == 'n' {
        Some('\n')
    } else if c == 'r' {
        Some('\r')
    } else if c == 't' {
        Some('\t')
    } else {
        None
    }
}

/// The character with a scalar code point. Meaningful only below 0xD800 or
/// from 0xE000 up, where every code is a character.
pub open spec fn code_char(code: nat) -> char {
    (code as u32) as char
}

/// Relies on `char::from_u32`: every code point outside the surrogate range
/// and below 0x110000 converts, and converting back returns the code.
#[verifier::external_body]
pub fn char_from_code(code: u32) -> (r: char)
    requires
        code < 0xD800 || (0xE000 <= code < 0x110000),
    ensures
        r == code_char(code as nat),
        r as u32 == code,
{
    match char::from_u32(code) {
        Some(c) => c,
        None => ' ',
    }
}

/// Parses a number at the head of the input (first character `-` or a
/// digit): the node and the rest. Integers in `i64` range become `Int`,
/// everything else keeps its literal text as a `Num`.
pub open spec fn sp_number(s: Seq<char>) -> Option<(JsonVal, Seq<char>)> {
    let (neg, s1) = if s.len() > 0 && s[0] == '-' {
        (true, s.drop_first())
    } else {
        (false, s)
    };
    let (ip, r1) = take_digits(s1);
    if ip.len() == 0 || (ip.len() > 1 && ip[0] == '0') {
        None
    } else {
        let (frac, r2) = if r1.len() > 0 && r1[0] == '.' {
            let (fd, rf) = take_digits(r1.drop_first());
            if fd.len() == 0 {
                (None::<Seq<char>>, r1)
            } else {
                (Some(seq!['.'] + fd), rf)
            }
        } else {
            (None::<Seq<char>>, r1)
        };
        if r1.len() > 0 && r1[0] == '.' && frac is None {
            None
        } else {
            let (expp, r3) = if r2.len() > 0 && (r2[0] == 'e' || r2[0] == 'E') {
                let (sgn, re) = if r2.len() > 1 && (r2[1] == '+' || r2[1] == '-') {
                    (seq![r2[0], r2[1]], s2_skip(r2, 2))
                } else {
                    (seq![r2[0]], s2_skip(r2, 1))
                };
                let (ed, rx) = take_digits(re);
                if ed.len() == 0 {
                    (None::<Seq<char>>, r2)
                } else {
                    (Some(sgn + ed), rx)
                }
            } else {
                (None::<Seq<char>>, r2)
            };
            if r2.len() > 0 && (r2[0] == 'e' || r2[0] == 'E') && expp is None {
                None
            } else {
                let sign_seq: Seq<char> = if neg {
                    seq!['-']
                } else {
                    Seq::empty()
                };
                let lit = sign_seq + ip + spec_or_empty(frac) + spec_or_empty(expp);
                if frac is None && expp is None {
                    let mag = dec_value(ip);
                    if !neg && mag <= i64::MAX {
                        Some((JsonVal::Int(mag as i64), r3))
                    } else if neg && mag <= 0x8000_0000_0000_0000 {
                        Some((JsonVal::Int((-(mag as int)) as i64), r3))
                    } else {
                        Some((JsonVal::Num(lit), r3))
                    }
                } else {
                    Some((JsonVal::Num(lit), r3))
                }
            }
        }
    }
}

pub open spec fn spec_or_empty(o: Option<Seq<char>>) -> Seq<char> {
    match o {
        Some(s) => s,
        None => Seq::empty(),
    }
}

pub open spec fn s2_skip(s: Seq<char>, n: int) -> Seq<char> {
    s.skip(n)
}

/// Parses one value after optional whitespace. `fuel` bounds the nesting the
/// parser may descend through; any fuel above twice the input length gives
/// the same answer.
pub open spec fn sp_value(s: Seq<char>, fuel: nat) -> Option<(JsonVal, Seq<char>)>
    decreases fuel,
{
    if fuel == 0 {
        None
    } else {
        let t = skip_ws(s);
        if t.len() == 0 {
            None
        } else if t[0] == 'n' {
            if t.len() >= 4 && t[1] == 'u' && t[2] == 'l' && t[3] == 'l' {
                Some((JsonVal::Null, t.skip(4)))
            } else {
                None
            }
        } else if t[0] == 't' {
            if t.len() >= 4 && t[1] == 'r' && t[2] == 'u' && t[3] == 'e' {
                Some((JsonVal::Bool(true), t.skip(4)))
            } else {
                None
            }
        } else if t[0] == 'f' {
            if t.len() >= 5 && t[1] == 'a' && t[2] == 'l' && t[3] == 's' && t[4] == 'e' {
                Some((JsonVal::Bool(false), t.skip(5)))
            } else {
                None
            }
        } else if t[0] == '"' {
            match sp_string_body(t.drop_first()) {
                Some((content, rest)) => Some((JsonVal::Str(content), rest)),
                None => None,
            }
        } else if t[0] == '[' {
            let u = skip_ws(t.drop_first());
            if u.len() > 0 && u[0] == ']' {
                Some((JsonVal::Arr(Seq::empty()), u.drop_first()))
            } else {
                match sp_elems(u, (fuel - 1) as nat) {
                    Some((elems, rest)) => Some((JsonVal::Arr(elems), rest)),
                    None => None,
                }
            }
        } else if t[0] == '{' {
            let u = skip_ws(t.drop_first());
            if u.len() > 0 && u[0] == '}' {
                Some((JsonVal::Obj(Seq::empty()), u.drop_first()))
            } else {
                match sp_members(u, (fuel - 1) as nat, Seq::empty()) {
                    Some((pairs, rest)) => Some((JsonVal::Obj(pairs), rest)),
                    None => None,
                }
            }
        } else if t[0] == '-' || is_digit(t[0]) {
            sp_number(t)
        } else {
            None
        }
    }
}

/// Parses a non-empty element list with its closing bracket: the elements
/// and the rest after `]`.
pub open spec fn sp_elems(s: Seq<char>, fuel: nat) -> Option<(Seq<JsonVal>, Seq<char>)>
    decreases fuel,
{
    if fuel == 0 {
        None
    } else {
        match sp_value(s, (fuel - 1) as nat) {
            None => None,
            Some((v, r)) => {
                let r1 = skip_ws(r);
                if r1.len() == 0 {
                    None
                } else if r1[0] == ',' {
                    match sp_elems(r1.drop_first(), (fuel - 1) as nat) {
                        Some((vs, r2)) => Some((seq![v] + vs, r2)),
                        None => None,
                    }
                } else if r1[0] == ']' {
                    Some((seq![v], r1.drop_first()))
                } else {
                    None
                }
            },
        }
    }
}

/// Parses a non-empty member list with its closing brace, storing each
/// `key: value` into `acc` in order (a repeated key overwrites, as the last
/// one wins): the final pair list and the rest after `}`.
pub open spec fn sp_members(s: Seq<char>, fuel: nat, acc: Seq<(Seq<char>, JsonVal)>) -> Option<
    (Seq<(Seq<char>, JsonVal)>, Seq<char>),
>
    decreases fuel,
{
    if fuel == 0 {
        None
    } else {
        let t = skip_ws(s);
        if t.len() == 0 || t[0] != '"' {
            None
        } else {
            match sp_string_body(t.drop_first()) {
                None => None,
                Some((key, r)) => {
                    let r1 = skip_ws(r);
                    if r1.len() == 0 || r1[0] != ':' {
                        None
                    } else {
                        match sp_value(r1.drop_first(), (fuel - 1) as nat) {
                            None => None,
                            Some((v, r2)) => {
                                let acc1 = JsonVal::pairs_store(acc, key, v);
                                let r3 = skip_ws(r2);
                                if r3.len() == 0 {
                                    None
                                } else if r3[0] == ',' {
                                    sp_members(r3.drop_first(), (fuel - 1) as nat, acc1)
                                } else if r3[0] == '}' {
                                    Some((acc1, r3.drop_first()))
                                } else {
                                    None
                                }
                            },
                        }
                    }
                },
            }
        }
    }
}

/// The fuel that always suffices for an input of this length.
pub open spec fn fuel_for(s: Seq<char>) -> nat {
    2 * s.len() + 2
}

/// The parse of a whole text: one value, with nothing but whitespace around
/// it.
pub open spec fn spec_parse(s: Seq<char>) -> Option<JsonVal> {
    match sp_value(s, fuel_for(s)) {
        None => None,
        Some((v, rest)) => {
            if skip_ws(rest).len() == 0 {
                Some(v)
            } else {
                None
            }
        },
    }
}

// ---------------------------------------------------------------------------
// Parsing lemmas: consumption and fuel independence
// ---------------------------------------------------------------------------
/// Skipping whitespace never lengthens the input.
pub proof fn lemma_skip_ws_len(s: Seq<char>)
    ensures
        skip_ws(s).len() <= s.len(),
    decreases s.len(),
{
    if s.len() > 0 && is_ws(s[0]) {
        lemma_skip_ws_len(s.drop_first());
    }
}

/// `take_digits` splits the input: the digits are its longest digit prefix
/// and the rest is the matching suffix.
pub proof fn lemma_take_digits(s: Seq<char>)
    ensures
        take_digits(s).0.len() + take_digits(s).1.len() == s.len(),
        take_digits(s).0 == s.take(take_digits(s).0.len() as int),
        take_digits(s).1 == s.skip(take_digits(s).0.len() as int),
        forall|i: int| 0 <= i < take_digits(s).0.len() ==> is_digit(#[trigger] s[i]),
        take_digits(s).1.len() > 0 ==> !is_digit(take_digits(s).1[0]),
    decreases s.len(),
{
    if s.len() > 0 && is_digit(s[0]) {
        lemma_take_digits(s.drop_first());
        let (d, r) = take_digits(s);
        let (d1, r1) = take_digits(s.drop_first());
        assert(d =~= seq![s[0]] + d1);
        assert(d =~= s.take(d.len() as int));
        assert(r =~= s.skip(d.len() as int));
        assert forall|i: int| 0 <= i < d.len() implies is_digit(#[trigger] s[i]) by {
            if i > 0 {
                assert(is_digit(s.drop_first()[i - 1]));
            }
        }
    } else {
        assert(take_digits(s).1 =~= s.skip(0));
    }
}

/// A parsed string body consumes at least its closing quote.
pub proof fn lemma_sb_consumes(s: Seq<char>)
    ensures
        match sp_string_body(s) {
            Some((_, rest)) => rest.len() < s.len(),
            None => true,
        },
    decreases s.len(),
{
    if s.len() > 0 && s[0] != '"' {
        if s[0] == '\\' && s.len() >= 2 {
            if s[1] == 'u' {
                if s.len() >= 6 {
                    lemma_sb_consumes(s.skip(6));
                }
                if s.len() >= 12 {
                    lemma_sb_consumes(s.skip(12));
                }
            } else {
                lemma_sb_consumes(s.skip(2));
            }
        } else if s[0] != '\\' {
            lemma_sb_consumes(s.drop_first());
        }
    }
}

/// A parsed number consumes at least one character.
pub proof fn lemma_sn_consumes(s: Seq<char>)
    ensures
        match sp_number(s) {
            Some((_, rest)) => rest.len() < s.len(),
            None => true,
        },
{
    let (neg, s1) = if s.len() > 0 && s[0] == '-' {
        (true, s.drop_first())
    } else {
        (false, s)
    };
    lemma_take_digits(s1);
    let (ip, r1) = take_digits(s1);
    if ip.len() > 0 {
        if r1.len() > 0 && r1[0] == '.' {
            lemma_take_digits(r1.drop_first());
        }
        let (frac, r2) = if r1.len() > 0 && r1[0] == '.' {
            let (fd, rf) = take_digits(r1.drop_first());
            if fd.len() == 0 {
                (None::<Seq<char>>, r1)
            } else {
                (Some(seq!['.'] + fd), rf)
            }
        } else {
            (None::<Seq<char>>, r1)
        };
        if r2.len() > 0 && (r2[0] == 'e' || r2[0] == 'E') {
            if r2.len() > 1 && (r2[1] == '+' || r2[1] == '-') {
                lemma_take_digits(s2_skip(r2, 2));
            } else {
                lemma_take_digits(s2_skip(r2, 1));
            }
        }
    }
}

/// A parsed value consumes at least one character; a parsed list consumes at
/// least its closing bracket and one element.
pub proof fn lemma_sv_consumes(s: Seq<char>, fuel: nat)
    ensures
        match sp_value(s, fuel) {
            Some((_, rest)) => rest.len() < s.len(),
            None => true,
        },
    decreases fuel, 0nat,
{
    if fuel > 0 {
        let t = skip_ws(s);
        lemma_skip_ws_len(s);
        if t.len() > 0 {
            if t[0] == '"' {
                lemma_sb_consumes(t.drop_first());
            } else if t[0] == '[' {
                let u = skip_ws(t.drop_first());
                lemma_skip_ws_len(t.drop_first());
                if !(u.len() > 0 && u[0] == ']') {
                    lemma_se_consumes(u, (fuel - 1) as nat);
                }
            } else if t[0] == '{' {
                let u = skip_ws(t.drop_first());
                lemma_skip_ws_len(t.drop_first());
                if !(u.len() > 0 && u[0] == '}') {
                    lemma_sm_consumes(u, (fuel - 1) as nat, Seq::empty());
                }
            } else if t[0] == '-' || is_digit(t[0]) {
                lemma_sn_consumes(t);
            }
        }
    }
}

pub proof fn lemma_se_consumes(s: Seq<char>, fuel: nat)
    ensures
        match sp_elems(s, fuel) {
            Some((_, rest)) => rest.len() < s.len(),
            None => true,
        },
    decreases fuel, 1nat,
{
    if fuel > 0 {
        lemma_sv_consumes(s, (fuel - 1) as nat);
        match sp_value(s, (fuel - 1) as nat) {
            None => {},
            Some((v, r)) => {
                let r1 = skip_ws(r);
                lemma_skip_ws_len(r);
                if r1.len() > 0 && r1[0] == ',' {
                    lemma_se_consumes(r1.drop_first(), (fuel - 1) as nat);
                }
            },
        }
    }
}

pub proof fn lemma_sm_consumes(s: Seq<char>, fuel: nat, acc: Seq<(Seq<char>, JsonVal)>)
    ensures
        match sp_members(s, fuel, acc) {
            Some((_, rest)) => rest.len() < s.len(),
            None => true,
        },
    decreases fuel, 1nat,
{
    if fuel > 0 {
        let t = skip_ws(s);
        lemma_skip_ws_len(s);
        if t.len() > 0 && t[0] == '"' {
            lemma_sb_consumes(t.drop_first());
            match sp_string_body(t.drop_first()) {
                None => {},
                Some((key, r)) => {
                    let r1 = skip_ws(r);
                    lemma_skip_ws_len(r);
                    if r1.len() > 0 && r1[0] == ':' {
                        lemma_sv_consumes(r1.drop_first(), (fuel - 1) as nat);
                        match sp_value(r1.drop_first(), (fuel - 1) as nat) {
                            None => {},
                            Some((v, r2)) => {
                                let acc1 = JsonVal::pairs_store(acc, key, v);
                                let r3 = skip_ws(r2);
                                lemma_skip_ws_len(r2);
                                if r3.len() > 0 && r3[0] == ',' {
                                    lemma_sm_consumes(r3.drop_first(), (fuel - 1) as nat, acc1);
                                }
                            },
                        }
                    }
                },
            }
        }
    }
}

/// Above twice the input length, the exact fuel does not matter.
pub proof fn lemma_sv_fuel(s: Seq<char>, f1: nat, f2: nat)
    requires
        f1 > 2 * s.len(),
        f2 > 2 * s.len(),
    ensures
        sp_value(s, f1) == sp_value(s, f2),
    decreases f1 + f2, 0nat,
{
    let t = skip_ws(s);
    lemma_skip_ws_len(s);
    if t.len() > 0 {
        if t[0] == '[' {
            let u = skip_ws(t.drop_first());
            lemma_skip_ws_len(t.drop_first());
            if !(u.len() > 0 && u[0] == ']') {
                lemma_se_fuel(u, (f1 - 1) as nat, (f2 - 1) as nat);
            }
        } else if t[0] == '{' {
            let u = skip_ws(t.drop_first());
            lemma_skip_ws_len(t.drop_first());
            if !(u.len() > 0 && u[0] == '}') {
                lemma_sm_fuel(u, (f1 - 1) as nat, (f2 - 1) as nat, Seq::empty());
            }
        }
    }
}

pub proof fn lemma_se_fuel(s: Seq<char>, f1: nat, f2: nat)
    requires
        f1 > 2 * s.len() + 1,
        f2 > 2 * s.len() + 1,
    ensures
        sp_elems(s, f1) == sp_elems(s, f2),
    decreases f1 + f2, 1nat,
{
    lemma_sv_fuel(s, (f1 - 1) as nat, (f2 - 1) as nat);
    lemma_sv_consumes(s, (f1 - 1) as nat);
    match sp_value(s, (f1 - 1) as nat) {
        None => {},
        Some((v, r)) => {
            let r1 = skip_ws(r);
            lemma_skip_ws_len(r);
            if r1.len() > 0 && r1[0] == ',' {
                lemma_se_fuel(r1.drop_first(), (f1 - 1) as nat, (f2 - 1) as nat);
            }
        },
    }
}

pub proof fn lemma_sm_fuel(s: Seq<char>, f1: nat, f2: nat, acc: Seq<(Seq<char>, JsonVal)>)
    requires
        f1 > 2 * s.len() + 1,
        f2 > 2 * s.len() + 1,
    ensures
        sp_members(s, f1, acc) == sp_members(s, f2, acc),
    decreases f1 + f2, 1nat,
{
    let t = skip_ws(s);
    lemma_skip_ws_len(s);
    if t.len() > 0 && t[0] == '"' {
        lemma_sb_consumes(t.drop_first());
        match sp_string_body(t.drop_first()) {
            None => {},
            Some((key, r)) => {
                let r1 = skip_ws(r);
                lemma_skip_ws_len(r);
                if r1.len() > 0 && r1[0] == ':' {
                    lemma_sv_fuel(r1.drop_first(), (f1 - 1) as nat, (f2 - 1) as nat);
                    lemma_sv_consumes(r1.drop_first(), (f1 - 1) as nat);
                    match sp_value(r1.drop_first(), (f1 - 1) as nat) {
                        None => {},
                        Some((v, r2)) => {
                            let acc1 = JsonVal::pairs_store(acc, key, v);
                            let r3 = skip_ws(r2);
                            lemma_skip_ws_len(r2);
                            if r3.len() > 0 && r3[0] == ',' {
                                lemma_sm_fuel(
                                    r3.drop_first(),
                                    (f1 - 1) as nat,
                                    (f2 - 1) as nat,
                                    acc1,
                                );
                            }
                        },
                    }
                }
            },
        }
    }
}

// ---------------------------------------------------------------------------
// Character buffers
// ---------------------------------------------------------------------------
/// Relies on `str::chars`: the characters of the text, in order.
#[verifier::external_body]
pub fn str_to_chars(s: &str) -> (r: Vec<char>)
    ensures
        r@ == s@,
{
    s.chars().collect()
}

/// Relies on `String::from_iter` over characters: the text holding exactly
/// these characters, in order.
#[verifier::external_body]
pub fn chars_to_string(v: &Vec<char>) -> (r: String)
    ensures
        r@ == v@,
{
    v.iter().collect()
}

// ---------------------------------------------------------------------------
// Printing, executable
// ---------------------------------------------------------------------------
fn digit_char_exec(d: u64) -> (r: char)
    requires
        d < 10,
    ensures
        r == digit_char(d as nat),
{
    match d {
        0 => '0',
        1 => '1',
        2 => '2',
        3 => '3',
        4 => '4',
        5 => '5',
        6 => '6',
        7 => '7',
        8 => '8',
        _ => '9',
    }
}

fn hex_char_exec(d: u32) -> (r: char)
    requires
        d < 16,
    ensures
        r == hex_char(d as nat),
{
    match d {
        0 => '0',
        1 => '1',
        2 => '2',
        3 => '3',
        4 => '4',
        5 => '5',
        6 => '6',
        7 => '7',
        8 => '8',
        9 => '9',
        10 => 'a',
        11 => 'b',
        12 => 'c',
        13 => 'd',
        14 => 'e',
        _ => 'f',
    }
}

fn push_digits(n: u64, out: &mut Vec<char>)
    ensures
        final(out)@ == old(out)@ + digits_of(n as nat),
    decreases n,
{
    if n < 10 {
        out.push(digit_char_exec(n));
        proof {
            assert(final(out)@ =~= old(out)@ + digits_of(n as nat));
        }
    } else {
        push_digits(n / 10, out);
        out.push(digit_char_exec(n % 10));
        proof {
            assert(final(out)@ =~= old(out)@ + digits_of(n as nat));
        }
    }
}

fn push_int(i: i64, out: &mut Vec<char>)
    ensures
        final(out)@ == old(out)@ + int_print(i),
{
    if i >= 0 {
        push_digits(i as u64, out);
    } else {
        out.push('-');
        let magnitude: u64 = (-(i as i128)) as u64;
        proof {
            assert(magnitude as nat == (-(i as int)) as nat);
        }
        push_digits(magnitude, out);
        proof {
            assert(final(out)@ =~= old(out)@ + int_print(i));
        }
    }
}

/// Printing one more character appends its escape.
proof fn lemma_str_print_snoc(s: Seq<char>, i: int)
    requires
        0 <= i < s.len(),
    ensures
        str_print(s.take(i + 1)) == str_print(s.take(i)) + esc_char(s[i]),
    decreases i,
{
    let a = s.take(i + 1);
    let b = s.take(i);
    if i == 0 {
        assert(a.drop_first() =~= Seq::empty());
        assert(a[0] == s[0]);
        assert(b =~= Seq::<char>::empty());
        assert(str_print(a) =~= str_print(b) + esc_char(s[0]));
    } else {
        lemma_str_print_snoc(s.drop_first(), i - 1);
        assert(a.drop_first() =~= s.drop_first().take(i));
        assert(b.drop_first() =~= s.drop_first().take(i - 1));
        assert(s.drop_first()[i - 1] == s[i]);
        assert(str_print(a) == esc_char(s[0]) + str_print(s.drop_first().take(i)));
        assert(str_print(b) == esc_char(s[0]) + str_print(s.drop_first().take(i - 1)));
        assert(str_print(a) =~= str_print(b) + esc_char(s[i]));
    }
}

#[verifier::loop_isolation(false)]
fn push_quoted(s: &String, out: &mut Vec<char>)
    ensures
        final(out)@ == old(out)@ + quoted_print(s@),
{
    let chars = str_to_chars(s.as_str());
    out.push('"');
    let ghost base = out@;
    proof {
        assert(chars@.take(0int) =~= Seq::empty());
        assert(out@ =~= base + str_print(chars@.take(0int)));
    }
    let mut i: usize = 0;
    while i < chars.len()
        invariant
            i <= chars.len(),
            out@ == base + str_print(chars@.take(i as int)),
        decreases chars.len() - i,
    {
        proof {
            lemma_str_print_snoc(chars@, i as int);
        }
        let c = chars[i];
        if c == '"' {
            out.push('\\');
            out.push('"');
        } else if c == '\\' {
            out.push('\\');
            out.push('\\');
        } else if (c as u32) < 0x20 {
            let code = c as u32;
            out.push('\\');
            out.push('u');
            out.push('0');
            out.push('0');
            out.push(hex_char_exec(code / 16));
            out.push(hex_char_exec(code % 16));
        } else {
            out.push(c);
        }
        proof {
            assert(out@ =~= base + str_print(chars@.take(i + 1)));
        }
        i = i + 1;
    }
    out.push('"');
    proof {
        assert(chars@.take(chars@.len() as int) =~= chars@);
        assert(out@ =~= old(out)@ + quoted_print(s@));
    }
}

/// Printing one more element extends the element list's text.
proof fn lemma_print_elems_snoc(s: Seq<JsonVal>, i: int)
    requires
        0 <= i < s.len(),
    ensures
        print_elems(s.take(i + 1)) == if i == 0 {
            print_val(s[0])
        } else {
            print_elems(s.take(i)) + seq![','] + print_val(s[i])
        },
    decreases i,
{
    let a = s.take(i + 1);
    if i == 0 {
        assert(a.len() == 1);
        assert(a[0] == s[0]);
    } else {
        lemma_print_elems_snoc(s.drop_first(), i - 1);
        assert(a.drop_first() =~= s.drop_first().take(i));
        assert(s.take(i).drop_first() =~= s.drop_first().take(i - 1));
        assert(s.drop_first()[i - 1] == s[i]);
        assert(a.len() > 1 && a[0] == s[0]);
        assert(s.take(i)[0] == s[0]);
        if i == 1 {
            assert(print_elems(a) == print_val(s[0]) + seq![','] + print_elems(
                s.drop_first().take(1),
            ));
            assert(print_elems(s.take(1)) == print_val(s[0]));
            assert(print_elems(a) =~= print_elems(s.take(1)) + seq![','] + print_val(s[1]));
        } else {
            assert(print_elems(a) =~= print_elems(s.take(i)) + seq![','] + print_val(s[i]));
        }
    }
}

/// Printing one more member extends the member list's text.
proof fn lemma_print_members_snoc(s: Seq<(Seq<char>, JsonVal)>, i: int)
    requires
        0 <= i < s.len(),
    ensures
        print_members(s.take(i + 1)) == if i == 0 {
            quoted_print(s[0].0) + seq![':'] + print_val(s[0].1)
        } else {
            print_members(s.take(i)) + seq![','] + quoted_print(s[i].0) + seq![':'] + print_val(
                s[i].1,
            )
        },
    decreases i,
{
    let a = s.take(i + 1);
    if i == 0 {
        assert(a.len() == 1);
        assert(a[0] == s[0]);
    } else {
        lemma_print_members_snoc(s.drop_first(), i - 1);
        assert(a.drop_first() =~= s.drop_first().take(i));
        assert(s.take(i).drop_first() =~= s.drop_first().take(i - 1));
        assert(s.drop_first()[i - 1] == s[i]);
        assert(a.len() > 1 && a[0] == s[0]);
        assert(s.take(i)[0] == s[0]);
        if i == 1 {
            assert(print_members(a) =~= print_members(s.take(1)) + seq![','] + quoted_print(
                s[1].0,
            ) + seq![':'] + print_val(s[1].1));
        } else {
            assert(print_members(a) =~= print_members(s.take(i)) + seq![','] + quoted_print(
                s[i].0,
            ) + seq![':'] + print_val(s[i].1));
        }
    }
}

#[verifier::loop_isolation(false)]
#[verifier::rlimit(60)]
fn write_val(v: &JsonValue, out: &mut Vec<char>)
    ensures
        final(out)@ == old(out)@ + print_val(v@),
    decreases *v,
{
    match v {
        JsonValue::Null => {
            out.push('n');
            out.push('u');
            out.push('l');
            out.push('l');
            proof {
                assert(final(out)@ =~= old(out)@ + print_val(v@));
            }
        },
        JsonValue::Bool(b) => {
            if *b {
                out.push('t');
                out.push('r');
                out.push('u');
                out.push('e');
            } else {
                out.push('f');
                out.push('a');
                out.push('l');
                out.push('s');
                out.push('e');
            }
            proof {
                assert(final(out)@ =~= old(out)@ + print_val(v@));
            }
        },
        JsonValue::Int(i) => {
            push_int(*i, out);
        },
        JsonValue::Num(lit) => {
            let mut chars = str_to_chars(lit.as_str());
            out.append(&mut chars);
            proof {
                assert(final(out)@ =~= old(out)@ + print_val(v@));
            }
        },
        JsonValue::Str(s) => {
            push_quoted(s, out);
        },
        JsonValue::Arr(elems) => {
            let ghost vs = crate::json::view_of_list(elems@);
            proof {
                crate::json::lemma_view_of_list_index(elems@);
            }
            out.push('[');
            let ghost base = out@;
            proof {
                assert(vs.take(0int) =~= Seq::empty());
                assert(out@ =~= base + print_elems(vs.take(0int)));
            }
            let mut i: usize = 0;
            while i < elems.len()
                invariant
                    i <= elems.len(),
                    out@ == base + print_elems(vs.take(i as int)),
                decreases elems.len() - i,
            {
                proof {
                    assert(decreases_to!(*v => *elems));
                    assert(decreases_to!(*elems => elems@[i as int]));
                }
                if i > 0 {
                    out.push(',');
                }
                write_val(&elems[i], out);
                proof {
                    lemma_print_elems_snoc(vs, i as int);
                    assert(out@ =~= base + print_elems(vs.take(i + 1)));
                }
                i = i + 1;
            }
            out.push(']');
            proof {
                assert(vs.take(vs.len() as int) =~= vs);
                assert(final(out)@ =~= old(out)@ + print_val(v@));
            }
        },
        JsonValue::Obj(pairs) => {
            let ghost vp = crate::json::view_of_pairs(pairs@);
            proof {
                crate::json::lemma_view_of_pairs_index(pairs@);
            }
            out.push('{');
            let ghost base = out@;
            proof {
                assert(vp.take(0int) =~= Seq::empty());
                assert(out@ =~= base + print_members(vp.take(0int)));
            }
            let mut i: usize = 0;
            while i < pairs.len()
                invariant
                    i <= pairs.len(),
                    out@ == base + print_members(vp.take(i as int)),
                decreases pairs.len() - i,
            {
                proof {
                    assert(decreases_to!(*v => *pairs));
                    assert(decreases_to!(*pairs => pairs@[i as int]));
                    assert(decreases_to!(pairs@[i as int] => pairs@[i as int].1));
                }
                if i > 0 {
                    out.push(',');
                }
                push_quoted(&pairs[i].0, out);
                out.push(':');
                write_val(&pairs[i].1, out);
                proof {
                    lemma_print_members_snoc(vp, i as int);
                    assert(out@ =~= base + print_members(vp.take(i + 1)));
                }
                i = i + 1;
            }
            out.push('}');
            proof {
                assert(vp.take(vp.len() as int) =~= vp);
                assert(final(out)@ =~= old(out)@ + print_val(v@));
            }
        },
    }
}

/// Prints a tree as compact JSON text.
pub fn stringify(v: &JsonValue) -> (r: String)
    ensures
        r@ == print_val(v@),
{
    let mut out: Vec<char> = Vec::new();
    write_val(v, &mut out);
    proof {
        assert(out@ =~= print_val(v@));
    }
    chars_to_string(&out)
}

// ---------------------------------------------------------------------------
// Parsing, executable
// ---------------------------------------------------------------------------
fn is_digit_exec(c: char) -> (b: bool)
    ensures
        b == is_digit(c),
{
    c >= '0' && c <= '9'
}

fn is_ws_exec(c: char) -> (b: bool)
    ensures
        b == is_ws(c),
{
    c == ' ' || c == '\t' || c == '\n' || c == '\r'
}

/// The value of one hexadecimal digit, `None` for any other character.
fn hex_digit_val(c: char) -> (r: Option<u32>)
    ensures
        match r {
            Some(v) => is_hex_digit(c) && v == hex_val(c) && v < 16,
            None => !is_hex_digit(c),
        },
{
    if c >= '0' && c <= '9' {
        Some(c as u32 - '0' as u32)
    } else if c >= 'a' && c <= 'f' {
        Some(c as u32 - 'a' as u32 + 10)
    } else if c >= 'A' && c <= 'F' {
        Some(c as u32 - 'A' as u32 + 10)
    } else {
        None
    }
}

/// Advances over whitespace: the suffix at the returned position is the
/// input suffix without its leading whitespace.
#[verifier::loop_isolation(false)]
fn ws_to(chars: &Vec<char>, i: usize) -> (j: usize)
    requires
        i <= chars@.len(),
    ensures
        i <= j <= chars@.len(),
        chars@.skip(j as int) == skip_ws(chars@.skip(i as int)),
        j < chars@.len() ==> !is_ws(chars@[j as int]),
{
    let mut j = i;
    while j < chars.len() && is_ws_exec(chars[j])
        invariant
            i <= j <= chars@.len(),
            skip_ws(chars@.skip(i as int)) == skip_ws(chars@.skip(j as int)),
        decreases chars@.len() - j,
    {
        proof {
            assert(chars@.skip(j as int).drop_first() =~= chars@.skip(j + 1));
        }
        j = j + 1;
    }
    proof {
        assert(skip_ws(chars@.skip(j as int)) == chars@.skip(j as int));
    }
    j
}

/// Copies the characters of `[a, b)` into a text.
#[verifier::loop_isolation(false)]
fn copy_range(chars: &Vec<char>, a: usize, b: usize) -> (r: String)
    requires
        a <= b <= chars@.len(),
    ensures
        r@ == chars@.subrange(a as int, b as int),
{
    let mut out: Vec<char> = Vec::new();
    let mut p = a;
    while p < b
        invariant
            a <= p <= b,
            out@ =~= chars@.subrange(a as int, p as int),
        decreases b - p,
    {
        out.push(chars[p]);
        proof {
            assert(out@ =~= chars@.subrange(a as int, p + 1));
        }
        p = p + 1;
    }
    chars_to_string(&out)
}

/// Parses a string body starting at `i`, the opening quote already behind.
#[verifier::loop_isolation(false)]
#[verifier::rlimit(60)]
fn parse_string_body_at(chars: &Vec<char>, i: usize) -> (r: Option<(String, usize)>)
    requires
        i <= chars@.len(),
    ensures
        match r {
            Some((content, j)) => i < j <= chars@.len() && sp_string_body(chars@.skip(i as int))
                == Some((content@, chars@.skip(j as int))),
            None => sp_string_body(chars@.skip(i as int)) is None,
        },
{
    let mut out: Vec<char> = Vec::new();
    let mut p = i;
    loop
        invariant
            i <= p <= chars@.len(),
            sp_string_body(chars@.skip(i as int)) == (match sp_string_body(
                chars@.skip(p as int),
            ) {
                Some((tail, rest)) => Some((out@ + tail, rest)),
                None => None::<(Seq<char>, Seq<char>)>,
            }),
        decreases chars@.len() - p,
    {
        let ghost s = chars@.skip(p as int);
        if p >= chars.len() {
            return None;
        }
        let c = chars[p];
        proof {
            assert(s[0] == c);
        }
        if c == '"' {
            proof {
                assert(s.drop_first() =~= chars@.skip(p + 1));
                assert(out@ + Seq::<char>::empty() =~= out@);
            }
            let content = chars_to_string(&out);
            return Some((content, p + 1));
        } else if c == '\\' {
            if p + 1 >= chars.len() {
                return None;
            }
            let e = chars[p + 1];
            proof {
                assert(s[1] == e);
            }
            if e == 'u' {
                if chars.len() - p < 6 {
                    return None;
                }
                let h0 = hex_digit_val(chars[p + 2]);
                let h1 = hex_digit_val(chars[p + 3]);
                let h2 = hex_digit_val(chars[p + 4]);
                let h3 = hex_digit_val(chars[p + 5]);
                proof {
                    assert(s[2] == chars@[p + 2] && s[3] == chars@[p + 3] && s[4] == chars@[p + 4]
                        && s[5] == chars@[p + 5]);
                }
                match (h0, h1, h2, h3) {
                    (Some(v0), Some(v1), Some(v2), Some(v3)) => {
                        let code: u32 = v0 * 4096 + v1 * 256 + v2 * 16 + v3;
                        if 0xDC00 <= code && code < 0xE000 {
                            return None;
                        }
                        if 0xD800 <= code && code < 0xDC00 {
                            // a high surrogate must pair with a low one
                            if chars.len() - p < 12 {
                                return None;
                            }
                            if !(chars[p + 6] == '\\' && chars[p + 7] == 'u') {
                                proof {
                                    assert(s[6] == chars@[p + 6] && s[7] == chars@[p + 7]);
                                }
                                return None;
                            }
                            let g0 = hex_digit_val(chars[p + 8]);
                            let g1 = hex_digit_val(chars[p + 9]);
                            let g2 = hex_digit_val(chars[p + 10]);
                            let g3 = hex_digit_val(chars[p + 11]);
                            proof {
                                assert(s[6] == chars@[p + 6] && s[7] == chars@[p + 7]);
                                assert(s[8] == chars@[p + 8] && s[9] == chars@[p + 9]);
                                assert(s[10] == chars@[p + 10] && s[11] == chars@[p + 11]);
                            }
                            match (g0, g1, g2, g3) {
                                (Some(w0), Some(w1), Some(w2), Some(w3)) => {
                                    let low: u32 = w0 * 4096 + w1 * 256 + w2 * 16 + w3;
                                    if !(0xDC00 <= low && low < 0xE000) {
                                        return None;
                                    }
                                    let cp: u32 = 0x10000 + (code - 0xD800) * 0x400 + (low
                                        - 0xDC00);
                                    let decoded = char_from_code(cp);
                                    out.push(decoded);
                                    proof {
                                        assert(s.skip(12) =~= chars@.skip(p + 12));
                                    }
                                    p = p + 12;
                                },
                                _ => {
                                    return None;
                                },
                            }
                        } else {
                            let decoded = char_from_code(code);
                            out.push(decoded);
                            proof {
                                assert(s.skip(6) =~= chars@.skip(p + 6));
                            }
                            p = p + 6;
                        }
                    },
                    _ => {
                        return None;
                    },
                }
            } else {
                let decoded = match e {
                    '"' => '"',
                    '\\' => '\\',
                    '/' => '/',
                    'b' => '\u{0008}',
                    'f' => '\u{000C}',
                    'n' => '\n',
                    'r' => '\r',
                    't' => '\t',
                    _ => {
                        return None;
                    },
                };
                out.push(decoded);
                proof {
                    assert(s.skip(2) =~= chars@.skip(p + 2));
                }
                p = p + 2;
            }
        } else if (c as u32) < 0x20 {
            return None;
        } else {
            out.push(c);
            proof {
                assert(s.drop_first() =~= chars@.skip(p + 1));
            }
            p = p + 1;
        }
    }
}

/// `dec_value` grows with every appended digit, tenfold.
proof fn lemma_dec_value_snoc(s: Seq<char>, m: int)
    requires
        0 <= m < s.len(),
    ensures
        dec_value(s.take(m + 1)) == dec_value(s.take(m)) * 10 + digit_val(s[m]),
{
    assert(s.take(m + 1).drop_last() =~= s.take(m));
    assert(s.take(m + 1).last() == s[m]);
}

/// The value of a run of digits, with a flag for values past `i64` range.
#[verifier::loop_isolation(false)]
fn digits_value(chars: &Vec<char>, p: usize, q: usize) -> (r: (u128, bool))
    requires
        p <= q <= chars@.len(),
        forall|m: int| p <= m < q ==> is_digit(#[trigger] chars@[m]),
    ensures
        !r.1 ==> r.0 == dec_value(chars@.subrange(p as int, q as int)) && r.0
            <= 0x8000_0000_0000_0000,
        r.1 ==> dec_value(chars@.subrange(p as int, q as int)) > 0x8000_0000_0000_0000,
{
    let ghost run = chars@.subrange(p as int, q as int);
    let mut acc: u128 = 0;
    let mut too_big = false;
    let mut m = p;
    proof {
        assert(run.take(0int) =~= Seq::empty());
    }
    while m < q
        invariant
            p <= m <= q,
            !too_big ==> acc == dec_value(run.take(m - p)) && acc <= 0x8000_0000_0000_0000,
            too_big ==> dec_value(run.take(m - p)) > 0x8000_0000_0000_0000,
        decreases q - m,
    {
        proof {
            lemma_dec_value_snoc(run, m - p);
            assert(run[m - p] == chars@[m as int]);
        }
        let d = chars[m] as u32 - '0' as u32;
        if too_big {
            proof {
                assert(dec_value(run.take(m - p + 1)) >= dec_value(run.take(m - p)) * 10);
            }
        } else {
            acc = acc * 10 + (d as u128);
            if acc > 0x8000_0000_0000_0000 {
                too_big = true;
            }
        }
        m = m + 1;
    }
    proof {
        assert(run.take(q - p) =~= run);
    }
    (acc, too_big)
}

/// The end of the digit run starting at `p`, with `take_digits` pinned to it.
#[verifier::loop_isolation(false)]
fn digit_run_end(chars: &Vec<char>, p: usize) -> (q: usize)
    requires
        p <= chars@.len(),
    ensures
        p <= q <= chars@.len(),
        take_digits(chars@.skip(p as int)).0 == chars@.subrange(p as int, q as int),
        take_digits(chars@.skip(p as int)).1 == chars@.skip(q as int),
        forall|m: int| p <= m < q ==> is_digit(#[trigger] chars@[m]),
        q < chars@.len() ==> !is_digit(chars@[q as int]),
{
    let ghost s1 = chars@.skip(p as int);
    proof {
        lemma_take_digits(s1);
    }
    let mut q = p;
    while q < chars.len() && is_digit_exec(chars[q])
        invariant
            p <= q <= chars@.len(),
            forall|m: int| p <= m < q ==> is_digit(#[trigger] chars@[m]),
        decreases chars@.len() - q,
    {
        q = q + 1;
    }
    proof {
        assert forall|m: int| 0 <= m < q - p implies is_digit(#[trigger] s1[m]) by {
            assert(s1[m] == chars@[p + m]);
        }
        if q < chars@.len() {
            assert(s1[q - p] == chars@[q as int]);
        }
        let d = take_digits(s1).0;
        if d.len() < q - p {
            assert(is_digit(s1[d.len() as int]));
            assert(take_digits(s1).1[0] == s1[d.len() as int]);
            assert(false);
        }
        if d.len() > q - p {
            assert(is_digit(s1[q - p]));
            assert(false);
        }
        assert(d.len() == q - p);
        assert(d =~= chars@.subrange(p as int, q as int));
        assert(take_digits(s1).1 =~= chars@.skip(q as int));
    }
    q
}

/// Parses a number starting at `i`; the first character is `-` or a digit.
#[verifier::loop_isolation(false)]
#[verifier::rlimit(100)]
#[verifier::spinoff_prover]
fn parse_number_at(chars: &Vec<char>, i: usize) -> (r: Option<(JsonValue, usize)>)
    requires
        i <= chars@.len(),
    ensures
        match r {
            Some((v, j)) => i < j <= chars@.len() && sp_number(chars@.skip(i as int)) == Some(
                (v@, chars@.skip(j as int)),
            ),
            None => sp_number(chars@.skip(i as int)) is None,
        },
{
    let ghost s = chars@.skip(i as int);
    let neg = i < chars.len() && chars[i] == '-';
    let p = if neg {
        i + 1
    } else {
        i
    };
    let ghost s1 = chars@.skip(p as int);
    proof {
        if neg {
            assert(s[0] == chars@[i as int]);
            assert(s.drop_first() =~= s1);
        }
    }
    // integer part
    let q = digit_run_end(chars, p);
    let ghost ip = take_digits(s1).0;
    let ghost r1 = take_digits(s1).1;
    if q == p {
        return None;
    }
    if q - p > 1 && chars[p] == '0' {
        proof {
            assert(ip[0] == chars@[p as int]);
        }
        return None;
    }
    proof {
        assert(ip[0] == chars@[p as int]);
    }
    // fraction
    let mut end = q;
    let mut has_frac = false;
    if q < chars.len() && chars[q] == '.' {
        proof {
            assert(r1[0] == chars@[q as int]);
            assert(r1.drop_first() =~= chars@.skip(q + 1));
        }
        let q2 = digit_run_end(chars, q + 1);
        if q2 == q + 1 {
            return None;
        }
        has_frac = true;
        end = q2;
    }
    let ghost spec_frac: Option<Seq<char>> = if has_frac {
        Some(seq!['.'] + take_digits(chars@.skip(q + 1)).0)
    } else {
        None
    };
    let ghost r2 = chars@.skip(end as int);
    proof {
        if !has_frac {
            assert(r1 =~= r2);
        }
    }
    // exponent
    let mut has_exp = false;
    let exp_base = end;
    let ghost mut spec_exp: Option<Seq<char>> = None;
    if end < chars.len() && (chars[end] == 'e' || chars[end] == 'E') {
        let e1 = if end + 1 < chars.len() && (chars[end + 1] == '+' || chars[end + 1] == '-') {
            end + 2
        } else {
            end + 1
        };
        proof {
            assert(r2[0] == chars@[end as int]);
            if e1 == end + 2 {
                assert(r2[1] == chars@[end + 1]);
                assert(s2_skip(r2, 2) =~= chars@.skip(e1 as int));
            } else {
                assert(s2_skip(r2, 1) =~= chars@.skip(e1 as int));
            }
        }
        let q3 = digit_run_end(chars, e1);
        if q3 == e1 {
            return None;
        }
        has_exp = true;
        proof {
            let sgn: Seq<char> = if e1 == end + 2 {
                seq![r2[0], r2[1]]
            } else {
                seq![r2[0]]
            };
            spec_exp = Some(sgn + take_digits(chars@.skip(e1 as int)).0);
            assert(spec_exp->0 =~= chars@.subrange(exp_base as int, q3 as int));
        }
        end = q3;
    }
    let ghost r3 = chars@.skip(end as int);
    let lit = copy_range(chars, i, end);
    proof {
        let sign_seq: Seq<char> = if neg {
            seq!['-']
        } else {
            Seq::<char>::empty()
        };
        assert(lit@ =~= sign_seq + ip + spec_or_empty(spec_frac) + spec_or_empty(spec_exp));
    }
    if !has_frac && !has_exp {
        let (acc, too_big) = digits_value(chars, p, q);
        proof {
            assert(chars@.subrange(p as int, q as int) =~= ip);
        }
        if !too_big {
            if !neg && acc <= i64::MAX as u128 {
                return Some((JsonValue::Int(acc as i64), end));
            }
            if neg && acc <= 0x8000_0000_0000_0000 {
                let v: i64 = if acc == 0x8000_0000_0000_0000 {
                    i64::MIN
                } else {
                    -(acc as i64)
                };
                return Some((JsonValue::Int(v), end));
            }
        }
        return Some((JsonValue::Num(lit), end));
    }
    Some((JsonValue::Num(lit), end))
}

/// Parses one value at `i` (after optional whitespace).
#[verifier::loop_isolation(false)]
#[verifier::rlimit(100)]
fn parse_value_at(chars: &Vec<char>, i: usize) -> (r: Option<(JsonValue, usize)>)
    requires
        i <= chars@.len(),
    ensures
        match r {
            Some((v, j)) => i < j <= chars@.len() && sp_value(
                chars@.skip(i as int),
                fuel_for(chars@.skip(i as int)),
            ) == Some((v@, chars@.skip(j as int))),
            None => sp_value(chars@.skip(i as int), fuel_for(chars@.skip(i as int))) is None,
        },
    decreases chars@.len() - i, 0nat,
{
    let ghost si = chars@.skip(i as int);
    let ghost fuel = fuel_for(si);
    let t_pos = ws_to(chars, i);
    let ghost t = skip_ws(si);
    proof {
        lemma_skip_ws_len(si);
        assert(t == chars@.skip(t_pos as int));
        assert(t.len() == chars@.len() - t_pos);
    }
    if t_pos >= chars.len() {
        return None;
    }
    let c = chars[t_pos];
    proof {
        assert(t[0] == c);
    }
    if c == 'n' {
        if chars.len() - t_pos >= 4 && chars[t_pos + 1] == 'u' && chars[t_pos + 2] == 'l'
            && chars[t_pos + 3] == 'l' {
            proof {
                assert(t[1] == chars@[t_pos + 1]);
                assert(t[2] == chars@[t_pos + 2]);
                assert(t[3] == chars@[t_pos + 3]);
                assert(t.skip(4) =~= chars@.skip(t_pos + 4));
            }
            Some((JsonValue::Null, t_pos + 4))
        } else {
            proof {
                if t.len() >= 4 {
                    assert(t[1] == chars@[t_pos + 1] && t[2] == chars@[t_pos + 2] && t[3]
                        == chars@[t_pos + 3]);
                }
            }
            None
        }
    } else if c == 't' {
        if chars.len() - t_pos >= 4 && chars[t_pos + 1] == 'r' && chars[t_pos + 2] == 'u'
            && chars[t_pos + 3] == 'e' {
            proof {
                assert(t[1] == chars@[t_pos + 1]);
                assert(t[2] == chars@[t_pos + 2]);
                assert(t[3] == chars@[t_pos + 3]);
                assert(t.skip(4) =~= chars@.skip(t_pos + 4));
            }
            Some((JsonValue::Bool(true), t_pos + 4))
        } else {
            proof {
                if t.len() >= 4 {
                    assert(t[1] == chars@[t_pos + 1] && t[2] == chars@[t_pos + 2] && t[3]
                        == chars@[t_pos + 3]);
                }
            }
            None
        }
    } else if c == 'f' {
        if chars.len() - t_pos >= 5 && chars[t_pos + 1] == 'a' && chars[t_pos + 2] == 'l'
            && chars[t_pos + 3] == 's' && chars[t_pos + 4] == 'e' {
            proof {
                assert(t[1] == chars@[t_pos + 1]);
                assert(t[2] == chars@[t_pos + 2]);
                assert(t[3] == chars@[t_pos + 3]);
                assert(t[4] == chars@[t_pos + 4]);
                assert(t.skip(5) =~= chars@.skip(t_pos + 5));
            }
            Some((JsonValue::Bool(false), t_pos + 5))
        } else {
            proof {
                if t.len() >= 5 {
                    assert(t[1] == chars@[t_pos + 1] && t[2] == chars@[t_pos + 2] && t[3]
                        == chars@[t_pos + 3] && t[4] == chars@[t_pos + 4]);
                }
            }
            None
        }
    } else if c == '"' {
        proof {
            assert(t.drop_first() =~= chars@.skip(t_pos + 1));
        }
        match parse_string_body_at(chars, t_pos + 1) {
            Some((content, j)) => Some((JsonValue::Str(content), j)),
            None => None,
        }
    } else if c == '[' {
        proof {
            assert(t.drop_first() =~= chars@.skip(t_pos + 1));
        }
        let u_pos = ws_to(chars, t_pos + 1);
        let ghost u = skip_ws(t.drop_first());
        proof {
            lemma_skip_ws_len(t.drop_first());
            assert(u == chars@.skip(u_pos as int));
        }
        if u_pos < chars.len() && chars[u_pos] == ']' {
            proof {
                assert(u[0] == chars@[u_pos as int]);
                assert(u.drop_first() =~= chars@.skip(u_pos + 1));
            }
            let elems: Vec<JsonValue> = Vec::new();
            let result = JsonValue::Arr(elems);
            proof {
                assert(result@ == JsonVal::Arr(Seq::<JsonVal>::empty()));
            }
            Some((result, u_pos + 1))
        } else {
            proof {
                if u.len() > 0 {
                    assert(u[0] == chars@[u_pos as int]);
                }
                lemma_se_fuel(u, (fuel - 1) as nat, fuel_for(u));
            }
            match parse_elems_at(chars, u_pos) {
                Some((vs, j)) => Some((JsonValue::Arr(vs), j)),
                None => None,
            }
        }
    } else if c == '{' {
        proof {
            assert(t.drop_first() =~= chars@.skip(t_pos + 1));
        }
        let u_pos = ws_to(chars, t_pos + 1);
        let ghost u = skip_ws(t.drop_first());
        proof {
            lemma_skip_ws_len(t.drop_first());
            assert(u == chars@.skip(u_pos as int));
        }
        if u_pos < chars.len() && chars[u_pos] == '}' {
            proof {
                assert(u[0] == chars@[u_pos as int]);
                assert(u.drop_first() =~= chars@.skip(u_pos + 1));
            }
            let pairs: Vec<(String, JsonValue)> = Vec::new();
            let result = JsonValue::Obj(pairs);
            proof {
                assert(result@ == JsonVal::Obj(Seq::<(Seq<char>, JsonVal)>::empty()));
            }
            Some((result, u_pos + 1))
        } else {
            proof {
                if u.len() > 0 {
                    assert(u[0] == chars@[u_pos as int]);
                }
                lemma_sm_fuel(u, (fuel - 1) as nat, fuel_for(u), Seq::empty());
            }
            let acc = JsonValue::Obj(Vec::new());
            proof {
                assert(acc@ == JsonVal::Obj(Seq::<(Seq<char>, JsonVal)>::empty()));
            }
            match parse_members_at(chars, u_pos, acc) {
                Some((o, j)) => Some((o, j)),
                None => None,
            }
        }
    } else if c == '-' || is_digit_exec(c) {
        parse_number_at(chars, t_pos)
    } else {
        None
    }
}

/// Parses a non-empty element list with its closing bracket.
#[verifier::loop_isolation(false)]
#[verifier::rlimit(100)]
fn parse_elems_at(chars: &Vec<char>, i: usize) -> (r: Option<(Vec<JsonValue>, usize)>)
    requires
        i <= chars@.len(),
    ensures
        match r {
            Some((vs, j)) => i < j <= chars@.len() && sp_elems(
                chars@.skip(i as int),
                fuel_for(chars@.skip(i as int)),
            ) == Some((crate::json::view_of_list(vs@), chars@.skip(j as int))),
            None => sp_elems(chars@.skip(i as int), fuel_for(chars@.skip(i as int))) is None,
        },
    decreases chars@.len() - i, 1nat,
{
    let ghost si = chars@.skip(i as int);
    let ghost fuel = fuel_for(si);
    proof {
        lemma_sv_fuel(si, (fuel - 1) as nat, fuel_for(si));
    }
    match parse_value_at(chars, i) {
        None => None,
        Some((v, j)) => {
            let ghost rest = chars@.skip(j as int);
            let r1_pos = ws_to(chars, j);
            let ghost r1 = skip_ws(rest);
            proof {
                lemma_skip_ws_len(rest);
                assert(r1 == chars@.skip(r1_pos as int));
            }
            if r1_pos >= chars.len() {
                return None;
            }
            let c = chars[r1_pos];
            proof {
                assert(r1[0] == c);
            }
            if c == ',' {
                proof {
                    assert(r1.drop_first() =~= chars@.skip(r1_pos + 1));
                    lemma_se_fuel(
                        chars@.skip(r1_pos + 1),
                        (fuel - 1) as nat,
                        fuel_for(chars@.skip(r1_pos + 1)),
                    );
                }
                match parse_elems_at(chars, r1_pos + 1) {
                    None => None,
                    Some((tail, j2)) => {
                        let ghost tail0 = tail@;
                        let mut vs = tail;
                        vs.insert(0, v);
                        proof {
                            crate::json::lemma_view_of_list_index(tail0);
                            crate::json::lemma_view_of_list_index(vs@);
                            assert(crate::json::view_of_list(vs@) =~= seq![v@]
                                + crate::json::view_of_list(tail0));
                        }
                        Some((vs, j2))
                    },
                }
            } else if c == ']' {
                proof {
                    assert(r1.drop_first() =~= chars@.skip(r1_pos + 1));
                }
                let mut vs: Vec<JsonValue> = Vec::new();
                vs.push(v);
                proof {
                    crate::json::lemma_view_of_list_index(vs@);
                    assert(crate::json::view_of_list(vs@) =~= seq![v@]);
                }
                Some((vs, r1_pos + 1))
            } else {
                None
            }
        },
    }
}

/// Parses a non-empty member list with its closing brace, storing each pair
/// into `acc`.
#[verifier::loop_isolation(false)]
#[verifier::rlimit(100)]
fn parse_members_at(chars: &Vec<char>, i: usize, acc: JsonValue) -> (r: Option<(JsonValue, usize)>)
    requires
        i <= chars@.len(),
        acc@ is Obj,
    ensures
        match r {
            Some((o, j)) => i < j <= chars@.len() && o@ is Obj && sp_members(
                chars@.skip(i as int),
                fuel_for(chars@.skip(i as int)),
                acc@->Obj_0,
            ) == Some((o@->Obj_0, chars@.skip(j as int))),
            None => sp_members(
                chars@.skip(i as int),
                fuel_for(chars@.skip(i as int)),
                acc@->Obj_0,
            ) is None,
        },
    decreases chars@.len() - i, 1nat,
{
    let ghost si = chars@.skip(i as int);
    let ghost fuel = fuel_for(si);
    let t_pos = ws_to(chars, i);
    let ghost t = skip_ws(si);
    proof {
        lemma_skip_ws_len(si);
        assert(t == chars@.skip(t_pos as int));
    }
    if t_pos >= chars.len() {
        return None;
    }
    if chars[t_pos] != '"' {
        proof {
            assert(t[0] == chars@[t_pos as int]);
        }
        return None;
    }
    proof {
        assert(t[0] == chars@[t_pos as int]);
        assert(t.drop_first() =~= chars@.skip(t_pos + 1));
    }
    match parse_string_body_at(chars, t_pos + 1) {
        None => None,
        Some((key, j)) => {
            let ghost keyv = key@;
            let r1_pos = ws_to(chars, j);
            let ghost r1 = skip_ws(chars@.skip(j as int));
            proof {
                lemma_skip_ws_len(chars@.skip(j as int));
                assert(r1 == chars@.skip(r1_pos as int));
            }
            if r1_pos >= chars.len() {
                return None;
            }
            if chars[r1_pos] != ':' {
                proof {
                    assert(r1[0] == chars@[r1_pos as int]);
                }
                return None;
            }
            proof {
                assert(r1[0] == chars@[r1_pos as int]);
                assert(r1.drop_first() =~= chars@.skip(r1_pos + 1));
                lemma_sv_fuel(
                    chars@.skip(r1_pos + 1),
                    (fuel - 1) as nat,
                    fuel_for(chars@.skip(r1_pos + 1)),
                );
            }
            match parse_value_at(chars, r1_pos + 1) {
                None => None,
                Some((v, j2)) => {
                    let ghost vv = v@;
                    let ghost acc_pairs = acc@->Obj_0;
                    let mut acc2 = acc;
                    let _ = acc2.obj_set(key, v);
                    proof {
                        assert(acc2@ == JsonVal::Obj(
                            JsonVal::pairs_store(acc_pairs, keyv, vv),
                        ));
                    }
                    let r3_pos = ws_to(chars, j2);
                    let ghost r3 = skip_ws(chars@.skip(j2 as int));
                    proof {
                        lemma_skip_ws_len(chars@.skip(j2 as int));
                        assert(r3 == chars@.skip(r3_pos as int));
                    }
                    if r3_pos >= chars.len() {
                        return None;
                    }
                    let c = chars[r3_pos];
                    proof {
                        assert(r3[0] == c);
                    }
                    if c == ',' {
                        proof {
                            assert(r3.drop_first() =~= chars@.skip(r3_pos + 1));
                            lemma_sm_fuel(
                                chars@.skip(r3_pos + 1),
                                (fuel - 1) as nat,
                                fuel_for(chars@.skip(r3_pos + 1)),
                                JsonVal::pairs_store(acc_pairs, keyv, vv),
                            );
                        }
                        parse_members_at(chars, r3_pos + 1, acc2)
                    } else if c == '}' {
                        proof {
                            assert(r3.drop_first() =~= chars@.skip(r3_pos + 1));
                        }
                        Some((acc2, r3_pos + 1))
                    } else {
                        None
                    }
                },
            }
        },
    }
}

/// Parses a whole JSON text: one value with nothing but whitespace around
/// it. Returns `None` exactly when the text is not valid JSON (as this codec
/// defines it).
pub fn parse(s: &str) -> (r: Option<JsonValue>)
    ensures
        match r {
            Some(v) => spec_parse(s@) == Some(v@),
            None => spec_parse(s@) is None,
        },
{
    let chars = str_to_chars(s);
    proof {
        assert(chars@.skip(0int) =~= s@);
    }
    match parse_value_at(&chars, 0) {
        None => None,
        Some((v, j)) => {
            let k = ws_to(&chars, j);
            proof {
                lemma_skip_ws_len(chars@.skip(j as int));
                assert(skip_ws(chars@.skip(j as int)) == chars@.skip(k as int));
            }
            if k == chars.len() {
                Some(v)
            } else {
                None
            }
        },
    }
}

// ---------------------------------------------------------------------------
// Round trip: parsing inverts printing
// ---------------------------------------------------------------------------
/// Decimal digits print and read back as themselves.
proof fn lemma_digit_round(m: nat)
    requires
        m < 10,
    ensures
        is_digit(digit_char(m)),
        digit_val(digit_char(m)) == m,
        (digit_char(m) == '0') == (m == 0),
{
}

/// Hexadecimal digits print and read back as themselves.
proof fn lemma_hex_round(m: nat)
    requires
        m < 16,
    ensures
        is_hex_digit(hex_char(m)),
        hex_val(hex_char(m)) == m,
{
}

/// The digit text of `n` is non-empty, all digits, and starts with `0` only
/// for `n == 0`.
proof fn lemma_digits_of_props(n: nat)
    ensures
        digits_of(n).len() >= 1,
        forall|i: int| 0 <= i < digits_of(n).len() ==> is_digit(#[trigger] digits_of(n)[i]),
        (digits_of(n)[0] == '0') == (n == 0),
    decreases n,
{
    if n < 10 {
        lemma_digit_round(n);
    } else {
        lemma_digits_of_props(n / 10);
        lemma_digit_round(n % 10);
        let d = digits_of(n);
        assert(d == digits_of(n / 10).push(digit_char(n % 10)));
        assert(d[0] == digits_of(n / 10)[0]);
        assert forall|i: int| 0 <= i < d.len() implies is_digit(#[trigger] d[i]) by {
            if i < d.len() - 1 {
                assert(d[i] == digits_of(n / 10)[i]);
            }
        }
    }
}

/// Reading the digit text of `n` gives `n` back.
proof fn lemma_dec_of_digits(n: nat)
    ensures
        dec_value(digits_of(n)) == n,
    decreases n,
{
    if n < 10 {
        lemma_digit_round(n);
        let d = digits_of(n);
        assert(d.drop_last() =~= Seq::empty());
        assert(dec_value(Seq::<char>::empty()) == 0);
        assert(d.last() == digit_char(n));
    } else {
        lemma_dec_of_digits(n / 10);
        lemma_digit_round(n % 10);
        let d = digits_of(n);
        assert(d.drop_last() =~= digits_of(n / 10));
        assert(d.last() == digit_char(n % 10));
    }
}

/// `take_digits` splits a digit run followed by a non-digit exactly there.
proof fn lemma_take_digits_exact(d: Seq<char>, rest: Seq<char>)
    requires
        forall|i: int| 0 <= i < d.len() ==> is_digit(#[trigger] d[i]),
        rest.len() == 0 || !is_digit(rest[0]),
    ensures
        take_digits(d + rest) == (d, rest),
    decreases d.len(),
{
    let s = d + rest;
    if d.len() == 0 {
        assert(s =~= rest);
        if rest.len() > 0 {
            assert(!is_digit(s[0]));
        }
        assert(take_digits(s).1 =~= rest);
        assert(take_digits(s).0 =~= d);
    } else {
        assert(s[0] == d[0]);
        assert(is_digit(s[0]));
        lemma_take_digits_exact(d.drop_first(), rest);
        assert(s.drop_first() =~= d.drop_first() + rest);
        assert(take_digits(s).0 =~= seq![s[0]] + d.drop_first());
        assert(take_digits(s).0 =~= d);
    }
}

/// Reading back the printed text of an integer gives the integer, whatever
/// safely follows it.
proof fn lemma_sn_int(i: i64, rest: Seq<char>)
    requires
        safe_rest(rest),
    ensures
        sp_number(int_print(i) + rest) == Some((JsonVal::Int(i), rest)),
{
    let s = int_print(i) + rest;
    if i >= 0 {
        let mag = i as nat;
        lemma_digits_of_props(mag);
        lemma_dec_of_digits(mag);
        assert(s[0] == digits_of(mag)[0]);
        assert(is_digit(s[0]));
        assert(s[0] != '-');
        lemma_take_digits_exact(digits_of(mag), rest);
        assert(s =~= digits_of(mag) + rest);
        let (ip, r1) = take_digits(s);
        assert(ip == digits_of(mag) && r1 == rest);
        assert(ip.len() > 1 ==> ip[0] != '0');
        if r1.len() > 0 {
            assert(!is_num_cont(r1[0]));
        }
        assert(dec_value(ip) == mag);
    } else {
        let mag = (-(i as int)) as nat;
        lemma_digits_of_props(mag);
        lemma_dec_of_digits(mag);
        assert(s[0] == '-');
        assert(s.drop_first() =~= digits_of(mag) + rest);
        lemma_take_digits_exact(digits_of(mag), rest);
        let (ip, r1) = take_digits(s.drop_first());
        assert(ip == digits_of(mag) && r1 == rest);
        assert(ip.len() > 1 ==> ip[0] != '0');
        if r1.len() > 0 {
            assert(!is_num_cont(r1[0]));
        }
        assert(dec_value(ip) == mag);
        assert(mag <= 0x8000_0000_0000_0000);
        assert((-(mag as int)) as i64 == i);
    }
}

/// Reading back an escaped string body, up to its closing quote.
#[verifier::rlimit(60)]
proof fn lemma_sb_print(sq: Seq<char>, rest: Seq<char>)
    ensures
        sp_string_body(str_print(sq) + seq!['"'] + rest) == Some((sq, rest)),
    decreases sq.len(),
{
    let s = str_print(sq) + seq!['"'] + rest;
    if sq.len() == 0 {
        assert(s =~= seq!['"'] + rest);
        assert(s[0] == '"');
        assert(s.drop_first() =~= rest);
        assert(sp_string_body(s) == Some((Seq::<char>::empty(), rest)));
    } else {
        let c = sq[0];
        let tail = sq.drop_first();
        lemma_sb_print(tail, rest);
        let inner = str_print(tail) + seq!['"'] + rest;
        assert(str_print(sq) == esc_char(c) + str_print(tail));
        if c == '"' {
            assert(s =~= seq!['\\', '"'] + inner);
            assert(s[0] == '\\' && s[1] == '"');
            assert(s.skip(2) =~= inner);
            assert(esc_of('"') == Some('"'));
            assert(sp_string_body(s) == Some((seq![c] + tail, rest)));
            assert(seq![c] + tail =~= sq);
        } else if c == '\\' {
            assert(s =~= seq!['\\', '\\'] + inner);
            assert(s[0] == '\\' && s[1] == '\\');
            assert(s.skip(2) =~= inner);
            assert(sp_string_body(s) == Some((seq![c] + tail, rest)));
            assert(seq![c] + tail =~= sq);
        } else if (c as u32) < 0x20 {
            let c32 = c as u32;
            lemma_hex_round((c32 / 16) as nat);
            lemma_hex_round((c32 % 16) as nat);
            assert(s =~= seq!['\\', 'u', '0', '0', hex_char((c32 / 16) as nat), hex_char(
                (c32 % 16) as nat,
            )] + inner);
            assert(s[0] == '\\' && s[1] == 'u');
            assert(s[2] == '0' && s[3] == '0');
            assert(s[4] == hex_char((c32 / 16) as nat) && s[5] == hex_char((c32 % 16) as nat));
            assert(hex_val(s[2]) == 0 && hex_val(s[3]) == 0);
            assert(is_hex_digit(s[2]) && is_hex_digit(s[3]) && is_hex_digit(s[4]) && is_hex_digit(
                s[5],
            ));
            let code = ((hex_val(s[2]) * 4096 + hex_val(s[3]) * 256 + hex_val(s[4]) * 16 + hex_val(
                s[5],
            )) as nat);
            assert(code == c32) by {
                assert(hex_val(s[4]) == (c32 / 16) as nat && hex_val(s[5]) == (c32 % 16) as nat);
            }
            assert(!(0xD800 <= code < 0xE000));
            assert(s.skip(6) =~= inner);
            vstd::utf8::char_u32_cast(c, c32);
            assert(code_char(code) == c);
            assert(sp_string_body(s) == Some((seq![c] + tail, rest)));
            assert(seq![c] + tail =~= sq);
        } else {
            assert(s =~= seq![c] + inner);
            assert(s[0] == c);
            assert(s[0] != '"' && s[0] != '\\' && (s[0] as u32) >= 0x20);
            assert(s.drop_first() =~= inner);
            assert(sp_string_body(s) == Some((seq![c] + tail, rest)));
            assert(seq![c] + tail =~= sq);
        }
    }
}

/// The first character of a printed value marks the start of a value: it is
/// never whitespace nor a delimiter.
proof fn lemma_print_first(v: JsonVal)
    requires
        printable(v),
    ensures
        print_val(v).len() > 0,
        !is_ws(print_val(v)[0]),
        print_val(v)[0] != ']' && print_val(v)[0] != '}' && print_val(v)[0] != ','
            && print_val(v)[0] != ':',
{
    match v {
        JsonVal::Int(i) => {
            if i >= 0 {
                lemma_digits_of_props(i as nat);
                assert(print_val(v)[0] == digits_of(i as nat)[0]);
            } else {
                assert(print_val(v)[0] == '-');
            }
        },
        JsonVal::Num(lit) => {
            let (neg, ip, fd, ex) = choose|neg: bool, ip: Seq<char>, fd: Option<Seq<char>>, ex:
                Option<(char, Option<char>, Seq<char>)>|
                num_components_ok(lit, neg, ip, fd, ex) && num_value_of(neg, ip, fd, ex)
                    == JsonVal::Num(lit);
            if neg {
                assert(lit[0] == '-');
            } else {
                assert(lit[0] == ip[0]);
                assert(is_digit(lit[0]));
            }
        },
        _ => {},
    }
}

/// Storing pairs with fresh, distinct keys appends them in order.
proof fn lemma_store_all_fresh(acc: Seq<(Seq<char>, JsonVal)>, pairs: Seq<(Seq<char>, JsonVal)>)
    requires
        forall|i: int, j: int|
            0 <= i < j < pairs.len() ==> (#[trigger] pairs[i].0) != (#[trigger] pairs[j].0),
        forall|i: int, j: int|
            0 <= i < acc.len() && 0 <= j < pairs.len() ==> (#[trigger] acc[i].0) != (
            #[trigger] pairs[j].0),
    ensures
        store_all(acc, pairs) == acc + pairs,
    decreases pairs.len(),
{
    if pairs.len() == 0 {
        assert(store_all(acc, pairs) =~= acc + pairs);
    } else {
        let key = pairs[0].0;
        let val = pairs[0].1;
        assert(forall|i: int| 0 <= i < acc.len() ==> (#[trigger] acc[i].0) != key);
        crate::json::lemma_pairs_store_append(acc, key, val);
        let acc1 = JsonVal::pairs_store(acc, key, val);
        assert(acc1 == acc.push((key, val)));
        assert forall|i: int, j: int|
            0 <= i < acc1.len() && 0 <= j < pairs.drop_first().len() implies (
        #[trigger] acc1[i].0) != (#[trigger] pairs.drop_first()[j].0) by {
            assert(pairs.drop_first()[j] == pairs[j + 1]);
            if i < acc.len() {
                assert(acc1[i] == acc[i]);
            } else {
                assert(acc1[i] == (key, val));
            }
        }
        lemma_store_all_fresh(acc1, pairs.drop_first());
        assert(acc1 + pairs.drop_first() =~= acc + pairs);
    }
}

/// What `sp_members` accumulates: each pair stored over the previous ones.
pub open spec fn store_all(
    acc: Seq<(Seq<char>, JsonVal)>,
    pairs: Seq<(Seq<char>, JsonVal)>,
) -> Seq<(Seq<char>, JsonVal)>
    decreases pairs.len(),
{
    if pairs.len() == 0 {
        acc
    } else {
        store_all(JsonVal::pairs_store(acc, pairs[0].0, pairs[0].1), pairs.drop_first())
    }
}


/// The pieces a JSON number literal is assembled from: an optional minus,
/// an integer part, an optional fraction (dot and digits) and an optional
/// exponent (marker, optional sign, digits).
pub open spec fn num_components_ok(
    lit: Seq<char>,
    neg: bool,
    ip: Seq<char>,
    fd: Option<Seq<char>>,
    ex: Option<(char, Option<char>, Seq<char>)>,
) -> bool {
    &&& ip.len() >= 1
    &&& forall|i: int| 0 <= i < ip.len() ==> is_digit(#[trigger] ip[i])
    &&& ip.len() > 1 ==> ip[0] != '0'
    &&& match fd {
        Some(d) => d.len() >= 1 && forall|i: int| 0 <= i < d.len() ==> is_digit(#[trigger] d[i]),
        None => true,
    }
    &&& match ex {
        Some((e, sgn, d)) => {
            &&& (e == 'e' || e == 'E')
            &&& match sgn {
                Some(c) => c == '+' || c == '-',
                None => true,
            }
            &&& d.len() >= 1
            &&& forall|i: int| 0 <= i < d.len() ==> is_digit(#[trigger] d[i])
        },
        None => true,
    }
    &&& lit == num_assemble(neg, ip, fd, ex)
}

pub open spec fn num_assemble(
    neg: bool,
    ip: Seq<char>,
    fd: Option<Seq<char>>,
    ex: Option<(char, Option<char>, Seq<char>)>,
) -> Seq<char> {
    (if neg {
        seq!['-']
    } else {
        Seq::<char>::empty()
    }) + ip + (match fd {
        Some(d) => seq!['.'] + d,
        None => Seq::<char>::empty(),
    }) + (match ex {
        Some((e, sgn, d)) => seq![e] + (match sgn {
            Some(c) => seq![c],
            None => Seq::<char>::empty(),
        }) + d,
        None => Seq::<char>::empty(),
    })
}

/// The node a number with these pieces parses to.
pub open spec fn num_value_of(
    neg: bool,
    ip: Seq<char>,
    fd: Option<Seq<char>>,
    ex: Option<(char, Option<char>, Seq<char>)>,
) -> JsonVal {
    if fd is None && ex is None {
        let mag = dec_value(ip);
        if !neg && mag <= i64::MAX {
            JsonVal::Int(mag as i64)
        } else if neg && mag <= 0x8000_0000_0000_0000 {
            JsonVal::Int((-(mag as int)) as i64)
        } else {
            JsonVal::Num(num_assemble(neg, ip, fd, ex))
        }
    } else {
        JsonVal::Num(num_assemble(neg, ip, fd, ex))
    }
}

/// A number literal that stands for itself: its pieces are well formed and
/// it is not an `i64` integer in disguise.
pub open spec fn num_wf(lit: Seq<char>) -> bool {
    exists|neg: bool, ip: Seq<char>, fd: Option<Seq<char>>, ex: Option<
        (char, Option<char>, Seq<char>),
    >|
        num_components_ok(lit, neg, ip, fd, ex) && num_value_of(neg, ip, fd, ex) == JsonVal::Num(
            lit,
        )
}

/// A number assembled from well-formed pieces parses back to exactly those
/// pieces, whatever safely follows it.
#[verifier::rlimit(100)]
pub proof fn lemma_sn_of_components(
    neg: bool,
    ip: Seq<char>,
    fd: Option<Seq<char>>,
    ex: Option<(char, Option<char>, Seq<char>)>,
    rest: Seq<char>,
)
    requires
        num_components_ok(num_assemble(neg, ip, fd, ex), neg, ip, fd, ex),
        safe_rest(rest),
    ensures
        sp_number(num_assemble(neg, ip, fd, ex) + rest) == Some(
            (num_value_of(neg, ip, fd, ex), rest),
        ),
{
    let lit = num_assemble(neg, ip, fd, ex);
    let s = lit + rest;
    let frac_seq: Seq<char> = match fd {
        Some(d) => seq!['.'] + d,
        None => Seq::<char>::empty(),
    };
    let exp_seq: Seq<char> = match ex {
        Some((e, sgn, d)) => seq![e] + (match sgn {
            Some(c) => seq![c],
            None => Seq::<char>::empty(),
        }) + d,
        None => Seq::<char>::empty(),
    };
    let after_ip = frac_seq + exp_seq + rest;
    let after_frac = exp_seq + rest;
    // sign
    let s1 = if neg {
        s.drop_first()
    } else {
        s
    };
    if neg {
        assert(s[0] == '-');
        assert(s1 =~= ip + after_ip);
    } else {
        assert(s[0] == ip[0]);
        assert(is_digit(s[0]));
        assert(s[0] != '-');
        assert(s1 =~= ip + after_ip);
    }
    // integer part: the digit run stops exactly at the end of ip
    assert(after_ip.len() > 0 ==> !is_digit(after_ip[0])) by {
        if after_ip.len() > 0 {
            if fd is Some {
                assert(after_ip[0] == '.');
            } else if ex is Some {
                assert(after_ip[0] == (ex->0).0);
            } else {
                assert(after_ip =~= rest);
            }
        }
    }
    lemma_take_digits_exact(ip, after_ip);
    assert(take_digits(s1) == (ip, after_ip));
    // fraction
    match fd {
        Some(d) => {
            assert(after_ip[0] == '.');
            assert(after_ip.drop_first() =~= d + after_frac);
            assert(after_frac.len() > 0 ==> !is_digit(after_frac[0])) by {
                if after_frac.len() > 0 {
                    if ex is Some {
                        assert(after_frac[0] == (ex->0).0);
                    } else {
                        assert(after_frac =~= rest);
                    }
                }
            }
            lemma_take_digits_exact(d, after_frac);
            assert(take_digits(after_ip.drop_first()) == (d, after_frac));
        },
        None => {
            assert(after_ip =~= after_frac);
            assert(after_ip.len() > 0 ==> after_ip[0] != '.');
        },
    }
    // exponent
    match ex {
        Some((e, sgn, d)) => {
            assert(after_frac[0] == e);
            match sgn {
                Some(c) => {
                    assert(after_frac.len() > 1 && after_frac[1] == c);
                    assert(s2_skip(after_frac, 2) =~= d + rest);
                    lemma_take_digits_exact(d, rest);
                    assert(seq![after_frac[0], after_frac[1]] + d =~= exp_seq);
                },
                None => {
                    assert(after_frac.len() > 1 ==> after_frac[1] == d[0]);
                    assert(s2_skip(after_frac, 1) =~= d + rest);
                    lemma_take_digits_exact(d, rest);
                    assert(seq![after_frac[0]] + d =~= exp_seq);
                },
            }
            let sign_seq: Seq<char> = if neg {
                seq!['-']
            } else {
                Seq::<char>::empty()
            };
            assert(sign_seq + ip + frac_seq + exp_seq =~= lit);
        },
        None => {
            assert(after_frac =~= rest);
            assert(rest.len() > 0 ==> rest[0] != 'e' && rest[0] != 'E');
        },
    }
}

/// Reading back a printed scalar (null, boolean, integer or string).
#[verifier::rlimit(100)]
proof fn lemma_rt_scalar(v: JsonVal, rest: Seq<char>, fuel: nat)
    requires
        printable(v),
        !(v is Arr),
        !(v is Obj),
        safe_rest(rest),
        fuel >= 1,
    ensures
        sp_value(print_val(v) + rest, fuel) == Some((v, rest)),
{
    let s = print_val(v) + rest;
    lemma_print_first(v);
    assert(s[0] == print_val(v)[0]);
    assert(skip_ws(s) == s);
    match v {
        JsonVal::Null => {
            assert(s[0] == 'n' && s[1] == 'u' && s[2] == 'l' && s[3] == 'l');
            assert(s.skip(4) =~= rest);
        },
        JsonVal::Bool(b) => {
            if b {
                assert(s[0] == 't' && s[1] == 'r' && s[2] == 'u' && s[3] == 'e');
                assert(s.skip(4) =~= rest);
            } else {
                assert(s[0] == 'f' && s[1] == 'a' && s[2] == 'l' && s[3] == 's' && s[4] == 'e');
                assert(s.skip(5) =~= rest);
            }
        },
        JsonVal::Int(i) => {
            lemma_sn_int(i, rest);
            if i >= 0 {
                lemma_digits_of_props(i as nat);
                assert(is_digit(s[0]));
            } else {
                assert(s[0] == '-');
            }
            assert(s[0] != 'n' && s[0] != 't' && s[0] != 'f' && s[0] != '"' && s[0] != '['
                && s[0] != '{');
            assert(sp_value(s, fuel) == sp_number(s));
        },
        JsonVal::Num(lit) => {
            let (neg, ip, fd, ex) = choose|neg: bool, ip: Seq<char>, fd: Option<Seq<char>>, ex:
                Option<(char, Option<char>, Seq<char>)>|
                num_components_ok(lit, neg, ip, fd, ex) && num_value_of(neg, ip, fd, ex)
                    == JsonVal::Num(lit);
            lemma_sn_of_components(neg, ip, fd, ex, rest);
            if neg {
                assert(s[0] == '-');
            } else {
                assert(s[0] == ip[0]);
                assert(is_digit(s[0]));
            }
            assert(s[0] != 'n' && s[0] != 't' && s[0] != 'f' && s[0] != '"' && s[0] != '['
                && s[0] != '{');
            assert(sp_value(s, fuel) == sp_number(s));
        },
        JsonVal::Str(sq) => {
            assert(s[0] == '"');
            assert(s.drop_first() =~= str_print(sq) + seq!['"'] + rest);
            lemma_sb_print(sq, rest);
        },
        _ => {},
    }
}

/// Reading back a printed value, whatever safely follows it.
#[verifier::rlimit(100)]
proof fn lemma_rt_value(v: JsonVal, rest: Seq<char>, fuel: nat)
    requires
        printable(v),
        safe_rest(rest),
        fuel >= 2 * (print_val(v) + rest).len() + 1,
    ensures
        sp_value(print_val(v) + rest, fuel) == Some((v, rest)),
    decreases v, 0nat,
{
    let s = print_val(v) + rest;
    lemma_print_first(v);
    assert(s[0] == print_val(v)[0]);
    assert(skip_ws(s) == s);
    match v {
        JsonVal::Arr(es) => {
            assert(s[0] == '[');
            let u0 = s.drop_first();
            if es.len() == 0 {
                assert(print_elems(es) == Seq::<char>::empty());
                assert(u0 =~= seq![']'] + rest);
                assert(u0[0] == ']');
                assert(skip_ws(u0) == u0);
                assert(u0.drop_first() =~= rest);
                assert(es =~= Seq::<JsonVal>::empty());
            } else {
                assert(printable(es[0]));
                lemma_print_first(es[0]);
                assert(print_elems(es)[0] == print_val(es[0])[0]);
                assert(u0 =~= print_elems(es) + seq![']'] + rest);
                assert(u0[0] == print_val(es[0])[0]);
                assert(skip_ws(u0) == u0);
                assert(u0[0] != ']');
                lemma_rt_elems(es, rest, (fuel - 1) as nat);
                assert(sp_elems(u0, (fuel - 1) as nat) == Some((es, rest)));
            }
        },
        JsonVal::Obj(ps) => {
            assert(s[0] == '{');
            let u0 = s.drop_first();
            if ps.len() == 0 {
                assert(print_members(ps) == Seq::<char>::empty());
                assert(u0 =~= seq!['}'] + rest);
                assert(u0[0] == '}');
                assert(skip_ws(u0) == u0);
                assert(u0.drop_first() =~= rest);
                assert(ps =~= Seq::<(Seq<char>, JsonVal)>::empty());
            } else {
                assert(print_members(ps)[0] == quoted_print(ps[0].0)[0]);
                assert(quoted_print(ps[0].0)[0] == '"');
                assert(u0 =~= print_members(ps) + seq!['}'] + rest);
                assert(u0[0] == '"');
                assert(skip_ws(u0) == u0);
                assert(u0[0] != '}');
                lemma_rt_members(ps, rest, (fuel - 1) as nat, Seq::empty());
                assert(sp_members(u0, (fuel - 1) as nat, Seq::empty()) == Some(
                    (store_all(Seq::empty(), ps), rest),
                ));
                lemma_store_all_fresh(Seq::empty(), ps);
                assert(Seq::<(Seq<char>, JsonVal)>::empty() + ps =~= ps);
            }
        },
        _ => {
            lemma_rt_scalar(v, rest, fuel);
        },
    }
}

/// Reading back a printed element list with its closing bracket.
#[verifier::rlimit(100)]
proof fn lemma_rt_elems(es: Seq<JsonVal>, rest: Seq<char>, fuel: nat)
    requires
        es.len() >= 1,
        forall|i: int| 0 <= i < es.len() ==> printable(#[trigger] es[i]),
        safe_rest(rest),
        fuel >= 2 * (print_elems(es) + seq![']'] + rest).len() + 2,
    ensures
        sp_elems(print_elems(es) + seq![']'] + rest, fuel) == Some((es, rest)),
    decreases es, 1nat,
{
    let w = print_elems(es) + seq![']'] + rest;
    assert(printable(es[0]));
    lemma_print_first(es[0]);
    if es.len() == 1 {
        let after = seq![']'] + rest;
        assert(w =~= print_val(es[0]) + after);
        lemma_rt_value(es[0], after, (fuel - 1) as nat);
        assert(sp_value(w, (fuel - 1) as nat) == Some((es[0], after)));
        assert(skip_ws(after) == after);
        assert(after[0] == ']');
        assert(after.drop_first() =~= rest);
        assert(seq![es[0]] =~= es);
    } else {
        let w2 = print_elems(es.drop_first()) + seq![']'] + rest;
        let after = seq![','] + w2;
        assert(print_elems(es) == print_val(es[0]) + seq![','] + print_elems(es.drop_first()));
        assert(w =~= print_val(es[0]) + after);
        lemma_rt_value(es[0], after, (fuel - 1) as nat);
        assert(sp_value(w, (fuel - 1) as nat) == Some((es[0], after)));
        assert(skip_ws(after) == after);
        assert(after[0] == ',');
        assert(after.drop_first() =~= w2);
        assert(forall|i: int|
            0 <= i < es.drop_first().len() ==> printable(#[trigger] es.drop_first()[i]));
        lemma_rt_elems(es.drop_first(), rest, (fuel - 1) as nat);
        assert(sp_elems(w2, (fuel - 1) as nat) == Some((es.drop_first(), rest)));
        assert(seq![es[0]] + es.drop_first() =~= es);
    }
}

/// Reading back a single printed member with its closing brace.
#[verifier::rlimit(100)]
#[verifier::spinoff_prover]
proof fn lemma_rt_members_single(
    ps: Seq<(Seq<char>, JsonVal)>,
    rest: Seq<char>,
    fuel: nat,
    acc: Seq<(Seq<char>, JsonVal)>,
)
    requires
        ps.len() == 1,
        printable(ps[0].1),
        safe_rest(rest),
        fuel >= 2 * (print_members(ps) + seq!['}'] + rest).len() + 2,
    ensures
        sp_members(print_members(ps) + seq!['}'] + rest, fuel, acc) == Some(
            (store_all(acc, ps), rest),
        ),
    decreases ps, 1nat,
{
    let w = print_members(ps) + seq!['}'] + rest;
    let k0 = ps[0].0;
    let v0 = ps[0].1;
    lemma_print_first(v0);
    assert(w[0] == quoted_print(k0)[0]);
    assert(w[0] == '"');
    assert(skip_ws(w) == w);
    let after_key = seq![':'] + print_val(v0) + seq!['}'] + rest;
    assert(print_members(ps) == quoted_print(k0) + seq![':'] + print_val(v0));
    assert(w.drop_first() =~= str_print(k0) + seq!['"'] + after_key);
    lemma_sb_print(k0, after_key);
    assert(sp_string_body(w.drop_first()) == Some((k0, after_key)));
    assert(skip_ws(after_key) == after_key);
    assert(after_key[0] == ':');
    let after_colon = print_val(v0) + (seq!['}'] + rest);
    assert(after_key.drop_first() =~= after_colon);
    lemma_rt_value(v0, seq!['}'] + rest, (fuel - 1) as nat);
    assert(sp_value(after_colon, (fuel - 1) as nat) == Some((v0, seq!['}'] + rest)));
    let acc1 = JsonVal::pairs_store(acc, k0, v0);
    assert(skip_ws(seq!['}'] + rest) == seq!['}'] + rest);
    assert((seq!['}'] + rest)[0] == '}');
    assert((seq!['}'] + rest).drop_first() =~= rest);
    assert(store_all(acc, ps) == store_all(acc1, ps.drop_first()));
    assert(ps.drop_first().len() == 0);
}

/// Reading back a printed member list with its closing brace accumulates
/// exactly the printed pairs.
#[verifier::rlimit(100)]
#[verifier::spinoff_prover]
proof fn lemma_rt_members(
    ps: Seq<(Seq<char>, JsonVal)>,
    rest: Seq<char>,
    fuel: nat,
    acc: Seq<(Seq<char>, JsonVal)>,
)
    requires
        ps.len() >= 1,
        forall|i: int| 0 <= i < ps.len() ==> printable((#[trigger] ps[i]).1),
        safe_rest(rest),
        fuel >= 2 * (print_members(ps) + seq!['}'] + rest).len() + 2,
    ensures
        sp_members(print_members(ps) + seq!['}'] + rest, fuel, acc) == Some(
            (store_all(acc, ps), rest),
        ),
    decreases ps, 2nat,
{
    if ps.len() == 1 {
        lemma_rt_members_single(ps, rest, fuel, acc);
    } else {
        let w = print_members(ps) + seq!['}'] + rest;
        let k0 = ps[0].0;
        let v0 = ps[0].1;
        assert(printable(v0));
        lemma_print_first(v0);
        assert(w[0] == quoted_print(k0)[0]);
        assert(w[0] == '"');
        assert(skip_ws(w) == w);
        let w2 = print_members(ps.drop_first()) + seq!['}'] + rest;
        let after_val = seq![','] + w2;
        assert(print_members(ps) == quoted_print(k0) + seq![':'] + print_val(v0) + seq![',']
            + print_members(ps.drop_first()));
        let after_key = seq![':'] + print_val(v0) + after_val;
        assert(w.drop_first() =~= str_print(k0) + seq!['"'] + after_key);
        lemma_sb_print(k0, after_key);
        assert(sp_string_body(w.drop_first()) == Some((k0, after_key)));
        assert(skip_ws(after_key) == after_key);
        assert(after_key[0] == ':');
        let after_colon = print_val(v0) + after_val;
        assert(after_key.drop_first() =~= after_colon);
        lemma_rt_value(v0, after_val, (fuel - 1) as nat);
        assert(sp_value(after_colon, (fuel - 1) as nat) == Some((v0, after_val)));
        let acc1 = JsonVal::pairs_store(acc, k0, v0);
        assert(skip_ws(after_val) == after_val);
        assert(after_val[0] == ',');
        assert(after_val.drop_first() =~= w2);
        assert(forall|i: int|
            0 <= i < ps.drop_first().len() ==> printable((#[trigger] ps.drop_first()[i]).1));
        lemma_rt_members(ps.drop_first(), rest, (fuel - 1) as nat, acc1);
        assert(sp_members(w2, (fuel - 1) as nat, acc1) == Some(
            (store_all(acc1, ps.drop_first()), rest),
        ));
        assert(store_all(acc, ps) == store_all(acc1, ps.drop_first()));
    }
}

/// Everything the builders construct is printable.
pub proof fn lemma_encodable_printable(v: JsonVal)
    requires
        encodable(v),
    ensures
        printable(v),
    decreases v,
{
    match v {
        JsonVal::Arr(elems) => {
            assert forall|i: int| 0 <= i < elems.len() implies printable(#[trigger] elems[i]) by {
                lemma_encodable_printable(elems[i]);
            }
        },
        JsonVal::Obj(pairs) => {
            assert forall|i: int| 0 <= i < pairs.len() implies printable(
                (#[trigger] pairs[i]).1,
            ) by {
                lemma_encodable_printable(pairs[i].1);
            }
        },
        _ => {},
    }
}

/// Parsing inverts printing: every tree the scalar, array and object
/// builders can construct comes back unchanged from its own printed text.
pub proof fn lemma_round_trip(v: JsonVal)
    requires
        encodable(v),
    ensures
        spec_parse(print_val(v)) == Some(v),
{
    lemma_encodable_printable(v);
    lemma_printable_round_trip(v);
}

/// Parsing inverts printing for every printable tree — in particular for
/// every tree the parser itself hands out.
pub proof fn lemma_printable_round_trip(v: JsonVal)
    requires
        printable(v),
    ensures
        spec_parse(print_val(v)) == Some(v),
{
    let s = print_val(v);
    assert(s + Seq::<char>::empty() =~= s);
    lemma_rt_value(v, Seq::empty(), fuel_for(s));
    assert(sp_value(s, fuel_for(s)) == Some((v, Seq::<char>::empty())));
    assert(skip_ws(Seq::<char>::empty()).len() == 0);
}

/// Storing a pair into a list with unique keys and printable values keeps
/// both properties.
proof fn lemma_pairs_store_printable(
    pairs: Seq<(Seq<char>, JsonVal)>,
    key: Seq<char>,
    val: JsonVal,
)
    requires
        forall|i: int, j: int|
            0 <= i < j < pairs.len() ==> (#[trigger] pairs[i].0) != (#[trigger] pairs[j].0),
        forall|i: int| 0 <= i < pairs.len() ==> printable((#[trigger] pairs[i]).1),
        printable(val),
    ensures
        ({
            let stored = JsonVal::pairs_store(pairs, key, val);
            &&& forall|i: int, j: int|
                0 <= i < j < stored.len() ==> (#[trigger] stored[i].0) != (#[trigger] stored[j].0)
            &&& forall|i: int| 0 <= i < stored.len() ==> printable((#[trigger] stored[i]).1)
        }),
{
    let stored = JsonVal::pairs_store(pairs, key, val);
    if exists|m: int| 0 <= m < pairs.len() && (#[trigger] pairs[m].0) == key {
        let i = crate::json::find_first_key(pairs, key);
        crate::json::lemma_pairs_store_at(pairs, key, val, i);
        assert(stored == pairs.update(i, (key, val)));
        assert forall|a: int, b: int| 0 <= a < b < stored.len() implies (#[trigger] stored[a].0)
            != (#[trigger] stored[b].0) by {
            assert(stored[a].0 == pairs[a].0 && stored[b].0 == pairs[b].0);
        }
        assert forall|a: int| 0 <= a < stored.len() implies printable(
            (#[trigger] stored[a]).1,
        ) by {
            if a != i {
                assert(stored[a] == pairs[a]);
            }
        }
    } else {
        assert(forall|j: int| 0 <= j < pairs.len() ==> (#[trigger] pairs[j].0) != key);
        crate::json::lemma_pairs_store_append(pairs, key, val);
        assert(stored == pairs.push((key, val)));
        assert forall|a: int| 0 <= a < stored.len() implies printable(
            (#[trigger] stored[a]).1,
        ) by {
            if a < pairs.len() {
                assert(stored[a] == pairs[a]);
            }
        }
    }
}

/// Whatever number the parser reads stands for itself when printed back.
#[verifier::rlimit(100)]
proof fn lemma_sn_printable(s: Seq<char>)
    ensures
        match sp_number(s) {
            Some((v, r)) => printable(v),
            None => true,
        },
{
    let (neg, s1) = if s.len() > 0 && s[0] == '-' {
        (true, s.drop_first())
    } else {
        (false, s)
    };
    lemma_take_digits(s1);
    let (ip, r1) = take_digits(s1);
    if ip.len() == 0 || (ip.len() > 1 && ip[0] == '0') {
    } else {
        let (frac, r2) = if r1.len() > 0 && r1[0] == '.' {
            let (fdd, rf) = take_digits(r1.drop_first());
            if fdd.len() == 0 {
                (None::<Seq<char>>, r1)
            } else {
                (Some(seq!['.'] + fdd), rf)
            }
        } else {
            (None::<Seq<char>>, r1)
        };
        if r1.len() > 0 && r1[0] == '.' {
            lemma_take_digits(r1.drop_first());
        }
        if r1.len() > 0 && r1[0] == '.' && frac is None {
        } else {
            let (expp, r3) = if r2.len() > 0 && (r2[0] == 'e' || r2[0] == 'E') {
                let (sgn, re) = if r2.len() > 1 && (r2[1] == '+' || r2[1] == '-') {
                    (seq![r2[0], r2[1]], s2_skip(r2, 2))
                } else {
                    (seq![r2[0]], s2_skip(r2, 1))
                };
                let (ed, rx) = take_digits(re);
                if ed.len() == 0 {
                    (None::<Seq<char>>, r2)
                } else {
                    (Some(sgn + ed), rx)
                }
            } else {
                (None::<Seq<char>>, r2)
            };
            if r2.len() > 0 && (r2[0] == 'e' || r2[0] == 'E') {
                if r2.len() > 1 && (r2[1] == '+' || r2[1] == '-') {
                    lemma_take_digits(s2_skip(r2, 2));
                } else {
                    lemma_take_digits(s2_skip(r2, 1));
                }
            }
            if r2.len() > 0 && (r2[0] == 'e' || r2[0] == 'E') && expp is None {
            } else {
                let sign_seq: Seq<char> = if neg {
                    seq!['-']
                } else {
                    Seq::empty()
                };
                let lit = sign_seq + ip + spec_or_empty(frac) + spec_or_empty(expp);
                // the components the literal was assembled from
                let fd_c: Option<Seq<char>> = match frac {
                    Some(_) => Some(take_digits(r1.drop_first()).0),
                    None => None,
                };
                let ex_c: Option<(char, Option<char>, Seq<char>)> = match expp {
                    Some(_) => {
                        if r2.len() > 1 && (r2[1] == '+' || r2[1] == '-') {
                            Some((r2[0], Some(r2[1]), take_digits(s2_skip(r2, 2)).0))
                        } else {
                            Some((r2[0], None, take_digits(s2_skip(r2, 1)).0))
                        }
                    },
                    None => None,
                };
                assert(lit =~= num_assemble(neg, ip, fd_c, ex_c));
                assert(num_components_ok(lit, neg, ip, fd_c, ex_c));
                if frac is None && expp is None {
                    let mag = dec_value(ip);
                    if !neg && mag <= i64::MAX {
                    } else if neg && mag <= 0x8000_0000_0000_0000 {
                    } else {
                        assert(num_value_of(neg, ip, fd_c, ex_c) == JsonVal::Num(lit));
                        assert(num_wf(lit));
                    }
                } else {
                    assert(num_value_of(neg, ip, fd_c, ex_c) == JsonVal::Num(lit));
                    assert(num_wf(lit));
                }
            }
        }
    }
}

/// Every value the parser hands out is printable: its numbers stand for
/// themselves and its object keys are unique.
proof fn lemma_sv_printable(s: Seq<char>, fuel: nat)
    ensures
        match sp_value(s, fuel) {
            Some((v, r)) => printable(v),
            None => true,
        },
    decreases fuel, 0nat,
{
    if fuel > 0 {
        let t = skip_ws(s);
        if t.len() > 0 {
            if t[0] == '[' {
                let u = skip_ws(t.drop_first());
                if !(u.len() > 0 && u[0] == ']') {
                    lemma_se_printable(u, (fuel - 1) as nat);
                }
            } else if t[0] == '{' {
                let u = skip_ws(t.drop_first());
                if !(u.len() > 0 && u[0] == '}') {
                    lemma_sm_printable(u, (fuel - 1) as nat, Seq::empty());
                }
            } else if t[0] == '-' || is_digit(t[0]) {
                if t[0] != 'n' && t[0] != 't' && t[0] != 'f' && t[0] != '"' {
                    lemma_sn_printable(t);
                }
            }
        }
    }
}

proof fn lemma_se_printable(s: Seq<char>, fuel: nat)
    ensures
        match sp_elems(s, fuel) {
            Some((vs, r)) => forall|i: int| 0 <= i < vs.len() ==> printable(#[trigger] vs[i]),
            None => true,
        },
    decreases fuel, 1nat,
{
    if fuel > 0 {
        lemma_sv_printable(s, (fuel - 1) as nat);
        match sp_value(s, (fuel - 1) as nat) {
            None => {},
            Some((v, r)) => {
                let r1 = skip_ws(r);
                if r1.len() > 0 && r1[0] == ',' {
                    lemma_se_printable(r1.drop_first(), (fuel - 1) as nat);
                    match sp_elems(r1.drop_first(), (fuel - 1) as nat) {
                        None => {},
                        Some((vs, r2)) => {
                            assert forall|i: int|
                                0 <= i < (seq![v] + vs).len() implies printable(
                                #[trigger] (seq![v] + vs)[i],
                            ) by {
                                if i > 0 {
                                    assert((seq![v] + vs)[i] == vs[i - 1]);
                                }
                            }
                        },
                    }
                }
            },
        }
    }
}

proof fn lemma_sm_printable(s: Seq<char>, fuel: nat, acc: Seq<(Seq<char>, JsonVal)>)
    requires
        forall|i: int, j: int|
            0 <= i < j < acc.len() ==> (#[trigger] acc[i].0) != (#[trigger] acc[j].0),
        forall|i: int| 0 <= i < acc.len() ==> printable((#[trigger] acc[i]).1),
    ensures
        match sp_members(s, fuel, acc) {
            Some((ps, r)) => {
                &&& forall|i: int, j: int|
                    0 <= i < j < ps.len() ==> (#[trigger] ps[i].0) != (#[trigger] ps[j].0)
                &&& forall|i: int| 0 <= i < ps.len() ==> printable((#[trigger] ps[i]).1)
            },
            None => true,
        },
    decreases fuel, 1nat,
{
    if fuel > 0 {
        let t = skip_ws(s);
        if t.len() > 0 && t[0] == '"' {
            match sp_string_body(t.drop_first()) {
                None => {},
                Some((key, r)) => {
                    let r1 = skip_ws(r);
                    if r1.len() > 0 && r1[0] == ':' {
                        lemma_sv_printable(r1.drop_first(), (fuel - 1) as nat);
                        match sp_value(r1.drop_first(), (fuel - 1) as nat) {
                            None => {},
                            Some((v, r2)) => {
                                let acc1 = JsonVal::pairs_store(acc, key, v);
                                lemma_pairs_store_printable(acc, key, v);
                                let r3 = skip_ws(r2);
                                if r3.len() > 0 && r3[0] == ',' {
                                    lemma_sm_printable(r3.drop_first(), (fuel - 1) as nat, acc1);
                                }
                            },
                        }
                    }
                },
            }
        }
    }
}

/// Whatever text parses, the parsed tree's own printed text parses back to
/// the same tree: serialization loses nothing the parser ever produces.
pub proof fn lemma_parse_round_trip(s: Seq<char>)
    requires
        spec_parse(s) is Some,
    ensures
        spec_parse(print_val(spec_parse(s)->0)) == Some(spec_parse(s)->0),
{
    lemma_sv_printable(s, fuel_for(s));
    lemma_printable_round_trip(spec_parse(s)->0);
}

} // verus!
