//! Wire format of the chat protocol.
//!
//! Every payload travelling between client and server is a JSON envelope
//!
//! ```text
//! { "messageType": "users" | "register" | "message",
//!   "dataArray":   [string, ...] | null,
//!   "data":        string | null }
//! ```
//!
//! where the kind tag selects which payload field is meaningful: a roster
//! snapshot (`users`) carries the name list in `dataArray`, while `register`
//! and `message` carry a single string in `data`.  A `message` payload is in
//! turn a JSON object `{"from": string, "message": string}`.
//!
//! This module defines the canonical textual form of those objects as spec
//! functions, and verified encoders and decoders against them.  The decoder
//! accepts exactly the canonical form and returns `None` on anything else, so
//! a malformed event can always be dropped instead of tearing the client down.

use vstd::prelude::*;

use crate::text::str_to_chars;
use crate::text::chars_to_string;

verus! {

// ---------------------------------------------------------------------------
// String escaping
// ---------------------------------------------------------------------------

/// Lower-case hexadecimal digit for a value below 16.
pub open spec fn hex_char(v: int) -> char {
    if v == 0 { '0' } else if v == 1 { '1' } else if v == 2 { '2' }
    else if v == 3 { '3' } else if v == 4 { '4' } else if v == 5 { '5' }
    else if v == 6 { '6' } else if v == 7 { '7' } else if v == 8 { '8' }
    else if v == 9 { '9' } else if v == 10 { 'a' } else if v == 11 { 'b' }
    else if v == 12 { 'c' } else if v == 13 { 'd' } else if v == 14 { 'e' }
    else { 'f' }
}

/// Canonical escape sequence of one character inside a JSON string literal:
/// quote and backslash get a backslash, the named control characters their
/// short forms, the remaining control characters a `\u00XX` form, and every
/// other character stands for itself.
pub open spec fn esc_char(c: char) -> Seq<char> {
    if c == '"' { seq!['\\', '"'] }
    else if c == '\\' { seq!['\\', '\\'] }
    else if c == '\u{8}' { seq!['\\', 'b'] }
    else if c == '\t' { seq!['\\', 't'] }
    else if c == '\n' { seq!['\\', 'n'] }
    else if c == '\u{c}' { seq!['\\', 'f'] }
    else if c == '\r' { seq!['\\', 'r'] }
    else if (c as u32) < 0x20 {
        seq!['\\', 'u', '0', '0', hex_char((c as u32) as int / 16), hex_char((c as u32) as int % 16)]
    }
    else { seq![c] }
}

/// Escaped form of a whole string body.
pub open spec fn esc(s: Seq<char>) -> Seq<char>
    decreases s.len(),
{
    if s.len() == 0 {
        Seq::empty()
    } else {
        esc_char(s[0]) + esc(s.skip(1))
    }
}

/// A JSON string literal: the escaped body between double quotes.
pub open spec fn quoted(s: Seq<char>) -> Seq<char> {
    seq!['"'] + esc(s) + seq!['"']
}

/// Escaping distributes over concatenation.
pub proof fn lemma_esc_concat(a: Seq<char>, b: Seq<char>)
    ensures
        esc(a + b) == esc(a) + esc(b),
    decreases a.len(),
{
    if a.len() == 0 {
        assert(a + b =~= b);
        assert(esc(a) + esc(b) =~= esc(b));
    } else {
        assert((a + b).skip(1) =~= a.skip(1) + b);
        lemma_esc_concat(a.skip(1), b);
        assert(esc(a + b) =~= esc(a) + esc(b));
    }
}

/// Exec form of `hex_char`.
fn hex_char_of(v: u32) -> (r: char)
    requires
        v < 16,
    ensures
        r == hex_char(v as int),
{
    if v == 0 { '0' } else if v == 1 { '1' } else if v == 2 { '2' }
    else if v == 3 { '3' } else if v == 4 { '4' } else if v == 5 { '5' }
    else if v == 6 { '6' } else if v == 7 { '7' } else if v == 8 { '8' }
    else if v == 9 { '9' } else if v == 10 { 'a' } else if v == 11 { 'b' }
    else if v == 12 { 'c' } else if v == 13 { 'd' } else if v == 14 { 'e' }
    else { 'f' }
}

/// Appends the escape sequence of one character.
fn push_esc_char(out: &mut Vec<char>, c: char)
    ensures
        final(out)@ == old(out)@ + esc_char(c),
{
    if c == '"' {
        out.push('\\');
        out.push('"');
    } else if c == '\\' {
        out.push('\\');
        out.push('\\');
    } else if c == '\u{8}' {
        out.push('\\');
        out.push('b');
    } else if c == '\t' {
        out.push('\\');
        out.push('t');
    } else if c == '\n' {
        out.push('\\');
        out.push('n');
    } else if c == '\u{c}' {
        out.push('\\');
        out.push('f');
    } else if c == '\r' {
        out.push('\\');
        out.push('r');
    } else {
        let v = c as u32;
        if v < 0x20 {
            out.push('\\');
            out.push('u');
            out.push('0');
            out.push('0');
            out.push(hex_char_of(v / 16));
            out.push(hex_char_of(v % 16));
        } else {
            out.push(c);
        }
    }
    proof {
        assert(out@ =~= old(out)@ + esc_char(c));
    }
}

/// Appends the quoted, escaped form of a string.
fn push_quoted(out: &mut Vec<char>, s: &str)
    ensures
        final(out)@ == old(out)@ + quoted(s@),
{
    let n = s.unicode_len();
    out.push('"');
    let mut i: usize = 0;
    while i < n
        invariant
            n == s@.len(),
            i <= n,
            out@ == old(out)@ + seq!['"'] + esc(s@.take(i as int)),
        decreases n - i,
    {
        let c = s.get_char(i);
        proof {
            let c0 = s@[i as int];
            assert(s@.take(i + 1) =~= s@.take(i as int) + seq![c0]);
            lemma_esc_concat(s@.take(i as int), seq![c0]);
            assert(seq![c0].skip(1) =~= Seq::<char>::empty());
            assert(esc(seq![c0]) == esc_char(c0) + esc(Seq::<char>::empty()));
            assert(esc(seq![c0]) =~= esc_char(c0));
        }
        push_esc_char(out, c);
        proof {
            assert(out@ =~= old(out)@ + seq!['"'] + esc(s@.take(i + 1)));
        }
        i = i + 1;
    }
    out.push('"');
    proof {
        assert(s@.take(n as int) =~= s@);
        assert(out@ =~= old(out)@ + quoted(s@));
    }
}

// ---------------------------------------------------------------------------
// Parsing: spec level
// ---------------------------------------------------------------------------

/// The character a named escape `\x` stands for, if `x` is a named escape.
pub open spec fn named_unesc(e: char) -> Option<char> {
    if e == '"' { Some('"') }
    else if e == '\\' { Some('\\') }
    else if e == 'b' { Some('\u{8}') }
    else if e == 't' { Some('\t') }
    else if e == 'n' { Some('\n') }
    else if e == 'f' { Some('\u{c}') }
    else if e == 'r' { Some('\r') }
    else { None }
}

/// Value of a lower-case hexadecimal digit.
pub open spec fn hex_val(c: char) -> Option<int> {
    if c == '0' { Some(0int) } else if c == '1' { Some(1int) }
    else if c == '2' { Some(2int) } else if c == '3' { Some(3int) }
    else if c == '4' { Some(4int) } else if c == '5' { Some(5int) }
    else if c == '6' { Some(6int) } else if c == '7' { Some(7int) }
    else if c == '8' { Some(8int) } else if c == '9' { Some(9int) }
    else if c == 'a' { Some(10int) } else if c == 'b' { Some(11int) }
    else if c == 'c' { Some(12int) } else if c == 'd' { Some(13int) }
    else if c == 'e' { Some(14int) } else if c == 'f' { Some(15int) }
    else { None }
}

/// Control characters that the canonical form writes as `\u00XX`: everything
/// below 0x20 except the five characters that have a named escape.
pub open spec fn is_u_escaped(v: int) -> bool {
    0 <= v < 0x20 && v != 8 && v != 9 && v != 0xa && v != 0xc && v != 0xd
}

/// Parses the body of a JSON string literal (everything after the opening
/// quote, up to and including the closing quote).  Returns the unescaped
/// content and the position just past the closing quote.  Only the canonical
/// escapes produced by `esc` are accepted.
pub open spec fn p_str_body(s: Seq<char>, i: int) -> Option<(Seq<char>, int)>
    decreases s.len() - i,
{
    if i < 0 || i >= s.len() {
        None
    } else if s[i] == '"' {
        Some((Seq::empty(), i + 1))
    } else if s[i] == '\\' {
        if i + 2 <= s.len() && named_unesc(s[i + 1]) is Some {
            match p_str_body(s, i + 2) {
                Some((t, j)) => Some((seq![named_unesc(s[i + 1]).unwrap()] + t, j)),
                None => None,
            }
        } else if i + 6 <= s.len() && s[i + 1] == 'u' && s[i + 2] == '0' && s[i + 3] == '0'
            && hex_val(s[i + 4]) is Some && hex_val(s[i + 5]) is Some
            && is_u_escaped(hex_val(s[i + 4]).unwrap() * 16 + hex_val(s[i + 5]).unwrap()) {
            match p_str_body(s, i + 6) {
                Some((t, j)) => Some((
                    seq![((hex_val(s[i + 4]).unwrap() * 16 + hex_val(s[i + 5]).unwrap()) as u8) as char] + t,
                    j,
                )),
                None => None,
            }
        } else {
            None
        }
    } else if (s[i] as u32) >= 0x20 {
        match p_str_body(s, i + 1) {
            Some((t, j)) => Some((seq![s[i]] + t, j)),
            None => None,
        }
    } else {
        None
    }
}

/// Parses a complete JSON string literal starting at `i`.
pub open spec fn p_quoted(s: Seq<char>, i: int) -> Option<(Seq<char>, int)> {
    if 0 <= i < s.len() && s[i] == '"' {
        p_str_body(s, i + 1)
    } else {
        None
    }
}

/// A successful string-body parse always advances and stays in bounds.
pub proof fn lemma_p_str_body_bounds(s: Seq<char>, i: int)
    ensures
        p_str_body(s, i) is Some ==> {
            let (t, j) = p_str_body(s, i).unwrap();
            i < j <= s.len()
        },
    decreases s.len() - i,
{
    if 0 <= i < s.len() {
        lemma_p_str_body_bounds(s, i + 1);
        if i + 2 <= s.len() {
            lemma_p_str_body_bounds(s, i + 2);
        }
        if i + 6 <= s.len() {
            lemma_p_str_body_bounds(s, i + 6);
        }
    }
}

/// A successful quoted-string parse always advances and stays in bounds.
pub proof fn lemma_p_quoted_bounds(s: Seq<char>, i: int)
    ensures
        p_quoted(s, i) is Some ==> {
            let (t, j) = p_quoted(s, i).unwrap();
            i < j <= s.len()
        },
{
    lemma_p_str_body_bounds(s, i + 1);
}

/// The literal `lit` occurs in `s` at position `i`.
pub open spec fn lit_at(s: Seq<char>, i: int, lit: Seq<char>) -> bool {
    0 <= i && i + lit.len() <= s.len() && s.subrange(i, i + lit.len()) == lit
}

/// Parses the items of a non-empty JSON array of strings, starting after the
/// opening bracket or after a comma; consumes the closing bracket.
pub open spec fn p_items(s: Seq<char>, i: int) -> Option<(Seq<Seq<char>>, int)>
    decreases s.len() - i
        via p_items_decreases
{
    match p_quoted(s, i) {
        None => None,
        Some((item, j)) => {
            if j < s.len() && s[j] == ',' {
                match p_items(s, j + 1) {
                    Some((rest, k)) => Some((seq![item] + rest, k)),
                    None => None,
                }
            } else if j < s.len() && s[j] == ']' {
                Some((seq![item], j + 1))
            } else {
                None
            }
        },
    }
}

#[via_fn]
proof fn p_items_decreases(s: Seq<char>, i: int) {
    lemma_p_quoted_bounds(s, i);
}

/// Parses the `dataArray` payload: `null` or an array of strings.
pub open spec fn p_opt_array(s: Seq<char>, i: int) -> Option<(Option<Seq<Seq<char>>>, int)> {
    if lit_at(s, i, "null"@) {
        Some((None, i + "null"@.len()))
    } else if 0 <= i < s.len() && s[i] == '[' {
        if i + 1 < s.len() && s[i + 1] == ']' {
            Some((Some(Seq::empty()), i + 2))
        } else {
            match p_items(s, i + 1) {
                Some((v, j)) => Some((Some(v), j)),
                None => None,
            }
        }
    } else {
        None
    }
}

/// Parses the `data` payload: `null` or a string.
pub open spec fn p_opt_str(s: Seq<char>, i: int) -> Option<(Option<Seq<char>>, int)> {
    if lit_at(s, i, "null"@) {
        Some((None, i + "null"@.len()))
    } else {
        match p_quoted(s, i) {
            Some((t, j)) => Some((Some(t), j)),
            None => None,
        }
    }
}

// ---------------------------------------------------------------------------
// Envelope and message types
// ---------------------------------------------------------------------------

/// The kind tag of a wire envelope.
#[derive(Clone, Copy, Debug, PartialEq, Eq, Structural)]
pub enum MsgTypes {
    Users,
    Register,
    Message,
}

/// A wire envelope.  Exactly one of the two payload fields is populated,
/// selected by the kind: `Users` uses `data_array`, the other kinds `data`.
pub struct WebSocketMessage {
    pub message_type: MsgTypes,
    pub data_array: Option<Vec<String>>,
    pub data: Option<String>,
}

/// The payload of a `Message` envelope: sender and body.
#[derive(Debug)]
pub struct MessageData {
    pub from: String,
    pub message: String,
}

/// Mathematical model of an envelope.
#[verifier::ext_equal]
pub struct EnvModel {
    pub kind: MsgTypes,
    pub roster: Option<Seq<Seq<char>>>,
    pub data: Option<Seq<char>>,
}

/// The envelope invariant at the model level: the kind selects which payload
/// field is populated.
pub open spec fn wf_model(m: EnvModel) -> bool {
    match m.kind {
        MsgTypes::Users => m.roster is Some && m.data is None,
        MsgTypes::Register => m.roster is None && m.data is Some,
        MsgTypes::Message => m.roster is None && m.data is Some,
    }
}

/// Model of a concrete envelope value.
pub open spec fn env_model(e: WebSocketMessage) -> EnvModel {
    EnvModel {
        kind: e.message_type,
        roster: match e.data_array {
            Some(v) => Some(v@.map_values(|s: String| s@)),
            None => None,
        },
        data: match e.data {
            Some(d) => Some(d@),
            None => None,
        },
    }
}

/// The envelope invariant on concrete values.
pub open spec fn wf_envelope(e: WebSocketMessage) -> bool {
    wf_model(env_model(e))
}

/// Wire name of an envelope kind.
pub open spec fn kind_name(k: MsgTypes) -> Seq<char> {
    match k {
        MsgTypes::Users => "users"@,
        MsgTypes::Register => "register"@,
        MsgTypes::Message => "message"@,
    }
}

/// The kind a wire name stands for.
pub open spec fn kind_of_name(n: Seq<char>) -> Option<MsgTypes> {
    if n == "users"@ { Some(MsgTypes::Users) }
    else if n == "register"@ { Some(MsgTypes::Register) }
    else if n == "message"@ { Some(MsgTypes::Message) }
    else { None }
}

// ---------------------------------------------------------------------------
// Envelope encoding: spec level
// ---------------------------------------------------------------------------

/// Second and later items of an array, each preceded by a comma.
pub open spec fn enc_tail(items: Seq<Seq<char>>) -> Seq<char>
    decreases items.len(),
{
    if items.len() == 0 {
        Seq::empty()
    } else {
        seq![','] + quoted(items[0]) + enc_tail(items.skip(1))
    }
}

/// A JSON array of strings.
pub open spec fn enc_array(items: Seq<Seq<char>>) -> Seq<char> {
    if items.len() == 0 {
        "[]"@
    } else {
        seq!['['] + quoted(items[0]) + enc_tail(items.skip(1)) + seq![']']
    }
}

/// `null` or a JSON array of strings.
pub open spec fn enc_opt_array(o: Option<Seq<Seq<char>>>) -> Seq<char> {
    match o {
        None => "null"@,
        Some(items) => enc_array(items),
    }
}

/// `null` or a JSON string.
pub open spec fn enc_opt_str(o: Option<Seq<char>>) -> Seq<char> {
    match o {
        None => "null"@,
        Some(s) => quoted(s),
    }
}

/// Canonical text of an envelope.
pub open spec fn spec_encode_envelope(m: EnvModel) -> Seq<char> {
    "{\"messageType\":"@ + quoted(kind_name(m.kind))
        + ",\"dataArray\":"@ + enc_opt_array(m.roster)
        + ",\"data\":"@ + enc_opt_str(m.data)
        + seq!['}']
}

/// Canonical text of a message payload `{"from": ..., "message": ...}`.
pub open spec fn spec_encode_msg(from: Seq<char>, message: Seq<char>) -> Seq<char> {
    "{\"from\":"@ + quoted(from) + ",\"message\":"@ + quoted(message) + seq!['}']
}

// ---------------------------------------------------------------------------
// Envelope decoding: spec level
// ---------------------------------------------------------------------------

/// Parses a whole envelope.  The text must be exactly the canonical form:
/// the three fields in order, a known kind, the payload field that matches
/// the kind, and nothing after the closing brace.
pub open spec fn spec_decode_envelope(s: Seq<char>) -> Option<EnvModel> {
    let k0 = "{\"messageType\":"@;
    if !lit_at(s, 0, k0) {
        None
    } else {
        match p_quoted(s, k0.len() as int) {
            None => None,
            Some((kname, i1)) => match kind_of_name(kname) {
                None => None,
                Some(kind) => {
                    let k1 = ",\"dataArray\":"@;
                    if !lit_at(s, i1, k1) {
                        None
                    } else {
                        match p_opt_array(s, i1 + k1.len()) {
                            None => None,
                            Some((roster, i2)) => {
                                let k2 = ",\"data\":"@;
                                if !lit_at(s, i2, k2) {
                                    None
                                } else {
                                    match p_opt_str(s, i2 + k2.len()) {
                                        None => None,
                                        Some((data, i3)) => {
                                            let m = EnvModel { kind, roster, data };
                                            if i3 + 1 == s.len() && s[i3] == '}' && wf_model(m) {
                                                Some(m)
                                            } else {
                                                None
                                            }
                                        },
                                    }
                                }
                            },
                        }
                    }
                },
            },
        }
    }
}

/// Parses a message payload.  The text must be exactly the canonical form of
/// `{"from": ..., "message": ...}`.
pub open spec fn spec_decode_msg(s: Seq<char>) -> Option<(Seq<char>, Seq<char>)> {
    let k0 = "{\"from\":"@;
    if !lit_at(s, 0, k0) {
        None
    } else {
        match p_quoted(s, k0.len() as int) {
            None => None,
            Some((from, i1)) => {
                let k1 = ",\"message\":"@;
                if !lit_at(s, i1, k1) {
                    None
                } else {
                    match p_quoted(s, i1 + k1.len()) {
                        None => None,
                        Some((message, i2)) => {
                            if i2 + 1 == s.len() && s[i2] == '}' {
                                Some((from, message))
                            } else {
                                None
                            }
                        },
                    }
                }
            },
        }
    }
}

// ---------------------------------------------------------------------------
// Parsing: executable level
// ---------------------------------------------------------------------------

/// View of a vector of strings as a sequence of character sequences.
pub open spec fn strs_view(v: Seq<String>) -> Seq<Seq<char>> {
    v.map_values(|s: String| s@)
}

/// Exec form of `named_unesc`.
fn named_unesc_x(e: char) -> (r: Option<char>)
    ensures
        r == named_unesc(e),
{
    if e == '"' { Some('"') }
    else if e == '\\' { Some('\\') }
    else if e == 'b' { Some('\u{8}') }
    else if e == 't' { Some('\t') }
    else if e == 'n' { Some('\n') }
    else if e == 'f' { Some('\u{c}') }
    else if e == 'r' { Some('\r') }
    else { None }
}

/// Exec form of `hex_val`.
fn hex_val_x(c: char) -> (r: Option<u32>)
    ensures
        match r {
            Some(v) => hex_val(c) == Some(v as int) && v < 16,
            None => hex_val(c) is None,
        },
{
    if c == '0' { Some(0) } else if c == '1' { Some(1) }
    else if c == '2' { Some(2) } else if c == '3' { Some(3) }
    else if c == '4' { Some(4) } else if c == '5' { Some(5) }
    else if c == '6' { Some(6) } else if c == '7' { Some(7) }
    else if c == '8' { Some(8) } else if c == '9' { Some(9) }
    else if c == 'a' { Some(10) } else if c == 'b' { Some(11) }
    else if c == 'c' { Some(12) } else if c == 'd' { Some(13) }
    else if c == 'e' { Some(14) } else if c == 'f' { Some(15) }
    else { None }
}

/// Exec form of `p_str_body`.
fn x_str_body(s: &Vec<char>, i: usize) -> (r: Option<(Vec<char>, usize)>)
    requires
        i <= s@.len(),
    ensures
        match r {
            Some(p) => p_str_body(s@, i as int) == Some((p.0@, p.1 as int)) && p.1 <= s@.len(),
            None => p_str_body(s@, i as int) is None,
        },
    decreases s@.len() - i,
{
    let n = s.len();
    if i >= n {
        None
    } else if s[i] == '"' {
        Some((Vec::new(), i + 1))
    } else if s[i] == '\\' {
        if n - i >= 2 && named_unesc_x(s[i + 1]).is_some() {
            let c = named_unesc_x(s[i + 1]).unwrap();
            match x_str_body(s, i + 2) {
                Some((mut t, j)) => {
                    t.insert(0, c);
                    proof {
                        assert(t@ =~= seq![named_unesc(s@[i + 1]).unwrap()] + t@.skip(1));
                    }
                    Some((t, j))
                },
                None => None,
            }
        } else if n - i >= 6 && s[i + 1] == 'u' && s[i + 2] == '0' && s[i + 3] == '0' {
            let h = hex_val_x(s[i + 4]);
            let l = hex_val_x(s[i + 5]);
            match (h, l) {
                (Some(hv), Some(lv)) => {
                    let v = hv * 16 + lv;
                    if v < 0x20 && v != 8 && v != 9 && v != 0xa && v != 0xc && v != 0xd {
                        let c = (v as u8) as char;
                        match x_str_body(s, i + 6) {
                            Some((mut t, j)) => {
                                t.insert(0, c);
                                proof {
                                    assert(t@ =~= seq![c] + t@.skip(1));
                                }
                                Some((t, j))
                            },
                            None => None,
                        }
                    } else {
                        None
                    }
                },
                _ => None,
            }
        } else {
            None
        }
    } else if (s[i] as u32) >= 0x20 {
        let c = s[i];
        match x_str_body(s, i + 1) {
            Some((mut t, j)) => {
                t.insert(0, c);
                proof {
                    assert(t@ =~= seq![c] + t@.skip(1));
                }
                Some((t, j))
            },
            None => None,
        }
    } else {
        None
    }
}

/// Exec form of `p_quoted`.
fn x_quoted(s: &Vec<char>, i: usize) -> (r: Option<(Vec<char>, usize)>)
    requires
        i <= s@.len(),
    ensures
        match r {
            Some(p) => p_quoted(s@, i as int) == Some((p.0@, p.1 as int)) && i < p.1 <= s@.len(),
            None => p_quoted(s@, i as int) is None,
        },
{
    proof {
        lemma_p_quoted_bounds(s@, i as int);
    }
    if i < s.len() && s[i] == '"' {
        x_str_body(s, i + 1)
    } else {
        None
    }
}

/// Tests whether the literal `lit` occurs at position `i`, and returns the
/// position just past it if so.
fn x_lit(s: &Vec<char>, i: usize, lit: &str) -> (r: Option<usize>)
    requires
        i <= s@.len(),
    ensures
        match r {
            Some(j) => lit_at(s@, i as int, lit@) && j == i + lit@.len() && j <= s@.len(),
            None => !lit_at(s@, i as int, lit@),
        },
{
    let n = lit.unicode_len();
    if n > s.len() - i {
        return None;
    }
    let end: usize = i + n;
    let mut k: usize = 0;
    while k < n
        invariant
            n == lit@.len(),
            end == i + n,
            end <= s@.len(),
            k <= n,
            forall|q: int| 0 <= q < k ==> s@[i + q] == lit@[q],
        decreases n - k,
    {
        if s[i + k] != lit.get_char(k) {
            proof {
                assert(s@.subrange(i as int, i + n) != lit@) by {
                    assert(s@.subrange(i as int, i + n)[k as int] != lit@[k as int]);
                }
            }
            return None;
        }
        k = k + 1;
    }
    proof {
        assert(s@.subrange(i as int, i + n) =~= lit@);
    }
    Some(i + n)
}

/// Tests whether a character vector equals a string literal.
fn chars_eq_lit(v: &Vec<char>, lit: &str) -> (r: bool)
    ensures
        r == (v@ == lit@),
{
    let n = lit.unicode_len();
    if v.len() != n {
        proof {
            assert(v@ != lit@) by {
                assert(v@.len() != lit@.len());
            }
        }
        return false;
    }
    let mut k: usize = 0;
    while k < n
        invariant
            n == lit@.len() == v@.len(),
            k <= n,
            forall|q: int| 0 <= q < k ==> v@[q] == lit@[q],
        decreases n - k,
    {
        if v[k] != lit.get_char(k) {
            proof {
                assert(v@ != lit@) by {
                    assert(v@[k as int] != lit@[k as int]);
                }
            }
            return false;
        }
        k = k + 1;
    }
    proof {
        assert(v@ =~= lit@);
    }
    true
}

/// Exec form of `p_items`.
fn x_items(s: &Vec<char>, i: usize) -> (r: Option<(Vec<String>, usize)>)
    requires
        i <= s@.len(),
    ensures
        match r {
            Some(p) => p_items(s@, i as int) == Some((strs_view(p.0@), p.1 as int))
                && p.1 <= s@.len(),
            None => p_items(s@, i as int) is None,
        },
    decreases s@.len() - i,
{
    proof {
        lemma_p_quoted_bounds(s@, i as int);
    }
    match x_quoted(s, i) {
        None => None,
        Some((item, j)) => {
            let item_s = chars_to_string(&item);
            if j < s.len() && s[j] == ',' {
                match x_items(s, j + 1) {
                    Some((mut rest, k)) => {
                        rest.insert(0, item_s);
                        proof {
                            assert(strs_view(rest@) =~= seq![item@] + strs_view(rest@.skip(1)));
                        }
                        Some((rest, k))
                    },
                    None => None,
                }
            } else if j < s.len() && s[j] == ']' {
                let mut v: Vec<String> = Vec::new();
                v.push(item_s);
                proof {
                    assert(strs_view(v@) =~= seq![item@]);
                }
                Some((v, j + 1))
            } else {
                None
            }
        },
    }
}

/// Exec form of `p_opt_array`.
fn x_opt_array(s: &Vec<char>, i: usize) -> (r: Option<(Option<Vec<String>>, usize)>)
    requires
        i <= s@.len(),
    ensures
        match r {
            Some(p) => p_opt_array(s@, i as int) == Some((
                match p.0 {
                    Some(v) => Some(strs_view(v@)),
                    None => None,
                },
                p.1 as int,
            )) && p.1 <= s@.len(),
            None => p_opt_array(s@, i as int) is None,
        },
{
    match x_lit(s, i, "null") {
        Some(j) => Some((None, j)),
        None => {
            if i < s.len() && s[i] == '[' {
                if i + 1 < s.len() && s[i + 1] == ']' {
                    let v: Vec<String> = Vec::new();
                    proof {
                        assert(strs_view(v@) =~= Seq::<Seq<char>>::empty());
                    }
                    Some((Some(v), i + 2))
                } else {
                    match x_items(s, i + 1) {
                        Some((v, j)) => Some((Some(v), j)),
                        None => None,
                    }
                }
            } else {
                None
            }
        },
    }
}

/// Exec form of `p_opt_str`.
fn x_opt_str(s: &Vec<char>, i: usize) -> (r: Option<(Option<String>, usize)>)
    requires
        i <= s@.len(),
    ensures
        match r {
            Some(p) => p_opt_str(s@, i as int) == Some((
                match p.0 {
                    Some(t) => Some(t@),
                    None => None,
                },
                p.1 as int,
            )) && p.1 <= s@.len(),
            None => p_opt_str(s@, i as int) is None,
        },
{
    match x_lit(s, i, "null") {
        Some(j) => Some((None, j)),
        None => {
            match x_quoted(s, i) {
                Some((t, j)) => Some((Some(chars_to_string(&t)), j)),
                None => None,
            }
        },
    }
}

// ---------------------------------------------------------------------------
// Public codec entry points
// ---------------------------------------------------------------------------

/// Decodes a wire envelope.  Succeeds exactly on the canonical textual form
/// with a recognized kind and the matching payload field; every other input
/// yields `None`, so a malformed or foreign event can be dropped quietly.
pub fn decode_envelope(s: &str) -> (r: Option<WebSocketMessage>)
    ensures
        match r {
            Some(e) => spec_decode_envelope(s@) == Some(env_model(e)) && wf_envelope(e),
            None => spec_decode_envelope(s@) is None,
        },
{
    let cs = str_to_chars(s);
    let i0 = match x_lit(&cs, 0, "{\"messageType\":") {
        Some(j) => j,
        None => { return None; },
    };
    let (kname, i1) = match x_quoted(&cs, i0) {
        Some(p) => p,
        None => { return None; },
    };
    let message_type = if chars_eq_lit(&kname, "users") {
        MsgTypes::Users
    } else if chars_eq_lit(&kname, "register") {
        MsgTypes::Register
    } else if chars_eq_lit(&kname, "message") {
        MsgTypes::Message
    } else {
        return None;
    };
    let i2 = match x_lit(&cs, i1, ",\"dataArray\":") {
        Some(j) => j,
        None => { return None; },
    };
    let (data_array, i3) = match x_opt_array(&cs, i2) {
        Some(p) => p,
        None => { return None; },
    };
    let i4 = match x_lit(&cs, i3, ",\"data\":") {
        Some(j) => j,
        None => { return None; },
    };
    let (data, i5) = match x_opt_str(&cs, i4) {
        Some(p) => p,
        None => { return None; },
    };
    if !(i5 < cs.len() && cs.len() - i5 == 1 && cs[i5] == '}') {
        return None;
    }
    let wf = match message_type {
        MsgTypes::Users => data_array.is_some() && data.is_none(),
        MsgTypes::Register => data_array.is_none() && data.is_some(),
        MsgTypes::Message => data_array.is_none() && data.is_some(),
    };
    if !wf {
        return None;
    }
    Some(WebSocketMessage { message_type, data_array, data })
}

/// Decodes a message payload `{"from": ..., "message": ...}`.  Succeeds
/// exactly on the canonical textual form.
pub fn decode_message_data(s: &str) -> (r: Option<MessageData>)
    ensures
        match r {
            Some(m) => spec_decode_msg(s@) == Some((m.from@, m.message@)),
            None => spec_decode_msg(s@) is None,
        },
{
    let cs = str_to_chars(s);
    let i0 = match x_lit(&cs, 0, "{\"from\":") {
        Some(j) => j,
        None => { return None; },
    };
    let (from, i1) = match x_quoted(&cs, i0) {
        Some(p) => p,
        None => { return None; },
    };
    let i2 = match x_lit(&cs, i1, ",\"message\":") {
        Some(j) => j,
        None => { return None; },
    };
    let (message, i3) = match x_quoted(&cs, i2) {
        Some(p) => p,
        None => { return None; },
    };
    if !(i3 < cs.len() && cs.len() - i3 == 1 && cs[i3] == '}') {
        return None;
    }
    Some(MessageData { from: chars_to_string(&from), message: chars_to_string(&message) })
}

// ---------------------------------------------------------------------------
// The decoder inverts the encoder
// ---------------------------------------------------------------------------

/// `hex_char` and `hex_val` invert each other.
proof fn lemma_hex_round_trip(v: int)
    requires
        0 <= v < 16,
    ensures
        hex_val(hex_char(v)) == Some(v),
{
}

/// A control character outside the named escapes is written as `\u00XX`, and
/// its code round-trips through the hex pair.
proof fn lemma_ctrl_char_codes(c: char)
    requires
        c != '\u{8}',
        c != '\t',
        c != '\n',
        c != '\u{c}',
        c != '\r',
        (c as u32) < 0x20,
    ensures
        is_u_escaped((c as u32) as int),
        (((c as u32) as u8) as char) == c,
{
}

/// An escaped string body followed by its closing quote parses back to
/// exactly the original string, ending just past the quote.
#[verifier::rlimit(50)]
proof fn lemma_p_str_body_inverts(t: Seq<char>, i: int, s: Seq<char>, j: int)
    requires
        0 <= i <= j <= t.len(),
        t.subrange(i, j) == esc(s) + seq!['"'],
    ensures
        p_str_body(t, i) == Some((s, j)),
    decreases s.len(),
{
    broadcast use vstd::seq::lemma_seq_subrange_index_alt;

    let part = t.subrange(i, j);
    assert(part.len() == j - i);
    assert((esc(s) + seq!['"']).len() == esc(s).len() + 1);
    if s.len() == 0 {
        assert(part[0] == '"');
        assert(t[i] == part[0]);
    } else {
        let c = s[0];
        let e = esc_char(c);
        let k = e.len() as int;
        assert(esc(s) == e + esc(s.skip(1)));
        assert(esc(s).len() == k + esc(s.skip(1)).len());
        assert(i + k <= j);
        assert forall|q: int| 0 <= q < k implies t[i + q] == e[q] by {
            assert(part[q] == (esc(s) + seq!['"'])[q]);
            assert((esc(s) + seq!['"'])[q] == esc(s)[q]);
            assert(esc(s)[q] == (e + esc(s.skip(1)))[q]);
        }
        assert forall|q: int| 0 <= q < j - (i + k) implies t.subrange(i + k, j)[q] == (esc(
            s.skip(1),
        ) + seq!['"'])[q] by {
            assert(t.subrange(i + k, j)[q] == t[i + k + q]);
            assert(part[k + q] == t[i + k + q]);
            assert(part[k + q] == (esc(s) + seq!['"'])[k + q]);
            if k + q < esc(s).len() {
                assert((esc(s) + seq!['"'])[k + q] == esc(s)[k + q]);
                assert(esc(s)[k + q] == (e + esc(s.skip(1)))[k + q]);
                assert((e + esc(s.skip(1)))[k + q] == esc(s.skip(1))[q]);
                assert((esc(s.skip(1)) + seq!['"'])[q] == esc(s.skip(1))[q]);
            } else {
                assert((esc(s) + seq!['"'])[k + q] == '"');
                assert((esc(s.skip(1)) + seq!['"'])[q] == '"');
            }
        }
        assert(t.subrange(i + k, j) =~= esc(s.skip(1)) + seq!['"']);
        if c == '"' || c == '\\' || c == '\u{8}' || c == '\t' || c == '\n' || c == '\u{c}'
            || c == '\r' {
            // A named escape: two characters, backslash first.
            assert(k == 2);
            assert(t[i] == '\\');
            assert(named_unesc(t[i + 1]) == Some(c));
            lemma_p_str_body_inverts(t, i + 2, s.skip(1), j);
            assert(seq![c] + s.skip(1) =~= s);
        } else if (c as u32) < 0x20 {
            // A \u00XX escape: six characters.
            let v = (c as u32) as int;
            assert(k == 6);
            assert(t[i] == '\\' && t[i + 1] == 'u' && t[i + 2] == '0' && t[i + 3] == '0');
            assert(t[i + 4] == hex_char(v / 16) && t[i + 5] == hex_char(v % 16));
            lemma_hex_round_trip(v / 16);
            lemma_hex_round_trip(v % 16);
            vstd::arithmetic::div_mod::lemma_fundamental_div_mod(v, 16);
            assert(named_unesc('u') is None);
            assert(hex_val(t[i + 4]).unwrap() * 16 + hex_val(t[i + 5]).unwrap() == v);
            lemma_ctrl_char_codes(c);
            assert(is_u_escaped(v));
            assert(((v as u8) as char) == c);
            lemma_p_str_body_inverts(t, i + 6, s.skip(1), j);
            assert(seq![c] + s.skip(1) =~= s);
        } else {
            // A plain character.
            assert(k == 1);
            assert(t[i] == c);
            assert(t[i] != '"' && t[i] != '\\');
            lemma_p_str_body_inverts(t, i + 1, s.skip(1), j);
            assert(seq![c] + s.skip(1) =~= s);
        }
    }
}

/// A quoted string parses back to exactly the original string.
proof fn lemma_p_quoted_inverts(t: Seq<char>, i: int, s: Seq<char>, j: int)
    requires
        0 <= i <= j <= t.len(),
        t.subrange(i, j) == quoted(s),
    ensures
        p_quoted(t, i) == Some((s, j)),
{
    broadcast use vstd::seq::lemma_seq_subrange_index_alt;

    let part = t.subrange(i, j);
    assert(part.len() == j - i);
    assert(quoted(s).len() == esc(s).len() + 2);
    assert(part[0] == '"');
    assert(t[i] == part[0]);
    assert(t.subrange(i + 1, j) =~= esc(s) + seq!['"']);
    lemma_p_str_body_inverts(t, i + 1, s, j);
}

/// The middle part of a three-way concatenation is the subrange at its
/// offset.
proof fn lemma_mid(t: Seq<char>, pre: Seq<char>, mid: Seq<char>, post: Seq<char>)
    requires
        t == pre + mid + post,
    ensures
        t.subrange(pre.len() as int, pre.len() + mid.len() as int) == mid,
        t.len() == pre.len() + mid.len() + post.len(),
{
    broadcast use vstd::seq::lemma_seq_subrange_index_alt;

    let p = pre.len() as int;
    assert forall|q: int| 0 <= q < mid.len() implies t.subrange(p, p + mid.len())[q] == mid[q] by {
        assert(t[p + q] == (pre + mid + post)[p + q]);
        assert((pre + mid + post)[p + q] == (pre + mid)[p + q]);
        assert((pre + mid)[p + q] == mid[q]);
    }
    assert(t.subrange(p, p + mid.len()) =~= mid);
}

/// A non-empty encoded item list followed by the closing bracket parses back
/// to exactly the original items.
proof fn lemma_p_items_inverts(t: Seq<char>, i: int, items: Seq<Seq<char>>, j: int)
    requires
        items.len() >= 1,
        0 <= i <= j <= t.len(),
        t.subrange(i, j) == quoted(items[0]) + enc_tail(items.skip(1)) + seq![']'],
    ensures
        p_items(t, i) == Some((items, j)),
    decreases items.len(),
{
    broadcast use vstd::seq::lemma_seq_subrange_index_alt;

    let part = t.subrange(i, j);
    let q0 = quoted(items[0]);
    let tail = enc_tail(items.skip(1));
    assert(part.len() == j - i);
    assert((q0 + tail + seq![']']).len() == q0.len() + tail.len() + 1);
    let i1 = i + q0.len() as int;
    assert(t.subrange(i, i1) =~= q0) by {
        assert forall|q: int| 0 <= q < q0.len() implies t.subrange(i, i1)[q] == q0[q] by {
            assert(part[q] == (q0 + tail + seq![']'])[q]);
            assert((q0 + tail + seq![']'])[q] == (q0 + tail)[q]);
        }
    }
    lemma_p_quoted_inverts(t, i, items[0], i1);
    if items.len() == 1 {
        assert(items.skip(1).len() == 0);
        assert(tail == Seq::<char>::empty());
        assert(part[q0.len() as int] == ']');
        assert(t[i1] == ']');
        assert(j == i1 + 1);
        assert(seq![items[0]] =~= items);
    } else {
        let rest = items.skip(1);
        assert(rest.len() >= 1);
        assert(tail == seq![','] + quoted(rest[0]) + enc_tail(rest.skip(1)));
        assert(part[q0.len() as int] == (q0 + tail)[q0.len() as int]);
        assert((q0 + tail)[q0.len() as int] == tail[0]);
        assert(tail[0] == (seq![','] + quoted(rest[0]))[0]);
        assert(t[i1] == ',');
        assert(t.subrange(i1 + 1, j) =~= quoted(rest[0]) + enc_tail(rest.skip(1)) + seq![']']) by {
            assert forall|q: int| 0 <= q < j - (i1 + 1) implies t.subrange(i1 + 1, j)[q] == (quoted(
                rest[0],
            ) + enc_tail(rest.skip(1)) + seq![']'])[q] by {
                let p = q0.len() + 1 + q;
                assert(t[i + p] == part[p]);
                assert(part[p] == (q0 + tail + seq![']'])[p]);
                if p < q0.len() + tail.len() {
                    assert((q0 + tail + seq![']'])[p] == (q0 + tail)[p]);
                    assert((q0 + tail)[p] == tail[1 + q]);
                    assert(tail[1 + q] == (seq![','] + quoted(rest[0]) + enc_tail(rest.skip(1)))[1
                        + q]);
                    assert((seq![','] + quoted(rest[0]) + enc_tail(rest.skip(1)))[1 + q] == (quoted(
                        rest[0],
                    ) + enc_tail(rest.skip(1)) + seq![']'])[q]);
                } else {
                    assert((q0 + tail + seq![']'])[p] == ']');
                    assert((quoted(rest[0]) + enc_tail(rest.skip(1)) + seq![']'])[q] == ']');
                }
            }
        }
        lemma_p_items_inverts(t, i1 + 1, rest, j);
        assert(seq![items[0]] + rest =~= items);
    }
}

/// Round trip of the message payload: a payload encoded by this library
/// decodes back to exactly the same sender and body.
pub proof fn lemma_msg_round_trip(from: Seq<char>, message: Seq<char>)
    ensures
        spec_decode_msg(spec_encode_msg(from, message)) == Some((from, message)),
{
    let k0 = "{\"from\":"@;
    let qf = quoted(from);
    let k1 = ",\"message\":"@;
    let qb = quoted(message);
    let br = seq!['}'];
    let t = spec_encode_msg(from, message);
    assert(t == k0 + qf + k1 + qb + br);
    let at0 = k0.len() as int;
    let at1 = at0 + qf.len();
    let at2 = at1 + k1.len();
    let at3 = at2 + qb.len();

    assert(t =~= Seq::empty() + k0 + (qf + k1 + qb + br));
    lemma_mid(t, Seq::empty(), k0, qf + k1 + qb + br);
    assert(t.subrange(0, at0) == k0);
    assert(lit_at(t, 0, k0));

    assert(t =~= k0 + qf + (k1 + qb + br));
    lemma_mid(t, k0, qf, k1 + qb + br);
    lemma_p_quoted_inverts(t, at0, from, at1);

    assert(t =~= (k0 + qf) + k1 + (qb + br));
    lemma_mid(t, k0 + qf, k1, qb + br);
    assert(lit_at(t, at1, k1));

    assert(t =~= (k0 + qf + k1) + qb + br);
    lemma_mid(t, k0 + qf + k1, qb, br);
    lemma_p_quoted_inverts(t, at2, message, at3);

    assert(t[at3] == (k0 + qf + k1 + qb + br)[at3]);
    assert(t[at3] == '}');
    assert(at3 + 1 == t.len());
}

/// Round trip of the envelope: an envelope encoded by this library decodes
/// back to exactly the same envelope.
#[verifier::rlimit(100)]
pub proof fn lemma_envelope_round_trip(m: EnvModel)
    requires
        wf_model(m),
    ensures
        spec_decode_envelope(spec_encode_envelope(m)) == Some(m),
{
    reveal_strlit("users");
    reveal_strlit("register");
    reveal_strlit("message");
    reveal_strlit("null");
    reveal_strlit("[]");
    let k0 = "{\"messageType\":"@;
    let qk = quoted(kind_name(m.kind));
    let k1 = ",\"dataArray\":"@;
    let ar = enc_opt_array(m.roster);
    let k2 = ",\"data\":"@;
    let da = enc_opt_str(m.data);
    let br = seq!['}'];
    let t = spec_encode_envelope(m);
    assert(t == k0 + qk + k1 + ar + k2 + da + br);
    let at0 = k0.len() as int;
    let at1 = at0 + qk.len();
    let at2 = at1 + k1.len();
    let at3 = at2 + ar.len();
    let at4 = at3 + k2.len();
    let at5 = at4 + da.len();

    assert(t =~= Seq::empty() + k0 + (qk + k1 + ar + k2 + da + br));
    lemma_mid(t, Seq::empty(), k0, qk + k1 + ar + k2 + da + br);
    assert(t.subrange(0, at0) == k0);
    assert(lit_at(t, 0, k0));

    assert(t =~= k0 + qk + (k1 + ar + k2 + da + br));
    lemma_mid(t, k0, qk, k1 + ar + k2 + da + br);
    lemma_p_quoted_inverts(t, at0, kind_name(m.kind), at1);
    assert(kind_of_name(kind_name(m.kind)) == Some(m.kind));

    assert(t =~= (k0 + qk) + k1 + (ar + k2 + da + br));
    lemma_mid(t, k0 + qk, k1, ar + k2 + da + br);
    assert(lit_at(t, at1, k1));

    assert(t =~= (k0 + qk + k1) + ar + (k2 + da + br));
    lemma_mid(t, k0 + qk + k1, ar, k2 + da + br);
    assert(t.subrange(at2, at3) == ar);
    match m.roster {
        None => {
            assert(ar == "null"@);
            assert(lit_at(t, at2, "null"@));
        },
        Some(items) => {
            assert(t[at2] == ar[0]);
            if items.len() == 0 {
                assert(ar == "[]"@);
                assert(t[at2] == '[');
                assert(!lit_at(t, at2, "null"@)) by {
                    if lit_at(t, at2, "null"@) {
                        assert(t.subrange(at2, at2 + 4)[0] == 'n');
                        assert(t[at2] == 'n');
                    }
                }
                assert(t[at2 + 1] == ar[1]);
                assert(t[at2 + 1] == ']');
                assert(p_opt_array(t, at2) == Some((Some(Seq::<Seq<char>>::empty()), at2 + 2)));
            } else {
                assert(ar == seq!['['] + quoted(items[0]) + enc_tail(items.skip(1)) + seq![']']);
                assert(t[at2] == '[');
                assert(!lit_at(t, at2, "null"@)) by {
                    if lit_at(t, at2, "null"@) {
                        assert(t.subrange(at2, at2 + 4)[0] == 'n');
                        assert(t[at2] == 'n');
                    }
                }
                assert(t[at2 + 1] == ar[1]);
                assert(ar[1] == (seq!['['] + quoted(items[0]))[1]);
                assert(ar[1] == '"');
                assert(t.subrange(at2 + 1, at3) =~= quoted(items[0]) + enc_tail(items.skip(1))
                    + seq![']']) by {
                    assert forall|q: int| 0 <= q < at3 - (at2 + 1) implies t.subrange(at2 + 1, at3)[q]
                        == (quoted(items[0]) + enc_tail(items.skip(1)) + seq![']'])[q] by {
                        assert(t.subrange(at2 + 1, at3)[q] == t.subrange(at2, at3)[1 + q]);
                        assert(ar[1 + q] == (seq!['['] + (quoted(items[0]) + enc_tail(items.skip(1))
                            + seq![']']))[1 + q]) by {
                            assert(ar =~= seq!['['] + (quoted(items[0]) + enc_tail(items.skip(1))
                                + seq![']']));
                        }
                    }
                }
                lemma_p_items_inverts(t, at2 + 1, items, at3);
                assert(p_opt_array(t, at2) == Some((Some(items), at3)));
            }
        },
    }

    assert(t =~= (k0 + qk + k1 + ar) + k2 + (da + br));
    lemma_mid(t, k0 + qk + k1 + ar, k2, da + br);
    assert(lit_at(t, at3, k2));

    assert(t =~= (k0 + qk + k1 + ar + k2) + da + br);
    lemma_mid(t, k0 + qk + k1 + ar + k2, da, br);
    assert(t.subrange(at4, at5) == da);
    match m.data {
        None => {
            assert(da == "null"@);
            assert(lit_at(t, at4, "null"@));
        },
        Some(d) => {
            assert(da == quoted(d));
            assert(t[at4] == da[0]);
            assert(t[at4] == '"');
            assert(!lit_at(t, at4, "null"@)) by {
                if lit_at(t, at4, "null"@) {
                    assert(t.subrange(at4, at4 + 4)[0] == 'n');
                    assert(t[at4] == 'n');
                }
            }
            lemma_p_quoted_inverts(t, at4, d, at5);
        },
    }

    assert(t[at5] == (k0 + qk + k1 + ar + k2 + da + br)[at5]);
    assert(t[at5] == '}');
    assert(at5 + 1 == t.len());
    assert(spec_decode_envelope(t) == Some(EnvModel { kind: m.kind, roster: m.roster, data: m.data }));
    assert(EnvModel { kind: m.kind, roster: m.roster, data: m.data } =~= m);
}

// ---------------------------------------------------------------------------
// Encoding: executable level
// ---------------------------------------------------------------------------

/// Appends the characters of a literal.
fn push_lit(out: &mut Vec<char>, lit: &str)
    ensures
        final(out)@ == old(out)@ + lit@,
{
    let mut cs = str_to_chars(lit);
    out.append(&mut cs);
}

/// Exec form of `kind_name`.
fn kind_name_str(k: MsgTypes) -> (r: &'static str)
    ensures
        r@ == kind_name(k),
{
    match k {
        MsgTypes::Users => "users",
        MsgTypes::Register => "register",
        MsgTypes::Message => "message",
    }
}

/// Appending one item to an array tail appends one comma-prefixed element.
proof fn lemma_enc_tail_push(a: Seq<Seq<char>>, x: Seq<char>)
    ensures
        enc_tail(a.push(x)) == enc_tail(a) + seq![','] + quoted(x),
    decreases a.len(),
{
    if a.len() == 0 {
        assert(a.push(x)[0] == x);
        assert(a.push(x).skip(1) =~= Seq::<Seq<char>>::empty());
        assert(enc_tail(Seq::<Seq<char>>::empty()) == Seq::<char>::empty());
        assert(enc_tail(a.push(x)) =~= enc_tail(a) + seq![','] + quoted(x));
    } else {
        assert(a.push(x).skip(1) =~= a.skip(1).push(x));
        lemma_enc_tail_push(a.skip(1), x);
        assert(enc_tail(a.push(x)) =~= enc_tail(a) + seq![','] + quoted(x));
    }
}

/// Appends a JSON array holding the given strings.
fn push_array(out: &mut Vec<char>, v: &Vec<String>)
    ensures
        final(out)@ == old(out)@ + enc_array(strs_view(v@)),
{
    let n = v.len();
    if n == 0 {
        push_lit(out, "[]");
        proof {
            assert(strs_view(v@) =~= Seq::<Seq<char>>::empty());
        }
        return;
    }
    out.push('[');
    push_quoted(out, v[0].as_str());
    let mut k: usize = 1;
    while k < n
        invariant
            n == v@.len(),
            1 <= k <= n,
            out@ == old(out)@ + seq!['['] + quoted(strs_view(v@)[0])
                + enc_tail(strs_view(v@).subrange(1, k as int)),
        decreases n - k,
    {
        out.push(',');
        push_quoted(out, v[k].as_str());
        proof {
            assert(strs_view(v@).subrange(1, k + 1)
                =~= strs_view(v@).subrange(1, k as int).push(strs_view(v@)[k as int]));
            lemma_enc_tail_push(strs_view(v@).subrange(1, k as int), strs_view(v@)[k as int]);
            assert(out@ =~= old(out)@ + seq!['['] + quoted(strs_view(v@)[0])
                + enc_tail(strs_view(v@).subrange(1, k + 1)));
        }
        k = k + 1;
    }
    out.push(']');
    proof {
        assert(strs_view(v@).subrange(1, n as int) =~= strs_view(v@).skip(1));
        assert(out@ =~= old(out)@ + enc_array(strs_view(v@)));
    }
}

/// Encodes an envelope into its canonical text.
pub fn encode_envelope(e: &WebSocketMessage) -> (r: String)
    requires
        wf_envelope(*e),
    ensures
        r@ == spec_encode_envelope(env_model(*e)),
{
    let mut out: Vec<char> = Vec::new();
    push_lit(&mut out, "{\"messageType\":");
    push_quoted(&mut out, kind_name_str(e.message_type));
    push_lit(&mut out, ",\"dataArray\":");
    match &e.data_array {
        None => push_lit(&mut out, "null"),
        Some(v) => push_array(&mut out, v),
    }
    push_lit(&mut out, ",\"data\":");
    match &e.data {
        None => push_lit(&mut out, "null"),
        Some(d) => push_quoted(&mut out, d.as_str()),
    }
    out.push('}');
    proof {
        assert(out@ =~= spec_encode_envelope(env_model(*e)));
    }
    chars_to_string(&out)
}

/// Encodes a message payload into its canonical text.
pub fn encode_message_data(from: &str, message: &str) -> (r: String)
    ensures
        r@ == spec_encode_msg(from@, message@),
{
    let mut out: Vec<char> = Vec::new();
    push_lit(&mut out, "{\"from\":");
    push_quoted(&mut out, from);
    push_lit(&mut out, ",\"message\":");
    push_quoted(&mut out, message);
    out.push('}');
    proof {
        assert(out@ =~= spec_encode_msg(from@, message@));
    }
    chars_to_string(&out)
}

} // verus!
