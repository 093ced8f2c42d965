//! The wire codec.  An envelope travels as the JSON object
//! `{"type":...,"id":...,"content":...}`: `type` a string naming the
//! kind, `id` a non-negative integer, `content` a string or any other
//! JSON value.  The decoder accepts that object as JSON allows it —
//! fields in any order, whitespace between tokens, the usual string
//! escapes including `\uXXXX` and surrogate pairs, unknown members
//! skipped — and rejects everything else; a decode failure ends the
//! offending connection.  The encoder emits one canonical form, which the
//! round-trip law proves the decoder undoes exactly.

use vstd::prelude::*;
use crate::envelope::{Envelope, EnvelopeData, Kind, Payload, PayloadData};
use crate::decimal::{
    spec_is_digit,
    spec_digit_val,
    spec_digit_char,
    spec_digits,
    push_digits,
    is_digit,
    digit_val,
};

verus! {

/// Relies on char::from_u32: a code point converts exactly when it is a
/// Unicode scalar value — not a surrogate, not above the maximum — and
/// the character then carries that code point.
pub assume_specification[ char::from_u32 ](v: u32) -> (r: Option<char>)
    ensures
        (r is Some) == (v < 0xD800 || (0xE000 <= v && v <= 0x10FFFF)),
        r matches Some(c) ==> c as u32 == v,
;

/// The characters a canonical wire message opens with, up to the tag.
pub open spec fn lit_open() -> Seq<char> {
    seq!['{', '"', 't', 'y', 'p', 'e', '"', ':', '"']
}

/// The canonical characters between the tag and the sender id.
pub open spec fn lit_id() -> Seq<char> {
    seq![',', '"', 'i', 'd', '"', ':']
}

/// The canonical characters between the sender id and the content value.
pub open spec fn lit_content() -> Seq<char> {
    seq![',', '"', 'c', 'o', 'n', 't', 'e', 'n', 't', '"', ':']
}

/// The wire tag of each envelope kind.
pub open spec fn spec_tag(k: Kind) -> Seq<char> {
    match k {
        Kind::Identity => seq!['i', 'd', 'e', 'n', 't', 'i', 't', 'y'],
        Kind::Error => seq!['e', 'r', 'r', 'o', 'r'],
        Kind::EchoLocal => seq!['l', 'o', 'c', 'a', 'l'],
        Kind::Chat => seq!['m', 'e', 's', 's', 'a', 'g', 'e'],
        Kind::ParticipantCount => seq!['n', 'b', 'u', 's', 'e', 'r', 's'],
        Kind::Info => seq!['i', 'n', 'f', 'o'],
    }
}

/// The kind a wire tag names, if any.
pub open spec fn spec_kind_of_tag(t: Seq<char>) -> Option<Kind> {
    if t == spec_tag(Kind::Identity) {
        Some(Kind::Identity)
    } else if t == spec_tag(Kind::Error) {
        Some(Kind::Error)
    } else if t == spec_tag(Kind::EchoLocal) {
        Some(Kind::EchoLocal)
    } else if t == spec_tag(Kind::Chat) {
        Some(Kind::Chat)
    } else if t == spec_tag(Kind::ParticipantCount) {
        Some(Kind::ParticipantCount)
    } else if t == spec_tag(Kind::Info) {
        Some(Kind::Info)
    } else {
        None
    }
}

/// JSON whitespace.
pub open spec fn spec_is_json_ws(c: char) -> bool {
    c == ' ' || c == '\t' || c == '\n' || c == '\r'
}

/// The first position at or after `i` holding something other than
/// whitespace.
pub open spec fn spec_skip_ws(s: Seq<char>, i: int) -> int
    decreases s.len() - i,
{
    if 0 <= i < s.len() && spec_is_json_ws(s[i]) {
        spec_skip_ws(s, i + 1)
    } else {
        i
    }
}

/// Skipping whitespace where none stands goes nowhere.
proof fn lemma_skip_ws_noop(s: Seq<char>, i: int)
    requires
        0 <= i <= s.len(),
        i == s.len() || !spec_is_json_ws(s[i]),
    ensures
        spec_skip_ws(s, i) == i,
{
}

/// Whether `c` is a hexadecimal digit.
pub open spec fn spec_is_hex(c: char) -> bool {
    spec_is_digit(c) || c == 'a' || c == 'b' || c == 'c' || c == 'd' || c == 'e' || c == 'f' || c
        == 'A' || c == 'B' || c == 'C' || c == 'D' || c == 'E' || c == 'F'
}

/// The value of a hexadecimal digit; meaningful only when `spec_is_hex`.
pub open spec fn spec_hex_val(c: char) -> int {
    if spec_is_digit(c) {
        spec_digit_val(c)
    } else if c == 'a' || c == 'A' {
        10
    } else if c == 'b' || c == 'B' {
        11
    } else if c == 'c' || c == 'C' {
        12
    } else if c == 'd' || c == 'D' {
        13
    } else if c == 'e' || c == 'E' {
        14
    } else {
        15
    }
}

/// The lower-case hexadecimal digit character for a value below sixteen.
pub open spec fn spec_hex_char(d: int) -> char {
    if d < 10 {
        spec_digit_char(d)
    } else if d == 10 {
        'a'
    } else if d == 11 {
        'b'
    } else if d == 12 {
        'c'
    } else if d == 13 {
        'd'
    } else if d == 14 {
        'e'
    } else {
        'f'
    }
}

/// Hexadecimal digit characters round-trip through their value.
proof fn lemma_hex_char_val(d: int)
    requires
        0 <= d <= 15,
    ensures
        spec_is_hex(spec_hex_char(d)),
        spec_hex_val(spec_hex_char(d)) == d,
{
    if d < 10 {
        crate::decimal::lemma_digit_char_val(d);
    }
}

/// How one content character is written inside a JSON string: the named
/// escapes for the quote, the backslash and the common control
/// characters, `\u00XX` for the other control characters, the character
/// itself for everything else.
pub open spec fn spec_escape_char(c: char) -> Seq<char> {
    if c == '"' {
        seq!['\\', '"']
    } else if c == '\\' {
        seq!['\\', '\\']
    } else if c == '\n' {
        seq!['\\', 'n']
    } else if c == '\r' {
        seq!['\\', 'r']
    } else if c == '\t' {
        seq!['\\', 't']
    } else if c == '\u{8}' {
        seq!['\\', 'b']
    } else if c == '\u{c}' {
        seq!['\\', 'f']
    } else if (c as u32) < 0x20 {
        seq!['\\', 'u', '0', '0', spec_hex_char(c as u32 as int / 16), spec_hex_char(c as u32 as int % 16)]
    } else {
        seq![c]
    }
}

/// How a content text is written inside a JSON string.
pub open spec fn spec_escape(s: Seq<char>) -> Seq<char>
    decreases s.len(),
{
    if s.len() == 0 {
        Seq::empty()
    } else {
        spec_escape_char(s[0]) + spec_escape(s.drop_first())
    }
}

/// The single-character escape codes after a backslash.
pub open spec fn spec_is_escape_code(c: char) -> bool {
    c == '"' || c == '\\' || c == '/' || c == 'n' || c == 'r' || c == 't' || c == 'b' || c == 'f'
}

/// The character a single-character escape code stands for.
pub open spec fn spec_unescape_char(c: char) -> char {
    if c == '"' {
        '"'
    } else if c == '\\' {
        '\\'
    } else if c == '/' {
        '/'
    } else if c == 'n' {
        '\n'
    } else if c == 'r' {
        '\r'
    } else if c == 't' {
        '\t'
    } else if c == 'b' {
        '\u{8}'
    } else {
        '\u{c}'
    }
}

/// Reads a JSON string body starting at `i` (just after the opening
/// quote), unescaping as it goes; `acc` is what has been read so far.
/// Yields the text and the position just after the closing quote, or
/// nothing on an unterminated string, an unknown escape, a bad `\u`
/// escape, or a raw control character.
pub open spec fn spec_scan_string(s: Seq<char>, i: int, acc: Seq<char>) -> Option<(Seq<char>, int)>
    decreases s.len() - i,
{
    if i < 0 || i >= s.len() {
        None
    } else if s[i] == '"' {
        Some((acc, i + 1))
    } else if s[i] == '\\' {
        if i + 1 < s.len() && spec_is_escape_code(s[i + 1]) {
            spec_scan_string(s, i + 2, acc.push(spec_unescape_char(s[i + 1])))
        } else if i + 1 < s.len() && s[i + 1] == 'u' {
            if i + 6 <= s.len() && spec_is_hex(s[i + 2]) && spec_is_hex(s[i + 3]) && spec_is_hex(
                s[i + 4],
            ) && spec_is_hex(s[i + 5]) {
                let v = spec_hex_val(s[i + 2]) * 4096 + spec_hex_val(s[i + 3]) * 256 + spec_hex_val(
                    s[i + 4],
                ) * 16 + spec_hex_val(s[i + 5]);
                if 0xD800 <= v && v < 0xDC00 {
                    if i + 12 <= s.len() && s[i + 6] == '\\' && s[i + 7] == 'u' && spec_is_hex(
                        s[i + 8],
                    ) && spec_is_hex(s[i + 9]) && spec_is_hex(s[i + 10]) && spec_is_hex(
                        s[i + 11],
                    ) {
                        let w = spec_hex_val(s[i + 8]) * 4096 + spec_hex_val(s[i + 9]) * 256
                            + spec_hex_val(s[i + 10]) * 16 + spec_hex_val(s[i + 11]);
                        if 0xDC00 <= w && w < 0xE000 {
                            spec_scan_string(
                                s,
                                i + 12,
                                acc.push(
                                    ((0x10000 + (v - 0xD800) * 1024 + (w - 0xDC00)) as u32) as char,
                                ),
                            )
                        } else {
                            None
                        }
                    } else {
                        None
                    }
                } else if 0xDC00 <= v && v < 0xE000 {
                    None
                } else {
                    spec_scan_string(s, i + 6, acc.push((v as u32) as char))
                }
            } else {
                None
            }
        } else {
            None
        }
    } else if (s[i] as u32) < 0x20 {
        None
    } else {
        spec_scan_string(s, i + 1, acc.push(s[i]))
    }
}

/// Reads decimal digits starting at `i` into the value `acc`, stopping at
/// the first non-digit; nothing on overflow past `usize::MAX`.
pub open spec fn spec_scan_digits(s: Seq<char>, i: int, acc: int) -> Option<(int, int)>
    decreases s.len() - i,
{
    if i < 0 || i >= s.len() {
        Some((acc, i))
    } else if spec_is_digit(s[i]) {
        if acc * 10 + spec_digit_val(s[i]) <= usize::MAX as int {
            spec_scan_digits(s, i + 1, acc * 10 + spec_digit_val(s[i]))
        } else {
            None
        }
    } else {
        Some((acc, i))
    }
}

/// The end of the run of digits starting at `i`.
pub open spec fn spec_digit_run_end(s: Seq<char>, i: int) -> int
    decreases s.len() - i,
{
    if 0 <= i < s.len() && spec_is_digit(s[i]) {
        spec_digit_run_end(s, i + 1)
    } else {
        i
    }
}

/// The position after one JSON number starting at `i`, or nothing if no
/// number stands there.
pub open spec fn spec_skip_number(s: Seq<char>, i: int) -> Option<int> {
    let j = if 0 <= i < s.len() && s[i] == '-' {
        i + 1
    } else {
        i
    };
    if !(0 <= j < s.len() && spec_is_digit(s[j])) {
        None
    } else {
        let k = if s[j] == '0' {
            j + 1
        } else {
            spec_digit_run_end(s, j)
        };
        let k2 = if k < s.len() && s[k] == '.' {
            if k + 1 < s.len() && spec_is_digit(s[k + 1]) {
                spec_digit_run_end(s, k + 1)
            } else {
                -1
            }
        } else {
            k
        };
        if k2 < 0 {
            None
        } else {
            let k3 = if k2 < s.len() && (s[k2] == 'e' || s[k2] == 'E') {
                let m = if k2 + 1 < s.len() && (s[k2 + 1] == '+' || s[k2 + 1] == '-') {
                    k2 + 2
                } else {
                    k2 + 1
                };
                if m < s.len() && spec_is_digit(s[m]) {
                    spec_digit_run_end(s, m)
                } else {
                    -1
                }
            } else {
                k2
            };
            if k3 < 0 {
                None
            } else {
                Some(k3)
            }
        }
    }
}

/// The position after one JSON value starting at `i`, or nothing if no
/// value stands there.  The fuel bounds the nesting walk; one unit is
/// spent for each structural step, each of which consumes at least one
/// character, so a fuel of the text's length never runs out early.
pub open spec fn spec_skip_value(s: Seq<char>, i: int, fuel: nat) -> Option<int>
    decreases fuel, 0int,
{
    if i < 0 || i >= s.len() {
        None
    } else if s[i] == '"' {
        match spec_scan_string(s, i + 1, Seq::empty()) {
            Some(p) => Some(p.1),
            None => None,
        }
    } else if s[i] == '{' {
        if fuel == 0 {
            None
        } else {
            spec_skip_members(s, spec_skip_ws(s, i + 1), true, (fuel - 1) as nat)
        }
    } else if s[i] == '[' {
        if fuel == 0 {
            None
        } else {
            spec_skip_elements(s, spec_skip_ws(s, i + 1), true, (fuel - 1) as nat)
        }
    } else if s[i] == 't' {
        if i + 4 <= s.len() && s[i + 1] == 'r' && s[i + 2] == 'u' && s[i + 3] == 'e' {
            Some(i + 4)
        } else {
            None
        }
    } else if s[i] == 'f' {
        if i + 5 <= s.len() && s[i + 1] == 'a' && s[i + 2] == 'l' && s[i + 3] == 's' && s[i + 4]
            == 'e' {
            Some(i + 5)
        } else {
            None
        }
    } else if s[i] == 'n' {
        if i + 4 <= s.len() && s[i + 1] == 'u' && s[i + 2] == 'l' && s[i + 3] == 'l' {
            Some(i + 4)
        } else {
            None
        }
    } else if s[i] == '-' || spec_is_digit(s[i]) {
        spec_skip_number(s, i)
    } else {
        None
    }
}

/// The position after the members and closing brace of a JSON object,
/// starting at the first non-whitespace position inside it.
pub open spec fn spec_skip_members(s: Seq<char>, i: int, first: bool, fuel: nat) -> Option<int>
    decreases fuel, 1int,
{
    if i < 0 || i >= s.len() {
        None
    } else if s[i] == '}' {
        Some(i + 1)
    } else {
        let k = if first {
            i
        } else if s[i] == ',' {
            spec_skip_ws(s, i + 1)
        } else {
            -1
        };
        if k < 0 || k >= s.len() || s[k] != '"' {
            None
        } else {
            match spec_scan_string(s, k + 1, Seq::empty()) {
                None => None,
                Some(p) => {
                    let c = spec_skip_ws(s, p.1);
                    if !(c < s.len() && s[c] == ':') {
                        None
                    } else {
                        match spec_skip_value(s, spec_skip_ws(s, c + 1), fuel) {
                            None => None,
                            Some(e) => if fuel == 0 {
                                None
                            } else {
                                spec_skip_members(s, spec_skip_ws(s, e), false, (fuel - 1) as nat)
                            },
                        }
                    }
                },
            }
        }
    }
}

/// The position after the elements and closing bracket of a JSON array,
/// starting at the first non-whitespace position inside it.
pub open spec fn spec_skip_elements(s: Seq<char>, i: int, first: bool, fuel: nat) -> Option<int>
    decreases fuel, 1int,
{
    if i < 0 || i >= s.len() {
        None
    } else if s[i] == ']' {
        Some(i + 1)
    } else {
        let k = if first {
            i
        } else if s[i] == ',' {
            spec_skip_ws(s, i + 1)
        } else {
            -1
        };
        if k < 0 {
            None
        } else {
            match spec_skip_value(s, k, fuel) {
                None => None,
                Some(e) => if fuel == 0 {
                    None
                } else {
                    spec_skip_elements(s, spec_skip_ws(s, e), false, (fuel - 1) as nat)
                },
            }
        }
    }
}

/// The fields gathered while reading the envelope's members.
pub ghost struct PartialEnv {
    pub tag: Option<Seq<char>>,
    pub sender: Option<int>,
    pub content: Option<PayloadData>,
}

/// Reads the members of the envelope object, in whatever order they come:
/// `type` must be a string, `id` a non-negative integer without a leading
/// zero, a fraction or an exponent, `content` a string — kept as text —
/// or any other JSON value — kept verbatim.  A duplicate member fails;
/// an unknown member is skipped.  Yields the gathered fields and the
/// position after the closing brace.
pub open spec fn spec_env_members(
    s: Seq<char>,
    i: int,
    st: PartialEnv,
    first: bool,
    fuel: nat,
) -> Option<(PartialEnv, int)>
    decreases fuel, 1int,
{
    if i < 0 || i >= s.len() {
        None
    } else if s[i] == '}' {
        Some((st, i + 1))
    } else {
        let k = if first {
            i
        } else if s[i] == ',' {
            spec_skip_ws(s, i + 1)
        } else {
            -1
        };
        if k < 0 || k >= s.len() || s[k] != '"' {
            None
        } else {
            match spec_scan_string(s, k + 1, Seq::empty()) {
                None => None,
                Some(p) => {
                    let key = p.0;
                    let c = spec_skip_ws(s, p.1);
                    if !(c < s.len() && s[c] == ':') {
                        None
                    } else {
                        let v0 = spec_skip_ws(s, c + 1);
                        if key == seq!['t', 'y', 'p', 'e'] {
                            if st.tag is Some || !(v0 < s.len() && s[v0] == '"') {
                                None
                            } else {
                                match spec_scan_string(s, v0 + 1, Seq::empty()) {
                                    None => None,
                                    Some(q) => if fuel == 0 {
                                        None
                                    } else {
                                        spec_env_members(
                                            s,
                                            spec_skip_ws(s, q.1),
                                            PartialEnv { tag: Some(q.0), ..st },
                                            false,
                                            (fuel - 1) as nat,
                                        )
                                    },
                                }
                            }
                        } else if key == seq!['i', 'd'] {
                            if st.sender is Some || !(v0 < s.len() && spec_is_digit(s[v0])) {
                                None
                            } else {
                                match spec_scan_digits(s, v0, 0) {
                                    None => None,
                                    Some(d) => if s[v0] == '0' && d.1 != v0 + 1 {
                                        None
                                    } else if d.1 < s.len() && (s[d.1] == '.' || s[d.1] == 'e'
                                        || s[d.1] == 'E') {
                                        None
                                    } else if fuel == 0 {
                                        None
                                    } else {
                                        spec_env_members(
                                            s,
                                            spec_skip_ws(s, d.1),
                                            PartialEnv { sender: Some(d.0), ..st },
                                            false,
                                            (fuel - 1) as nat,
                                        )
                                    },
                                }
                            }
                        } else if key == seq!['c', 'o', 'n', 't', 'e', 'n', 't'] {
                            if st.content is Some {
                                None
                            } else if v0 < s.len() && s[v0] == '"' {
                                match spec_scan_string(s, v0 + 1, Seq::empty()) {
                                    None => None,
                                    Some(q) => if fuel == 0 {
                                        None
                                    } else {
                                        spec_env_members(
                                            s,
                                            spec_skip_ws(s, q.1),
                                            PartialEnv {
                                                content: Some(PayloadData::Text(q.0)),
                                                ..st
                                            },
                                            false,
                                            (fuel - 1) as nat,
                                        )
                                    },
                                }
                            } else {
                                match spec_skip_value(s, v0, fuel) {
                                    None => None,
                                    Some(e) => if fuel == 0 {
                                        None
                                    } else {
                                        spec_env_members(
                                            s,
                                            spec_skip_ws(s, e),
                                            PartialEnv {
                                                content: Some(
                                                    PayloadData::Data(s.subrange(v0, e)),
                                                ),
                                                ..st
                                            },
                                            false,
                                            (fuel - 1) as nat,
                                        )
                                    },
                                }
                            }
                        } else {
                            match spec_skip_value(s, v0, fuel) {
                                None => None,
                                Some(e) => if fuel == 0 {
                                    None
                                } else {
                                    spec_env_members(
                                        s,
                                        spec_skip_ws(s, e),
                                        st,
                                        false,
                                        (fuel - 1) as nat,
                                    )
                                },
                            }
                        }
                    }
                },
            }
        }
    }
}

/// The envelope a text decodes to, if it is a well-formed wire envelope:
/// one JSON object holding a known `type`, an `id` and a `content`, and
/// nothing but whitespace around it.
pub open spec fn spec_decode(s: Seq<char>) -> Option<EnvelopeData> {
    let i0 = spec_skip_ws(s, 0);
    if !(i0 < s.len() && s[i0] == '{') {
        None
    } else {
        let st0 = PartialEnv { tag: None, sender: None, content: None };
        match spec_env_members(s, spec_skip_ws(s, i0 + 1), st0, true, s.len()) {
            None => None,
            Some(r) => if spec_skip_ws(s, r.1) != s.len() {
                None
            } else {
                match (r.0.tag, r.0.sender, r.0.content) {
                    (Some(tag), Some(v), Some(content)) => match spec_kind_of_tag(tag) {
                        None => None,
                        Some(kind) => Some(EnvelopeData { kind, sender: v as usize, content }),
                    },
                    _ => None,
                }
            },
        }
    }
}

/// A payload as it stands in the wire object: a quoted, escaped string,
/// or the verbatim text of any other value.
pub open spec fn spec_payload_text(p: PayloadData) -> Seq<char> {
    match p {
        PayloadData::Text(t) => seq!['"'] + spec_escape(t) + seq!['"'],
        PayloadData::Data(d) => d,
    }
}

/// The canonical wire text of an envelope.
pub open spec fn spec_encode(e: EnvelopeData) -> Seq<char> {
    lit_open() + spec_tag(e.kind) + seq!['"'] + lit_id() + spec_digits(e.sender as int)
        + lit_content() + spec_payload_text(e.content) + seq!['}']
}

/// The first position at or after `start` holding something other than
/// whitespace.
fn skip_ws(s: &Vec<char>, start: usize) -> (r: usize)
    requires
        start <= s@.len(),
    ensures
        r == spec_skip_ws(s@, start as int),
        start <= r <= s@.len(),
{
    let slen = s.len();
    let mut i: usize = start;
    loop
        invariant
            start <= i <= slen,
            slen == s@.len(),
            spec_skip_ws(s@, start as int) == spec_skip_ws(s@, i as int),
        decreases slen - i,
    {
        if i >= slen {
            return i;
        }
        let c = s[i];
        if c == ' ' || c == '\t' || c == '\n' || c == '\r' {
            i = i + 1;
        } else {
            return i;
        }
    }
}

/// Whether `c` is a hexadecimal digit.
fn is_hex(c: char) -> (r: bool)
    ensures
        r == spec_is_hex(c),
{
    is_digit(c) || c == 'a' || c == 'b' || c == 'c' || c == 'd' || c == 'e' || c == 'f' || c == 'A'
        || c == 'B' || c == 'C' || c == 'D' || c == 'E' || c == 'F'
}

/// The value of a hexadecimal digit.
fn hex_val(c: char) -> (r: u32)
    requires
        spec_is_hex(c),
    ensures
        r == spec_hex_val(c),
        r <= 15,
{
    if is_digit(c) {
        digit_val(c) as u32
    } else if c == 'a' || c == 'A' {
        10
    } else if c == 'b' || c == 'B' {
        11
    } else if c == 'c' || c == 'C' {
        12
    } else if c == 'd' || c == 'D' {
        13
    } else if c == 'e' || c == 'E' {
        14
    } else {
        15
    }
}

/// The lower-case hexadecimal digit character for a value below sixteen.
fn hex_char(d: u32) -> (r: char)
    requires
        d < 16,
    ensures
        r == spec_hex_char(d as int),
{
    match d {
        0 => '0',
        1 => '1',
        2 => '2',
        3 => '3',
        4 => '4',
        5 => '5',
        6 => '6',
        7 => '7',
        8 => '8',
        9 => '9',
        10 => 'a',
        11 => 'b',
        12 => 'c',
        13 => 'd',
        14 => 'e',
        _ => 'f',
    }
}

/// Reads a JSON string body; see `spec_scan_string`.
fn scan_string(s: &Vec<char>, start: usize) -> (r: Option<(Vec<char>, usize)>)
    requires
        start <= s@.len(),
    ensures
        match r {
            Some(p) => {
                &&& spec_scan_string(s@, start as int, Seq::empty()) == Some((p.0@, p.1 as int))
                &&& start < p.1 <= s@.len()
            },
            None => spec_scan_string(s@, start as int, Seq::empty()) is None,
        },
{
    let slen = s.len();
    let mut acc: Vec<char> = Vec::new();
    let mut i: usize = start;
    loop
        invariant
            start <= i <= slen,
            slen == s@.len(),
            spec_scan_string(s@, start as int, Seq::empty()) == spec_scan_string(
                s@,
                i as int,
                acc@,
            ),
        decreases slen - i,
    {
        if i >= slen {
            return None;
        }
        let c = s[i];
        if c == '"' {
            return Some((acc, i + 1));
        }
        if c == '\\' {
            if slen - i < 2 {
                return None;
            }
            let e = s[i + 1];
            if e == '"' {
                acc.push('"');
                i = i + 2;
            } else if e == '\\' {
                acc.push('\\');
                i = i + 2;
            } else if e == '/' {
                acc.push('/');
                i = i + 2;
            } else if e == 'n' {
                acc.push('\n');
                i = i + 2;
            } else if e == 'r' {
                acc.push('\r');
                i = i + 2;
            } else if e == 't' {
                acc.push('\t');
                i = i + 2;
            } else if e == 'b' {
                acc.push('\u{8}');
                i = i + 2;
            } else if e == 'f' {
                acc.push('\u{c}');
                i = i + 2;
            } else if e == 'u' {
                if slen - i < 6 {
                    return None;
                }
                let h0 = s[i + 2];
                let h1 = s[i + 3];
                let h2 = s[i + 4];
                let h3 = s[i + 5];
                if !(is_hex(h0) && is_hex(h1) && is_hex(h2) && is_hex(h3)) {
                    return None;
                }
                let v: u32 = hex_val(h0) * 4096 + hex_val(h1) * 256 + hex_val(h2) * 16 + hex_val(
                    h3,
                );
                if 0xD800 <= v && v < 0xDC00 {
                    if slen - i < 12 {
                        return None;
                    }
                    if !(s[i + 6] == '\\' && s[i + 7] == 'u') {
                        return None;
                    }
                    let g0 = s[i + 8];
                    let g1 = s[i + 9];
                    let g2 = s[i + 10];
                    let g3 = s[i + 11];
                    if !(is_hex(g0) && is_hex(g1) && is_hex(g2) && is_hex(g3)) {
                        return None;
                    }
                    let w: u32 = hex_val(g0) * 4096 + hex_val(g1) * 256 + hex_val(g2) * 16
                        + hex_val(g3);
                    if !(0xDC00 <= w && w < 0xE000) {
                        return None;
                    }
                    let code: u32 = 0x10000 + (v - 0xD800) * 1024 + (w - 0xDC00);
                    match char::from_u32(code) {
                        Some(c2) => {
                            proof {
                                vstd::utf8::char_u32_cast(c2, code);
                            }
                            acc.push(c2);
                            i = i + 12;
                        },
                        None => {
                            proof {
                                assert(false);
                            }
                            return None;
                        },
                    }
                } else if 0xDC00 <= v && v < 0xE000 {
                    return None;
                } else {
                    match char::from_u32(v) {
                        Some(c2) => {
                            proof {
                                vstd::utf8::char_u32_cast(c2, v);
                            }
                            acc.push(c2);
                            i = i + 6;
                        },
                        None => {
                            proof {
                                assert(false);
                            }
                            return None;
                        },
                    }
                }
            } else {
                return None;
            }
        } else if (c as u32) < 0x20 {
            return None;
        } else {
            acc.push(c);
            i = i + 1;
        }
    }
}

/// Reads a decimal number; see `spec_scan_digits`.
fn scan_digits(s: &Vec<char>, start: usize) -> (r: Option<(usize, usize)>)
    requires
        start <= s@.len(),
    ensures
        match r {
            Some(p) => {
                &&& spec_scan_digits(s@, start as int, 0) == Some((p.0 as int, p.1 as int))
                &&& start <= p.1 <= s@.len()
            },
            None => spec_scan_digits(s@, start as int, 0) is None,
        },
{
    let mut acc: usize = 0;
    let mut i: usize = start;
    loop
        invariant
            start <= i <= s@.len(),
            spec_scan_digits(s@, start as int, 0) == spec_scan_digits(s@, i as int, acc as int),
        decreases s@.len() - i,
    {
        if i >= s.len() {
            return Some((acc, i));
        }
        let c = s[i];
        if !is_digit(c) {
            return Some((acc, i));
        }
        let d = digit_val(c);
        proof {
            assert((acc * 10 + d <= usize::MAX) <==> (acc <= (usize::MAX - d) / 10))
                by (nonlinear_arith)
                requires
                    d <= 9,
                    acc >= 0,
            ;
        }
        if acc > (usize::MAX - d) / 10 {
            return None;
        }
        acc = acc * 10 + d;
        i = i + 1;
    }
}

/// The end of the run of digits starting at `start`.
fn digit_run_end(s: &Vec<char>, start: usize) -> (r: usize)
    requires
        start <= s@.len(),
    ensures
        r == spec_digit_run_end(s@, start as int),
        start <= r <= s@.len(),
{
    let slen = s.len();
    let mut i: usize = start;
    loop
        invariant
            start <= i <= slen,
            slen == s@.len(),
            spec_digit_run_end(s@, start as int) == spec_digit_run_end(s@, i as int),
        decreases slen - i,
    {
        if i >= slen {
            return i;
        }
        if !is_digit(s[i]) {
            return i;
        }
        i = i + 1;
    }
}

/// Skips one JSON number; see `spec_skip_number`.
fn skip_number(s: &Vec<char>, i: usize) -> (r: Option<usize>)
    requires
        i <= s@.len(),
    ensures
        match r {
            Some(e) => spec_skip_number(s@, i as int) == Some(e as int) && i <= e <= s@.len(),
            None => spec_skip_number(s@, i as int) is None,
        },
{
    let slen = s.len();
    let j: usize = if i < slen && s[i] == '-' {
        i + 1
    } else {
        i
    };
    if j >= slen {
        return None;
    }
    if !is_digit(s[j]) {
        return None;
    }
    let k: usize = if s[j] == '0' {
        j + 1
    } else {
        digit_run_end(s, j)
    };
    let k2: usize;
    if k < slen && s[k] == '.' {
        if k + 1 < slen && is_digit(s[k + 1]) {
            k2 = digit_run_end(s, k + 1);
        } else {
            return None;
        }
    } else {
        k2 = k;
    }
    let k3: usize;
    if k2 < slen && (s[k2] == 'e' || s[k2] == 'E') {
        let m: usize = if k2 + 1 < slen && (s[k2 + 1] == '+' || s[k2 + 1] == '-') {
            k2 + 2
        } else {
            k2 + 1
        };
        if m < slen && is_digit(s[m]) {
            k3 = digit_run_end(s, m);
        } else {
            return None;
        }
    } else {
        k3 = k2;
    }
    Some(k3)
}

/// Skips one JSON value; see `spec_skip_value`.
fn skip_value(s: &Vec<char>, i: usize, fuel: usize) -> (r: Option<usize>)
    requires
        i <= s@.len(),
    ensures
        match r {
            Some(e) => spec_skip_value(s@, i as int, fuel as nat) == Some(e as int) && i <= e
                <= s@.len(),
            None => spec_skip_value(s@, i as int, fuel as nat) is None,
        },
    decreases fuel, 0int,
{
    let slen = s.len();
    if i >= slen {
        return None;
    }
    let c = s[i];
    if c == '"' {
        match scan_string(s, i + 1) {
            Some(p) => Some(p.1),
            None => None,
        }
    } else if c == '{' {
        if fuel == 0 {
            return None;
        }
        let j = skip_ws(s, i + 1);
        skip_members(s, j, true, fuel - 1)
    } else if c == '[' {
        if fuel == 0 {
            return None;
        }
        let j = skip_ws(s, i + 1);
        skip_elements(s, j, true, fuel - 1)
    } else if c == 't' {
        if slen - i >= 4 && s[i + 1] == 'r' && s[i + 2] == 'u' && s[i + 3] == 'e' {
            Some(i + 4)
        } else {
            None
        }
    } else if c == 'f' {
        if slen - i >= 5 && s[i + 1] == 'a' && s[i + 2] == 'l' && s[i + 3] == 's' && s[i + 4]
            == 'e' {
            Some(i + 5)
        } else {
            None
        }
    } else if c == 'n' {
        if slen - i >= 4 && s[i + 1] == 'u' && s[i + 2] == 'l' && s[i + 3] == 'l' {
            Some(i + 4)
        } else {
            None
        }
    } else if c == '-' || is_digit(c) {
        skip_number(s, i)
    } else {
        None
    }
}

/// Skips an object's members; see `spec_skip_members`.
fn skip_members(s: &Vec<char>, i: usize, first: bool, fuel: usize) -> (r: Option<usize>)
    requires
        i <= s@.len(),
    ensures
        match r {
            Some(e) => spec_skip_members(s@, i as int, first, fuel as nat) == Some(e as int) && i
                <= e <= s@.len(),
            None => spec_skip_members(s@, i as int, first, fuel as nat) is None,
        },
    decreases fuel, 1int,
{
    let slen = s.len();
    if i >= slen {
        return None;
    }
    if s[i] == '}' {
        return Some(i + 1);
    }
    let k: usize;
    if first {
        k = i;
    } else if s[i] == ',' {
        k = skip_ws(s, i + 1);
    } else {
        return None;
    }
    if k >= slen {
        return None;
    }
    if s[k] != '"' {
        return None;
    }
    let scanned = scan_string(s, k + 1);
    let j = match scanned {
        None => {
            return None;
        },
        Some(p) => p.1,
    };
    let c = skip_ws(s, j);
    if c >= slen {
        return None;
    }
    if s[c] != ':' {
        return None;
    }
    let v0 = skip_ws(s, c + 1);
    let e = match skip_value(s, v0, fuel) {
        None => {
            return None;
        },
        Some(e) => e,
    };
    if fuel == 0 {
        return None;
    }
    let j2 = skip_ws(s, e);
    skip_members(s, j2, false, fuel - 1)
}

/// Skips an array's elements; see `spec_skip_elements`.
fn skip_elements(s: &Vec<char>, i: usize, first: bool, fuel: usize) -> (r: Option<usize>)
    requires
        i <= s@.len(),
    ensures
        match r {
            Some(e) => spec_skip_elements(s@, i as int, first, fuel as nat) == Some(e as int) && i
                <= e <= s@.len(),
            None => spec_skip_elements(s@, i as int, first, fuel as nat) is None,
        },
    decreases fuel, 1int,
{
    let slen = s.len();
    if i >= slen {
        return None;
    }
    if s[i] == ']' {
        return Some(i + 1);
    }
    let k: usize;
    if first {
        k = i;
    } else if s[i] == ',' {
        k = skip_ws(s, i + 1);
    } else {
        return None;
    }
    let e = match skip_value(s, k, fuel) {
        None => {
            return None;
        },
        Some(e) => e,
    };
    if fuel == 0 {
        return None;
    }
    skip_elements(s, skip_ws(s, e), false, fuel - 1)
}

/// The fields gathered while reading the envelope's members.
struct PartialParse {
    tag: Option<Vec<char>>,
    sender: Option<usize>,
    content: Option<Payload>,
}

impl View for PartialParse {
    type V = PartialEnv;

    closed spec fn view(&self) -> PartialEnv {
        PartialEnv {
            tag: match self.tag {
                Some(t) => Some(t@),
                None => None,
            },
            sender: match self.sender {
                Some(v) => Some(v as int),
                None => None,
            },
            content: match self.content {
                Some(c) => Some(c@),
                None => None,
            },
        }
    }
}

/// Whether a member key reads `type`.
fn is_key_type(k: &Vec<char>) -> (r: bool)
    ensures
        r == (k@ == seq!['t', 'y', 'p', 'e']),
{
    let r = k.len() == 4 && k[0] == 't' && k[1] == 'y' && k[2] == 'p' && k[3] == 'e';
    proof {
        if r {
            assert(k@ =~= seq!['t', 'y', 'p', 'e']);
        } else if k@ == seq!['t', 'y', 'p', 'e'] {
            assert(k@[0] == 't' && k@[1] == 'y' && k@[2] == 'p' && k@[3] == 'e');
        }
    }
    r
}

/// Whether a member key reads `id`.
fn is_key_id(k: &Vec<char>) -> (r: bool)
    ensures
        r == (k@ == seq!['i', 'd']),
{
    let r = k.len() == 2 && k[0] == 'i' && k[1] == 'd';
    proof {
        if r {
            assert(k@ =~= seq!['i', 'd']);
        } else if k@ == seq!['i', 'd'] {
            assert(k@[0] == 'i' && k@[1] == 'd');
        }
    }
    r
}

/// Whether a member key reads `content`.
fn is_key_content(k: &Vec<char>) -> (r: bool)
    ensures
        r == (k@ == seq!['c', 'o', 'n', 't', 'e', 'n', 't']),
{
    let r = k.len() == 7 && k[0] == 'c' && k[1] == 'o' && k[2] == 'n' && k[3] == 't' && k[4] == 'e'
        && k[5] == 'n' && k[6] == 't';
    proof {
        if r {
            assert(k@ =~= seq!['c', 'o', 'n', 't', 'e', 'n', 't']);
        } else if k@ == seq!['c', 'o', 'n', 't', 'e', 'n', 't'] {
            assert(k@[0] == 'c' && k@[1] == 'o' && k@[2] == 'n' && k@[3] == 't' && k@[4] == 'e'
                && k@[5] == 'n' && k@[6] == 't');
        }
    }
    r
}

/// A copy of the characters between two positions.
fn copy_range(s: &Vec<char>, from: usize, to: usize) -> (r: Vec<char>)
    requires
        from <= to <= s@.len(),
    ensures
        r@ == s@.subrange(from as int, to as int),
{
    let mut out: Vec<char> = Vec::new();
    let mut i: usize = from;
    proof {
        assert(out@ =~= s@.subrange(from as int, from as int));
    }
    while i < to
        invariant
            from <= i <= to,
            to <= s@.len(),
            out@ == s@.subrange(from as int, i as int),
        decreases to - i,
    {
        out.push(s[i]);
        proof {
            assert(s@.subrange(from as int, i + 1) =~= s@.subrange(from as int, i as int).push(
                s@[i as int],
            ));
        }
        i = i + 1;
    }
    out
}

/// Reads the envelope object's members; see `spec_env_members`.
fn env_members(s: &Vec<char>, i: usize, st: PartialParse, first: bool, fuel: usize) -> (r: Option<
    (PartialParse, usize),
>)
    requires
        i <= s@.len(),
    ensures
        match r {
            Some(p) => spec_env_members(s@, i as int, st@, first, fuel as nat) == Some(
                (p.0@, p.1 as int),
            ) && p.1 <= s@.len(),
            None => spec_env_members(s@, i as int, st@, first, fuel as nat) is None,
        },
    decreases fuel, 1int,
{
    let slen = s.len();
    if i >= slen {
        return None;
    }
    if s[i] == '}' {
        return Some((st, i + 1));
    }
    let k: usize;
    if first {
        k = i;
    } else if s[i] == ',' {
        k = skip_ws(s, i + 1);
    } else {
        return None;
    }
    if k >= slen {
        return None;
    }
    if s[k] != '"' {
        return None;
    }
    let scanned = scan_string(s, k + 1);
    let (key, j) = match scanned {
        None => {
            return None;
        },
        Some(p) => p,
    };
    let c = skip_ws(s, j);
    if c >= slen {
        return None;
    }
    if s[c] != ':' {
        return None;
    }
    let v0 = skip_ws(s, c + 1);
    if is_key_type(&key) {
        if st.tag.is_some() {
            return None;
        }
        if v0 >= slen {
            return None;
        }
        if s[v0] != '"' {
            return None;
        }
        let scanned_tag = scan_string(s, v0 + 1);
        let (tag, e) = match scanned_tag {
            None => {
                return None;
            },
            Some(p) => p,
        };
        if fuel == 0 {
            return None;
        }
        let st2 = PartialParse { tag: Some(tag), sender: st.sender, content: st.content };
        env_members(s, skip_ws(s, e), st2, false, fuel - 1)
    } else if is_key_id(&key) {
        if st.sender.is_some() {
            return None;
        }
        if v0 >= slen {
            return None;
        }
        if !is_digit(s[v0]) {
            return None;
        }
        let scanned_num = scan_digits(s, v0);
        let (v, e) = match scanned_num {
            None => {
                return None;
            },
            Some(p) => p,
        };
        if s[v0] == '0' && e != v0 + 1 {
            return None;
        }
        if e < slen && (s[e] == '.' || s[e] == 'e' || s[e] == 'E') {
            return None;
        }
        if fuel == 0 {
            return None;
        }
        let st2 = PartialParse { tag: st.tag, sender: Some(v), content: st.content };
        env_members(s, skip_ws(s, e), st2, false, fuel - 1)
    } else if is_key_content(&key) {
        if st.content.is_some() {
            return None;
        }
        if v0 < slen && s[v0] == '"' {
            let scanned_text = scan_string(s, v0 + 1);
            let (txt, e) = match scanned_text {
                None => {
                    return None;
                },
                Some(p) => p,
            };
            if fuel == 0 {
                return None;
            }
            let st2 = PartialParse {
                tag: st.tag,
                sender: st.sender,
                content: Some(Payload::Text(txt)),
            };
            env_members(s, skip_ws(s, e), st2, false, fuel - 1)
        } else {
            let e = match skip_value(s, v0, fuel) {
                None => {
                    return None;
                },
                Some(e) => e,
            };
            if fuel == 0 {
                return None;
            }
            let raw = copy_range(s, v0, e);
            let st2 = PartialParse {
                tag: st.tag,
                sender: st.sender,
                content: Some(Payload::Data(raw)),
            };
            env_members(s, skip_ws(s, e), st2, false, fuel - 1)
        }
    } else {
        let e = match skip_value(s, v0, fuel) {
            None => {
                return None;
            },
            Some(e) => e,
        };
        if fuel == 0 {
            return None;
        }
        env_members(s, skip_ws(s, e), st, false, fuel - 1)
    }
}

/// The kind a wire tag names, if any.
fn kind_of_tag(t: &Vec<char>) -> (r: Option<Kind>)
    ensures
        r == spec_kind_of_tag(t@),
{
    let n = t.len();
    if n == 8 && t[0] == 'i' && t[1] == 'd' && t[2] == 'e' && t[3] == 'n' && t[4] == 't' && t[5]
        == 'i' && t[6] == 't' && t[7] == 'y' {
        proof {
            assert(t@ =~= spec_tag(Kind::Identity));
        }
        Some(Kind::Identity)
    } else if n == 5 && t[0] == 'e' && t[1] == 'r' && t[2] == 'r' && t[3] == 'o' && t[4] == 'r' {
        proof {
            assert(t@ =~= spec_tag(Kind::Error));
        }
        Some(Kind::Error)
    } else if n == 5 && t[0] == 'l' && t[1] == 'o' && t[2] == 'c' && t[3] == 'a' && t[4] == 'l' {
        proof {
            assert(t@ =~= spec_tag(Kind::EchoLocal));
        }
        Some(Kind::EchoLocal)
    } else if n == 7 && t[0] == 'm' && t[1] == 'e' && t[2] == 's' && t[3] == 's' && t[4] == 'a'
        && t[5] == 'g' && t[6] == 'e' {
        proof {
            assert(t@ =~= spec_tag(Kind::Chat));
        }
        Some(Kind::Chat)
    } else if n == 7 && t[0] == 'n' && t[1] == 'b' && t[2] == 'u' && t[3] == 's' && t[4] == 'e'
        && t[5] == 'r' && t[6] == 's' {
        proof {
            assert(t@ =~= spec_tag(Kind::ParticipantCount));
        }
        Some(Kind::ParticipantCount)
    } else if n == 4 && t[0] == 'i' && t[1] == 'n' && t[2] == 'f' && t[3] == 'o' {
        proof {
            assert(t@ =~= spec_tag(Kind::Info));
        }
        Some(Kind::Info)
    } else {
        proof {
            assert(t@ != spec_tag(Kind::Identity) && t@ != spec_tag(Kind::Error) && t@ != spec_tag(
                Kind::EchoLocal,
            ) && t@ != spec_tag(Kind::Chat) && t@ != spec_tag(Kind::ParticipantCount) && t@
                != spec_tag(Kind::Info));
        }
        None
    }
}

/// The envelope a wire text decodes to, or nothing if the text is not a
/// well-formed wire envelope.
pub fn decode(s: &Vec<char>) -> (r: Option<Envelope>)
    ensures
        match r {
            Some(e) => spec_decode(s@) == Some(e@),
            None => spec_decode(s@) is None,
        },
{
    let slen = s.len();
    let i0 = skip_ws(s, 0);
    if i0 >= slen {
        return None;
    }
    if s[i0] != '{' {
        return None;
    }
    let st0 = PartialParse { tag: None, sender: None, content: None };
    let j0 = skip_ws(s, i0 + 1);
    let parsed = env_members(s, j0, st0, true, slen);
    let (st, endpos) = match parsed {
        None => {
            return None;
        },
        Some(p) => p,
    };
    let end = skip_ws(s, endpos);
    if end != slen {
        return None;
    }
    let tag = match st.tag {
        None => {
            return None;
        },
        Some(t) => t,
    };
    let v = match st.sender {
        None => {
            return None;
        },
        Some(v) => v,
    };
    let content = match st.content {
        None => {
            return None;
        },
        Some(c) => c,
    };
    let kind = match kind_of_tag(&tag) {
        None => {
            return None;
        },
        Some(k) => k,
    };
    Some(Envelope { kind, sender: v, content })
}

/// The opening literal, as a vector.
fn lit_open_vec() -> (r: Vec<char>)
    ensures
        r@ == lit_open(),
{
    let mut v: Vec<char> = Vec::new();
    v.push('{');
    v.push('"');
    v.push('t');
    v.push('y');
    v.push('p');
    v.push('e');
    v.push('"');
    v.push(':');
    v.push('"');
    proof {
        assert(v@ =~= lit_open());
    }
    v
}

/// The id literal, as a vector.
fn lit_id_vec() -> (r: Vec<char>)
    ensures
        r@ == lit_id(),
{
    let mut v: Vec<char> = Vec::new();
    v.push(',');
    v.push('"');
    v.push('i');
    v.push('d');
    v.push('"');
    v.push(':');
    proof {
        assert(v@ =~= lit_id());
    }
    v
}

/// The content literal, as a vector.
fn lit_content_vec() -> (r: Vec<char>)
    ensures
        r@ == lit_content(),
{
    let mut v: Vec<char> = Vec::new();
    v.push(',');
    v.push('"');
    v.push('c');
    v.push('o');
    v.push('n');
    v.push('t');
    v.push('e');
    v.push('n');
    v.push('t');
    v.push('"');
    v.push(':');
    proof {
        assert(v@ =~= lit_content());
    }
    v
}

/// The wire tag of a kind, as a vector.
fn tag_vec(k: Kind) -> (r: Vec<char>)
    ensures
        r@ == spec_tag(k),
{
    let mut v: Vec<char> = Vec::new();
    match k {
        Kind::Identity => {
            v.push('i');
            v.push('d');
            v.push('e');
            v.push('n');
            v.push('t');
            v.push('i');
            v.push('t');
            v.push('y');
            proof {
                assert(v@ =~= spec_tag(k));
            }
        },
        Kind::Error => {
            v.push('e');
            v.push('r');
            v.push('r');
            v.push('o');
            v.push('r');
            proof {
                assert(v@ =~= spec_tag(k));
            }
        },
        Kind::EchoLocal => {
            v.push('l');
            v.push('o');
            v.push('c');
            v.push('a');
            v.push('l');
            proof {
                assert(v@ =~= spec_tag(k));
            }
        },
        Kind::Chat => {
            v.push('m');
            v.push('e');
            v.push('s');
            v.push('s');
            v.push('a');
            v.push('g');
            v.push('e');
            proof {
                assert(v@ =~= spec_tag(k));
            }
        },
        Kind::ParticipantCount => {
            v.push('n');
            v.push('b');
            v.push('u');
            v.push('s');
            v.push('e');
            v.push('r');
            v.push('s');
            proof {
                assert(v@ =~= spec_tag(k));
            }
        },
        Kind::Info => {
            v.push('i');
            v.push('n');
            v.push('f');
            v.push('o');
            proof {
                assert(v@ =~= spec_tag(k));
            }
        },
    }
    v
}

/// Appends every character of `piece` to `out`.
fn push_all(out: &mut Vec<char>, piece: &Vec<char>)
    ensures
        final(out)@ == old(out)@ + piece@,
{
    let n = piece.len();
    let mut i: usize = 0;
    while i < n
        invariant
            i <= n,
            n == piece@.len(),
            out@ == old(out)@ + piece@.take(i as int),
        decreases n - i,
    {
        out.push(piece[i]);
        proof {
            assert(piece@.take(i + 1) =~= piece@.take(i as int).push(piece@[i as int]));
        }
        i = i + 1;
    }
    proof {
        assert(piece@.take(n as int) =~= piece@);
    }
}

/// Escaping distributes over concatenation.
proof fn lemma_escape_append(a: Seq<char>, b: Seq<char>)
    ensures
        spec_escape(a + b) == spec_escape(a) + spec_escape(b),
    decreases a.len(),
{
    if a.len() == 0 {
        assert(a + b =~= b);
        assert(spec_escape(a) + spec_escape(b) =~= spec_escape(b));
    } else {
        assert((a + b).drop_first() =~= a.drop_first() + b);
        lemma_escape_append(a.drop_first(), b);
        assert(spec_escape(a + b) =~= spec_escape(a) + spec_escape(b));
    }
}

/// Escaping one more character appends that character's escaped form.
proof fn lemma_escape_snoc(t: Seq<char>, c: char)
    ensures
        spec_escape(t.push(c)) == spec_escape(t) + spec_escape_char(c),
{
    lemma_escape_append(t, seq![c]);
    assert(t.push(c) =~= t + seq![c]);
    assert(seq![c].drop_first() =~= Seq::<char>::empty());
    assert(spec_escape(seq![c]) == spec_escape_char(seq![c][0]) + spec_escape(
        seq![c].drop_first(),
    ));
    assert(spec_escape(seq![c]) =~= spec_escape_char(c));
}

/// Appends the escaped form of `s` to `out`.
fn push_escaped(out: &mut Vec<char>, s: &Vec<char>)
    ensures
        final(out)@ == old(out)@ + spec_escape(s@),
{
    let n = s.len();
    let mut i: usize = 0;
    while i < n
        invariant
            i <= n,
            n == s@.len(),
            out@ == old(out)@ + spec_escape(s@.take(i as int)),
        decreases n - i,
    {
        let c = s[i];
        if c == '"' {
            out.push('\\');
            out.push('"');
        } else if c == '\\' {
            out.push('\\');
            out.push('\\');
        } else if c == '\n' {
            out.push('\\');
            out.push('n');
        } else if c == '\r' {
            out.push('\\');
            out.push('r');
        } else if c == '\t' {
            out.push('\\');
            out.push('t');
        } else if c == '\u{8}' {
            out.push('\\');
            out.push('b');
        } else if c == '\u{c}' {
            out.push('\\');
            out.push('f');
        } else if (c as u32) < 0x20 {
            let v = c as u32;
            out.push('\\');
            out.push('u');
            out.push('0');
            out.push('0');
            out.push(hex_char(v / 16));
            out.push(hex_char(v % 16));
        } else {
            out.push(c);
        }
        proof {
            lemma_escape_snoc(s@.take(i as int), s@[i as int]);
            assert(s@.take(i + 1) =~= s@.take(i as int).push(s@[i as int]));
            assert(out@ =~= old(out)@ + spec_escape(s@.take(i + 1)));
        }
        i = i + 1;
    }
    proof {
        assert(s@.take(n as int) =~= s@);
    }
}

/// The canonical wire text of an envelope.
pub fn encode(e: &Envelope) -> (r: Vec<char>)
    ensures
        r@ == spec_encode(e@),
{
    let mut out: Vec<char> = Vec::new();
    let open = lit_open_vec();
    push_all(&mut out, &open);
    let tag = tag_vec(e.kind);
    push_all(&mut out, &tag);
    out.push('"');
    let lid = lit_id_vec();
    push_all(&mut out, &lid);
    push_digits(&mut out, e.sender);
    let lc = lit_content_vec();
    push_all(&mut out, &lc);
    match &e.content {
        Payload::Text(t) => {
            out.push('"');
            push_escaped(&mut out, t);
            out.push('"');
            proof {
                assert(spec_payload_text(e@.content) =~= seq!['"'] + spec_escape(t@)
                    + seq!['"']);
            }
        },
        Payload::Data(d) => {
            push_all(&mut out, d);
        },
    }
    out.push('}');
    proof {
        assert(out@ =~= spec_encode(e@));
    }
    out
}

/// Ten to the power `k`.
spec fn pow10(k: nat) -> int
    decreases k,
{
    if k == 0 {
        1
    } else {
        10 * pow10((k - 1) as nat)
    }
}

/// Powers of ten are positive.
proof fn lemma_pow10_pos(k: nat)
    ensures
        pow10(k) >= 1,
    decreases k,
{
    if k > 0 {
        lemma_pow10_pos((k - 1) as nat);
    }
}

/// No wire tag holds a quote, a backslash or a control character.
proof fn lemma_tag_clean(k: Kind)
    ensures
        spec_tag(k).len() >= 1,
        forall|j: int|
            0 <= j < spec_tag(k).len() ==> #[trigger] spec_tag(k)[j] != '"' && spec_tag(k)[j]
                != '\\' && (spec_tag(k)[j] as u32) >= 0x20,
{
}

/// Distinct kinds have distinct wire tags, so a tag names its kind back.
proof fn lemma_kind_of_tag_inverse(k: Kind)
    ensures
        spec_kind_of_tag(spec_tag(k)) == Some(k),
{
    assert(spec_tag(Kind::Error)[0] == 'e');
    assert(spec_tag(Kind::EchoLocal)[0] == 'l');
    assert(spec_tag(Kind::Chat)[0] == 'm');
    assert(spec_tag(Kind::ParticipantCount)[0] == 'n');
}

/// Scanning a string body that holds no quote, no backslash and no
/// control character, up to its closing quote, yields exactly that text.
proof fn lemma_scan_clean(s: Seq<char>, i: int, acc: Seq<char>, t: Seq<char>)
    requires
        0 <= i,
        i + t.len() + 1 <= s.len(),
        forall|k: int| 0 <= k < t.len() ==> s[i + k] == #[trigger] t[k],
        forall|k: int|
            0 <= k < t.len() ==> #[trigger] t[k] != '"' && t[k] != '\\' && (t[k] as u32) >= 0x20,
        s[i + t.len()] == '"',
    ensures
        spec_scan_string(s, i, acc) == Some((acc + t, i + t.len() + 1)),
    decreases t.len(),
{
    if t.len() == 0 {
        assert(s[i] == '"');
        assert(acc + t =~= acc);
    } else {
        assert(s[i] == t[0]);
        assert forall|k: int| 0 <= k < t.drop_first().len() implies s[(i + 1) + k]
            == #[trigger] t.drop_first()[k] by {
            assert(t.drop_first()[k] == t[k + 1]);
            assert(s[i + (k + 1)] == t[k + 1]);
        }
        assert forall|k: int| 0 <= k < t.drop_first().len() implies #[trigger] t.drop_first()[k]
            != '"' && t.drop_first()[k] != '\\' && (t.drop_first()[k] as u32) >= 0x20 by {
            assert(t.drop_first()[k] == t[k + 1]);
        }
        assert(s[(i + 1) + t.drop_first().len()] == '"');
        lemma_scan_clean(s, i + 1, acc.push(t[0]), t.drop_first());
        assert(acc.push(t[0]) + t.drop_first() =~= acc + t);
    }
}

/// Scanning the escaped form of a text, up to its closing quote, undoes
/// the escaping exactly.
proof fn lemma_scan_escaped(s: Seq<char>, i: int, acc: Seq<char>, raw: Seq<char>)
    requires
        0 <= i,
        i + spec_escape(raw).len() + 1 <= s.len(),
        forall|k: int|
            0 <= k < spec_escape(raw).len() ==> s[i + k] == #[trigger] spec_escape(raw)[k],
        s[i + spec_escape(raw).len()] == '"',
    ensures
        spec_scan_string(s, i, acc) == Some((acc + raw, i + spec_escape(raw).len() + 1)),
    decreases raw.len(),
{
    if raw.len() == 0 {
        assert(spec_escape(raw).len() == 0);
        assert(s[i] == '"');
        assert(acc + raw =~= acc);
    } else {
        let c = raw[0];
        let ec = spec_escape_char(c);
        let rest = spec_escape(raw.drop_first());
        assert(spec_escape(raw) == ec + rest);
        let el = ec.len();
        assert forall|k: int| 0 <= k < rest.len() implies s[(i + el) + k] == #[trigger] rest[k] by {
            assert(spec_escape(raw)[el + k] == rest[k]);
            assert(s[i + (el + k)] == spec_escape(raw)[el + k]);
        }
        assert(s[(i + el) + rest.len()] == '"');
        assert(s[i] == spec_escape(raw)[0]);
        assert(spec_escape(raw)[0] == ec[0]);
        if c == '"' || c == '\\' || c == '\n' || c == '\r' || c == '\t' || c == '\u{8}' || c
            == '\u{c}' {
            assert(el == 2);
            assert(s[i] == '\\');
            assert(s[i + 1] == spec_escape(raw)[1]);
            assert(spec_escape(raw)[1] == ec[1]);
            assert(spec_is_escape_code(s[i + 1]));
            assert(spec_unescape_char(s[i + 1]) == c);
            lemma_scan_escaped(s, i + 2, acc.push(c), raw.drop_first());
            assert(acc.push(c) + raw.drop_first() =~= acc + raw);
        } else if (c as u32) < 0x20 {
            let v = c as u32 as int;
            assert(el == 6);
            assert(ec[0] == '\\' && ec[1] == 'u' && ec[2] == '0' && ec[3] == '0' && ec[4]
                == spec_hex_char(v / 16) && ec[5] == spec_hex_char(v % 16));
            assert forall|k: int| 0 <= k < 6 implies s[i + k] == ec[k] by {
                assert(s[i + k] == spec_escape(raw)[k]);
            }
            assert(s[i] == '\\');
            assert(s[i + 1] == 'u');
            assert(!spec_is_escape_code('u'));
            lemma_hex_char_val(v / 16);
            lemma_hex_char_val(v % 16);
            crate::decimal::lemma_digit_char_val(0);
            assert(spec_is_hex('0'));
            assert(spec_hex_val('0') == 0);
            assert(spec_is_hex(s[i + 2]) && spec_is_hex(s[i + 3]) && spec_is_hex(s[i + 4])
                && spec_is_hex(s[i + 5]));
            let w = spec_hex_val(s[i + 2]) * 4096 + spec_hex_val(s[i + 3]) * 256 + spec_hex_val(
                s[i + 4],
            ) * 16 + spec_hex_val(s[i + 5]);
            assert(w == (v / 16) * 16 + (v % 16));
            assert(w == v);
            assert(0 <= w < 0x20);
            vstd::utf8::char_u32_cast(c, v as u32);
            assert(((w as u32) as char) == c);
            lemma_scan_escaped(s, i + 6, acc.push(c), raw.drop_first());
            assert(acc.push(c) + raw.drop_first() =~= acc + raw);
        } else {
            assert(el == 1);
            assert(ec[0] == c);
            assert(s[i] == c);
            lemma_scan_escaped(s, i + 1, acc.push(c), raw.drop_first());
            assert(acc.push(c) + raw.drop_first() =~= acc + raw);
        }
    }
}

/// Scanning the digit string of `n` multiplies what was read before by
/// the matching power of ten and adds `n`.
proof fn lemma_scan_digits_chain(s: Seq<char>, i: int, acc: int, n: int)
    requires
        0 <= i,
        0 <= n,
        0 <= acc,
        i + spec_digits(n).len() <= s.len(),
        forall|k: int| 0 <= k < spec_digits(n).len() ==> s[i + k] == #[trigger] spec_digits(n)[k],
        acc * pow10(spec_digits(n).len() as nat) + n <= usize::MAX as int,
    ensures
        spec_scan_digits(s, i, acc) == spec_scan_digits(
            s,
            i + spec_digits(n).len(),
            acc * pow10(spec_digits(n).len() as nat) + n,
        ),
    decreases n,
{
    crate::decimal::lemma_digits_shape(n);
    let cl = spec_digits(n).len() as int;
    if n < 10 {
        assert(cl == 1);
        assert(spec_digits(n) == seq![spec_digit_char(n)]);
        assert(s[i + 0] == spec_digits(n)[0]);
        assert(s[i] == spec_digit_char(n));
        crate::decimal::lemma_digit_char_val(n);
        assert(pow10(1nat) == 10 * pow10(0nat));
        assert(pow10(0nat) == 1);
        assert(acc * 10 + n <= usize::MAX as int);
        assert(spec_scan_digits(s, i, acc) == spec_scan_digits(s, i + 1, acc * 10 + n));
        assert(acc * pow10(1nat) + n == acc * 10 + n) by (nonlinear_arith)
            requires
                pow10(1nat) == 10,
        ;
    } else {
        let m = n / 10;
        let d = n % 10;
        let dm = spec_digits(m);
        let lm = dm.len() as int;
        assert(spec_digits(n) == dm + seq![spec_digit_char(d)]);
        assert(cl == lm + 1);
        crate::decimal::lemma_digits_shape(m);
        assert forall|k: int| 0 <= k < dm.len() implies s[i + k] == #[trigger] dm[k] by {
            assert(spec_digits(n)[k] == dm[k]);
        }
        lemma_pow10_pos(lm as nat);
        assert(pow10(cl as nat) == 10 * pow10(lm as nat));
        let pm = pow10(lm as nat);
        assert(acc * pm + m <= usize::MAX as int) by (nonlinear_arith)
            requires
                acc >= 0,
                pm >= 1,
                m >= 0,
                d >= 0,
                n == 10 * m + d,
                acc * (10 * pm) + n <= usize::MAX as int,
        ;
        lemma_scan_digits_chain(s, i, acc, m);
        let acc2 = acc * pm + m;
        assert(s[i + lm] == spec_digits(n)[lm]);
        assert(spec_digits(n)[lm] == spec_digit_char(d));
        crate::decimal::lemma_digit_char_val(d);
        assert(spec_is_digit(s[i + lm]));
        assert(spec_digit_val(s[i + lm]) == d);
        assert(acc2 * 10 + d == acc * (10 * pm) + n) by (nonlinear_arith)
            requires
                acc2 == acc * pm + m,
                n == 10 * m + d,
        ;
        assert(acc2 * 10 + d <= usize::MAX as int);
        assert(i + lm < s.len());
        assert(spec_scan_digits(s, i + lm, acc2) == spec_scan_digits(s, i + lm + 1, acc2 * 10 + d));
    }
}

/// The canonical text read up to past the `type` member.
#[verifier::rlimit(100)]
proof fn lemma_rt_step_type(e: EnvelopeData)
    requires
        e.content is Text,
    ensures
        spec_env_members(
            spec_encode(e),
            1,
            PartialEnv { tag: None, sender: None, content: None },
            true,
            spec_encode(e).len() as nat,
        ) == spec_env_members(
            spec_encode(e),
            10 + spec_tag(e.kind).len() as int,
            PartialEnv { tag: Some(spec_tag(e.kind)), sender: None, content: None },
            false,
            (spec_encode(e).len() - 1) as nat,
        ),
{
    let t = spec_tag(e.kind);
    let lt = t.len() as int;
    let n = e.sender as int;
    let dg = spec_digits(n);
    let ld = dg.len() as int;
    let t0 = match e.content {
        PayloadData::Text(x) => x,
        PayloadData::Data(x) => x,
    };
    let esc = spec_escape(t0);
    let le = esc.len() as int;
    let p1 = lit_open() + t;
    let p2 = p1 + seq!['"'];
    let p3 = p2 + lit_id();
    let p4 = p3 + dg;
    let p5 = p4 + lit_content();
    let p6 = p5 + spec_payload_text(e.content);
    let s = p6 + seq!['}'];
    assert(spec_payload_text(e.content) == seq!['"'] + esc + seq!['"']);
    assert(s == spec_encode(e));
    lemma_tag_clean(e.kind);
    crate::decimal::lemma_digits_shape(n);
    assert(s.len() == 30 + lt + ld + le);
    let fl = s.len();
    let i1 = 10 + lt;
    let i2 = i1 + 6;
    let i3 = i2 + ld;
    let v0 = i3 + 11;
    let i4 = v0 + 2 + le;
    let kt = seq!['t', 'y', 'p', 'e'];
    assert(s[1] == '"') by {
        assert(s[1] == p1[1]);
    }
    assert forall|m: int| 0 <= m < 4 implies s[2 + m] == #[trigger] kt[m] by {
        assert(s[2 + m] == p1[2 + m]);
        assert(p1[2 + m] == lit_open()[2 + m]);
    }
    assert(s[6] == '"') by {
        assert(s[6] == p1[6]);
    }
    lemma_scan_clean(s, 2, Seq::empty(), kt);
    assert(Seq::empty() + kt =~= kt);
    assert(s[7] == ':') by {
        assert(s[7] == p1[7]);
    }
    lemma_skip_ws_noop(s, 7);
    assert(s[8] == '"') by {
        assert(s[8] == p1[8]);
    }
    lemma_skip_ws_noop(s, 8);
    assert forall|m: int| 0 <= m < lt implies s[9 + m] == #[trigger] t[m] by {
        assert(s[9 + m] == p1[9 + m]);
        assert(p1[9 + m] == t[m]);
    }
    assert(s[9 + lt] == '"') by {
        assert(s[9 + lt] == p2[9 + lt]);
    }
    lemma_scan_clean(s, 9, Seq::empty(), t);
    assert(Seq::empty() + t =~= t);
    assert(s[i1] == ',') by {
        assert(s[i1] == p3[i1]);
        assert(p3[i1] == lit_id()[0]);
    }
    lemma_skip_ws_noop(s, i1);
}

/// The canonical text read up to past the `id` member.
#[verifier::rlimit(100)]
proof fn lemma_rt_step_id(e: EnvelopeData)
    requires
        e.content is Text,
    ensures
        spec_env_members(
            spec_encode(e),
            10 + spec_tag(e.kind).len() as int,
            PartialEnv { tag: Some(spec_tag(e.kind)), sender: None, content: None },
            false,
            (spec_encode(e).len() - 1) as nat,
        ) == spec_env_members(
            spec_encode(e),
            16 + spec_tag(e.kind).len() as int + spec_digits(e.sender as int).len() as int,
            PartialEnv {
                tag: Some(spec_tag(e.kind)),
                sender: Some(e.sender as int),
                content: None,
            },
            false,
            (spec_encode(e).len() - 2) as nat,
        ),
{
    let t = spec_tag(e.kind);
    let lt = t.len() as int;
    let n = e.sender as int;
    let dg = spec_digits(n);
    let ld = dg.len() as int;
    let t0 = match e.content {
        PayloadData::Text(x) => x,
        PayloadData::Data(x) => x,
    };
    let esc = spec_escape(t0);
    let le = esc.len() as int;
    let p1 = lit_open() + t;
    let p2 = p1 + seq!['"'];
    let p3 = p2 + lit_id();
    let p4 = p3 + dg;
    let p5 = p4 + lit_content();
    let p6 = p5 + spec_payload_text(e.content);
    let s = p6 + seq!['}'];
    assert(spec_payload_text(e.content) == seq!['"'] + esc + seq!['"']);
    assert(s == spec_encode(e));
    lemma_tag_clean(e.kind);
    crate::decimal::lemma_digits_shape(n);
    assert(s.len() == 30 + lt + ld + le);
    let fl = s.len();
    let i1 = 10 + lt;
    let i2 = i1 + 6;
    let i3 = i2 + ld;
    let v0 = i3 + 11;
    let i4 = v0 + 2 + le;
    assert(s[i1] == ',' && s[i1 + 1] == '"' && s[i1 + 2] == 'i' && s[i1 + 3] == 'd' && s[i1 + 4]
        == '"' && s[i1 + 5] == ':') by {
        assert(s[i1] == p3[i1] && s[i1 + 1] == p3[i1 + 1] && s[i1 + 2] == p3[i1 + 2] && s[i1 + 3]
            == p3[i1 + 3] && s[i1 + 4] == p3[i1 + 4] && s[i1 + 5] == p3[i1 + 5]);
        assert(p3[i1] == lit_id()[0] && p3[i1 + 1] == lit_id()[1] && p3[i1 + 2] == lit_id()[2]
            && p3[i1 + 3] == lit_id()[3] && p3[i1 + 4] == lit_id()[4] && p3[i1 + 5]
            == lit_id()[5]);
    }
    lemma_skip_ws_noop(s, i1 + 1);
    let ki = seq!['i', 'd'];
    assert forall|m: int| 0 <= m < 2 implies s[(i1 + 2) + m] == #[trigger] ki[m] by {
        assert(s[i1 + 2] == 'i' && s[i1 + 3] == 'd');
    }
    lemma_scan_clean(s, i1 + 2, Seq::empty(), ki);
    assert(Seq::empty() + ki =~= ki);
    lemma_skip_ws_noop(s, i1 + 5);
    assert forall|m: int| 0 <= m < ld implies s[i2 + m] == #[trigger] dg[m] by {
        assert(s[i2 + m] == p4[i2 + m]);
        assert(p4[i2 + m] == dg[m]);
    }
    assert(spec_is_digit(s[i2])) by {
        assert(s[i2 + 0] == dg[0]);
    }
    assert(!spec_is_json_ws(s[i2]));
    lemma_skip_ws_noop(s, i2);
    lemma_pow10_pos(ld as nat);
    assert(0 * pow10(ld as nat) + n <= usize::MAX as int) by (nonlinear_arith)
        requires
            n <= usize::MAX as int,
    ;
    lemma_scan_digits_chain(s, i2, 0, n);
    assert(0 * pow10(ld as nat) + n == n) by (nonlinear_arith);
    assert(s[i3] == ',') by {
        assert(s[i3] == p5[i3]);
        assert(p5[i3] == lit_content()[0]);
    }
    assert(!spec_is_digit(','));
    assert(spec_scan_digits(s, i3, n) == Some((n, i3)));
    assert(spec_scan_digits(s, i2, 0) == Some((n, i3)));
    assert(s[i2] == '0' ==> n == 0) by {
        if s[i2] == '0' && n >= 1 {
            assert(dg[0] != '0');
            assert(s[i2 + 0] == dg[0]);
        }
    }
    lemma_skip_ws_noop(s, i3);
}

/// The canonical text read up to past the `content` member.
#[verifier::rlimit(100)]
proof fn lemma_rt_step_content(e: EnvelopeData)
    requires
        e.content is Text,
    ensures
        spec_env_members(
            spec_encode(e),
            16 + spec_tag(e.kind).len() as int + spec_digits(e.sender as int).len() as int,
            PartialEnv {
                tag: Some(spec_tag(e.kind)),
                sender: Some(e.sender as int),
                content: None,
            },
            false,
            (spec_encode(e).len() - 2) as nat,
        ) == spec_env_members(
            spec_encode(e),
            spec_encode(e).len() - 1,
            PartialEnv {
                tag: Some(spec_tag(e.kind)),
                sender: Some(e.sender as int),
                content: Some(e.content),
            },
            false,
            (spec_encode(e).len() - 3) as nat,
        ),
{
    let t = spec_tag(e.kind);
    let lt = t.len() as int;
    let n = e.sender as int;
    let dg = spec_digits(n);
    let ld = dg.len() as int;
    let t0 = match e.content {
        PayloadData::Text(x) => x,
        PayloadData::Data(x) => x,
    };
    let esc = spec_escape(t0);
    let le = esc.len() as int;
    let p1 = lit_open() + t;
    let p2 = p1 + seq!['"'];
    let p3 = p2 + lit_id();
    let p4 = p3 + dg;
    let p5 = p4 + lit_content();
    let p6 = p5 + spec_payload_text(e.content);
    let s = p6 + seq!['}'];
    assert(spec_payload_text(e.content) == seq!['"'] + esc + seq!['"']);
    assert(s == spec_encode(e));
    lemma_tag_clean(e.kind);
    crate::decimal::lemma_digits_shape(n);
    assert(s.len() == 30 + lt + ld + le);
    let fl = s.len();
    let i1 = 10 + lt;
    let i2 = i1 + 6;
    let i3 = i2 + ld;
    let v0 = i3 + 11;
    let i4 = v0 + 2 + le;
    let kc = seq!['c', 'o', 'n', 't', 'e', 'n', 't'];
    assert forall|m: int| 0 <= m < 11 implies s[i3 + m] == #[trigger] lit_content()[m] by {
        assert(s[i3 + m] == p5[i3 + m]);
        assert(p5[i3 + m] == lit_content()[m]);
    }
    assert(s[i3] == ',');
    assert(s[i3 + 1] == '"');
    lemma_skip_ws_noop(s, i3 + 1);
    assert forall|m: int| 0 <= m < 7 implies s[(i3 + 2) + m] == #[trigger] kc[m] by {
        assert(s[i3 + (2 + m)] == lit_content()[2 + m]);
    }
    assert(s[i3 + 9] == '"');
    lemma_scan_clean(s, i3 + 2, Seq::empty(), kc);
    assert(Seq::empty() + kc =~= kc);
    assert(s[i3 + 10] == ':');
    lemma_skip_ws_noop(s, i3 + 10);
    assert(s[v0] == '"') by {
        assert(s[v0] == p6[v0]);
        assert(p6[v0] == spec_payload_text(e.content)[0]);
    }
    lemma_skip_ws_noop(s, v0);
    assert forall|m: int| 0 <= m < le implies s[(v0 + 1) + m] == #[trigger] esc[m] by {
        assert(s[v0 + 1 + m] == p6[v0 + 1 + m]);
        assert(p6[v0 + 1 + m] == spec_payload_text(e.content)[1 + m]);
        assert(spec_payload_text(e.content)[1 + m] == esc[m]);
    }
    assert(s[(v0 + 1) + le] == '"') by {
        assert(s[v0 + 1 + le] == p6[v0 + 1 + le]);
        assert(p6[v0 + 1 + le] == spec_payload_text(e.content)[1 + le]);
    }
    lemma_scan_escaped(s, v0 + 1, Seq::empty(), t0);
    assert(Seq::empty() + t0 =~= t0);
    lemma_skip_ws_noop(s, i4);
    assert(e.content == PayloadData::Text(t0));
    assert(i4 == s.len() - 1);
}

/// The canonical text's closing brace ends the member list.
#[verifier::rlimit(100)]
proof fn lemma_rt_step_close(e: EnvelopeData)
    requires
        e.content is Text,
    ensures
        spec_env_members(
            spec_encode(e),
            spec_encode(e).len() - 1,
            PartialEnv {
                tag: Some(spec_tag(e.kind)),
                sender: Some(e.sender as int),
                content: Some(e.content),
            },
            false,
            (spec_encode(e).len() - 3) as nat,
        ) == Some(
            (
                PartialEnv {
                    tag: Some(spec_tag(e.kind)),
                    sender: Some(e.sender as int),
                    content: Some(e.content),
                },
                spec_encode(e).len() as int,
            ),
        ),
{
    let t = spec_tag(e.kind);
    let lt = t.len() as int;
    let n = e.sender as int;
    let dg = spec_digits(n);
    let ld = dg.len() as int;
    let t0 = match e.content {
        PayloadData::Text(x) => x,
        PayloadData::Data(x) => x,
    };
    let esc = spec_escape(t0);
    let le = esc.len() as int;
    let p1 = lit_open() + t;
    let p2 = p1 + seq!['"'];
    let p3 = p2 + lit_id();
    let p4 = p3 + dg;
    let p5 = p4 + lit_content();
    let p6 = p5 + spec_payload_text(e.content);
    let s = p6 + seq!['}'];
    assert(spec_payload_text(e.content) == seq!['"'] + esc + seq!['"']);
    assert(s == spec_encode(e));
    lemma_tag_clean(e.kind);
    crate::decimal::lemma_digits_shape(n);
    assert(s.len() == 30 + lt + ld + le);
    let fl = s.len();
    let i1 = 10 + lt;
    let i2 = i1 + 6;
    let i3 = i2 + ld;
    let v0 = i3 + 11;
    let i4 = v0 + 2 + le;
    assert(s[i4] == '}') by {
        assert(s[i4] == seq!['}'][0]);
    }
    assert(i4 == s.len() - 1);
    assert(i4 + 1 == s.len());
}

/// Decoding undoes encoding: an envelope whose payload is a string
/// travels the wire intact.
#[verifier::rlimit(100)]
pub proof fn lemma_codec_round_trip(e: EnvelopeData)
    requires
        e.content is Text,
    ensures
        spec_decode(spec_encode(e)) == Some(e),
{
    let t = spec_tag(e.kind);
    let lt = t.len() as int;
    let n = e.sender as int;
    let dg = spec_digits(n);
    let ld = dg.len() as int;
    let t0 = match e.content {
        PayloadData::Text(x) => x,
        PayloadData::Data(x) => x,
    };
    let esc = spec_escape(t0);
    let le = esc.len() as int;
    let p1 = lit_open() + t;
    let p2 = p1 + seq!['"'];
    let p3 = p2 + lit_id();
    let p4 = p3 + dg;
    let p5 = p4 + lit_content();
    let p6 = p5 + spec_payload_text(e.content);
    let s = p6 + seq!['}'];
    assert(spec_payload_text(e.content) == seq!['"'] + esc + seq!['"']);
    assert(s == spec_encode(e));
    lemma_tag_clean(e.kind);
    crate::decimal::lemma_digits_shape(n);
    assert(s.len() == 30 + lt + ld + le);
    let fl = s.len();
    let i1 = 10 + lt;
    let i2 = i1 + 6;
    let i3 = i2 + ld;
    let v0 = i3 + 11;
    let i4 = v0 + 2 + le;
    assert(s[0] == '{') by {
        assert(s[0] == p1[0]);
    }
    lemma_skip_ws_noop(s, 0);
    assert(s[1] == '"') by {
        assert(s[1] == p1[1]);
    }
    lemma_skip_ws_noop(s, 1);
    lemma_rt_step_type(e);
    lemma_rt_step_id(e);
    lemma_rt_step_content(e);
    lemma_rt_step_close(e);
    let st0 = PartialEnv { tag: None, sender: None, content: None };
    let st3 = PartialEnv { tag: Some(t), sender: Some(n), content: Some(e.content) };
    assert(spec_env_members(s, 1, st0, true, fl) == Some((st3, s.len() as int)));
    lemma_skip_ws_noop(s, s.len() as int);
    lemma_kind_of_tag_inverse(e.kind);
    assert((n as usize) as int == n);
    assert(spec_decode(s) == Some(
        EnvelopeData { kind: e.kind, sender: e.sender, content: e.content },
    ));
    assert(EnvelopeData { kind: e.kind, sender: e.sender, content: e.content } =~= e);
}

} // verus!
