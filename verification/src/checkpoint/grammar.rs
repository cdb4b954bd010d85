//! The manifest grammar, stated over bytes.
//!
//! Each `spec_*` function says what the parser of the same name makes of
//! the bytes `b` from position `p`: `Some((value, q))` with `q` the
//! position just after what was consumed, or `None` where the parser
//! reports `BadHeader`.
use vstd::prelude::*;
use vstd::utf8::*;

use super::strings::debug_str_text;
use crate::bench::decimal_text;

verus! {

pub const QUOTE: u8 = 0x22;

pub const COMMA: u8 = 0x2c;

pub const COLON: u8 = 0x3a;

pub const LBRACKET: u8 = 0x5b;

pub const RBRACKET: u8 = 0x5d;

pub const LBRACE: u8 = 0x7b;

pub const RBRACE: u8 = 0x7d;

/// Space, tab, line feed or carriage return.
pub open spec fn is_ws(c: u8) -> bool {
    c == 0x20 || c == 0x09 || c == 0x0a || c == 0x0d
}

/// An ASCII decimal digit.
pub open spec fn is_digit(c: u8) -> bool {
    0x30 <= c <= 0x39
}

/// The first position at or after `p` that does not hold whitespace
/// (`p` itself when `p` is past the end).
pub open spec fn ws_end(b: Seq<u8>, p: int) -> int
    decreases b.len() - p,
{
    if 0 <= p < b.len() && is_ws(b[p]) {
        ws_end(b, p + 1)
    } else {
        p
    }
}

/// The first position at or after `i` that holds a quote, or a position
/// at or past the end when there is none.
pub open spec fn quote_end(b: Seq<u8>, i: int) -> int
    decreases b.len() - i,
{
    if 0 <= i < b.len() && b[i] != QUOTE {
        quote_end(b, i + 1)
    } else {
        i
    }
}

/// The first position at or after `i` that does not hold a digit.
pub open spec fn digits_end(b: Seq<u8>, i: int) -> int
    decreases b.len() - i,
{
    if 0 <= i < b.len() && is_digit(b[i]) {
        digits_end(b, i + 1)
    } else {
        i
    }
}

/// The number that a string of decimal digits denotes.
pub open spec fn digits_value(s: Seq<u8>) -> nat
    decreases s.len(),
{
    if s.len() == 0 {
        0
    } else {
        digits_value(s.drop_last()) * 10 + (s.last() - 0x30) as nat
    }
}

/// `tok` stands in `b` at position `p`.
pub open spec fn token_at(b: Seq<u8>, p: int, tok: Seq<u8>) -> bool {
    0 <= p && p + tok.len() <= b.len() && b.subrange(p, p + tok.len()) == tok
}

/// A quoted string at `p`: its raw bytes (which must be valid UTF-8) and
/// the position after the closing quote.
pub open spec fn spec_read_string(b: Seq<u8>, p: int) -> Option<(Seq<u8>, int)> {
    if !token_at(b, p, seq![QUOTE]) {
        None
    } else {
        let q = quote_end(b, p + 1);
        if q >= b.len() {
            None
        } else if !valid_utf8(b.subrange(p + 1, q)) {
            None
        } else {
            Some((b.subrange(p + 1, q), q + 1))
        }
    }
}

/// A non-empty run of digits at `p` whose value fits in `usize`.
pub open spec fn spec_read_int(b: Seq<u8>, p: int) -> Option<(usize, int)> {
    let q = digits_end(b, p);
    if q == p {
        None
    } else if digits_value(b.subrange(p, q)) > usize::MAX {
        None
    } else {
        Some((digits_value(b.subrange(p, q)) as usize, q))
    }
}

pub proof fn lemma_ws_end_bounds(b: Seq<u8>, p: int)
    requires
        0 <= p,
    ensures
        p <= ws_end(b, p),
        p <= b.len() ==> ws_end(b, p) <= b.len(),
        forall|i: int| p <= i < ws_end(b, p) ==> is_ws(#[trigger] b[i]),
        ws_end(b, p) < b.len() ==> !is_ws(b[ws_end(b, p)]),
    decreases b.len() - p,
{
    if 0 <= p < b.len() && is_ws(b[p]) {
        lemma_ws_end_bounds(b, p + 1);
    }
}

pub proof fn lemma_quote_end_bounds(b: Seq<u8>, i: int)
    requires
        0 <= i,
    ensures
        i <= quote_end(b, i),
        i <= b.len() ==> quote_end(b, i) <= b.len(),
        forall|k: int| i <= k < quote_end(b, i) ==> #[trigger] b[k] != QUOTE,
        quote_end(b, i) < b.len() ==> b[quote_end(b, i)] == QUOTE,
    decreases b.len() - i,
{
    if 0 <= i < b.len() && b[i] != QUOTE {
        lemma_quote_end_bounds(b, i + 1);
    }
}

pub proof fn lemma_digits_end_bounds(b: Seq<u8>, i: int)
    requires
        0 <= i,
    ensures
        i <= digits_end(b, i),
        i <= b.len() ==> digits_end(b, i) <= b.len(),
        forall|k: int| i <= k < digits_end(b, i) ==> is_digit(#[trigger] b[k]),
        digits_end(b, i) < b.len() ==> !is_digit(b[digits_end(b, i)]),
    decreases b.len() - i,
{
    if 0 <= i < b.len() && is_digit(b[i]) {
        lemma_digits_end_bounds(b, i + 1);
    }
}

/// A maximal run that ends where a non-space stands is where `ws_end` stops.
pub proof fn lemma_ws_end_at(b: Seq<u8>, p: int, q: int)
    requires
        0 <= p <= q <= b.len(),
        forall|i: int| p <= i < q ==> is_ws(#[trigger] b[i]),
        q == b.len() || !is_ws(b[q]),
    ensures
        ws_end(b, p) == q,
    decreases q - p,
{
    if p < q {
        lemma_ws_end_at(b, p + 1, q);
    }
}

pub proof fn lemma_quote_end_at(b: Seq<u8>, i: int, q: int)
    requires
        0 <= i <= q < b.len(),
        forall|k: int| i <= k < q ==> #[trigger] b[k] != QUOTE,
        b[q] == QUOTE,
    ensures
        quote_end(b, i) == q,
    decreases q - i,
{
    if i < q {
        lemma_quote_end_at(b, i + 1, q);
    }
}

pub proof fn lemma_digits_end_at(b: Seq<u8>, i: int, q: int)
    requires
        0 <= i <= q <= b.len(),
        forall|k: int| i <= k < q ==> is_digit(#[trigger] b[k]),
        q == b.len() || !is_digit(b[q]),
    ensures
        digits_end(b, i) == q,
    decreases q - i,
{
    if i < q {
        lemma_digits_end_at(b, i + 1, q);
    }
}

pub proof fn lemma_read_string_advances(b: Seq<u8>, p: int)
    requires
        0 <= p,
        spec_read_string(b, p) is Some,
    ensures
        spec_read_string(b, p).unwrap().1 >= p + 2,
        spec_read_string(b, p).unwrap().1 <= b.len(),
{
    lemma_quote_end_bounds(b, p + 1);
}

pub proof fn lemma_read_int_advances(b: Seq<u8>, p: int)
    requires
        0 <= p,
        spec_read_int(b, p) is Some,
    ensures
        spec_read_int(b, p).unwrap().1 > p,
        p <= b.len() ==> spec_read_int(b, p).unwrap().1 <= b.len(),
{
    lemma_digits_end_bounds(b, p);
}


/// A comma-separated list of integers closed by `]`, read from `p` (just
/// after the opening bracket); whitespace may surround each item.
pub open spec fn spec_int_list(b: Seq<u8>, p: int) -> Option<(Seq<usize>, int)>
    decreases b.len() - p,
{
    if p < 0 {
        None
    } else {
        let p1 = ws_end(b, p);
        match spec_read_int(b, p1) {
            None => None,
            Some((v, p2)) => {
                let p3 = ws_end(b, p2);
                if p3 < b.len() && b[p3] == COMMA {
                    proof {
                        lemma_ws_end_bounds(b, p);
                        lemma_read_int_advances(b, p1);
                        lemma_ws_end_bounds(b, p2);
                    }
                    match spec_int_list(b, p3 + 1) {
                        Some((rest, q)) => Some((seq![v] + rest, q)),
                        None => None,
                    }
                } else if p3 < b.len() && b[p3] == RBRACKET {
                    Some((seq![v], p3 + 1))
                } else {
                    None
                }
            },
        }
    }
}

/// An array of integers: `[`, then `]` or a list as in `spec_int_list`.
pub open spec fn spec_read_int_array(b: Seq<u8>, p: int) -> Option<(Seq<usize>, int)> {
    if !token_at(b, p, seq![LBRACKET]) {
        None
    } else {
        let q = ws_end(b, p + 1);
        if q < b.len() && b[q] == RBRACKET {
            Some((Seq::empty(), q + 1))
        } else {
            spec_int_list(b, q)
        }
    }
}

pub proof fn lemma_int_list_advances(b: Seq<u8>, p: int)
    requires
        spec_int_list(b, p) is Some,
    ensures
        spec_int_list(b, p).unwrap().1 > p,
        spec_int_list(b, p).unwrap().1 <= b.len(),
    decreases b.len() - p,
{
    let p1 = ws_end(b, p);
    lemma_ws_end_bounds(b, p);
    lemma_read_int_advances(b, p1);
    let p2 = spec_read_int(b, p1).unwrap().1;
    lemma_ws_end_bounds(b, p2);
    let p3 = ws_end(b, p2);
    if p3 < b.len() && b[p3] == COMMA {
        lemma_int_list_advances(b, p3 + 1);
    }
}

pub proof fn lemma_read_int_array_advances(b: Seq<u8>, p: int)
    requires
        spec_read_int_array(b, p) is Some,
    ensures
        spec_read_int_array(b, p).unwrap().1 > p,
        spec_read_int_array(b, p).unwrap().1 <= b.len(),
{
    lemma_ws_end_bounds(b, p + 1);
    let q = ws_end(b, p + 1);
    if !(q < b.len() && b[q] == RBRACKET) {
        lemma_int_list_advances(b, q);
    }
}

/// What the manifest says of one parameter.
pub struct EntryView {
    pub path: Seq<char>,
    pub shape: Seq<usize>,
    pub offset: usize,
    pub len: usize,
}

/// The entry that parsing starts from: every field at its default.
pub open spec fn empty_entry() -> EntryView {
    EntryView { path: Seq::empty(), shape: Seq::empty(), offset: 0, len: 0 }
}

pub open spec fn path_key() -> Seq<char> {
    seq!['p', 'a', 't', 'h']
}

pub open spec fn shape_key() -> Seq<char> {
    seq!['s', 'h', 'a', 'p', 'e']
}

pub open spec fn offset_key() -> Seq<char> {
    seq!['o', 'f', 'f', 's', 'e', 't']
}

pub open spec fn len_key() -> Seq<char> {
    seq!['l', 'e', 'n']
}

/// The value that follows the key `key` at `p`, stored into `acc`; `None`
/// for a key outside the four known ones or a malformed value.
pub open spec fn spec_entry_value(b: Seq<u8>, p: int, key: Seq<char>, acc: EntryView) -> Option<
    (EntryView, int),
> {
    if key == path_key() {
        match spec_read_string(b, p) {
            Some((s, q)) => Some((EntryView { path: decode_utf8(s), ..acc }, q)),
            None => None,
        }
    } else if key == shape_key() {
        match spec_read_int_array(b, p) {
            Some((d, q)) => Some((EntryView { shape: d, ..acc }, q)),
            None => None,
        }
    } else if key == offset_key() {
        match spec_read_int(b, p) {
            Some((v, q)) => Some((EntryView { offset: v, ..acc }, q)),
            None => None,
        }
    } else if key == len_key() {
        match spec_read_int(b, p) {
            Some((v, q)) => Some((EntryView { len: v, ..acc }, q)),
            None => None,
        }
    } else {
        None
    }
}

pub proof fn lemma_entry_value_advances(b: Seq<u8>, p: int, key: Seq<char>, acc: EntryView)
    requires
        0 <= p,
        spec_entry_value(b, p, key, acc) is Some,
    ensures
        spec_entry_value(b, p, key, acc).unwrap().1 > p,
        spec_entry_value(b, p, key, acc).unwrap().1 <= b.len(),
{
    if key == path_key() {
        lemma_read_string_advances(b, p);
    } else if key == shape_key() {
        lemma_read_int_array_advances(b, p);
    } else {
        lemma_read_int_advances(b, p);
        lemma_digits_end_bounds(b, p);
    }
}

/// The `key: value` pairs of an entry, read from `p` (after `{` or a
/// comma) up to and including the closing `}`, each value stored into
/// `acc`. Which keys occur, and how often, is checked apart from this
/// (`entry_keys`, `keys_exact`).
pub open spec fn spec_entry_fields(b: Seq<u8>, p: int, acc: EntryView) -> Option<(EntryView, int)>
    decreases b.len() - p,
{
    if p < 0 {
        None
    } else {
        let p1 = ws_end(b, p);
        match spec_read_string(b, p1) {
            None => None,
            Some((kseg, p2)) => {
                let p3 = ws_end(b, p2);
                if !token_at(b, p3, seq![COLON]) {
                    None
                } else {
                    let p4 = ws_end(b, p3 + 1);
                    match spec_entry_value(b, p4, decode_utf8(kseg), acc) {
                        None => None,
                        Some((acc2, p5)) => {
                            let p6 = ws_end(b, p5);
                            if p6 < b.len() && b[p6] == COMMA {
                                proof {
                                    lemma_ws_end_bounds(b, p);
                                    lemma_read_string_advances(b, p1);
                                    lemma_ws_end_bounds(b, p2);
                                    lemma_ws_end_bounds(b, p3 + 1);
                                    lemma_entry_value_advances(b, p4, decode_utf8(kseg), acc);
                                    lemma_ws_end_bounds(b, p5);
                                }
                                spec_entry_fields(b, p6 + 1, acc2)
                            } else if p6 < b.len() && b[p6] == RBRACE {
                                Some((acc2, p6 + 1))
                            } else {
                                None
                            }
                        },
                    }
                }
            },
        }
    }
}

pub proof fn lemma_entry_fields_advances(b: Seq<u8>, p: int, acc: EntryView)
    requires
        spec_entry_fields(b, p, acc) is Some,
    ensures
        spec_entry_fields(b, p, acc).unwrap().1 > p,
        spec_entry_fields(b, p, acc).unwrap().1 <= b.len(),
    decreases b.len() - p,
{
    let p1 = ws_end(b, p);
    lemma_ws_end_bounds(b, p);
    lemma_read_string_advances(b, p1);
    let (kseg, p2) = spec_read_string(b, p1).unwrap();
    lemma_ws_end_bounds(b, p2);
    let p3 = ws_end(b, p2);
    lemma_ws_end_bounds(b, p3 + 1);
    let p4 = ws_end(b, p3 + 1);
    lemma_entry_value_advances(b, p4, decode_utf8(kseg), acc);
    let (acc2, p5) = spec_entry_value(b, p4, decode_utf8(kseg), acc).unwrap();
    lemma_ws_end_bounds(b, p5);
    let p6 = ws_end(b, p5);
    if p6 < b.len() && b[p6] == COMMA {
        lemma_entry_fields_advances(b, p6 + 1, acc2);
    }
}

/// The keys of the fields read by `spec_entry_fields` from `p`, in order
/// (meaningful where that read succeeds).
pub open spec fn entry_keys(b: Seq<u8>, p: int, acc: EntryView) -> Seq<Seq<char>>
    decreases b.len() - p,
{
    if p < 0 {
        seq![]
    } else {
        let p1 = ws_end(b, p);
        match spec_read_string(b, p1) {
            None => seq![],
            Some((kseg, p2)) => {
                let p3 = ws_end(b, p2);
                let key = decode_utf8(kseg);
                if !token_at(b, p3, seq![COLON]) {
                    seq![]
                } else {
                    let p4 = ws_end(b, p3 + 1);
                    match spec_entry_value(b, p4, key, acc) {
                        None => seq![],
                        Some((acc2, p5)) => {
                            let p6 = ws_end(b, p5);
                            if p6 < b.len() && b[p6] == COMMA {
                                proof {
                                    lemma_ws_end_bounds(b, p);
                                    lemma_read_string_advances(b, p1);
                                    lemma_ws_end_bounds(b, p2);
                                    lemma_ws_end_bounds(b, p3 + 1);
                                    lemma_entry_value_advances(b, p4, key, acc);
                                    lemma_ws_end_bounds(b, p5);
                                }
                                seq![key] + entry_keys(b, p6 + 1, acc2)
                            } else {
                                seq![key]
                            }
                        },
                    }
                }
            },
        }
    }
}

/// The keys are exactly `path`, `shape`, `offset` and `len`, each once (in
/// any order).
pub open spec fn keys_exact(ks: Seq<Seq<char>>) -> bool {
    &&& ks.no_duplicates()
    &&& ks.contains(path_key())
    &&& ks.contains(shape_key())
    &&& ks.contains(offset_key())
    &&& ks.contains(len_key())
}

/// One `{ ... }` entry at `p`, carrying each of the four keys exactly once.
pub open spec fn spec_parse_entry(b: Seq<u8>, p: int) -> Option<(EntryView, int)> {
    if !token_at(b, p, seq![LBRACE]) {
        None
    } else {
        match spec_entry_fields(b, p + 1, empty_entry()) {
            Some((e, q)) => if keys_exact(entry_keys(b, p + 1, empty_entry())) {
                Some((e, q))
            } else {
                None
            },
            None => None,
        }
    }
}

/// Entries separated by commas and closed by `]`, read from `p`.
pub open spec fn spec_entry_list(b: Seq<u8>, p: int) -> Option<Seq<EntryView>>
    decreases b.len() - p,
{
    match spec_parse_entry(b, p) {
        None => None,
        Some((e, p1)) => {
            let p2 = ws_end(b, p1);
            if p2 < b.len() && b[p2] == COMMA {
                proof {
                    lemma_entry_fields_advances(b, p + 1, empty_entry());
                    lemma_ws_end_bounds(b, p1);
                    lemma_ws_end_bounds(b, p2 + 1);
                }
                match spec_entry_list(b, ws_end(b, p2 + 1)) {
                    Some(rest) => Some(seq![e] + rest),
                    None => None,
                }
            } else if p2 < b.len() && b[p2] == RBRACKET {
                Some(seq![e])
            } else {
                None
            }
        },
    }
}

/// The position just after the `]` that closes the list read by
/// `spec_entry_list` from `p` (meaningful where that read succeeds).
pub open spec fn entry_list_end(b: Seq<u8>, p: int) -> int
    decreases b.len() - p,
{
    match spec_parse_entry(b, p) {
        None => p,
        Some((e, p1)) => {
            let p2 = ws_end(b, p1);
            if p2 < b.len() && b[p2] == COMMA {
                proof {
                    lemma_entry_fields_advances(b, p + 1, empty_entry());
                    lemma_ws_end_bounds(b, p1);
                    lemma_ws_end_bounds(b, p2 + 1);
                }
                entry_list_end(b, ws_end(b, p2 + 1))
            } else {
                p2 + 1
            }
        },
    }
}

/// The parameter list read from `p` (just after its `[` and any
/// whitespace): its entries and the position just after its `]`.
pub open spec fn spec_params_list(b: Seq<u8>, p: int) -> Option<(Seq<EntryView>, int)> {
    if p < b.len() && b[p] == RBRACKET {
        Some((Seq::empty(), p + 1))
    } else {
        match spec_entry_list(b, p) {
            Some(es) => Some((es, entry_list_end(b, p))),
            None => None,
        }
    }
}

/// After the parameter list, ending at `q`: the closing `}` of the
/// manifest, with only whitespace around it up to the end.
pub open spec fn header_tail_ok(b: Seq<u8>, q: int) -> bool {
    &&& token_at(b, ws_end(b, q), seq![RBRACE])
    &&& ws_end(b, ws_end(b, q) + 1) == b.len()
}

/// The rest of the manifest from `p` (just after the list's `[` and any
/// whitespace): the list, then the closing brace.
pub open spec fn spec_header_rest(b: Seq<u8>, p: int) -> Option<Seq<EntryView>> {
    match spec_params_list(b, p) {
        Some((es, q)) => if header_tail_ok(b, q) {
            Some(es)
        } else {
            None
        },
        None => None,
    }
}

/// The bytes of `"version"`, quotes included.
pub open spec fn version_token() -> Seq<u8> {
    seq![QUOTE, 0x76, 0x65, 0x72, 0x73, 0x69, 0x6f, 0x6e, QUOTE]
}

/// The bytes of `"params"`, quotes included.
pub open spec fn params_token() -> Seq<u8> {
    seq![QUOTE, 0x70, 0x61, 0x72, 0x61, 0x6d, 0x73, QUOTE]
}

/// The whole manifest: `{"version": <int>, "params": [ entries ]}`, with
/// whitespace allowed between tokens and around it, and nothing else.
pub open spec fn spec_parse_header(b: Seq<u8>) -> Option<Seq<EntryView>> {
    let p0 = ws_end(b, 0);
    if !token_at(b, p0, seq![LBRACE]) {
        None
    } else {
        let p1 = ws_end(b, p0 + 1);
        if !token_at(b, p1, version_token()) {
            None
        } else {
            let p2 = ws_end(b, p1 + 9);
            if !token_at(b, p2, seq![COLON]) {
                None
            } else {
                match spec_read_int(b, ws_end(b, p2 + 1)) {
                    None => None,
                    Some((_, p4)) => {
                        let p5 = ws_end(b, p4);
                        if !token_at(b, p5, seq![COMMA]) {
                            None
                        } else {
                            let p6 = ws_end(b, p5 + 1);
                            if !token_at(b, p6, params_token()) {
                                None
                            } else {
                                let p7 = ws_end(b, p6 + 8);
                                if !token_at(b, p7, seq![COLON]) {
                                    None
                                } else {
                                    let p8 = ws_end(b, p7 + 1);
                                    if !token_at(b, p8, seq![LBRACKET]) {
                                        None
                                    } else {
                                        spec_header_rest(b, ws_end(b, p8 + 1))
                                    }
                                }
                            }
                        }
                    },
                }
            }
        }
    }
}

// The messages of `BadHeader`. Each `*_err` function gives the message
// that the parser of the same name reports where its `spec_*` function is
// `None`: `Some(text)`, or `None` where the message is the text of a UTF-8
// error of the standard library. Their values where the parse succeeds are
// of no concern.

/// `m` is the message that `f` describes.
pub open spec fn message_fits(m: Seq<char>, f: Option<Seq<char>>) -> bool {
    f matches Some(t) ==> m == t
}

/// The message of a missing token `tok` at `p`: `expected `, the `Debug`
/// form of `tok` as text (or of `?` when it is not UTF-8), ` at offset ` and
/// the offset in decimal.
pub open spec fn expected_text(tok: Seq<u8>, p: int) -> Seq<char> {
    "expected "@ + debug_str_text(
        if valid_utf8(tok) {
            decode_utf8(tok)
        } else {
            "?"@
        },
    ) + " at offset "@ + decimal_text(p as usize as nat)
}

pub open spec fn read_string_err(b: Seq<u8>, p: int) -> Option<Seq<char>> {
    if !token_at(b, p, seq![QUOTE]) {
        Some(expected_text(seq![QUOTE], p))
    } else if quote_end(b, p + 1) >= b.len() {
        Some("unterminated string"@)
    } else {
        None
    }
}

pub open spec fn read_int_err(b: Seq<u8>, p: int) -> Option<Seq<char>> {
    if digits_end(b, p) == p {
        Some("expected integer"@)
    } else {
        Some("integer parse"@)
    }
}

pub open spec fn int_list_err(b: Seq<u8>, p: int) -> Option<Seq<char>>
    decreases b.len() - p,
{
    if p < 0 {
        None
    } else {
        let p1 = ws_end(b, p);
        match spec_read_int(b, p1) {
            None => read_int_err(b, p1),
            Some((v, p2)) => {
                let p3 = ws_end(b, p2);
                if p3 < b.len() && b[p3] == COMMA {
                    proof {
                        lemma_ws_end_bounds(b, p);
                        lemma_read_int_advances(b, p1);
                        lemma_ws_end_bounds(b, p2);
                    }
                    int_list_err(b, p3 + 1)
                } else {
                    Some("expected ',' or ']' in array"@)
                }
            },
        }
    }
}

pub open spec fn read_int_array_err(b: Seq<u8>, p: int) -> Option<Seq<char>> {
    if !token_at(b, p, seq![LBRACKET]) {
        Some(expected_text(seq![LBRACKET], p))
    } else {
        int_list_err(b, ws_end(b, p + 1))
    }
}

pub open spec fn entry_value_err(b: Seq<u8>, p: int, key: Seq<char>) -> Option<Seq<char>> {
    if key == path_key() {
        read_string_err(b, p)
    } else if key == shape_key() {
        read_int_array_err(b, p)
    } else if key == offset_key() || key == len_key() {
        read_int_err(b, p)
    } else {
        Some("unknown key '"@ + key + "'"@)
    }
}

pub open spec fn entry_fields_err(b: Seq<u8>, p: int, acc: EntryView) -> Option<Seq<char>>
    decreases b.len() - p,
{
    if p < 0 {
        None
    } else {
        let p1 = ws_end(b, p);
        match spec_read_string(b, p1) {
            None => read_string_err(b, p1),
            Some((kseg, p2)) => {
                let p3 = ws_end(b, p2);
                if !token_at(b, p3, seq![COLON]) {
                    Some(expected_text(seq![COLON], p3))
                } else {
                    let p4 = ws_end(b, p3 + 1);
                    match spec_entry_value(b, p4, decode_utf8(kseg), acc) {
                        None => entry_value_err(b, p4, decode_utf8(kseg)),
                        Some((acc2, p5)) => {
                            let p6 = ws_end(b, p5);
                            if p6 < b.len() && b[p6] == COMMA {
                                proof {
                                    lemma_ws_end_bounds(b, p);
                                    lemma_read_string_advances(b, p1);
                                    lemma_ws_end_bounds(b, p2);
                                    lemma_ws_end_bounds(b, p3 + 1);
                                    lemma_entry_value_advances(b, p4, decode_utf8(kseg), acc);
                                    lemma_ws_end_bounds(b, p5);
                                }
                                entry_fields_err(b, p6 + 1, acc2)
                            } else {
                                Some("expected ',' or '}'"@)
                            }
                        },
                    }
                }
            },
        }
    }
}

pub open spec fn parse_entry_err(b: Seq<u8>, p: int) -> Option<Seq<char>> {
    if !token_at(b, p, seq![LBRACE]) {
        Some(expected_text(seq![LBRACE], p))
    } else if spec_entry_fields(b, p + 1, empty_entry()) is None {
        entry_fields_err(b, p + 1, empty_entry())
    } else {
        Some(key_set_message())
    }
}

/// The message of an entry whose keys are not exactly the four, each once.
pub open spec fn key_set_message() -> Seq<char> {
    "entry needs each of \"path\", \"shape\", \"offset\" and \"len\" exactly once"@
}

/// The message of anything after the manifest's closing brace.
pub open spec fn trailing_message() -> Seq<char> {
    "unexpected data after the manifest"@
}

pub open spec fn entry_list_err(b: Seq<u8>, p: int) -> Option<Seq<char>>
    decreases b.len() - p,
{
    match spec_parse_entry(b, p) {
        None => parse_entry_err(b, p),
        Some((e, p1)) => {
            let p2 = ws_end(b, p1);
            if p2 < b.len() && b[p2] == COMMA {
                proof {
                    lemma_entry_fields_advances(b, p + 1, empty_entry());
                    lemma_ws_end_bounds(b, p1);
                    lemma_ws_end_bounds(b, p2 + 1);
                }
                entry_list_err(b, ws_end(b, p2 + 1))
            } else {
                Some("expected ',' or ']'"@)
            }
        },
    }
}

pub open spec fn header_rest_err(b: Seq<u8>, p: int) -> Option<Seq<char>> {
    match spec_params_list(b, p) {
        None => entry_list_err(b, p),
        Some((_, q)) => if !token_at(b, ws_end(b, q), seq![RBRACE]) {
            Some(expected_text(seq![RBRACE], ws_end(b, q)))
        } else {
            Some(trailing_message())
        },
    }
}

pub open spec fn parse_header_err(b: Seq<u8>) -> Option<Seq<char>> {
    let p0 = ws_end(b, 0);
    let p1 = ws_end(b, p0 + 1);
    let p2 = ws_end(b, p1 + 9);
    let p3 = ws_end(b, p2 + 1);
    if !token_at(b, p0, seq![LBRACE]) {
        Some(expected_text(seq![LBRACE], p0))
    } else if !token_at(b, p1, version_token()) {
        Some(expected_text(version_token(), p1))
    } else if !token_at(b, p2, seq![COLON]) {
        Some(expected_text(seq![COLON], p2))
    } else {
        match spec_read_int(b, p3) {
            None => read_int_err(b, p3),
            Some((_, p4)) => {
                let p5 = ws_end(b, p4);
                let p6 = ws_end(b, p5 + 1);
                let p7 = ws_end(b, p6 + 8);
                let p8 = ws_end(b, p7 + 1);
                if !token_at(b, p5, seq![COMMA]) {
                    Some(expected_text(seq![COMMA], p5))
                } else if !token_at(b, p6, params_token()) {
                    Some(expected_text(params_token(), p6))
                } else if !token_at(b, p7, seq![COLON]) {
                    Some(expected_text(seq![COLON], p7))
                } else if !token_at(b, p8, seq![LBRACKET]) {
                    Some(expected_text(seq![LBRACKET], p8))
                } else {
                    header_rest_err(b, ws_end(b, p8 + 1))
                }
            },
        }
    }
}

// Where each parser leaves the cursor when it reports `BadHeader`: the
// `*_err_pos` functions follow the same steps as the `*_err` ones.

pub open spec fn read_string_err_pos(b: Seq<u8>, p: int) -> int {
    if !token_at(b, p, seq![QUOTE]) {
        p
    } else {
        quote_end(b, p + 1)
    }
}

pub open spec fn int_list_err_pos(b: Seq<u8>, p: int) -> int
    decreases b.len() - p,
{
    if p < 0 {
        p
    } else {
        let p1 = ws_end(b, p);
        match spec_read_int(b, p1) {
            None => digits_end(b, p1),
            Some((v, p2)) => {
                let p3 = ws_end(b, p2);
                if p3 < b.len() && b[p3] == COMMA {
                    proof {
                        lemma_ws_end_bounds(b, p);
                        lemma_read_int_advances(b, p1);
                        lemma_ws_end_bounds(b, p2);
                    }
                    int_list_err_pos(b, p3 + 1)
                } else {
                    p3
                }
            },
        }
    }
}

pub open spec fn read_int_array_err_pos(b: Seq<u8>, p: int) -> int {
    if !token_at(b, p, seq![LBRACKET]) {
        p
    } else {
        int_list_err_pos(b, ws_end(b, p + 1))
    }
}

pub open spec fn entry_value_err_pos(b: Seq<u8>, p: int, key: Seq<char>) -> int {
    if key == path_key() {
        read_string_err_pos(b, p)
    } else if key == shape_key() {
        read_int_array_err_pos(b, p)
    } else if key == offset_key() || key == len_key() {
        digits_end(b, p)
    } else {
        p
    }
}

pub open spec fn entry_fields_err_pos(b: Seq<u8>, p: int, acc: EntryView) -> int
    decreases b.len() - p,
{
    if p < 0 {
        p
    } else {
        let p1 = ws_end(b, p);
        match spec_read_string(b, p1) {
            None => read_string_err_pos(b, p1),
            Some((kseg, p2)) => {
                let p3 = ws_end(b, p2);
                if !token_at(b, p3, seq![COLON]) {
                    p3
                } else {
                    let p4 = ws_end(b, p3 + 1);
                    match spec_entry_value(b, p4, decode_utf8(kseg), acc) {
                        None => entry_value_err_pos(b, p4, decode_utf8(kseg)),
                        Some((acc2, p5)) => {
                            let p6 = ws_end(b, p5);
                            if p6 < b.len() && b[p6] == COMMA {
                                proof {
                                    lemma_ws_end_bounds(b, p);
                                    lemma_read_string_advances(b, p1);
                                    lemma_ws_end_bounds(b, p2);
                                    lemma_ws_end_bounds(b, p3 + 1);
                                    lemma_entry_value_advances(b, p4, decode_utf8(kseg), acc);
                                    lemma_ws_end_bounds(b, p5);
                                }
                                entry_fields_err_pos(b, p6 + 1, acc2)
                            } else {
                                p6
                            }
                        },
                    }
                }
            },
        }
    }
}

pub open spec fn parse_entry_err_pos(b: Seq<u8>, p: int) -> int {
    if !token_at(b, p, seq![LBRACE]) {
        p
    } else {
        match spec_entry_fields(b, p + 1, empty_entry()) {
            None => entry_fields_err_pos(b, p + 1, empty_entry()),
            Some((_, q)) => q,
        }
    }
}

} // verus!
