//! A small JSON reader, just enough for the manifest that `save_bytes`
//! writes. It accepts that form and whitespace between its tokens and
//! around it, and nothing else: each entry carries the keys `path`,
//! `shape`, `offset` and `len`, in any order, each exactly once, and the
//! manifest ends with the `}` after the parameter list. Anything else is a
//! `BadHeader`.
use vstd::prelude::*;
use vstd::utf8::{decode_utf8, encode_utf8, encode_utf8_decode_utf8, valid_utf8};

use super::grammar::{
    digits_end, digits_value, is_digit, is_ws, lemma_digits_end_bounds, lemma_quote_end_bounds,
    lemma_entry_fields_advances, lemma_entry_value_advances, lemma_read_int_array_advances,
    lemma_read_int_advances, lemma_read_string_advances, lemma_ws_end_bounds, quote_end,
    spec_entry_fields, spec_entry_list, spec_entry_value, spec_int_list, spec_parse_entry,
    spec_parse_header, spec_read_int, spec_read_int_array, spec_read_string, token_at, ws_end,
    entry_fields_err, entry_fields_err_pos, entry_list_err, expected_text, int_list_err,
    int_list_err_pos, message_fits, parse_entry_err, parse_entry_err_pos, read_int_array_err_pos,
    read_string_err_pos, empty_entry, entry_keys, entry_list_end, header_rest_err, len_key,
    offset_key, path_key, shape_key, spec_header_rest, spec_params_list,
    parse_header_err, read_int_array_err, read_int_err, read_string_err, EntryView, COLON, COMMA,
    LBRACE, LBRACKET, QUOTE, RBRACE, RBRACKET,
};
use vstd::string::StringExecFns;
use super::strings::{debug_str, str_from_utf8, utf8_error_message};
use super::CheckpointError;

verus! {

/// What the manifest says of one parameter: its path, its shape, and where
/// its values lie in the data section (byte offset, and length in values).
#[derive(Debug)]
pub struct Entry {
    pub path: String,
    pub shape: Vec<usize>,
    pub offset: usize,
    pub len: usize,
}

impl View for Entry {
    type V = EntryView;

    open spec fn view(&self) -> EntryView {
        EntryView { path: self.path@, shape: self.shape@, offset: self.offset, len: self.len }
    }
}

/// The views of a sequence of entries.
pub open spec fn entry_views(es: Seq<Entry>) -> Seq<EntryView> {
    es.map_values(|e: Entry| e@)
}

/// A header error carrying the given message.
fn bad_header(msg: &str) -> (r: CheckpointError)
    ensures
        r matches CheckpointError::BadHeader(m) && m@ == msg@,
{
    CheckpointError::BadHeader(msg.to_owned())
}

fn is_space(c: u8) -> (r: bool)
    ensures
        r == is_ws(c),
{
    c == 0x20 || c == 0x09 || c == 0x0a || c == 0x0d
}

fn is_ascii_digit(c: u8) -> (r: bool)
    ensures
        r == is_digit(c),
{
    0x30 <= c && c <= 0x39
}

/// Advance `p` past any whitespace.
pub fn skip_ws(bytes: &[u8], p: &mut usize)
    ensures
        *final(p) as int == ws_end(bytes@, *old(p) as int),
{
    let mut q = *p;
    while q < bytes.len() && is_space(bytes[q])
        invariant
            ws_end(bytes@, q as int) == ws_end(bytes@, *old(p) as int),
        decreases bytes.len() - q,
    {
        q += 1;
    }
    *p = q;
}

/// The byte at `p`, if there is one.
pub fn peek(bytes: &[u8], p: usize) -> (r: Option<u8>)
    ensures
        r == (if p < bytes@.len() {
            Some(bytes@[p as int])
        } else {
            None::<u8>
        }),
{
    if p < bytes.len() {
        Some(bytes[p])
    } else {
        None
    }
}

/// `tok` stands in `bytes` at `start`.
fn matches_at(bytes: &[u8], start: usize, tok: &[u8]) -> (r: bool)
    requires
        start + tok@.len() <= bytes@.len(),
    ensures
        r == (bytes@.subrange(start as int, start + tok@.len()) == tok@),
{
    let blen = bytes.len();
    let mut i: usize = 0;
    while i < tok.len()
        invariant
            blen == bytes@.len(),
            start + tok@.len() <= bytes@.len(),
            i <= tok@.len(),
            forall|k: int| 0 <= k < i ==> bytes@[start + k] == tok@[k],
        decreases tok.len() - i,
    {
        if bytes[start + i] != tok[i] {
            assert(bytes@.subrange(start as int, start + tok@.len())[i as int] != tok@[i as int]);
            return false;
        }
        i += 1;
    }
    assert(bytes@.subrange(start as int, start + tok@.len()) =~= tok@);
    true
}

/// Consume `tok` at `p`, or report what was expected where.
pub fn expect(bytes: &[u8], p: &mut usize, tok: &[u8]) -> (r: Result<(), CheckpointError>)
    requires
        *old(p) + tok@.len() <= usize::MAX,
    ensures
        token_at(bytes@, *old(p) as int, tok@) ==> r is Ok && *final(p) == *old(p) + tok@.len(),
        !token_at(bytes@, *old(p) as int, tok@) ==> (r matches Err(CheckpointError::BadHeader(m))
            && m@ == expected_text(tok@, *old(p) as int) && *final(p) == *old(p)),
{
    if *p + tok.len() > bytes.len() || !matches_at(bytes, *p, tok) {
        let shown = match str_from_utf8(tok) {
            Ok(s) => {
                proof {
                    encode_utf8_decode_utf8(s@);
                }
                s
            },
            Err(_) => "?",
        };
        let mut msg = "expected ".to_owned();
        msg.append(debug_str(shown).as_str());
        msg.append(" at offset ");
        crate::bench::push_decimal_text(&mut msg, *p as u64);
        return Err(CheckpointError::BadHeader(msg));
    }
    *p = *p + tok.len();
    Ok(())
}

/// A quoted string (no escapes: it runs to the next quote).
pub fn read_string(bytes: &[u8], p: &mut usize) -> (r: Result<String, CheckpointError>)
    requires
        *old(p) < usize::MAX,
    ensures
        match spec_read_string(bytes@, *old(p) as int) {
            Some((seg, q)) => r matches Ok(s) && s@ == decode_utf8(seg) && *final(p) == q,
            None => r matches Err(CheckpointError::BadHeader(m)) && message_fits(
                m@,
                read_string_err(bytes@, *old(p) as int),
            ) && *final(p) == read_string_err_pos(bytes@, *old(p) as int),
        },
{
    let quote = [QUOTE];
    assert(quote@ =~= seq![QUOTE]);
    match expect(bytes, p, &quote) {
        Ok(()) => {},
        Err(e) => {
            return Err(e);
        },
    }
    let start = *p;
    let mut q = start;
    proof {
        lemma_quote_end_bounds(bytes@, start as int);
    }
    while q < bytes.len() && bytes[q] != QUOTE
        invariant
            start <= q,
            quote_end(bytes@, q as int) == quote_end(bytes@, start as int),
        decreases bytes.len() - q,
    {
        q += 1;
    }
    if q >= bytes.len() {
        *p = q;
        return Err(bad_header("unterminated string"));
    }
    let seg = &bytes[start..q];
    assert(seg@ == bytes@.subrange(start as int, q as int));
    match str_from_utf8(seg) {
        Err(e) => {
            *p = q;
            Err(CheckpointError::BadHeader(utf8_error_message(&e)))
        },
        Ok(s) => {
            let owned = s.to_owned();
            proof {
                encode_utf8_decode_utf8(s@);
            }
            *p = q + 1;
            Ok(owned)
        },
    }
}

/// The first `k` digits of a digit string never denote more than all of them.
proof fn lemma_digits_value_prefix(s: Seq<u8>, k: int)
    requires
        0 <= k <= s.len(),
    ensures
        digits_value(s.subrange(0, k)) <= digits_value(s),
    decreases s.len() - k,
{
    if k < s.len() {
        lemma_digits_value_prefix(s, k + 1);
        assert(s.subrange(0, k + 1).drop_last() =~= s.subrange(0, k));
    } else {
        assert(s.subrange(0, k) =~= s);
    }
}

/// A non-empty run of decimal digits whose value fits in `usize`.
pub fn read_int(bytes: &[u8], p: &mut usize) -> (r: Result<usize, CheckpointError>)
    ensures
        match spec_read_int(bytes@, *old(p) as int) {
            Some((v, q)) => r matches Ok(x) && x == v && *final(p) == q,
            None => r matches Err(CheckpointError::BadHeader(m)) && message_fits(
                m@,
                read_int_err(bytes@, *old(p) as int),
            ) && *final(p) == digits_end(bytes@, *old(p) as int),
        },
{
    let start = *p;
    let mut q = start;
    proof {
        lemma_digits_end_bounds(bytes@, start as int);
    }
    while q < bytes.len() && is_ascii_digit(bytes[q])
        invariant
            start <= q,
            digits_end(bytes@, q as int) == digits_end(bytes@, start as int),
        decreases bytes.len() - q,
    {
        q += 1;
    }
    *p = q;
    if start == q {
        return Err(bad_header("expected integer"));
    }
    let ghost digits = bytes@.subrange(start as int, q as int);
    let mut value: usize = 0;
    let mut i = start;
    while i < q
        invariant
            start <= i <= q <= bytes@.len(),
            q as int == digits_end(bytes@, start as int),
            start == *old(p),
            *p == q,
            digits == bytes@.subrange(start as int, q as int),
            forall|k: int| start <= k < q ==> is_digit(#[trigger] bytes@[k]),
            value == digits_value(digits.subrange(0, i - start)),
        decreases q - i,
    {
        let d = (bytes[i] - 0x30) as usize;
        assert(digits.subrange(0, i + 1 - start).drop_last() =~= digits.subrange(0, i - start));
        let ghost next = digits_value(digits.subrange(0, i + 1 - start));
        assert(next == value * 10 + d);
        match value.checked_mul(10) {
            None => {
                proof {
                    lemma_digits_value_prefix(digits, i + 1 - start);
                    assert(next > usize::MAX);
                    assert(digits_value(digits) > usize::MAX);
                }
                return Err(bad_header("integer parse"));
            },
            Some(m) => match m.checked_add(d) {
                None => {
                    proof {
                        lemma_digits_value_prefix(digits, i + 1 - start);
                        assert(next > usize::MAX);
                        assert(digits_value(digits) > usize::MAX);
                    }
                    return Err(bad_header("integer parse"));
                },
                Some(v) => {
                    value = v;
                },
            },
        }
        i += 1;
    }
    assert(digits.subrange(0, q - start) =~= digits);
    Ok(value)
}

/// An array of integers: `[]` or `[a, b, ...]`.
pub fn read_int_array(bytes: &[u8], p: &mut usize) -> (r: Result<Vec<usize>, CheckpointError>)
    requires
        *old(p) < usize::MAX,
    ensures
        match spec_read_int_array(bytes@, *old(p) as int) {
            Some((v, q)) => r matches Ok(x) && x@ == v && *final(p) == q,
            None => r matches Err(CheckpointError::BadHeader(m)) && message_fits(
                m@,
                read_int_array_err(bytes@, *old(p) as int),
            ) && *final(p) == read_int_array_err_pos(bytes@, *old(p) as int),
        },
{
    let open = [LBRACKET];
    assert(open@ =~= seq![LBRACKET]);
    match expect(bytes, p, &open) {
        Ok(()) => {},
        Err(e) => {
            return Err(e);
        },
    }
    let blen = bytes.len();
    let mut out: Vec<usize> = Vec::new();
    skip_ws(bytes, p);
    if peek(bytes, *p) == Some(RBRACKET) {
        *p = *p + 1;
        return Ok(out);
    }
    let ghost list_start = *p as int;
    loop
        invariant_except_break
            spec_read_int_array(bytes@, *old(p) as int) == match spec_int_list(bytes@, *p as int) {
                Some((rest, q)) => Some((out@ + rest, q)),
                None => None::<(Seq<usize>, int)>,
            },
            read_int_array_err(bytes@, *old(p) as int) == int_list_err(bytes@, *p as int),
            read_int_array_err_pos(bytes@, *old(p) as int) == int_list_err_pos(bytes@, *p as int),
        invariant
            blen == bytes@.len(),
        ensures
            spec_read_int_array(bytes@, *old(p) as int) == Some((out@, *p as int)),
        decreases bytes@.len() - *p,
    {
        let ghost here = *p as int;
        proof {
            lemma_ws_end_bounds(bytes@, here);
        }
        skip_ws(bytes, p);
        let v = match read_int(bytes, p) {
            Ok(v) => v,
            Err(e) => {
                return Err(e);
            },
        };
        proof {
            lemma_read_int_advances(bytes@, ws_end(bytes@, here));
            lemma_ws_end_bounds(bytes@, *p as int);
        }
        skip_ws(bytes, p);
        let sep = *p;
        match peek(bytes, sep) {
            Some(c) if c == COMMA => {
                assert(out@.push(v) =~= out@ + seq![v]);
                proof {
                    let rest_from = spec_int_list(bytes@, *p + 1);
                    if let Some((rest, q)) = rest_from {
                        assert(out@ + (seq![v] + rest) =~= out@.push(v) + rest);
                    }
                }
                out.push(v);
                *p = *p + 1;
            },
            Some(c) if c == RBRACKET => {
                assert(out@.push(v) =~= out@ + seq![v]);
                out.push(v);
                *p = *p + 1;
                break ;
            },
            _ => {
                // The cursor stays at the unexpected separator.
                *p = sep;
                return Err(bad_header("expected ',' or ']' in array"));
            },
        }
    }
    Ok(out)
}


/// The text of `key` is `word`.
fn same_text(key: &String, word: &str) -> (r: bool)
    ensures
        r == (key@ == word@),
{
    let w = word.to_owned();
    *key == w
}

/// `unknown key '<key>'`.
fn unknown_key(key: &String) -> (r: CheckpointError)
    ensures
        r matches CheckpointError::BadHeader(m) && m@ == "unknown key '"@ + key@ + "'"@,
{
    let mut msg = "unknown key '".to_owned();
    msg.append(key.as_str());
    msg.append("'");
    CheckpointError::BadHeader(msg)
}

/// Appending `k` to the keys read so far: what it adds to `contains` and
/// what it takes from `no_duplicates`.
proof fn lemma_keys_push(s: Seq<Seq<char>>, k: Seq<char>)
    ensures
        forall|x: Seq<char>| #[trigger] s.push(k).contains(x) <==> (s.contains(x) || x == k),
        s.push(k).no_duplicates() <==> (s.no_duplicates() && !s.contains(k)),
{
    let t = s.push(k);
    assert forall|x: Seq<char>| #[trigger] t.contains(x) <==> (s.contains(x) || x == k) by {
        if t.contains(x) {
            let i = choose|i: int| 0 <= i < t.len() && t[i] == x;
            if i < s.len() {
                assert(s[i] == x);
            }
        }
        if s.contains(x) {
            let i = choose|i: int| 0 <= i < s.len() && s[i] == x;
            assert(t[i] == x);
        }
        if x == k {
            assert(t[s.len() as int] == x);
        }
    }
    if t.no_duplicates() {
        assert forall|i: int, j: int|
            0 <= i < s.len() && 0 <= j < s.len() && i != j implies s[i] != s[j] by {
            assert(t[i] == s[i] && t[j] == s[j]);
        }
        if s.contains(k) {
            let i = choose|i: int| 0 <= i < s.len() && s[i] == k;
            assert(t[i] == t[s.len() as int]);
        }
    }
    if s.no_duplicates() && !s.contains(k) {
        assert forall|i: int, j: int|
            0 <= i < t.len() && 0 <= j < t.len() && i != j implies t[i] != t[j] by {
            if i < s.len() && j < s.len() {
                assert(t[i] == s[i] && t[j] == s[j]);
            } else if i < s.len() {
                assert(t[i] == s[i] && t[j] == k);
            } else {
                assert(t[j] == s[j] && t[i] == k);
            }
        }
    }
}

/// One `{"path": .., "shape": [..], "offset": .., "len": ..}` entry. The
/// keys may come in any order, but each of the four must be there exactly
/// once; any other key, a missing or repeated one, or a malformed value is
/// a `BadHeader`.
pub fn parse_entry(bytes: &[u8], p: &mut usize) -> (r: Result<Entry, CheckpointError>)
    requires
        *old(p) < usize::MAX,
        bytes@.len() < usize::MAX,
    ensures
        match spec_parse_entry(bytes@, *old(p) as int) {
            Some((e, q)) => r matches Ok(x) && x@ == e && *final(p) == q,
            None => r matches Err(CheckpointError::BadHeader(m)) && message_fits(
                m@,
                parse_entry_err(bytes@, *old(p) as int),
            ) && *final(p) == parse_entry_err_pos(bytes@, *old(p) as int),
        },
{
    let blen = bytes.len();
    let open = [LBRACE];
    assert(open@ =~= seq![LBRACE]);
    match expect(bytes, p, &open) {
        Ok(()) => {},
        Err(e) => {
            return Err(e);
        },
    }
    let ghost b = bytes@;
    let ghost start = *p as int;
    let mut path = String::new();
    let mut shape: Vec<usize> = Vec::new();
    let mut offset: usize = 0;
    let mut len: usize = 0;
    let mut seen_path = false;
    let mut seen_shape = false;
    let mut seen_offset = false;
    let mut seen_len = false;
    let mut dup = false;
    let ghost mut done: Seq<Seq<char>> = Seq::empty();
    proof {
        reveal_strlit("path");
        reveal_strlit("shape");
        reveal_strlit("offset");
        reveal_strlit("len");
    }
    assert(EntryView { path: path@, shape: shape@, offset: offset, len: len } == empty_entry());
    assert(entry_keys(b, start, empty_entry()) =~= done + entry_keys(b, start, empty_entry()));
    loop
        invariant_except_break
            spec_entry_fields(b, start, empty_entry()) == spec_entry_fields(
                b,
                *p as int,
                EntryView { path: path@, shape: shape@, offset: offset, len: len },
            ),
            entry_fields_err(b, start, empty_entry()) == entry_fields_err(
                b,
                *p as int,
                EntryView { path: path@, shape: shape@, offset: offset, len: len },
            ),
            entry_fields_err_pos(b, start, empty_entry()) == entry_fields_err_pos(
                b,
                *p as int,
                EntryView { path: path@, shape: shape@, offset: offset, len: len },
            ),
            entry_keys(b, start, empty_entry()) == done + entry_keys(
                b,
                *p as int,
                EntryView { path: path@, shape: shape@, offset: offset, len: len },
            ),
        invariant
            b == bytes@,
            blen == b.len(),
            blen < usize::MAX,
            *p <= blen,
            start == *old(p) + 1,
            token_at(b, *old(p) as int, seq![LBRACE]),
            "path"@ == path_key(),
            "shape"@ == shape_key(),
            "offset"@ == offset_key(),
            "len"@ == len_key(),
            seen_path == done.contains(path_key()),
            seen_shape == done.contains(shape_key()),
            seen_offset == done.contains(offset_key()),
            seen_len == done.contains(len_key()),
            dup == !done.no_duplicates(),
        ensures
            spec_entry_fields(b, start, empty_entry()) == Some(
                (EntryView { path: path@, shape: shape@, offset: offset, len: len }, *p as int),
            ),
            entry_keys(b, start, empty_entry()) == done,
        decreases blen - *p,
    {
        let ghost here = *p as int;
        let ghost acc = EntryView { path: path@, shape: shape@, offset: offset, len: len };
        proof {
            lemma_ws_end_bounds(b, here);
        }
        skip_ws(bytes, p);
        let ghost p1 = *p as int;
        let key = match read_string(bytes, p) {
            Ok(k) => k,
            Err(e) => {
                return Err(e);
            },
        };
        proof {
            lemma_read_string_advances(b, p1);
            lemma_ws_end_bounds(b, *p as int);
        }
        skip_ws(bytes, p);
        let colon = [COLON];
        assert(colon@ =~= seq![COLON]);
        match expect(bytes, p, &colon) {
            Ok(()) => {},
            Err(e) => {
                return Err(e);
            },
        }
        proof {
            lemma_ws_end_bounds(b, *p as int);
        }
        skip_ws(bytes, p);
        let ghost p4 = *p as int;
        if same_text(&key, "path") {
            match read_string(bytes, p) {
                Ok(v) => {
                    path = v;
                },
                Err(e) => {
                    return Err(e);
                },
            }
            dup = dup || seen_path;
            seen_path = true;
        } else if same_text(&key, "shape") {
            match read_int_array(bytes, p) {
                Ok(v) => {
                    shape = v;
                },
                Err(e) => {
                    return Err(e);
                },
            }
            dup = dup || seen_shape;
            seen_shape = true;
        } else if same_text(&key, "offset") {
            match read_int(bytes, p) {
                Ok(v) => {
                    offset = v;
                },
                Err(e) => {
                    return Err(e);
                },
            }
            dup = dup || seen_offset;
            seen_offset = true;
        } else if same_text(&key, "len") {
            match read_int(bytes, p) {
                Ok(v) => {
                    len = v;
                },
                Err(e) => {
                    return Err(e);
                },
            }
            dup = dup || seen_len;
            seen_len = true;
        } else {
            return Err(unknown_key(&key));
        }
        let ghost before = done;
        proof {
            lemma_keys_push(before, key@);
            done = before.push(key@);
            lemma_entry_value_advances(b, p4, key@, acc);
            lemma_ws_end_bounds(b, *p as int);
        }
        skip_ws(bytes, p);
        let sep = *p;
        match peek(bytes, sep) {
            Some(c) if c == COMMA => {
                *p = *p + 1;
                proof {
                    let acc2 = EntryView { path: path@, shape: shape@, offset: offset, len: len };
                    assert(before + (seq![key@] + entry_keys(b, *p as int, acc2)) =~= done
                        + entry_keys(b, *p as int, acc2));
                }
            },
            Some(c) if c == RBRACE => {
                *p = *p + 1;
                assert(before + seq![key@] =~= done);
                break ;
            },
            _ => {
                // The cursor stays at the unexpected separator.
                *p = sep;
                return Err(bad_header("expected ',' or '}'"));
            },
        }
    }
    if dup || !seen_path || !seen_shape || !seen_offset || !seen_len {
        return Err(
            bad_header("entry needs each of \"path\", \"shape\", \"offset\" and \"len\" exactly once"),
        );
    }
    Ok(Entry { path, shape, offset, len })
}

/// The rest of the manifest from `p`, just after the `[` of the parameter
/// list and any whitespace: the entries, separated by commas, the closing
/// `]` and `}`, and then nothing but whitespace.
#[verifier::spinoff_prover]
#[verifier::rlimit(60)]
fn parse_params(bytes: &[u8], p: &mut usize) -> (r: Result<Vec<Entry>, CheckpointError>)
    requires
        *old(p) <= bytes@.len(),
        bytes@.len() + 9 < usize::MAX,
    ensures
        match spec_header_rest(bytes@, *old(p) as int) {
            Some(es) => r matches Ok(v) && entry_views(v@) == es,
            None => r matches Err(CheckpointError::BadHeader(m)) && message_fits(
                m@,
                header_rest_err(bytes@, *old(p) as int),
            ),
        },
{
    let blen = bytes.len();
    let ghost b = bytes@;
    let ghost pl = *p as int;
    let mut entries: Vec<Entry> = Vec::new();
    assert(entry_views(entries@) =~= Seq::<EntryView>::empty());
    if peek(bytes, *p) != Some(RBRACKET) {
        loop
            invariant_except_break
                spec_entry_list(b, pl) == match spec_entry_list(b, *p as int) {
                    Some(rest) => Some(entry_views(entries@) + rest),
                    None => None::<Seq<EntryView>>,
                },
                entry_list_end(b, pl) == entry_list_end(b, *p as int),
                entry_list_err(b, pl) == entry_list_err(b, *p as int),
            invariant
                b == bytes@,
                blen == b.len(),
                blen + 9 < usize::MAX,
                *p <= blen,
                pl == *old(p),
                pl <= blen,
                pl < blen ==> b[pl] != RBRACKET,
            ensures
                spec_entry_list(b, pl) == Some(entry_views(entries@)),
                entry_list_end(b, pl) == *p + 1,
                *p < blen,
                b[*p as int] == RBRACKET,
            decreases blen - *p,
        {
            let ghost here = *p as int;
            let e = match parse_entry(bytes, p) {
                Ok(e) => e,
                Err(err) => {
                    proof {
                        assert(spec_parse_entry(b, here) is None);
                        assert(spec_entry_list(b, here) is None);
                        assert(entry_list_err(b, here) == parse_entry_err(b, here));
                        assert(spec_params_list(b, pl) is None);
                    }
                    return Err(err);
                },
            };
            proof {
                lemma_entry_fields_advances(b, here + 1, empty_entry());
                lemma_ws_end_bounds(b, *p as int);
            }
            let ghost prior = entry_views(entries@);
            entries.push(e);
            assert(entry_views(entries@) =~= prior.push(e@));
            skip_ws(bytes, p);
            match peek(bytes, *p) {
                Some(c) if c == COMMA => {
                    *p = *p + 1;
                    proof {
                        lemma_ws_end_bounds(b, *p as int);
                        if let Some(rest) = spec_entry_list(b, ws_end(b, *p as int)) {
                            assert(prior + (seq![e@] + rest) =~= prior.push(e@) + rest);
                        }
                    }
                    skip_ws(bytes, p);
                },
                Some(c) if c == RBRACKET => {
                    assert(prior + seq![e@] =~= prior.push(e@));
                    break ;
                },
                _ => {
                    proof {
                        assert(spec_entry_list(b, here) is None);
                        assert(entry_list_err(b, here) == Some("expected ',' or ']'"@));
                        assert(spec_params_list(b, pl) is None);
                    }
                    return Err(bad_header("expected ',' or ']'"));
                },
            }
        }
    }
    // The cursor stands on the list's `]`.
    *p = *p + 1;
    assert(spec_params_list(b, pl) == Some((entry_views(entries@), *p as int)));
    proof {
        lemma_ws_end_bounds(b, *p as int);
    }
    skip_ws(bytes, p);
    let close = [RBRACE];
    assert(close@ =~= seq![RBRACE]);
    if let Err(e) = expect(bytes, p, &close) {
        return Err(e);
    }
    proof {
        lemma_ws_end_bounds(b, *p as int);
    }
    skip_ws(bytes, p);
    if *p != blen {
        return Err(bad_header("unexpected data after the manifest"));
    }
    Ok(entries)
}

/// The whole manifest: `{"version": <int>, "params": [<entry>, ...]}`,
/// with whitespace allowed between tokens and around it, and nothing else.
/// The version number is read but not acted on.
pub fn parse_header(s: &str) -> (r: Result<Vec<Entry>, CheckpointError>)
    requires
        encode_utf8(s@).len() + 9 < usize::MAX,
    ensures
        match spec_parse_header(encode_utf8(s@)) {
            Some(es) => r matches Ok(v) && entry_views(v@) == es,
            None => r matches Err(CheckpointError::BadHeader(m)) && message_fits(
                m@,
                parse_header_err(encode_utf8(s@)),
            ),
        },
{
    let bytes = s.as_bytes();
    let blen = bytes.len();
    let ghost b = bytes@;
    let mut p: usize = 0;
    let open = [LBRACE];
    assert(open@ =~= seq![LBRACE]);
    let version = [QUOTE, 0x76, 0x65, 0x72, 0x73, 0x69, 0x6f, 0x6e, QUOTE];
    assert(version@ =~= super::grammar::version_token());
    let params = [QUOTE, 0x70, 0x61, 0x72, 0x61, 0x6d, 0x73, QUOTE];
    assert(params@ =~= super::grammar::params_token());
    let colon = [COLON];
    assert(colon@ =~= seq![COLON]);
    let comma = [COMMA];
    assert(comma@ =~= seq![COMMA]);
    let bracket = [LBRACKET];
    assert(bracket@ =~= seq![LBRACKET]);
    proof {
        lemma_ws_end_bounds(b, 0);
    }
    skip_ws(bytes, &mut p);
    if let Err(e) = expect(bytes, &mut p, &open) {
        return Err(e);
    }
    proof {
        lemma_ws_end_bounds(b, p as int);
    }
    skip_ws(bytes, &mut p);
    if let Err(e) = expect(bytes, &mut p, &version) {
        return Err(e);
    }
    proof {
        lemma_ws_end_bounds(b, p as int);
    }
    skip_ws(bytes, &mut p);
    if let Err(e) = expect(bytes, &mut p, &colon) {
        return Err(e);
    }
    proof {
        lemma_ws_end_bounds(b, p as int);
    }
    skip_ws(bytes, &mut p);
    let ghost p3 = p as int;
    if let Err(e) = read_int(bytes, &mut p) {
        return Err(e);
    }
    proof {
        lemma_read_int_advances(b, p3);
        lemma_ws_end_bounds(b, p as int);
    }
    skip_ws(bytes, &mut p);
    if let Err(e) = expect(bytes, &mut p, &comma) {
        return Err(e);
    }
    proof {
        lemma_ws_end_bounds(b, p as int);
    }
    skip_ws(bytes, &mut p);
    if let Err(e) = expect(bytes, &mut p, &params) {
        return Err(e);
    }
    proof {
        lemma_ws_end_bounds(b, p as int);
    }
    skip_ws(bytes, &mut p);
    if let Err(e) = expect(bytes, &mut p, &colon) {
        return Err(e);
    }
    proof {
        lemma_ws_end_bounds(b, p as int);
    }
    skip_ws(bytes, &mut p);
    if let Err(e) = expect(bytes, &mut p, &bracket) {
        return Err(e);
    }
    proof {
        lemma_ws_end_bounds(b, p as int);
    }
    skip_ws(bytes, &mut p);
    parse_params(bytes, &mut p)
}

} // verus!
