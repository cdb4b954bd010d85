//! What `load_bytes` makes of what `save_bytes` wrote: the manifest parses
//! back to the entries that were written, and every parameter gets its
//! values back.
use vstd::bytes::{lemma_auto_spec_u32_to_from_le_bytes, spec_u32_from_le_bytes, spec_u32_to_le_bytes};
use vstd::prelude::*;
use vstd::utf8::{
    decode_utf8, encode_scalar, encode_utf8, encode_utf8_decode_utf8, encode_utf8_valid_utf8,
    has_width_1_encoding, has_width_2_encoding, has_width_3_encoding, has_width_4_encoding,
    is_ascii_chars, is_ascii_chars_encode_utf8, valid_utf8, valid_utf8_concat,
};

use super::format::{
    bytes_words, checkpoint_bytes, data_bytes, decimal, dims_text, entries_text, entry_text,
    header_close, header_open, header_text, len_open, offset_open, path_open, shape_open,
    total_len, words_bytes,
};
use super::grammar::{
    digits_end, digits_value, is_digit, is_ws, lemma_digits_end_at, lemma_quote_end_at,
    lemma_ws_end_at, quote_end, spec_entry_fields, spec_entry_list, spec_entry_value,
    spec_int_list, spec_parse_entry, spec_parse_header, spec_read_int, spec_read_int_array,
    spec_read_string, token_at, ws_end, entry_keys, entry_list_end, header_tail_ok, keys_exact,
    spec_header_rest,
    EntryView, COLON, COMMA, LBRACE, LBRACKET, QUOTE, RBRACE,
    RBRACKET,
};
use super::loader::{
    data_section, first_match, lemma_first_match_at, load_is_defined, load_result, load_step, loaded_count,
    overwrite_prefix, read_header, stored_header_len, HeaderView, LoadStep,
};
use super::ParamRecord;

verus! {

/// Every byte of `s` is ASCII.
pub open spec fn ascii_bytes(s: Seq<u8>) -> bool {
    forall|k: int| 0 <= k < s.len() ==> #[trigger] s[k] < 0x80
}

pub proof fn lemma_token_split(b: Seq<u8>, p: int, s: Seq<u8>, t: Seq<u8>)
    requires
        token_at(b, p, s + t),
    ensures
        token_at(b, p, s),
        token_at(b, p + s.len(), t),
{
    let whole = b.subrange(p, p + s.len() + t.len());
    assert(whole == s + t);
    assert forall|k: int| 0 <= k < s.len() implies b.subrange(p, p + s.len())[k] == s[k] by {
        assert(whole[k] == (s + t)[k]);
    }
    assert(b.subrange(p, p + s.len()) =~= s);
    assert forall|k: int| 0 <= k < t.len() implies b.subrange(p + s.len(), p + s.len() + t.len())[k]
        == t[k] by {
        assert(whole[s.len() + k] == (s + t)[s.len() + k]);
    }
    assert(b.subrange(p + s.len(), p + s.len() + t.len()) =~= t);
}

pub proof fn lemma_token_byte(b: Seq<u8>, p: int, s: Seq<u8>, k: int)
    requires
        token_at(b, p, s),
        0 <= k < s.len(),
    ensures
        b[p + k] == s[k],
{
    assert(b.subrange(p, p + s.len())[k] == b[p + k]);
}

/// ASCII bytes are valid UTF-8 and decode to the characters with the same codes.
pub proof fn lemma_ascii_decode(s: Seq<u8>)
    requires
        ascii_bytes(s),
    ensures
        valid_utf8(s),
        decode_utf8(s) == s.map_values(|x: u8| x as char),
{
    let chars = s.map_values(|x: u8| x as char);
    assert(is_ascii_chars(chars)) by {
        assert forall|i: int| 0 <= i < chars.len() implies '\0' <= #[trigger] chars[i] <= '\u{7f}' by {
            assert(s[i] < 0x80);
        }
    }
    is_ascii_chars_encode_utf8(chars);
    assert forall|i: int| 0 <= i < s.len() implies encode_utf8(chars)[i] == s[i] by {
        assert(chars[i] as u8 == encode_utf8(chars)[i]);
        assert(s[i] < 0x80);
    }
    assert(encode_utf8(chars) =~= s);
    encode_utf8_valid_utf8(chars);
    encode_utf8_decode_utf8(chars);
}

/// The encoding of one character holds a quote byte only if the character is a quote.
proof fn lemma_scalar_quote_free(c: char)
    requires
        c != '"',
    ensures
        forall|k: int| 0 <= k < encode_scalar(c as u32).len() ==> #[trigger] encode_scalar(
            c as u32,
        )[k] != QUOTE,
{
    let v = c as u32;
    if has_width_1_encoding(v) {
        assert(v != 0x22);
        assert(v <= 0x7f && v != 0x22 ==> (v & 0x7F) as u8 != 0x22u8) by (bit_vector);
    } else {
        assert(forall|x: u32| #![auto] (0xC0u8 | ((x >> 6) & 0x1F) as u8) != 0x22u8) by (bit_vector);
        assert(forall|x: u32| #![auto] (0xE0u8 | ((x >> 12) & 0x0F) as u8) != 0x22u8) by (bit_vector);
        assert(forall|x: u32| #![auto] (0xF0u8 | ((x >> 18) & 0x7) as u8) != 0x22u8) by (bit_vector);
        assert(forall|x: u32| #![auto] (0x80u8 | (x & 0x3F) as u8) != 0x22u8) by (bit_vector);
        assert(forall|x: u32| #![auto] (0x80u8 | ((x >> 6) & 0x3F) as u8) != 0x22u8) by (bit_vector);
        assert(forall|x: u32| #![auto] (0x80u8 | ((x >> 12) & 0x3F) as u8) != 0x22u8) by (bit_vector);
    }
}

/// A text without `"` encodes to bytes without a quote byte.
pub proof fn lemma_encode_quote_free(cs: Seq<char>)
    requires
        !cs.contains('"'),
    ensures
        forall|k: int| 0 <= k < encode_utf8(cs).len() ==> #[trigger] encode_utf8(cs)[k] != QUOTE,
    decreases cs.len(),
{
    if cs.len() > 0 {
        assert(cs[0] != '"') by {
            if cs[0] == '"' {
                assert(cs.contains('"'));
            }
        }
        lemma_scalar_quote_free(cs[0]);
        let rest = cs.drop_first();
        assert(!rest.contains('"')) by {
            if rest.contains('"') {
                let k = choose|k: int| 0 <= k < rest.len() && rest[k] == '"';
                assert(cs[k + 1] == '"');
            }
        }
        lemma_encode_quote_free(rest);
        let e0 = encode_scalar(cs[0] as u32);
        assert(encode_utf8(cs) == e0 + encode_utf8(rest));
        assert forall|k: int| 0 <= k < encode_utf8(cs).len() implies #[trigger] encode_utf8(cs)[k]
            != QUOTE by {
            if k < e0.len() {
                assert(encode_utf8(cs)[k] == e0[k]);
            } else {
                assert(encode_utf8(cs)[k] == encode_utf8(rest)[k - e0.len()]);
            }
        }
    }
}

/// `decimal(n)` is a non-empty run of digits denoting `n`.
pub proof fn lemma_decimal(n: nat)
    ensures
        decimal(n).len() >= 1,
        forall|k: int| 0 <= k < decimal(n).len() ==> is_digit(#[trigger] decimal(n)[k]),
        ascii_bytes(decimal(n)),
        digits_value(decimal(n)) == n,
    decreases n,
{
    if n >= 10 {
        lemma_decimal(n / 10);
        vstd::arithmetic::div_mod::lemma_fundamental_div_mod(n as int, 10);
        let d = decimal(n);
        assert(d.drop_last() =~= decimal(n / 10));
        assert(d.last() == (0x30 + n % 10) as u8);
        assert(n % 10 < 10);
        assert((d.last() - 0x30) as nat == n % 10);
        assert(digits_value(d) == digits_value(decimal(n / 10)) * 10 + n % 10);
        assert forall|k: int| 0 <= k < d.len() implies is_digit(#[trigger] d[k]) by {
            if k < decimal(n / 10).len() {
                assert(d[k] == decimal(n / 10)[k]);
            }
        }
    } else {
        let d = decimal(n);
        assert(d.drop_last() =~= Seq::<u8>::empty());
        assert(digits_value(d) == digits_value(Seq::<u8>::empty()) * 10 + n);
    }
}


/// Whitespace skipping stops at once on a byte that is not whitespace.
pub proof fn lemma_no_ws(b: Seq<u8>, p: int)
    requires
        0 <= p < b.len(),
        !is_ws(b[p]),
    ensures
        ws_end(b, p) == p,
{
}

pub proof fn lemma_read_int_at(b: Seq<u8>, p: int, n: nat)
    requires
        token_at(b, p, decimal(n)),
        n <= usize::MAX,
        p + decimal(n).len() == b.len() || !is_digit(b[p + decimal(n).len()]),
    ensures
        spec_read_int(b, p) == Some((n as usize, p + decimal(n).len())),
{
    lemma_decimal(n);
    let q = p + decimal(n).len();
    assert forall|k: int| p <= k < q implies is_digit(#[trigger] b[k]) by {
        lemma_token_byte(b, p, decimal(n), k - p);
    }
    lemma_digits_end_at(b, p, q);
    assert(b.subrange(p, q) == decimal(n));
}

pub proof fn lemma_read_string_at(b: Seq<u8>, p: int, s: Seq<u8>)
    requires
        token_at(b, p, seq![QUOTE] + s + seq![QUOTE]),
        forall|k: int| 0 <= k < s.len() ==> #[trigger] s[k] != QUOTE,
        valid_utf8(s),
    ensures
        spec_read_string(b, p) == Some((s, p + s.len() + 2)),
{
    lemma_token_split(b, p, seq![QUOTE] + s, seq![QUOTE]);
    lemma_token_split(b, p, seq![QUOTE], s);
    let q = p + 1 + s.len();
    assert forall|k: int| p + 1 <= k < q implies #[trigger] b[k] != QUOTE by {
        lemma_token_byte(b, p + 1, s, k - p - 1);
    }
    lemma_token_byte(b, q, seq![QUOTE], 0);
    lemma_quote_end_at(b, p + 1, q);
    assert(b.subrange(p + 1, q) == s);
}

/// Digits and commas are ASCII and never whitespace or quotes.
pub proof fn lemma_dims_text(ds: Seq<usize>)
    ensures
        ascii_bytes(dims_text(ds)),
        forall|k: int| 0 <= k < dims_text(ds).len() ==> #[trigger] dims_text(ds)[k] != QUOTE,
        ds.len() >= 1 ==> is_digit(dims_text(ds)[0]),
    decreases ds.len(),
{
    if ds.len() >= 1 {
        lemma_decimal(ds[0] as nat);
        let d0 = decimal(ds[0] as nat);
        if ds.len() >= 2 {
            lemma_dims_text(ds.drop_first());
            let t = dims_text(ds);
            let r = dims_text(ds.drop_first());
            assert forall|k: int| 0 <= k < t.len() implies #[trigger] t[k] < 0x80 && t[k] != QUOTE by {
                if k < d0.len() {
                    assert(t[k] == d0[k]);
                    assert(is_digit(d0[k]));
                } else if k == d0.len() {
                } else {
                    assert(t[k] == r[k - d0.len() - 1]);
                }
            }
            assert(t[0] == d0[0]);
        } else {
            assert forall|k: int| 0 <= k < d0.len() implies #[trigger] d0[k] != QUOTE by {
                assert(is_digit(d0[k]));
            }
        }
    }
}

pub proof fn lemma_int_list_at(b: Seq<u8>, p: int, ds: Seq<usize>)
    requires
        ds.len() >= 1,
        token_at(b, p, dims_text(ds) + seq![RBRACKET]),
    ensures
        spec_int_list(b, p) == Some((ds, p + dims_text(ds).len() + 1)),
    decreases ds.len(),
{
    let d0 = decimal(ds[0] as nat);
    lemma_decimal(ds[0] as nat);
    lemma_token_byte(b, p, dims_text(ds) + seq![RBRACKET], 0);
    assert(dims_text(ds)[0] == d0[0]);
    lemma_no_ws(b, p);
    if ds.len() == 1 {
        assert(dims_text(ds) + seq![RBRACKET] == d0 + seq![RBRACKET]);
        lemma_token_split(b, p, d0, seq![RBRACKET]);
        lemma_token_byte(b, p + d0.len(), seq![RBRACKET], 0);
        lemma_read_int_at(b, p, ds[0] as nat);
        lemma_no_ws(b, p + d0.len());
        assert(seq![ds[0]] =~= ds);
    } else {
        let rest = ds.drop_first();
        let r = dims_text(rest);
        assert(dims_text(ds) + seq![RBRACKET] =~= d0 + (seq![COMMA] + (r + seq![RBRACKET])));
        lemma_token_split(b, p, d0, seq![COMMA] + (r + seq![RBRACKET]));
        lemma_token_split(b, p + d0.len(), seq![COMMA], r + seq![RBRACKET]);
        lemma_token_byte(b, p + d0.len(), seq![COMMA], 0);
        lemma_read_int_at(b, p, ds[0] as nat);
        lemma_no_ws(b, p + d0.len());
        lemma_int_list_at(b, p + d0.len() + 1, rest);
        assert(seq![ds[0]] + rest =~= ds);
    }
}

pub proof fn lemma_read_int_array_at(b: Seq<u8>, p: int, ds: Seq<usize>)
    requires
        token_at(b, p, seq![LBRACKET] + dims_text(ds) + seq![RBRACKET]),
    ensures
        spec_read_int_array(b, p) == Some((ds, p + dims_text(ds).len() + 2)),
{
    assert(seq![LBRACKET] + dims_text(ds) + seq![RBRACKET] =~= seq![LBRACKET] + (dims_text(ds)
        + seq![RBRACKET]));
    lemma_token_split(b, p, seq![LBRACKET], dims_text(ds) + seq![RBRACKET]);
    lemma_token_byte(b, p + 1, dims_text(ds) + seq![RBRACKET], 0);
    if ds.len() == 0 {
        assert(dims_text(ds) + seq![RBRACKET] =~= seq![RBRACKET]);
        lemma_no_ws(b, p + 1);
        assert(ds =~= Seq::<usize>::empty());
    } else {
        lemma_dims_text(ds);
        lemma_no_ws(b, p + 1);
        lemma_int_list_at(b, p + 1, ds);
    }
}


/// The key bytes of the four entry fields.
pub open spec fn path_kb() -> Seq<u8> {
    seq![0x70, 0x61, 0x74, 0x68]
}

pub open spec fn shape_kb() -> Seq<u8> {
    seq![0x73, 0x68, 0x61, 0x70, 0x65]
}

pub open spec fn offset_kb() -> Seq<u8> {
    seq![0x6f, 0x66, 0x66, 0x73, 0x65, 0x74]
}

pub open spec fn len_kb() -> Seq<u8> {
    seq![0x6c, 0x65, 0x6e]
}

/// `"<key>":`
pub open spec fn field_token(kb: Seq<u8>) -> Seq<u8> {
    seq![QUOTE] + kb + seq![QUOTE] + seq![COLON]
}

/// The entry that the manifest records for parameter `r` stored at element
/// `offset`: its byte offset is `4 * offset`.
pub open spec fn entry_of(r: ParamRecord, offset: nat) -> EntryView {
    EntryView {
        path: r.path@,
        shape: r.shape@,
        offset: (4 * offset) as usize,
        len: r.bits@.len() as usize,
    }
}

proof fn lemma_field_step(
    b: Seq<u8>,
    p: int,
    kb: Seq<u8>,
    key: Seq<char>,
    acc: EntryView,
    acc2: EntryView,
    q: int,
    sep: u8,
)
    requires
        0 <= p,
        token_at(b, p, field_token(kb)),
        ascii_bytes(kb),
        forall|k: int| 0 <= k < kb.len() ==> #[trigger] kb[k] != QUOTE,
        kb.map_values(|x: u8| x as char) == key,
        p + kb.len() + 3 < b.len(),
        !is_ws(b[p + kb.len() + 3]),
        spec_entry_value(b, p + kb.len() + 3, key, acc) == Some((acc2, q)),
        token_at(b, q, seq![sep]),
        sep == COMMA || sep == RBRACE,
    ensures
        spec_entry_fields(b, p, acc) == if sep == COMMA {
            spec_entry_fields(b, q + 1, acc2)
        } else {
            Some((acc2, q + 1))
        },
        entry_keys(b, p, acc) == if sep == COMMA {
            seq![key] + entry_keys(b, q + 1, acc2)
        } else {
            seq![key]
        },
{
    lemma_token_split(b, p, seq![QUOTE] + kb + seq![QUOTE], seq![COLON]);
    lemma_token_byte(b, p, seq![QUOTE] + kb + seq![QUOTE], 0);
    lemma_no_ws(b, p);
    lemma_ascii_decode(kb);
    lemma_read_string_at(b, p, kb);
    lemma_token_byte(b, p + kb.len() + 2, seq![COLON], 0);
    lemma_no_ws(b, p + kb.len() + 2);
    lemma_no_ws(b, p + kb.len() + 3);
    lemma_token_byte(b, q, seq![sep], 0);
    lemma_no_ws(b, q);
}

pub proof fn lemma_token_join(b: Seq<u8>, p: int, s: Seq<u8>, t: Seq<u8>)
    requires
        token_at(b, p, s),
        token_at(b, p + s.len(), t),
    ensures
        token_at(b, p, s + t),
{
    assert forall|k: int| 0 <= k < s.len() + t.len() implies b.subrange(p, p + s.len() + t.len())[k]
        == (s + t)[k] by {
        if k < s.len() {
            lemma_token_byte(b, p, s, k);
        } else {
            lemma_token_byte(b, p + s.len(), t, k - s.len());
        }
    }
    assert(b.subrange(p, p + s.len() + t.len()) =~= s + t);
}

/// Where each token of an entry stands, relative to the entry's start.
proof fn lemma_entry_tokens(b: Seq<u8>, p: int, r: ParamRecord, off: nat)
    requires
        token_at(b, p, entry_text(r, off)),
    ensures
        ({
            let pp = encode_utf8(r.path@);
            let dd = dims_text(r.shape@);
            let oo = decimal(4 * off);
            let ll = decimal(r.bits@.len());
            let v1 = p + 8;
            let q1 = v1 + pp.len() + 2;
            let v2 = q1 + 9;
            let q2 = v2 + dd.len() + 2;
            let v3 = q2 + 10;
            let q3 = v3 + oo.len();
            let v4 = q3 + 7;
            let q4 = v4 + ll.len();
            &&& token_at(b, p, seq![LBRACE])
            &&& token_at(b, p + 1, field_token(path_kb()))
            &&& token_at(b, v1, seq![QUOTE] + pp + seq![QUOTE])
            &&& token_at(b, q1, seq![COMMA])
            &&& token_at(b, q1 + 1, field_token(shape_kb()))
            &&& token_at(b, v2, seq![LBRACKET] + dd + seq![RBRACKET])
            &&& token_at(b, q2, seq![COMMA])
            &&& token_at(b, q2 + 1, field_token(offset_kb()))
            &&& token_at(b, v3, oo)
            &&& token_at(b, q3, seq![COMMA])
            &&& token_at(b, q3 + 1, field_token(len_kb()))
            &&& token_at(b, v4, ll)
            &&& token_at(b, q4, seq![RBRACE])
            &&& entry_text(r, off).len() == q4 + 1 - p
        }),
{
    let pp = encode_utf8(r.path@);
    let dd = dims_text(r.shape@);
    let oo = decimal(4 * off);
    let ll = decimal(r.bits@.len());
    let a1 = path_open();
    let a2 = a1 + pp;
    let a3 = a2 + shape_open();
    let a4 = a3 + dd;
    let a5 = a4 + offset_open();
    let a6 = a5 + oo;
    let a7 = a6 + len_open();
    let a8 = a7 + ll;
    assert(entry_text(r, off) == a8 + seq![RBRACE]);
    lemma_token_split(b, p, a8, seq![RBRACE]);
    lemma_token_split(b, p, a7, ll);
    lemma_token_split(b, p, a6, len_open());
    lemma_token_split(b, p, a5, oo);
    lemma_token_split(b, p, a4, offset_open());
    lemma_token_split(b, p, a3, dd);
    lemma_token_split(b, p, a2, shape_open());
    lemma_token_split(b, p, a1, pp);
    // path_open = `{` `"path":` `"`
    assert(path_open() =~= seq![LBRACE] + field_token(path_kb()) + seq![QUOTE]);
    lemma_token_split(b, p, seq![LBRACE] + field_token(path_kb()), seq![QUOTE]);
    lemma_token_split(b, p, seq![LBRACE], field_token(path_kb()));
    // shape_open = `"` `,` `"shape":` `[`
    assert(shape_open() =~= seq![QUOTE] + seq![COMMA] + field_token(shape_kb()) + seq![LBRACKET]);
    let s0 = a2.len() + p;
    lemma_token_split(b, s0, seq![QUOTE] + seq![COMMA] + field_token(shape_kb()), seq![LBRACKET]);
    lemma_token_split(b, s0, seq![QUOTE] + seq![COMMA], field_token(shape_kb()));
    lemma_token_split(b, s0, seq![QUOTE], seq![COMMA]);
    // offset_open = `]` `,` `"offset":`
    assert(offset_open() =~= seq![RBRACKET] + seq![COMMA] + field_token(offset_kb()));
    let o0 = a4.len() + p;
    lemma_token_split(b, o0, seq![RBRACKET] + seq![COMMA], field_token(offset_kb()));
    lemma_token_split(b, o0, seq![RBRACKET], seq![COMMA]);
    // len_open = `,` `"len":`
    assert(len_open() =~= seq![COMMA] + field_token(len_kb()));
    let l0 = a6.len() + p;
    lemma_token_split(b, l0, seq![COMMA], field_token(len_kb()));
    // the quoted path and the bracketed shape
    let v1 = p + 8;
    lemma_token_join(b, v1, seq![QUOTE], pp);
    lemma_token_join(b, v1, seq![QUOTE] + pp, seq![QUOTE]);
    let v2 = s0 + 11 - 1;
    lemma_token_join(b, v2, seq![LBRACKET], dd);
    lemma_token_join(b, v2, seq![LBRACKET] + dd, seq![RBRACKET]);
}

/// The four keys that the writer emits pass the key-set test.
proof fn lemma_emitted_keys_exact()
    ensures
        keys_exact(
            seq![
                super::grammar::path_key(),
                super::grammar::shape_key(),
                super::grammar::offset_key(),
                super::grammar::len_key(),
            ],
        ),
{
    let ks = seq![
        super::grammar::path_key(),
        super::grammar::shape_key(),
        super::grammar::offset_key(),
        super::grammar::len_key(),
    ];
    assert(ks[0] == super::grammar::path_key());
    assert(ks[1] == super::grammar::shape_key());
    assert(ks[2] == super::grammar::offset_key());
    assert(ks[3] == super::grammar::len_key());
    assert(ks[0].len() == 4 && ks[1].len() == 5 && ks[2].len() == 6 && ks[3].len() == 3);
    assert forall|i: int, j: int| 0 <= i < ks.len() && 0 <= j < ks.len() && i != j implies ks[i]
        != ks[j] by {
        assert(ks[i].len() != ks[j].len());
    }
}

#[verifier::spinoff_prover]
#[verifier::rlimit(60)]
pub proof fn lemma_parse_entry_at(b: Seq<u8>, p: int, r: ParamRecord, off: nat)
    requires
        token_at(b, p, entry_text(r, off)),
        !r.path@.contains('"'),
        4 * off <= usize::MAX,
        r.bits@.len() <= usize::MAX,
    ensures
        spec_parse_entry(b, p) == Some((entry_of(r, off), p + entry_text(r, off).len())),
{
    lemma_entry_tokens(b, p, r, off);
    let pp = encode_utf8(r.path@);
    let dd = dims_text(r.shape@);
    let len = r.bits@.len();
    let oo = decimal(4 * off);
    let ll = decimal(len);
    let v1 = p + 8;
    let q1 = v1 + pp.len() + 2;
    let v2 = q1 + 9;
    let q2 = v2 + dd.len() + 2;
    let v3 = q2 + 10;
    let q3 = v3 + oo.len();
    let v4 = q3 + 7;
    let q4 = v4 + ll.len();
    assert(path_kb().map_values(|x: u8| x as char) =~= super::grammar::path_key());
    assert(shape_kb().map_values(|x: u8| x as char) =~= super::grammar::shape_key());
    assert(offset_kb().map_values(|x: u8| x as char) =~= super::grammar::offset_key());
    assert(len_kb().map_values(|x: u8| x as char) =~= super::grammar::len_key());
    let e0 = super::grammar::empty_entry();
    let e1 = EntryView { path: r.path@, shape: e0.shape, offset: e0.offset, len: e0.len };
    let e2 = EntryView { path: r.path@, shape: r.shape@, offset: e0.offset, len: e0.len };
    let e3 = EntryView { path: r.path@, shape: r.shape@, offset: (4 * off) as usize, len: e0.len };
    let e4 = entry_of(r, off);
    assert(spec_entry_fields(b, p + 1, e0) == spec_entry_fields(b, q1 + 1, e1) && entry_keys(b, p + 1, e0)
        == seq![super::grammar::path_key()] + entry_keys(b, q1 + 1, e1)) by {
        lemma_encode_quote_free(r.path@);
        encode_utf8_valid_utf8(r.path@);
        encode_utf8_decode_utf8(r.path@);
        lemma_read_string_at(b, v1, pp);
        lemma_token_byte(b, v1, seq![QUOTE] + pp + seq![QUOTE], 0);
        lemma_field_step(b, p + 1, path_kb(), super::grammar::path_key(), e0, e1, q1, COMMA);
    }
    assert(spec_entry_fields(b, q1 + 1, e1) == spec_entry_fields(b, q2 + 1, e2) && entry_keys(b, q1 + 1, e1)
        == seq![super::grammar::shape_key()] + entry_keys(b, q2 + 1, e2)) by {
        lemma_read_int_array_at(b, v2, r.shape@);
        lemma_token_byte(b, v2, seq![LBRACKET] + dd + seq![RBRACKET], 0);
        lemma_field_step(b, q1 + 1, shape_kb(), super::grammar::shape_key(), e1, e2, q2, COMMA);
    }
    assert(spec_entry_fields(b, q2 + 1, e2) == spec_entry_fields(b, q3 + 1, e3) && entry_keys(b, q2 + 1, e2)
        == seq![super::grammar::offset_key()] + entry_keys(b, q3 + 1, e3)) by {
        lemma_decimal(4 * off);
        lemma_token_byte(b, v3, oo, 0);
        lemma_token_byte(b, q3, seq![COMMA], 0);
        lemma_read_int_at(b, v3, 4 * off);
        lemma_field_step(b, q2 + 1, offset_kb(), super::grammar::offset_key(), e2, e3, q3, COMMA);
    }
    assert(spec_entry_fields(b, q3 + 1, e3) == Some((e4, q4 + 1)) && entry_keys(b, q3 + 1, e3) == seq![
        super::grammar::len_key(),
    ]) by {
        lemma_decimal(len);
        lemma_token_byte(b, v4, ll, 0);
        lemma_token_byte(b, q4, seq![RBRACE], 0);
        lemma_read_int_at(b, v4, len);
        lemma_field_step(b, q3 + 1, len_kb(), super::grammar::len_key(), e3, e4, q4, RBRACE);
    }
    let ks = seq![
        super::grammar::path_key(),
        super::grammar::shape_key(),
        super::grammar::offset_key(),
        super::grammar::len_key(),
    ];
    assert(entry_keys(b, p + 1, e0) =~= ks);
    lemma_emitted_keys_exact();
}


/// The entries that the manifest of `ps` records, the first one stored at
/// element `base` and each next one where the previous ends.
pub open spec fn manifest_entries(ps: Seq<ParamRecord>, base: nat) -> Seq<EntryView>
    decreases ps.len(),
{
    if ps.len() == 0 {
        Seq::empty()
    } else {
        seq![entry_of(ps[0], base)] + manifest_entries(ps.drop_first(), base + ps[0].bits@.len())
    }
}

/// No parameter path holds a `"`.
pub open spec fn paths_quote_free(ps: Seq<ParamRecord>) -> bool {
    forall|i: int| 0 <= i < ps.len() ==> !(#[trigger] ps[i].path@).contains('"')
}

proof fn lemma_total_len_first(ps: Seq<ParamRecord>)
    requires
        ps.len() >= 1,
    ensures
        total_len(ps) == ps[0].bits@.len() + total_len(ps.drop_first()),
{
}

/// Every byte of `w` is whitespace.
pub open spec fn all_ws(w: Seq<u8>) -> bool {
    forall|k: int| 0 <= k < w.len() ==> is_ws(#[trigger] w[k])
}

/// The entries of `ps` as the writer lays them out, but with the
/// whitespace `before` and `after` around each comma between two entries.
pub open spec fn spaced_entries_text(
    ps: Seq<ParamRecord>,
    base: nat,
    before: Seq<u8>,
    after: Seq<u8>,
) -> Seq<u8>
    decreases ps.len(),
{
    if ps.len() == 0 {
        Seq::empty()
    } else if ps.len() == 1 {
        entry_text(ps[0], base)
    } else {
        entry_text(ps[0], base) + before + seq![COMMA] + after + spaced_entries_text(
            ps.drop_first(),
            base + ps[0].bits@.len(),
            before,
            after,
        )
    }
}

/// The manifest of `ps` as the writer lays it out, with whitespace added
/// after the list's `[` (`open_gap`), around each comma between entries,
/// before the `]` (`list_gap`), before the closing `}` (`close_gap`) and
/// after it (`end_gap`).
pub open spec fn spaced_header_text(
    ps: Seq<ParamRecord>,
    open_gap: Seq<u8>,
    before: Seq<u8>,
    after: Seq<u8>,
    list_gap: Seq<u8>,
    close_gap: Seq<u8>,
    end_gap: Seq<u8>,
) -> Seq<u8> {
    header_open() + open_gap + spaced_entries_text(ps, 0, before, after) + list_gap + seq![
        RBRACKET,
    ] + close_gap + seq![RBRACE] + end_gap
}

/// Whitespace skipping passes over a run of whitespace.
proof fn lemma_ws_skip(b: Seq<u8>, p: int, w: Seq<u8>)
    requires
        token_at(b, p, w),
        all_ws(w),
    ensures
        ws_end(b, p) == ws_end(b, p + w.len()),
    decreases w.len(),
{
    if w.len() > 0 {
        lemma_token_byte(b, p, w, 0);
        assert(w =~= seq![w[0]] + w.drop_first());
        lemma_token_split(b, p, seq![w[0]], w.drop_first());
        assert(all_ws(w.drop_first())) by {
            assert forall|k: int| 0 <= k < w.drop_first().len() implies is_ws(
                #[trigger] w.drop_first()[k],
            ) by {
                assert(w.drop_first()[k] == w[k + 1]);
            }
        }
        lemma_ws_skip(b, p + 1, w.drop_first());
    }
}

/// Whitespace skipping passes over a run of whitespace and stops at the
/// byte `c` after it, which is not whitespace.
proof fn lemma_ws_skip_to(b: Seq<u8>, p: int, w: Seq<u8>, c: u8)
    requires
        token_at(b, p, w + seq![c]),
        all_ws(w),
        !is_ws(c),
    ensures
        ws_end(b, p) == p + w.len(),
        b[p + w.len()] == c,
{
    lemma_token_split(b, p, w, seq![c]);
    lemma_ws_skip(b, p, w);
    lemma_token_byte(b, p + w.len(), seq![c], 0);
    lemma_no_ws(b, p + w.len());
}

proof fn lemma_spaced_first(ps: Seq<ParamRecord>, base: nat, before: Seq<u8>, after: Seq<u8>)
    requires
        ps.len() >= 1,
    ensures
        spaced_entries_text(ps, base, before, after).len() > 0,
        spaced_entries_text(ps, base, before, after)[0] == LBRACE,
{
    let e = entry_text(ps[0], base);
    assert(e[0] == LBRACE);
    if ps.len() > 1 {
        let t = spaced_entries_text(ps, base, before, after);
        assert(t == e + before + seq![COMMA] + after + spaced_entries_text(
            ps.drop_first(),
            base + ps[0].bits@.len(),
            before,
            after,
        ));
        assert(t[0] == e[0]);
    }
}

#[verifier::spinoff_prover]
#[verifier::rlimit(60)]
proof fn lemma_entry_list_at(
    b: Seq<u8>,
    p: int,
    ps: Seq<ParamRecord>,
    base: nat,
    before: Seq<u8>,
    after: Seq<u8>,
    gap: Seq<u8>,
)
    requires
        ps.len() >= 1,
        token_at(b, p, spaced_entries_text(ps, base, before, after) + gap + seq![RBRACKET]),
        all_ws(before),
        all_ws(after),
        all_ws(gap),
        paths_quote_free(ps),
        4 * (base + total_len(ps)) <= usize::MAX,
    ensures
        spec_entry_list(b, p) == Some(manifest_entries(ps, base)),
        entry_list_end(b, p) == p + spaced_entries_text(ps, base, before, after).len() + gap.len()
            + 1,
    decreases ps.len(),
{
    let r0 = ps[0];
    let e = entry_text(r0, base);
    let rest = ps.drop_first();
    lemma_total_len_first(ps);
    assert(!r0.path@.contains('"'));
    let p1 = p + e.len() as int;
    if ps.len() == 1 {
        assert(spaced_entries_text(ps, base, before, after) + gap + seq![RBRACKET] =~= e + (gap
            + seq![RBRACKET]));
        lemma_token_split(b, p, e, gap + seq![RBRACKET]);
        lemma_parse_entry_at(b, p, r0, base);
        lemma_ws_skip_to(b, p1, gap, RBRACKET);
        assert(rest =~= Seq::<ParamRecord>::empty());
        assert(manifest_entries(rest, base + r0.bits@.len()) =~= Seq::<EntryView>::empty());
        assert(manifest_entries(ps, base) == seq![entry_of(r0, base)] + manifest_entries(
            rest,
            base + r0.bits@.len(),
        ));
        assert(manifest_entries(ps, base) =~= seq![entry_of(r0, base)]);
    } else {
        let base2 = base + r0.bits@.len();
        let tail = spaced_entries_text(rest, base2, before, after);
        let t2 = tail + gap + seq![RBRACKET];
        assert(spaced_entries_text(ps, base, before, after) + gap + seq![RBRACKET] =~= e + (before
            + seq![COMMA]) + (after + t2));
        lemma_token_split(b, p, e + (before + seq![COMMA]), after + t2);
        lemma_token_split(b, p, e, before + seq![COMMA]);
        lemma_parse_entry_at(b, p, r0, base);
        lemma_ws_skip_to(b, p1, before, COMMA);
        let p2 = p1 + before.len() as int;
        let s = p2 + 1 + after.len() as int;
        lemma_spaced_first(rest, base2, before, after);
        assert(t2[0] == LBRACE);
        assert(after + t2 =~= after + seq![LBRACE] + t2.drop_first());
        lemma_token_split(b, p2 + 1, after + seq![LBRACE], t2.drop_first());
        lemma_ws_skip_to(b, p2 + 1, after, LBRACE);
        lemma_token_split(b, p2 + 1, after, t2);
        assert(paths_quote_free(rest)) by {
            assert forall|i: int| 0 <= i < rest.len() implies !(#[trigger] rest[i].path@).contains(
                '"',
            ) by {
                assert(rest[i] == ps[i + 1]);
            }
        }
        lemma_entry_list_at(b, s, rest, base2, before, after, gap);
    }
}

proof fn lemma_ascii_valid(s: Seq<u8>)
    requires
        ascii_bytes(s),
    ensures
        valid_utf8(s),
{
    lemma_ascii_decode(s);
}

proof fn lemma_valid_join(a: Seq<u8>, c: Seq<u8>)
    requires
        valid_utf8(a),
        valid_utf8(c),
    ensures
        valid_utf8(a + c),
{
    valid_utf8_concat(a, c);
}

proof fn lemma_entry_text_valid(r: ParamRecord, off: nat)
    ensures
        valid_utf8(entry_text(r, off)),
{
    let pp = encode_utf8(r.path@);
    let dd = dims_text(r.shape@);
    let oo = decimal(4 * off);
    let ll = decimal(r.bits@.len());
    lemma_ascii_valid(path_open());
    encode_utf8_valid_utf8(r.path@);
    lemma_ascii_valid(shape_open());
    lemma_dims_text(r.shape@);
    lemma_ascii_valid(dd);
    lemma_ascii_valid(offset_open());
    lemma_decimal(4 * off);
    lemma_ascii_valid(oo);
    lemma_ascii_valid(len_open());
    lemma_decimal(r.bits@.len());
    lemma_ascii_valid(ll);
    lemma_ascii_valid(seq![RBRACE]);
    let a1 = path_open();
    lemma_valid_join(a1, pp);
    let a2 = a1 + pp;
    lemma_valid_join(a2, shape_open());
    let a3 = a2 + shape_open();
    lemma_valid_join(a3, dd);
    let a4 = a3 + dd;
    lemma_valid_join(a4, offset_open());
    let a5 = a4 + offset_open();
    lemma_valid_join(a5, oo);
    let a6 = a5 + oo;
    lemma_valid_join(a6, len_open());
    let a7 = a6 + len_open();
    lemma_valid_join(a7, ll);
    let a8 = a7 + ll;
    lemma_valid_join(a8, seq![RBRACE]);
}

proof fn lemma_entries_text_valid(ps: Seq<ParamRecord>, base: nat)
    ensures
        valid_utf8(entries_text(ps, base)),
    decreases ps.len(),
{
    if ps.len() == 0 {
        lemma_ascii_valid(Seq::<u8>::empty());
    } else {
        lemma_entry_text_valid(ps[0], base);
        if ps.len() >= 2 {
            let rest = entries_text(ps.drop_first(), base + ps[0].bits@.len());
            lemma_entries_text_valid(ps.drop_first(), base + ps[0].bits@.len());
            lemma_ascii_valid(seq![COMMA]);
            lemma_valid_join(entry_text(ps[0], base), seq![COMMA]);
            lemma_valid_join(entry_text(ps[0], base) + seq![COMMA], rest);
        }
    }
}

/// The manifest that `save_bytes` writes is well-formed UTF-8.
pub proof fn lemma_header_text_valid(ps: Seq<ParamRecord>)
    ensures
        valid_utf8(header_text(ps)),
{
    lemma_ascii_valid(header_open());
    lemma_entries_text_valid(ps, 0);
    lemma_ascii_valid(header_close());
    lemma_valid_join(header_open(), entries_text(ps, 0));
    lemma_valid_join(header_open() + entries_text(ps, 0), header_close());
}

/// Reading the fixed start `{"version":1,"params":[` of a manifest.
proof fn lemma_header_prelude(b: Seq<u8>)
    requires
        token_at(b, 0, header_open()),
    ensures
        spec_parse_header(b) == spec_header_rest(b, ws_end(b, 23)),
{
    let h = header_open();
    assert(h =~= seq![LBRACE] + super::grammar::version_token() + seq![COLON] + seq![0x31u8]
        + seq![COMMA] + super::grammar::params_token() + seq![COLON] + seq![LBRACKET]);
    let c1 = seq![LBRACE];
    let c2 = c1 + super::grammar::version_token();
    let c3 = c2 + seq![COLON];
    let c4 = c3 + seq![0x31u8];
    let c5 = c4 + seq![COMMA];
    let c6 = c5 + super::grammar::params_token();
    let c7 = c6 + seq![COLON];
    lemma_token_split(b, 0, c7, seq![LBRACKET]);
    lemma_token_split(b, 0, c6, seq![COLON]);
    lemma_token_split(b, 0, c5, super::grammar::params_token());
    lemma_token_split(b, 0, c4, seq![COMMA]);
    lemma_token_split(b, 0, c3, seq![0x31u8]);
    lemma_token_split(b, 0, c2, seq![COLON]);
    lemma_token_split(b, 0, c1, super::grammar::version_token());
    lemma_token_byte(b, 0, h, 0);
    lemma_token_byte(b, 0, h, 1);
    lemma_token_byte(b, 0, h, 10);
    lemma_token_byte(b, 0, h, 11);
    lemma_token_byte(b, 0, h, 12);
    lemma_token_byte(b, 0, h, 13);
    lemma_token_byte(b, 0, h, 21);
    lemma_token_byte(b, 0, h, 22);
    lemma_no_ws(b, 0);
    lemma_no_ws(b, 1);
    lemma_no_ws(b, 10);
    lemma_no_ws(b, 11);
    lemma_no_ws(b, 12);
    lemma_no_ws(b, 13);
    lemma_no_ws(b, 21);
    lemma_no_ws(b, 22);
    assert(decimal(1) =~= seq![0x31u8]);
    lemma_read_int_at(b, 11, 1);
}

/// Whitespace, the closing `}` and whitespace up to the end.
proof fn lemma_header_tail(b: Seq<u8>, q: int, close_gap: Seq<u8>, end_gap: Seq<u8>)
    requires
        token_at(b, q, close_gap + (seq![RBRACE] + end_gap)),
        q + close_gap.len() + 1 + end_gap.len() == b.len(),
        all_ws(close_gap),
        all_ws(end_gap),
    ensures
        header_tail_ok(b, q),
{
    let c = q + close_gap.len() as int;
    assert(close_gap + (seq![RBRACE] + end_gap) =~= close_gap + seq![RBRACE] + end_gap);
    lemma_token_split(b, q, close_gap + seq![RBRACE], end_gap);
    lemma_ws_skip_to(b, q, close_gap, RBRACE);
    lemma_token_split(b, q, close_gap, seq![RBRACE] + end_gap);
    lemma_token_split(b, c, seq![RBRACE], end_gap);
    lemma_ws_skip(b, c + 1, end_gap);
    assert(ws_end(b, b.len() as int) == b.len());
}

#[verifier::spinoff_prover]
#[verifier::rlimit(60)]
proof fn lemma_header_list(
    ps: Seq<ParamRecord>,
    open_gap: Seq<u8>,
    before: Seq<u8>,
    after: Seq<u8>,
    list_gap: Seq<u8>,
    close_gap: Seq<u8>,
    end_gap: Seq<u8>,
)
    requires
        all_ws(open_gap),
        all_ws(before),
        all_ws(after),
        all_ws(list_gap),
        all_ws(close_gap),
        all_ws(end_gap),
        paths_quote_free(ps),
        4 * total_len(ps) <= usize::MAX,
    ensures
        spec_parse_header(spaced_header_text(ps, open_gap, before, after, list_gap, close_gap, end_gap))
            == Some(manifest_entries(ps, 0)),
{
    let b = spaced_header_text(ps, open_gap, before, after, list_gap, close_gap, end_gap);
    let h = header_open();
    let et = spaced_entries_text(ps, 0, before, after);
    let tail = seq![RBRACE] + end_gap;
    let closing = seq![RBRACKET] + (close_gap + tail);
    assert(b.subrange(0, b.len() as int) =~= b);
    assert(b =~= h + (open_gap + (et + (list_gap + closing))));
    lemma_token_split(b, 0, h, open_gap + (et + (list_gap + closing)));
    lemma_token_split(b, 23, open_gap, et + (list_gap + closing));
    let s = (23 + open_gap.len()) as int;
    lemma_token_split(b, s, et, list_gap + closing);
    let l = s + et.len() as int;
    lemma_token_split(b, l, list_gap, closing);
    let q = l + list_gap.len() as int + 1;
    lemma_token_split(b, q - 1, seq![RBRACKET], close_gap + tail);
    lemma_token_split(b, q, close_gap, tail);
    lemma_header_tail(b, q, close_gap, end_gap);
    lemma_header_prelude(b);
    if ps.len() == 0 {
        assert(et =~= Seq::<u8>::empty());
        assert(manifest_entries(ps, 0) =~= Seq::<EntryView>::empty());
        assert(open_gap + (et + (list_gap + closing)) =~= (open_gap + list_gap) + seq![RBRACKET]
            + (close_gap + tail));
        lemma_token_split(b, 23, (open_gap + list_gap) + seq![RBRACKET], close_gap + tail);
        assert(all_ws(open_gap + list_gap)) by {
            assert forall|k: int| 0 <= k < (open_gap + list_gap).len() implies is_ws(
                #[trigger] (open_gap + list_gap)[k],
            ) by {
                if k < open_gap.len() {
                    assert((open_gap + list_gap)[k] == open_gap[k]);
                } else {
                    assert((open_gap + list_gap)[k] == list_gap[k - open_gap.len()]);
                }
            }
        }
        lemma_ws_skip_to(b, 23, open_gap + list_gap, RBRACKET);
    } else {
        lemma_spaced_first(ps, 0, before, after);
        assert(et =~= seq![LBRACE] + et.drop_first());
        lemma_token_split(b, s, seq![LBRACE], et.drop_first());
        assert(open_gap + (et + (list_gap + closing)) =~= open_gap + seq![LBRACE] + (et.drop_first()
            + (list_gap + closing)));
        lemma_token_split(b, 23, open_gap + seq![LBRACE], et.drop_first() + (list_gap + closing));
        lemma_ws_skip_to(b, 23, open_gap, LBRACE);
        assert(et + (list_gap + closing) =~= et + list_gap + seq![RBRACKET] + (close_gap + tail));
        lemma_token_split(b, s, et + list_gap + seq![RBRACKET], close_gap + tail);
        lemma_entry_list_at(b, s, ps, 0, before, after, list_gap);
    }
}

/// The manifest that `save_bytes` writes parses back to the entries it
/// records, and so does that manifest with whitespace added after the
/// list's `[`, around each comma between two entries, before the `]`, and
/// around the closing `}`: such whitespace changes nothing.
pub proof fn law_spaced_manifest_parses(
    ps: Seq<ParamRecord>,
    open_gap: Seq<u8>,
    before: Seq<u8>,
    after: Seq<u8>,
    list_gap: Seq<u8>,
    close_gap: Seq<u8>,
    end_gap: Seq<u8>,
)
    requires
        all_ws(open_gap),
        all_ws(before),
        all_ws(after),
        all_ws(list_gap),
        all_ws(close_gap),
        all_ws(end_gap),
        paths_quote_free(ps),
        4 * total_len(ps) <= usize::MAX,
    ensures
        spec_parse_header(spaced_header_text(ps, open_gap, before, after, list_gap, close_gap, end_gap))
            == Some(manifest_entries(ps, 0)),
        spec_parse_header(header_text(ps)) == Some(manifest_entries(ps, 0)),
{
    lemma_header_list(ps, open_gap, before, after, list_gap, close_gap, end_gap);
    let none = Seq::<u8>::empty();
    lemma_header_list(ps, none, none, none, none, none, none);
    lemma_plain_is_spaced(ps);
}

/// The writer's manifest is the spaced layout with no whitespace added.
proof fn lemma_plain_is_spaced(ps: Seq<ParamRecord>)
    ensures
        spaced_header_text(
            ps,
            Seq::empty(),
            Seq::empty(),
            Seq::empty(),
            Seq::empty(),
            Seq::empty(),
            Seq::empty(),
        ) == header_text(ps),
{
    let none = Seq::<u8>::empty();
    lemma_spaced_plain(ps, 0);
    let h = header_open();
    let et = entries_text(ps, 0);
    assert(h + none =~= h);
    assert(et + none =~= et);
    assert(seq![RBRACKET] + none =~= seq![RBRACKET]);
    assert(seq![RBRACE] + none =~= seq![RBRACE]);
    assert(header_close() =~= seq![RBRACKET] + seq![RBRACE]);
    assert(h + et + seq![RBRACKET] + seq![RBRACE] =~= h + et + (seq![RBRACKET] + seq![RBRACE]));
    assert(spaced_header_text(ps, none, none, none, none, none, none) =~= header_text(ps));
}

/// With no whitespace added, the spaced layout is the writer's own.
proof fn lemma_spaced_plain(ps: Seq<ParamRecord>, base: nat)
    ensures
        spaced_entries_text(ps, base, Seq::empty(), Seq::empty()) == entries_text(ps, base),
    decreases ps.len(),
{
    if ps.len() > 1 {
        lemma_spaced_plain(ps.drop_first(), base + ps[0].bits@.len());
        assert(spaced_entries_text(ps, base, Seq::empty(), Seq::empty()) =~= entries_text(ps, base));
    }
}

/// The manifest that `save_bytes` writes parses back to the entries it records.
pub proof fn lemma_parse_header_text(ps: Seq<ParamRecord>)
    requires
        paths_quote_free(ps),
        4 * total_len(ps) <= usize::MAX,
    ensures
        spec_parse_header(header_text(ps)) == Some(manifest_entries(ps, 0)),
{
    let none = Seq::<u8>::empty();
    law_spaced_manifest_parses(ps, none, none, none, none, none, none);
}


proof fn lemma_words_bytes(w: Seq<u32>)
    ensures
        words_bytes(w).len() == 4 * w.len(),
        forall|k: int|
            0 <= k < w.len() ==> #[trigger] words_bytes(w).subrange(4 * k, 4 * k + 4)
                == spec_u32_to_le_bytes(w[k]),
    decreases w.len(),
{
    lemma_auto_spec_u32_to_from_le_bytes();
    if w.len() > 0 {
        let rest = w.drop_first();
        lemma_words_bytes(rest);
        let head = spec_u32_to_le_bytes(w[0]);
        assert(words_bytes(w) == head + words_bytes(rest));
        assert forall|k: int| 0 <= k < w.len() implies #[trigger] words_bytes(w).subrange(
            4 * k,
            4 * k + 4,
        ) == spec_u32_to_le_bytes(w[k]) by {
            if k == 0 {
                assert(words_bytes(w).subrange(0, 4) =~= head);
            } else {
                assert(words_bytes(w).subrange(4 * k, 4 * k + 4) =~= words_bytes(rest).subrange(
                    4 * (k - 1),
                    4 * (k - 1) + 4,
                ));
                assert(rest[k - 1] == w[k]);
            }
        }
    }
}

/// Decoding the little-endian bytes of words gives the words back.
pub proof fn lemma_bytes_words(w: Seq<u32>)
    ensures
        bytes_words(words_bytes(w)) == w,
{
    lemma_words_bytes(w);
    lemma_auto_spec_u32_to_from_le_bytes();
    let b = words_bytes(w);
    assert forall|k: int| 0 <= k < w.len() implies #[trigger] bytes_words(b)[k] == w[k] by {
        assert(b.subrange(4 * k, 4 * k + 4) == spec_u32_to_le_bytes(w[k]));
    }
    assert(bytes_words(b) =~= w);
}

/// Number of values held by the first `i` parameters.
pub open spec fn prefix_len(ps: Seq<ParamRecord>, i: int) -> nat {
    total_len(ps.subrange(0, i))
}

proof fn lemma_prefix_len_step(ps: Seq<ParamRecord>, i: int)
    requires
        1 <= i <= ps.len(),
    ensures
        prefix_len(ps, i) == ps[0].bits@.len() + prefix_len(ps.drop_first(), i - 1),
{
    assert(ps.subrange(0, i).drop_first() =~= ps.drop_first().subrange(0, i - 1));
}

/// Where parameter `i`'s values lie in the data section, and what the
/// manifest records for it.
proof fn lemma_param_layout(ps: Seq<ParamRecord>, base: nat, i: int)
    requires
        0 <= i < ps.len(),
    ensures
        data_bytes(ps).len() == 4 * total_len(ps),
        manifest_entries(ps, base).len() == ps.len(),
        manifest_entries(ps, base)[i] == entry_of(ps[i], base + prefix_len(ps, i)),
        prefix_len(ps, i) + ps[i].bits@.len() <= total_len(ps),
        data_bytes(ps).subrange(
            4 * prefix_len(ps, i) as int,
            4 * prefix_len(ps, i) + 4 * ps[i].bits@.len() as int,
        ) == words_bytes(ps[i].bits@),
    decreases ps.len(),
{
    let rest = ps.drop_first();
    let w0 = words_bytes(ps[0].bits@);
    lemma_words_bytes(ps[0].bits@);
    assert(data_bytes(ps) == w0 + data_bytes(rest));
    if i == 0 {
        assert(ps.subrange(0, 0) =~= Seq::<ParamRecord>::empty());
        assert(prefix_len(ps, 0) == 0);
        if rest.len() > 0 {
            lemma_param_layout(rest, base + ps[0].bits@.len(), 0);
        } else {
            assert(data_bytes(rest) == Seq::<u8>::empty());
            assert(manifest_entries(rest, base + ps[0].bits@.len()) == Seq::<EntryView>::empty());
        }
        assert(data_bytes(ps).subrange(0, 4 * ps[0].bits@.len() as int) =~= w0);
    } else {
        lemma_param_layout(rest, base + ps[0].bits@.len(), i - 1);
        lemma_prefix_len_step(ps, i);
        assert(rest[i - 1] == ps[i]);
        let lo: int = 4 * prefix_len(ps, i) as int;
        let hi: int = lo + 4 * ps[i].bits@.len();
        assert(data_bytes(ps).subrange(lo, hi) =~= data_bytes(rest).subrange(
            lo - w0.len(),
            hi - w0.len(),
        ));
    }
}

/// Parameter paths are pairwise distinct.
pub open spec fn distinct_paths(ps: Seq<ParamRecord>) -> bool {
    forall|i: int, j: int| 0 <= i < j < ps.len() ==> ps[i].path@ != ps[j].path@
}

/// Same length and, position by position, the same path, shape and
/// number of values.
pub open spec fn same_layout(a: Seq<ParamRecord>, b: Seq<ParamRecord>) -> bool {
    &&& a.len() == b.len()
    &&& forall|i: int|
        0 <= i < a.len() ==> (#[trigger] a[i]).path@ == b[i].path@ && a[i].shape@ == b[i].shape@
            && a[i].bits@.len() == b[i].bits@.len()
}

proof fn lemma_loaded_all(ps: Seq<ParamRecord>, es: Seq<EntryView>, data: Seq<u8>, i: int)
    requires
        0 <= i <= ps.len(),
        forall|j: int| i <= j < ps.len() ==> load_step(#[trigger] ps[j], es, data) is Write,
    ensures
        loaded_count(ps, es, data, i) == ps.len(),
    decreases ps.len() - i,
{
    if i < ps.len() {
        lemma_loaded_all(ps, es, data, i + 1);
    }
}

/// What `load_bytes` reads from the bytes that `save_bytes` wrote: the
/// manifest's entries, then the data section.
proof fn lemma_read_saved(saved: Seq<ParamRecord>)
    requires
        paths_quote_free(saved),
        header_text(saved).len() <= u32::MAX,
        checkpoint_bytes(saved).len() <= usize::MAX,
    ensures
        read_header(checkpoint_bytes(saved)) == HeaderView::Entries(manifest_entries(saved, 0)),
        data_section(checkpoint_bytes(saved)) == data_bytes(saved),
        4 * total_len(saved) <= usize::MAX,
{
    let b = checkpoint_bytes(saved);
    let h = header_text(saved);
    let d = data_bytes(saved);
    let hl = h.len();
    lemma_auto_spec_u32_to_from_le_bytes();
    let le = spec_u32_to_le_bytes(hl as u32);
    assert(b.subrange(0, 4) =~= le);
    assert(stored_header_len(b) == hl);
    assert(b.subrange(4, 4 + hl as int) =~= h);
    assert(data_section(b) =~= d);
    lemma_header_text_valid(saved);
    if saved.len() > 0 {
        lemma_param_layout(saved, 0, 0);
    } else {
        assert(d == Seq::<u8>::empty());
        assert(total_len(saved) == 0);
    }
    lemma_parse_header_text(saved);
}

proof fn lemma_step_restores(saved: Seq<ParamRecord>, target: Seq<ParamRecord>, i: int)
    requires
        distinct_paths(saved),
        same_layout(saved, target),
        4 * total_len(saved) <= usize::MAX,
        0 <= i < target.len(),
    ensures
        load_step(target[i], manifest_entries(saved, 0), data_bytes(saved)) == LoadStep::Write(
            saved[i].bits@,
        ),
{
    let es = manifest_entries(saved, 0);
    lemma_param_layout(saved, 0, i);
    assert(saved[i].path@ == target[i].path@);
    assert forall|m: int| 0 <= m < i implies (#[trigger] es[m]).path != target[i].path@ by {
        lemma_param_layout(saved, 0, m);
    }
    lemma_first_match_at(es, target[i].path@, 0, i);
    lemma_bytes_words(saved[i].bits@);
    assert(overwrite_prefix(target[i].bits@, saved[i].bits@) =~= saved[i].bits@);
}

/// Saving and loading round-trips: load the bytes that `save_bytes` wrote
/// for `saved` into parameters laid out alike (same paths, shapes and value
/// counts, in the same order) and every one of them gets exactly its saved
/// values back, with `Ok`. This holds when paths are distinct and free of
/// `"`, the manifest length fits in a `u32`, and the bytes fit in memory.
pub proof fn law_load_restores_saved(saved: Seq<ParamRecord>, target: Seq<ParamRecord>)
    requires
        distinct_paths(saved),
        paths_quote_free(saved),
        same_layout(saved, target),
        header_text(saved).len() <= u32::MAX,
        checkpoint_bytes(saved).len() <= usize::MAX,
    ensures
        read_header(checkpoint_bytes(saved)) == HeaderView::Entries(manifest_entries(saved, 0)),
        load_is_defined(target, checkpoint_bytes(saved)),
        forall|after: Seq<ParamRecord>, r: Result<(), super::CheckpointError>|
            load_result(
                target,
                after,
                manifest_entries(saved, 0),
                data_section(checkpoint_bytes(saved)),
                r,
            ) ==> {
                &&& r is Ok
                &&& after.len() == saved.len()
                &&& forall|i: int|
                    0 <= i < after.len() ==> (#[trigger] after[i]).bits@ == saved[i].bits@
                        && after[i].path == target[i].path && after[i].shape == target[i].shape
            },
{
    let b = checkpoint_bytes(saved);
    let es = manifest_entries(saved, 0);
    let d = data_bytes(saved);
    lemma_read_saved(saved);
    assert forall|i: int| 0 <= i < target.len() implies load_step(#[trigger] target[i], es, d)
        is Write by {
        lemma_step_restores(saved, target, i);
    }
    lemma_loaded_all(target, es, d, 0);
    assert forall|after: Seq<ParamRecord>, r: Result<(), super::CheckpointError>|
        load_result(target, after, es, d, r) implies {
        &&& r is Ok
        &&& after.len() == saved.len()
        &&& forall|i: int|
            0 <= i < after.len() ==> (#[trigger] after[i]).bits@ == saved[i].bits@
                && after[i].path == target[i].path && after[i].shape == target[i].shape
    } by {
        assert forall|i: int| 0 <= i < after.len() implies (#[trigger] after[i]).bits@
            == saved[i].bits@ && after[i].path == target[i].path && after[i].shape
            == target[i].shape by {
            lemma_step_restores(saved, target, i);
        }
    }
}

} // verus!
