//! The checkpoint layout as `save_bytes` writes it, stated over bytes.
use vstd::bytes::{spec_u32_from_le_bytes, spec_u32_to_le_bytes};
use vstd::prelude::*;
use vstd::utf8::encode_utf8;

use super::grammar::{COMMA, RBRACE, RBRACKET};
use super::ParamRecord;

verus! {

/// `{"version":1,"params":[`
pub open spec fn header_open() -> Seq<u8> {
    seq![
        0x7b, 0x22, 0x76, 0x65, 0x72, 0x73, 0x69, 0x6f, 0x6e, 0x22, 0x3a, 0x31, 0x2c, 0x22, 0x70,
        0x61, 0x72, 0x61, 0x6d, 0x73, 0x22, 0x3a, 0x5b,
    ]
}

/// `{"path":"`
pub open spec fn path_open() -> Seq<u8> {
    seq![0x7b, 0x22, 0x70, 0x61, 0x74, 0x68, 0x22, 0x3a, 0x22]
}

/// `","shape":[`
pub open spec fn shape_open() -> Seq<u8> {
    seq![0x22, 0x2c, 0x22, 0x73, 0x68, 0x61, 0x70, 0x65, 0x22, 0x3a, 0x5b]
}

/// `],"offset":`
pub open spec fn offset_open() -> Seq<u8> {
    seq![0x5d, 0x2c, 0x22, 0x6f, 0x66, 0x66, 0x73, 0x65, 0x74, 0x22, 0x3a]
}

/// `,"len":`
pub open spec fn len_open() -> Seq<u8> {
    seq![0x2c, 0x22, 0x6c, 0x65, 0x6e, 0x22, 0x3a]
}

/// `]}`
pub open spec fn header_close() -> Seq<u8> {
    seq![RBRACKET, RBRACE]
}

/// The decimal digits of `n`, most significant first, without leading zeros.
pub open spec fn decimal(n: nat) -> Seq<u8>
    decreases n,
{
    if n < 10 {
        seq![(0x30 + n) as u8]
    } else {
        decimal(n / 10) + seq![(0x30 + n % 10) as u8]
    }
}

/// `d0,d1,...` for the dimensions of a shape.
pub open spec fn dims_text(ds: Seq<usize>) -> Seq<u8>
    decreases ds.len(),
{
    if ds.len() == 0 {
        Seq::empty()
    } else if ds.len() == 1 {
        decimal(ds[0] as nat)
    } else {
        decimal(ds[0] as nat) + seq![COMMA] + dims_text(ds.drop_first())
    }
}

/// The manifest entry of one parameter whose values start at element
/// `offset` of the data section: it records the byte offset `4 * offset`
/// and the number of values.
pub open spec fn entry_text(r: ParamRecord, offset: nat) -> Seq<u8> {
    path_open() + encode_utf8(r.path@) + shape_open() + dims_text(r.shape@) + offset_open()
        + decimal(4 * offset) + len_open() + decimal(r.bits@.len()) + seq![RBRACE]
}

/// Number of values held by all the parameters.
pub open spec fn total_len(ps: Seq<ParamRecord>) -> nat
    decreases ps.len(),
{
    if ps.len() == 0 {
        0
    } else {
        ps[0].bits@.len() + total_len(ps.drop_first())
    }
}

/// The entries of all parameters, separated by commas; the first one's
/// values start at element `base`, each next one's where the previous end.
pub open spec fn entries_text(ps: Seq<ParamRecord>, base: nat) -> Seq<u8>
    decreases ps.len(),
{
    if ps.len() == 0 {
        Seq::empty()
    } else if ps.len() == 1 {
        entry_text(ps[0], base)
    } else {
        entry_text(ps[0], base) + seq![COMMA] + entries_text(
            ps.drop_first(),
            base + ps[0].bits@.len(),
        )
    }
}

/// The JSON manifest of a list of parameters.
pub open spec fn header_text(ps: Seq<ParamRecord>) -> Seq<u8> {
    header_open() + entries_text(ps, 0) + header_close()
}

/// Little-endian bytes of a sequence of 32-bit words.
pub open spec fn words_bytes(ws: Seq<u32>) -> Seq<u8>
    decreases ws.len(),
{
    if ws.len() == 0 {
        Seq::empty()
    } else {
        spec_u32_to_le_bytes(ws[0]) + words_bytes(ws.drop_first())
    }
}

/// The data section: every parameter's values, in order.
pub open spec fn data_bytes(ps: Seq<ParamRecord>) -> Seq<u8>
    decreases ps.len(),
{
    if ps.len() == 0 {
        Seq::empty()
    } else {
        words_bytes(ps[0].bits@) + data_bytes(ps.drop_first())
    }
}

/// The whole checkpoint: header length (cast to `u32`), header, data.
pub open spec fn checkpoint_bytes(ps: Seq<ParamRecord>) -> Seq<u8> {
    spec_u32_to_le_bytes(header_text(ps).len() as u32) + header_text(ps)
        + data_bytes(ps)
}

/// Decode a byte sequence (of a length divisible by four) into words.
pub open spec fn bytes_words(b: Seq<u8>) -> Seq<u32> {
    Seq::new(b.len() / 4, |i: int| spec_u32_from_le_bytes(b.subrange(4 * i, 4 * i + 4)))
}


pub proof fn lemma_dims_text_push(ds: Seq<usize>, x: usize)
    ensures
        dims_text(ds.push(x)) == if ds.len() == 0 {
            decimal(x as nat)
        } else {
            dims_text(ds) + seq![COMMA] + decimal(x as nat)
        },
    decreases ds.len(),
{
    if ds.len() == 0 {
    } else {
        assert(ds.push(x).drop_first() =~= ds.drop_first().push(x));
        lemma_dims_text_push(ds.drop_first(), x);
        if ds.len() == 1 {
            assert(ds.drop_first().push(x) =~= seq![x]);
        } else {
            assert(dims_text(ds.push(x)) =~= dims_text(ds) + seq![COMMA] + decimal(x as nat));
        }
    }
}

pub proof fn lemma_total_len_push(ps: Seq<ParamRecord>, r: ParamRecord)
    ensures
        total_len(ps.push(r)) == total_len(ps) + r.bits@.len(),
    decreases ps.len(),
{
    if ps.len() > 0 {
        assert(ps.push(r).drop_first() =~= ps.drop_first().push(r));
        lemma_total_len_push(ps.drop_first(), r);
    } else {
        assert(ps.push(r).drop_first() =~= Seq::<ParamRecord>::empty());
        assert(total_len(Seq::<ParamRecord>::empty()) == 0);
        assert(total_len(ps) == 0);
    }
}

pub proof fn lemma_entries_text_push(ps: Seq<ParamRecord>, r: ParamRecord, base: nat)
    ensures
        entries_text(ps.push(r), base) == if ps.len() == 0 {
            entry_text(r, base)
        } else {
            entries_text(ps, base) + seq![COMMA] + entry_text(r, base + total_len(ps))
        },
    decreases ps.len(),
{
    if ps.len() > 0 {
        let rest = ps.drop_first();
        assert(ps.push(r).drop_first() =~= rest.push(r));
        lemma_entries_text_push(rest, r, base + ps[0].bits@.len());
        if ps.len() == 1 {
            assert(rest.push(r) =~= seq![r]);
            assert(rest =~= Seq::<ParamRecord>::empty());
        } else {
            assert(entries_text(ps.push(r), base) =~= entries_text(ps, base) + seq![COMMA]
                + entry_text(r, base + total_len(ps)));
        }
    }
}

pub proof fn lemma_words_bytes_push(ws: Seq<u32>, w: u32)
    ensures
        words_bytes(ws.push(w)) == words_bytes(ws) + spec_u32_to_le_bytes(w),
    decreases ws.len(),
{
    if ws.len() == 0 {
        assert(ws.push(w).drop_first() =~= Seq::<u32>::empty());
        assert(words_bytes(Seq::<u32>::empty()) == Seq::<u8>::empty());
        assert(words_bytes(ws) == Seq::<u8>::empty());
        assert(words_bytes(ws.push(w)) =~= spec_u32_to_le_bytes(w));
    } else {
        assert(ws.push(w).drop_first() =~= ws.drop_first().push(w));
        lemma_words_bytes_push(ws.drop_first(), w);
        assert(words_bytes(ws.push(w)) =~= words_bytes(ws) + spec_u32_to_le_bytes(w));
    }
}

pub proof fn lemma_data_bytes_push(ps: Seq<ParamRecord>, r: ParamRecord)
    ensures
        data_bytes(ps.push(r)) == data_bytes(ps) + words_bytes(r.bits@),
    decreases ps.len(),
{
    if ps.len() == 0 {
        assert(ps.push(r).drop_first() =~= Seq::<ParamRecord>::empty());
        assert(data_bytes(Seq::<ParamRecord>::empty()) == Seq::<u8>::empty());
        assert(data_bytes(ps) == Seq::<u8>::empty());
        assert(data_bytes(ps.push(r)) =~= words_bytes(r.bits@));
    } else {
        assert(ps.push(r).drop_first() =~= ps.drop_first().push(r));
        lemma_data_bytes_push(ps.drop_first(), r);
        assert(data_bytes(ps.push(r)) =~= data_bytes(ps) + words_bytes(r.bits@));
    }
}

} // verus!
