//! Native checkpoint format. Layout:
//!
//! ```text
//!  u32_le              header_len
//!  [u8; header_len]    JSON manifest   (paths, shapes, byte offsets, lengths)
//!  [u32_le; total]     parameter data  (the bit patterns of the f32 values)
//! ```
pub mod format;
pub mod grammar;
pub mod loader;
pub mod manifest;
pub mod roundtrip;
pub mod strings;

use vstd::bytes::{u32_from_le_bytes, u32_to_le_bytes};
use vstd::prelude::*;
use vstd::utf8::encode_utf8;

use grammar::{message_fits, COMMA, RBRACE, RBRACKET};
use loader::{
    data_section, lemma_loaded_count_bounds, load_is_defined, load_param, load_result, load_step,
    loaded_count, read_header, step_overruns, stored_header_len, HeaderView, LoadStep,
};
use manifest::{entry_views, Entry};
use strings::{str_from_utf8, utf8_error_message};

use format::{
    checkpoint_bytes, data_bytes, decimal, dims_text, entries_text, entry_text, header_close,
    header_open, header_text, len_open, lemma_data_bytes_push, lemma_dims_text_push,
    lemma_entries_text_push, lemma_total_len_push, lemma_words_bytes_push, offset_open, path_open,
    shape_open, total_len, words_bytes,
};

verus! {

/// Why a checkpoint could not be loaded.
#[derive(Debug)]
pub enum CheckpointError {
    /// The bytes end before the header or a parameter's data does.
    Truncated,
    /// The manifest is not well-formed UTF-8 JSON of the expected shape.
    BadHeader(String),
    /// A parameter of the model has no entry in the manifest.
    UnknownParam(String),
    /// The manifest's shape for a parameter differs from the model's.
    ShapeMismatch { path: String, want: Vec<usize>, got: Vec<usize> },
}


/// One learnable parameter as the checkpoint sees it: its path, its shape,
/// and its values as `f32` bit patterns.
#[derive(Debug)]
pub struct ParamRecord {
    pub path: String,
    pub shape: Vec<usize>,
    pub bits: Vec<u32>,
}

/// Append `s` to `out`.
fn push_all(out: &mut Vec<u8>, s: &[u8])
    ensures
        final(out)@ == old(out)@ + s@,
{
    let mut i: usize = 0;
    while i < s.len()
        invariant
            i <= s@.len(),
            out@ == old(out)@ + s@.subrange(0, i as int),
        decreases s.len() - i,
    {
        assert(s@.subrange(0, i + 1) =~= s@.subrange(0, i as int).push(s@[i as int]));
        out.push(s[i]);
        i += 1;
    }
    assert(s@.subrange(0, s@.len() as int) =~= s@);
}

/// Append the decimal digits of `n`.
fn push_decimal(out: &mut Vec<u8>, n: usize)
    ensures
        final(out)@ == old(out)@ + decimal(n as nat),
    decreases n,
{
    if n >= 10 {
        push_decimal(out, n / 10);
    }
    let d = (n % 10) as u8;
    out.push(0x30 + d);
    assert(out@ =~= old(out)@ + decimal(n as nat));
}

/// Append `d0,d1,...`.
fn push_dims(out: &mut Vec<u8>, ds: &Vec<usize>)
    ensures
        final(out)@ == old(out)@ + dims_text(ds@),
{
    let mut j: usize = 0;
    while j < ds.len()
        invariant
            j <= ds@.len(),
            out@ == old(out)@ + dims_text(ds@.subrange(0, j as int)),
        decreases ds.len() - j,
    {
        let ghost before = out@;
        proof {
            lemma_dims_text_push(ds@.subrange(0, j as int), ds@[j as int]);
            assert(ds@.subrange(0, j + 1) =~= ds@.subrange(0, j as int).push(ds@[j as int]));
        }
        if j > 0 {
            out.push(COMMA);
        }
        push_decimal(out, ds[j]);
        assert(out@ =~= old(out)@ + dims_text(ds@.subrange(0, j + 1)));
        j += 1;
    }
    assert(ds@.subrange(0, ds@.len() as int) =~= ds@);
}

/// Append the little-endian bytes of every word.
fn push_words(out: &mut Vec<u8>, ws: &Vec<u32>)
    ensures
        final(out)@ == old(out)@ + words_bytes(ws@),
{
    let mut k: usize = 0;
    while k < ws.len()
        invariant
            k <= ws@.len(),
            out@ == old(out)@ + words_bytes(ws@.subrange(0, k as int)),
        decreases ws.len() - k,
    {
        proof {
            lemma_words_bytes_push(ws@.subrange(0, k as int), ws@[k as int]);
            assert(ws@.subrange(0, k + 1) =~= ws@.subrange(0, k as int).push(ws@[k as int]));
        }
        let mut le = u32_to_le_bytes(ws[k]);
        out.append(&mut le);
        assert(out@ =~= old(out)@ + words_bytes(ws@.subrange(0, k + 1)));
        k += 1;
    }
    assert(ws@.subrange(0, ws@.len() as int) =~= ws@);
}

/// Serialise the parameters, in order, into the native format: the
/// manifest records each one's path, shape, byte offset into the data
/// section and number of values;
/// the data section holds their values back to back.
#[verifier::spinoff_prover]
#[verifier::rlimit(60)]
pub fn save_bytes(params: &Vec<ParamRecord>) -> (out: Vec<u8>)
    requires
        4 * total_len(params@) <= usize::MAX,
    ensures
        out@ == checkpoint_bytes(params@),
{
    let ho = [
        0x7bu8, 0x22, 0x76, 0x65, 0x72, 0x73, 0x69, 0x6f, 0x6e, 0x22, 0x3a, 0x31, 0x2c, 0x22, 0x70,
        0x61, 0x72, 0x61, 0x6d, 0x73, 0x22, 0x3a, 0x5b,
    ];
    assert(ho@ =~= header_open());
    let po = [0x7bu8, 0x22, 0x70, 0x61, 0x74, 0x68, 0x22, 0x3a, 0x22];
    assert(po@ =~= path_open());
    let so = [0x22u8, 0x2c, 0x22, 0x73, 0x68, 0x61, 0x70, 0x65, 0x22, 0x3a, 0x5b];
    assert(so@ =~= shape_open());
    let oo = [0x5du8, 0x2c, 0x22, 0x6f, 0x66, 0x66, 0x73, 0x65, 0x74, 0x22, 0x3a];
    assert(oo@ =~= offset_open());
    let lo = [0x2cu8, 0x22, 0x6c, 0x65, 0x6e, 0x22, 0x3a];
    assert(lo@ =~= len_open());
    let hc = [RBRACKET, RBRACE];
    assert(hc@ =~= header_close());

    let mut header: Vec<u8> = Vec::new();
    push_all(&mut header, &ho);
    let mut data: Vec<u8> = Vec::new();
    let mut element_offset: usize = 0;
    let mut i: usize = 0;
    while i < params.len()
        invariant
            i <= params@.len(),
            4 * total_len(params@) <= usize::MAX,
            po@ == path_open(),
            so@ == shape_open(),
            oo@ == offset_open(),
            lo@ == len_open(),
            header@ == header_open() + entries_text(params@.subrange(0, i as int), 0),
            data@ == data_bytes(params@.subrange(0, i as int)),
            element_offset as nat == total_len(params@.subrange(0, i as int)),
        decreases params.len() - i,
    {
        let r = &params[i];
        let ghost done = params@.subrange(0, i as int);
        proof {
            assert(params@.subrange(0, i + 1) =~= done.push(*r));
            lemma_entries_text_push(done, *r, 0);
            lemma_total_len_push(done, *r);
            lemma_data_bytes_push(done, *r);
            lemma_total_len_prefix(params@, i + 1);
        }
        let ghost before = header@;
        if i > 0 {
            header.push(COMMA);
        }
        let ghost with_sep = header@;
        push_all(&mut header, &po);
        assert(header@ == with_sep + path_open());
        let path_str = r.path.as_str();
        let path_bytes = path_str.as_bytes();
        assert(path_bytes@ == encode_utf8(r.path@));
        push_all(&mut header, path_bytes);
        assert(header@ == with_sep + path_open() + encode_utf8(r.path@));
        push_all(&mut header, &so);
        push_dims(&mut header, &r.shape);
        assert(header@ == with_sep + path_open() + encode_utf8(r.path@) + shape_open() + dims_text(r.shape@));
        push_all(&mut header, &oo);
        let byte_offset = 4 * element_offset;
        push_decimal(&mut header, byte_offset);
        push_all(&mut header, &lo);
        push_decimal(&mut header, r.bits.len());
        header.push(RBRACE);
        assert(header@ == with_sep + path_open() + encode_utf8(r.path@) + shape_open() + dims_text(r.shape@)
            + offset_open() + decimal(4 * (element_offset as nat)) + len_open() + decimal(r.bits@.len()) + seq![RBRACE]);
        push_words(&mut data, &r.bits);
        assert(header@ =~= with_sep + entry_text(*r, element_offset as nat));
        if i == 0 {
            assert(done =~= Seq::<ParamRecord>::empty());
            assert(entries_text(done, 0) =~= Seq::<u8>::empty());
            assert(with_sep =~= header_open() + entries_text(done, 0));
        } else {
            assert(with_sep =~= header_open() + entries_text(done, 0) + seq![COMMA]);
        }
        assert(header@ =~= header_open() + entries_text(params@.subrange(0, i + 1), 0));
        element_offset = element_offset + r.bits.len();
        i += 1;
    }
    assert(params@.subrange(0, params@.len() as int) =~= params@);
    push_all(&mut header, &hc);
    assert(header@ =~= header_text(params@));
    let mut out: Vec<u8> = Vec::new();
    let mut hl = u32_to_le_bytes(header.len() as u32);
    out.append(&mut hl);
    out.append(&mut header);
    out.append(&mut data);
    assert(out@ =~= checkpoint_bytes(params@));
    out
}

/// The manifest entries and the data section of a checkpoint, or the error
/// that reading its length prefix and manifest gives.
fn read_manifest(bytes: &[u8]) -> (r: Result<(Vec<Entry>, &[u8]), CheckpointError>)
    requires
        bytes@.len() + 16 <= usize::MAX,
    ensures
        match read_header(bytes@) {
            HeaderView::Truncated => r matches Err(CheckpointError::Truncated),
            HeaderView::BadHeader(f) => r matches Err(CheckpointError::BadHeader(m)) && message_fits(
                m@,
                f,
            ),
            HeaderView::Entries(es) => r matches Ok((v, d)) && entry_views(v@) == es && d@
                == data_section(bytes@),
        },
{
    if bytes.len() < 4 {
        return Err(CheckpointError::Truncated);
    }
    let header_len = u32_from_le_bytes(&bytes[0..4]) as usize;
    assert(bytes@.subrange(0, 4) =~= bytes@.subrange(0, 4));
    if bytes.len() - 4 < header_len {
        return Err(CheckpointError::Truncated);
    }
    let header_bytes = &bytes[4..4 + header_len];
    let header = match str_from_utf8(header_bytes) {
        Err(e) => {
            return Err(CheckpointError::BadHeader(utf8_error_message(&e)));
        },
        Ok(s) => s,
    };
    let data = &bytes[4 + header_len..bytes.len()];
    let entries = match manifest::parse_header(header) {
        Err(e) => {
            return Err(e);
        },
        Ok(v) => v,
    };
    Ok((entries, data))
}

/// Whether loading `bytes` into `params` would reach a parameter whose
/// entry's data range overflows the address arithmetic, or holds more
/// values than the parameter: the inputs that `load_bytes` does not take.
pub fn load_overruns(params: &Vec<ParamRecord>, bytes: &[u8]) -> (r: bool)
    requires
        bytes@.len() + 16 <= usize::MAX,
    ensures
        r == !load_is_defined(params@, bytes@),
{
    let (entries, data) = match read_manifest(bytes) {
        Err(_) => {
            return false;
        },
        Ok(p) => p,
    };
    let ghost es = entry_views(entries@);
    proof {
        lemma_loaded_count_bounds(params@, es, data@, 0);
    }
    let mut i: usize = 0;
    while i < params.len()
        invariant
            es == entry_views(entries@),
            read_header(bytes@) == HeaderView::Entries(es),
            data@ == data_section(bytes@),
            i <= params@.len(),
            loaded_count(params@, es, data@, 0) == loaded_count(params@, es, data@, i as int),
        decreases params.len() - i,
    {
        match step_overruns(&params[i], &entries, data) {
            Some(false) => {},
            Some(true) => {
                return true;
            },
            None => {
                return false;
            },
        }
        i += 1;
    }
    false
}

/// Load values from `bytes` into `params`, in order: each parameter takes
/// its leading values from the entry with its path. Loading stops at the
/// first parameter that has no entry, a different shape, or data past the
/// end; the ones before it keep what they loaded.
pub fn load_bytes(params: &mut Vec<ParamRecord>, bytes: &[u8]) -> (r: Result<(), CheckpointError>)
    requires
        bytes@.len() + 16 <= usize::MAX,
        load_is_defined(old(params)@, bytes@),
    ensures
        match read_header(bytes@) {
            HeaderView::Truncated => r matches Err(CheckpointError::Truncated) && final(params)@
                == old(params)@,
            HeaderView::BadHeader(f) => r matches Err(CheckpointError::BadHeader(m)) && message_fits(
                m@,
                f,
            ) && final(params)@ == old(params)@,
            HeaderView::Entries(es) => load_result(
                old(params)@,
                final(params)@,
                es,
                data_section(bytes@),
                r,
            ),
        },
{
    let (entries, data) = match read_manifest(bytes) {
        Err(e) => {
            return Err(e);
        },
        Ok(p) => p,
    };
    let ghost before = params@;
    let ghost es = entry_views(entries@);
    let ghost k0 = loaded_count(before, es, data@, 0);
    proof {
        lemma_loaded_count_bounds(before, es, data@, 0);
    }
    let mut i: usize = 0;
    while i < params.len()
        invariant
            es == entry_views(entries@),
            before == old(params)@,
            load_is_defined(before, bytes@),
            read_header(bytes@) == HeaderView::Entries(es),
            data@ == data_section(bytes@),
            k0 == loaded_count(before, es, data@, 0),
            0 <= k0 <= before.len(),
            forall|j: int| 0 <= j < k0 ==> load_step(before[j], es, data@) is Write,
            k0 < before.len() ==> !(load_step(before[k0], es, data@) is Write),
            i <= k0,
            params@.len() == before.len(),
            forall|j: int|
                0 <= j < i ==> params@[j].path == before[j].path && params@[j].shape
                    == before[j].shape && load_step(before[j], es, data@) == LoadStep::Write(
                    params@[j].bits@,
                ),
            forall|j: int| i <= j < before.len() ==> params@[j] == before[j],
        decreases params.len() - i,
    {
        assert(params@[i as int] == before[i as int]);
        assert(!(load_step(before[i as int], es, data@) is Overrun));
        let res = load_param(&mut params[i], &entries, data);
        match res {
            Err(e) => {
                assert(!(load_step(before[i as int], es, data@) is Write));
                assert(i == k0);
                assert(params@[i as int] == before[i as int]);
                return Err(e);
            },
            Ok(()) => {},
        }
        i += 1;
    }
    Ok(())
}

/// Any prefix of the parameters holds no more values than all of them.
proof fn lemma_total_len_prefix(ps: Seq<ParamRecord>, k: int)
    requires
        0 <= k <= ps.len(),
    ensures
        total_len(ps.subrange(0, k)) <= total_len(ps),
    decreases ps.len() - k,
{
    if k < ps.len() {
        lemma_total_len_prefix(ps, k + 1);
        assert(ps.subrange(0, k + 1) =~= ps.subrange(0, k).push(ps[k]));
        lemma_total_len_push(ps.subrange(0, k), ps[k]);
    } else {
        assert(ps.subrange(0, k) =~= ps);
    }
}

} // verus!
