//! What loading a checkpoint does to each parameter, stated over the
//! parsed manifest and the data section.
use vstd::bytes::{spec_u32_from_le_bytes, u32_from_le_bytes};
use vstd::prelude::*;
use vstd::utf8::valid_utf8;

use super::format::bytes_words;
use super::grammar::{parse_header_err, spec_parse_header, EntryView};
use super::manifest::{entry_views, Entry};
use super::{CheckpointError, ParamRecord};

verus! {

/// The outcome of reading the length prefix and the manifest. A bad
/// header carries its message as `message_fits` reads it: the text the
/// parser states, or `None` for the text of std's UTF-8 error.
pub enum HeaderView {
    Truncated,
    BadHeader(Option<Seq<char>>),
    Entries(Seq<EntryView>),
}

/// The manifest length stored in the first four bytes.
pub open spec fn stored_header_len(b: Seq<u8>) -> nat {
    spec_u32_from_le_bytes(b.subrange(0, 4)) as nat
}

/// Length prefix, then a UTF-8 manifest of that length that parses.
pub open spec fn read_header(b: Seq<u8>) -> HeaderView {
    if b.len() < 4 {
        HeaderView::Truncated
    } else if b.len() < 4 + stored_header_len(b) {
        HeaderView::Truncated
    } else {
        let h = b.subrange(4, 4 + stored_header_len(b) as int);
        if !valid_utf8(h) {
            HeaderView::BadHeader(None)
        } else {
            match spec_parse_header(h) {
                None => HeaderView::BadHeader(parse_header_err(h)),
                Some(es) => HeaderView::Entries(es),
            }
        }
    }
}

/// Everything after the manifest.
pub open spec fn data_section(b: Seq<u8>) -> Seq<u8> {
    b.subrange(4 + stored_header_len(b) as int, b.len() as int)
}

/// Index of the first entry at or after `i` whose path is `path`
/// (`es.len()` when there is none).
pub open spec fn first_match(es: Seq<EntryView>, path: Seq<char>, i: int) -> int
    decreases es.len() - i,
{
    if i < 0 || i >= es.len() || es[i].path == path {
        i
    } else {
        first_match(es, path, i + 1)
    }
}

/// Why loading stopped at a parameter.
pub enum LoadFailure {
    Truncated,
    UnknownParam(Seq<char>),
    ShapeMismatch(Seq<char>, Seq<usize>, Seq<usize>),
}

/// What loading does to one parameter: writes its leading values, stops
/// with an error, or would overrun (`Overrun`: a data range too large
/// to address, or an entry longer than the parameter).
pub enum LoadStep {
    Write(Seq<u32>),
    Fail(LoadFailure),
    Overrun,
}

/// `fresh` followed by what lies beyond it in `old`.
pub open spec fn overwrite_prefix(old: Seq<u32>, fresh: Seq<u32>) -> Seq<u32> {
    fresh + old.subrange(fresh.len() as int, old.len() as int)
}

pub open spec fn load_step(r: ParamRecord, es: Seq<EntryView>, data: Seq<u8>) -> LoadStep {
    let i = first_match(es, r.path@, 0);
    if i >= es.len() {
        LoadStep::Fail(LoadFailure::UnknownParam(r.path@))
    } else {
        let e = es[i];
        let start = e.offset as int;
        let end = start + e.len * 4;
        if e.shape != r.shape@ {
            LoadStep::Fail(LoadFailure::ShapeMismatch(r.path@, r.shape@, e.shape))
        } else if end > usize::MAX {
            LoadStep::Overrun
        } else if end > data.len() {
            LoadStep::Fail(LoadFailure::Truncated)
        } else if e.len > r.bits@.len() {
            LoadStep::Overrun
        } else {
            LoadStep::Write(overwrite_prefix(r.bits@, bytes_words(data.subrange(start, end))))
        }
    }
}

/// The first parameter, at or after `i`, that loading does not write.
pub open spec fn loaded_count(ps: Seq<ParamRecord>, es: Seq<EntryView>, data: Seq<u8>, i: int) -> int
    decreases ps.len() - i,
{
    if 0 <= i < ps.len() && load_step(ps[i], es, data) is Write {
        loaded_count(ps, es, data, i + 1)
    } else {
        i
    }
}

/// Loading never overruns: the parameter where it stops (if any) fails
/// cleanly instead.
pub open spec fn load_is_defined(ps: Seq<ParamRecord>, b: Seq<u8>) -> bool {
    match read_header(b) {
        HeaderView::Entries(es) => {
            let k = loaded_count(ps, es, data_section(b), 0);
            k < ps.len() ==> !(load_step(ps[k], es, data_section(b)) is Overrun)
        },
        _ => true,
    }
}

/// `r` is the error that `f` describes.
pub open spec fn failure_matches(r: Result<(), CheckpointError>, f: LoadFailure) -> bool {
    match f {
        LoadFailure::Truncated => r matches Err(CheckpointError::Truncated),
        LoadFailure::UnknownParam(p) => r matches Err(CheckpointError::UnknownParam(s)) && s@ == p,
        LoadFailure::ShapeMismatch(p, w, g) => r matches Err(
            CheckpointError::ShapeMismatch { path, want, got },
        ) && path@ == p && want@ == w && got@ == g,
    }
}

/// What loading into `before` leaves (`after`, `r`): every parameter up to
/// the first one that does not load gets its values written; that one and
/// all after it stay as they were; the result is `Ok` when all loaded, else
/// the error of the one that stopped it.
pub open spec fn load_result(
    before: Seq<ParamRecord>,
    after: Seq<ParamRecord>,
    es: Seq<EntryView>,
    data: Seq<u8>,
    r: Result<(), CheckpointError>,
) -> bool {
    let k = loaded_count(before, es, data, 0);
    &&& after.len() == before.len()
    &&& forall|j: int|
        0 <= j < k ==> after[j].path == before[j].path && after[j].shape == before[j].shape
            && load_step(before[j], es, data) == LoadStep::Write(after[j].bits@)
    &&& forall|j: int| k <= j < before.len() ==> after[j] == before[j]
    &&& (k == before.len() ==> r is Ok)
    &&& (k < before.len() ==> match load_step(before[k], es, data) {
        LoadStep::Fail(f) => failure_matches(r, f),
        _ => false,
    })
}

/// Searching from `j`, the first entry whose path is `path` is the one at `i`.
pub proof fn lemma_first_match_at(es: Seq<EntryView>, path: Seq<char>, j: int, i: int)
    requires
        0 <= j <= i < es.len(),
        forall|m: int| j <= m < i ==> (#[trigger] es[m]).path != path,
        es[i].path == path,
    ensures
        first_match(es, path, j) == i,
    decreases i - j,
{
    if j < i {
        lemma_first_match_at(es, path, j + 1, i);
    }
}

/// `i` is the position of the first entry of `es` whose path is `path`.
pub open spec fn is_first_with_path(es: Seq<EntryView>, path: Seq<char>, i: int) -> bool {
    &&& 0 <= i < es.len()
    &&& es[i].path == path
    &&& forall|m: int| 0 <= m < i ==> (#[trigger] es[m]).path != path
}

/// A parameter whose entry in the manifest (the first one with its path)
/// records another shape, in any dimension, is not loaded: the step fails
/// with `ShapeMismatch` carrying its path, its own shape as the one wanted
/// and the entry's shape as the one found.
pub proof fn law_shape_mismatch_fails(r: ParamRecord, es: Seq<EntryView>, data: Seq<u8>, i: int)
    requires
        is_first_with_path(es, r.path@, i),
        es[i].shape != r.shape@,
    ensures
        load_step(r, es, data) == LoadStep::Fail(
            LoadFailure::ShapeMismatch(r.path@, r.shape@, es[i].shape),
        ),
{
    lemma_first_match_at(es, r.path@, 0, i);
}

/// A parameter that loads has an entry with its path, and the first such
/// entry records exactly its shape.
pub proof fn law_loaded_shape_agrees(r: ParamRecord, es: Seq<EntryView>, data: Seq<u8>)
    requires
        load_step(r, es, data) is Write,
    ensures
        exists|i: int| is_first_with_path(es, r.path@, i) && es[i].shape == r.shape@,
{
    let i = first_match(es, r.path@, 0);
    lemma_first_match_found(es, r.path@, 0);
    assert(is_first_with_path(es, r.path@, i));
}

proof fn lemma_first_match_found(es: Seq<EntryView>, path: Seq<char>, j: int)
    requires
        0 <= j,
    ensures
        j <= first_match(es, path, j),
        first_match(es, path, j) < es.len() ==> es[first_match(es, path, j)].path == path,
        forall|m: int| j <= m < first_match(es, path, j) ==> (#[trigger] es[m]).path != path,
    decreases es.len() - j,
{
    if j < es.len() && es[j].path != path {
        lemma_first_match_found(es, path, j + 1);
    }
}

/// Loading a list of parameters where one of them has a manifest entry of
/// another shape fails, and leaves that parameter as it was.
pub proof fn law_load_rejects_shape_mismatch(
    before: Seq<ParamRecord>,
    after: Seq<ParamRecord>,
    es: Seq<EntryView>,
    data: Seq<u8>,
    r: Result<(), CheckpointError>,
    j: int,
    i: int,
)
    requires
        load_result(before, after, es, data, r),
        0 <= j < before.len(),
        is_first_with_path(es, before[j].path@, i),
        es[i].shape != before[j].shape@,
    ensures
        r is Err,
        after[j] == before[j],
{
    law_shape_mismatch_fails(before[j], es, data, i);
    lemma_loaded_count_bounds(before, es, data, 0);
    let k = loaded_count(before, es, data, 0);
    assert(k <= j);
}

pub proof fn lemma_loaded_count_bounds(ps: Seq<ParamRecord>, es: Seq<EntryView>, data: Seq<u8>, i: int)
    requires
        0 <= i <= ps.len(),
    ensures
        i <= loaded_count(ps, es, data, i) <= ps.len(),
        forall|j: int|
            i <= j < loaded_count(ps, es, data, i) ==> load_step(ps[j], es, data) is Write,
        loaded_count(ps, es, data, i) < ps.len() ==> !(load_step(
            ps[loaded_count(ps, es, data, i)],
            es,
            data,
        ) is Write),
    decreases ps.len() - i,
{
    if i < ps.len() && load_step(ps[i], es, data) is Write {
        lemma_loaded_count_bounds(ps, es, data, i + 1);
    }
}

/// The first entry whose path is `path`.
pub fn find_entry(entries: &Vec<Entry>, path: &String) -> (r: usize)
    ensures
        r as int == first_match(entry_views(entries@), path@, 0),
{
    let ghost es = entry_views(entries@);
    let mut i: usize = 0;
    while i < entries.len()
        invariant
            es == entry_views(entries@),
            i <= entries@.len(),
            first_match(es, path@, i as int) == first_match(es, path@, 0),
        decreases entries.len() - i,
    {
        if entries[i].path == *path {
            return i;
        }
        i += 1;
    }
    i
}

/// The two shapes are the same.
fn same_dims(a: &Vec<usize>, b: &Vec<usize>) -> (r: bool)
    ensures
        r == (a@ == b@),
{
    if a.len() != b.len() {
        return false;
    }
    let mut i: usize = 0;
    while i < a.len()
        invariant
            a@.len() == b@.len(),
            i <= a@.len(),
            forall|k: int| 0 <= k < i ==> a@[k] == b@[k],
        decreases a.len() - i,
    {
        if a[i] != b[i] {
            return false;
        }
        i += 1;
    }
    assert(a@ =~= b@);
    true
}

/// A copy of a shape.
fn copy_dims(a: &Vec<usize>) -> (r: Vec<usize>)
    ensures
        r@ == a@,
{
    let mut out: Vec<usize> = Vec::new();
    let mut i: usize = 0;
    while i < a.len()
        invariant
            i <= a@.len(),
            out@ == a@.subrange(0, i as int),
        decreases a.len() - i,
    {
        out.push(a[i]);
        i += 1;
        assert(out@ =~= a@.subrange(0, i as int));
    }
    assert(a@.subrange(0, a@.len() as int) =~= a@);
    out
}

/// What loading `r` would do: `Some(false)` when it writes the values,
/// `Some(true)` when the entry's data range overflows the address
/// arithmetic or holds more values than `r`, `None` when it stops with an
/// error.
pub fn step_overruns(r: &ParamRecord, entries: &Vec<Entry>, data: &[u8]) -> (res: Option<bool>)
    ensures
        (res == Some(false)) == (load_step(*r, entry_views(entries@), data@) is Write),
        (res == Some(true)) == (load_step(*r, entry_views(entries@), data@) is Overrun),
        (res is None) == (load_step(*r, entry_views(entries@), data@) is Fail),
{
    let ghost es = entry_views(entries@);
    let idx = find_entry(entries, &r.path);
    if idx >= entries.len() {
        return None;
    }
    let e = &entries[idx];
    assert(es[idx as int] == e@);
    if !same_dims(&e.shape, &r.shape) {
        return None;
    }
    let start = e.offset;
    let span = match e.len.checked_mul(4) {
        Some(v) => v,
        None => return Some(true),
    };
    let end = match start.checked_add(span) {
        Some(v) => v,
        None => return Some(true),
    };
    if end > data.len() {
        return None;
    }
    if e.len > r.bits.len() {
        return Some(true);
    }
    Some(false)
}

/// Load one parameter from the manifest entry with its path.
pub fn load_param(r: &mut ParamRecord, entries: &Vec<Entry>, data: &[u8]) -> (res: Result<
    (),
    CheckpointError,
>)
    requires
        !(load_step(*old(r), entry_views(entries@), data@) is Overrun),
    ensures
        match load_step(*old(r), entry_views(entries@), data@) {
            LoadStep::Write(bits) => res is Ok && final(r).path == old(r).path && final(r).shape
                == old(r).shape && final(r).bits@ == bits,
            LoadStep::Fail(f) => failure_matches(res, f) && *final(r) == *old(r),
            LoadStep::Overrun => false,
        },
{
    let ghost es = entry_views(entries@);
    let idx = find_entry(entries, &r.path);
    if idx >= entries.len() {
        return Err(CheckpointError::UnknownParam(r.path.clone()));
    }
    let e = &entries[idx];
    assert(es[idx as int] == e@);
    if !same_dims(&e.shape, &r.shape) {
        return Err(
            CheckpointError::ShapeMismatch {
                path: r.path.clone(),
                want: copy_dims(&r.shape),
                got: copy_dims(&e.shape),
            },
        );
    }
    let start = e.offset;
    let end = start + e.len * 4;
    if end > data.len() {
        return Err(CheckpointError::Truncated);
    }
    let ghost fresh = bytes_words(data@.subrange(start as int, end as int));
    let ghost old_bits = r.bits@;
    let ghost old_path = r.path;
    let ghost old_shape = r.shape;
    let n = e.len;
    assert(fresh.len() == n);
    let mut k: usize = 0;
    while k < n
        invariant
            k <= n,
            n <= old_bits.len(),
            start + 4 * n == end <= data@.len(),
            fresh == bytes_words(data@.subrange(start as int, end as int)),
            r.bits@.len() == old_bits.len(),
            r.path == old_path,
            r.shape == old_shape,
            fresh.len() == n,
            forall|j: int| 0 <= j < k ==> r.bits@[j] == fresh[j],
            forall|j: int| k <= j < old_bits.len() ==> r.bits@[j] == old_bits[j],
        decreases n - k,
    {
        let a = start + 4 * k;
        let w = u32_from_le_bytes(&data[a..a + 4]);
        assert(data@.subrange(start as int, end as int).subrange(4 * k, 4 * k + 4) =~= data@.subrange(
            a as int,
            a + 4,
        ));
        r.bits[k] = w;
        k += 1;
    }
    assert(r.bits@ =~= overwrite_prefix(old_bits, fresh));
    Ok(())
}

} // verus!
