//! zlib compression candidates (flate2 levels and Zopfli option sets), their order,
//! and the check that a candidate decompresses to the data it was made from.
use vstd::prelude::*;
use vstd::string::*;
use crate::error::PatchError;
use crate::log::{appends_lines, lemma_appends_chain, log_line};
use crate::text::{append_decimal, dec, owned};

verus! {

/// The zlib stream that flate2 makes of `data` at `level`, or `None` when it fails.
pub uninterp spec fn flate2_zlib(data: Seq<u8>, level: u32) -> Option<Seq<u8>>;

/// The zlib stream that Zopfli makes of `data` with the given iteration count and
/// block-split limit, or `None` when it fails.
pub uninterp spec fn zopfli_zlib(data: Seq<u8>, iterations: u64, maximum_block_splits: u16) -> Option<
    Seq<u8>,
>;

/// What flate2's zlib reader gives for `data` when read to the end, or `None` when the
/// read fails. (A stream cut short may still read without error, giving what was there.)
pub uninterp spec fn zlib_decoded(data: Seq<u8>) -> Option<Seq<u8>>;

/// `flate2::write::ZlibEncoder` over a `Vec` at `Compression::new(level)`: writes all
/// of `data` and finishes. Levels above 9 are not admitted: the encoder asserts its level
/// is in range. The result is named by [`flate2_zlib`]; an error carries the
/// I/O error's text, which is not stated. flate2 documents the encoder as a zlib
/// compressor and `ZlibDecoder` as the matching decompressor: what it writes reads back
/// through the decoder as `data`.
#[verifier::external_body]
pub fn compress_flate2_zlib(data: &[u8], level: u32) -> (res: Result<Vec<u8>, String>)
    requires
        level <= 9,
    ensures
        match res {
            Ok(v) => flate2_zlib(data@, level) == Some(v@) && zlib_decoded(v@) == Some(data@),
            Err(_) => flate2_zlib(data@, level) is None,
        },
{
    let mut encoder = flate2::write::ZlibEncoder::new(Vec::new(), flate2::Compression::new(level));
    std::io::Write::write_all(&mut encoder, data).map_err(|e| e.to_string())?;
    encoder.finish().map_err(|e| e.to_string())
}

/// `zopfli::compress` in the zlib format, with `Options::default()` but for the
/// iteration count and the block-split limit. The result is named by [`zopfli_zlib`];
/// an error carries the error's debug text, which is not stated. Zopfli documents its
/// output as a standard compressed stream in the zlib format (RFC 1950) that any
/// decompressor reads: it reads back through flate2's decoder as `data`.
#[verifier::external_body]
fn zopfli_compress_zlib(data: &[u8], iterations: u64, maximum_block_splits: u16) -> (res: Result<
    Vec<u8>,
    String,
>)
    requires
        iterations > 0,
    ensures
        match res {
            Ok(v) => zopfli_zlib(data@, iterations, maximum_block_splits) == Some(v@)
                && zlib_decoded(v@) == Some(data@),
            Err(_) => zopfli_zlib(data@, iterations, maximum_block_splits) is None,
        },
{
    let mut options = zopfli::Options::default();
    options.iteration_count = std::num::NonZeroU64::new(iterations).unwrap();
    options.maximum_block_splits = maximum_block_splits;
    let mut out = Vec::new();
    zopfli::compress(options, zopfli::Format::Zlib, std::io::Cursor::new(data), &mut out).map_err(
        |e| format!("{e:?}"),
    )?;
    Ok(out)
}

/// `flate2::read::ZlibDecoder` over `data`, read to the end. The result is named by
/// [`zlib_decoded`]; an error carries the I/O error's text, which is not stated.
#[verifier::external_body]
pub fn decompress_zlib(data: &[u8]) -> (res: Result<Vec<u8>, String>)
    ensures
        match res {
            Ok(v) => zlib_decoded(data@) == Some(v@),
            Err(_) => zlib_decoded(data@) is None,
        },
{
    let mut decoder = flate2::read::ZlibDecoder::new(std::io::Cursor::new(data));
    let mut out = Vec::new();
    std::io::Read::read_to_end(&mut decoder, &mut out).map_err(|e| e.to_string())?;
    Ok(out)
}

/// The Zopfli result for one option set; no iteration count of zero is accepted.
pub open spec fn zopfli_result(data: Seq<u8>, iterations: u64, maximum_block_splits: u16) -> Option<
    Seq<u8>,
> {
    if iterations == 0 {
        None
    } else {
        zopfli_zlib(data, iterations, maximum_block_splits)
    }
}

/// Compresses `data` with Zopfli into the zlib format. A Zopfli error is reported as
/// `Zopfli error: ` and its debug text.
pub fn compress_zopfli_zlib(data: &[u8], iterations: u64, maximum_block_splits: u16) -> (res: Result<
    Vec<u8>,
    String,
>)
    ensures
        match res {
            Ok(v) => zopfli_result(data@, iterations, maximum_block_splits) == Some(v@)
                && zlib_decoded(v@) == Some(data@),
            Err(e) => {
                &&& zopfli_result(data@, iterations, maximum_block_splits) is None
                &&& iterations == 0 ==> e@ == "iterations must be non-zero"@
                &&& iterations != 0 ==> e@.len() >= 14 && e@.subrange(0, 14) == "Zopfli error: "@
            },
        },
{
    if iterations == 0 {
        return Err(owned("iterations must be non-zero"));
    }
    match zopfli_compress_zlib(data, iterations, maximum_block_splits) {
        Ok(v) => Ok(v),
        Err(detail) => {
            let mut e = owned("Zopfli error: ");
            e.append(detail.as_str());
            proof {
                reveal_strlit("Zopfli error: ");
                assert(e@.subrange(0, 14) =~= "Zopfli error: "@);
            }
            Err(e)
        },
    }
}

/// One compressed form of the data, with the name of the method that made it.
pub struct CompressionCandidate {
    pub name: String,
    pub bytes: Vec<u8>,
}

impl View for CompressionCandidate {
    type V = (Seq<char>, Seq<u8>);

    open spec fn view(&self) -> (Seq<char>, Seq<u8>) {
        (self.name@, self.bytes@)
    }
}

/// `flate2-zlib-level-{level}`
pub open spec fn flate2_name(level: nat) -> Seq<char> {
    "flate2-zlib-level-"@ + dec(level)
}

/// The Zopfli option sets tried: iteration count, block-split limit, name.
pub open spec fn zopfli_options() -> Seq<(u64, u16, Seq<char>)> {
    seq![
        (5u64, 15u16, "zopfli-iter5-splits15"@),
        (10u64, 15u16, "zopfli-iter10-splits15"@),
        (15u64, 15u16, "zopfli-iter15-splits15-defaultish"@),
        (25u64, 15u16, "zopfli-iter25-splits15"@),
        (50u64, 15u16, "zopfli-iter50-splits15"@),
        (15u64, 0u16, "zopfli-iter15-splits-unlimited"@),
        (25u64, 0u16, "zopfli-iter25-splits-unlimited"@),
        (50u64, 0u16, "zopfli-iter50-splits-unlimited"@),
    ]
}

/// Every method in the order it is run: flate2 at levels 9 down to 1, then the Zopfli
/// option sets; each with its name, its result, and whether it is a Zopfli one.
pub open spec fn raw_candidates(data: Seq<u8>) -> Seq<(Seq<char>, Option<Seq<u8>>, bool)> {
    Seq::new(
        9,
        |i: int| (flate2_name((9 - i) as nat), flate2_zlib(data, (9 - i) as u32), false),
    ) + zopfli_options().map_values(
        |o: (u64, u16, Seq<char>)| (o.2, zopfli_result(data, o.0, o.1), true),
    )
}

/// `s` with `x` placed after every element no longer than it and before the longer
/// ones at its end: one step of a stable sort by length.
pub open spec fn insert_by_len(s: Seq<(Seq<char>, Seq<u8>)>, x: (Seq<char>, Seq<u8>)) -> Seq<
    (Seq<char>, Seq<u8>),
>
    decreases s.len(),
{
    if s.len() == 0 {
        seq![x]
    } else if s.last().1.len() <= x.1.len() {
        s.push(x)
    } else {
        insert_by_len(s.drop_last(), x).push(s.last())
    }
}

/// `s` stably sorted by the length of the bytes (as `sort_by_key` on the length does).
pub open spec fn sort_by_len(s: Seq<(Seq<char>, Seq<u8>)>) -> Seq<(Seq<char>, Seq<u8>)>
    decreases s.len(),
{
    if s.len() == 0 {
        s
    } else {
        insert_by_len(sort_by_len(s.drop_last()), s.last())
    }
}

/// The candidates when every method succeeded: names and bytes, sorted by size.
pub open spec fn sorted_candidates(data: Seq<u8>) -> Seq<(Seq<char>, Seq<u8>)> {
    sort_by_len(
        raw_candidates(data).map_values(
            |r: (Seq<char>, Option<Seq<u8>>, bool)| (r.0, r.1.unwrap()),
        ),
    )
}

/// The error that the failing method at `k` is reported with.
pub open spec fn failure_matches(r: (Seq<char>, Option<Seq<u8>>, bool), e: PatchError) -> bool {
    if r.2 {
        e matches PatchError::Zopfli { name, .. } && name@ == r.0
    } else {
        e is Flate2
    }
}

/// The two log lines that open the candidate list.
pub open spec fn candidates_header() -> Seq<Seq<char>> {
    seq![""@, "===== COMPRESSION CANDIDATES ====="@]
}

proof fn lemma_insert_at(s: Seq<(Seq<char>, Seq<u8>)>, x: (Seq<char>, Seq<u8>), p: int)
    requires
        0 <= p <= s.len(),
        forall|t: int| p <= t < s.len() ==> #[trigger] s[t].1.len() > x.1.len(),
        p == 0 || s[p - 1].1.len() <= x.1.len(),
    ensures
        insert_by_len(s, x) == s.insert(p, x),
    decreases s.len(),
{
    if s.len() == 0 {
        assert(s.insert(p, x) =~= seq![x]);
    } else if s.last().1.len() <= x.1.len() {
        assert(p == s.len());
        assert(s.insert(p, x) =~= s.push(x));
    } else {
        lemma_insert_at(s.drop_last(), x, p);
        assert(s.drop_last().insert(p, x).push(s.last()) =~= s.insert(p, x));
    }
}

/// Inserts `c` into the size-sorted `out` where a stable sort by size puts it.
fn insert_candidate(out: &mut Vec<CompressionCandidate>, c: CompressionCandidate)
    ensures
        final(out)@.map_values(|x: CompressionCandidate| x@) == insert_by_len(
            old(out)@.map_values(|x: CompressionCandidate| x@),
            c@,
        ),
{
    let ghost v = old(out)@.map_values(|x: CompressionCandidate| x@);
    let mut pos = out.len();
    let size = c.bytes.len();
    while pos > 0 && out[pos - 1].bytes.len() > size
        invariant
            pos <= out@.len(),
            out@ == old(out)@,
            v == old(out)@.map_values(|x: CompressionCandidate| x@),
            size == c@.1.len(),
            forall|t: int| pos <= t < v.len() ==> #[trigger] v[t].1.len() > c@.1.len(),
        decreases pos,
    {
        pos = pos - 1;
    }
    proof {
        lemma_insert_at(v, c@, pos as int);
    }
    let ghost cv = c@;
    out.insert(pos, c);
    assert(out@.map_values(|x: CompressionCandidate| x@) =~= v.insert(pos as int, cv));
}

fn flate2_candidate_name(level: u32) -> (s: String)
    ensures
        s@ == flate2_name(level as nat),
{
    let mut s = owned("flate2-zlib-level-");
    append_decimal(&mut s, level as usize);
    s
}

fn zopfli_option_sets() -> (v: Vec<(u64, u16, &'static str)>)
    ensures
        v@.len() == zopfli_options().len(),
        forall|i: int|
            0 <= i < v@.len() ==> (#[trigger] v@[i]).0 == zopfli_options()[i].0 && v@[i].1
                == zopfli_options()[i].1 && v@[i].2@ == zopfli_options()[i].2,
{
    let mut v: Vec<(u64, u16, &'static str)> = Vec::new();
    v.push((5, 15, "zopfli-iter5-splits15"));
    v.push((10, 15, "zopfli-iter10-splits15"));
    v.push((15, 15, "zopfli-iter15-splits15-defaultish"));
    v.push((25, 15, "zopfli-iter25-splits15"));
    v.push((50, 15, "zopfli-iter50-splits15"));
    v.push((15, 0, "zopfli-iter15-splits-unlimited"));
    v.push((25, 0, "zopfli-iter25-splits-unlimited"));
    v.push((50, 0, "zopfli-iter50-splits-unlimited"));
    v
}

/// Compresses `data` with flate2 at levels 9 down to 1 and with each Zopfli option set,
/// and returns the results sorted by size (equal sizes keep the order they were made
/// in); the first method that fails ends it with its error.
pub fn compression_candidates(data: &[u8], log: &mut String) -> (res: Result<
    Vec<CompressionCandidate>,
    PatchError,
>)
    ensures
        appends_lines(old(log)@, final(log)@, candidates_header()),
        match res {
            Ok(v) => {
                &&& forall|i: int|
                    0 <= i < raw_candidates(data@).len() ==> (#[trigger] raw_candidates(
                        data@,
                    )[i]).1 is Some
                &&& v@.map_values(|c: CompressionCandidate| c@) == sorted_candidates(data@)
                &&& forall|i: int|
                    0 <= i < v@.len() ==> zlib_decoded(#[trigger] v@[i].bytes@) == Some(data@)
            },
            Err(e) => exists|k: int|
                0 <= k < raw_candidates(data@).len() && (forall|t: int|
                    0 <= t < k ==> (#[trigger] raw_candidates(data@)[t]).1 is Some) && raw_candidates(
                    data@,
                )[k].1 is None && failure_matches(raw_candidates(data@)[k], e),
        },
{
    let ghost raw = raw_candidates(data@);
    let ghost log0 = log@;
    log_line(log, "");
    let ghost log1 = log@;
    log_line(log, "===== COMPRESSION CANDIDATES =====");
    proof {
        lemma_appends_chain(log0, log1, log@, seq![""@], seq!["===== COMPRESSION CANDIDATES ====="@]);
        assert(seq![""@] + seq!["===== COMPRESSION CANDIDATES ====="@] =~= candidates_header());
    }
    let ghost done = raw.map_values(|r: (Seq<char>, Option<Seq<u8>>, bool)| (r.0, r.1.unwrap()));
    let mut candidates: Vec<CompressionCandidate> = Vec::new();
    let mut level: u32 = 9;
    while level >= 1
        invariant
            level <= 9,
            raw == raw_candidates(data@),
            log0 == old(log)@,
            appends_lines(log0, log@, candidates_header()),
            done == raw.map_values(|r: (Seq<char>, Option<Seq<u8>>, bool)| (r.0, r.1.unwrap())),
            forall|t: int| 0 <= t < 9 - level ==> (#[trigger] raw[t]).1 is Some,
            forall|t: int|
                0 <= t < 9 - level ==> zlib_decoded((#[trigger] done[t]).1) == Some(data@),
            candidates@.map_values(|c: CompressionCandidate| c@) == sort_by_len(
                done.take(9 - level),
            ),
        decreases level,
    {
        let ghost k = 9 - level;
        assert(raw[k] == (flate2_name(level as nat), flate2_zlib(data@, level), false));
        match compress_flate2_zlib(data, level) {
            Ok(bytes) => {
                let name = flate2_candidate_name(level);
                let c = CompressionCandidate { name, bytes };
                assert(done.take(k + 1).drop_last() =~= done.take(k));
                insert_candidate(&mut candidates, c);
            },
            Err(detail) => {
                let e = PatchError::Flate2 { detail };
                assert(failure_matches(raw[k], e));
                return Err(e);
            },
        }
        level = level - 1;
    }
    let sets = zopfli_option_sets();
    let mut i: usize = 0;
    while i < sets.len()
        invariant
            i <= sets@.len(),
            sets@.len() == zopfli_options().len(),
            forall|j: int|
                0 <= j < sets@.len() ==> (#[trigger] sets@[j]).0 == zopfli_options()[j].0
                    && sets@[j].1 == zopfli_options()[j].1 && sets@[j].2@ == zopfli_options()[j].2,
            raw == raw_candidates(data@),
            log0 == old(log)@,
            appends_lines(log0, log@, candidates_header()),
            done == raw.map_values(|r: (Seq<char>, Option<Seq<u8>>, bool)| (r.0, r.1.unwrap())),
            forall|t: int| 0 <= t < 9 + i ==> (#[trigger] raw[t]).1 is Some,
            forall|t: int| 0 <= t < 9 + i ==> zlib_decoded((#[trigger] done[t]).1) == Some(data@),
            candidates@.map_values(|c: CompressionCandidate| c@) == sort_by_len(done.take(9 + i)),
        decreases sets@.len() - i,
    {
        let (iterations, splits, name) = sets[i];
        let ghost k = 9 + i;
        assert(raw[k] == (
            zopfli_options()[i as int].2,
            zopfli_result(data@, iterations, splits),
            true,
        ));
        match compress_zopfli_zlib(data, iterations, splits) {
            Ok(bytes) => {
                let c = CompressionCandidate { name: owned(name), bytes };
                assert(done.take(k + 1).drop_last() =~= done.take(k));
                insert_candidate(&mut candidates, c);
            },
            Err(detail) => {
                let e = PatchError::Zopfli { name: owned(name), detail };
                assert(failure_matches(raw[k], e));
                return Err(e);
            },
        }
        i = i + 1;
    }
    assert(done.take(17) =~= done);
    proof {
        broadcast use vstd::seq_lib::group_to_multiset_ensures;

        lemma_sort_by_len(done);
        let sorted = sort_by_len(done);
        assert forall|k: int| 0 <= k < candidates@.len() implies zlib_decoded(
            #[trigger] candidates@[k].bytes@,
        ) == Some(data@) by {
            let e = sorted[k];
            assert(candidates@.map_values(|c: CompressionCandidate| c@)[k] == e);
            assert(sorted.to_multiset().contains(e));
            assert(done.to_multiset().contains(e));
            let t = choose|t: int| 0 <= t < done.len() && done[t] == e;
            assert(zlib_decoded(done[t].1) == Some(data@));
        }
    }
    Ok(candidates)
}

/// `Candidate verified: {name}`
pub open spec fn verified_msg(name: Seq<char>) -> Seq<char> {
    "Candidate verified: "@ + name
}

pub(crate) fn bytes_equal(a: &[u8], b: &[u8]) -> (r: bool)
    ensures
        r == (a@ == b@),
{
    if a.len() != b.len() {
        return false;
    }
    let n = a.len();
    let mut i: usize = 0;
    while i < n
        invariant
            n == a@.len(),
            n == b@.len(),
            i <= n,
            forall|t: int| 0 <= t < i ==> a@[t] == b@[t],
        decreases n - i,
    {
        if a[i] != b[i] {
            return false;
        }
        i = i + 1;
    }
    assert(a@ =~= b@);
    true
}

/// Checks that the candidate decompresses back to `expected_dec`, and logs that it did.
pub fn verify_compressed_candidate(
    candidate: &CompressionCandidate,
    expected_dec: &[u8],
    log: &mut String,
) -> (res: Result<(), PatchError>)
    ensures
        match res {
            Ok(()) => {
                &&& zlib_decoded(candidate.bytes@) == Some(expected_dec@)
                &&& appends_lines(old(log)@, final(log)@, seq![verified_msg(candidate.name@)])
            },
            Err(PatchError::NotZlib { name, .. }) => {
                &&& zlib_decoded(candidate.bytes@) is None
                &&& name@ == candidate.name@
                &&& final(log)@ == old(log)@
            },
            Err(PatchError::RoundtripMismatch { name }) => {
                &&& zlib_decoded(candidate.bytes@) is Some
                &&& zlib_decoded(candidate.bytes@) != Some(expected_dec@)
                &&& name@ == candidate.name@
                &&& final(log)@ == old(log)@
            },
            Err(_) => false,
        },
{
    let roundtrip = match decompress_zlib(candidate.bytes.as_slice()) {
        Ok(d) => d,
        Err(detail) => {
            return Err(PatchError::NotZlib { name: owned(candidate.name.as_str()), detail });
        },
    };
    if !bytes_equal(roundtrip.as_slice(), expected_dec) {
        return Err(PatchError::RoundtripMismatch { name: owned(candidate.name.as_str()) });
    }
    let mut msg = owned("Candidate verified: ");
    msg.append(candidate.name.as_str());
    log_line(log, msg.as_str());
    Ok(())
}

} // verus!

verus! {

/// Sizes never decrease along `s`.
pub open spec fn sorted_by_len(s: Seq<(Seq<char>, Seq<u8>)>) -> bool {
    forall|i: int, j: int| 0 <= i < j < s.len() ==> s[i].1.len() <= s[j].1.len()
}

proof fn lemma_insert_by_len(s: Seq<(Seq<char>, Seq<u8>)>, x: (Seq<char>, Seq<u8>))
    requires
        sorted_by_len(s),
    ensures
        sorted_by_len(insert_by_len(s, x)),
        insert_by_len(s, x).to_multiset() == s.to_multiset().insert(x),
    decreases s.len(),
{
    broadcast use vstd::seq_lib::group_to_multiset_ensures;

    if s.len() == 0 {
        assert(seq![x] =~= Seq::<(Seq<char>, Seq<u8>)>::empty().push(x));
    } else if s.last().1.len() <= x.1.len() {
    } else {
        lemma_insert_by_len(s.drop_last(), x);
        let r = insert_by_len(s.drop_last(), x);
        assert(s.drop_last().push(s.last()) =~= s);
        let out = r.push(s.last());
        assert forall|i: int, j: int| 0 <= i < j < out.len() implies out[i].1.len()
            <= out[j].1.len() by {
            if j == out.len() - 1 {
                let e = r[i];
                assert(r.to_multiset().contains(e));
                assert(s.drop_last().to_multiset().insert(x).contains(e));
                if e != x {
                    assert(s.drop_last().to_multiset().contains(e));
                    let k = choose|k: int| 0 <= k < s.drop_last().len() && s.drop_last()[k] == e;
                    assert(s[k] == e);
                }
            }
        }
    }
}

/// Sorting by size gives nondecreasing sizes and keeps every candidate, each as often
/// as before.
pub proof fn lemma_sort_by_len(s: Seq<(Seq<char>, Seq<u8>)>)
    ensures
        sorted_by_len(sort_by_len(s)),
        sort_by_len(s).to_multiset() == s.to_multiset(),
    decreases s.len(),
{
    broadcast use vstd::seq_lib::group_to_multiset_ensures;

    if s.len() > 0 {
        lemma_sort_by_len(s.drop_last());
        lemma_insert_by_len(sort_by_len(s.drop_last()), s.last());
        assert(s.drop_last().push(s.last()) =~= s);
    }
}

} // verus!
