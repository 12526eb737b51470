//! Choosing a patch set and a compressed form of the patched data that fits the slot.
use std::collections::HashSet;
use vstd::prelude::*;
use vstd::string::*;
use crate::codec::{
    lemma_sort_by_len,
    sorted_by_len,
    candidates_header,
    compression_candidates,
    failure_matches,
    raw_candidates,
    sorted_candidates,
    verified_msg,
    verify_compressed_candidate,
    zopfli_options,
    zlib_decoded,
    CompressionCandidate,
};
use crate::count::{count_target_dnt, countable, lemma_target_dnt_fits, target_dnt};
use crate::error::{PatchError, PACKED_SIZE};
use crate::log::{appends_lines, lemma_appends_chain, lemma_appends_none, log_line, log_more};
use vstd::utf8::{encode_utf8, is_ascii_chars};
use crate::patch::{
    set_views,
    SetView,
    lemma_bounded_set_len,
    lemma_near_patch_labels,
    lemma_near_patch_serves_every_occurrence,
    placeholder_bytes,
    lemma_near_patch_taken,
    near_patch,
    patch_near,
    replacement_ok,
    PatchEntry,
    PatchSet,
    PatchState,
};
use crate::text::{append_decimal, dec, owned};
use crate::search::occurs_at;

verus! {

broadcast use vstd::std_specs::hash::group_hash_axioms;

/// The patch set and compressed form that were chosen.
pub struct BestCandidate {
    pub patch_set_name: String,
    pub compression_name: String,
    pub bytes: Vec<u8>,
    pub patched_dec: Vec<u8>,
    pub total_patched: usize,
}

/// The entries of a set applied in order to fresh data with nothing taken yet; stops
/// at the first entry whose replacement is unusable and gives its index.
pub open spec fn entries_fold(dec: Seq<u8>, entries: Seq<(Seq<char>, Seq<char>)>, k: int) -> (
    PatchState,
    Option<int>,
)
    decreases k,
{
    if k <= 0 {
        (PatchState { data: dec, taken: Set::empty(), count: 0, texts: Seq::empty() }, None)
    } else {
        let (prev, bad) = entries_fold(dec, entries, k - 1);
        if bad is Some {
            (prev, bad)
        } else {
            let e = entries[k - 1];
            if !label_ok(e.1) {
                (prev, Some(k - 1))
            } else {
                let r = near_patch(prev.data, e.0, encode_utf8(e.0), encode_utf8(e.1), prev.taken);
                (
                    PatchState {
                        data: r.data,
                        taken: r.taken,
                        count: prev.count + r.count,
                        texts: prev.texts + r.texts,
                    },
                    None,
                )
            }
        }
    }
}

/// A replacement label is usable: 16 ASCII characters (so 16 bytes).
pub open spec fn label_ok(r: Seq<char>) -> bool {
    is_ascii_chars(r) && encode_utf8(r).len() == 16
}

/// A whole patch set applied to `dec`.
pub open spec fn set_patch(dec: Seq<u8>, set: SetView) -> (PatchState, Option<int>) {
    entries_fold(dec, set.1, set.1.len() as int)
}

/// How the trial of one set ended, when it ended the search.
pub enum SetEnd {
    /// The entry at this index has an unusable replacement.
    Bad(int),
    /// The compression method at this index (in the order they are run) failed first.
    CompressFail(int),
    /// The candidate at this index (in size order) is not valid zlib.
    NotZlib(int),
    /// The candidate at this index decompresses to other data.
    Mismatch(int),
    /// The candidate at this index fits the slot.
    Fit(int),
}

/// Log texts written, smallest too-large candidate seen (set, method, size), and
/// how it ended, if it did.
pub struct Trial {
    pub texts: Seq<Seq<char>>,
    pub best: Option<(Seq<char>, Seq<char>, nat)>,
    pub end: Option<SetEnd>,
}

/// `===== TRY PATCH SET: {name} =====`
pub open spec fn try_set_msg(name: Seq<char>) -> Seq<char> {
    "===== TRY PATCH SET: "@ + name + " ====="@
}

/// `Total patched for set '{name}': {n}`
pub open spec fn total_msg(name: Seq<char>, n: nat) -> Seq<char> {
    "Total patched for set '"@ + name + "': "@ + dec(n)
}

/// `Remaining nearby DNT for target names: {n}`
pub open spec fn remaining_total_msg(n: nat) -> Seq<char> {
    "Remaining nearby DNT for target names: "@ + dec(n)
}

/// `Candidate {name}: {size} bytes`
pub open spec fn cand_size_msg(name: Seq<char>, size: nat) -> Seq<char> {
    "Candidate "@ + name + ": "@ + dec(size) + " bytes"@
}

/// `Candidate fits in slot: {size} <= {PACKED_SIZE}`
pub open spec fn fits_msg(size: nat) -> Seq<char> {
    "Candidate fits in slot: "@ + dec(size) + " <= "@ + dec(PACKED_SIZE as nat)
}

/// The smaller of the kept too-large candidate and `x`; the earlier one on a tie.
pub open spec fn keep_smallest(
    best: Option<(Seq<char>, Seq<char>, nat)>,
    x: (Seq<char>, Seq<char>, nat),
) -> Option<(Seq<char>, Seq<char>, nat)> {
    match best {
        Some(b) => if b.2 <= x.2 {
            best
        } else {
            Some(x)
        },
        None => Some(x),
    }
}

/// The first `k` candidates, in size order, each checked and then taken if it fits.
pub open spec fn cand_fold(
    set_name: Seq<char>,
    patched: Seq<u8>,
    cands: Seq<(Seq<char>, Seq<u8>)>,
    best0: Option<(Seq<char>, Seq<char>, nat)>,
    k: int,
) -> Trial
    decreases k,
{
    if k <= 0 {
        Trial { texts: Seq::empty(), best: best0, end: None }
    } else {
        let prev = cand_fold(set_name, patched, cands, best0, k - 1);
        if prev.end is Some {
            prev
        } else {
            let c = cands[k - 1];
            if zlib_decoded(c.1) is None {
                Trial { texts: prev.texts, best: prev.best, end: Some(SetEnd::NotZlib(k - 1)) }
            } else if zlib_decoded(c.1) != Some(patched) {
                Trial { texts: prev.texts, best: prev.best, end: Some(SetEnd::Mismatch(k - 1)) }
            } else {
                let t = prev.texts + seq![verified_msg(c.0), cand_size_msg(c.0, c.1.len())];
                if c.1.len() <= PACKED_SIZE {
                    Trial {
                        texts: t.push(fits_msg(c.1.len())),
                        best: prev.best,
                        end: Some(SetEnd::Fit(k - 1)),
                    }
                } else {
                    Trial {
                        texts: t,
                        best: keep_smallest(prev.best, (set_name, c.0, c.1.len())),
                        end: None,
                    }
                }
            }
        }
    }
}

/// The index of the first method that failed, looking from `i` on.
pub open spec fn first_failure_from(raw: Seq<(Seq<char>, Option<Seq<u8>>, bool)>, i: int) -> Option<
    int,
>
    decreases raw.len() - i,
{
    if i < 0 || i >= raw.len() {
        None
    } else if raw[i].1 is None {
        Some(i)
    } else {
        first_failure_from(raw, i + 1)
    }
}

/// The trial of one patch set, given the smallest too-large candidate so far.
pub open spec fn trial(dec: Seq<u8>, set: SetView, best0: Option<(Seq<char>, Seq<char>, nat)>) -> Trial {
    let hdr = seq![""@, try_set_msg(set.0)];
    let (st, bad) = set_patch(dec, set);
    if bad is Some {
        Trial { texts: hdr + st.texts, best: best0, end: Some(SetEnd::Bad(bad.unwrap())) }
    } else {
        let t1 = hdr + st.texts + seq![total_msg(set.0, st.count)];
        if st.count < 3 {
            Trial {
                texts: t1.push("Patch set rejected: expected at least 3 patches."@),
                best: best0,
                end: None,
            }
        } else {
            let rem = target_dnt(st.data);
            let t2 = t1 + seq![""@, "===== AFTER CHECK BEFORE COMPRESSION ====="@] + rem.1 + seq![
                remaining_total_msg(rem.0),
            ];
            if rem.0 != 0 {
                Trial {
                    texts: t2.push("Patch set rejected: target DNT still present."@),
                    best: best0,
                    end: None,
                }
            } else {
                let t3 = t2 + candidates_header();
                match first_failure_from(raw_candidates(st.data), 0) {
                    Some(k) => Trial { texts: t3, best: best0, end: Some(SetEnd::CompressFail(k)) },
                    None => {
                        let cands = sorted_candidates(st.data);
                        let cf = cand_fold(set.0, st.data, cands, best0, cands.len() as int);
                        Trial { texts: t3 + cf.texts, best: cf.best, end: cf.end }
                    },
                }
            }
        }
    }
}

/// The search over the sets: log texts, smallest too-large candidate, and the set
/// index and end of the trial that ended it.
pub struct Search {
    pub texts: Seq<Seq<char>>,
    pub best: Option<(Seq<char>, Seq<char>, nat)>,
    pub end: Option<(int, SetEnd)>,
}

/// The first `k` sets tried in order, until one ends the search.
pub open spec fn search(dec: Seq<u8>, sets: Seq<SetView>, k: int) -> Search
    decreases k,
{
    if k <= 0 {
        Search { texts: Seq::empty(), best: None, end: None }
    } else {
        let prev = search(dec, sets, k - 1);
        if prev.end is Some {
            prev
        } else {
            let t = trial(dec, sets[k - 1], prev.best);
            Search {
                texts: prev.texts + t.texts,
                best: t.best,
                end: match t.end {
                    Some(e) => Some((k - 1, e)),
                    None => None,
                },
            }
        }
    }
}

/// The kept too-large candidate as values.
pub open spec fn best_view(b: Option<(String, String, usize)>) -> Option<(Seq<char>, Seq<char>, nat)> {
    match b {
        Some(t) => Some((t.0@, t.1@, t.2 as nat)),
        None => None,
    }
}

/// `b` is the candidate at `c` (in size order) of `set` applied to `dec`.
pub open spec fn is_chosen(b: BestCandidate, dec: Seq<u8>, set: SetView, c: int) -> bool {
    let st = set_patch(dec, set).0;
    let cands = sorted_candidates(st.data);
    &&& b.patch_set_name@ == set.0
    &&& b.compression_name@ == cands[c].0
    &&& b.bytes@ == cands[c].1
    &&& b.patched_dec@ == st.data
    &&& b.total_patched == st.count
}

/// `e` is the error that the trial of `set` ended with.
pub open spec fn end_error(dec: Seq<u8>, set: SetView, end: SetEnd, e: PatchError) -> bool {
    let st = set_patch(dec, set).0;
    let cands = sorted_candidates(st.data);
    match end {
        SetEnd::Bad(j) => e matches PatchError::BadReplacement { replacement, len } && replacement@
            == set.1[j].1 && len == encode_utf8(set.1[j].1).len(),
        SetEnd::CompressFail(k) => failure_matches(raw_candidates(st.data)[k], e),
        SetEnd::NotZlib(c) => e matches PatchError::NotZlib { name, .. } && name@ == cands[c].0,
        SetEnd::Mismatch(c) => e matches PatchError::RoundtripMismatch { name } && name@ == cands[c].0,
        SetEnd::Fit(_) => false,
    }
}

} // verus!

verus! {

proof fn lemma_entries_fold_shape(dec: Seq<u8>, entries: Seq<(Seq<char>, Seq<char>)>, k: int)
    requires
        0 <= k <= entries.len(),
    ensures
        entries_fold(dec, entries, k).1 matches Some(j) ==> 0 <= j < k && !label_ok(entries[j].1),
    decreases k,
{
    if k > 0 {
        lemma_entries_fold_shape(dec, entries, k - 1);
    }
}

/// Applies every entry of `set` to a copy of `dec`, sharing one set of replaced
/// positions; returns the patched data and the number of replacements.
fn apply_patch_set(dec: &[u8], set: &PatchSet, log: &mut String) -> (res: Result<
    (Vec<u8>, usize),
    PatchError,
>)
    ensures
        ({
            let (st, bad) = set_patch(dec@, set@);
            &&& appends_lines(old(log)@, final(log)@, st.texts)
            &&& match res {
                Ok((v, n)) => bad is None && v@ == st.data && n == st.count && v@.len() == dec@.len(),
                Err(e) => bad matches Some(j) && end_error(dec@, set@, SetEnd::Bad(j), e),
            }
        }),
{
    let ghost log0 = log@;
    let ghost entries = set@.1;
    let dl = dec.len();
    let mut patched_dec = vstd::slice::slice_to_vec(dec);
    let mut already: HashSet<usize> = HashSet::new();
    let mut total: usize = 0;
    proof {
        lemma_appends_none(log0);
    }
    let n = set.entries.len();
    let mut k: usize = 0;
    while k < n
        invariant
            n == entries.len(),
            entries == set@.1,
            set@.1 == set.entries@.map_values(|e: PatchEntry| e@),
            dl == dec@.len(),
            log0 == old(log)@,
            k <= n,
            ({
                let (st, bad) = entries_fold(dec@, entries, k as int);
                &&& bad is None
                &&& patched_dec@ == st.data
                &&& already@ == st.taken
                &&& total == st.count
                &&& appends_lines(log0, log@, st.texts)
                &&& st.taken.finite()
                &&& st.taken.len() == st.count
                &&& st.data.len() == dec@.len()
                &&& forall|x: usize| #[trigger] st.taken.contains(x) ==> x < dec@.len()
            }),
        decreases n - k,
    {
        let ghost prev = entries_fold(dec@, entries, k as int).0;
        let ghost log_prev = log@;
        let e = &set.entries[k];
        proof {
            assert(entries[k as int] == (e.english@, e.replacement16@));
            if replacement_ok(e.replacement16) {
                lemma_near_patch_taken(
                    prev.data,
                    e.english@,
                    e.english.spec_bytes(),
                    e.replacement16.spec_bytes(),
                    prev.taken,
                );
                let r = near_patch(
                    prev.data,
                    e.english@,
                    e.english.spec_bytes(),
                    e.replacement16.spec_bytes(),
                    prev.taken,
                );
                lemma_bounded_set_len(r.taken, dec@.len() as int);
            }
        }
        match patch_near(patched_dec.as_mut_slice(), e.english, e.replacement16, &mut already, log) {
            Ok(c) => {
                total = total + c;
                proof {
                    let r = near_patch(
                        prev.data,
                        e.english@,
                        e.english.spec_bytes(),
                        e.replacement16.spec_bytes(),
                        prev.taken,
                    );
                    lemma_appends_chain(log0, log_prev, log@, prev.texts, r.texts);
                }
            },
            Err(err) => {
                proof {
                    lemma_entries_fold_shape(dec@, entries, n as int);
                    assert(entries_fold(dec@, entries, k + 1).1 == Some(k as int));
                    lemma_fold_stops(dec@, entries, k as int + 1, n as int);
                    assert(entries_fold(dec@, entries, k + 1).0 == prev);
                    assert(set_patch(dec@, set@) == (prev, Some(k as int)));
                    assert(appends_lines(old(log)@, log@, prev.texts));
                    assert(end_error(dec@, set@, SetEnd::Bad(k as int), err));
                }
                return Err(err);
            },
        }
        k = k + 1;
    }
    Ok((patched_dec, total))
}

proof fn lemma_fold_stops(dec: Seq<u8>, entries: Seq<(Seq<char>, Seq<char>)>, k: int, n: int)
    requires
        0 <= k <= n,
        entries_fold(dec, entries, k).1 is Some,
    ensures
        entries_fold(dec, entries, n) == entries_fold(dec, entries, k),
    decreases n - k,
{
    if k < n {
        lemma_fold_stops(dec, entries, k, n - 1);
    }
}

} // verus!

verus! {

fn try_set_text(name: &str) -> (s: String)
    ensures
        s@ == try_set_msg(name@),
{
    let mut s = owned("===== TRY PATCH SET: ");
    s.append(name);
    s.append(" =====");
    s
}

fn total_text(name: &str, n: usize) -> (s: String)
    ensures
        s@ == total_msg(name@, n as nat),
{
    let mut s = owned("Total patched for set '");
    s.append(name);
    s.append("': ");
    append_decimal(&mut s, n);
    s
}

fn remaining_total_text(n: usize) -> (s: String)
    ensures
        s@ == remaining_total_msg(n as nat),
{
    let mut s = owned("Remaining nearby DNT for target names: ");
    append_decimal(&mut s, n);
    s
}

fn cand_size_text(name: &String, size: usize) -> (s: String)
    ensures
        s@ == cand_size_msg(name@, size as nat),
{
    let mut s = owned("Candidate ");
    s.append(name.as_str());
    s.append(": ");
    append_decimal(&mut s, size);
    s.append(" bytes");
    s
}

fn fits_text(size: usize) -> (s: String)
    ensures
        s@ == fits_msg(size as nat),
{
    let mut s = owned("Candidate fits in slot: ");
    append_decimal(&mut s, size);
    s.append(" <= ");
    append_decimal(&mut s, PACKED_SIZE);
    s
}

proof fn lemma_first_failure(raw: Seq<(Seq<char>, Option<Seq<u8>>, bool)>, k: int, i: int)
    requires
        0 <= i <= k < raw.len(),
        forall|t: int| 0 <= t < k ==> (#[trigger] raw[t]).1 is Some,
        raw[k].1 is None,
    ensures
        first_failure_from(raw, i) == Some(k),
    decreases k - i,
{
    if i < k {
        lemma_first_failure(raw, k, i + 1);
    }
}

proof fn lemma_no_failure(raw: Seq<(Seq<char>, Option<Seq<u8>>, bool)>, i: int)
    requires
        0 <= i,
        forall|t: int| 0 <= t < raw.len() ==> (#[trigger] raw[t]).1 is Some,
    ensures
        first_failure_from(raw, i) is None,
    decreases raw.len() - i,
{
    if i < raw.len() {
        lemma_no_failure(raw, i + 1);
    }
}

proof fn lemma_cand_fold_stops(
    set_name: Seq<char>,
    patched: Seq<u8>,
    cands: Seq<(Seq<char>, Seq<u8>)>,
    best0: Option<(Seq<char>, Seq<char>, nat)>,
    k: int,
    n: int,
)
    requires
        0 <= k <= n,
        cand_fold(set_name, patched, cands, best0, k).end is Some,
    ensures
        cand_fold(set_name, patched, cands, best0, n) == cand_fold(set_name, patched, cands, best0, k),
    decreases n - k,
{
    if k < n {
        lemma_cand_fold_stops(set_name, patched, cands, best0, k, n - 1);
    }
}

/// Tries one patch set: applies it, checks it, compresses the result and takes the
/// smallest candidate that fits the slot; `None` when the set is rejected or no
/// candidate fits, with `best` keeping the smallest candidate that did not fit.
fn try_patch_set(
    dec: &[u8],
    set: &PatchSet,
    best: &mut Option<(String, String, usize)>,
    log: &mut String,
) -> (r: Option<Result<BestCandidate, PatchError>>)
    requires
        countable(dec@.len() as int),
    ensures
        ({
            let t = trial(dec@, set@, best_view(*old(best)));
            &&& appends_lines(old(log)@, final(log)@, t.texts)
            &&& best_view(*final(best)) == t.best
            &&& match r {
                None => t.end is None,
                Some(Ok(b)) => t.end matches Some(SetEnd::Fit(c)) && is_chosen(b, dec@, set@, c),
                Some(Err(e)) => t.end matches Some(end) && end_error(dec@, set@, end, e),
            }
        }),
{
    let ghost log0 = log@;
    let ghost best0 = best_view(*best);
    let ghost (st, bad) = set_patch(dec@, set@);
    proof {
        lemma_appends_none(log0);
    }
    log_more(log, "", Ghost(log0), Ghost(Seq::empty()));
    let head = try_set_text(set.name);
    let ghost t0 = seq![""@];
    log_more(log, head.as_str(), Ghost(log0), Ghost(t0));
    let ghost hdr = seq![""@, try_set_msg(set.name@)];
    assert(seq![""@].push(head@) =~= hdr);
    let ghost log1 = log@;
    let (patched_dec, total) = match apply_patch_set(dec, set, log) {
        Ok(x) => x,
        Err(e) => {
            proof {
                lemma_appends_chain(log0, log1, log@, hdr, st.texts);
            }
            return Some(Err(e));
        },
    };
    proof {
        lemma_appends_chain(log0, log1, log@, hdr, st.texts);
    }
    let ghost t1 = hdr + st.texts + seq![total_msg(set.name@, st.count)];
    let tm = total_text(set.name, total);
    let ghost ta = hdr + st.texts;
    log_more(log, tm.as_str(), Ghost(log0), Ghost(ta));
    assert(ta.push(tm@) =~= t1);
    if total < 3 {
        log_more(
            log,
            "Patch set rejected: expected at least 3 patches.",
            Ghost(log0),
            Ghost(t1),
        );
        return None;
    }
    log_more(log, "", Ghost(log0), Ghost(t1));
    let ghost tb = t1.push(""@);
    log_more(log, "===== AFTER CHECK BEFORE COMPRESSION =====", Ghost(log0), Ghost(tb));
    let ghost log2 = log@;
    let ghost rem = target_dnt(st.data);
    let ghost t_pre = t1 + seq![""@, "===== AFTER CHECK BEFORE COMPRESSION ====="@];
    assert(t1.push(""@).push("===== AFTER CHECK BEFORE COMPRESSION ====="@) =~= t_pre);
    proof {
        lemma_target_dnt_fits(patched_dec@);
    }
    let remaining = count_target_dnt(patched_dec.as_slice(), log);
    proof {
        lemma_appends_chain(log0, log2, log@, t_pre, rem.1);
    }
    let rt = remaining_total_text(remaining);
    let ghost tc = t_pre + rem.1;
    log_more(log, rt.as_str(), Ghost(log0), Ghost(tc));
    let ghost t2 = t1 + seq![""@, "===== AFTER CHECK BEFORE COMPRESSION ====="@] + rem.1 + seq![
        remaining_total_msg(rem.0),
    ];
    assert((t_pre + rem.1).push(rt@) =~= t2);
    if remaining != 0 {
        log_more(log, "Patch set rejected: target DNT still present.", Ghost(log0), Ghost(t2));
        return None;
    }
    let ghost log3 = log@;
    let ghost t3 = t2 + candidates_header();
    let ghost raw = raw_candidates(st.data);
    let candidates_res = compression_candidates(patched_dec.as_slice(), log);
    proof {
        lemma_appends_chain(log0, log3, log@, t2, candidates_header());
    }
    let mut candidates = match candidates_res {
        Ok(c) => c,
        Err(e) => {
            proof {
                let k = choose|k: int|
                    0 <= k < raw.len() && (forall|t: int|
                        0 <= t < k ==> (#[trigger] raw[t]).1 is Some) && raw[k].1 is None
                        && failure_matches(raw[k], e);
                lemma_first_failure(raw, k, 0);
            }
            return Some(Err(e));
        },
    };
    proof {
        lemma_no_failure(raw, 0);
    }
    let ghost cands = sorted_candidates(st.data);
    let ghost cf = cand_fold(set.name@, st.data, cands, best0, cands.len() as int);
    assert(trial(dec@, set@, best0) == (Trial { texts: t3 + cf.texts, best: cf.best, end: cf.end }));
    let ghost log4 = log@;
    let picked = pick_candidate(set.name, patched_dec.as_slice(), candidates, best, log);
    proof {
        lemma_appends_chain(log0, log4, log@, t3, cf.texts);
    }
    match picked {
        None => None,
        Some(Err(e)) => Some(Err(e)),
        Some(Ok(c)) => Some(
            Ok(
                BestCandidate {
                    patch_set_name: owned(set.name),
                    compression_name: c.name,
                    bytes: c.bytes,
                    patched_dec,
                    total_patched: total,
                },
            ),
        ),
    }
}

/// The candidate views, in order.
pub open spec fn cand_views(v: Seq<CompressionCandidate>) -> Seq<(Seq<char>, Seq<u8>)> {
    v.map_values(|c: CompressionCandidate| c@)
}

/// Goes through the size-sorted candidates: each must decompress to `patched`; the
/// first that fits the slot is returned; `best` keeps the smallest one that did not fit.
fn pick_candidate(
    set_name: &str,
    patched: &[u8],
    sorted: Vec<CompressionCandidate>,
    best: &mut Option<(String, String, usize)>,
    log: &mut String,
) -> (r: Option<Result<CompressionCandidate, PatchError>>)
    ensures
        ({
            let cands = cand_views(sorted@);
            let cf = cand_fold(
                set_name@,
                patched@,
                cands,
                best_view(*old(best)),
                cands.len() as int,
            );
            &&& appends_lines(old(log)@, final(log)@, cf.texts)
            &&& best_view(*final(best)) == cf.best
            &&& match r {
                None => cf.end is None,
                Some(Ok(c)) => cf.end matches Some(SetEnd::Fit(i)) && c@ == cands[i],
                Some(Err(e)) => cf.end matches Some(end) && match end {
                    SetEnd::NotZlib(i) => e matches PatchError::NotZlib { name, .. } && name@
                        == cands[i].0,
                    SetEnd::Mismatch(i) => e matches PatchError::RoundtripMismatch { name }
                        && name@ == cands[i].0,
                    _ => false,
                },
            }
        }),
{
    let ghost cands = cand_views(sorted@);
    let ghost n = cands.len();
    let ghost name = set_name@;
    let ghost best0 = best_view(*best);
    let ghost log0 = log@;
    proof {
        lemma_appends_none(log0);
    }
    let count_all = sorted.len();
    let mut candidates = sorted;
    let mut k: usize = 0;
    while candidates.len() > 0
        invariant
            k <= n,
            n == cands.len(),
            count_all == n,
            cands == cand_views(sorted@),
            cand_views(candidates@) == cands.skip(k as int),
            name == set_name@,
            log0 == old(log)@,
            best0 == best_view(*old(best)),
            appends_lines(log0, log@, cand_fold(name, patched@, cands, best0, k as int).texts),
            cand_fold(name, patched@, cands, best0, k as int).end is None,
            best_view(*best) == cand_fold(name, patched@, cands, best0, k as int).best,
        decreases candidates@.len(),
    {
        let ghost prev = cand_fold(name, patched@, cands, best0, k as int);
        let ghost before = candidates@;
        assert(cands.skip(k as int).len() > 0);
        assert(cand_views(before)[0] == cands.skip(k as int)[0]);
        let candidate = candidates.remove(0);
        assert(candidate@ == cands[k as int]);
        assert(cand_views(candidates@) =~= cands.skip(k + 1)) by {
            assert forall|t: int| 0 <= t < candidates@.len() implies #[trigger] cand_views(
                candidates@,
            )[t] == cands.skip(k + 1)[t] by {
                assert(candidates@[t] == before[t + 1]);
                assert(cand_views(before)[t + 1] == cands.skip(k as int)[t + 1]);
            }
        }
        let size = candidate.bytes.len();
        let ghost lv = log@;
        match verify_compressed_candidate(&candidate, patched, log) {
            Ok(()) => {},
            Err(e) => {
                proof {
                    lemma_cand_fold_stops(name, patched@, cands, best0, k + 1, n as int);
                    let nx = cand_fold(name, patched@, cands, best0, k + 1);
                    assert(nx.texts == prev.texts);
                    assert(nx.best == prev.best);
                    assert(nx.end is Some);
                    assert(appends_lines(old(log)@, log@, nx.texts));
                }
                return Some(Err(e));
            },
        }
        proof {
            lemma_appends_chain(log0, lv, log@, prev.texts, seq![verified_msg(candidate.name@)]);
            assert(prev.texts + seq![verified_msg(candidate.name@)] =~= prev.texts.push(
                verified_msg(candidate.name@),
            ));
        }
        let cs = cand_size_text(&candidate.name, size);
        let ghost td = prev.texts.push(verified_msg(candidate.name@));
        log_more(log, cs.as_str(), Ghost(log0), Ghost(td));
        assert(td.push(cs@) =~= prev.texts + seq![verified_msg(candidate.name@), cs@]);
        if size <= PACKED_SIZE {
            let ft = fits_text(size);
            let ghost te = td.push(cs@);
            log_more(log, ft.as_str(), Ghost(log0), Ghost(te));
            proof {
                lemma_cand_fold_stops(name, patched@, cands, best0, k + 1, n as int);
            }
            return Some(Ok(candidate));
        }
        let replace = match best {
            Some((_, _, best_size)) => *best_size > size,
            None => true,
        };
        if replace {
            *best = Some((owned(set_name), candidate.name, size));
        }
        k = k + 1;
    }
    assert(cands.skip(k as int).len() == 0);
    None
}

} // verus!

verus! {

proof fn lemma_cand_fold_end(
    set_name: Seq<char>,
    patched: Seq<u8>,
    cands: Seq<(Seq<char>, Seq<u8>)>,
    best0: Option<(Seq<char>, Seq<char>, nat)>,
    k: int,
)
    requires
        0 <= k <= cands.len(),
    ensures
        cand_fold(set_name, patched, cands, best0, k).end matches Some(SetEnd::Fit(c)) ==> {
            &&& 0 <= c < k
            &&& zlib_decoded(cands[c].1) == Some(patched)
            &&& cands[c].1.len() <= PACKED_SIZE
        },
    decreases k,
{
    if k > 0 {
        lemma_cand_fold_end(set_name, patched, cands, best0, k - 1);
    }
}

proof fn lemma_entries_fold_len(dec: Seq<u8>, entries: Seq<(Seq<char>, Seq<char>)>, k: int)
    requires
        0 <= k <= entries.len(),
        dec.len() <= usize::MAX,
    ensures
        entries_fold(dec, entries, k).0.data.len() == dec.len(),
        entries_fold(dec, entries, k).0.taken.finite(),
    decreases k,
{
    if k > 0 {
        lemma_entries_fold_len(dec, entries, k - 1);
        let (prev, bad) = entries_fold(dec, entries, k - 1);
        let e = entries[k - 1];
        if bad is None && label_ok(e.1) {
            lemma_near_patch_taken(prev.data, e.0, encode_utf8(e.0), encode_utf8(e.1), prev.taken);
        }
    }
}

/// A patch set changes nothing but the 16-byte windows at the positions it replaced:
/// every other byte of the data stays as it was, and it replaced as many positions as
/// it counts.
pub proof fn lemma_set_changes_confined(dec: Seq<u8>, set: SetView)
    requires
        dec.len() <= usize::MAX,
    ensures
        ({
            let st = set_patch(dec, set).0;
            &&& st.data.len() == dec.len()
            &&& st.taken.finite()
            &&& st.taken.len() == st.count
            &&& forall|i: int|
                0 <= i < dec.len() ==> #[trigger] st.data[i] == dec[i] || exists|p: usize|
                    st.taken.contains(p) && p <= i < p + 16
        }),
{
    lemma_entries_confined(dec, set.1, set.1.len() as int);
}

proof fn lemma_entries_confined(dec: Seq<u8>, entries: Seq<(Seq<char>, Seq<char>)>, k: int)
    requires
        0 <= k <= entries.len(),
        dec.len() <= usize::MAX,
    ensures
        ({
            let st = entries_fold(dec, entries, k).0;
            &&& st.data.len() == dec.len()
            &&& st.taken.finite()
            &&& st.taken.len() == st.count
            &&& forall|i: int|
                0 <= i < dec.len() ==> #[trigger] st.data[i] == dec[i] || exists|p: usize|
                    st.taken.contains(p) && p <= i < p + 16
        }),
    decreases k,
{
    if k > 0 {
        lemma_entries_confined(dec, entries, k - 1);
        let (prev, bad) = entries_fold(dec, entries, k - 1);
        let e = entries[k - 1];
        if bad is None && label_ok(e.1) {
            let nb = encode_utf8(e.0);
            let rb = encode_utf8(e.1);
            lemma_near_patch_taken(prev.data, e.0, nb, rb, prev.taken);
            lemma_near_patch_labels(prev.data, e.0, nb, rb, prev.taken);
            let r = near_patch(prev.data, e.0, nb, rb, prev.taken);
            let st = entries_fold(dec, entries, k).0;
            assert forall|i: int| 0 <= i < dec.len() implies #[trigger] st.data[i] == dec[i]
                || exists|p: usize| st.taken.contains(p) && p <= i < p + 16 by {
                if st.data[i] != dec[i] {
                    if r.data[i] != prev.data[i] {
                        let p = choose|p: usize|
                            r.taken.contains(p) && !prev.taken.contains(p) && p <= i < p + 16;
                        assert(st.taken.contains(p));
                    } else {
                        assert(prev.data[i] != dec[i]);
                        let p = choose|p: usize| prev.taken.contains(p) && p <= i < p + 16;
                        assert(st.taken.contains(p));
                    }
                }
            }
        }
    }
}

/// When a trial ends with a fitting candidate, that candidate fits the slot and
/// decompresses to the patched data, which has the input's length, at least three
/// replacements and no target placeholder left.
pub proof fn lemma_trial_fit(
    dec: Seq<u8>,
    set: SetView,
    best0: Option<(Seq<char>, Seq<char>, nat)>,
    c: int,
)
    requires
        trial(dec, set, best0).end == Some(SetEnd::Fit(c)),
        dec.len() <= usize::MAX,
    ensures
        ({
            let st = set_patch(dec, set).0;
            let cands = sorted_candidates(st.data);
            &&& 0 <= c < cands.len()
            &&& cands[c].1.len() <= PACKED_SIZE
            &&& zlib_decoded(cands[c].1) == Some(st.data)
            &&& st.count >= 3
            &&& target_dnt(st.data).0 == 0
            &&& st.data.len() == dec.len()
        }),
{
    let st = set_patch(dec, set).0;
    let cands = sorted_candidates(st.data);
    lemma_entries_fold_len(dec, set.1, set.1.len() as int);
    lemma_cand_fold_end(set.0, st.data, cands, best0, cands.len() as int);
}

/// `res` is what the search over `sets` ends with: the chosen candidate of the set
/// whose trial found one, the error of the trial that failed, or, when every set was
/// rejected or had no fitting candidate, the smallest too-large candidate
/// (`NoFit`), or `NothingPrepared` when there was none.
pub open spec fn search_outcome(
    dec: Seq<u8>,
    sets: Seq<SetView>,
    res: Result<BestCandidate, PatchError>,
) -> bool {
    let s = search(dec, sets, sets.len() as int);
    match res {
        Ok(b) => s.end matches Some((i, SetEnd::Fit(c))) && is_chosen(b, dec, sets[i], c),
        Err(e) => match s.end {
            Some((i, end)) => end_error(dec, sets[i], end, e),
            None => match s.best {
                Some(t) => e matches PatchError::NoFit { patch_set, compression, size } && patch_set@
                    == t.0 && compression@ == t.1 && size == t.2,
                None => e is NothingPrepared,
            },
        },
    }
}

/// What makes a chosen candidate usable: it fits the slot, decompresses to the patched
/// data, which is as long as the input, took at least three replacements and has no
/// target placeholder left.
pub open spec fn fit_for_slot(b: BestCandidate, dec: Seq<u8>) -> bool {
    &&& b.bytes@.len() <= PACKED_SIZE
    &&& zlib_decoded(b.bytes@) == Some(b.patched_dec@)
    &&& b.total_patched >= 3
    &&& target_dnt(b.patched_dec@).0 == 0
    &&& b.patched_dec@.len() == dec.len()
}

/// Tries the patch sets in order and returns the first that can be applied, leaves no
/// target placeholder, and has a compressed form that fits the slot (the smallest of
/// its candidates that fits). Otherwise reports the smallest candidate that was too
/// large, or that nothing could be prepared; a failing step ends the search with its
/// error.
pub fn find_best_patch_and_compression(
    dec: &[u8],
    patch_sets: &[PatchSet],
    log: &mut String,
) -> (res: Result<BestCandidate, PatchError>)
    requires
        countable(dec@.len() as int),
    ensures
        appends_lines(
            old(log)@,
            final(log)@,
            search(dec@, set_views(patch_sets@), patch_sets@.len() as int).texts,
        ),
        search_outcome(dec@, set_views(patch_sets@), res),
        res matches Ok(b) ==> fit_for_slot(b, dec@),
{
    let ghost log0 = log@;
    let ghost sets = set_views(patch_sets@);
    proof {
        lemma_appends_none(log0);
    }
    let mut best_too_large: Option<(String, String, usize)> = None;
    let n = patch_sets.len();
    let mut i: usize = 0;
    while i < n
        invariant
            n == sets.len(),
            sets == set_views(patch_sets@),
            i <= n,
            countable(dec@.len() as int),
            log0 == old(log)@,
            search(dec@, sets, i as int).end is None,
            best_view(best_too_large) == search(dec@, sets, i as int).best,
            appends_lines(log0, log@, search(dec@, sets, i as int).texts),
        decreases n - i,
    {
        let ghost prev = search(dec@, sets, i as int);
        let ghost lp = log@;
        let r = try_patch_set(dec, &patch_sets[i], &mut best_too_large, log);
        let ghost t = trial(dec@, sets[i as int], prev.best);
        proof {
            lemma_appends_chain(log0, lp, log@, prev.texts, t.texts);
        }
        match r {
            None => {},
            Some(x) => {
                proof {
                    lemma_search_stops(dec@, sets, i as int + 1, n as int);
                    if let Some(SetEnd::Fit(c)) = t.end {
                        lemma_trial_fit(dec@, sets[i as int], prev.best, c);
                    }
                }
                return x;
            },
        }
        i = i + 1;
    }
    match best_too_large {
        Some((patch_set, compression, size)) => Err(
            PatchError::NoFit { patch_set, compression, size },
        ),
        None => Err(PatchError::NothingPrepared),
    }
}

proof fn lemma_search_stops(dec: Seq<u8>, sets: Seq<SetView>, k: int, n: int)
    requires
        0 <= k <= n,
        search(dec, sets, k).end is Some,
    ensures
        search(dec, sets, n) == search(dec, sets, k),
    decreases n - k,
{
    if k < n {
        lemma_search_stops(dec, sets, k, n - 1);
    }
}

} // verus!

verus! {

proof fn lemma_fit_first(
    set_name: Seq<char>,
    patched: Seq<u8>,
    cands: Seq<(Seq<char>, Seq<u8>)>,
    best0: Option<(Seq<char>, Seq<char>, nat)>,
    k: int,
)
    requires
        sorted_by_len(cands),
        0 <= k <= cands.len(),
    ensures
        cand_fold(set_name, patched, cands, best0, k).end matches Some(SetEnd::Fit(c)) ==> c == 0,
        cand_fold(set_name, patched, cands, best0, k).end is None ==> forall|j: int|
            0 <= j < k ==> #[trigger] cands[j].1.len() > PACKED_SIZE,
    decreases k,
{
    if k > 0 {
        lemma_fit_first(set_name, patched, cands, best0, k - 1);
        if k - 1 > 0 {
            assert(cands[0].1.len() <= cands[k - 1].1.len());
        }
    }
}

/// The chosen compressed form is no larger than what any compression method made of
/// the patched data: the smallest candidate is taken when it fits.
pub proof fn lemma_chosen_is_smallest(
    dec: Seq<u8>,
    set: SetView,
    best0: Option<(Seq<char>, Seq<char>, nat)>,
    c: int,
)
    requires
        trial(dec, set, best0).end == Some(SetEnd::Fit(c)),
    ensures
        ({
            let st = set_patch(dec, set).0;
            let raw = raw_candidates(st.data);
            forall|k: int|
                0 <= k < raw.len() ==> sorted_candidates(st.data)[c].1.len() <= (
                #[trigger] raw[k]).1.unwrap().len()
        }),
{
    broadcast use vstd::seq_lib::group_to_multiset_ensures;

    let st = set_patch(dec, set).0;
    let raw = raw_candidates(st.data);
    let flat = raw.map_values(|r: (Seq<char>, Option<Seq<u8>>, bool)| (r.0, r.1.unwrap()));
    let cands = sorted_candidates(st.data);
    lemma_sort_by_len(flat);
    lemma_fit_first(set.0, st.data, cands, best0, cands.len() as int);
    assert forall|k: int| 0 <= k < raw.len() implies cands[c].1.len() <= (
    #[trigger] raw[k]).1.unwrap().len() by {
        let e = flat[k];
        assert(flat.to_multiset().contains(e));
        assert(cands.to_multiset().contains(e));
        let j = choose|j: int| 0 <= j < cands.len() && cands[j] == e;
        assert(cands[0].1.len() <= cands[j].1.len());
    }
}

/// The fallback sets are used only when the standard set gives nothing: when the first
/// set's trial finds a fitting candidate, that is the search's result.
pub proof fn lemma_first_set_preferred(dec: Seq<u8>, sets: Seq<SetView>, c: int)
    requires
        sets.len() > 0,
        trial(dec, sets[0], None).end == Some(SetEnd::Fit(c)),
    ensures
        search(dec, sets, sets.len() as int).end == Some((0int, SetEnd::Fit(c))),
{
    let s0 = search(dec, sets, 0);
    assert(s0.end is None && s0.best is None);
    let t = trial(dec, sets[0], s0.best);
    assert(t.end == Some(SetEnd::Fit(c)));
    let s1 = search(dec, sets, 1);
    assert(s1.end == Some((0int, SetEnd::Fit(c))));
    lemma_search_stops(dec, sets, 1, sets.len() as int);
}

} // verus!

verus! {

/// A set qualifies on `dec`: it applies with usable replacements, makes at least three
/// replacements, leaves no target placeholder, every compression method succeeds on the
/// patched data, and the smallest compressed form fits the slot.
pub open spec fn qualifies(dec: Seq<u8>, set: SetView) -> bool {
    let (st, bad) = set_patch(dec, set);
    &&& bad is None
    &&& st.count >= 3
    &&& target_dnt(st.data).0 == 0
    &&& first_failure_from(raw_candidates(st.data), 0) is None
    &&& sorted_candidates(st.data)[0].1.len() <= PACKED_SIZE
}

/// No step of the set's trial fails: its replacements are usable and, once it reaches
/// compression, every method succeeds and every candidate that is checked decompresses
/// back to the patched data (the smallest one when it fits the slot, else all of them).
pub open spec fn runs_clean(dec: Seq<u8>, set: SetView) -> bool {
    let (st, bad) = set_patch(dec, set);
    let cands = sorted_candidates(st.data);
    &&& bad is None
    &&& (st.count >= 3 && target_dnt(st.data).0 == 0) ==> {
        &&& first_failure_from(raw_candidates(st.data), 0) is None
        &&& if cands[0].1.len() <= PACKED_SIZE {
            zlib_decoded(cands[0].1) == Some(st.data)
        } else {
            forall|j: int| 0 <= j < cands.len() ==> zlib_decoded(#[trigger] cands[j].1) == Some(st.data)
        }
    }
}

/// The index of the first of the first `k` sets that qualifies.
pub open spec fn first_qualifying(dec: Seq<u8>, sets: Seq<SetView>, k: int) -> Option<int>
    decreases k,
{
    if k <= 0 {
        None
    } else {
        match first_qualifying(dec, sets, k - 1) {
            Some(i) => Some(i),
            None => if qualifies(dec, sets[k - 1]) {
                Some(k - 1)
            } else {
                None
            },
        }
    }
}

proof fn lemma_candidates_len(d: Seq<u8>)
    ensures
        sorted_candidates(d).len() == 17,
{
    broadcast use vstd::seq_lib::group_to_multiset_ensures;

    let flat = raw_candidates(d).map_values(
        |r: (Seq<char>, Option<Seq<u8>>, bool)| (r.0, r.1.unwrap()),
    );
    assert(zopfli_options().len() == 8);
    assert(raw_candidates(d).len() == 17);
    assert(flat.len() == 17);
    lemma_sort_by_len(flat);
    let sorted = sorted_candidates(d);
    assert(sorted.to_multiset().len() == sorted.len());
    assert(flat.to_multiset().len() == flat.len());
}

proof fn lemma_cand_fold_fits_first(
    set_name: Seq<char>,
    patched: Seq<u8>,
    cands: Seq<(Seq<char>, Seq<u8>)>,
    best0: Option<(Seq<char>, Seq<char>, nat)>,
    k: int,
)
    requires
        1 <= k <= cands.len(),
        cands[0].1.len() <= PACKED_SIZE,
        zlib_decoded(cands[0].1) == Some(patched),
    ensures
        cand_fold(set_name, patched, cands, best0, k).end == Some(SetEnd::Fit(0)),
    decreases k,
{
    if k > 1 {
        lemma_cand_fold_fits_first(set_name, patched, cands, best0, k - 1);
    } else {
        assert(cand_fold(set_name, patched, cands, best0, 0).end is None);
    }
}

proof fn lemma_cand_fold_none_fit(
    set_name: Seq<char>,
    patched: Seq<u8>,
    cands: Seq<(Seq<char>, Seq<u8>)>,
    best0: Option<(Seq<char>, Seq<char>, nat)>,
    k: int,
)
    requires
        0 <= k <= cands.len(),
        forall|j: int| 0 <= j < cands.len() ==> #[trigger] cands[j].1.len() > PACKED_SIZE,
        forall|j: int| 0 <= j < cands.len() ==> zlib_decoded(#[trigger] cands[j].1) == Some(patched),
    ensures
        cand_fold(set_name, patched, cands, best0, k).end is None,
    decreases k,
{
    if k > 0 {
        lemma_cand_fold_none_fit(set_name, patched, cands, best0, k - 1);
        assert(cands[k - 1].1.len() > PACKED_SIZE);
        assert(zlib_decoded(cands[k - 1].1) == Some(patched));
    }
}

/// A set whose trial runs clean ends with its smallest candidate when it qualifies, and
/// does not end the search otherwise.
proof fn lemma_trial_clean(dec: Seq<u8>, set: SetView, best0: Option<(Seq<char>, Seq<char>, nat)>)
    requires
        runs_clean(dec, set),
    ensures
        trial(dec, set, best0).end == (if qualifies(dec, set) {
            Some(SetEnd::Fit(0))
        } else {
            None::<SetEnd>
        }),
{
    let (st, bad) = set_patch(dec, set);
    if st.count >= 3 && target_dnt(st.data).0 == 0 {
        let cands = sorted_candidates(st.data);
        lemma_candidates_len(st.data);
        let flat = raw_candidates(st.data).map_values(
            |r: (Seq<char>, Option<Seq<u8>>, bool)| (r.0, r.1.unwrap()),
        );
        lemma_sort_by_len(flat);
        if cands[0].1.len() <= PACKED_SIZE {
            lemma_cand_fold_fits_first(set.0, st.data, cands, best0, cands.len() as int);
        } else {
            assert forall|j: int| 0 <= j < cands.len() implies #[trigger] cands[j].1.len()
                > PACKED_SIZE by {
                if j > 0 {
                    assert(cands[0].1.len() <= cands[j].1.len());
                }
            }
            lemma_cand_fold_none_fit(set.0, st.data, cands, best0, cands.len() as int);
        }
    }
}

proof fn lemma_search_clean(dec: Seq<u8>, sets: Seq<SetView>, k: int)
    requires
        0 <= k <= sets.len(),
        forall|i: int| 0 <= i < sets.len() ==> runs_clean(dec, #[trigger] sets[i]),
    ensures
        search(dec, sets, k).end == match first_qualifying(dec, sets, k) {
            Some(i) => Some((i, SetEnd::Fit(0))),
            None => None::<(int, SetEnd)>,
        },
        first_qualifying(dec, sets, k) matches Some(i) ==> {
            &&& 0 <= i < k
            &&& qualifies(dec, sets[i])
            &&& forall|j: int| 0 <= j < i ==> !qualifies(dec, #[trigger] sets[j])
        },
        first_qualifying(dec, sets, k) is None ==> forall|j: int|
            0 <= j < k ==> !qualifies(dec, #[trigger] sets[j]),
    decreases k,
{
    if k > 0 {
        lemma_search_clean(dec, sets, k - 1);
        let prev = search(dec, sets, k - 1);
        if prev.end is None {
            assert(runs_clean(dec, sets[k - 1]));
            lemma_trial_clean(dec, sets[k - 1], prev.best);
        }
    }
}

/// When no step of any set's trial fails, the search has a result exactly when some set
/// qualifies, and then the result comes from the first set that qualifies, with the
/// smallest compressed form of its patched data.
pub proof fn lemma_first_qualifying_set(
    dec: Seq<u8>,
    sets: Seq<SetView>,
    res: Result<BestCandidate, PatchError>,
)
    requires
        forall|i: int| 0 <= i < sets.len() ==> runs_clean(dec, #[trigger] sets[i]),
        search_outcome(dec, sets, res),
    ensures
        res is Ok <==> exists|i: int| 0 <= i < sets.len() && qualifies(dec, #[trigger] sets[i]),
        res matches Ok(b) ==> exists|i: int|
            {
                &&& 0 <= i < sets.len()
                &&& qualifies(dec, #[trigger] sets[i])
                &&& forall|j: int| 0 <= j < i ==> !qualifies(dec, #[trigger] sets[j])
                &&& is_chosen(b, dec, sets[i], 0)
            },
{
    lemma_search_clean(dec, sets, sets.len() as int);
    match first_qualifying(dec, sets, sets.len() as int) {
        Some(i) => {
            assert(qualifies(dec, sets[i]));
        },
        None => {},
    }
}

proof fn lemma_cand_end_indep(
    set_name: Seq<char>,
    patched: Seq<u8>,
    cands: Seq<(Seq<char>, Seq<u8>)>,
    b1: Option<(Seq<char>, Seq<char>, nat)>,
    b2: Option<(Seq<char>, Seq<char>, nat)>,
    k: int,
)
    ensures
        cand_fold(set_name, patched, cands, b1, k).end == cand_fold(
            set_name,
            patched,
            cands,
            b2,
            k,
        ).end,
    decreases k,
{
    if k > 0 {
        lemma_cand_end_indep(set_name, patched, cands, b1, b2, k - 1);
    }
}

proof fn lemma_search_ends_alone(dec: Seq<u8>, sets: Seq<SetView>, k: int)
    requires
        0 <= k <= sets.len(),
    ensures
        search(dec, sets, k).end matches Some((i, e)) ==> 0 <= i < k && trial(
            dec,
            sets[i],
            None,
        ).end == Some(e),
    decreases k,
{
    if k > 0 {
        lemma_search_ends_alone(dec, sets, k - 1);
        let prev = search(dec, sets, k - 1);
        if prev.end is None {
            let st = set_patch(dec, sets[k - 1]).0;
            let cands = sorted_candidates(st.data);
            lemma_cand_end_indep(sets[k - 1].0, st.data, cands, prev.best, None, cands.len() as int);
        }
    }
}

/// Every set starts afresh from the unchanged input with no position taken: the set
/// that gives the result gives the same end when tried alone, and the chosen data and
/// count are its entries applied in order to the input from an empty set of positions.
pub proof fn lemma_sets_start_fresh(
    dec: Seq<u8>,
    sets: Seq<SetView>,
    res: Result<BestCandidate, PatchError>,
)
    requires
        search_outcome(dec, sets, res),
    ensures
        forall|e: Seq<(Seq<char>, Seq<char>)>|
            #![trigger entries_fold(dec, e, 0)]
            entries_fold(dec, e, 0).0.data == dec && entries_fold(dec, e, 0).0.taken
                == Set::<usize>::empty() && entries_fold(dec, e, 0).0.count == 0,
        res matches Ok(b) ==> exists|i: int, c: int|
            {
                &&& 0 <= i < sets.len()
                &&& trial(dec, sets[i], None).end == Some(SetEnd::Fit(c))
                &&& #[trigger] is_chosen(b, dec, sets[i], c)
                &&& b.patched_dec@ == entries_fold(dec, sets[i].1, sets[i].1.len() as int).0.data
                &&& b.total_patched == entries_fold(dec, sets[i].1, sets[i].1.len() as int).0.count
            },
{
    lemma_search_ends_alone(dec, sets, sets.len() as int);
}

} // verus!

verus! {

proof fn lemma_fold_clean_prefix(dec: Seq<u8>, entries: Seq<(Seq<char>, Seq<char>)>, j: int, n: int)
    requires
        0 <= j < n <= entries.len(),
        entries_fold(dec, entries, n).1 is None,
    ensures
        entries_fold(dec, entries, j).1 is None,
        label_ok(entries[j].1),
    decreases n - j,
{
    if j < n - 1 {
        lemma_fold_clean_prefix(dec, entries, j, n - 1);
    }
}

proof fn lemma_entries_taken_grow(
    dec: Seq<u8>,
    entries: Seq<(Seq<char>, Seq<char>)>,
    j: int,
    n: int,
)
    requires
        0 <= j <= n <= entries.len(),
        dec.len() <= usize::MAX,
    ensures
        entries_fold(dec, entries, j).0.taken.subset_of(entries_fold(dec, entries, n).0.taken),
    decreases n - j,
{
    if j < n {
        lemma_entries_taken_grow(dec, entries, j, n - 1);
        let (prev, bad) = entries_fold(dec, entries, n - 1);
        let e = entries[n - 1];
        if bad is None && label_ok(e.1) {
            lemma_entries_fold_len(dec, entries, n - 1);
            lemma_near_patch_labels(prev.data, e.0, encode_utf8(e.0), encode_utf8(e.1), prev.taken);
        }
    }
}

/// Every entry of a set is applied, in order: for each entry, each occurrence of its
/// English name that has a free placeholder starting 16 to 80 bytes before it, in the
/// data as that entry finds it, gets a placeholder in that window replaced by the
/// entry's label; the position stays taken to the end, where the count includes it.
pub proof fn lemma_set_applies_every_entry(dec: Seq<u8>, set: SetView, j: int, e: int, p: int)
    requires
        dec.len() <= usize::MAX,
        0 <= j < set.1.len(),
        set_patch(dec, set).1 is None,
        encode_utf8(set.1[j].0).len() > 0,
        occurs_at(entries_fold(dec, set.1, j).0.data, encode_utf8(set.1[j].0), e),
        occurs_at(entries_fold(dec, set.1, j).0.data, placeholder_bytes(), p),
        16 <= e - p <= 80,
        !entries_fold(dec, set.1, j).0.taken.contains(p as usize),
    ensures
        exists|q: usize|
            {
                &&& 16 <= e - q <= 80
                &&& !entries_fold(dec, set.1, j).0.taken.contains(q)
                &&& #[trigger] set_patch(dec, set).0.taken.contains(q)
                &&& entries_fold(dec, set.1, j + 1).0.data.subrange(q as int, q + 16) == encode_utf8(
                    set.1[j].1,
                )
            },
        set_patch(dec, set).0.count == set_patch(dec, set).0.taken.len(),
{
    let entries = set.1;
    let n = entries.len() as int;
    lemma_fold_clean_prefix(dec, entries, j, n);
    lemma_entries_fold_len(dec, entries, j);
    let before = entries_fold(dec, entries, j).0;
    let ent = entries[j];
    lemma_near_patch_serves_every_occurrence(
        before.data,
        ent.0,
        encode_utf8(ent.0),
        encode_utf8(ent.1),
        before.taken,
        e,
        p,
    );
    let r = near_patch(before.data, ent.0, encode_utf8(ent.0), encode_utf8(ent.1), before.taken);
    let q = choose|q: usize|
        {
            &&& 16 <= e - q <= 80
            &&& #[trigger] near_patch(
                before.data,
                ent.0,
                encode_utf8(ent.0),
                encode_utf8(ent.1),
                before.taken,
            ).taken.contains(q)
            &&& !before.taken.contains(q)
            &&& occurs_at(before.data, placeholder_bytes(), q as int)
            &&& near_patch(
                before.data,
                ent.0,
                encode_utf8(ent.0),
                encode_utf8(ent.1),
                before.taken,
            ).data.subrange(q as int, q + 16) == encode_utf8(ent.1)
        };
    let after = entries_fold(dec, entries, j + 1).0;
    assert(after.taken == r.taken);
    assert(after.data == r.data);
    lemma_entries_taken_grow(dec, entries, j + 1, n);
    assert(set_patch(dec, set).0.taken.contains(q));
    lemma_set_changes_confined(dec, set);
}

} // verus!
