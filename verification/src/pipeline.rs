//! The decisions of a patch run: reading the slot, checking it, choosing the patch,
//! building the new file contents, checking what was written, and the run's outcome.
use vstd::prelude::*;
use crate::codec::{decompress_zlib, zlib_decoded};
use crate::count::{
    count_target_dnt,
    countable,
    lemma_target_dnt_fits,
    looks_already_patched,
    looks_patched,
    target_dnt,
};
use crate::error::{PatchError, EXPECTED_UNPACKED_SIZE, PACKED_SIZE};
use crate::log::{appends_lines, lemma_appends_chain, lemma_appends_none, log_line, log_more};
use crate::patch::{patch_sets, patch_sets_spec, set_views};
use crate::select::{
    find_best_patch_and_compression,
    fit_for_slot,
    search,
    search_outcome,
    BestCandidate,
};
use crate::text::{append_decimal, append_hex, dec, hex, owned};

verus! {

/// Where the packed slot starts in the data file.
pub const OFFSET: usize = 0x53963;

/// The program version written at the top of every log.
pub const APP_VERSION: &'static str = "1.3.0";

/// Whether a run only checks or also writes the file.
pub enum RunMode {
    DryRun,
    PatchWrite,
}

impl RunMode {
    /// The mode as `{:?}` prints it.
    pub fn debug_name(&self) -> (s: &'static str)
        ensures
            s@ == match self {
                RunMode::DryRun => "DryRun"@,
                RunMode::PatchWrite => "PatchWrite"@,
            },
    {
        match self {
            RunMode::DryRun => "DryRun",
            RunMode::PatchWrite => "PatchWrite",
        }
    }
}

/// The slot's bytes in the whole file.
pub open spec fn slot_bytes(whole: Seq<u8>) -> Seq<u8> {
    whole.subrange(OFFSET as int, OFFSET + PACKED_SIZE)
}

/// `Offset: 0x53963` and `Packed size: 24499`.
pub open spec fn slot_info_texts() -> Seq<Seq<char>> {
    seq!["Offset: 0x"@ + hex(OFFSET as nat), "Packed size: "@ + dec(PACKED_SIZE as nat)]
}

/// Logs where the slot is and how large it is.
pub fn log_slot_info(log: &mut String)
    ensures
        appends_lines(old(log)@, final(log)@, slot_info_texts()),
{
    let ghost log0 = log@;
    proof {
        lemma_appends_none(log0);
    }
    let mut a = owned("Offset: 0x");
    append_hex(&mut a, OFFSET);
    log_more(log, a.as_str(), Ghost(log0), Ghost(Seq::empty()));
    let mut b = owned("Packed size: ");
    append_decimal(&mut b, PACKED_SIZE);
    let ghost t = seq![a@];
    log_more(log, b.as_str(), Ghost(log0), Ghost(t));
    assert(t.push(b@) =~= slot_info_texts());
}

/// What a check of the file found.
pub enum Prepared {
    /// No target placeholder is left and a replacement label is present.
    AlreadyPatched,
    /// A dry run found this candidate; nothing is to be written.
    Tested(BestCandidate),
    /// This candidate is to be written.
    ToWrite(BestCandidate),
}

/// The log texts of the check before patching: the decompressed size, the check's
/// heading, the remaining placeholders and their count.
pub open spec fn before_texts(unpacked: Seq<u8>) -> Seq<Seq<char>> {
    seq!["Decompressed size: "@ + dec(unpacked.len())] + seq![""@, "===== BEFORE CHECK ====="@]
        + target_dnt(unpacked).1 + seq![
        "Target nearby DNT count before patch: "@ + dec(target_dnt(unpacked).0),
    ]
}

/// The log texts that describe the chosen candidate.
pub open spec fn selected_texts(b: BestCandidate) -> Seq<Seq<char>> {
    seq![
        ""@,
        "===== SELECTED RESULT ====="@,
        "Patch set: "@ + b.patch_set_name@,
        "Compression: "@ + b.compression_name@,
        "Compressed size: "@ + dec(b.bytes@.len()) + " / "@ + dec(PACKED_SIZE as nat),
        "Total patched in memory: "@ + dec(b.total_patched as nat),
    ]
}

/// The search's result as the check reports it: a found candidate for the mode.
pub open spec fn prepared_from(
    mode: RunMode,
    found: Result<BestCandidate, PatchError>,
    res: Result<Prepared, PatchError>,
) -> bool {
    match found {
        Ok(b) => match mode {
            RunMode::DryRun => res == Ok::<Prepared, PatchError>(Prepared::Tested(b)),
            RunMode::PatchWrite => res == Ok::<Prepared, PatchError>(Prepared::ToWrite(b)),
        },
        Err(e) => res == Err::<Prepared, PatchError>(e),
    }
}

fn selected_lines(b: &BestCandidate, log: &mut String)
    ensures
        appends_lines(old(log)@, final(log)@, selected_texts(*b)),
{
    let ghost log0 = log@;
    proof {
        lemma_appends_none(log0);
    }
    let ghost t0 = Seq::<Seq<char>>::empty();
    log_more(log, "", Ghost(log0), Ghost(t0));
    let ghost t1 = t0.push(""@);
    log_more(log, "===== SELECTED RESULT =====", Ghost(log0), Ghost(t1));
    let ghost t2 = t1.push("===== SELECTED RESULT ====="@);
    let mut a = owned("Patch set: ");
    a.append(b.patch_set_name.as_str());
    log_more(log, a.as_str(), Ghost(log0), Ghost(t2));
    let ghost t3 = t2.push(a@);
    let mut c = owned("Compression: ");
    c.append(b.compression_name.as_str());
    log_more(log, c.as_str(), Ghost(log0), Ghost(t3));
    let ghost t4 = t3.push(c@);
    let mut d = owned("Compressed size: ");
    append_decimal(&mut d, b.bytes.len());
    d.append(" / ");
    append_decimal(&mut d, PACKED_SIZE);
    log_more(log, d.as_str(), Ghost(log0), Ghost(t4));
    let ghost t5 = t4.push(d@);
    let mut e = owned("Total patched in memory: ");
    append_decimal(&mut e, b.total_patched);
    log_more(log, e.as_str(), Ghost(log0), Ghost(t5));
    assert(t5.push(e@) =~= selected_texts(*b));
}

/// Checks the slot of the data file and chooses the patch: the slot must decompress
/// to the expected size and still hold target placeholders (or look patched already);
/// then the patch sets are tried. Logs every step.
pub fn prepare_patch(
    whole: &[u8],
    mode: RunMode,
    allow_compact_names: bool,
    log: &mut String,
) -> (res: Result<Prepared, PatchError>)
    ensures
        whole@.len() < OFFSET + PACKED_SIZE ==> res is Err && res->Err_0 is FileTooSmall
            && final(log)@ == old(log)@,
        whole@.len() >= OFFSET + PACKED_SIZE ==> match zlib_decoded(slot_bytes(whole@)) {
            None => res is Err && res->Err_0 is SlotNotZlib && final(log)@ == old(log)@,
            Some(unpacked) => if unpacked.len() != EXPECTED_UNPACKED_SIZE {
                &&& res matches Err(PatchError::UnexpectedSize { size }) && size == unpacked.len()
                &&& appends_lines(old(log)@, final(log)@, seq!["Decompressed size: "@ + dec(unpacked.len())])
            } else if target_dnt(unpacked).0 == 0 {
                &&& appends_lines(old(log)@, final(log)@, before_texts(unpacked))
                &&& if looks_patched(unpacked) {
                    res == Ok::<Prepared, PatchError>(Prepared::AlreadyPatched)
                } else {
                    res is Err && res->Err_0 is NoPlaceholders
                }
            } else {
                let sets = patch_sets_spec(allow_compact_names);
                let s = search(unpacked, sets, sets.len() as int);
                exists|found: Result<BestCandidate, PatchError>|
                    {
                        &&& search_outcome(unpacked, sets, found)
                        &&& prepared_from(mode, found, res)
                        &&& found matches Ok(b) ==> fit_for_slot(b, unpacked)
                        &&& appends_lines(
                            old(log)@,
                            final(log)@,
                            before_texts(unpacked) + s.texts + match found {
                                Ok(b) => selected_texts(b),
                                Err(_) => Seq::empty(),
                            },
                        )
                    }
            },
        },
{
    let ghost log0 = log@;
    let wl = whole.len();
    if wl < OFFSET + PACKED_SIZE {
        return Err(PatchError::FileTooSmall);
    }
    let raw = vstd::slice::slice_subrange(whole, OFFSET, OFFSET + PACKED_SIZE);
    let dec_data = match decompress_zlib(raw) {
        Ok(d) => d,
        Err(detail) => {
            return Err(PatchError::SlotNotZlib { detail });
        },
    };
    let ghost d = dec_data@;
    let mut m = owned("Decompressed size: ");
    append_decimal(&mut m, dec_data.len());
    log_line(log, m.as_str());
    let ghost t1 = seq![m@];
    if dec_data.len() != EXPECTED_UNPACKED_SIZE {
        return Err(PatchError::UnexpectedSize { size: dec_data.len() });
    }
    log_more(log, "", Ghost(log0), Ghost(t1));
    let ghost t2 = t1.push(""@);
    log_more(log, "===== BEFORE CHECK =====", Ghost(log0), Ghost(t2));
    let ghost t3 = t2.push("===== BEFORE CHECK ====="@);
    let ghost l3 = log@;
    proof {
        lemma_target_dnt_fits(d);
    }
    let before_remaining = count_target_dnt(dec_data.as_slice(), log);
    proof {
        lemma_appends_chain(log0, l3, log@, t3, target_dnt(d).1);
    }
    let mut c = owned("Target nearby DNT count before patch: ");
    append_decimal(&mut c, before_remaining);
    let ghost t4 = t3 + target_dnt(d).1;
    log_more(log, c.as_str(), Ghost(log0), Ghost(t4));
    assert(t4.push(c@) =~= before_texts(d));
    if before_remaining == 0 {
        if looks_already_patched(dec_data.as_slice()) {
            return Ok(Prepared::AlreadyPatched);
        }
        return Err(PatchError::NoPlaceholders);
    }
    let sets = patch_sets(allow_compact_names);
    let ghost l4 = log@;
    let found = find_best_patch_and_compression(dec_data.as_slice(), sets.as_slice(), log);
    let ghost svs = set_views(sets@);
    let ghost s = search(d, svs, svs.len() as int);
    proof {
        lemma_appends_chain(log0, l4, log@, before_texts(d), s.texts);
    }
    match found {
        Ok(best) => {
            let ghost l5 = log@;
            selected_lines(&best, log);
            proof {
                lemma_appends_chain(log0, l5, log@, before_texts(d) + s.texts, selected_texts(best));
            }
            match mode {
                RunMode::DryRun => Ok(Prepared::Tested(best)),
                RunMode::PatchWrite => Ok(Prepared::ToWrite(best)),
            }
        },
        Err(e) => {
            proof {
                assert(before_texts(d) + s.texts + Seq::<Seq<char>>::empty() =~= before_texts(d)
                    + s.texts);
            }
            Err(e)
        },
    }
}

} // verus!

verus! {

/// The file contents with the slot zeroed and `bytes` written at its start.
pub open spec fn spliced(whole: Seq<u8>, bytes: Seq<u8>) -> Seq<u8> {
    Seq::new(
        whole.len(),
        |i: int|
            if OFFSET <= i < OFFSET + bytes.len() {
                bytes[i - OFFSET]
            } else if OFFSET <= i < OFFSET + PACKED_SIZE {
                0u8
            } else {
                whole[i]
            },
    )
}

/// The new file contents: the slot cleared to zeros, then the compressed bytes
/// written at its start; every byte outside the slot stays as it was.
pub fn splice_slot(whole: &[u8], bytes: &[u8]) -> (out: Vec<u8>)
    requires
        OFFSET + PACKED_SIZE <= whole@.len(),
        OFFSET + bytes@.len() <= whole@.len(),
    ensures
        out@ == spliced(whole@, bytes@),
{
    let mut out = vstd::slice::slice_to_vec(whole);
    let wl = whole.len();
    let ghost w = whole@;
    let mut i: usize = OFFSET;
    while i < OFFSET + PACKED_SIZE
        invariant
            OFFSET <= i <= OFFSET + PACKED_SIZE,
            OFFSET + PACKED_SIZE <= w.len(),
            out@.len() == w.len(),
            forall|t: int|
                0 <= t < w.len() ==> #[trigger] out@[t] == (if OFFSET <= t < i {
                    0u8
                } else {
                    w[t]
                }),
        decreases OFFSET + PACKED_SIZE - i,
    {
        out[i] = 0;
        i = i + 1;
    }
    let n = bytes.len();
    let mut j: usize = 0;
    while j < n
        invariant
            n == bytes@.len(),
            wl == w.len(),
            OFFSET + n <= w.len(),
            OFFSET + PACKED_SIZE <= w.len(),
            j <= n,
            out@.len() == w.len(),
            forall|t: int|
                0 <= t < w.len() ==> #[trigger] out@[t] == (if OFFSET <= t < OFFSET + j {
                    bytes@[t - OFFSET]
                } else if OFFSET <= t < OFFSET + PACKED_SIZE {
                    0u8
                } else {
                    w[t]
                }),
        decreases n - j,
    {
        out[OFFSET + j] = bytes[j];
        j = j + 1;
    }
    assert(out@ =~= spliced(w, bytes@));
    out
}

/// Writing a candidate that fits changes nothing outside the slot, and the slot then
/// holds the candidate followed by zeros.
pub proof fn lemma_splice(whole: Seq<u8>, bytes: Seq<u8>)
    requires
        OFFSET + PACKED_SIZE <= whole.len(),
        bytes.len() <= PACKED_SIZE,
    ensures
        spliced(whole, bytes).len() == whole.len(),
        slot_bytes(spliced(whole, bytes)) == bytes + Seq::new(
            (PACKED_SIZE - bytes.len()) as nat,
            |i: int| 0u8,
        ),
        forall|i: int|
            0 <= i < whole.len() && !(OFFSET <= i < OFFSET + PACKED_SIZE) ==> #[trigger] spliced(
                whole,
                bytes,
            )[i] == whole[i],
{
    assert(slot_bytes(spliced(whole, bytes)) =~= bytes + Seq::new(
        (PACKED_SIZE - bytes.len()) as nat,
        |i: int| 0u8,
    ));
}

/// The heading of the check of the written file.
pub open spec fn verify_heading() -> Seq<Seq<char>> {
    seq![""@, "===== VERIFY FROM DISK ====="@]
}

/// Logs the heading of the check of the written file, before the file is read back.
pub fn log_verify_heading(log: &mut String)
    ensures
        appends_lines(old(log)@, final(log)@, verify_heading()),
{
    let ghost log0 = log@;
    proof {
        lemma_appends_none(log0);
    }
    log_more(log, "", Ghost(log0), Ghost(Seq::empty()));
    let ghost t1 = seq![""@];
    assert(Seq::<Seq<char>>::empty().push(""@) =~= t1);
    log_more(log, "===== VERIFY FROM DISK =====", Ghost(log0), Ghost(t1));
    assert(t1.push("===== VERIFY FROM DISK ====="@) =~= verify_heading());
}

/// The log texts of the check of the written file after its heading, up to where it
/// stopped.
pub open spec fn verify_texts(whole: Seq<u8>, patched: Seq<u8>) -> Seq<Seq<char>> {
    match zlib_decoded(slot_bytes(whole)) {
        None => Seq::empty(),
        Some(v) => if v != patched {
            seq!["Verify decompressed size: "@ + dec(v.len())]
        } else {
            seq!["Verify decompressed size: "@ + dec(v.len())] + target_dnt(v).1 + seq![
                "Remaining nearby DNT after disk write: "@ + dec(target_dnt(v).0),
            ]
        },
    }
}

/// Checks the file as read back from disk: its slot must decompress to the patched
/// data, in which no target placeholder remains.
pub fn check_written(verify_whole: &[u8], best: &BestCandidate, log: &mut String) -> (res: Result<
    (),
    PatchError,
>)
    requires
        OFFSET + PACKED_SIZE <= verify_whole@.len(),
        countable(best.patched_dec@.len() as int),
    ensures
        appends_lines(old(log)@, final(log)@, verify_texts(verify_whole@, best.patched_dec@)),
        match zlib_decoded(slot_bytes(verify_whole@)) {
            None => res is Err && res->Err_0 is VerifyNotZlib,
            Some(v) => if v != best.patched_dec@ {
                res is Err && res->Err_0 is VerifyMismatch
            } else if target_dnt(v).0 != 0 {
                res is Err && res->Err_0 is StillPresent
            } else {
                res is Ok
            },
        },
{
    let ghost log0 = log@;
    proof {
        lemma_appends_none(log0);
    }
    let ghost t1 = Seq::<Seq<char>>::empty();
    let raw = vstd::slice::slice_subrange(verify_whole, OFFSET, OFFSET + PACKED_SIZE);
    let verify_dec = match decompress_zlib(raw) {
        Ok(d) => d,
        Err(detail) => {
            return Err(PatchError::VerifyNotZlib { detail });
        },
    };
    let mut m = owned("Verify decompressed size: ");
    append_decimal(&mut m, verify_dec.len());
    log_more(log, m.as_str(), Ghost(log0), Ghost(t1));
    let ghost t2 = t1.push(m@);
    if !crate::codec::bytes_equal(verify_dec.as_slice(), best.patched_dec.as_slice()) {
        return Err(PatchError::VerifyMismatch);
    }
    let ghost l2 = log@;
    proof {
        lemma_target_dnt_fits(verify_dec@);
    }
    let remaining_after = count_target_dnt(verify_dec.as_slice(), log);
    proof {
        lemma_appends_chain(log0, l2, log@, t2, target_dnt(verify_dec@).1);
    }
    let mut r = owned("Remaining nearby DNT after disk write: ");
    append_decimal(&mut r, remaining_after);
    let ghost t3 = t2 + target_dnt(verify_dec@).1;
    log_more(log, r.as_str(), Ghost(log0), Ghost(t3));
    assert(t3.push(r@) =~= verify_texts(verify_whole@, best.patched_dec@));
    if remaining_after != 0 {
        return Err(PatchError::StillPresent);
    }
    Ok(())
}

/// `Wygląda na to, że plik jest już spatchowany — nie wykonano zapisu.`
pub fn already_patched_message() -> (s: String)
    ensures
        s@ == "Wygląda na to, że plik jest już spatchowany — nie wykonano zapisu."@,
{
    owned("Wygląda na to, że plik jest już spatchowany — nie wykonano zapisu.")
}

/// `Test OK. Wybrano: {set} + {method}, rozmiar {size} / {slot}. Zapis nie został wykonany.`
pub fn dry_run_message(best: &BestCandidate) -> (s: String)
    ensures
        s@ == "Test OK. Wybrano: "@ + best.patch_set_name@ + " + "@ + best.compression_name@
            + ", rozmiar "@ + dec(best.bytes@.len()) + " / "@ + dec(PACKED_SIZE as nat)
            + ". Zapis nie został wykonany."@,
{
    let mut s = owned("Test OK. Wybrano: ");
    s.append(best.patch_set_name.as_str());
    s.append(" + ");
    s.append(best.compression_name.as_str());
    s.append(", rozmiar ");
    append_decimal(&mut s, best.bytes.len());
    s.append(" / ");
    append_decimal(&mut s, PACKED_SIZE);
    s.append(". Zapis nie został wykonany.");
    s
}

/// `Patch OK. Metoda: {set} + {method}. Backup: {backup}`
pub fn patch_ok_message(best: &BestCandidate, backup: &str) -> (s: String)
    ensures
        s@ == "Patch OK. Metoda: "@ + best.patch_set_name@ + " + "@ + best.compression_name@
            + ". Backup: "@ + backup@,
{
    let mut s = owned("Patch OK. Metoda: ");
    s.append(best.patch_set_name.as_str());
    s.append(" + ");
    s.append(best.compression_name.as_str());
    s.append(". Backup: ");
    s.append(backup);
    s
}

/// Ends a run: a success is logged as `DONE` and keeps its message; a failure becomes
/// `Błąd: {error}`, which is logged. Returns whether the run succeeded and its message.
pub fn finish_run(result: Result<String, String>, log: &mut String) -> (out: (bool, String))
    ensures
        match result {
            Ok(msg) => out.0 && out.1@ == msg@ && appends_lines(
                old(log)@,
                final(log)@,
                seq!["DONE"@],
            ),
            Err(e) => !out.0 && out.1@ == "Błąd: "@ + e@ && appends_lines(
                old(log)@,
                final(log)@,
                seq![out.1@],
            ),
        },
{
    match result {
        Ok(msg) => {
            log_line(log, "DONE");
            (true, msg)
        },
        Err(e) => {
            let mut message = owned("Błąd: ");
            message.append(e.as_str());
            log_line(log, message.as_str());
            (false, message)
        },
    }
}

/// After a restore: when the file holds the whole slot, it must decompress; its size is
/// logged. An error carries the decompression error's text.
pub fn check_restored(whole: &[u8], log: &mut String) -> (res: Result<(), String>)
    ensures
        whole@.len() < OFFSET + PACKED_SIZE ==> res is Ok && final(log)@ == old(log)@,
        whole@.len() >= OFFSET + PACKED_SIZE ==> match zlib_decoded(slot_bytes(whole@)) {
            None => res is Err && final(log)@ == old(log)@,
            Some(v) => res is Ok && appends_lines(
                old(log)@,
                final(log)@,
                seq!["Restored slot decompressed size: "@ + dec(v.len())],
            ),
        },
{
    if whole.len() >= OFFSET + PACKED_SIZE {
        let raw = vstd::slice::slice_subrange(whole, OFFSET, OFFSET + PACKED_SIZE);
        let restored = decompress_zlib(raw)?;
        let mut m = owned("Restored slot decompressed size: ");
        append_decimal(&mut m, restored.len());
        log_line(log, m.as_str());
    }
    Ok(())
}

/// The outcome of a run, shown in the window.
pub struct RunReport {
    pub ok: bool,
    pub message: String,
    pub log: String,
    pub log_path: Option<String>,
    pub backup_path: Option<String>,
}

/// The path components of the data file below the game folder.
pub open spec fn data_relative() -> Seq<Seq<char>> {
    seq!["Data"@, "Win32"@, "Packed"@, "MainDataStreaming.dv2"@]
}

/// The data file's path as components: the game folder, then `Data`, `Win32`,
/// `Packed`, `MainDataStreaming.dv2`.
pub fn data_file_path(game_root: &str) -> (parts: Vec<String>)
    ensures
        parts@.map_values(|p: String| p@) == seq![game_root@] + data_relative(),
{
    let mut parts: Vec<String> = Vec::new();
    parts.push(owned(game_root));
    parts.push(owned("Data"));
    parts.push(owned("Win32"));
    parts.push(owned("Packed"));
    parts.push(owned("MainDataStreaming.dv2"));
    assert(parts@.map_values(|p: String| p@) =~= seq![game_root@] + data_relative());
    parts
}

} // verus!
