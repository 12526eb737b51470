//! Replacing `DO NOT TRANSLATE` placeholders that stand shortly before an
//! English item name, and counting the placeholders that remain there.
use std::collections::HashSet;
use vstd::prelude::*;
use vstd::string::*;
use crate::error::PatchError;
use crate::log::{appends_lines, lemma_appends_chain, log_line};
use crate::search::{
    context,
    context_text,
    find_all,
    found,
    lemma_match_positions,
    match_positions,
    occurs_at,
};
use crate::text::{append_decimal, append_hex, dec, hex, owned};

verus! {

broadcast use vstd::std_specs::hash::group_hash_axioms;

/// The placeholder text that the game shows instead of an item name.
pub const PLACEHOLDER: &'static str = "DO NOT TRANSLATE";

/// The bytes of [`PLACEHOLDER`].
pub open spec fn placeholder_bytes() -> Seq<u8> {
    PLACEHOLDER.spec_bytes()
}

/// The placeholder is 16 bytes long.
pub proof fn lemma_placeholder()
    ensures
        placeholder_bytes().len() == 16,
{
    reveal_strlit("DO NOT TRANSLATE");
    assert(PLACEHOLDER@.len() == 16);
    assert(is_ascii(PLACEHOLDER));
    is_ascii_spec_bytes(PLACEHOLDER);
}

/// One name to fix: the English name found in the data and the 16-character
/// label that replaces the placeholder before it.
pub struct PatchEntry {
    pub english: &'static str,
    pub replacement16: &'static str,
}

/// A named list of entries that are applied together.
pub struct PatchSet {
    pub name: &'static str,
    pub entries: Vec<PatchEntry>,
}

/// A placeholder at `ph` belongs to the name at `eng`: it starts 16 to 80 bytes before it.
pub open spec fn in_window(eng: int, ph: int) -> bool {
    ph <= eng && 16 <= eng - ph <= 80
}

/// The scan over the first `k` placeholder positions: the free placeholder in the
/// window with the smallest distance so far, and that distance (`usize::MAX` when none).
pub open spec fn nearest_scan(eng: int, phs: Seq<usize>, taken: Set<usize>, k: int) -> (
    Option<usize>,
    int,
)
    decreases k,
{
    if k <= 0 {
        (None, usize::MAX as int)
    } else {
        let prev = nearest_scan(eng, phs, taken, k - 1);
        let ph = phs[k - 1];
        if in_window(eng, ph as int) && !taken.contains(ph) && eng - ph < prev.1 {
            (Some(ph), eng - ph)
        } else {
            prev
        }
    }
}

/// The nearest placeholder before `eng`, within the window, not yet patched.
pub open spec fn nearest_free(eng: int, phs: Seq<usize>, taken: Set<usize>) -> Option<usize> {
    nearest_scan(eng, phs, taken, phs.len() as int).0
}

/// `data` with `bytes` written over it from `pos` on.
pub open spec fn write_at(data: Seq<u8>, pos: int, bytes: Seq<u8>) -> Seq<u8> {
    Seq::new(
        data.len(),
        |i: int|
            if pos <= i < pos + bytes.len() {
                bytes[i - pos]
            } else {
                data[i]
            },
    )
}

/// `English: {name} | occurrences: {n}`
pub open spec fn english_msg(name: Seq<char>, n: nat) -> Seq<char> {
    "English: "@ + name + " | occurrences: "@ + dec(n)
}

/// `  PATCH at 0x{pos:X} before '{name}' distance={d}`
pub open spec fn patch_at_msg(pos: nat, name: Seq<char>, d: nat) -> Seq<char> {
    "  PATCH at 0x"@ + hex(pos) + " before '"@ + name + "' distance="@ + dec(d)
}

/// `  BEFORE: {context}`
pub open spec fn before_msg(ctx: Seq<char>) -> Seq<char> {
    "  BEFORE: "@ + ctx
}

/// `  AFTER : {context}`
pub open spec fn after_msg(ctx: Seq<char>) -> Seq<char> {
    "  AFTER : "@ + ctx
}

/// `  no nearby placeholder before occurrence at 0x{eng:X}`
pub open spec fn no_nearby_msg(eng: nat) -> Seq<char> {
    "  no nearby placeholder before occurrence at 0x"@ + hex(eng)
}

/// `  patched count for {name}: {n}`
pub open spec fn patched_count_msg(name: Seq<char>, n: nat) -> Seq<char> {
    "  patched count for "@ + name + ": "@ + dec(n)
}

/// What patching has done so far: the data, the placeholders already replaced,
/// how many were replaced, and the log texts written.
pub struct PatchState {
    pub data: Seq<u8>,
    pub taken: Set<usize>,
    pub count: nat,
    pub texts: Seq<Seq<char>>,
}

/// One English occurrence at `eng`: replace its nearest free placeholder, if any.
pub open spec fn patch_step(
    st: PatchState,
    eng: usize,
    phs: Seq<usize>,
    name: Seq<char>,
    repl: Seq<u8>,
) -> PatchState {
    match nearest_free(eng as int, phs, st.taken) {
        Some(pos) => {
            let data = write_at(st.data, pos as int, repl);
            PatchState {
                data,
                taken: st.taken.insert(pos),
                count: st.count + 1,
                texts: st.texts + seq![
                    patch_at_msg(pos as nat, name, (eng - pos) as nat),
                    before_msg(context_text(st.data, pos as int)),
                    after_msg(context_text(data, pos as int)),
                ],
            }
        },
        None => PatchState {
            data: st.data,
            taken: st.taken,
            count: st.count,
            texts: st.texts.push(no_nearby_msg(eng as nat)),
        },
    }
}

/// The first `k` English occurrences, patched in order.
pub open spec fn patch_fold(
    st: PatchState,
    engs: Seq<usize>,
    phs: Seq<usize>,
    name: Seq<char>,
    repl: Seq<u8>,
    k: int,
) -> PatchState
    decreases k,
{
    if k <= 0 {
        st
    } else {
        patch_step(patch_fold(st, engs, phs, name, repl, k - 1), engs[k - 1], phs, name, repl)
    }
}

/// The whole effect of [`patch_near`] when the replacement is valid: both position lists
/// are taken from the data as it was before any change.
pub open spec fn near_patch(
    data: Seq<u8>,
    name: Seq<char>,
    name_bytes: Seq<u8>,
    repl: Seq<u8>,
    taken: Set<usize>,
) -> PatchState {
    let engs = found(data, name_bytes);
    let phs = found(data, placeholder_bytes());
    let start = PatchState {
        data,
        taken,
        count: 0,
        texts: seq![english_msg(name, engs.len())],
    };
    let st = patch_fold(start, engs, phs, name, repl, engs.len() as int);
    PatchState {
        data: st.data,
        taken: st.taken,
        count: st.count,
        texts: st.texts.push(patched_count_msg(name, st.count)),
    }
}

/// A replacement is usable when it is exactly 16 ASCII characters.
pub open spec fn replacement_ok(r: &str) -> bool {
    is_ascii(r) && r.spec_bytes().len() == 16
}

proof fn lemma_scan_member(eng: int, phs: Seq<usize>, taken: Set<usize>, k: int)
    requires
        0 <= k <= phs.len(),
    ensures
        nearest_scan(eng, phs, taken, k).0 matches Some(p) ==> {
            &&& exists|j: int| 0 <= j < k && #[trigger] phs[j] == p
            &&& in_window(eng, p as int)
            &&& !taken.contains(p)
            &&& nearest_scan(eng, phs, taken, k).1 == eng - p
        },
        nearest_scan(eng, phs, taken, k).0 is None ==> nearest_scan(eng, phs, taken, k).1
            == usize::MAX as int,
    decreases k,
{
    if k > 0 {
        lemma_scan_member(eng, phs, taken, k - 1);
        let prev = nearest_scan(eng, phs, taken, k - 1);
        if let Some(p) = prev.0 {
            let j = choose|j: int| 0 <= j < k - 1 && #[trigger] phs[j] == p;
            assert(phs[j] == p);
        }
    }
}

proof fn lemma_fold_len(
    st: PatchState,
    engs: Seq<usize>,
    phs: Seq<usize>,
    name: Seq<char>,
    repl: Seq<u8>,
    k: int,
)
    ensures
        patch_fold(st, engs, phs, name, repl, k).data.len() == st.data.len(),
        patch_fold(st, engs, phs, name, repl, k).count <= st.count + (if k < 0 {
            0
        } else {
            k
        }),
    decreases k,
{
    if k > 0 {
        lemma_fold_len(st, engs, phs, name, repl, k - 1);
    }
}

fn english_text(name: &str, n: usize) -> (s: String)
    ensures
        s@ == english_msg(name@, n as nat),
{
    let mut s = owned("English: ");
    s.append(name);
    s.append(" | occurrences: ");
    append_decimal(&mut s, n);
    s
}

fn patch_at_text(pos: usize, name: &str, d: usize) -> (s: String)
    ensures
        s@ == patch_at_msg(pos as nat, name@, d as nat),
{
    let mut s = owned("  PATCH at 0x");
    append_hex(&mut s, pos);
    s.append(" before '");
    s.append(name);
    s.append("' distance=");
    append_decimal(&mut s, d);
    s
}

fn prefixed(prefix: &str, rest: &String) -> (s: String)
    ensures
        s@ == prefix@ + rest@,
{
    let mut s = owned(prefix);
    s.append(rest.as_str());
    s
}

fn no_nearby_text(eng: usize) -> (s: String)
    ensures
        s@ == no_nearby_msg(eng as nat),
{
    let mut s = owned("  no nearby placeholder before occurrence at 0x");
    append_hex(&mut s, eng);
    s
}

fn patched_count_text(name: &str, n: usize) -> (s: String)
    ensures
        s@ == patched_count_msg(name@, n as nat),
{
    let mut s = owned("  patched count for ");
    s.append(name);
    s.append(": ");
    append_decimal(&mut s, n);
    s
}

fn write_bytes(data: &mut [u8], pos: usize, bytes: &[u8])
    requires
        pos + bytes@.len() <= old(data)@.len(),
    ensures
        final(data)@ == write_at(old(data)@, pos as int, bytes@),
{
    let n = bytes.len();
    let dl = data.len();
    let ghost before = data@;
    let mut j: usize = 0;
    while j < n
        invariant
            n == bytes@.len(),
            pos + n <= before.len(),
            dl == before.len(),
            j <= n,
            data@.len() == before.len(),
            forall|i: int|
                0 <= i < before.len() ==> #[trigger] data@[i] == (if pos <= i < pos + j {
                    bytes@[i - pos]
                } else {
                    before[i]
                }),
        decreases n - j,
    {
        data[pos + j] = bytes[j];
        j = j + 1;
    }
    assert(data@ =~= write_at(before, pos as int, bytes@));
}

/// Replaces, for each occurrence of `english_name`, the nearest placeholder that
/// starts 16 to 80 bytes before it and is not in `already_patched` with
/// `replacement16`, records it there, and logs what it did.
/// Both the name's and the placeholders' positions are those of the data on entry.
/// Returns how many placeholders were replaced.
pub fn patch_near(
    data: &mut [u8],
    english_name: &str,
    replacement16: &str,
    already_patched: &mut HashSet<usize>,
    log: &mut String,
) -> (result: Result<usize, PatchError>)
    ensures
        match result {
            Ok(n) => {
                let st = near_patch(
                    old(data)@,
                    english_name@,
                    english_name.spec_bytes(),
                    replacement16.spec_bytes(),
                    old(already_patched)@,
                );
                &&& replacement_ok(replacement16)
                &&& final(data)@ == st.data
                &&& final(already_patched)@ == st.taken
                &&& n == st.count
                &&& appends_lines(old(log)@, final(log)@, st.texts)
            },
            Err(PatchError::BadReplacement { replacement, len }) => {
                &&& !replacement_ok(replacement16)
                &&& replacement@ == replacement16@
                &&& len == replacement16.spec_bytes().len()
                &&& final(data)@ == old(data)@
                &&& final(already_patched)@ == old(already_patched)@
                &&& final(log)@ == old(log)@
            },
            Err(_) => false,
        },
{
    let repl = replacement16.as_bytes();
    let rlen = repl.len();
    if !replacement16.is_ascii() || rlen != 16 {
        return Err(PatchError::BadReplacement { replacement: owned(replacement16), len: rlen });
    }
    let dl = data.len();
    let ghost data0 = data@;
    let ghost taken0 = already_patched@;
    let ghost log0 = log@;
    let english_positions = find_all(data, english_name.as_bytes());
    let placeholder_positions = find_all(data, PLACEHOLDER.as_bytes());
    let ghost engs = english_positions@;
    let ghost phs = placeholder_positions@;
    proof {
        lemma_placeholder();
        lemma_match_positions(data0, placeholder_bytes());
    }
    let first = english_text(english_name, english_positions.len());
    log_line(log, first.as_str());
    let ghost name = english_name@;
    let ghost start = PatchState {
        data: data0,
        taken: taken0,
        count: 0,
        texts: seq![english_msg(name, engs.len())],
    };
    let mut patched: usize = 0;
    let ne = english_positions.len();
    let np = placeholder_positions.len();
    let mut i: usize = 0;
    while i < ne
        invariant
            ne == engs.len(),
            np == phs.len(),
            dl == data0.len(),
            engs == english_positions@,
            phs == placeholder_positions@,
            phs == found(data0, placeholder_bytes()),
            engs == found(data0, english_name.spec_bytes()),
            name == english_name@,
            repl@ == replacement16.spec_bytes(),
            repl@.len() == 16,
            placeholder_bytes().len() == 16,
            forall|a: int|
                0 <= a < match_positions(data0, placeholder_bytes()).len() ==> #[trigger] match_positions(
                    data0,
                    placeholder_bytes(),
                )[a] + placeholder_bytes().len() <= data0.len() && 0 <= match_positions(
                    data0,
                    placeholder_bytes(),
                )[a],
            start == (PatchState {
                data: data0,
                taken: taken0,
                count: 0,
                texts: seq![english_msg(name, engs.len())],
            }),
            i <= ne,
            ({
                let st = patch_fold(start, engs, phs, name, repl@, i as int);
                &&& data@ == st.data
                &&& already_patched@ == st.taken
                &&& patched == st.count
                &&& appends_lines(log0, log@, st.texts)
            }),
        decreases ne - i,
    {
        proof {
            lemma_fold_len(start, engs, phs, name, repl@, i as int);
        }
        let ghost st = patch_fold(start, engs, phs, name, repl@, i as int);
        let eng = english_positions[i];
        let mut best: Option<usize> = None;
        let mut best_distance: usize = usize::MAX;
        let mut j: usize = 0;
        while j < np
            invariant
                np == phs.len(),
                phs == placeholder_positions@,
                already_patched@ == st.taken,
                j <= np,
                (best, best_distance as int) == nearest_scan(eng as int, phs, st.taken, j as int),
            decreases np - j,
        {
            let ph = placeholder_positions[j];
            if eng >= ph {
                let distance = eng - ph;
                if 16 <= distance && distance <= 80 && !already_patched.contains(&ph)
                    && distance < best_distance {
                    best = Some(ph);
                    best_distance = distance;
                }
            }
            j = j + 1;
        }
        let ghost log_before = log@;
        match best {
            Some(pos) => {
                proof {
                    lemma_scan_member(eng as int, phs, st.taken, phs.len() as int);
                    let jj = choose|jj: int| 0 <= jj < phs.len() && #[trigger] phs[jj] == pos;
                    assert(phs[jj] as int == match_positions(data0, placeholder_bytes())[jj]);
                }
                let msg = patch_at_text(pos, english_name, best_distance);
                log_line(log, msg.as_str());
                let ghost log1 = log@;
                let before_ctx = context(data, pos);
                let msg2 = prefixed("  BEFORE: ", &before_ctx);
                log_line(log, msg2.as_str());
                let ghost log2 = log@;
                let ghost data_before = data@;
                write_bytes(data, pos, repl);
                already_patched.insert(pos);
                patched = patched + 1;
                let after_ctx = context(data, pos);
                let msg3 = prefixed("  AFTER : ", &after_ctx);
                log_line(log, msg3.as_str());
                proof {
                    lemma_appends_chain(log0, log_before, log1, st.texts, seq![msg@]);
                    lemma_appends_chain(log0, log1, log2, st.texts + seq![msg@], seq![msg2@]);
                    lemma_appends_chain(
                        log0,
                        log2,
                        log@,
                        st.texts + seq![msg@] + seq![msg2@],
                        seq![msg3@],
                    );
                    assert(st.texts + seq![msg@] + seq![msg2@] + seq![msg3@] =~= st.texts
                        + seq![msg@, msg2@, msg3@]);
                }
            },
            None => {
                let msg = no_nearby_text(eng);
                log_line(log, msg.as_str());
                proof {
                    lemma_appends_chain(log0, log_before, log@, st.texts, seq![msg@]);
                    assert(st.texts + seq![msg@] =~= st.texts.push(no_nearby_msg(eng as nat)));
                }
            },
        }
        i = i + 1;
    }
    let ghost st = patch_fold(start, engs, phs, name, repl@, ne as int);
    let last = patched_count_text(english_name, patched);
    let ghost log_mid = log@;
    log_line(log, last.as_str());
    proof {
        lemma_appends_chain(log0, log_mid, log@, st.texts, seq![last@]);
        assert(st.texts + seq![last@] =~= st.texts.push(patched_count_msg(name, st.count)));
    }
    Ok(patched)
}

} // verus!

verus! {

impl View for PatchEntry {
    type V = (Seq<char>, Seq<char>);

    open spec fn view(&self) -> (Seq<char>, Seq<char>) {
        (self.english@, self.replacement16@)
    }
}

impl View for PatchSet {
    type V = (Seq<char>, Seq<(Seq<char>, Seq<char>)>);

    open spec fn view(&self) -> (Seq<char>, Seq<(Seq<char>, Seq<char>)>) {
        (self.name@, self.entries@.map_values(|e: PatchEntry| e@))
    }
}

/// A patch set as values: its name and its (English name, replacement) pairs.
pub type SetView = (Seq<char>, Seq<(Seq<char>, Seq<char>)>);

/// The views of a list of patch sets.
pub open spec fn set_views(sets: Seq<PatchSet>) -> Seq<SetView> {
    sets.map_values(|s: PatchSet| s@)
}

/// The labels of the standard Polish translation.
pub open spec fn standard_set() -> (Seq<char>, Seq<(Seq<char>, Seq<char>)>) {
    (
        "standard-polish-labels"@,
        seq![
            ("Malachite Ore"@, "Ruda malachitu  "@),
            ("Gold Ore"@, "Ruda zlota      "@),
            ("Malachite Gem"@, "Malachit        "@),
            ("Sapphire"@, "Szafir          "@),
            ("Spinel"@, "Spinel          "@),
        ],
    )
}

/// A variant that compresses better: `Ruda malachit` without the last letter.
pub open spec fn compact_set() -> (Seq<char>, Seq<(Seq<char>, Seq<char>)>) {
    (
        "fallback-compression-friendly-polish-labels"@,
        seq![
            ("Malachite Ore"@, "Ruda malachit   "@),
            ("Gold Ore"@, "Ruda zlota      "@),
            ("Malachite Gem"@, "Malachit        "@),
            ("Sapphire"@, "Szafir          "@),
            ("Spinel"@, "Spinel          "@),
        ],
    )
}

/// The most compact variant.
pub open spec fn ultra_compact_set() -> (Seq<char>, Seq<(Seq<char>, Seq<char>)>) {
    (
        "fallback-ultra-compact-polish-labels"@,
        seq![
            ("Malachite Ore"@, "Malachit ruda   "@),
            ("Gold Ore"@, "Zloto           "@),
            ("Malachite Gem"@, "Malachit        "@),
            ("Sapphire"@, "Szafir          "@),
            ("Spinel"@, "Spinel          "@),
        ],
    )
}

/// The sets to try, in order: the standard one, then the fallbacks when allowed.
pub open spec fn patch_sets_spec(allow_compact_names: bool) -> Seq<
    (Seq<char>, Seq<(Seq<char>, Seq<char>)>),
> {
    if allow_compact_names {
        seq![standard_set(), compact_set(), ultra_compact_set()]
    } else {
        seq![standard_set()]
    }
}

/// Every replacement of every set is usable.
pub open spec fn all_replacements_ok(sets: Seq<PatchSet>) -> bool {
    forall|i: int, j: int|
        0 <= i < sets.len() && 0 <= j < sets[i].entries@.len() ==> replacement_ok(
            #[trigger] sets[i].entries@[j].replacement16,
        )
}

fn entry(english: &'static str, replacement16: &'static str) -> (e: PatchEntry)
    ensures
        e.english == english,
        e.replacement16 == replacement16,
{
    PatchEntry { english, replacement16 }
}

proof fn lemma_label_ok(s: &str)
    requires
        is_ascii(s),
        s@.len() == 16,
    ensures
        replacement_ok(s),
{
    is_ascii_spec_bytes(s);
}

/// The patch sets to try, the standard labels first; the two fallback sets only
/// when compact names are allowed.
pub fn patch_sets(allow_compact_names: bool) -> (sets: Vec<PatchSet>)
    ensures
        sets@.map_values(|s: PatchSet| s@) == patch_sets_spec(allow_compact_names),
        all_replacements_ok(sets@),
{
    proof {
        reveal_strlit("Ruda malachitu  ");
        reveal_strlit("Ruda zlota      ");
        reveal_strlit("Malachit        ");
        reveal_strlit("Szafir          ");
        reveal_strlit("Spinel          ");
        reveal_strlit("Ruda malachit   ");
        reveal_strlit("Malachit ruda   ");
        reveal_strlit("Zloto           ");
        lemma_label_ok("Ruda malachitu  ");
        lemma_label_ok("Ruda zlota      ");
        lemma_label_ok("Malachit        ");
        lemma_label_ok("Szafir          ");
        lemma_label_ok("Spinel          ");
        lemma_label_ok("Ruda malachit   ");
        lemma_label_ok("Malachit ruda   ");
        lemma_label_ok("Zloto           ");
    }
    let mut standard: Vec<PatchEntry> = Vec::new();
    standard.push(entry("Malachite Ore", "Ruda malachitu  "));
    standard.push(entry("Gold Ore", "Ruda zlota      "));
    standard.push(entry("Malachite Gem", "Malachit        "));
    standard.push(entry("Sapphire", "Szafir          "));
    standard.push(entry("Spinel", "Spinel          "));
    let mut sets: Vec<PatchSet> = Vec::new();
    sets.push(PatchSet { name: "standard-polish-labels", entries: standard });
    if allow_compact_names {
        let mut compact: Vec<PatchEntry> = Vec::new();
        compact.push(entry("Malachite Ore", "Ruda malachit   "));
        compact.push(entry("Gold Ore", "Ruda zlota      "));
        compact.push(entry("Malachite Gem", "Malachit        "));
        compact.push(entry("Sapphire", "Szafir          "));
        compact.push(entry("Spinel", "Spinel          "));
        sets.push(PatchSet { name: "fallback-compression-friendly-polish-labels", entries: compact });
        let mut ultra: Vec<PatchEntry> = Vec::new();
        ultra.push(entry("Malachite Ore", "Malachit ruda   "));
        ultra.push(entry("Gold Ore", "Zloto           "));
        ultra.push(entry("Malachite Gem", "Malachit        "));
        ultra.push(entry("Sapphire", "Szafir          "));
        ultra.push(entry("Spinel", "Spinel          "));
        sets.push(PatchSet { name: "fallback-ultra-compact-polish-labels", entries: ultra });
    }
    assert(sets@.map_values(|s: PatchSet| s@) =~= patch_sets_spec(allow_compact_names)) by {
        assert(sets@[0].entries@.map_values(|e: PatchEntry| e@) =~= standard_set().1);
        if allow_compact_names {
            assert(sets@[1].entries@.map_values(|e: PatchEntry| e@) =~= compact_set().1);
            assert(sets@[2].entries@.map_values(|e: PatchEntry| e@) =~= ultra_compact_set().1);
        }
    }
    sets
}

} // verus!

verus! {

proof fn lemma_fold_taken(
    st: PatchState,
    engs: Seq<usize>,
    phs: Seq<usize>,
    name: Seq<char>,
    repl: Seq<u8>,
    k: int,
)
    requires
        0 <= k <= engs.len(),
        st.taken.finite(),
        forall|j: int| 0 <= j < phs.len() ==> #[trigger] phs[j] + repl.len() <= st.data.len(),
    ensures
        ({
            let r = patch_fold(st, engs, phs, name, repl, k);
            &&& r.taken.finite()
            &&& r.taken.len() == st.taken.len() + r.count - st.count
            &&& r.count >= st.count
            &&& r.data.len() == st.data.len()
            &&& forall|x: usize| #[trigger]
                r.taken.contains(x) ==> st.taken.contains(x) || x + repl.len() <= st.data.len()
        }),
    decreases k,
{
    if k > 0 {
        lemma_fold_taken(st, engs, phs, name, repl, k - 1);
        let prev = patch_fold(st, engs, phs, name, repl, k - 1);
        lemma_scan_member(engs[k - 1] as int, phs, prev.taken, phs.len() as int);
        if let Some(p) = nearest_free(engs[k - 1] as int, phs, prev.taken) {
            let j = choose|j: int| 0 <= j < phs.len() && #[trigger] phs[j] == p;
            assert(phs[j] + repl.len() <= st.data.len());
        }
    }
}

/// Each replacement takes a placeholder position that was not taken before:
/// the taken set grows by exactly the number of replacements, by positions at
/// which 16 bytes fit in the data.
pub proof fn lemma_near_patch_taken(
    data: Seq<u8>,
    name: Seq<char>,
    name_bytes: Seq<u8>,
    repl: Seq<u8>,
    taken: Set<usize>,
)
    requires
        taken.finite(),
        repl.len() == 16,
        data.len() <= usize::MAX,
    ensures
        ({
            let r = near_patch(data, name, name_bytes, repl, taken);
            &&& r.taken.finite()
            &&& r.taken.len() == taken.len() + r.count
            &&& r.data.len() == data.len()
            &&& forall|x: usize| #[trigger]
                r.taken.contains(x) ==> taken.contains(x) || x + 16 <= data.len()
        }),
{
    lemma_placeholder();
    lemma_match_positions(data, placeholder_bytes());
    let phs = found(data, placeholder_bytes());
    let engs = found(data, name_bytes);
    assert forall|j: int| 0 <= j < phs.len() implies #[trigger] phs[j] + repl.len() <= data.len() by {
        assert(match_positions(data, placeholder_bytes())[j] + 16 <= data.len());
    }
    let start = PatchState { data, taken, count: 0, texts: seq![english_msg(name, engs.len())] };
    lemma_fold_taken(start, engs, phs, name, repl, engs.len() as int);
}

/// A finite set of numbers below `n` has at most `n` elements.
pub proof fn lemma_bounded_set_len(s: Set<usize>, n: int)
    requires
        s.finite(),
        0 <= n,
        forall|x: usize| #[trigger] s.contains(x) ==> x < n,
    ensures
        s.len() <= n,
    decreases n,
{
    if n == 0 {
        if s.len() > 0 {
            let x = s.choose();
            assert(s.contains(x));
        }
    } else {
        let m = (n - 1) as usize;
        let t = s.remove(m);
        lemma_bounded_set_len(t, n - 1);
    }
}

} // verus!

verus! {

/// Two occurrences of the placeholder never overlap: `D` stands only at its start.
pub proof fn lemma_placeholders_apart(data: Seq<u8>, p: int, q: int)
    requires
        occurs_at(data, placeholder_bytes(), p),
        occurs_at(data, placeholder_bytes(), q),
        p < q,
    ensures
        q - p >= 16,
{
    lemma_placeholder();
    reveal_strlit("DO NOT TRANSLATE");
    is_ascii_spec_bytes(PLACEHOLDER);
    let ph = placeholder_bytes();
    if q - p < 16 {
        assert(data.subrange(q, q + 16)[0] == ph[0]);
        assert(data.subrange(p, p + 16)[q - p] == ph[q - p]);
        assert(ph[0] == 68u8);
        let k = q - p;
        assert(ph[k] != 68u8);
    }
}

/// What one run of the fold has done to the data: every newly taken position holds
/// the label, and every other byte is as it was.
pub open spec fn labels_written(
    data0: Seq<u8>,
    taken0: Set<usize>,
    st: PatchState,
    repl: Seq<u8>,
) -> bool {
    &&& st.data.len() == data0.len()
    &&& forall|p: usize, k: int|
        st.taken.contains(p) && !taken0.contains(p) && 0 <= k < 16 ==> #[trigger] st.data[p + k]
            == repl[k]
    &&& forall|i: int|
        0 <= i < data0.len() ==> #[trigger] st.data[i] == data0[i] || exists|p: usize|
            st.taken.contains(p) && !taken0.contains(p) && p <= i < p + 16
}

proof fn lemma_fold_labels(
    data0: Seq<u8>,
    taken0: Set<usize>,
    st0: PatchState,
    engs: Seq<usize>,
    phs: Seq<usize>,
    name: Seq<char>,
    repl: Seq<u8>,
    k: int,
)
    requires
        0 <= k <= engs.len(),
        st0.data == data0,
        st0.taken == taken0,
        repl.len() == 16,
        forall|j: int| 0 <= j < phs.len() ==> occurs_at(data0, placeholder_bytes(), #[trigger] phs[j] as int),
    ensures
        labels_written(data0, taken0, patch_fold(st0, engs, phs, name, repl, k), repl),
        taken0.subset_of(patch_fold(st0, engs, phs, name, repl, k).taken),
        forall|p: usize|
            #[trigger] patch_fold(st0, engs, phs, name, repl, k).taken.contains(p) && !taken0.contains(p)
                ==> occurs_at(data0, placeholder_bytes(), p as int) && exists|j: int|
                0 <= j < k && in_window(engs[j] as int, p as int),
    decreases k,
{
    lemma_placeholder();
    if k > 0 {
        lemma_fold_labels(data0, taken0, st0, engs, phs, name, repl, k - 1);
        let prev = patch_fold(st0, engs, phs, name, repl, k - 1);
        let eng = engs[k - 1];
        lemma_scan_member(eng as int, phs, prev.taken, phs.len() as int);
        if let Some(pos) = nearest_free(eng as int, phs, prev.taken) {
            let jj = choose|jj: int| 0 <= jj < phs.len() && #[trigger] phs[jj] == pos;
            assert(occurs_at(data0, placeholder_bytes(), phs[jj] as int));
            let cur = patch_fold(st0, engs, phs, name, repl, k);
            assert forall|p: usize, t: int|
                cur.taken.contains(p) && !taken0.contains(p) && 0 <= t < 16 implies #[trigger] cur.data[p
                + t] == repl[t] by {
                if p != pos {
                    assert(prev.taken.contains(p));
                    if pos < p {
                        lemma_placeholders_apart(data0, pos as int, p as int);
                    } else {
                        lemma_placeholders_apart(data0, p as int, pos as int);
                    }
                    assert(prev.data[p + t] == repl[t]);
                }
            }
            assert forall|i: int| 0 <= i < data0.len() implies #[trigger] cur.data[i] == data0[i]
                || exists|p: usize| cur.taken.contains(p) && !taken0.contains(p) && p <= i < p + 16 by {
                if pos <= i < pos + 16 {
                    assert(cur.taken.contains(pos) && !taken0.contains(pos));
                } else if prev.data[i] != data0[i] {
                    let p = choose|p: usize|
                        prev.taken.contains(p) && !taken0.contains(p) && p <= i < p + 16;
                    assert(cur.taken.contains(p));
                }
            }
            assert forall|p: usize|
                #[trigger] cur.taken.contains(p) && !taken0.contains(p) implies occurs_at(
                data0,
                placeholder_bytes(),
                p as int,
            ) && exists|j: int| 0 <= j < k && in_window(engs[j] as int, p as int) by {
                if p == pos {
                    assert(in_window(engs[k - 1] as int, p as int));
                } else {
                    assert(prev.taken.contains(p));
                }
            }
        } else {
        }
    }
}

/// What `patch_near` changes: every position it newly takes held a placeholder 16 to 80
/// bytes before an occurrence of the name, and now holds the label; every other byte
/// is as it was.
pub proof fn lemma_near_patch_labels(
    data: Seq<u8>,
    name: Seq<char>,
    name_bytes: Seq<u8>,
    repl: Seq<u8>,
    taken: Set<usize>,
)
    requires
        repl.len() == 16,
        data.len() <= usize::MAX,
    ensures
        labels_written(data, taken, near_patch(data, name, name_bytes, repl, taken), repl),
        taken.subset_of(near_patch(data, name, name_bytes, repl, taken).taken),
        forall|p: usize|
            #[trigger] near_patch(data, name, name_bytes, repl, taken).taken.contains(p)
                && !taken.contains(p) ==> occurs_at(data, placeholder_bytes(), p as int) && exists|
                e: int,
            |
                occurs_at(data, name_bytes, e) && in_window(e, p as int),
{
    let engs = found(data, name_bytes);
    let phs = found(data, placeholder_bytes());
    lemma_match_positions(data, placeholder_bytes());
    lemma_match_positions(data, name_bytes);
    assert forall|j: int| 0 <= j < phs.len() implies occurs_at(
        data,
        placeholder_bytes(),
        #[trigger] phs[j] as int,
    ) by {
        let m = match_positions(data, placeholder_bytes());
        assert(m.contains(m[j]));
        assert(m[j] + placeholder_bytes().len() <= data.len());
        assert(phs[j] as int == m[j]);
    }
    let start = PatchState { data, taken, count: 0, texts: seq![english_msg(name, engs.len())] };
    lemma_fold_labels(data, taken, start, engs, phs, name, repl, engs.len() as int);
    let r = near_patch(data, name, name_bytes, repl, taken);
    assert forall|p: usize| #[trigger] r.taken.contains(p) && !taken.contains(p) implies occurs_at(
        data,
        placeholder_bytes(),
        p as int,
    ) && exists|e: int| occurs_at(data, name_bytes, e) && in_window(e, p as int) by {
        let j = choose|j: int| 0 <= j < engs.len() && in_window(engs[j] as int, p as int);
        let m = match_positions(data, name_bytes);
        assert(m.contains(m[j]));
        assert(m[j] + name_bytes.len() <= data.len() && 0 <= m[j]);
        assert(engs[j] as int == m[j]);
    }
}

} // verus!

verus! {

proof fn lemma_scan_some(eng: int, phs: Seq<usize>, taken: Set<usize>, k: int, jj: int)
    requires
        0 <= jj < k <= phs.len(),
        in_window(eng, phs[jj] as int),
        !taken.contains(phs[jj]),
    ensures
        nearest_scan(eng, phs, taken, k).0 is Some,
    decreases k,
{
    if jj < k - 1 {
        lemma_scan_some(eng, phs, taken, k - 1, jj);
    } else {
        lemma_scan_member(eng, phs, taken, k - 1);
    }
}

proof fn lemma_fold_grows(
    st: PatchState,
    engs: Seq<usize>,
    phs: Seq<usize>,
    name: Seq<char>,
    repl: Seq<u8>,
    k: int,
)
    ensures
        st.taken.subset_of(patch_fold(st, engs, phs, name, repl, k).taken),
    decreases k,
{
    if k > 0 {
        lemma_fold_grows(st, engs, phs, name, repl, k - 1);
    }
}

proof fn lemma_fold_serves(
    st: PatchState,
    engs: Seq<usize>,
    phs: Seq<usize>,
    name: Seq<char>,
    repl: Seq<u8>,
    k: int,
    j: int,
    pi: int,
)
    requires
        0 <= j < k <= engs.len(),
        0 <= pi < phs.len(),
        in_window(engs[j] as int, phs[pi] as int),
        !st.taken.contains(phs[pi]),
    ensures
        exists|q: usize|
            in_window(engs[j] as int, q as int) && #[trigger] patch_fold(
                st,
                engs,
                phs,
                name,
                repl,
                k,
            ).taken.contains(q) && !st.taken.contains(q),
    decreases k,
{
    let cur = patch_fold(st, engs, phs, name, repl, k);
    if j < k - 1 {
        lemma_fold_serves(st, engs, phs, name, repl, k - 1, j, pi);
        let prev = patch_fold(st, engs, phs, name, repl, k - 1);
        let q = choose|q: usize|
            in_window(engs[j] as int, q as int) && #[trigger] prev.taken.contains(q)
                && !st.taken.contains(q);
        assert(cur.taken.contains(q));
    } else {
        let prev = patch_fold(st, engs, phs, name, repl, k - 1);
        lemma_fold_grows(st, engs, phs, name, repl, k - 1);
        if prev.taken.contains(phs[pi]) {
            assert(cur.taken.contains(phs[pi]));
        } else {
            lemma_scan_some(engs[j] as int, phs, prev.taken, phs.len() as int, pi);
            lemma_scan_member(engs[j] as int, phs, prev.taken, phs.len() as int);
            let q = nearest_free(engs[j] as int, phs, prev.taken).unwrap();
            assert(cur.taken.contains(q));
        }
    }
}

/// Every occurrence of the name that has a placeholder starting 16 to 80 bytes before it
/// in the input, not already taken, is served: some placeholder in that window is
/// replaced by the label in this call (the nearest free one when the occurrence's turn
/// comes, or one that an earlier occurrence of the name took).
pub proof fn lemma_near_patch_serves_every_occurrence(
    data: Seq<u8>,
    name: Seq<char>,
    name_bytes: Seq<u8>,
    repl: Seq<u8>,
    taken: Set<usize>,
    e: int,
    p: int,
)
    requires
        data.len() <= usize::MAX,
        repl.len() == 16,
        name_bytes.len() > 0,
        occurs_at(data, name_bytes, e),
        occurs_at(data, placeholder_bytes(), p),
        16 <= e - p <= 80,
        !taken.contains(p as usize),
    ensures
        exists|q: usize|
            {
                &&& 16 <= e - q <= 80
                &&& #[trigger] near_patch(data, name, name_bytes, repl, taken).taken.contains(q)
                &&& !taken.contains(q)
                &&& occurs_at(data, placeholder_bytes(), q as int)
                &&& near_patch(data, name, name_bytes, repl, taken).data.subrange(q as int, q + 16)
                    == repl
            },
{
    lemma_placeholder();
    lemma_match_positions(data, name_bytes);
    lemma_match_positions(data, placeholder_bytes());
    let engs = found(data, name_bytes);
    let phs = found(data, placeholder_bytes());
    let me = match_positions(data, name_bytes);
    let mp = match_positions(data, placeholder_bytes());
    assert(me.contains(e));
    assert(mp.contains(p));
    let j = choose|j: int| 0 <= j < me.len() && me[j] == e;
    let pi = choose|pi: int| 0 <= pi < mp.len() && mp[pi] == p;
    assert(engs[j] as int == e);
    assert(phs[pi] as int == p);
    let start = PatchState { data, taken, count: 0, texts: seq![english_msg(name, engs.len())] };
    lemma_fold_serves(start, engs, phs, name, repl, engs.len() as int, j, pi);
    lemma_near_patch_labels(data, name, name_bytes, repl, taken);
    let r = near_patch(data, name, name_bytes, repl, taken);
    let q = choose|q: usize|
        in_window(engs[j] as int, q as int) && #[trigger] patch_fold(
            start,
            engs,
            phs,
            name,
            repl,
            engs.len() as int,
        ).taken.contains(q) && !start.taken.contains(q);
    assert(r.taken.contains(q));
    assert(r.data.subrange(q as int, q + 16) =~= repl) by {
        assert forall|t: int| 0 <= t < 16 implies r.data.subrange(q as int, q + 16)[t] == repl[t] by {
            assert(r.data[q + t] == repl[t]);
        }
    }
}

} // verus!
