//! Counting the placeholders that still stand before the target names.
use vstd::prelude::*;
use vstd::string::*;
use vstd::set_lib::lemma_set_disjoint_lens;
use crate::log::{appends_lines, lemma_appends_chain, lemma_appends_none, log_line};
use crate::patch::{in_window, lemma_placeholder, lemma_placeholders_apart, placeholder_bytes, PLACEHOLDER};
use crate::search::{
    context,
    context_text,
    find_all,
    found,
    lemma_match_positions,
    first_unique,
    lemma_match_count,
    match_positions,
    occurs_at,
};
use crate::text::{append_decimal, append_hex, dec, hex, owned};
use crate::patch::patch_sets_spec;
use vstd::utf8::encode_utf8;

verus! {

/// `  remaining DNT near '{name}' at placeholder 0x{ph:X}, english 0x{eng:X}, distance={d}`
pub open spec fn remaining_msg(name: Seq<char>, ph: nat, eng: nat, d: nat) -> Seq<char> {
    "  remaining DNT near '"@ + name + "' at placeholder 0x"@ + hex(ph) + ", english 0x"@ + hex(eng)
        + ", distance="@ + dec(d)
}

/// `  context: {context}`
pub open spec fn context_msg(ctx: Seq<char>) -> Seq<char> {
    "  context: "@ + ctx
}

/// The placeholders among the first `k` that stand in the window before `eng`:
/// how many, and the two log texts for each.
pub open spec fn nearby_scan(data: Seq<u8>, name: Seq<char>, eng: usize, phs: Seq<usize>, k: int) -> (
    nat,
    Seq<Seq<char>>,
)
    decreases k,
{
    if k <= 0 {
        (0, Seq::empty())
    } else {
        let prev = nearby_scan(data, name, eng, phs, k - 1);
        let ph = phs[k - 1];
        if in_window(eng as int, ph as int) {
            (
                prev.0 + 1,
                prev.1 + seq![
                    remaining_msg(name, ph as nat, eng as nat, (eng - ph) as nat),
                    context_msg(context_text(data, ph as int)),
                ],
            )
        } else {
            prev
        }
    }
}

/// [`nearby_scan`] over all placeholders, summed over the first `k` name positions.
pub open spec fn nearby_fold(
    data: Seq<u8>,
    name: Seq<char>,
    engs: Seq<usize>,
    phs: Seq<usize>,
    k: int,
) -> (nat, Seq<Seq<char>>)
    decreases k,
{
    if k <= 0 {
        (0, Seq::empty())
    } else {
        let prev = nearby_fold(data, name, engs, phs, k - 1);
        let sc = nearby_scan(data, name, engs[k - 1], phs, phs.len() as int);
        (prev.0 + sc.0, prev.1 + sc.1)
    }
}

/// The (name occurrence, placeholder) pairs in which the placeholder starts 16 to 80
/// bytes before the name: how many, and the log texts that [`count_nearby_dnt`] writes.
pub open spec fn nearby_dnt(data: Seq<u8>, name: Seq<char>, name_bytes: Seq<u8>) -> (
    nat,
    Seq<Seq<char>>,
) {
    let engs = found(data, name_bytes);
    nearby_fold(data, name, engs, found(data, placeholder_bytes()), engs.len() as int)
}

/// The length of a byte slice: Rust keeps every slice within `isize::MAX` bytes. The
/// pair counts of such data always fit a `usize` ([`lemma_target_dnt_fits`]).
pub open spec fn countable(len: int) -> bool {
    len <= isize::MAX
}

/// The three names whose placeholders must all be gone.
pub open spec fn target_dnt(data: Seq<u8>) -> (nat, Seq<Seq<char>>) {
    let a = nearby_dnt(data, "Malachite Ore"@, "Malachite Ore".spec_bytes());
    let b = nearby_dnt(data, "Gold Ore"@, "Gold Ore".spec_bytes());
    let c = nearby_dnt(data, "Malachite Gem"@, "Malachite Gem".spec_bytes());
    (a.0 + b.0 + c.0, a.1 + b.1 + c.1)
}

/// Placeholders that start at least 16 bytes apart put at most five into the window of
/// 65 positions before `eng`.
proof fn lemma_scan_bound(data: Seq<u8>, name: Seq<char>, eng: usize, phs: Seq<usize>, k: int)
    requires
        0 <= k <= phs.len(),
        forall|a: int, b: int| 0 <= a < b < phs.len() ==> #[trigger] phs[a] + 16 <= #[trigger] phs[b],
    ensures
        nearby_scan(data, name, eng, phs, k).0 <= 5,
        nearby_scan(data, name, eng, phs, k).0 > 0 ==> 16 * (nearby_scan(data, name, eng, phs, k).0
            - 1) <= (if phs[k - 1] <= eng - 16 {
            phs[k - 1] as int
        } else {
            eng - 16
        }) - (eng - 80),
    decreases k,
{
    if k > 0 {
        lemma_scan_bound(data, name, eng, phs, k - 1);
        if k > 1 {
            assert(phs[k - 2] + 16 <= phs[k - 1]);
        }
    }
}

proof fn lemma_fold_bound(
    data: Seq<u8>,
    name: Seq<char>,
    engs: Seq<usize>,
    phs: Seq<usize>,
    k: int,
)
    requires
        0 <= k <= engs.len(),
        forall|a: int, b: int| 0 <= a < b < phs.len() ==> #[trigger] phs[a] + 16 <= #[trigger] phs[b],
    ensures
        nearby_fold(data, name, engs, phs, k).0 <= 5 * k,
    decreases k,
{
    if k > 0 {
        lemma_fold_bound(data, name, engs, phs, k - 1);
        lemma_scan_bound(data, name, engs[k - 1], phs, phs.len() as int);
    }
}

proof fn lemma_scan_mono(data: Seq<u8>, name: Seq<char>, eng: usize, phs: Seq<usize>, j: int, m: int)
    requires
        0 <= j <= m,
    ensures
        nearby_scan(data, name, eng, phs, j).0 <= nearby_scan(data, name, eng, phs, m).0,
    decreases m - j,
{
    if j < m {
        lemma_scan_mono(data, name, eng, phs, j, m - 1);
    }
}

proof fn lemma_fold_mono(
    data: Seq<u8>,
    name: Seq<char>,
    engs: Seq<usize>,
    phs: Seq<usize>,
    i: int,
    m: int,
)
    requires
        0 <= i <= m,
    ensures
        nearby_fold(data, name, engs, phs, i).0 <= nearby_fold(data, name, engs, phs, m).0,
    decreases m - i,
{
    if i < m {
        lemma_fold_mono(data, name, engs, phs, i, m - 1);
    }
}

/// Facts about [`found`]: increasing, and each position a real occurrence.
proof fn lemma_found(data: Seq<u8>, needle: Seq<u8>)
    requires
        data.len() <= usize::MAX,
    ensures
        forall|a: int, b: int|
            0 <= a < b < found(data, needle).len() ==> found(data, needle)[a] < found(
                data,
                needle,
            )[b],
        forall|a: int|
            0 <= a < found(data, needle).len() ==> occurs_at(
                data,
                needle,
                #[trigger] found(data, needle)[a] as int,
            ),
        found(data, needle).len() == match_positions(data, needle).len(),
{
    lemma_match_positions(data, needle);
    let m = match_positions(data, needle);
    assert forall|a: int, b: int|
        0 <= a < b < found(data, needle).len() implies found(data, needle)[a] < found(
        data,
        needle,
    )[b] by {
        assert(m[a] < m[b]);
        assert(m[b] + needle.len() <= data.len());
        assert(0 <= m[a]);
    }
    assert forall|a: int| 0 <= a < found(data, needle).len() implies occurs_at(
        data,
        needle,
        #[trigger] found(data, needle)[a] as int,
    ) by {
        assert(m.contains(m[a]));
        assert(m[a] + needle.len() <= data.len() && 0 <= m[a]);
    }
}

/// Placeholder positions stand at least 16 bytes apart.
proof fn lemma_placeholder_spacing(data: Seq<u8>)
    requires
        data.len() <= usize::MAX,
    ensures
        forall|a: int, b: int|
            0 <= a < b < found(data, placeholder_bytes()).len() ==> #[trigger] found(
                data,
                placeholder_bytes(),
            )[a] + 16 <= #[trigger] found(data, placeholder_bytes())[b],
{
    let phs = found(data, placeholder_bytes());
    lemma_found(data, placeholder_bytes());
    assert forall|a: int, b: int| 0 <= a < b < phs.len() implies #[trigger] phs[a] + 16 <= #[trigger] phs[b] by {
        assert(occurs_at(data, placeholder_bytes(), phs[a] as int));
        assert(occurs_at(data, placeholder_bytes(), phs[b] as int));
        lemma_placeholders_apart(data, phs[a] as int, phs[b] as int);
    }
}

/// At most five placeholders stand in the window before any one occurrence of a name:
/// the pair count is at most five times the number of occurrences.
pub proof fn lemma_nearby_bound(data: Seq<u8>, name: Seq<char>, name_bytes: Seq<u8>)
    requires
        data.len() <= usize::MAX,
    ensures
        nearby_dnt(data, name, name_bytes).0 <= 5 * found(data, name_bytes).len(),
{
    lemma_placeholder_spacing(data);
    let engs = found(data, name_bytes);
    lemma_fold_bound(data, name, engs, found(data, placeholder_bytes()), engs.len() as int);
}

/// The first byte of each target name stands nowhere else in it.
proof fn lemma_target_names()
    ensures
        first_unique("Malachite Ore".spec_bytes()),
        "Malachite Ore".spec_bytes().len() == 13,
        first_unique("Gold Ore".spec_bytes()),
        "Gold Ore".spec_bytes().len() == 8,
        first_unique("Malachite Gem".spec_bytes()),
        "Malachite Gem".spec_bytes().len() == 13,
{
    reveal_strlit("Malachite Ore");
    reveal_strlit("Gold Ore");
    reveal_strlit("Malachite Gem");
    assert(is_ascii("Malachite Ore"));
    assert(is_ascii("Gold Ore"));
    assert(is_ascii("Malachite Gem"));
    is_ascii_spec_bytes("Malachite Ore");
    is_ascii_spec_bytes("Gold Ore");
    is_ascii_spec_bytes("Malachite Gem");
}

proof fn lemma_name_bound(data: Seq<u8>, name: Seq<char>, name_bytes: Seq<u8>)
    requires
        data.len() <= usize::MAX,
        first_unique(name_bytes),
    ensures
        nearby_dnt(data, name, name_bytes).0 * name_bytes.len() <= 5 * data.len(),
{
    lemma_nearby_bound(data, name, name_bytes);
    lemma_match_count(data, name_bytes);
    lemma_found(data, name_bytes);
    let n = nearby_dnt(data, name, name_bytes).0 as int;
    let e = found(data, name_bytes).len() as int;
    let g = name_bytes.len() as int;
    assert(n * g <= 5 * e * g) by (nonlinear_arith)
        requires
            n <= 5 * e,
            g > 0,
    ;
    assert(5 * e * g <= 5 * data.len()) by (nonlinear_arith)
        requires
            e * g <= data.len(),
    ;
}

/// The three target names' pair counts of any byte slice fit a `usize`: the names never
/// overlap themselves, so they occur at most `len / 13`, `len / 8` and `len / 13`
/// times, each with at most five placeholders before it.
pub proof fn lemma_target_dnt_fits(data: Seq<u8>)
    requires
        countable(data.len() as int),
    ensures
        target_dnt(data).0 <= usize::MAX,
{
    lemma_target_names();
    lemma_name_bound(data, "Malachite Ore"@, "Malachite Ore".spec_bytes());
    lemma_name_bound(data, "Gold Ore"@, "Gold Ore".spec_bytes());
    lemma_name_bound(data, "Malachite Gem"@, "Malachite Gem".spec_bytes());
}

/// The count of the target names is the sum of each name's pair count, and its log
/// texts are theirs in order.
pub proof fn lemma_target_is_sum(data: Seq<u8>)
    ensures
        target_dnt(data).0 == nearby_dnt(data, "Malachite Ore"@, "Malachite Ore".spec_bytes()).0
            + nearby_dnt(data, "Gold Ore"@, "Gold Ore".spec_bytes()).0 + nearby_dnt(
            data,
            "Malachite Gem"@,
            "Malachite Gem".spec_bytes(),
        ).0,
        target_dnt(data).1 == nearby_dnt(data, "Malachite Ore"@, "Malachite Ore".spec_bytes()).1
            + nearby_dnt(data, "Gold Ore"@, "Gold Ore".spec_bytes()).1 + nearby_dnt(
            data,
            "Malachite Gem"@,
            "Malachite Gem".spec_bytes(),
        ).1,
{
}

fn remaining_text(name: &str, ph: usize, eng: usize, d: usize) -> (s: String)
    ensures
        s@ == remaining_msg(name@, ph as nat, eng as nat, d as nat),
{
    let mut s = owned("  remaining DNT near '");
    s.append(name);
    s.append("' at placeholder 0x");
    append_hex(&mut s, ph);
    s.append(", english 0x");
    append_hex(&mut s, eng);
    s.append(", distance=");
    append_decimal(&mut s, d);
    s
}

fn context_line(ctx: &String) -> (s: String)
    ensures
        s@ == context_msg(ctx@),
{
    let mut s = owned("  context: ");
    s.append(ctx.as_str());
    s
}

/// Counts the pairs of an occurrence of `english_name` and a placeholder that starts
/// 16 to 80 bytes before it, logging each pair with its context. The count must fit a
/// `usize` (for the target names it always does: [`lemma_target_dnt_fits`]).
pub fn count_nearby_dnt(data: &[u8], english_name: &str, log: &mut String) -> (count: usize)
    requires
        nearby_dnt(data@, english_name@, english_name.spec_bytes()).0 <= usize::MAX,
    ensures
        count == nearby_dnt(data@, english_name@, english_name.spec_bytes()).0,
        appends_lines(
            old(log)@,
            final(log)@,
            nearby_dnt(data@, english_name@, english_name.spec_bytes()).1,
        ),
{
    let english_positions = find_all(data, english_name.as_bytes());
    let placeholder_positions = find_all(data, PLACEHOLDER.as_bytes());
    let ghost engs = english_positions@;
    let ghost phs = placeholder_positions@;
    let ghost name = english_name@;
    let ghost log0 = log@;
    proof {
        lemma_placeholder();
        lemma_match_positions(data@, placeholder_bytes());
        lemma_appends_none(log0);
    }
    let ne = english_positions.len();
    let np = placeholder_positions.len();
    let dl = data.len();
    let mut count: usize = 0;
    let mut i: usize = 0;
    while i < ne
        invariant
            ne == engs.len(),
            np == phs.len(),
            engs == english_positions@,
            phs == placeholder_positions@,
            engs == found(data@, english_name.spec_bytes()),
            phs == found(data@, placeholder_bytes()),
            name == english_name@,
            nearby_fold(data@, name, engs, phs, ne as int).0 <= usize::MAX,
            forall|a: int|
                0 <= a < match_positions(data@, placeholder_bytes()).len() ==> #[trigger] match_positions(
                    data@,
                    placeholder_bytes(),
                )[a] + placeholder_bytes().len() <= data@.len() && 0 <= match_positions(
                    data@,
                    placeholder_bytes(),
                )[a],
            placeholder_bytes().len() == 16,
            dl == data@.len(),
            i <= ne,
            count == nearby_fold(data@, name, engs, phs, i as int).0,
            appends_lines(log0, log@, nearby_fold(data@, name, engs, phs, i as int).1),
        decreases ne - i,
    {
        let eng = english_positions[i];
        let ghost base = nearby_fold(data@, name, engs, phs, i as int);
        let ghost log_base = log@;
        proof {
            lemma_appends_none(log_base);
            lemma_fold_mono(data@, name, engs, phs, i as int + 1, ne as int);
        }
        let mut j: usize = 0;
        while j < np
            invariant
                np == phs.len(),
                phs == placeholder_positions@,
                phs == found(data@, placeholder_bytes()),
                forall|a: int|
                    0 <= a < match_positions(data@, placeholder_bytes()).len() ==> #[trigger] match_positions(
                        data@,
                        placeholder_bytes(),
                    )[a] + placeholder_bytes().len() <= data@.len() && 0 <= match_positions(
                        data@,
                        placeholder_bytes(),
                    )[a],
                dl == data@.len(),
                j <= np,
                count == base.0 + nearby_scan(data@, name, eng, phs, j as int).0,
                base.0 + nearby_scan(data@, name, eng, phs, np as int).0 <= usize::MAX,
                name == english_name@,
                appends_lines(log_base, log@, nearby_scan(data@, name, eng, phs, j as int).1),
            decreases np - j,
        {
            proof {
                lemma_scan_mono(data@, name, eng, phs, j as int + 1, np as int);
            }
            let ph = placeholder_positions[j];
            if eng >= ph {
                let distance = eng - ph;
                if 16 <= distance && distance <= 80 {
                    count = count + 1;
                    proof {
                        assert(ph as int == match_positions(data@, placeholder_bytes())[j as int]);
                    }
                    let ghost l0 = log@;
                    let m1 = remaining_text(english_name, ph, eng, distance);
                    log_line(log, m1.as_str());
                    let ghost l1 = log@;
                    let ctx = context(data, ph);
                    let m2 = context_line(&ctx);
                    log_line(log, m2.as_str());
                    proof {
                        let prev = nearby_scan(data@, name, eng, phs, j as int).1;
                        lemma_appends_chain(log_base, l0, l1, prev, seq![m1@]);
                        lemma_appends_chain(log_base, l1, log@, prev + seq![m1@], seq![m2@]);
                        assert(prev + seq![m1@] + seq![m2@] =~= prev + seq![m1@, m2@]);
                    }
                }
            }
            j = j + 1;
        }
        proof {
            lemma_appends_chain(
                log0,
                log_base,
                log@,
                base.1,
                nearby_scan(data@, name, eng, phs, phs.len() as int).1,
            );
        }
        i = i + 1;
    }
    count
}

} // verus!

verus! {

/// Counts the placeholders that still stand before `Malachite Ore`, `Gold Ore` and
/// `Malachite Gem`, logging each one. The sum must fit a `usize`, which it does for
/// every byte slice ([`lemma_target_dnt_fits`]).
pub fn count_target_dnt(data: &[u8], log: &mut String) -> (count: usize)
    requires
        target_dnt(data@).0 <= usize::MAX,
    ensures
        count == target_dnt(data@).0,
        appends_lines(old(log)@, final(log)@, target_dnt(data@).1),
{
    let ghost log0 = log@;
    let mut count: usize = 0;
    count = count + count_nearby_dnt(data, "Malachite Ore", log);
    let ghost log1 = log@;
    count = count + count_nearby_dnt(data, "Gold Ore", log);
    let ghost log2 = log@;
    count = count + count_nearby_dnt(data, "Malachite Gem", log);
    proof {
        let a = nearby_dnt(data@, "Malachite Ore"@, "Malachite Ore".spec_bytes());
        let b = nearby_dnt(data@, "Gold Ore"@, "Gold Ore".spec_bytes());
        let c = nearby_dnt(data@, "Malachite Gem"@, "Malachite Gem".spec_bytes());
        lemma_appends_chain(log0, log1, log2, a.1, b.1);
        lemma_appends_chain(log0, log2, log@, a.1 + b.1, c.1);
    }
    count
}

/// `needle` occurs somewhere in `data`.
pub open spec fn contains_bytes(data: Seq<u8>, needle: Seq<u8>) -> bool {
    exists|i: int| occurs_at(data, needle, i)
}

/// The replacement labels whose presence marks already patched data.
pub open spec fn looks_patched(data: Seq<u8>) -> bool {
    ||| contains_bytes(data, "Ruda malachitu  ".spec_bytes())
    ||| contains_bytes(data, "Ruda malachit   ".spec_bytes())
    ||| contains_bytes(data, "Malachit ruda   ".spec_bytes())
}

fn contains_needle(data: &[u8], needle: &str) -> (r: bool)
    requires
        needle.spec_bytes().len() > 0,
    ensures
        r == contains_bytes(data@, needle.spec_bytes()),
{
    let hits = find_all(data, needle.as_bytes());
    proof {
        lemma_match_positions(data@, needle.spec_bytes());
        let m = match_positions(data@, needle.spec_bytes());
        if hits.len() >= 1 {
            assert(m.contains(m[0]));
        }
        if contains_bytes(data@, needle.spec_bytes()) {
            let i = choose|i: int| occurs_at(data@, needle.spec_bytes(), i);
            assert(m.contains(i));
        }
    }
    hits.len() >= 1
}

proof fn lemma_ascii_nonempty(s: &str)
    requires
        is_ascii(s),
        s@.len() > 0,
    ensures
        s.spec_bytes().len() > 0,
{
    is_ascii_spec_bytes(s);
}

/// True when one of the replacement labels for `Malachite Ore` is already in the data.
pub fn looks_already_patched(data: &[u8]) -> (r: bool)
    ensures
        r == looks_patched(data@),
{
    proof {
        reveal_strlit("Ruda malachitu  ");
        reveal_strlit("Ruda malachit   ");
        reveal_strlit("Malachit ruda   ");
        lemma_ascii_nonempty("Ruda malachitu  ");
        lemma_ascii_nonempty("Ruda malachit   ");
        lemma_ascii_nonempty("Malachit ruda   ");
    }
    contains_needle(data, "Ruda malachitu  ") || contains_needle(data, "Ruda malachit   ")
        || contains_needle(data, "Malachit ruda   ")
}

} // verus!

verus! {

/// Data that holds the label that any of the patch sets writes for `Malachite Ore` looks
/// patched: a file this patcher wrote is recognized, whichever set it used.
pub proof fn lemma_patched_labels_recognized(data: Seq<u8>, i: int, j: int, at: int)
    requires
        0 <= i < patch_sets_spec(true).len(),
        0 <= j < patch_sets_spec(true)[i].1.len(),
        patch_sets_spec(true)[i].1[j].0 == "Malachite Ore"@,
        occurs_at(data, encode_utf8(patch_sets_spec(true)[i].1[j].1), at),
    ensures
        looks_patched(data),
{
    reveal_strlit("Malachite Ore");
    reveal_strlit("Gold Ore");
    reveal_strlit("Malachite Gem");
    reveal_strlit("Sapphire");
    reveal_strlit("Spinel");
    let names = patch_sets_spec(true)[i].1;
    if j != 0 {
        let n = names[j].0;
        if j == 1 {
            assert(n.len() == 8);
        } else if j == 2 {
            assert(n[10] == 'G');
        } else if j == 3 {
            assert(n.len() == 8);
        } else {
            assert(n.len() == 6);
        }
        assert(false);
    }
    assert(contains_bytes(data, encode_utf8(names[0].1)));
}

} // verus!

verus! {

/// The pairs that the scan over the first `i` placeholders finds for the name at `eng`.
spec fn scan_pairs(eng: usize, phs: Seq<usize>, i: int) -> Set<(int, int)>
    decreases i,
{
    if i <= 0 {
        Set::empty()
    } else {
        let prev = scan_pairs(eng, phs, i - 1);
        if in_window(eng as int, phs[i - 1] as int) {
            prev.insert((eng as int, phs[i - 1] as int))
        } else {
            prev
        }
    }
}

/// The pairs that the first `k` name positions have.
spec fn fold_pairs(engs: Seq<usize>, phs: Seq<usize>, k: int) -> Set<(int, int)>
    decreases k,
{
    if k <= 0 {
        Set::empty()
    } else {
        fold_pairs(engs, phs, k - 1).union(scan_pairs(engs[k - 1], phs, phs.len() as int))
    }
}

proof fn lemma_scan_pairs(data: Seq<u8>, name: Seq<char>, eng: usize, phs: Seq<usize>, i: int)
    requires
        0 <= i <= phs.len(),
        forall|a: int, b: int| 0 <= a < b < phs.len() ==> #[trigger] phs[a] < #[trigger] phs[b],
    ensures
        scan_pairs(eng, phs, i).finite(),
        scan_pairs(eng, phs, i).len() == nearby_scan(data, name, eng, phs, i).0,
        forall|x: (int, int)|
            #[trigger] scan_pairs(eng, phs, i).contains(x) <==> (x.0 == eng as int && in_window(
                x.0,
                x.1,
            ) && exists|t: int| 0 <= t < i && phs[t] as int == x.1),
    decreases i,
{
    if i > 0 {
        lemma_scan_pairs(data, name, eng, phs, i - 1);
        let prev = scan_pairs(eng, phs, i - 1);
        let y = (eng as int, phs[i - 1] as int);
        if in_window(eng as int, phs[i - 1] as int) {
            if prev.contains(y) {
                let t = choose|t: int| 0 <= t < i - 1 && phs[t] as int == y.1;
                assert(phs[t] < phs[i - 1]);
            }
        }
        assert forall|x: (int, int)| #[trigger] scan_pairs(eng, phs, i).contains(x) <==> (x.0
            == eng as int && in_window(x.0, x.1) && exists|t: int| 0 <= t < i && phs[t] as int == x.1) by {
            if scan_pairs(eng, phs, i).contains(x) {
                if prev.contains(x) {
                    let t = choose|t: int| 0 <= t < i - 1 && phs[t] as int == x.1;
                    assert(0 <= t < i && phs[t] as int == x.1);
                } else {
                    assert(x == y);
                    assert(phs[i - 1] as int == x.1);
                }
            }
            if x.0 == eng as int && in_window(x.0, x.1) && exists|t: int|
                0 <= t < i && phs[t] as int == x.1 {
                let t = choose|t: int| 0 <= t < i && phs[t] as int == x.1;
                if t < i - 1 {
                    assert(prev.contains(x));
                } else {
                    assert(x == y);
                }
            }
        }
    }
}

proof fn lemma_fold_pairs(data: Seq<u8>, name: Seq<char>, engs: Seq<usize>, phs: Seq<usize>, k: int)
    requires
        0 <= k <= engs.len(),
        forall|a: int, b: int| 0 <= a < b < phs.len() ==> #[trigger] phs[a] < #[trigger] phs[b],
        forall|a: int, b: int| 0 <= a < b < engs.len() ==> #[trigger] engs[a] < #[trigger] engs[b],
    ensures
        fold_pairs(engs, phs, k).finite(),
        fold_pairs(engs, phs, k).len() == nearby_fold(data, name, engs, phs, k).0,
        forall|x: (int, int)|
            #[trigger] fold_pairs(engs, phs, k).contains(x) <==> ((exists|t: int|
                0 <= t < k && engs[t] as int == x.0) && in_window(x.0, x.1) && exists|s: int|
                0 <= s < phs.len() && phs[s] as int == x.1),
    decreases k,
{
    if k > 0 {
        lemma_fold_pairs(data, name, engs, phs, k - 1);
        let a = fold_pairs(engs, phs, k - 1);
        let b = scan_pairs(engs[k - 1], phs, phs.len() as int);
        lemma_scan_pairs(data, name, engs[k - 1], phs, phs.len() as int);
        assert(a.disjoint(b)) by {
            assert forall|x: (int, int)| a.contains(x) implies !b.contains(x) by {
                let t = choose|t: int| 0 <= t < k - 1 && engs[t] as int == x.0;
                assert(engs[t] < engs[k - 1]);
            }
        }
        lemma_set_disjoint_lens(a, b);
        assert forall|x: (int, int)| #[trigger] fold_pairs(engs, phs, k).contains(x) <==> ((exists|
            t: int,
        | 0 <= t < k && engs[t] as int == x.0) && in_window(x.0, x.1) && exists|s: int|
            0 <= s < phs.len() && phs[s] as int == x.1) by {
            if a.contains(x) {
                let t = choose|t: int| 0 <= t < k - 1 && engs[t] as int == x.0;
                assert(0 <= t < k && engs[t] as int == x.0);
            }
            if b.contains(x) {
                assert(0 <= k - 1 < k && engs[k - 1] as int == x.0);
            }
            if (exists|t: int| 0 <= t < k && engs[t] as int == x.0) && in_window(x.0, x.1) && exists|
                s: int,
            | 0 <= s < phs.len() && phs[s] as int == x.1 {
                let t = choose|t: int| 0 <= t < k && engs[t] as int == x.0;
                if t < k - 1 {
                    assert(a.contains(x));
                } else {
                    assert(b.contains(x));
                }
            }
        }
    }
}

/// The pairs of an occurrence of `name_bytes` and an occurrence of the placeholder that
/// starts 16 to 80 bytes before it.
pub open spec fn dnt_pairs(data: Seq<u8>, name_bytes: Seq<u8>) -> Set<(int, int)> {
    Set::new(
        |x: (int, int)|
            occurs_at(data, name_bytes, x.0) && occurs_at(data, placeholder_bytes(), x.1) && 16
                <= x.0 - x.1 <= 80,
    )
}

/// The count of a name is the number of pairs of an occurrence of the name and an
/// occurrence of the placeholder 16 to 80 bytes before it, over every occurrence of the
/// name (for a name of at least one byte).
pub proof fn lemma_nearby_counts_pairs(data: Seq<u8>, name: Seq<char>, name_bytes: Seq<u8>)
    requires
        data.len() <= usize::MAX,
        name_bytes.len() > 0,
    ensures
        dnt_pairs(data, name_bytes).finite(),
        nearby_dnt(data, name, name_bytes).0 == dnt_pairs(data, name_bytes).len(),
{
    lemma_placeholder();
    lemma_found(data, name_bytes);
    lemma_found(data, placeholder_bytes());
    lemma_match_positions(data, name_bytes);
    lemma_match_positions(data, placeholder_bytes());
    let engs = found(data, name_bytes);
    let phs = found(data, placeholder_bytes());
    let me = match_positions(data, name_bytes);
    let mp = match_positions(data, placeholder_bytes());
    lemma_fold_pairs(data, name, engs, phs, engs.len() as int);
    let f = fold_pairs(engs, phs, engs.len() as int);
    assert forall|x: (int, int)| f.contains(x) <==> dnt_pairs(data, name_bytes).contains(x) by {
        if f.contains(x) {
            let t = choose|t: int| 0 <= t < engs.len() && engs[t] as int == x.0;
            let s = choose|s: int| 0 <= s < phs.len() && phs[s] as int == x.1;
            assert(occurs_at(data, name_bytes, engs[t] as int));
            assert(occurs_at(data, placeholder_bytes(), phs[s] as int));
        }
        if dnt_pairs(data, name_bytes).contains(x) {
            assert(me.contains(x.0));
            assert(mp.contains(x.1));
            let t = choose|t: int| 0 <= t < me.len() && me[t] == x.0;
            let s = choose|s: int| 0 <= s < mp.len() && mp[s] == x.1;
            assert(engs[t] as int == x.0);
            assert(phs[s] as int == x.1);
        }
    }
    assert(f =~= dnt_pairs(data, name_bytes));
}

} // verus!
