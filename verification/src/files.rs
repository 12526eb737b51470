//! Names of the folders and files the patcher writes and looks for.
use vstd::prelude::*;
use vstd::string::*;
use crate::steam::{chars_of, starts_with, starts_with_chars};
use crate::text::owned;

verus! {

/// The folder under the game folder that holds the backups.
pub const BACKUP_DIR: &'static str = "_dv2_localisation_patcher_backups";

/// The folder under the game folder that holds the run logs.
pub const LOG_DIR: &'static str = "_dv2_localisation_patcher_logs";

/// Steam's id of the game.
pub const STEAM_APP_ID: &'static str = "219780";

/// `s` ends with `p`.
pub open spec fn ends_with(s: Seq<char>, p: Seq<char>) -> bool {
    s.len() >= p.len() && s.subrange(s.len() - p.len(), s.len() as int) == p
}

/// `MainDataStreaming.dv2.{tag}.{stamp}.bak`
pub open spec fn backup_name(tag: Seq<char>, stamp: Seq<char>) -> Seq<char> {
    "MainDataStreaming.dv2."@ + tag + "."@ + stamp + ".bak"@
}

/// The file name of a backup made with `tag` at the time `stamp`.
pub fn backup_file_name(tag: &str, stamp: &str) -> (s: String)
    ensures
        s@ == backup_name(tag@, stamp@),
{
    let mut s = owned("MainDataStreaming.dv2.");
    s.append(tag);
    s.append(".");
    s.append(stamp);
    s.append(".bak");
    s
}

/// A backup's file name: it starts with `MainDataStreaming.dv2.` and ends with `.bak`.
pub open spec fn is_backup(name: Seq<char>) -> bool {
    starts_with(name, "MainDataStreaming.dv2."@) && ends_with(name, ".bak"@)
}

fn ends_with_chars(s: &[char], p: &[char]) -> (r: bool)
    ensures
        r == ends_with(s@, p@),
{
    if s.len() < p.len() {
        return false;
    }
    let sl = s.len();
    let off = sl - p.len();
    let n = p.len();
    let mut i: usize = 0;
    while i < n
        invariant
            n == p@.len(),
            off + n == s@.len(),
            sl == s@.len(),
            i <= n,
            forall|j: int| 0 <= j < i ==> s@[off + j] == p@[j],
        decreases n - i,
    {
        if s[off + i] != p[i] {
            assert(s@.subrange(off as int, off + n)[i as int] != p@[i as int]);
            return false;
        }
        i = i + 1;
    }
    assert(s@.subrange(off as int, off + n) =~= p@);
    true
}

/// Whether a file in the backup folder is one of the patcher's backups.
pub fn is_backup_name(name: &str) -> (r: bool)
    ensures
        r == is_backup(name@),
{
    let chars = chars_of(name);
    let prefix = chars_of("MainDataStreaming.dv2.");
    let suffix = chars_of(".bak");
    starts_with_chars(chars.as_slice(), prefix.as_slice()) && ends_with_chars(
        chars.as_slice(),
        suffix.as_slice(),
    )
}

/// Every backup the patcher makes is found again by a restore.
pub proof fn lemma_backup_name_recognized(tag: Seq<char>, stamp: Seq<char>)
    ensures
        is_backup(backup_name(tag, stamp)),
{
    let n = backup_name(tag, stamp);
    let pre = "MainDataStreaming.dv2."@;
    let suf = ".bak"@;
    assert(n == pre + (tag + "."@ + stamp) + suf);
    assert(n.subrange(0, pre.len() as int) =~= pre);
    assert(n.subrange(n.len() - suf.len(), n.len() as int) =~= suf);
}

/// The character at `i` of a time stamp: a dash at 8 and 15, a digit elsewhere.
pub open spec fn stamp_char(i: int, c: char) -> bool {
    if i == 8 || i == 15 {
        c == '-'
    } else {
        '0' <= c && c <= '9'
    }
}

/// A time stamp as the patcher writes it into a backup's name (`%Y%m%d-%H%M%S-%3f`):
/// eight digits, a dash, six digits, a dash, three digits.
pub open spec fn is_stamp(s: Seq<char>) -> bool {
    s.len() == 19 && forall|i: int| 0 <= i < 19 ==> stamp_char(i, #[trigger] s[i])
}

/// The stamp in a backup's name: the 19 characters between the last `.` and `.bak`,
/// when they form a stamp.
pub open spec fn stamp_of(name: Seq<char>) -> Option<Seq<char>> {
    let n = name.len() as int;
    if n >= 24 && ends_with(name, ".bak"@) && name[n - 24] == '.' && is_stamp(
        name.subrange(n - 23, n - 4),
    ) {
        Some(name.subrange(n - 23, n - 4))
    } else {
        None
    }
}

/// `x` comes no later than `y` in dictionary order of the characters. On stamps this is
/// the order of the times they write.
pub open spec fn lex_le(x: Seq<char>, y: Seq<char>) -> bool
    decreases x.len(),
{
    if x.len() == 0 {
        true
    } else if y.len() == 0 {
        false
    } else if x[0] < y[0] {
        true
    } else if x[0] == y[0] {
        lex_le(x.skip(1), y.skip(1))
    } else {
        false
    }
}

/// The order in which backups are taken: a name without a stamp first, then by stamp.
pub open spec fn stamp_le(a: Option<Seq<char>>, b: Option<Seq<char>>) -> bool {
    match a {
        None => true,
        Some(x) => match b {
            None => false,
            Some(y) => lex_le(x, y),
        },
    }
}

proof fn lemma_lex_total(x: Seq<char>, y: Seq<char>)
    ensures
        lex_le(x, y) || lex_le(y, x),
    decreases x.len(),
{
    if x.len() > 0 && y.len() > 0 && x[0] == y[0] {
        lemma_lex_total(x.skip(1), y.skip(1));
    }
}

proof fn lemma_lex_trans(x: Seq<char>, y: Seq<char>, z: Seq<char>)
    requires
        lex_le(x, y),
        lex_le(y, z),
    ensures
        lex_le(x, z),
    decreases x.len(),
{
    if x.len() > 0 && y.len() > 0 && z.len() > 0 && x[0] == y[0] && y[0] == z[0] {
        lemma_lex_trans(x.skip(1), y.skip(1), z.skip(1));
    }
}

proof fn lemma_stamp_total(a: Option<Seq<char>>, b: Option<Seq<char>>)
    ensures
        stamp_le(a, b) || stamp_le(b, a),
{
    if let (Some(x), Some(y)) = (a, b) {
        lemma_lex_total(x, y);
    }
}

proof fn lemma_stamp_trans(a: Option<Seq<char>>, b: Option<Seq<char>>, c: Option<Seq<char>>)
    requires
        stamp_le(a, b),
        stamp_le(b, c),
    ensures
        stamp_le(a, c),
{
    if let (Some(x), Some(y), Some(z)) = (a, b, c) {
        lemma_lex_trans(x, y, z);
    }
}

fn is_stamp_chars(s: &[char]) -> (r: bool)
    ensures
        r == is_stamp(s@),
{
    if s.len() != 19 {
        return false;
    }
    let mut i: usize = 0;
    while i < 19
        invariant
            s@.len() == 19,
            i <= 19,
            forall|j: int| 0 <= j < i ==> stamp_char(j, #[trigger] s@[j]),
        decreases 19 - i,
    {
        let c = s[i];
        let ok = if i == 8 || i == 15 {
            c == '-'
        } else {
            '0' <= c && c <= '9'
        };
        if !ok {
            assert(!stamp_char(i as int, s@[i as int]));
            return false;
        }
        i = i + 1;
    }
    true
}

/// The stamp in a backup's name, when it has one.
fn stamp_of_name(name: &str) -> (r: Option<Vec<char>>)
    ensures
        match r {
            Some(v) => stamp_of(name@) == Some(v@),
            None => stamp_of(name@) is None,
        },
{
    let chars = chars_of(name);
    let n = chars.len();
    if n < 24 {
        return None;
    }
    let suffix = chars_of(".bak");
    if !ends_with_chars(chars.as_slice(), suffix.as_slice()) || chars[n - 24] != '.' {
        return None;
    }
    let stamp = vstd::slice::slice_subrange(chars.as_slice(), n - 23, n - 4);
    if !is_stamp_chars(stamp) {
        return None;
    }
    Some(vstd::slice::slice_to_vec(stamp))
}

fn lex_le_chars(x: &[char], y: &[char]) -> (r: bool)
    ensures
        r == lex_le(x@, y@),
{
    let mut i: usize = 0;
    assert(x@.skip(0) =~= x@);
    assert(y@.skip(0) =~= y@);
    loop
        invariant
            i <= x@.len(),
            i <= y@.len(),
            lex_le(x@, y@) == lex_le(x@.skip(i as int), y@.skip(i as int)),
        decreases x@.len() - i,
    {
        if i == x.len() {
            return true;
        }
        if i == y.len() {
            return false;
        }
        let a = x[i];
        let b = y[i];
        assert(x@.skip(i as int)[0] == a);
        assert(y@.skip(i as int)[0] == b);
        if a < b {
            return true;
        }
        if a != b {
            return false;
        }
        assert(x@.skip(i as int).skip(1) =~= x@.skip(i + 1));
        assert(y@.skip(i as int).skip(1) =~= y@.skip(i + 1));
        i = i + 1;
    }
}

fn stamp_le_of(a: &Option<Vec<char>>, b: &Option<Vec<char>>) -> (r: bool)
    ensures
        r == stamp_le(
            match a {
                Some(v) => Some(v@),
                None => None,
            },
            match b {
                Some(v) => Some(v@),
                None => None,
            },
        ),
{
    match a {
        None => true,
        Some(x) => match b {
            None => false,
            Some(y) => lex_le_chars(x.as_slice(), y.as_slice()),
        },
    }
}

/// The stamps of a list of names.
pub open spec fn stamps_of(names: Seq<String>) -> Seq<Option<Seq<char>>> {
    names.map_values(|n: String| stamp_of(n@))
}

/// The newest backup among `names`: the one whose name holds the latest stamp, the last
/// of those with that stamp; names without a stamp come before all others. `None` when
/// there is no backup.
pub fn newest_backup(names: &[String]) -> (newest: Option<usize>)
    ensures
        newest is None <==> names@.len() == 0,
        newest matches Some(k) ==> {
            &&& k < names@.len()
            &&& forall|j: int|
                0 <= j < names@.len() ==> stamp_le(
                    #[trigger] stamps_of(names@)[j],
                    stamps_of(names@)[k as int],
                )
            &&& forall|j: int|
                k < j < names@.len() ==> !stamp_le(
                    stamps_of(names@)[k as int],
                    #[trigger] stamps_of(names@)[j],
                )
        },
{
    let ghost keys = stamps_of(names@);
    let n = names.len();
    if n == 0 {
        return None;
    }
    let mut best: usize = 0;
    let mut best_stamp = stamp_of_name(names[0].as_str());
    proof {
        lemma_stamp_total(keys[0], keys[0]);
    }
    let mut i: usize = 1;
    while i < n
        invariant
            n == names@.len(),
            keys == stamps_of(names@),
            1 <= i <= n,
            best < i,
            keys[best as int] == match best_stamp {
                Some(v) => Some(v@),
                None => None::<Seq<char>>,
            },
            forall|j: int| 0 <= j < i ==> stamp_le(#[trigger] keys[j], keys[best as int]),
            forall|j: int| best < j < i ==> !stamp_le(keys[best as int], #[trigger] keys[j]),
        decreases n - i,
    {
        let st = stamp_of_name(names[i].as_str());
        assert(keys[i as int] == stamp_of(names@[i as int]@));
        if stamp_le_of(&best_stamp, &st) {
            proof {
                assert forall|j: int| 0 <= j < i + 1 implies stamp_le(
                    #[trigger] keys[j],
                    keys[i as int],
                ) by {
                    if j < i {
                        lemma_stamp_trans(keys[j], keys[best as int], keys[i as int]);
                    } else {
                        lemma_stamp_total(keys[j], keys[j]);
                    }
                }
            }
            best = i;
            best_stamp = st;
        } else {
            proof {
                lemma_stamp_total(keys[best as int], keys[i as int]);
            }
        }
        i = i + 1;
    }
    Some(best)
}

/// Every backup the patcher makes is read back with the stamp it was made with, so a
/// restore takes the backup made last.
pub proof fn lemma_backup_stamp(tag: Seq<char>, stamp: Seq<char>)
    requires
        is_stamp(stamp),
    ensures
        stamp_of(backup_name(tag, stamp)) == Some(stamp),
{
    reveal_strlit(".bak");
    reveal_strlit(".");
    let name = backup_name(tag, stamp);
    let n = name.len() as int;
    let pre = "MainDataStreaming.dv2."@ + tag + "."@;
    assert(name == pre + stamp + ".bak"@);
    assert(name.subrange(n - 23, n - 4) =~= stamp);
    assert(name.subrange(n - 4, n) =~= ".bak"@);
    assert(name[n - 24] == pre[pre.len() - 1]);
}

/// `rust-zopfli-patcher-{stamp}.txt`
pub fn log_file_name(stamp: &str) -> (s: String)
    ensures
        s@ == "rust-zopfli-patcher-"@ + stamp@ + ".txt"@,
{
    let mut s = owned("rust-zopfli-patcher-");
    s.append(stamp);
    s.append(".txt");
    s
}

/// `appmanifest_219780.acf`, the game's app manifest.
pub fn manifest_file_name() -> (s: String)
    ensures
        s@ == "appmanifest_"@ + STEAM_APP_ID@ + ".acf"@,
{
    let mut s = owned("appmanifest_");
    s.append(STEAM_APP_ID);
    s.append(".acf");
    s
}

/// The usual Steam folders, looked at after the registry and the program folders.
pub fn fixed_steam_roots() -> (roots: Vec<String>)
    ensures
        roots@.map_values(|s: String| s@) == seq![
            "C:\\Program Files (x86)\\Steam"@,
            "C:\\Program Files\\Steam"@,
            "E:\\Steam"@,
            "D:\\Steam"@,
        ],
{
    let mut roots: Vec<String> = Vec::new();
    roots.push(owned("C:\\Program Files (x86)\\Steam"));
    roots.push(owned("C:\\Program Files\\Steam"));
    roots.push(owned("E:\\Steam"));
    roots.push(owned("D:\\Steam"));
    assert(roots@.map_values(|s: String| s@) =~= seq![
        "C:\\Program Files (x86)\\Steam"@,
        "C:\\Program Files\\Steam"@,
        "E:\\Steam"@,
        "D:\\Steam"@,
    ]);
    roots
}

} // verus!

verus! {

proof fn lemma_lex_first_difference(x: Seq<char>, y: Seq<char>, k: int)
    requires
        x.len() == y.len(),
        0 <= k < x.len(),
        x.subrange(0, k) == y.subrange(0, k),
        x[k] < y[k],
    ensures
        lex_le(x, y),
        !lex_le(y, x),
    decreases k,
{
    if k > 0 {
        assert(x[0] == x.subrange(0, k)[0]);
        assert(y[0] == y.subrange(0, k)[0]);
        assert(x.skip(1).subrange(0, k - 1) =~= x.subrange(0, k).skip(1));
        assert(y.skip(1).subrange(0, k - 1) =~= y.subrange(0, k).skip(1));
        lemma_lex_first_difference(x.skip(1), y.skip(1), k - 1);
    }
}

/// Every stamp the patcher writes is recognized, whatever its digits (any hour, any
/// millisecond): eight digits, a dash, six digits, a dash and three digits written into
/// a backup's name are read back as that stamp.
pub proof fn lemma_every_stamp_recognized(tag: Seq<char>, stamp: Seq<char>)
    requires
        stamp.len() == 19,
        stamp[8] == '-',
        stamp[15] == '-',
        forall|i: int| 0 <= i < 19 && i != 8 && i != 15 ==> '0' <= #[trigger] stamp[i] <= '9',
    ensures
        stamp_of(backup_name(tag, stamp)) == Some(stamp),
{
    assert forall|i: int| 0 <= i < 19 implies stamp_char(i, #[trigger] stamp[i]) by {}
    lemma_backup_stamp(tag, stamp);
}

/// Of two backups the patcher made, the one whose stamp is the later time (at the first
/// digit where the stamps differ, its digit is larger) is the newer: it sorts after the
/// other, whatever the tags, so a restore takes it.
pub proof fn lemma_later_stamp_is_newer(
    t1: Seq<char>,
    s1: Seq<char>,
    t2: Seq<char>,
    s2: Seq<char>,
    k: int,
)
    requires
        s1.len() == 19,
        s1[8] == '-',
        s1[15] == '-',
        forall|i: int| 0 <= i < 19 && i != 8 && i != 15 ==> '0' <= #[trigger] s1[i] <= '9',
        s2.len() == 19,
        s2[8] == '-',
        s2[15] == '-',
        forall|i: int| 0 <= i < 19 && i != 8 && i != 15 ==> '0' <= #[trigger] s2[i] <= '9',
        0 <= k < 19,
        s1.subrange(0, k) == s2.subrange(0, k),
        s1[k] < s2[k],
    ensures
        stamp_le(stamp_of(backup_name(t1, s1)), stamp_of(backup_name(t2, s2))),
        !stamp_le(stamp_of(backup_name(t2, s2)), stamp_of(backup_name(t1, s1))),
{
    lemma_every_stamp_recognized(t1, s1);
    lemma_every_stamp_recognized(t2, s2);
    lemma_lex_first_difference(s1, s2, k);
}

} // verus!
