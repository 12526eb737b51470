//! Steam manifests: the install folder named in an app manifest and the library
//! folders listed in `libraryfolders.vdf`.
use vstd::prelude::*;
use crate::text::{opt_view, owned, push_char};

verus! {

/// The characters of `s`, in order.
pub fn chars_of(s: &str) -> (v: Vec<char>)
    ensures
        v@ == s@,
{
    let mut v: Vec<char> = Vec::new();
    for c in it: s.chars()
        invariant
            v@ == it.seq().take(it.index() as int),
    {
        v.push(c);
    }
    v
}

/// A string of the given characters.
pub fn string_of(v: &[char]) -> (s: String)
    ensures
        s@ == v@,
{
    let mut s = String::new();
    let n = v.len();
    let mut i: usize = 0;
    while i < n
        invariant
            n == v@.len(),
            i <= n,
            s@ == v@.take(i as int),
        decreases n - i,
    {
        push_char(&mut s, v[i]);
        assert(v@.take(i + 1) =~= v@.take(i as int).push(v@[i as int]));
        i = i + 1;
    }
    assert(v@.take(n as int) =~= v@);
    s
}

/// Unicode white space, as `char::is_whitespace` and `str::trim` take it.
pub open spec fn is_ws(c: char) -> bool {
    let u = c as u32;
    ||| 9 <= u <= 13
    ||| u == 32
    ||| u == 0x85
    ||| u == 0xA0
    ||| u == 0x1680
    ||| 0x2000 <= u <= 0x200A
    ||| u == 0x2028
    ||| u == 0x2029
    ||| u == 0x202F
    ||| u == 0x205F
    ||| u == 0x3000
}

fn is_whitespace(c: char) -> (r: bool)
    ensures
        r == is_ws(c),
{
    let u = c as u32;
    (9 <= u && u <= 13) || u == 32 || u == 0x85 || u == 0xA0 || u == 0x1680 || (0x2000 <= u && u
        <= 0x200A) || u == 0x2028 || u == 0x2029 || u == 0x202F || u == 0x205F || u == 0x3000
}

/// The first index from `i` on that holds no white space (or the length).
pub open spec fn lead(s: Seq<char>, i: int) -> int
    decreases s.len() - i,
{
    if 0 <= i < s.len() && is_ws(s[i]) {
        lead(s, i + 1)
    } else {
        i
    }
}

/// The end of `s[lo..j]` once white space at its end is dropped.
pub open spec fn trail(s: Seq<char>, j: int, lo: int) -> int
    decreases j - lo,
{
    if lo < j <= s.len() && is_ws(s[j - 1]) {
        trail(s, j - 1, lo)
    } else {
        j
    }
}

/// `s` without white space at either end (`str::trim`).
pub open spec fn trim(s: Seq<char>) -> Seq<char> {
    let a = lead(s, 0);
    s.subrange(a, trail(s, s.len() as int, a))
}

/// The pieces of `s` between occurrences of `sep` (`str::split` with a char): one more
/// piece than there are separators.
pub open spec fn split_on(s: Seq<char>, sep: char) -> Seq<Seq<char>>
    decreases s.len(),
{
    if s.len() == 0 {
        seq![Seq::empty()]
    } else {
        let rest = split_on(s.drop_last(), sep);
        if s.last() == sep {
            rest.push(Seq::empty())
        } else {
            rest.update(rest.len() - 1, rest.last().push(s.last()))
        }
    }
}

/// `s` with each pair of backslashes, taken from the left, made one
/// (`replace("\\\\", "\\")`).
pub open spec fn single_backslashes(s: Seq<char>) -> Seq<char>
    decreases s.len(),
{
    if s.len() == 0 {
        s
    } else if s.len() >= 2 && s[0] == '\\' && s[1] == '\\' {
        seq!['\\'] + single_backslashes(s.skip(2))
    } else {
        seq![s[0]] + single_backslashes(s.skip(1))
    }
}

/// `t` starts with `p`.
pub open spec fn starts_with(t: Seq<char>, p: Seq<char>) -> bool {
    t.len() >= p.len() && t.subrange(0, p.len() as int) == p
}

/// The value of a `"key" "value"` line: the trimmed line must start with `key` (quotes
/// included) and hold at least three quotes; the value is the text after the third
/// quote up to the next one, with doubled backslashes made single.
pub open spec fn line_value(line: Seq<char>, key: Seq<char>) -> Option<Seq<char>> {
    let t = trim(line);
    let q = split_on(t, '"');
    if starts_with(t, key) && q.len() >= 4 {
        Some(single_backslashes(q[3]))
    } else {
        None
    }
}

/// The first value of `key` among `lines[i..]`.
pub open spec fn first_value(lines: Seq<Seq<char>>, key: Seq<char>, i: int) -> Option<Seq<char>>
    decreases lines.len() - i,
{
    if i < 0 || i >= lines.len() {
        None
    } else {
        match line_value(lines[i], key) {
            Some(v) => Some(v),
            None => first_value(lines, key, i + 1),
        }
    }
}

/// Every value of `key` among the first `k` lines, in order.
pub open spec fn all_values(lines: Seq<Seq<char>>, key: Seq<char>, k: int) -> Seq<Seq<char>>
    decreases k,
{
    if k <= 0 {
        Seq::empty()
    } else {
        match line_value(lines[k - 1], key) {
            Some(v) => all_values(lines, key, k - 1).push(v),
            None => all_values(lines, key, k - 1),
        }
    }
}

/// The lines of `text`. Pieces between newlines; once trimmed, they are the lines that
/// `str::lines` gives (a carriage return before a newline and an empty last line make
/// no difference to a trimmed line's value).
pub open spec fn text_lines(text: Seq<char>) -> Seq<Seq<char>> {
    split_on(text, '\n')
}

fn split_chars(s: &[char], sep: char) -> (pieces: Vec<Vec<char>>)
    ensures
        pieces@.map_values(|p: Vec<char>| p@) == split_on(s@, sep),
{
    let mut pieces: Vec<Vec<char>> = Vec::new();
    let mut cur: Vec<char> = Vec::new();
    let n = s.len();
    let mut i: usize = 0;
    assert(s@.take(0) =~= Seq::<char>::empty());
    assert(pieces@.map_values(|p: Vec<char>| p@).push(cur@) =~= seq![Seq::<char>::empty()]);
    while i < n
        invariant
            n == s@.len(),
            i <= n,
            pieces@.map_values(|p: Vec<char>| p@).push(cur@) == split_on(s@.take(i as int), sep),
        decreases n - i,
    {
        let c = s[i];
        let ghost before = pieces@.map_values(|p: Vec<char>| p@).push(cur@);
        assert(s@.take(i + 1).drop_last() =~= s@.take(i as int));
        if c == sep {
            let done = cur;
            pieces.push(done);
            cur = Vec::new();
            assert(pieces@.map_values(|p: Vec<char>| p@).push(cur@) =~= before.push(Seq::empty()));
        } else {
            cur.push(c);
            assert(pieces@.map_values(|p: Vec<char>| p@).push(cur@) =~= before.update(
                before.len() - 1,
                before.last().push(c),
            ));
        }
        i = i + 1;
    }
    assert(s@.take(n as int) =~= s@);
    pieces.push(cur);
    pieces
}

pub(crate) fn trim_bounds(s: &[char]) -> (r: (usize, usize))
    ensures
        r.0 == lead(s@, 0),
        r.1 == trail(s@, s@.len() as int, r.0 as int),
        r.0 <= r.1 <= s@.len(),
{
    let n = s.len();
    let mut a: usize = 0;
    while a < n && is_whitespace(s[a])
        invariant
            n == s@.len(),
            a <= n,
            lead(s@, a as int) == lead(s@, 0),
        decreases n - a,
    {
        a = a + 1;
    }
    let mut b: usize = n;
    while b > a && is_whitespace(s[b - 1])
        invariant
            n == s@.len(),
            a <= b <= n,
            trail(s@, b as int, a as int) == trail(s@, n as int, a as int),
        decreases b,
    {
        b = b - 1;
    }
    (a, b)
}

fn single_backslashes_of(s: &[char]) -> (out: Vec<char>)
    ensures
        out@ == single_backslashes(s@),
{
    let mut out: Vec<char> = Vec::new();
    let n = s.len();
    let mut i: usize = 0;
    assert(s@.skip(0) =~= s@);
    assert(out@ + single_backslashes(s@) =~= single_backslashes(s@));
    while i < n
        invariant
            n == s@.len(),
            i <= n,
            out@ + single_backslashes(s@.skip(i as int)) == single_backslashes(s@),
        decreases n - i,
    {
        let ghost rest = s@.skip(i as int);
        if i + 1 < n && s[i] == '\\' && s[i + 1] == '\\' {
            out.push('\\');
            assert(rest.skip(2) =~= s@.skip(i + 2));
            assert(out@ + single_backslashes(s@.skip(i + 2)) =~= single_backslashes(s@));
            i = i + 2;
        } else {
            out.push(s[i]);
            assert(rest.skip(1) =~= s@.skip(i + 1));
            assert(out@ + single_backslashes(s@.skip(i + 1)) =~= single_backslashes(s@));
            i = i + 1;
        }
    }
    assert(s@.skip(n as int) =~= Seq::<char>::empty());
    assert(out@ + Seq::<char>::empty() =~= out@);
    out
}

pub(crate) fn starts_with_chars(t: &[char], p: &[char]) -> (r: bool)
    ensures
        r == starts_with(t@, p@),
{
    if t.len() < p.len() {
        return false;
    }
    let n = p.len();
    let mut i: usize = 0;
    while i < n
        invariant
            n == p@.len(),
            n <= t@.len(),
            i <= n,
            forall|j: int| 0 <= j < i ==> t@[j] == p@[j],
        decreases n - i,
    {
        if t[i] != p[i] {
            assert(t@.subrange(0, n as int)[i as int] != p@[i as int]);
            return false;
        }
        i = i + 1;
    }
    assert(t@.subrange(0, n as int) =~= p@);
    true
}

fn value_of_line(line: &[char], key: &[char]) -> (r: Option<Vec<char>>)
    ensures
        match r {
            Some(v) => line_value(line@, key@) == Some(v@),
            None => line_value(line@, key@) is None,
        },
{
    let (a, b) = trim_bounds(line);
    let t = vstd::slice::slice_subrange(line, a, b);
    if !starts_with_chars(t, key) {
        return None;
    }
    let q = split_chars(t, '"');
    if q.len() < 4 {
        return None;
    }
    assert(q@.map_values(|p: Vec<char>| p@)[3] == q@[3]@);
    Some(single_backslashes_of(q[3].as_slice()))
}

/// The install folder named by the first `"installdir"` line of an app manifest.
pub fn parse_acf_installdir(text: &str) -> (r: Option<String>)
    ensures
        match r {
            Some(s) => first_value(text_lines(text@), "\"installdir\""@, 0) == Some(s@),
            None => first_value(text_lines(text@), "\"installdir\""@, 0) is None,
        },
{
    let chars = chars_of(text);
    let key = chars_of("\"installdir\"");
    let lines = split_chars(chars.as_slice(), '\n');
    let ghost ls = lines@.map_values(|p: Vec<char>| p@);
    let n = lines.len();
    let mut i: usize = 0;
    while i < n
        invariant
            n == lines@.len(),
            ls == lines@.map_values(|p: Vec<char>| p@),
            ls == text_lines(text@),
            key@ == "\"installdir\""@,
            i <= n,
            first_value(ls, key@, 0) == first_value(ls, key@, i as int),
        decreases n - i,
    {
        assert(ls[i as int] == lines@[i as int]@);
        match value_of_line(lines[i].as_slice(), key.as_slice()) {
            Some(v) => {
                return Some(string_of(v.as_slice()));
            },
            None => {},
        }
        i = i + 1;
    }
    None
}

/// Every library path named by a `"path"` line of `libraryfolders.vdf`, in order.
pub fn library_paths(text: &str) -> (paths: Vec<String>)
    ensures
        paths@.map_values(|p: String| p@) == all_values(
            text_lines(text@),
            "\"path\""@,
            text_lines(text@).len() as int,
        ),
{
    let chars = chars_of(text);
    let key = chars_of("\"path\"");
    let lines = split_chars(chars.as_slice(), '\n');
    let ghost ls = lines@.map_values(|p: Vec<char>| p@);
    let mut paths: Vec<String> = Vec::new();
    let n = lines.len();
    let mut i: usize = 0;
    while i < n
        invariant
            n == lines@.len(),
            ls == lines@.map_values(|p: Vec<char>| p@),
            ls == text_lines(text@),
            key@ == "\"path\""@,
            i <= n,
            paths@.map_values(|p: String| p@) == all_values(ls, key@, i as int),
        decreases n - i,
    {
        assert(ls[i as int] == lines@[i as int]@);
        match value_of_line(lines[i].as_slice(), key.as_slice()) {
            Some(v) => {
                let s = string_of(v.as_slice());
                paths.push(s);
                assert(paths@.map_values(|p: String| p@) =~= all_values(ls, key@, i as int).push(
                    v@,
                ));
            },
            None => {},
        }
        i = i + 1;
    }
    paths
}

} // verus!

verus! {

/// The index of the first probe that found the game, looking from `i` on.
pub open spec fn first_found(probes: Seq<Option<String>>, i: int) -> Option<int>
    decreases probes.len() - i,
{
    if i < 0 || i >= probes.len() {
        None
    } else if probes[i] is Some {
        Some(i)
    } else {
        first_found(probes, i + 1)
    }
}

/// The game folder found in the first library that holds the game: `probes` are the
/// libraries' results in the order they are searched (sorted, without duplicates).
pub fn detect_game_root(probes: &[Option<String>]) -> (found: Option<String>)
    ensures
        match first_found(probes@, 0) {
            Some(i) => found is Some && found.unwrap()@ == probes@[i].unwrap()@,
            None => found is None,
        },
{
    let n = probes.len();
    let mut i: usize = 0;
    while i < n
        invariant
            n == probes@.len(),
            i <= n,
            first_found(probes@, 0) == first_found(probes@, i as int),
        decreases n - i,
    {
        match &probes[i] {
            Some(root) => {
                return Some(owned(root.as_str()));
            },
            None => {},
        }
        i = i + 1;
    }
    None
}

/// The folder names under `steamapps/common` at which the game is looked for: the
/// manifest's install folder first, when there is one, then the known names.
pub open spec fn game_dir_names(installdir: Option<Seq<char>>) -> Seq<Seq<char>> {
    let known = seq![
        "divinity2_dev_cut"@,
        "Divinity2_dev_cut"@,
        "Divinity II - Developer's Cut"@,
        "Divinity II Developers Cut"@,
        "Divinity II - Developers Cut"@,
        "Divinity 2 Developer's Cut"@,
        "Divinity 2 Developers Cut"@,
    ];
    match installdir {
        Some(d) => seq![d] + known,
        None => known,
    }
}

/// The folder names to look for the game at, in order (see [`game_dir_names`]).
pub fn game_dir_candidates(installdir: Option<String>) -> (names: Vec<String>)
    ensures
        names@.map_values(|s: String| s@) == game_dir_names(opt_view(installdir)),
{
    let mut names: Vec<String> = Vec::new();
    let ghost dv = opt_view(installdir);
    match installdir {
        Some(d) => names.push(d),
        None => {},
    }
    names.push(owned("divinity2_dev_cut"));
    names.push(owned("Divinity2_dev_cut"));
    names.push(owned("Divinity II - Developer's Cut"));
    names.push(owned("Divinity II Developers Cut"));
    names.push(owned("Divinity II - Developers Cut"));
    names.push(owned("Divinity 2 Developer's Cut"));
    names.push(owned("Divinity 2 Developers Cut"));
    assert(names@.map_values(|s: String| s@) =~= game_dir_names(dv));
    names
}

} // verus!
