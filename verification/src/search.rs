//! Byte-pattern search and printable context around a position.
use vstd::prelude::*;

verus! {

/// `needle` stands in `data` starting at `i`.
pub open spec fn occurs_at(data: Seq<u8>, needle: Seq<u8>, i: int) -> bool {
    &&& 0 <= i
    &&& i + needle.len() <= data.len()
    &&& data.subrange(i, i + needle.len()) == needle
}

/// The positions below `k` at which `needle` occurs, in increasing order.
pub open spec fn positions_below(data: Seq<u8>, needle: Seq<u8>, k: int) -> Seq<int>
    decreases k,
{
    if k <= 0 {
        Seq::empty()
    } else if occurs_at(data, needle, k - 1) {
        positions_below(data, needle, k - 1).push(k - 1)
    } else {
        positions_below(data, needle, k - 1)
    }
}

/// All positions at which a non-empty `needle` occurs in `data`, in increasing order;
/// no position for an empty needle.
pub open spec fn match_positions(data: Seq<u8>, needle: Seq<u8>) -> Seq<int> {
    if needle.len() == 0 {
        Seq::empty()
    } else {
        positions_below(data, needle, data.len() - needle.len() + 1)
    }
}

/// [`match_positions`] as the `usize` values that [`find_all`] returns.
pub open spec fn found(data: Seq<u8>, needle: Seq<u8>) -> Seq<usize> {
    match_positions(data, needle).map_values(|x: int| x as usize)
}

/// The positions as `usize` values.
pub open spec fn as_ints(v: Seq<usize>) -> Seq<int> {
    v.map_values(|x: usize| x as int)
}

proof fn lemma_positions_below(data: Seq<u8>, needle: Seq<u8>, k: int)
    ensures
        forall|x: int|
            #![trigger positions_below(data, needle, k).contains(x)]
            positions_below(data, needle, k).contains(x) <==> (x < k && occurs_at(data, needle, x)),
        forall|a: int, b: int|
            #![trigger positions_below(data, needle, k)[a], positions_below(data, needle, k)[b]]
            0 <= a < b < positions_below(data, needle, k).len() ==> positions_below(
                data,
                needle,
                k,
            )[a] < positions_below(data, needle, k)[b],
        forall|a: int|
            0 <= a < positions_below(data, needle, k).len() ==> 0 <= #[trigger] positions_below(
                data,
                needle,
                k,
            )[a] < k,
    decreases k,
{
    if k > 0 {
        lemma_positions_below(data, needle, k - 1);
        let p = positions_below(data, needle, k - 1);
        if occurs_at(data, needle, k - 1) {
            assert forall|x: int|
                #![trigger positions_below(data, needle, k).contains(x)]
                positions_below(data, needle, k).contains(x) <==> (x < k && occurs_at(
                    data,
                    needle,
                    x,
                )) by {
                if positions_below(data, needle, k).contains(x) {
                    let j = choose|j: int|
                        0 <= j < p.push(k - 1).len() && #[trigger] p.push(k - 1)[j] == x;
                    if j < p.len() {
                        assert(p.contains(x));
                    }
                }
                if x < k && occurs_at(data, needle, x) {
                    if x == k - 1 {
                        assert(p.push(k - 1)[p.len() as int] == x);
                    } else {
                        assert(p.contains(x));
                        let j = choose|j: int| 0 <= j < p.len() && #[trigger] p[j] == x;
                        assert(p.push(k - 1)[j] == x);
                    }
                }
            }
        }
    }
}

/// What `find_all` returns: exactly the occurrences, each once, in increasing order.
pub proof fn lemma_match_positions(data: Seq<u8>, needle: Seq<u8>)
    ensures
        forall|x: int|
            #![trigger match_positions(data, needle).contains(x)]
            match_positions(data, needle).contains(x) <==> (needle.len() > 0 && occurs_at(
                data,
                needle,
                x,
            )),
        forall|a: int, b: int|
            #![trigger match_positions(data, needle)[a], match_positions(data, needle)[b]]
            0 <= a < b < match_positions(data, needle).len() ==> match_positions(data, needle)[a]
                < match_positions(data, needle)[b],
        forall|a: int|
            0 <= a < match_positions(data, needle).len() ==> #[trigger] match_positions(
                data,
                needle,
            )[a] + needle.len() <= data.len() && 0 <= match_positions(data, needle)[a],
{
    if needle.len() > 0 {
        let k = data.len() - needle.len() + 1;
        lemma_positions_below(data, needle, k);
        assert forall|a: int| 0 <= a < match_positions(data, needle).len() implies #[trigger] match_positions(
            data,
            needle,
        )[a] + needle.len() <= data.len() && 0 <= match_positions(data, needle)[a] by {
            let x = match_positions(data, needle)[a];
            assert(match_positions(data, needle).contains(x));
        }
    }
}

/// The first element of `needle` stands nowhere else in it.
pub open spec fn first_unique(needle: Seq<u8>) -> bool {
    needle.len() > 0 && forall|k: int| 0 < k < needle.len() ==> #[trigger] needle[k] != needle[0]
}

/// Occurrences of a needle whose first byte stands nowhere else in it never overlap.
pub proof fn lemma_occurrences_apart(data: Seq<u8>, needle: Seq<u8>, p: int, q: int)
    requires
        first_unique(needle),
        occurs_at(data, needle, p),
        occurs_at(data, needle, q),
        p < q,
    ensures
        q - p >= needle.len(),
{
    if q - p < needle.len() {
        let k = q - p;
        assert(data.subrange(q, q + needle.len())[0] == needle[0]);
        assert(data.subrange(p, p + needle.len())[k] == needle[k]);
        assert(data[q] == needle[0]);
        assert(data[p + k] == needle[k]);
    }
}

proof fn lemma_spaced_from(s: Seq<int>, g: int, j: int)
    requires
        g > 0,
        0 <= j < s.len(),
        forall|a: int| 0 < a < s.len() ==> #[trigger] s[a] >= s[a - 1] + g,
        s.len() > 0 ==> s[0] >= 0,
    ensures
        s[j] >= j * g,
    decreases j,
{
    if j > 0 {
        lemma_spaced_from(s, g, j - 1);
        assert(s[j] >= s[j - 1] + g);
        assert((j - 1) * g + g == j * g) by (nonlinear_arith);
        assert(s[j] >= (j - 1) * g + g);
    } else {
        assert(j * g == 0) by (nonlinear_arith)
            requires
                j == 0,
        ;
    }
}

/// A needle whose first byte stands nowhere else in it occurs at most
/// `data.len() / needle.len()` times: its occurrences take disjoint stretches.
pub proof fn lemma_match_count(data: Seq<u8>, needle: Seq<u8>)
    requires
        first_unique(needle),
    ensures
        match_positions(data, needle).len() * needle.len() <= data.len(),
{
    lemma_match_positions(data, needle);
    let m = match_positions(data, needle);
    let g = needle.len() as int;
    let n = m.len() as int;
    if n > 0 {
        assert forall|a: int| 0 < a < m.len() implies #[trigger] m[a] >= m[a - 1] + g by {
            assert(m.contains(m[a]));
            assert(m.contains(m[a - 1]));
            assert(m[a - 1] < m[a]);
            lemma_occurrences_apart(data, needle, m[a - 1], m[a]);
        }
        assert(m[0] >= 0);
        lemma_spaced_from(m, g, n - 1);
        assert(m[n - 1] + g <= data.len());
        assert((n - 1) * g + g == n * g) by (nonlinear_arith);
        assert(m[n - 1] >= (n - 1) * g);
    } else {
        assert(n * g == 0) by (nonlinear_arith)
            requires
                n == 0,
        ;
    }
}

fn matches_at(data: &[u8], needle: &[u8], i: usize) -> (r: bool)
    requires
        i + needle@.len() <= data@.len(),
    ensures
        r == occurs_at(data@, needle@, i as int),
{
    let n = needle.len();
    let dl = data.len();
    let mut j: usize = 0;
    while j < n
        invariant
            n == needle@.len(),
            dl == data@.len(),
            i + n <= data@.len(),
            j <= n,
            forall|t: int| 0 <= t < j ==> data@[i + t] == needle@[t],
        decreases n - j,
    {
        if data[i + j] != needle[j] {
            assert(data@.subrange(i as int, i + n)[j as int] != needle@[j as int]);
            return false;
        }
        j = j + 1;
    }
    assert(data@.subrange(i as int, i + n) =~= needle@);
    true
}

/// Every position at which `needle` occurs in `data`, in increasing order.
pub fn find_all(data: &[u8], needle: &[u8]) -> (out: Vec<usize>)
    ensures
        as_ints(out@) == match_positions(data@, needle@),
        out@ == found(data@, needle@),
{
    if needle.len() == 0 || needle.len() > data.len() {
        let out: Vec<usize> = Vec::new();
        assert(as_ints(out@) =~= match_positions(data@, needle@));
        assert(out@ =~= found(data@, needle@));
        return out;
    }
    let n = needle.len();
    let dl = data.len();
    let last = dl - n;
    let mut out: Vec<usize> = Vec::new();
    let mut i: usize = 0;
    while i <= last
        invariant
            n == needle@.len(),
            n > 0,
            last + n == data@.len(),
            dl == data@.len(),
            i <= last + 1,
            as_ints(out@) == positions_below(data@, needle@, i as int),
        decreases last + 1 - i,
    {
        let hit = matches_at(data, needle, i);
        let ghost before = out@;
        if hit {
            out.push(i);
            assert(as_ints(out@) =~= as_ints(before).push(i as int));
        }
        i = i + 1;
    }
    assert(out@ =~= found(data@, needle@)) by {
        assert forall|t: int| 0 <= t < out@.len() implies out@[t] == found(data@, needle@)[t] by {
            assert(as_ints(out@)[t] == out@[t] as int);
        }
    }
    out
}

/// What a byte shows as in a context dump: itself when printable ASCII, else a space.
pub open spec fn shown(b: u8) -> char {
    if 32 <= b <= 126 {
        b as char
    } else {
        ' '
    }
}

/// First byte of the context window: 80 bytes before `pos`, or the start of the data.
pub open spec fn context_start(pos: int) -> int {
    if pos >= 80 {
        pos - 80
    } else {
        0
    }
}

/// End of the context window: 220 bytes after its start, or the end of the data.
pub open spec fn context_end(len: int, pos: int) -> int {
    if context_start(pos) + 220 <= len {
        context_start(pos) + 220
    } else {
        len
    }
}

/// The bytes from 80 before `pos` to at most 220 bytes later, each shown as a character.
pub open spec fn context_text(data: Seq<u8>, pos: int) -> Seq<char> {
    data.subrange(context_start(pos), context_end(data.len() as int, pos)).map_values(
        |b: u8| shown(b),
    )
}

/// A printable rendering of up to 220 bytes around `pos`, starting 80 bytes before it.
pub fn context(data: &[u8], pos: usize) -> (s: String)
    requires
        context_start(pos as int) <= data@.len(),
    ensures
        s@ == context_text(data@, pos as int),
{
    let start: usize = if pos >= 80 { pos - 80 } else { 0 };
    let end: usize = if data.len() - start >= 220 { start + 220 } else { data.len() };
    let mut s = String::new();
    let mut i = start;
    while i < end
        invariant
            start <= i <= end <= data@.len(),
            start == context_start(pos as int),
            end == context_end(data@.len() as int, pos as int),
            s@ == data@.subrange(start as int, i as int).map_values(|b: u8| shown(b)),
        decreases end - i,
    {
        let b = data[i];
        let c = if 32 <= b && b <= 126 { b as char } else { ' ' };
        crate::text::push_char(&mut s, c);
        assert(data@.subrange(start as int, i + 1).map_values(|b: u8| shown(b)) =~= data@.subrange(
            start as int,
            i as int,
        ).map_values(|b: u8| shown(b)).push(shown(b)));
        i = i + 1;
    }
    s
}

} // verus!
