//! The run log: every line is `[HH:MM:SS] text` followed by a newline.
use vstd::prelude::*;

verus! {

/// What `%H:%M:%S` prints: two digits, a colon, two digits, a colon, two digits.
pub open spec fn clock_text(s: Seq<char>) -> bool {
    &&& s.len() == 8
    &&& s[2] == ':' && s[5] == ':'
    &&& forall|i: int| 0 <= i < 8 && i != 2 && i != 5 ==> '0' <= #[trigger] s[i] <= '9'
}

/// One log line with the given stamp.
pub open spec fn stamped_line(stamp: Seq<char>, text: Seq<char>) -> Seq<char> {
    seq!['['] + stamp + seq![']', ' '] + text + seq!['\n']
}

/// The lines for `texts`, stamped in order with `stamps`.
pub open spec fn stamped_lines(stamps: Seq<Seq<char>>, texts: Seq<Seq<char>>) -> Seq<char>
    decreases texts.len(),
{
    if texts.len() == 0 {
        Seq::empty()
    } else {
        stamped_lines(stamps.drop_last(), texts.drop_last()) + stamped_line(
            stamps[texts.len() - 1],
            texts.last(),
        )
    }
}

/// Every stamp reads as a wall-clock time.
pub open spec fn all_clock(stamps: Seq<Seq<char>>) -> bool {
    forall|i: int| 0 <= i < stamps.len() ==> clock_text(#[trigger] stamps[i])
}

/// `after` is `before` followed by one stamped line for each of `texts`, in order.
pub open spec fn appends_lines(before: Seq<char>, after: Seq<char>, texts: Seq<Seq<char>>) -> bool {
    exists|stamps: Seq<Seq<char>>|
        #![trigger stamped_lines(stamps, texts)]
        stamps.len() == texts.len() && all_clock(stamps) && after == before + stamped_lines(stamps, texts)
}

proof fn lemma_stamped_lines_concat(
    s1: Seq<Seq<char>>,
    t1: Seq<Seq<char>>,
    s2: Seq<Seq<char>>,
    t2: Seq<Seq<char>>,
)
    requires
        s1.len() == t1.len(),
        s2.len() == t2.len(),
    ensures
        stamped_lines(s1 + s2, t1 + t2) == stamped_lines(s1, t1) + stamped_lines(s2, t2),
    decreases t2.len(),
{
    if t2.len() == 0 {
        assert(s1 + s2 =~= s1);
        assert(t1 + t2 =~= t1);
        assert(stamped_lines(s2, t2) =~= Seq::<char>::empty());
        assert(stamped_lines(s1, t1) + Seq::<char>::empty() =~= stamped_lines(s1, t1));
    } else {
        lemma_stamped_lines_concat(s1, t1, s2.drop_last(), t2.drop_last());
        assert((s1 + s2).drop_last() =~= s1 + s2.drop_last());
        assert((t1 + t2).drop_last() =~= t1 + t2.drop_last());
        assert((s1 + s2)[(t1 + t2).len() - 1] == s2[t2.len() - 1]);
        assert((t1 + t2).last() == t2.last());
        let l = stamped_line(s2[t2.len() - 1], t2.last());
        assert(stamped_lines(s1, t1) + stamped_lines(s2.drop_last(), t2.drop_last()) + l
            =~= stamped_lines(s1, t1) + (stamped_lines(s2.drop_last(), t2.drop_last()) + l));
    }
}

/// Appending nothing leaves the log as it was.
pub proof fn lemma_appends_none(log: Seq<char>)
    ensures
        appends_lines(log, log, Seq::empty()),
{
    let stamps = Seq::<Seq<char>>::empty();
    assert(stamped_lines(stamps, Seq::<Seq<char>>::empty()) =~= Seq::<char>::empty());
    assert(log + stamped_lines(stamps, Seq::<Seq<char>>::empty()) =~= log);
}

/// Appending `t1` and then `t2` appends `t1 + t2`.
pub proof fn lemma_appends_chain(
    a: Seq<char>,
    b: Seq<char>,
    c: Seq<char>,
    t1: Seq<Seq<char>>,
    t2: Seq<Seq<char>>,
)
    requires
        appends_lines(a, b, t1),
        appends_lines(b, c, t2),
    ensures
        appends_lines(a, c, t1 + t2),
{
    let s1 = choose|s: Seq<Seq<char>>|
        #![trigger stamped_lines(s, t1)]
        s.len() == t1.len() && all_clock(s) && b == a + stamped_lines(s, t1);
    let s2 = choose|s: Seq<Seq<char>>|
        #![trigger stamped_lines(s, t2)]
        s.len() == t2.len() && all_clock(s) && c == b + stamped_lines(s, t2);
    lemma_stamped_lines_concat(s1, t1, s2, t2);
    let s = s1 + s2;
    assert(all_clock(s)) by {
        assert forall|i: int| 0 <= i < s.len() implies clock_text(#[trigger] s[i]) by {
            if i < s1.len() {
                assert(s[i] == s1[i]);
            } else {
                assert(s[i] == s2[i - s1.len()]);
            }
        }
    }
    assert(c =~= a + stamped_lines(s, t1 + t2));
}

/// Appending one line: the single-text case of [`appends_lines`].
pub proof fn lemma_appends_one(before: Seq<char>, stamp: Seq<char>, text: Seq<char>)
    requires
        clock_text(stamp),
    ensures
        appends_lines(before, before + stamped_line(stamp, text), seq![text]),
{
    let stamps = seq![stamp];
    let texts = seq![text];
    assert(stamps.drop_last() =~= Seq::<Seq<char>>::empty());
    assert(texts.drop_last() =~= Seq::<Seq<char>>::empty());
    assert(stamped_lines(stamps.drop_last(), texts.drop_last()) =~= Seq::<char>::empty());
    assert(stamped_lines(stamps, texts) =~= stamped_line(stamp, text));
    assert(all_clock(stamps));
}

/// The local wall-clock time as `%H:%M:%S` (`chrono::Local::now().format(..)`).
/// Only the shape of the text is stated: which time it shows depends on the clock.
#[verifier::external_body]
fn timestamp_hms() -> (s: String)
    ensures
        clock_text(s@),
{
    chrono::Local::now().format("%H:%M:%S").to_string()
}

/// Appends `[HH:MM:SS] text` and a newline to the log.
pub fn log_line(log: &mut String, text: &str)
    ensures
        appends_lines(old(log)@, final(log)@, seq![text@]),
{
    let stamp = timestamp_hms();
    let ghost before = log@;
    crate::text::push_char(log, '[');
    log.append(stamp.as_str());
    crate::text::push_char(log, ']');
    crate::text::push_char(log, ' ');
    log.append(text);
    crate::text::push_char(log, '\n');
    proof {
        assert(log@ =~= before + stamped_line(stamp@, text@));
        lemma_appends_one(before, stamp@, text@);
    }
}

} // verus!

verus! {

/// [`log_line`] in the middle of a run: the lines since `start` grow by one.
pub(crate) fn log_more(
    log: &mut String,
    text: &str,
    Ghost(start): Ghost<Seq<char>>,
    Ghost(texts): Ghost<Seq<Seq<char>>>,
)
    requires
        appends_lines(start, old(log)@, texts),
    ensures
        appends_lines(start, final(log)@, texts.push(text@)),
{
    let ghost mid = log@;
    log_line(log, text);
    proof {
        lemma_appends_chain(start, mid, log@, texts, seq![text@]);
        assert(texts + seq![text@] =~= texts.push(text@));
    }
}

} // verus!
