//! Character-sequence primitives: pattern predicates, whitespace trimming and
//! line splitting, each with an exact specification over `Seq<char>`.

use vstd::prelude::*;
use vstd::string::StrSliceExecFns;

verus! {

/// A character with the Unicode `White_Space` property, the set that
/// `str::trim` removes at either end of a string.
pub open spec fn is_space(c: char) -> bool {
    ||| c == '\u{0009}'
    ||| c == '\u{000a}'
    ||| c == '\u{000b}'
    ||| c == '\u{000c}'
    ||| c == '\u{000d}'
    ||| c == ' '
    ||| c == '\u{0085}'
    ||| c == '\u{00a0}'
    ||| c == '\u{1680}'
    ||| c == '\u{2000}'
    ||| c == '\u{2001}'
    ||| c == '\u{2002}'
    ||| c == '\u{2003}'
    ||| c == '\u{2004}'
    ||| c == '\u{2005}'
    ||| c == '\u{2006}'
    ||| c == '\u{2007}'
    ||| c == '\u{2008}'
    ||| c == '\u{2009}'
    ||| c == '\u{200a}'
    ||| c == '\u{2028}'
    ||| c == '\u{2029}'
    ||| c == '\u{202f}'
    ||| c == '\u{205f}'
    ||| c == '\u{3000}'
}

pub open spec fn starts_with(s: Seq<char>, p: Seq<char>) -> bool {
    p.len() <= s.len() && (forall|i: int| 0 <= i < p.len() ==> s[i] == p[i])
}

pub open spec fn ends_with(s: Seq<char>, p: Seq<char>) -> bool {
    p.len() <= s.len() && (forall|i: int| 0 <= i < p.len() ==> s[s.len() - p.len() + i] == p[i])
}

pub open spec fn seq_eq(s: Seq<char>, p: Seq<char>) -> bool {
    s.len() == p.len() && starts_with(s, p)
}

/// `p` occurs in `s` starting at position `k`.
pub open spec fn match_at(s: Seq<char>, p: Seq<char>, k: int) -> bool {
    0 <= k && k + p.len() <= s.len() && (forall|i: int| 0 <= i < p.len() ==> s[k + i] == p[i])
}

/// `p` occurs somewhere in `s` (substring containment).
pub open spec fn contains_seq(s: Seq<char>, p: Seq<char>) -> bool {
    exists|k: int| match_at(s, p, k)
}

pub open spec fn contains_char(s: Seq<char>, c: char) -> bool {
    exists|k: int| 0 <= k < s.len() && s[k] == c
}

/// `s` without its leading whitespace.
pub open spec fn drop_leading(s: Seq<char>) -> Seq<char>
    decreases s.len(),
{
    if s.len() > 0 && is_space(s[0]) {
        drop_leading(s.drop_first())
    } else {
        s
    }
}

/// `s` without its trailing whitespace.
pub open spec fn drop_trailing(s: Seq<char>) -> Seq<char>
    decreases s.len(),
{
    if s.len() > 0 && is_space(s[s.len() - 1]) {
        drop_trailing(s.drop_last())
    } else {
        s
    }
}

/// `s` without leading and trailing whitespace, as `str::trim` leaves it.
pub open spec fn trim_spec(s: Seq<char>) -> Seq<char> {
    drop_trailing(drop_leading(s))
}

/// The lines of a buffer: pieces separated by `'\n'`, a final terminator
/// producing no extra empty line, as `str::lines` splits (the `'\r'` of a
/// `"\r\n"` ending survives here; trimming removes it, since it is
/// whitespace).
pub open spec fn split_lines(s: Seq<char>) -> Seq<Seq<char>>
    decreases s.len(),
{
    if s.len() == 0 {
        Seq::empty()
    } else if s[0] == '\n' {
        seq![Seq::<char>::empty()] + split_lines(s.drop_first())
    } else {
        let rest = split_lines(s.drop_first());
        if rest.len() == 0 {
            seq![seq![s[0]]]
        } else {
            seq![seq![s[0]] + rest[0]] + rest.drop_first()
        }
    }
}

pub fn char_is_space(c: char) -> (r: bool)
    ensures
        r == is_space(c),
{
    c == '\u{0009}' || c == '\u{000a}' || c == '\u{000b}' || c == '\u{000c}' || c == '\u{000d}'
        || c == ' ' || c == '\u{0085}' || c == '\u{00a0}' || c == '\u{1680}' || c == '\u{2000}'
        || c == '\u{2001}' || c == '\u{2002}' || c == '\u{2003}' || c == '\u{2004}'
        || c == '\u{2005}' || c == '\u{2006}' || c == '\u{2007}' || c == '\u{2008}'
        || c == '\u{2009}' || c == '\u{200a}' || c == '\u{2028}' || c == '\u{2029}'
        || c == '\u{202f}' || c == '\u{205f}' || c == '\u{3000}'
}

pub fn str_starts_with(s: &str, p: &str) -> (r: bool)
    ensures
        r == starts_with(s@, p@),
{
    let sl = s.unicode_len();
    let pl = p.unicode_len();
    if pl > sl {
        return false;
    }
    let mut i: usize = 0;
    while i < pl
        invariant
            pl <= sl,
            sl == s@.len(),
            pl == p@.len(),
            0 <= i <= pl,
            forall|j: int| 0 <= j < i ==> s@[j] == p@[j],
        decreases pl - i,
    {
        if s.get_char(i) != p.get_char(i) {
            return false;
        }
        i = i + 1;
    }
    true
}

pub fn str_ends_with(s: &str, p: &str) -> (r: bool)
    ensures
        r == ends_with(s@, p@),
{
    let sl = s.unicode_len();
    let pl = p.unicode_len();
    if pl > sl {
        return false;
    }
    let off: usize = sl - pl;
    let mut i: usize = 0;
    while i < pl
        invariant
            pl <= sl,
            sl == s@.len(),
            pl == p@.len(),
            off == sl - pl,
            0 <= i <= pl,
            forall|j: int| 0 <= j < i ==> s@[off + j] == p@[j],
        decreases pl - i,
    {
        if s.get_char(off + i) != p.get_char(i) {
            return false;
        }
        i = i + 1;
    }
    true
}

pub fn str_eq(s: &str, p: &str) -> (r: bool)
    ensures
        r == seq_eq(s@, p@),
{
    if s.unicode_len() != p.unicode_len() {
        return false;
    }
    str_starts_with(s, p)
}

fn str_match_at(s: &str, p: &str, k: usize) -> (r: bool)
    requires
        k + p@.len() <= s@.len(),
    ensures
        r == match_at(s@, p@, k as int),
{
    let sl = s.unicode_len();
    let pl = p.unicode_len();
    let mut i: usize = 0;
    while i < pl
        invariant
            sl == s@.len(),
            pl == p@.len(),
            k + pl <= sl,
            0 <= i <= pl,
            forall|j: int| 0 <= j < i ==> s@[k + j] == p@[j],
        decreases pl - i,
    {
        if s.get_char(k + i) != p.get_char(i) {
            return false;
        }
        i = i + 1;
    }
    true
}

pub fn str_contains(s: &str, p: &str) -> (r: bool)
    ensures
        r == contains_seq(s@, p@),
{
    let sl = s.unicode_len();
    let pl = p.unicode_len();
    if pl > sl {
        return false;
    }
    let mut k: usize = 0;
    while k <= sl - pl
        invariant
            pl <= sl,
            sl == s@.len(),
            pl == p@.len(),
            0 <= k <= sl - pl + 1,
            forall|k2: int| 0 <= k2 < k ==> !match_at(s@, p@, k2),
        decreases sl - pl + 1 - k,
    {
        if str_match_at(s, p, k) {
            return true;
        }
        k = k + 1;
    }
    false
}

pub fn str_contains_char(s: &str, c: char) -> (r: bool)
    ensures
        r == contains_char(s@, c),
{
    let sl = s.unicode_len();
    let mut k: usize = 0;
    while k < sl
        invariant
            sl == s@.len(),
            0 <= k <= sl,
            forall|k2: int| 0 <= k2 < k ==> s@[k2] != c,
        decreases sl - k,
    {
        if s.get_char(k) == c {
            return true;
        }
        k = k + 1;
    }
    false
}

/// Scanning form of `split_lines`: if the first `k` characters hold no
/// newline and position `k` is a newline or the end, the first line is
/// `s.take(k)` and the rest of the lines split the remainder.
pub proof fn lemma_split_head(s: Seq<char>, k: int)
    requires
        0 <= k <= s.len(),
        forall|i: int| 0 <= i < k ==> s[i] != '\n',
        k == s.len() || s[k] == '\n',
    ensures
        k == s.len() && s.len() > 0 ==> split_lines(s) == seq![s],
        k < s.len() ==> split_lines(s) == seq![s.take(k)] + split_lines(s.skip(k + 1)),
    decreases k,
{
    if k == 0 {
        if s.len() > 0 {
            assert(s[0] == '\n');
            assert(s.take(0) =~= Seq::<char>::empty());
            assert(s.drop_first() =~= s.skip(1));
            assert(split_lines(s) == seq![s.take(0)] + split_lines(s.skip(1)));
        }
    } else {
        assert(s.len() > 0);
        assert(s[0] != '\n');
        let d = s.drop_first();
        lemma_split_head(d, k - 1);
        let rest = split_lines(d);
        if k == s.len() {
            if d.len() == 0 {
                assert(s =~= seq![s[0]]);
                assert(split_lines(s) == seq![seq![s[0]]]);
                assert(split_lines(s) =~= seq![s]);
            } else {
                assert(rest == seq![d]);
                assert(split_lines(s) == seq![seq![s[0]] + rest[0]] + rest.drop_first());
                assert(seq![s[0]] + d =~= s);
                assert(rest.drop_first() =~= Seq::<Seq<char>>::empty());
                assert(split_lines(s) =~= seq![s]);
            }
        } else {
            assert(rest == seq![d.take(k - 1)] + split_lines(d.skip(k)));
            assert(rest.len() > 0);
            assert(split_lines(s) == seq![seq![s[0]] + rest[0]] + rest.drop_first());
            assert(rest[0] == d.take(k - 1));
            assert(seq![s[0]] + d.take(k - 1) =~= s.take(k));
            assert(rest.drop_first() =~= split_lines(d.skip(k)));
            assert(d.skip(k) =~= s.skip(k + 1));
            assert(split_lines(s) =~= seq![s.take(k)] + split_lines(s.skip(k + 1)));
        }
    }
}

proof fn lemma_drop_leading(s: Seq<char>, a: int)
    requires
        0 <= a <= s.len(),
        forall|i: int| 0 <= i < a ==> is_space(s[i]),
        a == s.len() || !is_space(s[a]),
    ensures
        drop_leading(s) == s.subrange(a, s.len() as int),
    decreases a,
{
    if a == 0 {
        assert(s.subrange(0, s.len() as int) =~= s);
    } else {
        assert(is_space(s[0]));
        lemma_drop_leading(s.drop_first(), a - 1);
        assert(s.drop_first().subrange(a - 1, s.drop_first().len() as int) =~= s.subrange(
            a,
            s.len() as int,
        ));
    }
}

proof fn lemma_drop_trailing(s: Seq<char>, b: int)
    requires
        0 <= b <= s.len(),
        forall|i: int| b <= i < s.len() ==> is_space(s[i]),
        b == 0 || !is_space(s[b - 1]),
    ensures
        drop_trailing(s) == s.subrange(0, b),
    decreases s.len() - b,
{
    if b == s.len() {
        if s.len() > 0 && is_space(s[s.len() - 1]) {
            assert(!is_space(s[b - 1]));
            assert(false);
        }
        assert(s.subrange(0, b) =~= s);
    } else {
        assert(is_space(s[s.len() - 1]));
        lemma_drop_trailing(s.drop_last(), b);
        assert(s.drop_last().subrange(0, b) =~= s.subrange(0, b));
    }
}

/// The character-index span `[start, end)` of each line of `s`, in buffer
/// order, one span per line of `split_lines`.
pub fn line_spans(s: &str) -> (spans: Vec<(usize, usize)>)
    ensures
        spans@.len() == split_lines(s@).len(),
        forall|j: int|
            0 <= j < spans@.len() ==> (#[trigger] spans@[j]).0 <= spans@[j].1 <= s@.len()
                && split_lines(s@)[j] == s@.subrange(spans@[j].0 as int, spans@[j].1 as int),
{
    let len = s.unicode_len();
    let mut spans: Vec<(usize, usize)> = Vec::new();
    let mut pos: usize = 0;
    proof {
        assert(s@.skip(0) =~= s@);
        assert(split_lines(s@).skip(0) =~= split_lines(s@));
    }
    while pos < len
        invariant
            len == s@.len(),
            0 <= pos <= len,
            spans@.len() <= split_lines(s@).len(),
            split_lines(s@.skip(pos as int)) == split_lines(s@).skip(spans@.len() as int),
            forall|j: int|
                0 <= j < spans@.len() ==> (#[trigger] spans@[j]).0 <= spans@[j].1 <= s@.len()
                    && split_lines(s@)[j] == s@.subrange(spans@[j].0 as int, spans@[j].1 as int),
        decreases len - pos,
    {
        let mut e: usize = pos;
        while e < len && s.get_char(e) != '\n'
            invariant
                len == s@.len(),
                pos <= e <= len,
                forall|i: int| pos <= i < e ==> s@[i] != '\n',
            decreases len - e,
        {
            e = e + 1;
        }
        proof {
            let u = s@.skip(pos as int);
            let k = e - pos as int;
            assert forall|i: int| 0 <= i < k implies u[i] != '\n' by {
                assert(u[i] == s@[pos + i]);
            }
            lemma_split_head(u, k);
            let n0 = spans@.len() as int;
            let all = split_lines(s@);
            if e == len {
                assert(u.len() > 0);
                assert(split_lines(u) == seq![u]);
                assert(u =~= s@.subrange(pos as int, e as int));
                assert(all.skip(n0) == seq![u]);
                assert(all.skip(n0)[0] == u);
                assert(all[n0] == u);
                assert(all.len() == n0 + 1);
                assert(s@.skip(len as int) =~= Seq::<char>::empty());
                assert(split_lines(s@.skip(len as int)) =~= all.skip(n0 + 1));
            } else {
                assert(s@[e as int] == '\n');
                assert(u[k] == '\n');
                let head = u.take(k);
                let tail = split_lines(u.skip(k + 1));
                assert(split_lines(u) == seq![head] + tail);
                assert(head =~= s@.subrange(pos as int, e as int));
                assert(all.skip(n0) == seq![head] + tail);
                assert(all.skip(n0).len() == 1 + tail.len());
                assert(all.len() == n0 + 1 + tail.len());
                assert(all.skip(n0)[0] == head);
                assert(all[n0] == head);
                assert(u.skip(k + 1) =~= s@.skip(e as int + 1));
                assert(split_lines(s@.skip(e as int + 1)) == tail);
                assert forall|j: int| 0 <= j < tail.len() implies all.skip(n0 + 1)[j] == tail[j] by {
                    assert(all.skip(n0 + 1)[j] == all[n0 + 1 + j]);
                    assert(all.skip(n0)[1 + j] == all[n0 + 1 + j]);
                    assert((seq![head] + tail)[1 + j] == tail[j]);
                }
                assert(split_lines(s@.skip(e as int + 1)) =~= all.skip(n0 + 1));
            }
        }
        spans.push((pos, e));
        if e == len {
            pos = len;
        } else {
            pos = e + 1;
        }
    }
    proof {
        assert(s@.skip(pos as int) =~= Seq::<char>::empty());
        assert(split_lines(s@).skip(spans@.len() as int).len() == 0);
    }
    spans
}

/// Trim as `str::trim` does: the longest whitespace prefix and suffix gone.
pub fn trim_str(s: &str) -> (r: &str)
    ensures
        r@ == trim_spec(s@),
{
    let sl = s.unicode_len();
    let mut a: usize = 0;
    while a < sl && char_is_space(s.get_char(a))
        invariant
            sl == s@.len(),
            0 <= a <= sl,
            forall|i: int| 0 <= i < a ==> is_space(s@[i]),
        decreases sl - a,
    {
        a = a + 1;
    }
    let mut b: usize = sl;
    while b > a && char_is_space(s.get_char(b - 1))
        invariant
            sl == s@.len(),
            0 <= a <= b <= sl,
            a == sl || !is_space(s@[a as int]),
            forall|i: int| b <= i < sl ==> is_space(s@[i]),
        decreases b,
    {
        b = b - 1;
    }
    proof {
        lemma_drop_leading(s@, a as int);
        let u = s@.subrange(a as int, sl as int);
        lemma_drop_trailing(u, b - a);
        assert(u.subrange(0, b - a) =~= s@.subrange(a as int, b as int));
    }
    s.substring_char(a, b)
}

} // verus!
