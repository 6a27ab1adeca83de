//! The selector: trigger check, candidate scoring, the two-phase sort and
//! the laws that characterize the selection.

use vstd::prelude::*;
use vstd::string::StrSliceExecFns;

use crate::classify::score_line;
use crate::classify::spec_score;
use crate::text::line_spans;
use crate::text::split_lines;
use crate::text::trim_spec;
use crate::text::trim_str;

verus! {

/// Source language of the surrounding function. Accepted and currently
/// inert: a forward-compatibility hook for per-language scoring rules; it
/// must not affect the output.
#[derive(Clone, Copy, PartialEq, Eq, Debug)]
pub enum Lang {
    Rust,
    C,
    Python,
    JavaScript,
    Go,
    Other,
}

/// Minimum line-number gap (`end - start`) before truncation kicks in.
pub const MIN_LINES_FOR_TRUNCATION: u32 = 80;

/// Maximum number of lines to keep after truncation.
pub const MAX_KEPT_LINES: usize = 40;

/// The score of line `ln` of the buffer under the range `[start, end]`.
pub open spec fn line_score(s: Seq<char>, start: u32, end: u32, ln: u32) -> u32 {
    spec_score(trim_spec(split_lines(s)[ln - 1]), ln, start, end)
}

/// Line `ln` is scored at all: it lies in the range and the buffer has it.
/// A `start` of 0 leaves no candidates, since no line 0 exists.
pub open spec fn is_candidate(s: Seq<char>, start: u32, end: u32, ln: u32) -> bool {
    &&& 1 <= start
    &&& start <= ln <= end
    &&& ln <= split_lines(s).len()
}

/// How many lines are scored: the range clipped to the buffer's lines.
pub open spec fn num_candidates(s: Seq<char>, start: u32, end: u32) -> int {
    let m = if end as int <= split_lines(s).len() {
        end as int
    } else {
        split_lines(s).len() as int
    };
    if 1 <= start && start <= m {
        m - start + 1
    } else {
        0
    }
}

/// Line `a` ranks strictly before line `b`: a higher score, or the same
/// score and the smaller line number.
pub open spec fn ranks_before(s: Seq<char>, start: u32, end: u32, a: u32, b: u32) -> bool {
    ||| line_score(s, start, end, a) > line_score(s, start, end, b)
    ||| (line_score(s, start, end, a) == line_score(s, start, end, b) && a < b)
}

/// What the selector returns for a triggered range: the kept line numbers
/// are strictly ascending candidates, as many as the cap and the candidate
/// count allow, and no dropped candidate ranks before a kept one.
pub open spec fn selection_ok(s: Seq<char>, start: u32, end: u32, v: Seq<u32>) -> bool {
    &&& forall|i: int, j: int| 0 <= i < j < v.len() ==> v[i] < v[j]
    &&& forall|i: int| 0 <= i < v.len() ==> is_candidate(s, start, end, #[trigger] v[i])
    &&& v.len() == if num_candidates(s, start, end) <= MAX_KEPT_LINES as int {
        num_candidates(s, start, end)
    } else {
        MAX_KEPT_LINES as int
    }
    &&& forall|i: int, b: u32|
        0 <= i < v.len() && #[trigger] is_candidate(s, start, end, b) && !v.contains(b)
            ==> ranks_before(s, start, end, #[trigger] v[i], b)
}

/// Ranking order on `(line, score)` pairs: higher score first, then the
/// smaller line number. Total and transitive.
pub open spec fn rank_leq(a: (u32, u32), b: (u32, u32)) -> bool {
    a.1 > b.1 || (a.1 == b.1 && a.0 <= b.0)
}

/// Reading order on `(line, score)` pairs: ascending line number.
pub open spec fn pos_leq(a: (u32, u32), b: (u32, u32)) -> bool {
    a.0 <= b.0
}

proof fn lemma_insert_multiset(s: Seq<(u32, u32)>, pos: int, x: (u32, u32))
    requires
        0 <= pos <= s.len(),
    ensures
        s.insert(pos, x).to_multiset() =~= s.to_multiset().insert(x),
{
    let a = s.subrange(0, pos);
    let b = s.subrange(pos, s.len() as int);
    assert(s.insert(pos, x) == a.push(x) + b);
    vstd::seq_lib::lemma_multiset_commutative(a.push(x), b);
    vstd::seq_lib::lemma_multiset_commutative(a, b);
    a.to_multiset_ensures();
    assert(a + b =~= s);
}

fn rank_le(a: (u32, u32), b: (u32, u32)) -> (r: bool)
    ensures
        r == rank_leq(a, b),
{
    a.1 > b.1 || (a.1 == b.1 && a.0 <= b.0)
}

fn pos_le(a: (u32, u32), b: (u32, u32)) -> (r: bool)
    ensures
        r == pos_leq(a, b),
{
    a.0 <= b.0
}

/// Insertion sort by ranking order: highest score first, ties by the
/// smaller line number.
fn sort_ranked(input: &Vec<(u32, u32)>) -> (out: Vec<(u32, u32)>)
    ensures
        out@.to_multiset() == input@.to_multiset(),
        out@.len() == input@.len(),
        forall|i: int, j: int| 0 <= i <= j < out@.len() ==> rank_leq(#[trigger] out@[i], #[trigger] out@[j]),
{
    let mut out: Vec<(u32, u32)> = Vec::new();
    let n = input.len();
    let mut idx: usize = 0;
    proof {
        assert(input@.subrange(0, 0) =~= Seq::<(u32, u32)>::empty());
        Seq::<(u32, u32)>::empty().to_multiset_ensures();
    }
    while idx < n
        invariant
            n == input@.len(),
            0 <= idx <= n,
            out@.len() == idx,
            out@.to_multiset() == input@.subrange(0, idx as int).to_multiset(),
            forall|i: int, j: int| 0 <= i <= j < out@.len() ==> rank_leq(#[trigger] out@[i], #[trigger] out@[j]),
        decreases n - idx,
    {
        let x = input[idx];
        let mut pos: usize = 0;
        while pos < out.len() && rank_le(out[pos], x)
            invariant
                0 <= pos <= out@.len(),
                forall|i: int| 0 <= i < pos ==> rank_leq(#[trigger] out@[i], x),
            decreases out@.len() - pos,
        {
            pos = pos + 1;
        }
        proof {
            let o = out@;
            o.insert_ensures(pos as int, x);
            lemma_insert_multiset(o, pos as int, x);
            input@.subrange(0, idx as int).to_multiset_ensures();
            assert(input@.subrange(0, idx as int + 1) =~= input@.subrange(0, idx as int).push(
                input@[idx as int],
            ));
            assert(pos < o.len() ==> rank_leq(x, o[pos as int]));
            assert forall|i: int, j: int|
                0 <= i <= j < o.insert(pos as int, x).len() implies rank_leq(
                #[trigger] o.insert(pos as int, x)[i],
                #[trigger] o.insert(pos as int, x)[j],
            ) by {
                let v = o.insert(pos as int, x);
                if i < pos && j < pos {
                    assert(v[i] == o[i] && v[j] == o[j]);
                } else if i < pos && j == pos {
                    assert(v[i] == o[i] && v[j] == x);
                } else if i < pos && j > pos {
                    assert(v[i] == o[i] && v[j] == o[j - 1]);
                } else if i == pos && j == pos {
                } else if i == pos && j > pos {
                    assert(v[i] == x && v[j] == o[j - 1]);
                    assert(pos < o.len() ==> rank_leq(x, o[pos as int]));
                    assert(rank_leq(o[pos as int], o[j - 1]));
                } else {
                    assert(v[i] == o[i - 1] && v[j] == o[j - 1]);
                }
            }
        }
        out.insert(pos, x);
        idx = idx + 1;
    }
    proof {
        assert(input@.subrange(0, n as int) =~= input@);
    }
    out
}

/// A sequence of `(line, score)` pairs that holds one pair per candidate
/// line, in buffer order, each scored by the cascade.
pub open spec fn scored_candidates(s: Seq<char>, start: u32, end: u32, sc: Seq<(u32, u32)>) -> bool {
    &&& sc.len() == num_candidates(s, start, end)
    &&& forall|t: int|
        0 <= t < sc.len() ==> (#[trigger] sc[t]).0 as int == start as int + t && sc[t].1
            == line_score(s, start, end, sc[t].0)
}

/// The two-phase sort pinned down: ranking the scored candidates, keeping a
/// cap-bounded prefix and restoring reading order yields a selection that
/// `selection_ok` describes.
proof fn lemma_selection_from_sorts(
    s: Seq<char>,
    start: u32,
    end: u32,
    scored: Seq<(u32, u32)>,
    ranked: Seq<(u32, u32)>,
    kept: Seq<(u32, u32)>,
    ordered: Seq<(u32, u32)>,
    result: Seq<u32>,
)
    requires
        scored_candidates(s, start, end, scored),
        ranked.to_multiset() == scored.to_multiset(),
        ranked.len() == scored.len(),
        forall|i: int, j: int|
            0 <= i <= j < ranked.len() ==> rank_leq(#[trigger] ranked[i], #[trigger] ranked[j]),
        kept.len() == (if ranked.len() <= MAX_KEPT_LINES as int {
            ranked.len() as int
        } else {
            MAX_KEPT_LINES as int
        }),
        kept == ranked.subrange(0, kept.len() as int),
        ordered.to_multiset() == kept.to_multiset(),
        ordered.len() == kept.len(),
        forall|i: int, j: int|
            0 <= i <= j < ordered.len() ==> pos_leq(#[trigger] ordered[i], #[trigger] ordered[j]),
        result.len() == ordered.len(),
        forall|j: int| 0 <= j < result.len() ==> result[j] == (#[trigger] ordered[j]).0,
    ensures
        selection_ok(s, start, end, result),
{
    broadcast use vstd::multiset::group_multiset_axioms;

    scored.to_multiset_ensures();
    ranked.to_multiset_ensures();
    kept.to_multiset_ensures();
    ordered.to_multiset_ensures();
    let ncand = num_candidates(s, start, end);
    let nl = split_lines(s).len() as int;
    let m = if end as int <= nl {
        end as int
    } else {
        nl
    };
    assert(ncand == if 1 <= start && start as int <= m {
        m - start as int + 1
    } else {
        0
    });
    let bound = kept.len() as int;
    let dropped = ranked.subrange(bound, ranked.len() as int);
    dropped.to_multiset_ensures();
    assert(ranked =~= kept + dropped);
    vstd::seq_lib::lemma_multiset_commutative(kept, dropped);

    assert forall|i: int, j: int|
        0 <= i < scored.len() && 0 <= j < scored.len() && i != j implies scored[i]
        != scored[j] by {
        assert(scored[i].0 as int == start as int + i);
        assert(scored[j].0 as int == start as int + j);
    }
    assert(scored.no_duplicates());
    scored.lemma_multiset_has_no_duplicates();

    assert forall|t: int| 0 <= t < scored.len() implies is_candidate(
        s,
        start,
        end,
        (#[trigger] scored[t]).0,
    ) by {
        assert(scored[t].0 as int == start as int + t);
        assert(scored[t].0 as int <= m);
    }

    // Everything kept or ordered is one of the scored pairs.
    assert forall|p: (u32, u32)| kept.contains(p) implies scored.contains(p) by {
        assert(kept.to_multiset().count(p) > 0);
        assert(ranked.to_multiset().count(p) == kept.to_multiset().count(p)
            + dropped.to_multiset().count(p));
        assert(scored.to_multiset().count(p) > 0);
    }
    assert forall|p: (u32, u32)| ordered.contains(p) implies kept.contains(p) by {
        assert(ordered.to_multiset().count(p) > 0);
        assert(kept.to_multiset().count(p) > 0);
    }
    assert forall|p: (u32, u32)| kept.contains(p) implies ordered.contains(p) by {
        assert(kept.to_multiset().count(p) > 0);
        assert(ordered.to_multiset().count(p) > 0);
    }
    assert forall|p: (u32, u32)| scored.contains(p) implies p.1 == line_score(s, start, end, p.0)
        && is_candidate(s, start, end, p.0) by {
        let t = choose|t: int| 0 <= t < scored.len() && scored[t] == p;
        assert(scored[t].1 == line_score(s, start, end, scored[t].0));
        assert(is_candidate(s, start, end, scored[t].0));
    }

    // No pair occurs twice among the ordered pairs.
    assert forall|x: (u32, u32)| ordered.to_multiset().contains(x) implies
        ordered.to_multiset().count(x) == 1 by {
        assert(ordered.to_multiset().count(x) == kept.to_multiset().count(x));
        assert(ranked.to_multiset().count(x) == kept.to_multiset().count(x)
            + dropped.to_multiset().count(x));
        assert(scored.to_multiset().count(x) >= kept.to_multiset().count(x));
        if scored.contains(x) {
            assert(scored.to_multiset().count(x) == 1);
        } else {
            assert(scored.to_multiset().count(x) == 0);
        }
    }
    ordered.lemma_multiset_has_no_duplicates_conv();

    // Kept line numbers are strictly ascending in the result.
    assert forall|i: int, j: int| 0 <= i < j < result.len() implies result[i] < result[j] by {
        let p = ordered[i];
        let q = ordered[j];
        assert(pos_leq(p, q));
        assert(ordered.contains(p));
        assert(ordered.contains(q));
        assert(kept.contains(p) && kept.contains(q));
        assert(scored.contains(p) && scored.contains(q));
        if p.0 == q.0 {
            assert(p.1 == line_score(s, start, end, p.0));
            assert(q.1 == line_score(s, start, end, q.0));
            assert(p == q);
            assert(ordered[i] != ordered[j]);
            assert(false);
        }
    }

    assert forall|i: int| 0 <= i < result.len() implies is_candidate(
        s,
        start,
        end,
        #[trigger] result[i],
    ) by {
        let p = ordered[i];
        assert(ordered.contains(p));
        assert(kept.contains(p));
        assert(scored.contains(p));
    }

    // The dropped candidates all rank after every kept line.
    assert forall|i: int, b: u32|
        0 <= i < result.len() && #[trigger] is_candidate(s, start, end, b) && !result.contains(b)
        implies ranks_before(s, start, end, #[trigger] result[i], b) by {
        let pa = ordered[i];
        assert(ordered.contains(pa));
        assert(kept.contains(pa));
        assert(scored.contains(pa));
        assert(pa.1 == line_score(s, start, end, pa.0));
        let ia = choose|ia: int| 0 <= ia < kept.len() && kept[ia] == pa;
        assert(ranked[ia] == pa);
        let tb = b as int - start as int;
        assert(b as int <= m);
        assert(0 <= tb < scored.len());
        let pb = scored[tb];
        assert(pb.0 == b && pb.1 == line_score(s, start, end, b));
        assert(scored.contains(pb));
        assert(scored.to_multiset().count(pb) == 1);
        if kept.contains(pb) {
            assert(ordered.contains(pb));
            let jb = choose|jb: int| 0 <= jb < ordered.len() && ordered[jb] == pb;
            assert(result[jb] == b);
            assert(result.contains(b));
            assert(false);
        }
        assert(kept.to_multiset().count(pb) == 0);
        assert(ranked.to_multiset().count(pb) == kept.to_multiset().count(pb)
            + dropped.to_multiset().count(pb));
        assert(dropped.to_multiset().count(pb) >= 1);
        assert(dropped.contains(pb));
        let jd = choose|jd: int| 0 <= jd < dropped.len() && dropped[jd] == pb;
        assert(ranked[bound + jd] == pb);
        assert(ia < bound);
        assert(rank_leq(ranked[ia], ranked[bound + jd]));
        if pa.0 == b {
            assert(pa == pb);
            assert(false);
        }
        assert(rank_leq(pa, pb));
        assert(pa.0 != b);
    }

    assert(result.len() == if ncand <= MAX_KEPT_LINES as int {
        ncand
    } else {
        MAX_KEPT_LINES as int
    });
}

/// Insertion sort by reading order: ascending line number.
fn sort_by_line(input: &Vec<(u32, u32)>) -> (out: Vec<(u32, u32)>)
    ensures
        out@.to_multiset() == input@.to_multiset(),
        out@.len() == input@.len(),
        forall|i: int, j: int| 0 <= i <= j < out@.len() ==> pos_leq(#[trigger] out@[i], #[trigger] out@[j]),
{
    let mut out: Vec<(u32, u32)> = Vec::new();
    let n = input.len();
    let mut idx: usize = 0;
    proof {
        assert(input@.subrange(0, 0) =~= Seq::<(u32, u32)>::empty());
        Seq::<(u32, u32)>::empty().to_multiset_ensures();
    }
    while idx < n
        invariant
            n == input@.len(),
            0 <= idx <= n,
            out@.len() == idx,
            out@.to_multiset() == input@.subrange(0, idx as int).to_multiset(),
            forall|i: int, j: int| 0 <= i <= j < out@.len() ==> pos_leq(#[trigger] out@[i], #[trigger] out@[j]),
        decreases n - idx,
    {
        let x = input[idx];
        let mut pos: usize = 0;
        while pos < out.len() && pos_le(out[pos], x)
            invariant
                0 <= pos <= out@.len(),
                forall|i: int| 0 <= i < pos ==> pos_leq(#[trigger] out@[i], x),
            decreases out@.len() - pos,
        {
            pos = pos + 1;
        }
        proof {
            let o = out@;
            o.insert_ensures(pos as int, x);
            lemma_insert_multiset(o, pos as int, x);
            input@.subrange(0, idx as int).to_multiset_ensures();
            assert(input@.subrange(0, idx as int + 1) =~= input@.subrange(0, idx as int).push(
                input@[idx as int],
            ));
            assert(pos < o.len() ==> pos_leq(x, o[pos as int]));
            assert forall|i: int, j: int|
                0 <= i <= j < o.insert(pos as int, x).len() implies pos_leq(
                #[trigger] o.insert(pos as int, x)[i],
                #[trigger] o.insert(pos as int, x)[j],
            ) by {
                let v = o.insert(pos as int, x);
                if i < pos && j < pos {
                    assert(v[i] == o[i] && v[j] == o[j]);
                } else if i < pos && j == pos {
                    assert(v[i] == o[i] && v[j] == x);
                } else if i < pos && j > pos {
                    assert(v[i] == o[i] && v[j] == o[j - 1]);
                } else if i == pos && j == pos {
                } else if i == pos && j > pos {
                    assert(v[i] == x && v[j] == o[j - 1]);
                    assert(pos < o.len() ==> pos_leq(x, o[pos as int]));
                    assert(pos_leq(o[pos as int], o[j - 1]));
                } else {
                    assert(v[i] == o[i - 1] && v[j] == o[j - 1]);
                }
            }
        }
        out.insert(pos, x);
        idx = idx + 1;
    }
    proof {
        assert(input@.subrange(0, n as int) =~= input@);
    }
    out
}

/// Select diverse/important lines from a function body.
///
/// Returns `None` when the line-number gap `end - start` (saturating) is
/// below [`MIN_LINES_FOR_TRUNCATION`]: no truncation needed. Otherwise
/// returns `Some` of the 1-based line numbers to keep, sorted ascending:
/// the highest-ranked candidate lines of the range, at most
/// [`MAX_KEPT_LINES`] of them, boundary lines first among them. The language
/// tag is inert.
pub fn select_diverse_lines(content: &str, start: u32, end: u32, _lang: Lang) -> (r: Option<
    Vec<u32>,
>)
    ensures
        (r is Some) <==> end as int - start as int >= MIN_LINES_FOR_TRUNCATION as int,
        r matches Some(v) ==> selection_ok(content@, start, end, v@),
        r matches Some(v) ==> (1 <= start && start as int <= split_lines(content@).len()
            ==> v@.contains(start)),
        r matches Some(v) ==> (1 <= start && end as int <= split_lines(content@).len()
            ==> v@.contains(end)),
{
    if end.saturating_sub(start) < MIN_LINES_FOR_TRUNCATION {
        return None;
    }
    let ghost cs = content@;
    let spans = line_spans(content);
    let nlines = spans.len();
    let ghost nl = split_lines(cs).len() as int;
    let mut scored: Vec<(u32, u32)> = Vec::new();
    let last: u32 = if (end as usize) <= nlines {
        end
    } else {
        nlines as u32
    };
    assert(last as int == if end as int <= nl {
        end as int
    } else {
        nl
    });
    if start >= 1 && start <= last {
        let n_c: u32 = last - start + 1;
        assert(num_candidates(cs, start, end) == n_c as int);
        let mut off: u32 = 0;
        while off < n_c
            invariant
                1 <= start,
                start <= last,
                n_c == last - start + 1,
                last as int <= nl,
                last <= end,
                nl == split_lines(cs).len(),
                nlines as int == nl,
                cs == content@,
                spans@.len() == nl,
                forall|j: int|
                    0 <= j < spans@.len() ==> (#[trigger] spans@[j]).0 <= spans@[j].1 <= cs.len()
                        && split_lines(cs)[j] == cs.subrange(
                        spans@[j].0 as int,
                        spans@[j].1 as int,
                    ),
                0 <= off <= n_c,
                scored@.len() == off,
                forall|t: int|
                    0 <= t < scored@.len() ==> (#[trigger] scored@[t]).0 as int == start as int + t
                        && scored@[t].1 == line_score(cs, start, end, scored@[t].0),
            decreases n_c - off,
        {
            let ln: u32 = start + off;
            let idx: usize = (ln - 1) as usize;
            assert(spans@[idx as int].0 <= spans@[idx as int].1 <= cs.len());
            let span = spans[idx];
            let line = content.substring_char(span.0, span.1);
            let t = trim_str(line);
            let sc = score_line(t, ln, start, end);
            proof {
                assert(line@ == split_lines(cs)[ln - 1]);
                assert(sc == line_score(cs, start, end, ln));
            }
            scored.push((ln, sc));
            off = off + 1;
        }
    } else {
        assert(num_candidates(cs, start, end) == 0);
    }
    assert(scored_candidates(cs, start, end, scored@));
    let ranked = sort_ranked(&scored);
    let mut kept = ranked;
    let ghost ranked_view = kept@;
    kept.truncate(MAX_KEPT_LINES);
    proof {
        assert(ranked_view.subrange(0, ranked_view.len() as int) =~= ranked_view);
        if ranked_view.len() <= MAX_KEPT_LINES as int {
            assert(kept@ == ranked_view);
        } else {
            assert(kept@ == ranked_view.subrange(0, MAX_KEPT_LINES as int));
        }
        assert(kept@ == ranked_view.subrange(0, kept@.len() as int));
    }
    let ordered = sort_by_line(&kept);
    let mut result: Vec<u32> = Vec::new();
    let mut i: usize = 0;
    while i < ordered.len()
        invariant
            0 <= i <= ordered@.len(),
            result@.len() == i,
            forall|j: int| 0 <= j < i ==> result@[j] == (#[trigger] ordered@[j]).0,
        decreases ordered@.len() - i,
    {
        let p = ordered[i];
        result.push(p.0);
        i = i + 1;
    }
    proof {
        lemma_selection_from_sorts(cs, start, end, scored@, ranked_view, kept@, ordered@, result@);
        if 1 <= start && start as int <= nl {
            lemma_boundaries(cs, start, end, result@);
        }
    }
    Some(result)
}

/// Boundary inclusion is absolute: whenever the triggered range has any
/// candidate lines, the selection holds `start`, and it holds `end` whenever
/// the buffer reaches that far — whatever their content scores.
pub proof fn lemma_boundaries(s: Seq<char>, start: u32, end: u32, v: Seq<u32>)
    requires
        selection_ok(s, start, end, v),
        1 <= start,
        start < end,
        start as int <= split_lines(s).len(),
    ensures
        v.contains(start),
        end as int <= split_lines(s).len() ==> v.contains(end),
{
    let nl = split_lines(s).len() as int;
    let m = if end as int <= nl {
        end as int
    } else {
        nl
    };
    let ncand = num_candidates(s, start, end);
    assert(ncand == m - start as int + 1);
    assert(ncand >= 1);
    assert(v.len() >= 1);
    assert(is_candidate(s, start, end, start));
    assert(line_score(s, start, end, start) == 100);
    if !v.contains(start) {
        assert(ranks_before(s, start, end, v[0], start));
        assert(is_candidate(s, start, end, v[0]));
        assert(line_score(s, start, end, v[0]) <= 100);
        assert(v[0] >= start);
        assert(false);
    }
    if end as int <= nl {
        assert(is_candidate(s, start, end, end));
        assert(line_score(s, start, end, end) == 100);
        assert(ncand >= 2);
        assert(v.len() >= 2);
        if !v.contains(end) {
            assert(ranks_before(s, start, end, v[0], end));
            assert(ranks_before(s, start, end, v[1], end));
            assert(line_score(s, start, end, v[0]) == 100 && v[0] < end);
            assert(line_score(s, start, end, v[1]) == 100 && v[1] < end);
            assert(v[0] == start || v[0] == end) by {
                lemma_full_score_is_boundary(s, start, end, v[0]);
            }
            assert(v[1] == start || v[1] == end) by {
                lemma_full_score_is_boundary(s, start, end, v[1]);
            }
            assert(v[0] == start && v[1] == start);
            assert(v[0] < v[1]);
            assert(false);
        }
    }
}

/// Only the two boundary lines of a range can carry the boundary score.
proof fn lemma_full_score_is_boundary(s: Seq<char>, start: u32, end: u32, ln: u32)
    requires
        line_score(s, start, end, ln) == 100,
    ensures
        ln == start || ln == end,
{
    if ln != start && ln != end {
        assert(line_score(s, start, end, ln) <= 10);
    }
}

/// Preference ordering: a candidate that scores higher than some kept line
/// is itself kept; blank and comment lines never displace scored code lines.
pub proof fn lemma_preference(s: Seq<char>, start: u32, end: u32, v: Seq<u32>, a: u32, b: u32)
    requires
        selection_ok(s, start, end, v),
        is_candidate(s, start, end, a),
        is_candidate(s, start, end, b),
        v.contains(b),
        line_score(s, start, end, a) > line_score(s, start, end, b),
    ensures
        v.contains(a),
{
    if !v.contains(a) {
        let i = choose|i: int| 0 <= i < v.len() && v[i] == b;
        assert(ranks_before(s, start, end, v[i], a));
        assert(false);
    }
}

/// Two strictly ascending sequences with the same members are the same
/// sequence.
proof fn lemma_ascending_unique(v1: Seq<u32>, v2: Seq<u32>)
    requires
        forall|i: int, j: int| 0 <= i < j < v1.len() ==> v1[i] < v1[j],
        forall|i: int, j: int| 0 <= i < j < v2.len() ==> v2[i] < v2[j],
        forall|x: u32| v1.contains(x) <==> v2.contains(x),
    ensures
        v1 == v2,
    decreases v1.len(),
{
    if v1.len() == 0 {
        if v2.len() > 0 {
            assert(v2.contains(v2[0]));
            assert(v1.contains(v2[0]));
            assert(false);
        }
        assert(v1 =~= v2);
    } else {
        assert(v1.contains(v1[0]));
        assert(v2.contains(v1[0]));
        let j = choose|j: int| 0 <= j < v2.len() && v2[j] == v1[0];
        assert(v2[0] <= v1[0]);
        assert(v2.contains(v2[0]));
        assert(v1.contains(v2[0]));
        let i = choose|i: int| 0 <= i < v1.len() && v1[i] == v2[0];
        assert(v1[0] <= v2[0]);
        assert(v1[0] == v2[0]);
        let t1 = v1.drop_first();
        let t2 = v2.drop_first();
        assert forall|x: u32| t1.contains(x) implies t2.contains(x) by {
            let k = choose|k: int| 0 <= k < t1.len() && t1[k] == x;
            assert(v1[k + 1] == x);
            assert(v1.contains(x));
            assert(x > v1[0]);
            assert(v2.contains(x));
            let k2 = choose|k2: int| 0 <= k2 < v2.len() && v2[k2] == x;
            assert(k2 != 0);
            assert(t2[k2 - 1] == x);
        }
        assert forall|x: u32| t2.contains(x) implies t1.contains(x) by {
            let k = choose|k: int| 0 <= k < t2.len() && t2[k] == x;
            assert(v2[k + 1] == x);
            assert(v2.contains(x));
            assert(x > v2[0]);
            assert(v1.contains(x));
            let k2 = choose|k2: int| 0 <= k2 < v1.len() && v1[k2] == x;
            assert(k2 != 0);
            assert(t1[k2 - 1] == x);
        }
        assert forall|i2: int, j2: int| 0 <= i2 < j2 < t1.len() implies t1[i2] < t1[j2] by {
            assert(v1[i2 + 1] < v1[j2 + 1]);
        }
        assert forall|i2: int, j2: int| 0 <= i2 < j2 < t2.len() implies t2[i2] < t2[j2] by {
            assert(v2[i2 + 1] < v2[j2 + 1]);
        }
        lemma_ascending_unique(t1, t2);
        assert(v1.len() == t1.len() + 1);
        assert(v2.len() == t2.len() + 1);
        assert forall|k: int| 0 <= k < v1.len() implies v1[k] == v2[k] by {
            if k > 0 {
                assert(t1[k - 1] == v1[k]);
                assert(t2[k - 1] == v2[k]);
            }
        }
        assert(v1 =~= v2);
    }
}

/// The selection is a pure function of the buffer and the range: any two
/// sequences that satisfy the selection's characterization are identical,
/// so repeated calls with identical inputs yield identical output.
pub proof fn lemma_selection_deterministic(
    s: Seq<char>,
    start: u32,
    end: u32,
    v1: Seq<u32>,
    v2: Seq<u32>,
)
    requires
        selection_ok(s, start, end, v1),
        selection_ok(s, start, end, v2),
    ensures
        v1 == v2,
{
    assert forall|x: u32| v1.contains(x) implies v2.contains(x) by {
        lemma_kept_in_both(s, start, end, v1, v2, x);
    }
    assert forall|x: u32| v2.contains(x) implies v1.contains(x) by {
        lemma_kept_in_both(s, start, end, v2, v1, x);
    }
    lemma_ascending_unique(v1, v2);
}

/// A line kept by one valid selection is kept by every other: were it
/// dropped, the second selection, being of the same size, would keep some
/// line the first dropped, and each line would rank strictly before the
/// other.
proof fn lemma_kept_in_both(s: Seq<char>, start: u32, end: u32, v1: Seq<u32>, v2: Seq<u32>, x: u32)
    requires
        selection_ok(s, start, end, v1),
        selection_ok(s, start, end, v2),
        v1.contains(x),
    ensures
        v2.contains(x),
{
    broadcast use vstd::set_lib::group_set_lib_default;

    if !v2.contains(x) {
        lemma_dropped_elsewhere(s, start, end, v1, v2, x);
    }
}

/// The contradiction behind `lemma_kept_in_both`, reached when a kept line
/// of one valid selection is assumed missing from another.
proof fn lemma_dropped_elsewhere(
    s: Seq<char>,
    start: u32,
    end: u32,
    v1: Seq<u32>,
    v2: Seq<u32>,
    x: u32,
)
    requires
        selection_ok(s, start, end, v1),
        selection_ok(s, start, end, v2),
        v1.contains(x),
        !v2.contains(x),
    ensures
        v2.contains(x),
{
    broadcast use vstd::set_lib::group_set_lib_default;

    let ix = choose|ix: int| 0 <= ix < v1.len() && v1[ix] == x;
    assert(is_candidate(s, start, end, x));
    assert forall|i: int, j: int|
        0 <= i < v1.len() && 0 <= j < v1.len() && i != j implies v1[i] != v1[j] by {
        if i < j {
            assert(v1[i] < v1[j]);
        } else {
            assert(v1[j] < v1[i]);
        }
    }
    assert(v1.no_duplicates());
    assert forall|i: int, j: int|
        0 <= i < v2.len() && 0 <= j < v2.len() && i != j implies v2[i] != v2[j] by {
        if i < j {
            assert(v2[i] < v2[j]);
        } else {
            assert(v2[j] < v2[i]);
        }
    }
    assert(v2.no_duplicates());
    v1.unique_seq_to_set();
    v2.unique_seq_to_set();
    let s1 = v1.to_set();
    let s2 = v2.to_set();
    assert(v1.len() == v2.len());
    assert(s1.len() == s2.len());
    // v2 cannot sit inside v1 minus x: it is one short.
    if forall|y: u32| s2.contains(y) ==> s1.contains(y) {
        assert(s2.subset_of(s1.remove(x)));
        assert(s1.contains(x));
        assert(s1.remove(x).len() == s1.len() - 1);
        vstd::set_lib::lemma_len_subset(s2, s1.remove(x));
        assert(false);
    }
    let y = choose|y: u32| s2.contains(y) && !s1.contains(y);
    assert(v2.contains(y));
    assert(!v1.contains(y));
    assert(is_candidate(s, start, end, y));
    let iy = choose|iy: int| 0 <= iy < v2.len() && v2[iy] == y;
    assert(ranks_before(s, start, end, v1[ix], y));
    assert(ranks_before(s, start, end, v2[iy], x));
    assert(false);
}

} // verus!
