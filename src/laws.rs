//! Facts about every scan: the shape of its result, where the cursor falls,
//! and that the result depends on the line and the cursor alone.
use vstd::prelude::*;
use crate::lexer::{
    assign_run, blank_run, curly_run, dq_run, keyword_run, lemma_blank_run_bounds,
    lemma_curly_run_bounds, lemma_dq_run_bounds, lemma_letter_run_bounds, lemma_name_run_bounds,
    lemma_token_run_bounds, letter_run, reserved_word, separator_run, token_run, DOLLAR, DQUOTE,
    LPAREN,
};
use crate::model::{
    cursor_agrees, cursor_index, cursor_offset, shift, shift_spans, spans_of, spans_sorted,
    well_formed, Match, MatchModel,
};
use crate::scanner::{
    begun, clamp, closer_byte, closer_of, command_scan, ends_at, fresh_state, joined, opens_group,
    pushed, quoted_from, rel, restarted, scan_from, spaced, ScanState, Terminator,
};

verus! {

/// A scanner state that the scanner can reach on a line of `len` bytes.
pub open spec fn state_ok(st: ScanState, len: int) -> bool {
    &&& 0 <= st.i <= len
    &&& st.start is None ==> st.tokens.len() == 0 && !st.open
    &&& st.start is Some ==> 0 <= st.start.unwrap() <= st.i && spans_sorted(
        st.tokens,
        st.start.unwrap(),
        st.i,
    )
    &&& st.open ==> st.tokens.len() > 0 && st.tokens.last().1 == st.i
}

pub proof fn lemma_keyword_run_bounds(s: Seq<u8>, i: int)
    requires
        0 <= i <= s.len(),
    ensures
        keyword_run(s, i) == 0 || (3 <= keyword_run(s, i) && i + keyword_run(s, i) <= s.len()),
{
    let n = letter_run(s, i);
    lemma_letter_run_bounds(s, i);
    if keyword_run(s, i) > 0 {
        assert(reserved_word(s.subrange(i, i + n)));
        assert(s.subrange(i, i + n).len() == n);
    }
}

pub proof fn lemma_assign_run_bounds(s: Seq<u8>, i: int)
    requires
        0 <= i <= s.len(),
    ensures
        assign_run(s, i) == 0 || (2 <= assign_run(s, i) && i + assign_run(s, i) <= s.len()),
{
    lemma_name_run_bounds(s, i);
}

pub proof fn lemma_shift_sorted(toks: Seq<(int, int)>, lo: int, hi: int, x: int, lo2: int)
    requires
        spans_sorted(toks, lo, hi),
        lo2 <= lo + x,
    ensures
        spans_sorted(shift_spans(toks, x), lo2, hi + x),
{
    let t = shift_spans(toks, x);
    assert forall|k: int| 0 <= k < t.len() implies lo2 <= #[trigger] t[k].0 < t[k].1 <= hi + x by {
        assert(lo <= toks[k].0 < toks[k].1 <= hi);
    }
    assert forall|k: int| 0 <= k < t.len() - 1 implies #[trigger] t[k].1 <= t[k + 1].0 by {
        assert(toks[k].1 <= toks[k + 1].0);
    }
}

pub proof fn lemma_cursor_index_bounds(toks: Seq<(int, int)>, p: int)
    ensures
        0 <= cursor_index(toks, p) <= toks.len(),
    decreases toks.len(),
{
    if toks.len() > 0 {
        lemma_cursor_index_bounds(toks.drop_last(), p);
    }
}

pub proof fn lemma_shift_cursor(toks: Seq<(int, int)>, x: int, p: int)
    ensures
        cursor_index(shift_spans(toks, x), p + x) == cursor_index(toks, p),
        cursor_offset(shift_spans(toks, x), p + x) == cursor_offset(toks, p),
    decreases toks.len(),
{
    if toks.len() > 0 {
        assert(shift_spans(toks, x).drop_last() =~= shift_spans(toks.drop_last(), x));
        lemma_shift_cursor(toks.drop_last(), x, p);
    }
}

pub proof fn lemma_shift_well_formed(m: MatchModel, x: int, len: int, p: int)
    requires
        0 <= x,
        well_formed(m, len - x),
        cursor_agrees(m, rel(p, x)),
    ensures
        well_formed(shift(m, x, 0), len),
        cursor_agrees(shift(m, x, 0), p),
{
    lemma_shift_sorted(m.tokens, m.start, m.end, x, m.start + x);
    assert(shift_spans(m.tokens, x).len() == m.tokens.len());
    if p >= x {
        lemma_shift_cursor(m.tokens, x, p - x);
    }
}

pub proof fn lemma_joined_ok(st: ScanState, a: int, b: int, len: int)
    requires
        state_ok(st, len),
        st.start is Some,
        a == st.i,
        a < b <= len,
    ensures
        state_ok(joined(st, a, b), len),
        state_ok(pushed(st, a, b), len),
{
    let lo = st.start.unwrap();
    let toks = st.tokens;
    let p2 = toks.push((a, b));
    assert forall|k: int| 0 <= k < p2.len() implies lo <= #[trigger] p2[k].0 < p2[k].1 <= b by {
        if k < toks.len() {
            assert(lo <= toks[k].0 < toks[k].1 <= a);
        }
    }
    assert forall|k: int| 0 <= k < p2.len() - 1 implies #[trigger] p2[k].1 <= p2[k + 1].0 by {
        if k < toks.len() - 1 {
            assert(toks[k].1 <= toks[k + 1].0);
        } else {
            assert(toks[k].1 <= a);
        }
    }
    if st.open {
        let last = toks.last();
        let j2 = toks.drop_last().push((last.0, b));
        assert(lo <= toks[toks.len() - 1].0 < toks[toks.len() - 1].1);
        assert forall|k: int| 0 <= k < j2.len() implies lo <= #[trigger] j2[k].0 < j2[k].1 <= b by {
            assert(lo <= toks[k].0 < toks[k].1 <= a);
        }
        assert forall|k: int| 0 <= k < j2.len() - 1 implies #[trigger] j2[k].1 <= j2[k + 1].0 by {
            assert(toks[k].1 <= toks[k + 1].0);
        }
    }
}

/// Every result of the statement scanner is well formed, and its cursor fields
/// agree with its words.
pub proof fn lemma_scan_from(s: Seq<u8>, p: int, t: Option<Terminator>, st: ScanState)
    requires
        state_ok(st, s.len() as int),
    ensures
        well_formed(scan_from(s, p, t, st), s.len() as int),
        cursor_agrees(scan_from(s, p, t, st), p),
    decreases s.len(), s.len() - st.i,
{
    let i = st.i;
    let len = s.len() as int;
    lemma_cursor_index_bounds(st.tokens, p);
    if i < 0 || i >= len {
    } else if t is Some && ends_at(s, i, t.unwrap()) {
    } else if blank_run(s, i) > 0 {
        lemma_blank_run_bounds(s, i);
        lemma_scan_from(s, p, t, spaced(st, i + blank_run(s, i)));
    } else {
        let fresh = st.start is None;
        let st = begun(st);
        assert(state_ok(st, len));
        if s[i] == DQUOTE {
            let sub = s.subrange(i + 1, len);
            let m = quoted_from(sub, rel(p, i + 1), 0);
            lemma_quoted_from(sub, rel(p, i + 1), 0);
            if m.found {
                lemma_shift_well_formed(m, i + 1, len, p);
            } else {
                let j = clamp(i + 1 + m.end, i + 1, len);
                lemma_joined_ok(st, i, j, len);
                lemma_scan_from(s, p, t, joined(st, i, j));
            }
        } else if curly_run(s, i) > 0 {
            lemma_curly_run_bounds(s, i);
            lemma_joined_ok(st, i, i + curly_run(s, i), len);
            lemma_scan_from(s, p, t, pushed(st, i, i + curly_run(s, i)));
        } else if opens_group(s[i]) {
            let close = closer_of(s[i]);
            let sub = s.subrange(i + 1, len);
            let m = scan_from(sub, rel(p, i + 1), Some(close), fresh_state());
            lemma_scan_from(sub, rel(p, i + 1), Some(close), fresh_state());
            if m.found {
                lemma_shift_well_formed(m, i + 1, len, p);
            } else if p == i + 1 {
                lemma_shift_sorted(m.tokens, m.start, m.end, i + 1, i + 1);
                lemma_cursor_index_bounds(shift_spans(m.tokens, i + 1), p);
            } else {
                let j = clamp(i + 1 + m.end, i + 1, len);
                let j = if j < len && s[j] == closer_byte(close) {
                    j + 1
                } else {
                    j
                };
                lemma_joined_ok(st, i, j, len);
                lemma_scan_from(s, p, t, joined(st, i, j));
            }
        } else if fresh && keyword_run(s, i) > 0 {
            let k = keyword_run(s, i);
            lemma_keyword_run_bounds(s, i);
            if i + k > p {
                lemma_joined_ok(st, i, i + k - 1, len);
                lemma_cursor_index_bounds(pushed(st, i, i + k - 1).tokens, p);
            } else {
                lemma_scan_from(s, p, t, restarted(i + k));
            }
        } else if fresh && assign_run(s, i) > 0 {
            lemma_assign_run_bounds(s, i);
            let a = i + assign_run(s, i);
            let sub = s.subrange(a, len);
            let m = scan_from(sub, rel(p, a), Some(Terminator::Blank), fresh_state());
            lemma_scan_from(sub, rel(p, a), Some(Terminator::Blank), fresh_state());
            if a >= p || (m.found && m.start == 0) {
                lemma_cursor_index_bounds(seq![(i, a + m.end)], p);
            } else if m.found {
                lemma_shift_well_formed(m, a, len, p);
            } else {
                lemma_scan_from(s, p, t, restarted(clamp(a + m.end, a, len)));
            }
        } else if separator_run(s, i) > 0 {
            if i > p {
            } else {
                lemma_scan_from(s, p, t, restarted(i + separator_run(s, i)));
            }
        } else if token_run(s, i) > 0 {
            lemma_token_run_bounds(s, i);
            lemma_joined_ok(st, i, i + token_run(s, i), len);
            lemma_scan_from(s, p, t, joined(st, i, i + token_run(s, i)));
        } else {
            lemma_joined_ok(st, i, i + 1, len);
            lemma_scan_from(s, p, t, pushed(st, i, i + 1));
        }
    }
}

/// Every result of the quoted-string scanner is well formed, and its cursor
/// fields agree with its words.
pub proof fn lemma_quoted_from(s: Seq<u8>, p: int, i: int)
    requires
        0 <= i <= s.len(),
    ensures
        well_formed(quoted_from(s, p, i), s.len() as int),
        cursor_agrees(quoted_from(s, p, i), p),
    decreases s.len(), s.len() - i,
{
    let len = s.len() as int;
    lemma_cursor_index_bounds(seq![], p);
    if i >= len {
    } else if s[i] == DQUOTE {
    } else if s[i] == DOLLAR && i + 1 < len && s[i + 1] == LPAREN {
        let sub = s.subrange(i + 2, len);
        let m = scan_from(sub, rel(p, i + 2), Some(Terminator::CloseParen), fresh_state());
        lemma_scan_from(sub, rel(p, i + 2), Some(Terminator::CloseParen), fresh_state());
        if m.found {
            lemma_shift_well_formed(m, i + 2, len, p);
        } else {
            lemma_quoted_from(s, p, clamp(i + 2 + m.end, i + 2, len));
        }
    } else {
        lemma_dq_run_bounds(s, i);
        lemma_quoted_from(s, p, i + dq_run(s, i));
    }
}

/// Each start of a sorted list of words is at or before every later start.
pub proof fn lemma_starts_ordered(toks: Seq<(int, int)>, lo: int, hi: int, j: int, m: int)
    requires
        spans_sorted(toks, lo, hi),
        0 <= j <= m < toks.len(),
    ensures
        toks[j].0 <= toks[m].0,
    decreases m - j,
{
    if j < m {
        lemma_starts_ordered(toks, lo, hi, j, m - 1);
        assert(toks[m - 1].0 < toks[m - 1].1);
        assert(toks[m - 1].1 <= toks[m].0);
    }
}

/// The cursor at `p` lies in word `k`: from its first byte to its end, and
/// before the next word begins.
pub open spec fn in_word(toks: Seq<(int, int)>, k: int, p: int) -> bool {
    &&& 0 <= k < toks.len()
    &&& toks[k].0 <= p <= toks[k].1
    &&& k + 1 < toks.len() ==> p < toks[k + 1].0
}

pub proof fn lemma_cursor_index_in_word(toks: Seq<(int, int)>, lo: int, hi: int, k: int, p: int)
    requires
        spans_sorted(toks, lo, hi),
        in_word(toks, k, p),
    ensures
        cursor_index(toks, p) == k + 1,
    decreases toks.len(),
{
    let n = toks.len() - 1;
    let rest = toks.drop_last();
    assert(spans_sorted(rest, lo, hi)) by {
        assert forall|j: int| 0 <= j < rest.len() implies lo <= #[trigger] rest[j].0 < rest[j].1
            <= hi by {
            assert(lo <= toks[j].0 < toks[j].1 <= hi);
        }
        assert forall|j: int| 0 <= j < rest.len() - 1 implies #[trigger] rest[j].1 <= rest[j
            + 1].0 by {
            assert(toks[j].1 <= toks[j + 1].0);
        }
    }
    assert(toks.last() == toks[n]);
    if k == n {
        if n > 0 {
            assert(rest.last() == toks[n - 1]);
            assert(toks[n - 1].1 <= toks[n].0);
            lemma_cursor_index_all(rest, lo, hi, p);
        }
    } else {
        lemma_starts_ordered(toks, lo, hi, k + 1, n);
        assert(in_word(rest, k, p));
        lemma_cursor_index_in_word(rest, lo, hi, k, p);
    }
}

pub proof fn lemma_cursor_index_all(toks: Seq<(int, int)>, lo: int, hi: int, p: int)
    requires
        spans_sorted(toks, lo, hi),
        toks.len() > 0 ==> toks.last().1 <= p,
    ensures
        cursor_index(toks, p) == toks.len(),
    decreases toks.len(),
{
    if toks.len() > 0 {
        let n = toks.len() - 1;
        let rest = toks.drop_last();
        assert(toks[n].0 < toks[n].1);
        assert(toks.last() == toks[n]);
        if n > 0 {
            assert(toks[n - 1].1 <= toks[n].0);
            assert(rest.last() == toks[n - 1]);
            assert(spans_sorted(rest, lo, hi)) by {
                assert forall|j: int| 0 <= j < rest.len() implies lo <= #[trigger] rest[j].0
                    < rest[j].1 <= hi by {
                    assert(lo <= toks[j].0 < toks[j].1 <= hi);
                }
                assert forall|j: int| 0 <= j < rest.len() - 1 implies #[trigger] rest[j].1
                    <= rest[j + 1].0 by {
                    assert(toks[j].1 <= toks[j + 1].0);
                }
            }
        }
        lemma_cursor_index_all(rest, lo, hi, p);
    }
}

/// The result's span lies in the line: `0 <= start <= end <= len(line)`; its
/// words are non-empty ranges inside `[start, end)`, each ending at or before
/// the next begins; and the word index is at most the number of words.
pub proof fn lemma_result_within_line(line: Seq<u8>, p: int)
    ensures
        well_formed(command_scan(line, p, None), line.len() as int),
{
    lemma_scan_from(line, p, None, fresh_state());
}

/// With the cursor in the `k`-th word of the result (counting from zero), the
/// result's index is `k + 1`.
pub proof fn lemma_index_of_word(line: Seq<u8>, p: int, k: int)
    requires
        in_word(command_scan(line, p, None).tokens, k, p),
    ensures
        command_scan(line, p, None).index == k + 1,
{
    let r = command_scan(line, p, None);
    lemma_scan_from(line, p, None, fresh_state());
    assert(r.tokens[k].0 >= r.start);
    lemma_cursor_index_in_word(r.tokens, r.start, r.end, k, p);
}

/// Moving the cursor later within one word, while the words found stay the
/// same, leaves the index unchanged; moving it into the next word raises the
/// index by exactly one.
pub proof fn lemma_cursor_monotonic(line: Seq<u8>, p1: int, p2: int, k: int)
    requires
        p1 < p2,
        command_scan(line, p1, None).tokens == command_scan(line, p2, None).tokens,
        in_word(command_scan(line, p1, None).tokens, k, p1),
    ensures
        in_word(command_scan(line, p2, None).tokens, k, p2) ==> command_scan(line, p2, None).index
            == command_scan(line, p1, None).index,
        in_word(command_scan(line, p2, None).tokens, k + 1, p2) ==> command_scan(
            line,
            p2,
            None,
        ).index == command_scan(line, p1, None).index + 1,
{
    lemma_index_of_word(line, p1, k);
    if in_word(command_scan(line, p2, None).tokens, k, p2) {
        lemma_index_of_word(line, p2, k);
    }
    if in_word(command_scan(line, p2, None).tokens, k + 1, p2) {
        lemma_index_of_word(line, p2, k + 1);
    }
}

/// Scanning depends on the line and the cursor alone: two results for the same
/// line and cursor agree in every field, the words included.
pub proof fn lemma_scan_deterministic(line: Seq<u8>, p: int, a: Match, b: Match)
    requires
        a@ == command_scan(line, p, None),
        b@ == command_scan(line, p, None),
    ensures
        a.start == b.start,
        a.end == b.end,
        a.found == b.found,
        a.tokens@ == b.tokens@,
        a.index == b.index,
        a.sindex == b.sindex,
{
    assert(spans_of(a.tokens@) == spans_of(b.tokens@));
    assert(a.tokens@.len() == b.tokens@.len());
    assert forall|j: int| 0 <= j < a.tokens@.len() implies a.tokens@[j] == b.tokens@[j] by {
        assert(spans_of(a.tokens@)[j] == spans_of(b.tokens@)[j]);
    }
    assert(a.tokens@ =~= b.tokens@);
}

} // verus!
