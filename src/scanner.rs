//! The statement scanner and the quoted-string scanner: first as a
//! step-by-step mathematical model, then as executable code proved equal to it.
use vstd::prelude::*;
use vstd::slice::slice_subrange;
use vstd::string::StringSliceAdditionalSpecFns;
use crate::laws::{
    lemma_assign_run_bounds, lemma_keyword_run_bounds, lemma_quoted_from, lemma_scan_from,
};
use crate::lexer::{
    assign_len, blank_len, curly_len, dq_len, keyword_len, separator_len, token_len,
    assign_run, blank_run, curly_run, dq_run, keyword_run, lemma_blank_run_bounds,
    lemma_curly_run_bounds, lemma_dq_run_bounds, lemma_token_run_bounds, separator_run,
    token_run, BACKTICK, DOLLAR, DQUOTE, LBRACE, LPAREN, RBRACE, RPAREN,
};
use crate::model::{well_formed, make_match, make_model, shift, shift_spans, spans_of, Match, MatchModel};

verus! {

/// What ends a nested scan: the closer of a group, or white space for the
/// value of an assignment.
#[derive(Clone, Copy, Debug, PartialEq, Eq)]
pub enum Terminator {
    CloseParen,
    CloseBrace,
    Backtick,
    Blank,
}

pub open spec fn ends_at(s: Seq<u8>, i: int, t: Terminator) -> bool {
    match t {
        Terminator::CloseParen => s[i] == RPAREN,
        Terminator::CloseBrace => s[i] == RBRACE,
        Terminator::Backtick => s[i] == BACKTICK,
        Terminator::Blank => blank_run(s, i) > 0,
    }
}

pub open spec fn opens_group(b: u8) -> bool {
    b == LPAREN || b == LBRACE || b == BACKTICK
}

/// The terminator that closes the group an opener starts.
pub open spec fn closer_of(b: u8) -> Terminator {
    if b == LPAREN {
        Terminator::CloseParen
    } else if b == LBRACE {
        Terminator::CloseBrace
    } else {
        Terminator::Backtick
    }
}

pub open spec fn closer_byte(t: Terminator) -> u8 {
    match t {
        Terminator::CloseParen => RPAREN,
        Terminator::CloseBrace => RBRACE,
        _ => BACKTICK,
    }
}

/// The cursor as seen by a scan that starts `x` bytes into the line; a cursor
/// before that point is taken as its start.
pub open spec fn rel(p: int, x: int) -> int {
    if p < x {
        0
    } else {
        p - x
    }
}

pub open spec fn clamp(n: int, lo: int, hi: int) -> int {
    if n < lo {
        lo
    } else if n > hi {
        hi
    } else {
        n
    }
}

/// Where the statement scanner stands: the position, where the current
/// command began, its words so far, and whether the last word is still open to
/// the next chunk (no white space since it).
pub struct ScanState {
    pub i: int,
    pub start: Option<int>,
    pub tokens: Seq<(int, int)>,
    pub open: bool,
}

pub open spec fn fresh_state() -> ScanState {
    ScanState { i: 0, start: None, tokens: seq![], open: false }
}

pub open spec fn restarted(j: int) -> ScanState {
    ScanState { i: j, start: None, tokens: seq![], open: false }
}

pub open spec fn spaced(st: ScanState, j: int) -> ScanState {
    ScanState { i: j, start: st.start, tokens: st.tokens, open: false }
}

pub open spec fn begun(st: ScanState) -> ScanState {
    ScanState {
        i: st.i,
        start: if st.start is Some {
            st.start
        } else {
            Some(st.i)
        },
        tokens: st.tokens,
        open: st.open,
    }
}

/// The chunk `[a, b)` appended to the open word, or started as a new one.
pub open spec fn join_spans(toks: Seq<(int, int)>, open: bool, a: int, b: int) -> Seq<(int, int)> {
    if open {
        toks.drop_last().push((toks.last().0, b))
    } else {
        toks.push((a, b))
    }
}

pub open spec fn joined(st: ScanState, a: int, b: int) -> ScanState {
    ScanState { i: b, start: st.start, tokens: join_spans(st.tokens, st.open, a, b), open: true }
}

pub open spec fn pushed(st: ScanState, a: int, b: int) -> ScanState {
    ScanState { i: b, start: st.start, tokens: st.tokens.push((a, b)), open: true }
}

pub open spec fn finish(p: int, st: ScanState) -> MatchModel {
    let start = if st.start is Some {
        st.start.unwrap()
    } else {
        st.i
    };
    make_model(start, st.i, 0 < p <= st.i, st.tokens, p)
}

/// The statement scanner from state `st`: the command around cursor `p` in
/// `s`, scanning until terminator `t` (if any) or the end of `s`.
pub open spec fn scan_from(s: Seq<u8>, p: int, t: Option<Terminator>, st: ScanState) -> MatchModel
    decreases s.len(), s.len() - st.i,
{
    let i = st.i;
    let len = s.len() as int;
    if i < 0 || i >= len {
        finish(p, st)
    } else if t is Some && ends_at(s, i, t.unwrap()) {
        finish(p, st)
    } else if blank_run(s, i) > 0 {
        proof {
            lemma_blank_run_bounds(s, i);
        }
        scan_from(s, p, t, spaced(st, i + blank_run(s, i)))
    } else {
        let fresh = st.start is None;
        let st = begun(st);
        if s[i] == DQUOTE {
            let m = quoted_from(s.subrange(i + 1, len), rel(p, i + 1), 0);
            if m.found {
                shift(m, i + 1, 0)
            } else {
                scan_from(s, p, t, joined(st, i, clamp(i + 1 + m.end, i + 1, len)))
            }
        } else if curly_run(s, i) > 0 {
            proof {
                lemma_curly_run_bounds(s, i);
            }
            scan_from(s, p, t, pushed(st, i, i + curly_run(s, i)))
        } else if opens_group(s[i]) {
            let close = closer_of(s[i]);
            let m = scan_from(s.subrange(i + 1, len), rel(p, i + 1), Some(close), fresh_state());
            if m.found {
                shift(m, i + 1, 0)
            } else if p == i + 1 {
                make_model(i + 1, i + 1 + m.end, true, shift_spans(m.tokens, i + 1), p)
            } else {
                let j = clamp(i + 1 + m.end, i + 1, len);
                let j = if j < len && s[j] == closer_byte(close) {
                    j + 1
                } else {
                    j
                };
                scan_from(s, p, t, joined(st, i, j))
            }
        } else if fresh && keyword_run(s, i) > 0 {
            let k = keyword_run(s, i);
            if i + k > p {
                finish(p, pushed(st, i, i + k - 1))
            } else {
                scan_from(s, p, t, restarted(i + k))
            }
        } else if fresh && assign_run(s, i) > 0 {
            let a = i + assign_run(s, i);
            let m = scan_from(s.subrange(a, len), rel(p, a), Some(Terminator::Blank), fresh_state());
            if a >= p || (m.found && m.start == 0) {
                make_model(i, a + m.end, true, seq![(i, a + m.end)], p)
            } else if m.found {
                shift(m, a, 0)
            } else {
                scan_from(s, p, t, restarted(clamp(a + m.end, a, len)))
            }
        } else if separator_run(s, i) > 0 {
            if i > p {
                finish(p, st)
            } else {
                scan_from(s, p, t, restarted(i + separator_run(s, i)))
            }
        } else if token_run(s, i) > 0 {
            proof {
                lemma_token_run_bounds(s, i);
            }
            scan_from(s, p, t, joined(st, i, i + token_run(s, i)))
        } else {
            scan_from(s, p, t, pushed(st, i, i + 1))
        }
    }
}

/// The quoted-string scanner from position `i` of the text after an opening
/// double quote. Its own result is never the answer; only a command
/// substitution inside it can be.
pub open spec fn quoted_from(s: Seq<u8>, p: int, i: int) -> MatchModel
    decreases s.len(), s.len() - i,
{
    let len = s.len() as int;
    if i < 0 || i >= len {
        make_model(0, i, false, seq![], p)
    } else if s[i] == DQUOTE {
        make_model(0, i + 1, false, seq![], p)
    } else if s[i] == DOLLAR && i + 1 < len && s[i + 1] == LPAREN {
        let m = scan_from(
            s.subrange(i + 2, len),
            rel(p, i + 2),
            Some(Terminator::CloseParen),
            fresh_state(),
        );
        if m.found {
            shift(m, i + 2, 0)
        } else {
            quoted_from(s, p, clamp(i + 2 + m.end, i + 2, len))
        }
    } else {
        proof {
            lemma_dq_run_bounds(s, i);
        }
        quoted_from(s, p, i + dq_run(s, i))
    }
}

/// The command around cursor `p` in line `s`.
pub open spec fn command_scan(s: Seq<u8>, p: int, t: Option<Terminator>) -> MatchModel {
    scan_from(s, p, t, fresh_state())
}

/// The scanner state as the executable code holds it.
pub open spec fn state_view(i: usize, start: Option<usize>, tokens: Seq<(usize, usize)>, open: bool) -> ScanState {
    ScanState {
        i: i as int,
        start: match start {
            Some(x) => Some(x as int),
            None => None,
        },
        tokens: spans_of(tokens),
        open,
    }
}

fn rel_point(p: usize, x: usize) -> (r: usize)
    ensures
        r == rel(p as int, x as int),
{
    if p < x {
        0
    } else {
        p - x
    }
}

fn ends_here(line: &[u8], i: usize, t: Terminator) -> (r: bool)
    requires
        i < line@.len(),
    ensures
        r == ends_at(line@, i as int, t),
{
    match t {
        Terminator::CloseParen => line[i] == RPAREN,
        Terminator::CloseBrace => line[i] == RBRACE,
        Terminator::Backtick => line[i] == BACKTICK,
        Terminator::Blank => blank_len(line, i) > 0,
    }
}

/// Appends the chunk `[a, b)` to the open word, or starts a new word with it.
fn add_token(tokens: &mut Vec<(usize, usize)>, open: bool, a: usize, b: usize)
    requires
        open ==> old(tokens)@.len() > 0,
    ensures
        spans_of(final(tokens)@) == join_spans(spans_of(old(tokens)@), open, a as int, b as int),
        final(tokens)@.len() > 0,
{
    let ghost before = spans_of(tokens@);
    if open {
        let last = tokens.pop();
        match last {
            Some(t) => {
                tokens.push((t.0, b));
            },
            None => {},
        }
    } else {
        tokens.push((a, b));
    }
    assert(spans_of(tokens@) =~= join_spans(before, open, a as int, b as int));
}

fn finished(i: usize, start: Option<usize>, tokens: Vec<(usize, usize)>, point: usize, Ghost(open): Ghost<bool>) -> (r: Match)
    ensures
        r@ == finish(point as int, state_view(i, start, tokens@, open)),
{
    let s = match start {
        Some(x) => x,
        None => i,
    };
    make_match(s, i, 0 < point && point <= i, tokens, point)
}

/// The statement scanner on bytes: the command around `point` in `line`,
/// scanning until `end` (if given) or the end of the line.
pub fn parse_bytes(line: &[u8], point: usize, end: Option<Terminator>) -> (r: Match)
    requires
        point <= line@.len(),
    ensures
        r@ == command_scan(line@, point as int, end),
        well_formed(r@, line@.len() as int),
    decreases line@.len(),
{
    let len = line.len();
    let ghost p = point as int;
    proof {
        lemma_scan_from(line@, p, end, fresh_state());
    }
    let mut i: usize = 0;
    let mut start: Option<usize> = None;
    let mut tokens: Vec<(usize, usize)> = Vec::new();
    let mut open: bool = false;
    assert(state_view(i, start, tokens@, open) == fresh_state()) by {
        assert(spans_of(tokens@) =~= seq![]);
    }
    while i < len
        invariant
            len == line@.len(),
            i <= len,
            point <= len,
            p == point as int,
            well_formed(command_scan(line@, p, end), len as int),
            open ==> tokens@.len() > 0,
            scan_from(line@, p, end, state_view(i, start, tokens@, open)) == command_scan(
                line@,
                p,
                end,
            ),
        decreases len - i,
    {
        let ghost st0 = state_view(i, start, tokens@, open);
        if let Some(t) = end {
            if ends_here(line, i, t) {
                return finished(i, start, tokens, point, Ghost(open));
            }
        }
        let w = blank_len(line, i);
        if w > 0 {
            proof {
                lemma_blank_run_bounds(line@, i as int);
            }
            i = i + w;
            open = false;
            assert(state_view(i, start, tokens@, open) == spaced(st0, i as int));
            continue;
        }
        let fresh = start.is_none();
        if fresh {
            start = Some(i);
        }
        let ghost st1 = state_view(i, start, tokens@, open);
        assert(st1 == begun(st0));
        let c = line[i];
        if c == DQUOTE {
            let sub = slice_subrange(line, i + 1, len);
            let m = parse_dq_string(sub, rel_point(point, i + 1));
            if m.found {
                return m.offset(i + 1, 0);
            }
            let j = i + 1 + m.end;
            add_token(&mut tokens, open, i, j);
            i = j;
            open = true;
            assert(state_view(i, start, tokens@, open) == joined(st1, st1.i, j as int));
            continue;
        }
        let cl = curly_len(line, i);
        if cl > 0 {
            proof {
                lemma_curly_run_bounds(line@, i as int);
            }
            add_token(&mut tokens, false, i, i + cl);
            i = i + cl;
            open = true;
            assert(state_view(i, start, tokens@, open) == pushed(st1, st1.i, i as int));
            continue;
        }
        if c == LPAREN || c == LBRACE || c == BACKTICK {
            let close = if c == LPAREN {
                Terminator::CloseParen
            } else if c == LBRACE {
                Terminator::CloseBrace
            } else {
                Terminator::Backtick
            };
            let close_byte = if c == LPAREN {
                RPAREN
            } else if c == LBRACE {
                RBRACE
            } else {
                BACKTICK
            };
            let sub = slice_subrange(line, i + 1, len);
            let m = parse_bytes(sub, rel_point(point, i + 1), Some(close));
            if m.found {
                return m.offset(i + 1, 0);
            }
            if point == i + 1 {
                let moved = m.offset(i + 1, 0);
                return make_match(i + 1, moved.end, true, moved.tokens, point);
            }
            let mut j = i + 1 + m.end;
            if j < len && line[j] == close_byte {
                j = j + 1;
            }
            add_token(&mut tokens, open, i, j);
            i = j;
            open = true;
            assert(state_view(i, start, tokens@, open) == joined(st1, st1.i, j as int));
            continue;
        }
        if fresh {
            let k = keyword_len(line, i);
            if k > 0 {
                proof {
                    lemma_keyword_run_bounds(line@, i as int);
                }
                if i + k > point {
                    add_token(&mut tokens, false, i, i + k - 1);
                    assert(state_view((i + k - 1) as usize, start, tokens@, true) == pushed(
                        st1,
                        st1.i,
                        i + k - 1,
                    ));
                    return finished(i + k - 1, start, tokens, point, Ghost(true));
                }
                i = i + k;
                start = None;
                tokens = Vec::new();
                open = false;
                assert(state_view(i, start, tokens@, open) == restarted(i as int)) by {
                    assert(spans_of(tokens@) =~= seq![]);
                }
                continue;
            }
            let a = assign_len(line, i);
            if a > 0 {
                proof {
                    lemma_assign_run_bounds(line@, i as int);
                }
                let ai = i + a;
                let sub = slice_subrange(line, ai, len);
                let m = parse_bytes(sub, rel_point(point, ai), Some(Terminator::Blank));
                if ai >= point || (m.found && m.start == 0) {
                    let e = ai + m.end;
                    let mut whole: Vec<(usize, usize)> = Vec::new();
                    whole.push((i, e));
                    assert(spans_of(whole@) =~= seq![(i as int, e as int)]);
                    return make_match(i, e, true, whole, point);
                }
                if m.found {
                    return m.offset(ai, 0);
                }
                i = ai + m.end;
                start = None;
                tokens = Vec::new();
                open = false;
                assert(state_view(i, start, tokens@, open) == restarted(i as int)) by {
                    assert(spans_of(tokens@) =~= seq![]);
                }
                continue;
            }
        }
        let sl = separator_len(line, i);
        if sl > 0 {
            if i > point {
                return finished(i, start, tokens, point, Ghost(open));
            }
            i = i + sl;
            start = None;
            tokens = Vec::new();
            open = false;
            assert(state_view(i, start, tokens@, open) == restarted(i as int)) by {
                assert(spans_of(tokens@) =~= seq![]);
            }
            continue;
        }
        let tl = token_len(line, i);
        if tl > 0 {
            proof {
                lemma_token_run_bounds(line@, i as int);
            }
            add_token(&mut tokens, open, i, i + tl);
            i = i + tl;
            open = true;
            assert(state_view(i, start, tokens@, open) == joined(st1, st1.i, i as int));
            continue;
        }
        add_token(&mut tokens, false, i, i + 1);
        i = i + 1;
        open = true;
        assert(state_view(i, start, tokens@, open) == pushed(st1, st1.i, i as int));
    }
    finished(i, start, tokens, point, Ghost(open))
}

/// The quoted-string scanner: scans the text after an opening double quote,
/// up to the closing quote or the end of the line, and reports a command
/// substitution inside it that holds the cursor.
pub fn parse_dq_string(line: &[u8], point: usize) -> (r: Match)
    requires
        point <= line@.len(),
    ensures
        r@ == quoted_from(line@, point as int, 0),
        well_formed(r@, line@.len() as int),
    decreases line@.len(),
{
    let len = line.len();
    let mut i: usize = 0;
    proof {
        lemma_quoted_from(line@, point as int, 0);
    }
    while i < len
        invariant
            len == line@.len(),
            i <= len,
            point <= len,
            quoted_from(line@, point as int, i as int) == quoted_from(line@, point as int, 0),
            well_formed(quoted_from(line@, point as int, 0), len as int),
        decreases len - i,
    {
        if line[i] == DQUOTE {
            let none: Vec<(usize, usize)> = Vec::new();
            assert(spans_of(none@) =~= seq![]);
            return make_match(0, i + 1, false, none, point);
        }
        if line[i] == DOLLAR && len - i >= 2 && line[i + 1] == LPAREN {
            let sub = slice_subrange(line, i + 2, len);
            let m = parse_bytes(sub, rel_point(point, i + 2), Some(Terminator::CloseParen));
            if m.found {
                return m.offset(i + 2, 0);
            }
            i = i + 2 + m.end;
        } else {
            proof {
                lemma_dq_run_bounds(line@, i as int);
            }
            i = i + dq_len(line, i);
        }
    }
    let none: Vec<(usize, usize)> = Vec::new();
    assert(spans_of(none@) =~= seq![]);
    make_match(0, i, false, none, point)
}

/// The command around the cursor `point` in `line`, scanning until `end` (if
/// given) or the end of the line. Offsets are byte offsets.
pub fn parse_line(line: &str, point: usize, end: Option<Terminator>) -> (r: Match)
    requires
        point <= line.spec_bytes().len(),
    ensures
        r@ == command_scan(line.spec_bytes(), point as int, end),
        well_formed(r@, line.spec_bytes().len() as int),
{
    parse_bytes(line.as_bytes(), point, end)
}

} // verus!
