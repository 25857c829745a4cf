//! The mathematical view of a scan result: spans of the line as integer pairs,
//! and where the cursor falls among them.
use vstd::prelude::*;

verus! {

/// What a scan reports, in the coordinates of the line it was given.
pub struct MatchModel {
    /// Where the first word of the command begins.
    pub start: int,
    /// Where scanning stopped.
    pub end: int,
    /// Whether this result is the final answer rather than a part of an enclosing scan.
    pub found: bool,
    /// The command's words, as half-open byte ranges, in order.
    pub tokens: Seq<(int, int)>,
    /// One-based position of the word under the cursor, or zero.
    pub index: int,
    /// Offset of the cursor inside that word, or zero.
    pub sindex: int,
}

/// Number of words that begin at or before the cursor.
pub open spec fn cursor_index(toks: Seq<(int, int)>, p: int) -> int
    decreases toks.len(),
{
    if toks.len() == 0 {
        0
    } else {
        cursor_index(toks.drop_last(), p) + if toks.last().0 <= p {
            1int
        } else {
            0
        }
    }
}

/// Offset of the cursor from the start of the word that `cursor_index` names,
/// when the cursor lies inside that word or at its end; zero otherwise.
pub open spec fn cursor_offset(toks: Seq<(int, int)>, p: int) -> int {
    let n = cursor_index(toks, p);
    if 0 < n <= toks.len() && toks[n - 1].0 <= p <= toks[n - 1].1 {
        p - toks[n - 1].0
    } else {
        0
    }
}

/// A result built from its span, its words and the cursor.
pub open spec fn make_model(start: int, end: int, found: bool, toks: Seq<(int, int)>, p: int) -> MatchModel {
    MatchModel {
        start,
        end,
        found,
        tokens: toks,
        index: cursor_index(toks, p),
        sindex: cursor_offset(toks, p),
    }
}

pub open spec fn shift_spans(toks: Seq<(int, int)>, x: int) -> Seq<(int, int)> {
    toks.map_values(|t: (int, int)| (t.0 + x, t.1 + x))
}

/// Offset translation: a nested result moved into the coordinates of the
/// enclosing line, `x` bytes further on, with `k` earlier words counted in.
pub open spec fn shift(m: MatchModel, x: int, k: int) -> MatchModel {
    MatchModel {
        start: m.start + x,
        end: m.end + x,
        found: m.found,
        tokens: shift_spans(m.tokens, x),
        index: m.index + k,
        sindex: m.sindex,
    }
}

/// Non-empty spans inside `[lo, hi]`, each ending at or before the next begins.
pub open spec fn spans_sorted(toks: Seq<(int, int)>, lo: int, hi: int) -> bool {
    &&& forall|k: int| 0 <= k < toks.len() ==> lo <= #[trigger] toks[k].0 < toks[k].1 <= hi
    &&& forall|k: int| 0 <= k < toks.len() - 1 ==> #[trigger] toks[k].1 <= toks[k + 1].0
}

/// The shape every scan result has on a line of `len` bytes.
pub open spec fn well_formed(m: MatchModel, len: int) -> bool {
    &&& 0 <= m.start <= m.end <= len
    &&& spans_sorted(m.tokens, m.start, m.end)
    &&& 0 <= m.index <= m.tokens.len()
    &&& 0 <= m.sindex
}

/// The cursor fields agree with the words whenever the cursor is not before the command.
pub open spec fn cursor_agrees(m: MatchModel, p: int) -> bool {
    p >= m.start ==> m.index == cursor_index(m.tokens, p) && m.sindex == cursor_offset(m.tokens, p)
}

/// A scan result: the command's span, whether it is the final answer, its
/// words as byte ranges of the line, and where the cursor falls among them.
#[derive(Debug)]
pub struct Match {
    pub start: usize,
    pub end: usize,
    pub found: bool,
    pub tokens: Vec<(usize, usize)>,
    pub index: usize,
    pub sindex: usize,
}

pub open spec fn spans_of(v: Seq<(usize, usize)>) -> Seq<(int, int)> {
    v.map_values(|t: (usize, usize)| (t.0 as int, t.1 as int))
}

impl View for Match {
    type V = MatchModel;

    open spec fn view(&self) -> MatchModel {
        MatchModel {
            start: self.start as int,
            end: self.end as int,
            found: self.found,
            tokens: spans_of(self.tokens@),
            index: self.index as int,
            sindex: self.sindex as int,
        }
    }
}

impl Match {
    /// Offset translation: this result moved `offset` bytes further on, with
    /// `index` earlier words counted in.
    pub fn offset(self, offset: usize, index: usize) -> (r: Match)
        requires
            self.start <= self.end,
            self.end + offset <= usize::MAX,
            self.index + index <= usize::MAX,
            spans_sorted(self@.tokens, self@.start, self@.end),
        ensures
            r@ == shift(self@, offset as int, index as int),
    {
        let ghost old_spans = spans_of(self.tokens@);
        let mut tokens: Vec<(usize, usize)> = Vec::new();
        let mut k: usize = 0;
        while k < self.tokens.len()
            invariant
                k <= self.tokens@.len(),
                tokens@.len() == k,
                old_spans == spans_of(self.tokens@),
                self.end + offset <= usize::MAX,
                spans_sorted(old_spans, self.start as int, self.end as int),
                forall|j: int|
                    0 <= j < k ==> #[trigger] tokens@[j].0 == self.tokens@[j].0 + offset
                        && tokens@[j].1 == self.tokens@[j].1 + offset,
            decreases self.tokens@.len() - k,
        {
            let t = self.tokens[k];
            assert(old_spans[k as int].1 <= self.end);
            tokens.push((t.0 + offset, t.1 + offset));
            k = k + 1;
        }
        assert(spans_of(tokens@) =~= shift_spans(old_spans, offset as int));
        Match {
            start: self.start + offset,
            end: self.end + offset,
            found: self.found,
            tokens,
            index: self.index + index,
            sindex: self.sindex,
        }
    }
}

/// The cursor's word index and offset among `tokens`.
pub fn cursor_of(tokens: &Vec<(usize, usize)>, p: usize) -> (r: (usize, usize))
    ensures
        r.0 == cursor_index(spans_of(tokens@), p as int),
        r.1 == cursor_offset(spans_of(tokens@), p as int),
{
    let mut n: usize = 0;
    let mut k: usize = 0;
    while k < tokens.len()
        invariant
            k <= tokens@.len(),
            n <= k,
            n == cursor_index(spans_of(tokens@.take(k as int)), p as int),
        decreases tokens@.len() - k,
    {
        assert(spans_of(tokens@.take(k + 1)).drop_last() =~= spans_of(tokens@.take(k as int)));
        if tokens[k].0 <= p {
            n = n + 1;
        }
        k = k + 1;
    }
    assert(tokens@.take(k as int) =~= tokens@);
    let off = if n > 0 && tokens[n - 1].0 <= p && p <= tokens[n - 1].1 {
        p - tokens[n - 1].0
    } else {
        0
    };
    (n, off)
}

/// A result built from its span and its words, with the cursor located among them.
pub fn make_match(start: usize, end: usize, found: bool, tokens: Vec<(usize, usize)>, p: usize) -> (r: Match)
    ensures
        r@ == make_model(start as int, end as int, found, spans_of(tokens@), p as int),
{
    let (index, sindex) = cursor_of(&tokens, p);
    Match { start, end, found, tokens, index, sindex }
}

} // verus!
