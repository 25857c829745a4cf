//! Choosing what to offer as completions, and joining what comes back into a
//! single insertion.
use vstd::prelude::*;
use vstd::string::StringExecFns;

verus! {

pub open spec fn texts(v: Seq<String>) -> Seq<Seq<char>> {
    v.map_values(|s: String| s@)
}

/// `m` with its empty entries left out, in order.
pub open spec fn without_empty(m: Seq<Seq<char>>) -> Seq<Seq<char>>
    decreases m.len(),
{
    if m.len() == 0 {
        m
    } else if m.last().len() > 0 {
        without_empty(m.drop_last()).push(m.last())
    } else {
        without_empty(m.drop_last())
    }
}

/// A match list whose first entry is the common prefix of the others: the
/// entries after it, or the single entry when there is only one, without the
/// empty ones.
pub open spec fn candidate_texts(m: Seq<Seq<char>>) -> Seq<Seq<char>> {
    without_empty(m.subrange(if m.len() <= 1 { 0 } else { 1 }, m.len() as int))
}

/// The completions to hand on, from a match list whose first entry is the
/// common prefix of the rest.
pub fn completion_candidates(matches: &Vec<String>) -> (r: Vec<String>)
    ensures
        texts(r@) == candidate_texts(texts(matches@)),
{
    let from: usize = if matches.len() <= 1 {
        0
    } else {
        1
    };
    let ghost all = texts(matches@);
    let mut out: Vec<String> = Vec::new();
    let mut k: usize = from;
    assert(texts(out@) =~= without_empty(all.subrange(from as int, from as int)));
    while k < matches.len()
        invariant
            from <= k <= matches@.len(),
            from == (if matches@.len() <= 1 {
                0int
            } else {
                1
            }),
            all == texts(matches@),
            texts(out@) == without_empty(all.subrange(from as int, k as int)),
        decreases matches@.len() - k,
    {
        let s = &matches[k];
        let ghost before = out@;
        assert(all.subrange(from as int, k + 1).drop_last() =~= all.subrange(from as int, k as int));
        if !s.as_str().is_empty() {
            out.push(s.clone());
            assert(texts(out@) =~= texts(before).push(s@));
        }
        k = k + 1;
    }
    out
}

/// `lines` separated by single spaces.
pub open spec fn spaced(lines: Seq<Seq<char>>) -> Seq<char>
    decreases lines.len(),
{
    if lines.len() == 0 {
        seq![]
    } else if lines.len() == 1 {
        lines[0]
    } else {
        spaced(lines.drop_last()) + seq![' '] + lines.last()
    }
}

/// The lines a completer printed, as one insertion: separated by spaces, with
/// a space after the last when there are several.
pub open spec fn joined_text(lines: Seq<Seq<char>>) -> Seq<char> {
    if lines.len() > 1 {
        spaced(lines) + seq![' ']
    } else {
        spaced(lines)
    }
}

pub fn join_completions(lines: &Vec<String>) -> (r: String)
    ensures
        r@ == joined_text(texts(lines@)),
{
    let ghost all = texts(lines@);
    let mut out = String::new();
    let mut k: usize = 0;
    proof {
        reveal_strlit(" ");
    }
    assert(out@ =~= spaced(all.take(0)));
    while k < lines.len()
        invariant
            k <= lines@.len(),
            all == texts(lines@),
            out@ == spaced(all.take(k as int)),
            " "@ == seq![' '],
        decreases lines@.len() - k,
    {
        assert(all.take(k + 1).drop_last() =~= all.take(k as int));
        if k > 0 {
            out.append(" ");
        }
        out.append(lines[k].as_str());
        assert(all.take(k + 1).last() == lines@[k as int]@);
        assert(k == 0 ==> out@ =~= spaced(all.take(k + 1)));
        k = k + 1;
    }
    assert(all.take(k as int) =~= all);
    if lines.len() > 1 {
        out.append(" ");
    }
    out
}

} // verus!
