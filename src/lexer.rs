//! Lexical classifiers: stateless prefix matchers over the bytes of a line.
//! Each one answers "how many bytes of this class start at position `i`",
//! with zero meaning "none".
use vstd::prelude::*;
use vstd::slice::slice_subrange;

verus! {

pub const TAB: u8 = 0x09;
pub const NEWLINE: u8 = 0x0a;
pub const VTAB: u8 = 0x0b;
pub const FORMFEED: u8 = 0x0c;
pub const RETURN: u8 = 0x0d;
pub const SPACE: u8 = 0x20;
pub const DQUOTE: u8 = 0x22;
pub const DOLLAR: u8 = 0x24;
pub const AMP: u8 = 0x26;
pub const SQUOTE: u8 = 0x27;
pub const LPAREN: u8 = 0x28;
pub const RPAREN: u8 = 0x29;
pub const SEMI: u8 = 0x3b;
pub const EQUALS: u8 = 0x3d;
pub const LBRACKET: u8 = 0x5b;
pub const BACKSLASH: u8 = 0x5c;
pub const UNDERSCORE: u8 = 0x5f;
pub const BACKTICK: u8 = 0x60;
pub const LBRACE: u8 = 0x7b;
pub const PIPE: u8 = 0x7c;
pub const RBRACE: u8 = 0x7d;

/// Horizontal white space: space, tab, vertical tab, form feed, carriage return.
pub open spec fn blank_byte(b: u8) -> bool {
    b == SPACE || b == TAB || b == VTAB || b == FORMFEED || b == RETURN
}

/// Any white space, the newline included.
pub open spec fn space_byte(b: u8) -> bool {
    blank_byte(b) || b == NEWLINE
}

/// Length of the run of blanks and backslash-newline continuations at `i`.
pub open spec fn blank_run(s: Seq<u8>, i: int) -> int
    decreases s.len() - i,
{
    if i < 0 || i >= s.len() {
        0
    } else if blank_byte(s[i]) {
        1 + blank_run(s, i + 1)
    } else if s[i] == BACKSLASH && i + 1 < s.len() && s[i + 1] == NEWLINE {
        2 + blank_run(s, i + 2)
    } else {
        0
    }
}

pub proof fn lemma_blank_run_bounds(s: Seq<u8>, i: int)
    requires
        0 <= i <= s.len(),
    ensures
        0 <= blank_run(s, i) <= s.len() - i,
    decreases s.len() - i,
{
    if i < s.len() {
        if blank_byte(s[i]) {
            lemma_blank_run_bounds(s, i + 1);
        } else if s[i] == BACKSLASH && i + 1 < s.len() && s[i + 1] == NEWLINE {
            lemma_blank_run_bounds(s, i + 2);
        }
    }
}

pub fn is_blank(b: u8) -> (r: bool)
    ensures
        r == blank_byte(b),
{
    b == SPACE || b == TAB || b == VTAB || b == FORMFEED || b == RETURN
}

pub fn is_space(b: u8) -> (r: bool)
    ensures
        r == space_byte(b),
{
    is_blank(b) || b == NEWLINE
}

/// Bytes of blank space (continuations included) that start at `i`.
pub fn blank_len(line: &[u8], i: usize) -> (r: usize)
    requires
        i <= line@.len(),
    ensures
        r == blank_run(line@, i as int),
{
    let mut j: usize = i;
    while j < line.len()
        invariant
            i <= j <= line@.len(),
            blank_run(line@, i as int) == (j - i) + blank_run(line@, j as int),
        ensures
            blank_run(line@, j as int) == 0,
        decreases line@.len() - j,
    {
        if is_blank(line[j]) {
            j = j + 1;
        } else if line[j] == BACKSLASH && j + 1 < line.len() && line[j + 1] == NEWLINE {
            j = j + 2;
        } else {
            break;
        }
    }
    j - i
}

/// Position of the first `c` at or after `j`, or the length of `s` if there is none.
pub open spec fn first_at(s: Seq<u8>, j: int, c: u8) -> int
    decreases s.len() - j,
{
    if j >= s.len() {
        s.len() as int
    } else if s[j] == c {
        j
    } else {
        first_at(s, j + 1, c)
    }
}

pub proof fn lemma_first_at(s: Seq<u8>, j: int, c: u8)
    requires
        0 <= j <= s.len(),
    ensures
        j <= first_at(s, j, c) <= s.len(),
        first_at(s, j, c) < s.len() ==> s[first_at(s, j, c)] == c,
        forall|k: int| j <= k < first_at(s, j, c) ==> s[k] != c,
    decreases s.len() - j,
{
    if j < s.len() && s[j] != c {
        lemma_first_at(s, j + 1, c);
    }
}

pub fn find_byte(line: &[u8], j: usize, c: u8) -> (r: usize)
    requires
        j <= line@.len(),
    ensures
        r == first_at(line@, j as int, c),
{
    let mut k: usize = j;
    while k < line.len()
        invariant
            j <= k <= line@.len(),
            first_at(line@, j as int, c) == first_at(line@, k as int, c),
        ensures
            first_at(line@, j as int, c) == k,
        decreases line@.len() - k,
    {
        if line[k] == c {
            break;
        }
        k = k + 1;
    }
    k
}

/// A `${...}` parameter expansion at `i`: through the first `}`, or to the end
/// of the line when it is never closed.
pub open spec fn curly_run(s: Seq<u8>, i: int) -> int {
    if 0 <= i && i + 1 < s.len() && s[i] == DOLLAR && s[i + 1] == LBRACE {
        let k = first_at(s, i + 2, RBRACE);
        if k < s.len() {
            k + 1 - i
        } else {
            s.len() - i
        }
    } else {
        0
    }
}

pub proof fn lemma_curly_run_bounds(s: Seq<u8>, i: int)
    requires
        0 <= i <= s.len(),
    ensures
        0 <= curly_run(s, i) <= s.len() - i,
        curly_run(s, i) == 0 || curly_run(s, i) >= 2,
{
    if i + 1 < s.len() {
        lemma_first_at(s, i + 2, RBRACE);
    }
}

pub fn curly_len(line: &[u8], i: usize) -> (r: usize)
    requires
        i <= line@.len(),
    ensures
        r == curly_run(line@, i as int),
{
    if line.len() - i >= 2 && line[i] == DOLLAR && line[i + 1] == LBRACE {
        let k = find_byte(line, i + 2, RBRACE);
        proof {
            lemma_first_at(line@, i + 2, RBRACE);
        }
        if k < line.len() {
            k + 1 - i
        } else {
            line.len() - i
        }
    } else {
        0
    }
}

/// The literal text of a double-quoted string at `i`, up to (not including) the
/// closing quote or a `$(` substitution. A backslash escapes the next byte
/// unless that is a newline; a closed `${...}` is taken whole; a `$` followed by
/// anything but `(` is taken together with that byte.
pub open spec fn dq_run(s: Seq<u8>, i: int) -> int
    decreases s.len() - i,
{
    if i < 0 || i >= s.len() {
        0
    } else if s[i] == BACKSLASH {
        if i + 1 < s.len() && s[i + 1] != NEWLINE {
            2 + dq_run(s, i + 2)
        } else {
            1 + dq_run(s, i + 1)
        }
    } else if s[i] == DOLLAR {
        if i + 1 >= s.len() {
            1
        } else if s[i + 1] == LBRACE && first_at(s, i + 2, RBRACE) < s.len() {
            let k = first_at(s, i + 2, RBRACE);
            proof {
                lemma_first_at(s, i + 2, RBRACE);
            }
            (k + 1 - i) + dq_run(s, k + 1)
        } else if s[i + 1] != LPAREN {
            2 + dq_run(s, i + 2)
        } else {
            0
        }
    } else if s[i] == DQUOTE {
        0
    } else {
        1 + dq_run(s, i + 1)
    }
}

pub proof fn lemma_dq_run_bounds(s: Seq<u8>, i: int)
    requires
        0 <= i <= s.len(),
    ensures
        0 <= dq_run(s, i) <= s.len() - i,
        i < s.len() && s[i] != DQUOTE && !(s[i] == DOLLAR && i + 1 < s.len() && s[i + 1]
            == LPAREN) ==> dq_run(s, i) >= 1,
    decreases s.len() - i,
{
    if i < s.len() {
        if s[i] == BACKSLASH {
            if i + 1 < s.len() && s[i + 1] != NEWLINE {
                lemma_dq_run_bounds(s, i + 2);
            } else {
                lemma_dq_run_bounds(s, i + 1);
            }
        } else if s[i] == DOLLAR {
            if i + 1 < s.len() {
                lemma_first_at(s, i + 2, RBRACE);
                if s[i + 1] == LBRACE && first_at(s, i + 2, RBRACE) < s.len() {
                    lemma_dq_run_bounds(s, first_at(s, i + 2, RBRACE) + 1);
                } else if s[i + 1] != LPAREN {
                    lemma_dq_run_bounds(s, i + 2);
                }
            }
        } else if s[i] != DQUOTE {
            lemma_dq_run_bounds(s, i + 1);
        }
    }
}

pub fn dq_len(line: &[u8], i: usize) -> (r: usize)
    requires
        i <= line@.len(),
    ensures
        r == dq_run(line@, i as int),
{
    let len = line.len();
    let mut j: usize = i;
    while j < len
        invariant
            len == line@.len(),
            i <= j <= len,
            dq_run(line@, i as int) == (j - i) + dq_run(line@, j as int),
        ensures
            dq_run(line@, j as int) == 0,
        decreases len - j,
    {
        let b = line[j];
        if b == BACKSLASH {
            if j + 1 < len && line[j + 1] != NEWLINE {
                j = j + 2;
            } else {
                j = j + 1;
            }
        } else if b == DOLLAR {
            if j + 1 >= len {
                j = j + 1;
            } else {
                let k = find_byte(line, j + 2, RBRACE);
                proof {
                    lemma_first_at(line@, j + 2, RBRACE);
                }
                if line[j + 1] == LBRACE && k < len {
                    j = k + 1;
                } else if line[j + 1] != LPAREN {
                    j = j + 2;
                } else {
                    break;
                }
            }
        } else if b == DQUOTE {
            break;
        } else {
            j = j + 1;
        }
    }
    j - i
}

/// Bytes that end a plain word.
pub open spec fn word_stop(b: u8) -> bool {
    b == SEMI || space_byte(b) || b == SQUOTE || b == DQUOTE || b == LPAREN || b == RPAREN
        || b == LBRACE || b == RBRACE || b == BACKTICK
}

/// A plain word at `i`: bytes that are not word stops, a backslash taking the
/// next byte with it unless that is a newline.
pub open spec fn word_run(s: Seq<u8>, i: int) -> int
    decreases s.len() - i,
{
    if i < 0 || i >= s.len() {
        0
    } else if s[i] == BACKSLASH && i + 1 < s.len() && s[i + 1] != NEWLINE {
        2 + word_run(s, i + 2)
    } else if word_stop(s[i]) {
        0
    } else {
        1 + word_run(s, i + 1)
    }
}

pub proof fn lemma_word_run_bounds(s: Seq<u8>, i: int)
    requires
        0 <= i <= s.len(),
    ensures
        0 <= word_run(s, i) <= s.len() - i,
    decreases s.len() - i,
{
    if i < s.len() {
        if s[i] == BACKSLASH && i + 1 < s.len() && s[i + 1] != NEWLINE {
            lemma_word_run_bounds(s, i + 2);
        } else if !word_stop(s[i]) {
            lemma_word_run_bounds(s, i + 1);
        }
    }
}

/// End of a `$'...'` body that starts at `j`: just past the first quote that no
/// backslash escapes, or the end of the line.
pub open spec fn ansi_end(s: Seq<u8>, j: int) -> int
    decreases s.len() - j,
{
    if j >= s.len() {
        s.len() as int
    } else if s[j] == BACKSLASH && j + 1 < s.len() && s[j + 1] != NEWLINE {
        ansi_end(s, j + 2)
    } else if s[j] == SQUOTE {
        j + 1
    } else {
        ansi_end(s, j + 1)
    }
}

pub proof fn lemma_ansi_end_bounds(s: Seq<u8>, j: int)
    requires
        0 <= j <= s.len(),
    ensures
        j <= ansi_end(s, j) <= s.len(),
    decreases s.len() - j,
{
    if j < s.len() {
        if s[j] == BACKSLASH && j + 1 < s.len() && s[j + 1] != NEWLINE {
            lemma_ansi_end_bounds(s, j + 2);
        } else if s[j] != SQUOTE {
            lemma_ansi_end_bounds(s, j + 1);
        }
    }
}

/// A word chunk at `i`: a single-quoted literal (to its closing quote or the end
/// of the line), a `$'...'` literal, or a plain word.
pub open spec fn token_run(s: Seq<u8>, i: int) -> int {
    if 0 <= i < s.len() && s[i] == SQUOTE {
        let k = first_at(s, i + 1, SQUOTE);
        if k < s.len() {
            k + 1 - i
        } else {
            s.len() - i
        }
    } else if 0 <= i && i + 1 < s.len() && s[i] == DOLLAR && s[i + 1] == SQUOTE {
        ansi_end(s, i + 2) - i
    } else {
        word_run(s, i)
    }
}

pub proof fn lemma_token_run_bounds(s: Seq<u8>, i: int)
    requires
        0 <= i <= s.len(),
    ensures
        0 <= token_run(s, i) <= s.len() - i,
{
    if i < s.len() && s[i] == SQUOTE {
        lemma_first_at(s, i + 1, SQUOTE);
    } else if i + 1 < s.len() && s[i] == DOLLAR && s[i + 1] == SQUOTE {
        lemma_ansi_end_bounds(s, i + 2);
    } else {
        lemma_word_run_bounds(s, i);
    }
}

pub fn token_len(line: &[u8], i: usize) -> (r: usize)
    requires
        i <= line@.len(),
    ensures
        r == token_run(line@, i as int),
{
    let len = line.len();
    if i < len && line[i] == SQUOTE {
        let k = find_byte(line, i + 1, SQUOTE);
        proof {
            lemma_first_at(line@, i + 1, SQUOTE);
        }
        if k < len {
            k + 1 - i
        } else {
            len - i
        }
    } else if len - i >= 2 && line[i] == DOLLAR && line[i + 1] == SQUOTE {
        let mut j: usize = i + 2;
        while j < len
            invariant
                len == line@.len(),
                i + 2 <= j <= len,
                ansi_end(line@, i + 2) == ansi_end(line@, j as int),
            ensures
                ansi_end(line@, i + 2) == if j < len {
                    j + 1
                } else {
                    len as int
                },
            decreases len - j,
        {
            if line[j] == BACKSLASH && j + 1 < len && line[j + 1] != NEWLINE {
                j = j + 2;
            } else if line[j] == SQUOTE {
                break;
            } else {
                j = j + 1;
            }
        }
        if j < len {
            j + 1 - i
        } else {
            len - i
        }
    } else {
        let mut j: usize = i;
        while j < len
            invariant
                len == line@.len(),
                i <= j <= len,
                word_run(line@, i as int) == (j - i) + word_run(line@, j as int),
            ensures
                word_run(line@, j as int) == 0,
            decreases len - j,
        {
            if line[j] == BACKSLASH && j + 1 < len && line[j + 1] != NEWLINE {
                j = j + 2;
            } else if is_word_stop(line[j]) {
                break;
            } else {
                j = j + 1;
            }
        }
        j - i
    }
}

pub fn is_word_stop(b: u8) -> (r: bool)
    ensures
        r == word_stop(b),
{
    b == SEMI || is_space(b) || b == SQUOTE || b == DQUOTE || b == LPAREN || b == RPAREN || b
        == LBRACE || b == RBRACE || b == BACKTICK
}

/// Bytes that may spell a reserved word.
pub open spec fn word_letter(b: u8) -> bool {
    (0x61u8 <= b && b <= 0x7au8) || b == LBRACKET
}

pub open spec fn letter_run(s: Seq<u8>, i: int) -> int
    decreases s.len() - i,
{
    if i < 0 || i >= s.len() {
        0
    } else if word_letter(s[i]) {
        1 + letter_run(s, i + 1)
    } else {
        0
    }
}

pub proof fn lemma_letter_run_bounds(s: Seq<u8>, i: int)
    requires
        0 <= i <= s.len(),
    ensures
        0 <= letter_run(s, i) <= s.len() - i,
    decreases s.len() - i,
{
    if i < s.len() && word_letter(s[i]) {
        lemma_letter_run_bounds(s, i + 1);
    }
}

/// The shell's reserved words that start a new command after them.
pub open spec fn reserved_word(w: Seq<u8>) -> bool {
    ||| w == seq!['[' as u8, '[' as u8]
    ||| w == seq!['c' as u8, 'a' as u8, 's' as u8, 'e' as u8]
    ||| w == seq!['d' as u8, 'o' as u8]
    ||| w == seq!['d' as u8, 'o' as u8, 'n' as u8, 'e' as u8]
    ||| w == seq!['e' as u8, 'l' as u8, 'i' as u8, 'f' as u8]
    ||| w == seq!['e' as u8, 'l' as u8, 's' as u8, 'e' as u8]
    ||| w == seq!['e' as u8, 's' as u8, 'a' as u8, 'c' as u8]
    ||| w == seq!['f' as u8, 'i' as u8]
    ||| w == seq!['f' as u8, 'o' as u8, 'r' as u8]
    ||| w == seq!['f' as u8, 'u' as u8, 'n' as u8, 'c' as u8, 't' as u8, 'i' as u8, 'o' as u8, 'n' as u8]
    ||| w == seq!['i' as u8, 'f' as u8]
    ||| w == seq!['i' as u8, 'n' as u8]
    ||| w == seq!['s' as u8, 'e' as u8, 'l' as u8, 'e' as u8, 'c' as u8, 't' as u8]
    ||| w == seq!['t' as u8, 'h' as u8, 'e' as u8, 'n' as u8]
    ||| w == seq!['t' as u8, 'i' as u8, 'm' as u8, 'e' as u8]
    ||| w == seq!['u' as u8, 'n' as u8, 't' as u8, 'i' as u8, 'l' as u8]
    ||| w == seq!['w' as u8, 'h' as u8, 'i' as u8, 'l' as u8, 'e' as u8]
}

pub fn same_bytes(a: &[u8], b: &[u8]) -> (r: bool)
    ensures
        r == (a@ == b@),
{
    if a.len() != b.len() {
        return false;
    }
    let mut k: usize = 0;
    while k < a.len()
        invariant
            a@.len() == b@.len(),
            k <= a@.len(),
            forall|j: int| 0 <= j < k ==> a@[j] == b@[j],
        decreases a@.len() - k,
    {
        if a[k] != b[k] {
            return false;
        }
        k = k + 1;
    }
    assert(a@ =~= b@);
    true
}

pub fn is_reserved(w: &[u8]) -> (r: bool)
    ensures
        r == reserved_word(w@),
{
    same_bytes(w, &['[' as u8, '[' as u8])
        || same_bytes(w, &['c' as u8, 'a' as u8, 's' as u8, 'e' as u8])
        || same_bytes(w, &['d' as u8, 'o' as u8])
        || same_bytes(w, &['d' as u8, 'o' as u8, 'n' as u8, 'e' as u8])
        || same_bytes(w, &['e' as u8, 'l' as u8, 'i' as u8, 'f' as u8])
        || same_bytes(w, &['e' as u8, 'l' as u8, 's' as u8, 'e' as u8])
        || same_bytes(w, &['e' as u8, 's' as u8, 'a' as u8, 'c' as u8])
        || same_bytes(w, &['f' as u8, 'i' as u8])
        || same_bytes(w, &['f' as u8, 'o' as u8, 'r' as u8])
        || same_bytes(w, &['f' as u8, 'u' as u8, 'n' as u8, 'c' as u8, 't' as u8, 'i' as u8, 'o' as u8, 'n' as u8])
        || same_bytes(w, &['i' as u8, 'f' as u8])
        || same_bytes(w, &['i' as u8, 'n' as u8])
        || same_bytes(w, &['s' as u8, 'e' as u8, 'l' as u8, 'e' as u8, 'c' as u8, 't' as u8])
        || same_bytes(w, &['t' as u8, 'h' as u8, 'e' as u8, 'n' as u8])
        || same_bytes(w, &['t' as u8, 'i' as u8, 'm' as u8, 'e' as u8])
        || same_bytes(w, &['u' as u8, 'n' as u8, 't' as u8, 'i' as u8, 'l' as u8])
        || same_bytes(w, &['w' as u8, 'h' as u8, 'i' as u8, 'l' as u8, 'e' as u8])
}

/// A reserved word at `i` that a white-space byte follows: its length and that
/// byte, or zero.
pub open spec fn keyword_run(s: Seq<u8>, i: int) -> int {
    let n = letter_run(s, i);
    if 0 <= i && i + n < s.len() && space_byte(s[i + n]) && reserved_word(s.subrange(i, i + n)) {
        n + 1
    } else {
        0
    }
}

pub fn keyword_len(line: &[u8], i: usize) -> (r: usize)
    requires
        i <= line@.len(),
    ensures
        r == keyword_run(line@, i as int),
{
    let len = line.len();
    let mut j: usize = i;
    while j < len
        invariant
            len == line@.len(),
            i <= j <= len,
            letter_run(line@, i as int) == (j - i) + letter_run(line@, j as int),
        ensures
            letter_run(line@, j as int) == 0,
        decreases len - j,
    {
        let b = line[j];
        if (0x61u8 <= b && b <= 0x7au8) || b == LBRACKET {
            j = j + 1;
        } else {
            break;
        }
    }
    if j < len && is_space(line[j]) && is_reserved(slice_subrange(line, i, j)) {
        j - i + 1
    } else {
        0
    }
}

/// ASCII letters, digits and the underscore.
pub open spec fn name_byte(b: u8) -> bool {
    (0x30u8 <= b && b <= 0x39u8) || (0x41u8 <= b && b <= 0x5au8) || (0x61u8 <= b && b <= 0x7au8)
        || b == UNDERSCORE
}

pub open spec fn name_run(s: Seq<u8>, i: int) -> int
    decreases s.len() - i,
{
    if i < 0 || i >= s.len() {
        0
    } else if name_byte(s[i]) {
        1 + name_run(s, i + 1)
    } else {
        0
    }
}

pub proof fn lemma_name_run_bounds(s: Seq<u8>, i: int)
    requires
        0 <= i <= s.len(),
    ensures
        0 <= name_run(s, i) <= s.len() - i,
    decreases s.len() - i,
{
    if i < s.len() && name_byte(s[i]) {
        lemma_name_run_bounds(s, i + 1);
    }
}

/// The `NAME=` head of an environment assignment at `i`, or zero.
pub open spec fn assign_run(s: Seq<u8>, i: int) -> int {
    let n = name_run(s, i);
    if 0 <= i && n > 0 && i + n < s.len() && s[i + n] == EQUALS {
        n + 1
    } else {
        0
    }
}

pub fn assign_len(line: &[u8], i: usize) -> (r: usize)
    requires
        i <= line@.len(),
    ensures
        r == assign_run(line@, i as int),
{
    let len = line.len();
    let mut j: usize = i;
    while j < len
        invariant
            len == line@.len(),
            i <= j <= len,
            name_run(line@, i as int) == (j - i) + name_run(line@, j as int),
        ensures
            name_run(line@, j as int) == 0,
        decreases len - j,
    {
        let b = line[j];
        if (0x30u8 <= b && b <= 0x39u8) || (0x41u8 <= b && b <= 0x5au8) || (0x61u8 <= b && b
            <= 0x7au8) || b == UNDERSCORE {
            j = j + 1;
        } else {
            break;
        }
    }
    if j > i && j < len && line[j] == EQUALS {
        j - i + 1
    } else {
        0
    }
}

/// A statement separator at `i`: `;`, a newline, `&&`, `||`, `|&` or `|`.
pub open spec fn separator_run(s: Seq<u8>, i: int) -> int {
    if i < 0 || i >= s.len() {
        0
    } else if s[i] == SEMI || s[i] == NEWLINE {
        1
    } else if s[i] == AMP {
        if i + 1 < s.len() && s[i + 1] == AMP {
            2
        } else {
            0
        }
    } else if s[i] == PIPE {
        if i + 1 < s.len() && (s[i + 1] == PIPE || s[i + 1] == AMP) {
            2
        } else {
            1
        }
    } else {
        0
    }
}

pub fn separator_len(line: &[u8], i: usize) -> (r: usize)
    requires
        i <= line@.len(),
    ensures
        r == separator_run(line@, i as int),
{
    let len = line.len();
    if i >= len {
        0
    } else if line[i] == SEMI || line[i] == NEWLINE {
        1
    } else if line[i] == AMP {
        if len - i >= 2 && line[i + 1] == AMP {
            2
        } else {
            0
        }
    } else if line[i] == PIPE {
        if len - i >= 2 && (line[i + 1] == PIPE || line[i + 1] == AMP) {
            2
        } else {
            1
        }
    } else {
        0
    }
}

} // verus!
