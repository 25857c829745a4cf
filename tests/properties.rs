use find_cmd::lexer::{
    assign_len, blank_len, curly_len, dq_len, keyword_len, separator_len, token_len,
};
use find_cmd::{parse_bytes, parse_dq_string, parse_line, Match, Terminator};

fn words<'a>(line: &'a str, m: &Match) -> Vec<&'a str> {
    m.tokens.iter().map(|&(a, b)| &line[a..b]).collect()
}

fn same(a: &Match, b: &Match) -> bool {
    a.start == b.start
        && a.end == b.end
        && a.found == b.found
        && a.tokens == b.tokens
        && a.index == b.index
        && a.sindex == b.sindex
}

#[test]
fn results_stay_inside_the_line() {
    let lines = [
        "",
        "echo 123",
        "  echo \"a$(b c\" d",
        "KEY=VALUE XYZ=$(cat)abc echo 123",
        "if echo 1; then x | y && z; fi",
        "echo } ) ${x",
        "a{b}c`d` (e f",
    ];
    for line in lines.iter() {
        for p in 0..=line.len() {
            let m = parse_line(line, p, None);
            assert!(m.start <= m.end && m.end <= line.len());
            assert!(m.index <= m.tokens.len());
            let mut last = m.start;
            for &(a, b) in m.tokens.iter() {
                assert!(last <= a && a < b && b <= m.end, "{:?} at {}", line, p);
                last = b;
            }
        }
    }
}

#[test]
fn scanning_twice_gives_the_same_result() {
    let line = "KEY=VA$(cat) echo \"x$(y z)\" | w";
    for p in 0..=line.len() {
        assert!(same(&parse_line(line, p, None), &parse_line(line, p, None)));
    }
}

#[test]
fn cursor_moving_within_and_across_words() {
    let line = "echo 123 4567";
    let at = |p: usize| parse_line(line, p, None);
    assert_eq!(at(0).index, 1);
    assert_eq!(at(2).index, 1);
    assert_eq!(at(4).index, 1);
    assert_eq!(at(5).index, 2);
    assert_eq!(at(8).index, 2);
    assert_eq!(at(9).index, 3);
    assert_eq!(at(13).index, 3);
    assert_eq!(at(2).sindex, 2);
    assert_eq!(at(11).sindex, 2);
}

#[test]
fn scenario_end_of_first_word() {
    let line = "echo 123";
    let m = parse_line(line, 4, None);
    assert_eq!(words(line, &m), vec!["echo", "123"]);
    assert_eq!((m.index, m.sindex), (1, 4));
}

#[test]
fn scenario_substitution_in_quotes() {
    let line = "echo \"12$(cat)3\"";
    let m = parse_line(line, 11, None);
    assert_eq!(&line[m.start..m.end], "cat");
    assert_eq!(words(line, &m), vec!["cat"]);
    assert_eq!(m.index, 1);
    assert!(m.found);
}

#[test]
fn scenario_separator_after_cursor() {
    let line = "echo 123 ; echo 456";
    let m = parse_line(line, 6, None);
    assert_eq!(&line[m.start..m.end], "echo 123 ");
}

#[test]
fn scenario_assignment_kept_whole() {
    let line = "KEY=VALUE echo 123";
    let m = parse_line(line, 5, None);
    assert_eq!(words(line, &m), vec!["KEY=VALUE"]);
    assert_eq!((m.index, m.sindex), (1, 5));
}

#[test]
fn scenario_keyword_dropped() {
    let line = "if echo 123";
    let m = parse_line(line, 5, None);
    assert_eq!(words(line, &m), vec!["echo", "123"]);
    assert_eq!(m.index, 1);
}

#[test]
fn scenario_empty_line() {
    let m = parse_line("", 0, None);
    assert!(m.tokens.is_empty());
    assert_eq!((m.index, m.sindex, m.start, m.end, m.found), (0, 0, 0, 0, false));
}

#[test]
fn group_closed_at_end_of_line() {
    let line = "echo $(cat)";
    let m = parse_line(line, 2, None);
    assert_eq!(words(line, &m), vec!["echo", "$(cat)"]);
    assert_eq!(m.end, line.len());
}

#[test]
fn stray_closers_become_words() {
    let line = "echo ) }";
    let m = parse_line(line, 8, None);
    assert_eq!(words(line, &m), vec!["echo", ")", "}"]);
    assert_eq!((m.index, m.sindex), (3, 1));
}

#[test]
fn cursor_right_after_empty_substitution() {
    let line = "echo $()";
    let m = parse_line(line, 7, None);
    assert!(m.found);
    assert!(m.tokens.is_empty());
    assert_eq!((m.start, m.end, m.index), (7, 7, 0));
}

#[test]
fn cursor_before_a_substitution_that_is_returned() {
    let line = "echo (A=b c)";
    let m = parse_line(line, 0, None);
    assert_eq!(words(line, &m), vec!["A=b"]);
    assert_eq!((m.start, m.end), (6, 9));
}

#[test]
fn non_ascii_words() {
    let line = "echo héllo wörld";
    let m = parse_line(line, line.len(), None);
    assert_eq!(words(line, &m), vec!["echo", "héllo", "wörld"]);
    assert_eq!(m.index, 3);
}

#[test]
fn terminators_stop_a_nested_scan() {
    let m = parse_bytes(b"ab cd) ef", 1, Some(Terminator::CloseParen));
    assert_eq!((m.start, m.end, m.index, m.sindex), (0, 5, 1, 1));
    assert!(m.found);
    let m = parse_bytes(b"ab}cd", 0, Some(Terminator::CloseBrace));
    assert_eq!((m.end, m.found), (2, false));
    let m = parse_bytes(b"x`y", 3, Some(Terminator::Backtick));
    assert_eq!(m.end, 1);
    let m = parse_bytes(b"v$(a b) c", 9, Some(Terminator::Blank));
    assert_eq!(m.end, 7);
    assert_eq!(m.tokens, vec![(0, 7)]);
}

#[test]
fn quoted_string_scanner() {
    let m = parse_dq_string(b"abc\" rest", 0);
    assert_eq!((m.start, m.end, m.found), (0, 4, false));
    let m = parse_dq_string(b"a\\\"b", 0);
    assert_eq!(m.end, 4);
    let m = parse_dq_string(b"a$(x y)b\"", 5);
    assert!(m.found);
    assert_eq!((m.start, m.end, m.index, m.sindex), (3, 6, 2, 0));
    assert_eq!(m.tokens, vec![(3, 4), (5, 6)]);
    let m = parse_dq_string(b"${a\"b}c\"", 0);
    assert_eq!(m.end, 8);
    let m = parse_dq_string(b"x$\"y\"", 0);
    assert_eq!(m.end, 5);
}

#[test]
fn offset_translation() {
    let m = Match { start: 1, end: 6, found: true, tokens: vec![(1, 3), (4, 6)], index: 2, sindex: 1 };
    let r = m.offset(10, 3);
    assert_eq!((r.start, r.end, r.found, r.index, r.sindex), (11, 16, true, 5, 1));
    assert_eq!(r.tokens, vec![(11, 13), (14, 16)]);
}

#[test]
fn classifier_lengths() {
    assert_eq!(blank_len(b"  \\\n\tx", 0), 5);
    assert_eq!(blank_len(b"x ", 0), 0);
    assert_eq!(blank_len(b" \n", 0), 1);
    assert_eq!(curly_len(b"${ab}c", 0), 5);
    assert_eq!(curly_len(b"${ab", 0), 4);
    assert_eq!(curly_len(b"$ab", 0), 0);
    assert_eq!(dq_len(b"a\\\"b\"", 0), 4);
    assert_eq!(dq_len(b"ab$(c", 0), 2);
    assert_eq!(token_len(b"'a b'c", 0), 5);
    assert_eq!(token_len(b"'a b", 0), 4);
    assert_eq!(token_len(b"$'a\\'b' c", 0), 7);
    assert_eq!(token_len(b"a\\ b;c", 0), 4);
    assert_eq!(token_len(b")", 0), 0);
    assert_eq!(keyword_len(b"done x", 0), 5);
    assert_eq!(keyword_len(b"do x", 0), 3);
    assert_eq!(keyword_len(b"[[ x", 0), 3);
    assert_eq!(keyword_len(b"dox x", 0), 0);
    assert_eq!(keyword_len(b"if", 0), 0);
    assert_eq!(assign_len(b"A_1=x", 0), 4);
    assert_eq!(assign_len(b"=x", 0), 0);
    assert_eq!(assign_len(b"A-B=x", 0), 0);
    assert_eq!(separator_len(b";", 0), 1);
    assert_eq!(separator_len(b"\n", 0), 1);
    assert_eq!(separator_len(b"&&", 0), 2);
    assert_eq!(separator_len(b"&x", 0), 0);
    assert_eq!(separator_len(b"||", 0), 2);
    assert_eq!(separator_len(b"|&", 0), 2);
    assert_eq!(separator_len(b"|x", 0), 1);
}
