use find_cmd::completion::{completion_candidates, join_completions};
use find_cmd::tilde::{split_tilde, Tilde};

fn strings(v: &[&str]) -> Vec<String> {
    v.iter().map(|s| s.to_string()).collect()
}

#[test]
fn tilde_forms() {
    assert_eq!(split_tilde("random string"), (Tilde::Absent, 0));
    assert_eq!(split_tilde("$PWD"), (Tilde::Absent, 0));
    assert_eq!(split_tilde(""), (Tilde::Absent, 0));
    assert_eq!(split_tilde("~"), (Tilde::Home, 1));
    assert_eq!(split_tilde("~/.."), (Tilde::Home, 1));
    assert_eq!(split_tilde("~/random string"), (Tilde::Home, 1));
    assert_eq!(split_tilde("~+"), (Tilde::WorkingDir, 2));
    assert_eq!(split_tilde("~+/x"), (Tilde::WorkingDir, 2));
    assert_eq!(split_tilde("~-"), (Tilde::PreviousDir, 2));
    assert_eq!(split_tilde("~askjdh"), (Tilde::User, 7));
    assert_eq!(split_tilde("~$USER"), (Tilde::User, 6));
    assert_eq!(split_tilde("~root/bin"), (Tilde::User, 5));
    assert_eq!(split_tilde("~+x"), (Tilde::User, 3));
}

#[test]
fn candidates_skip_the_common_prefix() {
    let got = completion_candidates(&strings(&["ab", "abc", "", "abd"]));
    assert_eq!(got, strings(&["abc", "abd"]));
}

#[test]
fn single_candidate_is_kept() {
    assert_eq!(completion_candidates(&strings(&["only"])), strings(&["only"]));
    assert_eq!(completion_candidates(&strings(&[""])), strings(&[]));
    assert_eq!(completion_candidates(&strings(&[])), strings(&[]));
}

#[test]
fn joined_completions() {
    assert_eq!(join_completions(&strings(&[])), "");
    assert_eq!(join_completions(&strings(&["one"])), "one");
    assert_eq!(join_completions(&strings(&["one", "two", "three"])), "one two three ");
}
