use find_cmd::{parse_line, Match};

/// Scans `left` followed by `right` with the cursor between them.
fn scan(left: &str, right: &str) -> (String, Match) {
    let line = format!("{}{}", left, right);
    let m = parse_line(&line, left.len(), None);
    (line, m)
}

/// Checks the span, the words, the word index and the offset in the word.
fn check(left: &str, right: &str, expected: &str, words: &[&str], index: usize, sindex: usize) {
    let (line, m) = scan(left, right);
    assert_eq!(&line[m.start..m.end], expected, "checking start,end");
    let got: Vec<&str> = m.tokens.iter().map(|&(a, b)| &line[a..b]).collect();
    assert_eq!(got, words.to_vec(), "checking tokens");
    assert_eq!(m.index, index, "checking index");
    assert_eq!(m.sindex, sindex, "checking sindex");
}

#[test]
fn test_1() {
    check("", "", "", &[], 0, 0);
}

#[test]
fn test_21() {
    check("echo ; ", "", "", &[], 0, 0);
}

#[test]
fn test_22() {
    check("echo 123", "", "echo 123", &["echo", "123"], 2, 3);
}

#[test]
fn test_31() {
    check("echo", " 123", "echo 123", &["echo", "123"], 1, 4);
}

#[test]
fn test_32() {
    check("echo 123 ", "", "echo 123 ", &["echo", "123"], 2, 0);
}

#[test]
fn test_33() {
    check(" echo", " 123", "echo 123", &["echo", "123"], 1, 4);
}

#[test]
fn test_34() {
    check("echo \\\n", " 123", "echo \\\n 123", &["echo", "123"], 1, 0);
}

#[test]
fn test_35() {
    check("ec", "ho", "echo", &["echo"], 1, 2);
}

#[test]
fn test_411() {
    check("echo ", "\"123\"", "echo \"123\"", &["echo", "\"123\""], 2, 0);
}

#[test]
fn test_412() {
    check("echo ", "\"123", "echo \"123", &["echo", "\"123"], 2, 0);
}

#[test]
fn test_413() {
    check("echo ", "\"12$(cat)3\"", "echo \"12$(cat)3\"", &["echo", "\"12$(cat)3\""], 2, 0);
}

#[test]
fn test_414() {
    check("echo ", "12$(cat file)3", "echo 12$(cat file)3", &["echo", "12$(cat file)3"], 2, 0);
}

#[test]
fn test_415() {
    check("echo \"12$(ca", "t)3\"", "cat", &["cat"], 1, 2);
}

#[test]
fn test_416() {
    check("echo \"12$(ca", "t file)3\"", "cat file", &["cat", "file"], 1, 2);
}

#[test]
fn test_417() {
    check("echo \"12$ca", "t3\"", "echo \"12$cat3\"", &["echo", "\"12$cat3\""], 2, 6);
}

#[test]
fn test_42() {
    check("echo \"as$", "", "echo \"as$", &["echo", "\"as$"], 2, 4);
}

#[test]
fn test_431() {
    check("echo", " '12(3'", "echo '12(3'", &["echo", "'12(3'"], 1, 4);
}

#[test]
fn test_432() {
    check("echo", " '12(3", "echo '12(3", &["echo", "'12(3"], 1, 4);
}

#[test]
fn test_433() {
    check("echo", " $'12\\'3'", "echo $'12\\'3'", &["echo", "$'12\\'3'"], 1, 4);
}

#[test]
fn test_434() {
    check("echo", " '1\\'2\\\\(3'", "echo '1\\'2\\\\(3'", &["echo", "'1\\'2\\\\(3'"], 1, 4);
}

#[test]
fn test_44() {
    check("`cat`; echo", "", "echo", &["echo"], 1, 4);
}

#[test]
fn test_51() {
    check("[[ echo", " 123", "echo 123", &["echo", "123"], 1, 4);
}

#[test]
fn test_52() {
    check("case echo", " 123", "echo 123", &["echo", "123"], 1, 4);
}

#[test]
fn test_53() {
    check("do echo", " 123", "echo 123", &["echo", "123"], 1, 4);
}

#[test]
fn test_54() {
    check("done echo", " 123", "echo 123", &["echo", "123"], 1, 4);
}

#[test]
fn test_55() {
    check("elif echo", " 123", "echo 123", &["echo", "123"], 1, 4);
}

#[test]
fn test_56() {
    check("else echo", " 123", "echo 123", &["echo", "123"], 1, 4);
}

#[test]
fn test_57() {
    check("esac echo", " 123", "echo 123", &["echo", "123"], 1, 4);
}

#[test]
fn test_58() {
    check("fi echo", " 123", "echo 123", &["echo", "123"], 1, 4);
}

#[test]
fn test_59() {
    check("for echo", " 123", "echo 123", &["echo", "123"], 1, 4);
}

#[test]
fn test_5a() {
    check("function echo", " 123", "echo 123", &["echo", "123"], 1, 4);
}

#[test]
fn test_5b() {
    check("if echo", " 123", "echo 123", &["echo", "123"], 1, 4);
}

#[test]
fn test_5c() {
    check("in echo", " 123", "echo 123", &["echo", "123"], 1, 4);
}

#[test]
fn test_5d() {
    check("select echo", " 123", "echo 123", &["echo", "123"], 1, 4);
}

#[test]
fn test_5e() {
    check("then echo", " 123", "echo 123", &["echo", "123"], 1, 4);
}

#[test]
fn test_5f() {
    check("time echo", " 123", "echo 123", &["echo", "123"], 1, 4);
}

#[test]
fn test_5g() {
    check("until echo", " 123", "echo 123", &["echo", "123"], 1, 4);
}

#[test]
fn test_5h() {
    check("while echo", " 123", "echo 123", &["echo", "123"], 1, 4);
}

#[test]
fn test_5i() {
    check("whil", "e echo 123", "while", &["while"], 1, 4);
}

#[test]
fn test_61() {
    check("echo", " 123 ; echo 456", "echo 123 ", &["echo", "123"], 1, 4);
}

#[test]
fn test_62() {
    check("echo 123 ; echo", " 456", "echo 456", &["echo", "456"], 1, 4);
}

#[test]
fn test_63() {
    check("echo", " 123; echo 456", "echo 123", &["echo", "123"], 1, 4);
}

#[test]
fn test_64() {
    check("echo 123; echo", " 456", "echo 456", &["echo", "456"], 1, 4);
}

#[test]
fn test_65() {
    check("echo", " 123 \n echo 456", "echo 123 ", &["echo", "123"], 1, 4);
}

#[test]
fn test_66() {
    check("echo 123 \n echo", " 456", "echo 456", &["echo", "456"], 1, 4);
}

#[test]
fn test_67() {
    check("echo", " 123 && echo 456", "echo 123 ", &["echo", "123"], 1, 4);
}

#[test]
fn test_68() {
    check("echo 123 && echo", " 456", "echo 456", &["echo", "456"], 1, 4);
}

#[test]
fn test_69() {
    check("echo", " 123 || echo 456", "echo 123 ", &["echo", "123"], 1, 4);
}

#[test]
fn test_6a() {
    check("echo 123 || echo", " 456", "echo 456", &["echo", "456"], 1, 4);
}

#[test]
fn test_6b() {
    check("echo", " 123 | echo 456", "echo 123 ", &["echo", "123"], 1, 4);
}

#[test]
fn test_6c() {
    check("echo 123 | echo", " 456", "echo 456", &["echo", "456"], 1, 4);
}

#[test]
fn test_6d() {
    check("echo", " 123 |& echo 456", "echo 123 ", &["echo", "123"], 1, 4);
}

#[test]
fn test_6e() {
    check("echo 123 |& echo", " 456", "echo 456", &["echo", "456"], 1, 4);
}

#[test]
fn test_71() {
    check("echo ${var", "}", "echo ${var}", &["echo", "${var}"], 2, 5);
}

#[test]
fn test_72() {
    check("echo ${var", "", "echo ${var", &["echo", "${var"], 2, 5);
}

#[test]
fn test_73() {
    check("echo $(cat) ", "123", "echo $(cat) 123", &["echo", "$(cat)", "123"], 3, 0);
}

#[test]
fn test_74() {
    check("echo $(ca", "t) 123", "cat", &["cat"], 1, 2);
}

#[test]
fn test_75() {
    check("echo $(", "cat) 123", "cat", &["cat"], 1, 0);
}

#[test]
fn test_81() {
    check("KEY=VALUE echo", " 123", "echo 123", &["echo", "123"], 1, 4);
}

#[test]
fn test_82() {
    check("KE", "Y=VALUE echo 123", "KEY=VALUE", &["KEY=VALUE"], 1, 2);
}

#[test]
fn test_83() {
    check("KEY=VAL", "UE echo 123", "KEY=VALUE", &["KEY=VALUE"], 1, 7);
}

#[test]
fn test_84() {
    check("KEY=VA$(ca", "t) echo 123", "cat", &["cat"], 1, 2);
}

#[test]
fn test_85() {
    check("KEY=VALUE XYZ=", "STUFF echo 123", "XYZ=STUFF", &["XYZ=STUFF"], 1, 4);
}

#[test]
fn test_86() {
    check("KEY=VALUE XYZ=$(ca", "t) echo 123", "cat", &["cat"], 1, 2);
}

#[test]
fn test_87() {
    check("KEY=VALUE XYZ=$(ca", "t echo 123", "cat echo 123", &["cat", "echo", "123"], 1, 2);
}

#[test]
fn test_88() {
    check("KEY=VALUE XYZ=$(cat)ab", "c echo 123", "XYZ=$(cat)abc", &["XYZ=$(cat)abc"], 1, 12);
}
