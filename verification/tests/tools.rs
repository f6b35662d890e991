use zinifier::text::{dec_string, replace_all, trim};

#[test]
fn replace_scans_left_to_right() {
    assert_eq!(replace_all("aaa", "aa", "b"), "ba");
    assert_eq!(replace_all("abcabc", "b", "xy"), "axycaxyc");
    assert_eq!(replace_all("nothing here", "zz", "q"), "nothing here");
}

#[test]
fn replace_never_rescans_output() {
    assert_eq!(replace_all("ab", "ab", "aab"), "aab");
    assert_eq!(replace_all("[^1][^12]", "[^1]", "X"), "X[^12]");
}

#[test]
fn trim_strips_surrounding_whitespace() {
    assert_eq!(trim("  a b\t"), "a b");
    assert_eq!(trim("\n\nx\n"), "x");
    assert_eq!(trim("   "), "");
    assert_eq!(trim("solid"), "solid");
}

#[test]
fn decimal_rendering() {
    assert_eq!(dec_string(0), "0");
    assert_eq!(dec_string(7), "7");
    assert_eq!(dec_string(120), "120");
    assert_eq!(dec_string(10050), "10050");
}
