use z3_sched::ident::{
    contains_sep, decimal_string, decode_commit, decode_match_key, decode_plan, decode_price_key,
    encode_commit, encode_occurrence, encode_plan, find_first_sep, find_last_sep, head_of,
    is_nameable, tail_of,
};

#[test]
fn numbers_are_written_in_decimal() {
    assert_eq!(decimal_string(0), "0");
    assert_eq!(decimal_string(7), "7");
    assert_eq!(decimal_string(10), "10");
    assert_eq!(decimal_string(4096), "4096");
    assert_eq!(decimal_string(usize::MAX), usize::MAX.to_string());
}

#[test]
fn keys_are_joined_by_hyphens() {
    assert_eq!(encode_commit(0), "0");
    assert_eq!(encode_commit(12), "12");
    assert_eq!(encode_plan(0, 0), "0-0");
    assert_eq!(encode_plan(3, 12), "3-12");
    assert_eq!(encode_occurrence(0, 0, "abcde-0"), "0-0-abcde-0");
    assert_eq!(encode_occurrence(10, 2, "a-b-c-7"), "10-2-a-b-c-7");
    assert_eq!(encode_occurrence(1, 2, ""), "1-2-");
}

#[test]
fn separators_are_found() {
    assert_eq!(find_first_sep("0-0-abcde-0"), 1);
    assert_eq!(find_first_sep("abcde"), 5);
    assert_eq!(find_first_sep(""), 0);
    assert_eq!(find_first_sep("-x"), 0);
    assert_eq!(find_last_sep("0-0-abcde-0"), 9);
    assert_eq!(find_last_sep("abcde"), 0);
    assert_eq!(find_last_sep("-x"), 0);
    assert_eq!(find_last_sep("x-"), 1);
    assert!(contains_sep("abcde-0"));
    assert!(contains_sep("-"));
    assert!(!contains_sep("abcde"));
    assert!(!contains_sep(""));
}

#[test]
fn separators_are_counted_in_characters() {
    assert_eq!(find_first_sep("\u{e9}\u{e9}-x"), 2);
    assert_eq!(find_last_sep("\u{e9}-\u{e9}-x"), 3);
    assert_eq!(decode_price_key("\u{e9}t\u{e9}-0"), "\u{e9}t\u{e9}");
    assert_eq!(decode_match_key("0-1-\u{e9}t\u{e9}-0"), "\u{e9}t\u{e9}-0");
}

#[test]
fn names_split_into_head_and_tail() {
    assert_eq!(head_of("0-1-abcde-0"), "0");
    assert_eq!(tail_of("0-1-abcde-0"), "1-abcde-0");
    assert_eq!(head_of("abcde"), "abcde");
    assert_eq!(tail_of("abcde"), "");
    assert_eq!(tail_of("abcde-"), "");
    assert_eq!(head_of("-abcde"), "");
}

#[test]
fn keys_decode_to_their_parts() {
    assert_eq!(decode_commit("3-12"), "3");
    assert_eq!(decode_commit("3-12-abcde-0"), "3");
    assert_eq!(decode_commit("7"), "7");
    assert_eq!(decode_plan("3-12-abcde-0"), "3-12");
    assert_eq!(decode_plan("3-12"), "3-12");
    assert_eq!(decode_match_key("3-12-abcde-0"), "abcde-0");
    assert_eq!(decode_match_key("3-12-a-b-c-7"), "a-b-c-7");
    assert_eq!(decode_match_key("3-12"), "");
    assert_eq!(decode_price_key("abcde-0"), "abcde");
    assert_eq!(decode_price_key("a-b-c-7"), "a-b-c");
    assert_eq!(decode_price_key("abcde"), "");
}

#[test]
fn decoding_undoes_encoding() {
    for i in [0usize, 1, 9, 10, 99, 100, 12345] {
        for j in [0usize, 3, 10, 777] {
            let plan = encode_plan(i, j);
            assert_eq!(decode_commit(&plan), encode_commit(i));
            for id in ["abcde-0", "a-b-c-7", "x-", "-"] {
                let name = encode_occurrence(i, j, id);
                assert_eq!(decode_commit(&name), encode_commit(i));
                assert_eq!(decode_plan(&name), plan);
                assert_eq!(decode_match_key(&name), id);
            }
        }
    }
}

#[test]
fn a_name_holds_no_nul() {
    assert!(is_nameable("abcde-0"));
    assert!(is_nameable(""));
    assert!(!is_nameable("ab\0cde-0"));
    assert!(!is_nameable("\0"));
}
