//! Where a needle is allowed to match.
use msg::matching::begins_a_word;

#[test]
fn a_match_has_to_start_where_a_word_starts() {
    assert!(begins_a_word("starting tomorrow", "start"), "a prefix");
    assert!(!begins_a_word("we started at six", "art"), "inside a word");
    assert!(
        !begins_a_word("the apartment above", "art"),
        "inside another"
    );
    assert!(begins_a_word("is that art deco", "art"), "a whole word");
    assert!(
        begins_a_word("we started at six, is that art deco", "art"),
        "any occurrence, not the first"
    );
}

#[test]
fn a_first_name_does_not_match_inside_a_surname() {
    assert!(begins_a_word("ana duarte", "ana"));
    assert!(!begins_a_word("dana reyes", "ana"));
    assert!(!begins_a_word("susana vidal", "ana"));
    assert!(begins_a_word("dana reyes", "reyes"));
}

#[test]
fn anything_that_is_not_alphanumeric_opens_a_word() {
    assert!(begins_a_word("jean-luc picard", "luc"));
    assert!(begins_a_word("o'brien", "brien"));
    assert!(begins_a_word("(310) 555-1234", "555"));
    assert!(!begins_a_word("covid19", "19"));
}

#[test]
fn a_needle_that_is_not_word_shaped_skips_the_rule() {
    assert!(begins_a_word("lol😂", "😂"), "after a letter");
    assert!(begins_a_word("wait?!", "?!"));
    assert!(begins_a_word("see https://example.com", "://"));
    assert!(begins_a_word("anything", ""), "what contains(\"\") gave");
}

#[test]
fn a_script_without_spaces_is_matched_as_a_substring() {
    assert!(begins_a_word("私は東京に行きます", "東京"));
    assert!(begins_a_word("我住在北京市", "北京"));
    assert!(begins_a_word("서울에서 만나요", "울에"));
}

#[test]
fn the_carve_out_covers_the_blocks_it_claims() {
    assert!(begins_a_word("ｱｲｶﾀｶﾅ", "ｶﾀ"));
    assert!(begins_a_word("ㄱㄴㄷㄹ", "ㄴㄷ"));
    assert!(begins_a_word("\u{20000}\u{20001}\u{20002}", "\u{20001}"));
}

#[test]
fn both_sides_are_expected_lowercased() {
    assert!(begins_a_word("ana duarte", "ana"));
    assert!(!begins_a_word("Ana Duarte", "ana"));
}
