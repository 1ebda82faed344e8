use carp::textfmt::layout;

#[test]
fn short_title_stays_on_one_line() {
    let r = layout("Short title", 35);
    assert_eq!(r.line1.as_str(), "Short title");
    assert_eq!(r.line2.as_str(), "");
}

#[test]
fn greedy_split_keeps_whole_words() {
    let r = layout("Alpha Bravo Charlie Delta Echo Foxtrot Golf", 35);
    assert_eq!(r.line1.as_str(), "Alpha Bravo Charlie Delta Echo");
    assert!(r.line1.chars().count() <= 35);
    assert_eq!(r.line2.as_str(), "Foxtrot Golf");
    let rejoined = format!("{} {}", r.line1, r.line2);
    let original_words: Vec<&str> = "Alpha Bravo Charlie Delta Echo Foxtrot Golf"
        .split_whitespace()
        .collect();
    let rejoined_words: Vec<&str> = rejoined.split_whitespace().collect();
    assert_eq!(original_words, rejoined_words);
}

#[test]
fn long_first_word_hard_splits_at_limit() {
    // The first word alone is 36 characters, over the limit: a hard split
    // that ignores word boundaries.
    let s = "Supercalifragilisticexpialidociousss extra";
    assert_eq!(s.split_whitespace().next().unwrap().chars().count(), 36);
    let r = layout(s, 35);
    assert_eq!(r.line1.as_str(), "Supercalifragilisticexpialidociouss");
    assert_eq!(r.line2.as_str(), "s extra");
}

#[test]
fn single_long_word_hard_splits() {
    let s = "Supercalifragilisticexpialidocious extra words";
    let r = layout(s, 35);
    // line1 is the first 35 characters trimmed, line2 the remainder trimmed.
    let first35: String = s.chars().take(35).collect();
    let rest: String = s.chars().skip(35).collect();
    assert_eq!(r.line1.as_str(), first35.trim());
    assert_eq!(r.line2.as_str(), rest.trim());
    assert_eq!(r.line1.as_str(), "Supercalifragilisticexpialidocious");
    assert_eq!(r.line2.as_str(), "extra words");
}

#[test]
fn empty_name_yields_empty_lines() {
    let r = layout("", 35);
    assert_eq!(r.line1.as_str(), "");
    assert_eq!(r.line2.as_str(), "");
}

#[test]
fn name_exactly_at_limit_stays_on_one_line() {
    let s = "abcdefghijklmnopqrstuvwxyz123456789"; // 35 characters
    assert_eq!(s.chars().count(), 35);
    let r = layout(s, 35);
    assert_eq!(r.line1.as_str(), s);
    assert_eq!(r.line2.as_str(), "");
}

#[test]
fn one_word_over_the_limit_is_cut_at_limit() {
    let s = "aaaaaaaaaabbbbbbbbbbccccccccccddddddddddeee"; // 43 characters, one word
    let r = layout(s, 35);
    assert_eq!(r.line1.as_str(), &s[..35]);
    assert_eq!(r.line2.as_str(), &s[35..]);
}

#[test]
fn surrounding_whitespace_is_trimmed() {
    let r = layout("  padded  ", 35);
    assert_eq!(r.line1.as_str(), "padded");
    assert_eq!(r.line2.as_str(), "");
}
