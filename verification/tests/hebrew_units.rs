use girsa::hebrew::abbrev::expansions_of;
use girsa::hebrew::ktiv::spellings;
use girsa::hebrew::marks::{
    fold_final, fold_quote_mark, is_mark, is_word_breaking_punctuation, CANONICAL_GERESH,
    CANONICAL_GERSHAYIM, GERESH_FORMS, GERSHAYIM_FORMS, WORD_BREAKING,
};
use girsa::hebrew::prefix::{peelings, MIN_STEM_LETTERS};

#[test]
fn the_four_punctuation_marks_in_the_range_are_not_treated_as_marks() {
    for c in WORD_BREAKING {
        assert!(!is_mark(c), "{c:?} (U+{:04X}) must not be stripped", c as u32);
        assert!(is_word_breaking_punctuation(c));
    }
}

#[test]
fn nikud_and_teamim_are_marks() {
    for c in ['\u{05B0}', '\u{05B7}', '\u{05BC}', '\u{0591}', '\u{05C7}'] {
        assert!(is_mark(c), "U+{:04X} must be stripped", c as u32);
    }
}

#[test]
fn every_spelling_of_a_quote_mark_folds_to_one_character() {
    for c in GERESH_FORMS {
        assert_eq!(fold_quote_mark(c), Some(CANONICAL_GERESH));
    }
    for c in GERSHAYIM_FORMS {
        assert_eq!(fold_quote_mark(c), Some(CANONICAL_GERSHAYIM));
    }
    assert_eq!(fold_quote_mark('א'), None);
}

#[test]
fn final_letters_fold_and_ordinary_letters_do_not() {
    assert_eq!(fold_final('ך'), 'כ');
    assert_eq!(fold_final('ץ'), 'צ');
    assert_eq!(fold_final('א'), 'א');
}

#[test]
fn stacked_prefixes_peel_one_at_a_time() {
    assert_eq!(peelings("ובשבת"), vec!["בשבת", "שבת", "בת"]);
}

#[test]
fn four_stacked_prefixes_still_reach_the_stem() {
    assert!(peelings("וכשהמלכ").contains(&"מלכ".to_string()));
}

#[test]
fn a_word_that_is_all_prefix_letters_is_not_dissolved() {
    for stem in peelings("משה") {
        assert!(stem.chars().count() >= MIN_STEM_LETTERS, "{stem:?}");
    }
}

#[test]
fn a_word_starting_with_no_prefix_letter_has_no_peelings() {
    assert!(peelings("אמת").is_empty());
}

#[test]
fn the_male_spelling_is_reachable_from_the_chaser_one() {
    assert!(spellings("כהנ").contains(&"כוהנ".to_string()));
}

#[test]
fn the_chaser_spelling_is_reachable_from_the_male_one() {
    assert!(spellings("כוהנ").contains(&"כהנ".to_string()));
}

#[test]
fn a_trailing_letter_is_left_alone() {
    assert!(!spellings("רבו").contains(&"רב".to_string()));
}

#[test]
fn a_word_carrying_punctuation_is_not_a_candidate() {
    assert!(spellings("שו\"ע").is_empty());
}

#[test]
fn the_table_runs_in_both_directions() {
    assert!(expansions_of("שו\"ע").contains(&"שולחן ערוך".to_string()));
    assert!(expansions_of("שולחן ערוך").contains(&"שו\"ע".to_string()));
}

#[test]
fn a_lookup_does_not_care_which_gershayim_was_typed() {
    assert_eq!(expansions_of("שו\"ע"), expansions_of("שו״ע"));
    assert_eq!(expansions_of("רמב\"ם"), expansions_of("רמב״ם"));
}

#[test]
fn a_final_letter_does_not_hide_an_entry() {
    assert!(!expansions_of("רמב\"ם").is_empty());
}

#[test]
fn an_unknown_term_expands_to_nothing_rather_than_a_guess() {
    assert!(expansions_of("קרןאורה").is_empty());
}

#[test]
fn two_seforim_sharing_an_abbreviation_both_come_back() {
    let both = expansions_of("ב\"ה");
    assert!(both.contains(&"ברוך השם".to_string()));
    assert!(both.contains(&"בית הלל".to_string()));
}
