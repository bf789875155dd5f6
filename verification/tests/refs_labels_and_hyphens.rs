use girsa::refs::address::{Address, Level};
use girsa::refs::reference::Ref;
use girsa::refs::resolve::is_section_word;

#[test]
fn the_words_a_schema_labels_a_level_with_are_answered_for() {
    for word in ["חלק", "סימן", "כלל", "שער", "פרק", "סעיף", "דף", "עמוד"]
    {
        assert!(is_section_word(word), "{word} labels a level");
    }
}

#[test]
fn a_word_that_names_a_sefer_is_not_a_label() {
    for word in ["תורה", "תלמוד", "ספר", "תפילה", "מדרש"] {
        assert!(!is_section_word(word), "{word} is how a sefer is called");
    }
    for word in ["ברכות", "אמת", "משה", "הרשבא"] {
        assert!(!is_section_word(word), "{word} is not a label");
    }
}

#[test]
fn the_answer_is_the_normalized_one_so_a_final_letter_does_not_miss() {
    assert!(is_section_word("סעיף"));
    assert!(is_section_word("סעיפ"));
    assert!(is_section_word("סִימָן"));
}

const HYPHENATED_LEVELS: [&str; 4] = [
    "orach-chayim",
    "כסלו-טבת",
    "שער חמישי - שער ייחוד המעשה",
    "Ki-Tisa",
];

#[test]
fn a_hyphenated_section_is_one_level_and_not_a_range() {
    let r: Ref = "girsa:tur/orach-chayim:240:1"
        .parse()
        .expect("a hyphenated section name is still a ref");

    assert_eq!(r.work_slug(), "tur");
    assert!(
        !r.is_span(),
        "read as a range from `orach` to `chayim:240:1` — \
         a place-shaped thing that is not a place, and no error"
    );
    assert_eq!(
        r.from()
            .levels()
            .iter()
            .map(Level::as_str)
            .collect::<Vec<_>>(),
        ["orach-chayim", "240", "1"],
    );
}

#[test]
fn a_hyphenated_level_survives_being_written_down_and_read_back() {
    for name in HYPHENATED_LEVELS {
        let built = Ref::point(
            vec!["work".into()],
            Address::new(vec![Level::canonical(name), Level::number(5)]),
        );
        let printed = built.to_string();
        let read: Ref = printed.parse().unwrap_or_else(|e| panic!("{printed}: {e:?}"));
        assert_eq!(read, built, "{printed} came back as a different ref");
        assert!(
            built.is_well_formed(),
            "{printed} should report itself writable"
        );
    }
}

#[test]
fn a_range_between_two_numbered_addresses_is_still_a_range() {
    for (written, from, to) in [
        ("girsa:bavli/berakhot/2a:1-2b:4", "2a:1", "2b:4"),
        ("girsa:shulchan-arukh/orach-chayim/1:1-3:1", "1:1", "3:1"),
        ("girsa:torah/exodus/1:1-6:1", "1:1", "6:1"),
    ] {
        let r: Ref = written.parse().unwrap_or_else(|e| panic!("{written}: {e:?}"));
        assert!(r.is_span(), "{written} stopped being a span");
        assert_eq!(r.from().to_string(), from, "{written}");
        assert_eq!(r.to().map(|a| a.to_string()).as_deref(), Some(to));
        assert_eq!(r.to_string(), written);
    }
}

#[test]
fn a_span_whose_end_is_written_short_still_reads_as_a_span() {
    let r: Ref = "girsa:bavli/arakhin/33b:21-22".parse().expect("parses");
    assert!(r.is_span());
    assert_eq!(r.to().map(|a| a.to_string()).as_deref(), Some("22"));
}

#[test]
fn a_level_that_cannot_be_written_down_says_so_rather_than_lying() {
    let unwritable = Ref::point(
        vec!["work".into()],
        Address::new(vec![Level::canonical("1-2")]),
    );
    assert!(!unwritable.is_well_formed());

    for bad in ["a/b", "a:b", "a#b", ""] {
        let r = Ref::point(
            vec!["work".into()],
            Address::new(vec![Level::canonical(bad)]),
        );
        assert!(!r.is_well_formed(), "a level of {bad:?} is not writable");
    }
}

#[test]
fn the_ordinary_refs_are_all_writable() {
    for written in [
        "girsa:shulchan-arukh/orach-chayim/1:1",
        "girsa:bavli/berakhot/2a:1-2b:4",
        "girsa:mishnah-berurah/121:3",
        "girsa:tur/orach-chayim:240:1",
    ] {
        let r: Ref = written.parse().unwrap_or_else(|e| panic!("{written}: {e:?}"));
        assert!(r.is_well_formed(), "{written}");
        assert_eq!(r.to_string(), written);
    }
}
