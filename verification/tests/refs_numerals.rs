use girsa::refs::numerals;

#[test]
fn a_siman_number_reads_the_way_it_is_printed() {
    assert_eq!(numerals::parse("קכ\"א"), Some(121));
    assert_eq!(numerals::parse("קכא"), Some(121));
    assert_eq!(numerals::parse("121"), Some(121));
    assert_eq!(numerals::parse("א'"), Some(1));
    assert_eq!(numerals::parse("תרצ\"ז"), Some(697)); // the last siman of Orach Chayim
}

#[test]
fn fifteen_and_sixteen_are_written_the_way_they_are_written() {
    assert_eq!(numerals::to_hebrew(15), "ט\"ו");
    assert_eq!(numerals::to_hebrew(16), "ט\"ז");
    assert_eq!(numerals::parse("ט\"ו"), Some(15));
    assert_eq!(numerals::parse("ט\"ז"), Some(16));
}

#[test]
fn a_final_letter_is_worth_what_its_ordinary_form_is_worth() {
    assert_eq!(numerals::parse_hebrew("ך"), Some(20));
    assert_eq!(numerals::parse_hebrew("ם"), Some(40));
}

#[test]
fn gershayim_written_any_of_its_ways_does_not_change_the_number() {
    assert_eq!(numerals::parse("קכ\"א"), numerals::parse("קכ״א"));
    assert_eq!(numerals::parse("קכ\"א"), numerals::parse("קכ”א"));
}

#[test]
fn a_word_is_not_read_as_a_number() {
    for word in ["שבת", "ברכות", "אמת", "סימן", "סעיף", "משה", "תורה"]
    {
        assert_eq!(numerals::parse(word), None, "{word} was read as a number");
    }
    assert_eq!(numerals::parse("Berakhot"), None);
    assert_eq!(numerals::parse(""), None);
    assert_eq!(numerals::parse("  "), None);
}

/// The words that descend, which the descent rule alone let through.
///
/// `ייחוד` is 10, 10, 8, 6, 4 — it never goes back up, so it summed to 38
/// and `ברכות שער ייחוד המעשה ב'` resolved to `38:המעשה:2`. `יו"ד` is 10,
/// 6, 4 and summed to 20, so Yoreh De'ah arrived as a number and the
/// corpus needed a guard to put it back. Neither is written the way its
/// own total is written, and that is the whole of the test.
#[test]
fn a_word_that_descends_is_still_not_a_number() {
    for (word, sums_to, written) in [
        ("ייחוד", 38, "ל\"ח"),
        ("יו\"ד", 20, "כ'"),
        ("יוד", 20, "כ'"),
        ("בא", 3, "ג'"),
        ("שממה", 385, "שפ\"ה"),
    ] {
        assert_eq!(numerals::parse(word), None, "{word} was read as {sums_to}");
        assert_eq!(numerals::to_hebrew(sums_to), written);
    }
}

/// The one this deliberately cannot separate, so nobody goes looking.
///
/// `נח` is 50, 8 — exactly how 58 is written. The parsha and the number
/// are the same string and no rule about spelling tells them apart.
#[test]
fn a_word_written_exactly_as_its_own_number_is_read_as_the_number() {
    assert_eq!(numerals::parse("נח"), Some(58));
    assert_eq!(numerals::to_hebrew(58), "נ\"ח");
}

#[test]
fn a_numeral_is_still_a_numeral() {
    for (written, n) in [
        ("א", 1),
        ("קכא", 121),
        ("תרצז", 697),
        ("טו", 15),
        ("תת", 800),
        ("תתקצט", 999),
    ] {
        assert_eq!(numerals::parse(written), Some(n), "{written}");
    }
}

#[test]
fn every_number_a_sefer_could_have_survives_a_round_trip() {
    for n in 1..=20_000u32 {
        let written = numerals::to_hebrew(n);
        assert_eq!(numerals::parse(&written), Some(n), "{n} was written {written}");
    }
}

/// Above a thousand the citation stays in Hebrew, which it did not.
///
/// `to_hebrew` gave up at 1,000 and returned the Arabic digits, so a citation
/// went from `מעדני יום טוב על ברכות סימן תתקצ"ט` to `… סימן 1000` with the
/// alphabet changing underneath it and nothing saying so.
#[test]
fn a_number_past_a_thousand_is_still_written_in_letters() {
    assert_eq!(numerals::to_hebrew(999), "תתקצ\"ט");
    assert_eq!(numerals::to_hebrew(1001), "א'א'");
    assert_eq!(numerals::to_hebrew(1005), "א'ה'");
    assert_eq!(numerals::to_hebrew(1121), "א'קכ\"א");
    assert_eq!(numerals::to_hebrew(1999), "א'תתקצ\"ט");
    assert_eq!(numerals::to_hebrew(2500), "ב'ת\"ק");
    assert_eq!(numerals::to_hebrew(5786), "ה'תשפ\"ו"); // this year, as a sefer writes it
    for n in [1001, 1005, 1121, 1999, 2500, 5786] {
        let written = numerals::to_hebrew(n);
        assert!(
            !written.chars().any(char::is_numeric),
            "{n} came out as {written}"
        );
    }
}

/// The one case that stays in digits, and the reason it does.
///
/// 1,000 in the notation is `א'`, which is also how 1 is written. Hebrew does
/// not disambiguate them and a ref has no context to disambiguate from, so this
/// crate refuses rather than guesses — the same rule that stops it inventing an
/// abbreviation or a level word.
#[test]
fn a_round_thousand_is_ambiguous_and_is_therefore_written_in_digits() {
    assert_eq!(numerals::to_hebrew(1), "א'");
    assert_eq!(numerals::parse("א'"), Some(1));
    assert!(numerals::is_written_in_digits(1000));
    assert_eq!(numerals::to_hebrew(1000), "1000");
    assert_eq!(numerals::to_hebrew(2000), "2000");
    assert_eq!(numerals::parse("1000"), Some(1000));
    assert!(!numerals::is_written_in_digits(999));
    assert!(!numerals::is_written_in_digits(1001));
    assert!(numerals::is_written_in_digits(1_000_001));
    assert_eq!(numerals::to_hebrew(1_000_001), "1000001");
}
