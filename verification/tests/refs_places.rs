use girsa::refs::address::Address;
use girsa::refs::daf;
use girsa::refs::lexicon::Lexicon;

#[test]
fn a_siman_and_seif_read_however_they_were_written() {
    assert_eq!(
        Address::parse("1:1").map(|a| a.to_string()),
        Some("1:1".into())
    );
    assert_eq!(
        Address::parse("קכ\"א:ג'").map(|a| a.to_string()),
        Some("121:3".into())
    );
}

#[test]
fn a_daf_keeps_its_amud() {
    assert_eq!(
        Address::parse("2a:4").map(|a| a.to_string()),
        Some("2a:4".into())
    );
    assert_eq!(
        Address::parse("ב.").map(|a| a.to_string()),
        Some("2a".into())
    );
    assert_eq!(
        Address::parse("ב ע\"ב").map(|a| a.to_string()),
        Some("2b".into())
    );
}

#[test]
fn a_partial_address_completes_against_where_you_are_standing() {
    let here = Address::parse("121:3").expect("context parses");
    let partial = Address::parse("5").expect("partial parses");
    assert_eq!(partial.completed_against(&here).to_string(), "121:5");
}

#[test]
fn a_full_address_is_not_altered_by_context() {
    let here = Address::parse("121:3").expect("context parses");
    let full = Address::parse("4:9").expect("full parses");
    assert_eq!(full.completed_against(&here).to_string(), "4:9");
}

#[test]
fn an_unreadable_level_fails_the_whole_address() {
    assert_eq!(Address::parse(""), None);
    assert_eq!(Address::parse(":"), None);
}

#[test]
fn every_notation_for_the_first_daf_of_berakhot_agrees() {
    for written in ["ב.", "ב ע\"א", "ב ע״א", "ב, א", "2a", "2A"] {
        assert_eq!(daf::parse(written).as_deref(), Some("2a"), "{written}");
    }
    for written in ["ב:", "ב ע\"ב", "ב ע״ב", "ב, ב", "2b"] {
        assert_eq!(daf::parse(written).as_deref(), Some("2b"), "{written}");
    }
}

#[test]
fn a_two_letter_daf_reads_correctly() {
    assert_eq!(daf::parse("ט\"ו.").as_deref(), Some("15a"));
    assert_eq!(daf::parse("קכ\"א:").as_deref(), Some("121b"));
}

#[test]
fn there_is_no_daf_one_so_a_bare_first_page_is_refused() {
    assert_eq!(daf::parse("א."), None);
    assert_eq!(daf::parse("1a"), None);
}

#[test]
fn a_bare_number_is_not_assumed_to_be_a_daf() {
    assert_eq!(daf::parse("2"), None);
    assert_eq!(daf::parse("ב"), None);
}

#[test]
fn a_daf_survives_a_round_trip_through_the_way_it_is_printed() {
    for canonical in ["2a", "2b", "15a", "121b"] {
        let printed = daf::to_hebrew(canonical).expect("prints");
        assert_eq!(daf::parse(&printed).as_deref(), Some(canonical), "{printed}");
    }
}

fn sample() -> Lexicon {
    Lexicon::from_tsv(
        "שולחן ערוך אורח חיים\tshulchan-arukh/orach-chayim\tשולחן ערוך, אורח חיים\tShulchan Arukh, Orach Chayim\n\
         שו\"ע או\"ח\tshulchan-arukh/orach-chayim\tשולחן ערוך, אורח חיים\tShulchan Arukh, Orach Chayim\n\
         או\"ח\tshulchan-arukh/orach-chayim\tשולחן ערוך, אורח חיים\tShulchan Arukh, Orach Chayim\n\
         או\"ח\ttur/orach-chayim\tטור, אורח חיים\tTur, Orach Chayim\n\
         ברכות\tbavli/berakhot\tברכות\tBerakhot\n",
    )
}

#[test]
fn a_title_finds_its_work() {
    let lex = sample();
    let found = lex.lookup("שולחן ערוך אורח חיים");
    assert_eq!(found.len(), 1);
    assert_eq!(found[0].slug, "shulchan-arukh/orach-chayim");
}

#[test]
fn which_gershayim_was_typed_never_reaches_the_map() {
    let lex = sample();
    for spelling in ["שו\"ע או\"ח", "שו״ע או״ח", "שו”ע או”ח"] {
        assert_eq!(lex.lookup(spelling).len(), 1, "{spelling}");
    }
}

#[test]
fn a_variant_two_seforim_share_returns_both() {
    let lex = sample();
    let found = lex.lookup("או\"ח");
    assert_eq!(found.len(), 2);
}

#[test]
fn an_unknown_title_returns_nothing_rather_than_the_nearest_thing() {
    assert!(sample().lookup("קרן אורה").is_empty());
}

#[test]
fn a_malformed_row_is_skipped_and_the_rest_still_loads() {
    let lex = Lexicon::from_tsv(
        "ברכות\tbavli/berakhot\nrubbish-with-no-tab\n\t\nשבת\tbavli/shabbat\n",
    );
    assert_eq!(lex.len(), 2);
}
