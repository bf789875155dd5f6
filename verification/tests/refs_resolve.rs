use girsa::refs::address::Address;
use girsa::refs::lexicon::{Lexicon, Work};
use girsa::refs::reference::Ref;
use girsa::refs::resolve::{resolve, resolve_in_context, split_label_and_number, Context, Resolution};

fn lexicon() -> Lexicon {
    let mut lex = Lexicon::default();
    lex.add(
        Work {
            slug: "shulchan-arukh/orach-chayim".into(),
            he_title: "שולחן ערוך, אורח חיים".into(),
            en_title: "Shulchan Arukh, Orach Chayim".into(),
        },
        &[
            "שולחן ערוך אורח חיים",
            "שו\"ע או\"ח",
            "שוע אוח",
            "או\"ח",
            "Shulchan Arukh, Orach Chayim",
            "S.A. O.C.",
        ],
    );
    lex.add(
        Work {
            slug: "tur/orach-chayim".into(),
            he_title: "טור, אורח חיים".into(),
            en_title: "Tur, Orach Chayim".into(),
        },
        &["טור או\"ח", "או\"ח"],
    );
    lex.add(
        Work {
            slug: "shulchan-arukh".into(),
            he_title: "שולחן ערוך".into(),
            en_title: "Shulchan Arukh".into(),
        },
        &["שולחן ערוך", "שו\"ע"],
    );
    lex.add(
        Work {
            slug: "bavli/berakhot".into(),
            he_title: "ברכות".into(),
            en_title: "Berakhot".into(),
        },
        &["ברכות", "Berakhot"],
    );
    lex.add(
        Work {
            slug: "mishneh-torah/tefilah".into(),
            he_title: "משנה תורה, הלכות תפילה".into(),
            en_title: "Mishneh Torah, Tefilah".into(),
        },
        &["רמב\"ם הל' תפילה", "משנה תורה הלכות תפילה"],
    );
    lex
}

fn resolved(citation: &str) -> String {
    match resolve(&lexicon(), citation) {
        Resolution::Exact(r) => r.to_string(),
        Resolution::Ambiguous(rs) => {
            format!("AMBIGUOUS({})", rs.len())
        }
        Resolution::Unresolved => "UNRESOLVED".into(),
    }
}

#[test]
fn gershayim_or_not_reaches_the_same_place() {
    assert_eq!(
        resolved("שו\"ע או\"ח א' א'"),
        "girsa:shulchan-arukh/orach-chayim/1:1"
    );
    assert_eq!(
        resolved("שוע אוח סימן א סעיף א"),
        "girsa:shulchan-arukh/orach-chayim/1:1"
    );
}

#[test]
fn the_longest_title_wins() {
    assert_eq!(
        resolved("שו\"ע או\"ח קכ\"א ג'"),
        "girsa:shulchan-arukh/orach-chayim/121:3"
    );
    assert_eq!(resolved("שו\"ע קכ\"א"), "girsa:shulchan-arukh/121");
}

#[test]
fn rabbinic_shorthand_reads_the_label_and_the_number_out_of_one_token() {
    assert_eq!(
        resolved("רמב\"ם הל' תפילה פ\"ד ה\"א"),
        "girsa:mishneh-torah/tefilah/4:1"
    );
}

#[test]
fn the_words_the_corpus_uses_for_a_level_are_read_as_labels() {
    assert_eq!(resolved("ברכות דף ב. שורה א'"), "girsa:bavli/berakhot/2a:1");
    assert_eq!(
        resolved("שו\"ע או\"ח סימן קכ\"א סעיף ג'"),
        "girsa:shulchan-arukh/orach-chayim/121:3"
    );
    assert_eq!(resolved("ברכות פסקה ג'"), "girsa:bavli/berakhot/3");
    assert_eq!(resolved("ברכות אות ה'"), "girsa:bavli/berakhot/5");
    assert_eq!(
        resolved("ברכות חלק ב' פירוש ד'"),
        "girsa:bavli/berakhot/2:4"
    );
}

#[test]
fn a_level_word_at_the_head_of_a_name_is_part_of_the_name() {
    assert_eq!(
        resolved("ברכות הלכות ברכות ג'"),
        "girsa:bavli/berakhot/הלכות ברכות:3"
    );
    assert_eq!(
        resolved("ברכות שער הבחינה ב'"),
        "girsa:bavli/berakhot/שער הבחינה:2"
    );

    assert_eq!(
        resolved("ברכות שער ייחוד המעשה ב'"),
        "girsa:bavli/berakhot/שער ייחוד המעשה:2"
    );

    assert_eq!(resolved("ברכות סימן ג'"), "girsa:bavli/berakhot/3");
    assert_eq!(resolved("ברכות דף ב."), "girsa:bavli/berakhot/2a");
    assert_eq!(
        resolved("רמב\"ם הל' תפילה פ\"ד ה\"א"),
        "girsa:mishneh-torah/tefilah/4:1"
    );

    assert_eq!(resolved("ברכות סעיף"), "UNRESOLVED");
    assert_eq!(resolved("ברכות הלכות סעיף"), "UNRESOLVED");
}

#[test]
fn a_word_that_names_a_sefer_is_not_thrown_away_as_a_label() {
    assert_eq!(
        resolved("משנה תורה הלכות תפילה פ\"ד ה\"א"),
        "girsa:mishneh-torah/tefilah/4:1"
    );
    assert_eq!(resolved("ברכות תורה ג'"), "girsa:bavli/berakhot/תורה:3");
}

#[test]
fn a_daf_reads_in_every_notation() {
    for written in ["ברכות ב.", "ברכות ב ע\"א", "Berakhot 2a"] {
        assert_eq!(resolved(written), "girsa:bavli/berakhot/2a", "{written}");
    }
    assert_eq!(resolved("ברכות ב:"), "girsa:bavli/berakhot/2b");
}

#[test]
fn a_sefaria_style_ref_pasted_from_anywhere_resolves() {
    assert_eq!(
        resolved("Shulchan Arukh, Orach Chayim 1:1"),
        "girsa:shulchan-arukh/orach-chayim/1:1"
    );
    assert_eq!(resolved("Berakhot 2a"), "girsa:bavli/berakhot/2a");
}

#[test]
fn a_canonical_ref_resolves_to_itself() {
    assert_eq!(
        resolved("girsa:bavli/berakhot/2a:1-2b:4"),
        "girsa:bavli/berakhot/2a:1-2b:4"
    );
}

#[test]
fn a_citation_with_two_plausible_targets_is_never_silently_picked() {
    let r = resolve(&lexicon(), "או\"ח סימן א");
    match &r {
        Resolution::Ambiguous(candidates) => {
            assert_eq!(candidates.len(), 2);
            let slugs: Vec<String> = candidates.iter().map(Ref::work_slug).collect();
            assert!(slugs.contains(&"shulchan-arukh/orach-chayim".to_string()));
            assert!(slugs.contains(&"tur/orach-chayim".to_string()));
        }
        other => panic!("expected a choice, got {other:?}"),
    }
    assert!(
        r.exact().is_none(),
        "an ambiguous resolution has no exact ref"
    );
}

#[test]
fn a_partial_citation_completes_against_where_the_reader_is_standing() {
    let context = Context {
        work: Some(vec!["shulchan-arukh".into(), "orach-chayim".into()]),
        address: Address::parse("121:3"),
    };
    let r = resolve_in_context(&lexicon(), "סעיף ה", &context);
    assert_eq!(
        r.exact().map(|x| x.to_string()),
        Some("girsa:shulchan-arukh/orach-chayim/121:5".into())
    );
}

#[test]
fn an_unknown_sefer_is_unresolved_rather_than_the_nearest_match() {
    assert_eq!(resolved("קרן אורה על נדרים ב."), "UNRESOLVED");
    assert_eq!(resolved(""), "UNRESOLVED");
}

#[test]
fn a_word_in_the_address_position_is_refused_rather_than_read_as_a_number() {
    assert_eq!(resolved("ברכות שבת"), "UNRESOLVED");
}

#[test]
fn the_resolver_never_hands_back_a_ref_it_cannot_write_down() {
    let r = resolve(&lexicon(), "ברכות Part 2-Part 3");
    for candidate in r.candidates() {
        assert!(
            candidate.is_well_formed(),
            "{candidate:?} reads back as {:?}",
            candidate.to_string().parse::<Ref>()
        );
    }
    assert!(!r.candidates().is_empty(), "the citation still resolves");
}

#[test]
fn a_hyphenated_section_name_is_not_torn_in_half() {
    assert_eq!(
        resolved("ברכות כסלו-טבת 5"),
        "girsa:bavli/berakhot/כסלו-טבת:5"
    );
}

#[test]
fn a_two_letter_numeral_is_not_mistaken_for_a_label() {
    assert_eq!(split_label_and_number("קכ\"א"), None);
    assert_eq!(split_label_and_number("י\"א"), None);
    assert_eq!(split_label_and_number("פ\"ד"), Some(4));
    assert_eq!(split_label_and_number("ה\"א"), Some(1));
}
