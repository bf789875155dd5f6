use girsa::cite::{cite, CiteStyle, Sefer};
use girsa::refs::lexicon::{Lexicon, Work};
use girsa::refs::reference::Ref;
use girsa::refs::resolve::{resolve, Resolution};

fn r(s: &str) -> Ref {
    s.parse().expect("a ref")
}

fn shulchan_arukh() -> Sefer {
    Sefer::new("שולחן ערוך, אורח חיים", "Shulchan Arukh, Orach Chayim")
        .with_sections(&["סימן", "סעיף"])
}

fn berakhot() -> Sefer {
    Sefer::new("ברכות", "Berakhot").with_sections(&["דף", "שורה"])
}

#[test]
fn a_citation_names_the_sefer_and_the_place() {
    assert_eq!(
        cite(
            &shulchan_arukh(),
            &r("girsa:shulchan-arukh/orach-chayim/1:1"),
            CiteStyle::HebrewFull
        ),
        "שולחן ערוך, אורח חיים סימן א' סעיף א'"
    );
}

#[test]
fn the_short_form_drops_the_words_and_keeps_the_numbers() {
    assert_eq!(
        cite(
            &shulchan_arukh(),
            &r("girsa:shulchan-arukh/orach-chayim/121:3"),
            CiteStyle::HebrewShort
        ),
        "שולחן ערוך, אורח חיים קכ\"א, ג'"
    );
}

#[test]
fn english_is_written_the_way_sefaria_writes_it() {
    assert_eq!(
        cite(
            &shulchan_arukh(),
            &r("girsa:shulchan-arukh/orach-chayim/121:3"),
            CiteStyle::English
        ),
        "Shulchan Arukh, Orach Chayim 121:3"
    );
}

#[test]
fn a_daf_is_printed_as_a_daf_and_carries_its_own_mark() {
    let gemara = r("girsa:bavli/berakhot/2a:1");
    assert_eq!(
        cite(&berakhot(), &gemara, CiteStyle::HebrewShort),
        "ברכות ב. א'"
    );
    assert_eq!(
        cite(&berakhot(), &gemara, CiteStyle::HebrewFull),
        "ברכות דף ב. שורה א'"
    );
    assert_eq!(
        cite(&berakhot(), &gemara, CiteStyle::English),
        "Berakhot 2a:1"
    );
    assert_eq!(
        cite(
            &berakhot(),
            &r("girsa:bavli/berakhot/33b:9"),
            CiteStyle::HebrewShort
        ),
        "ברכות לג: ט'"
    );
}

#[test]
fn a_sefer_whose_schema_never_said_what_a_level_is_gets_no_invented_word() {
    let mishnah_berurah = Sefer::new("משנה ברורה", "Mishnah Berurah");
    let place = r("girsa:mishnah-berurah/121:3");
    assert_eq!(
        cite(&mishnah_berurah, &place, CiteStyle::HebrewFull),
        "משנה ברורה קכ\"א ג'"
    );
    assert_eq!(
        cite(&mishnah_berurah, &place, CiteStyle::HebrewShort),
        "משנה ברורה קכ\"א, ג'"
    );
}

#[test]
fn a_span_is_printed_as_a_span_because_a_quote_is_a_range() {
    assert_eq!(
        cite(
            &berakhot(),
            &r("girsa:bavli/berakhot/2a:1-2b:4"),
            CiteStyle::English
        ),
        "Berakhot 2a:1-2b:4"
    );
    assert_eq!(
        cite(
            &berakhot(),
            &r("girsa:bavli/berakhot/2a:1-2b:4"),
            CiteStyle::HebrewShort
        ),
        "ברכות ב. א'-ב: ד'"
    );
}

#[test]
fn a_ref_to_a_whole_sefer_is_its_name() {
    for text in ["girsa:bavli/berakhot/", "girsa:berakhot"] {
        assert_eq!(cite(&berakhot(), &r(text), CiteStyle::HebrewShort), "ברכות");
        assert_eq!(cite(&berakhot(), &r(text), CiteStyle::English), "Berakhot");
    }
}

#[test]
fn the_words_are_printed_only_where_the_address_is_the_shape_the_schema_described() {
    let mb = Sefer::new("משנה ברורה", "Mishnah Berurah").with_sections(&["סימן", "סעיף קטן"]);
    assert_eq!(
        cite(
            &mb,
            &r("girsa:mishnah-berurah/121:3"),
            CiteStyle::HebrewFull
        ),
        "משנה ברורה סימן קכ\"א סעיף קטן ג'"
    );
    assert_eq!(
        cite(
            &mb,
            &r("girsa:mishnah-berurah/הקדמה:3"),
            CiteStyle::HebrewFull
        ),
        "משנה ברורה הקדמה ג'"
    );
    assert_eq!(
        cite(
            &mb,
            &r("girsa:mishnah-berurah/121:3:2"),
            CiteStyle::HebrewFull
        ),
        "משנה ברורה קכ\"א ג' ב'"
    );
}

#[test]
fn a_named_level_is_printed_as_the_corpus_names_it() {
    let sefer = Sefer::new("אברבנאל על יחזקאל", "Abarbanel on Ezekiel");
    assert_eq!(
        cite(
            &sefer,
            &r("girsa:abarbanel-on-ezekiel/Introduction:3"),
            CiteStyle::HebrewShort
        ),
        "אברבנאל על יחזקאל Introduction, ג'"
    );
}

#[test]
fn the_title_is_printed_as_given_and_never_shortened_by_this_crate() {
    let long = Sefer::new("שולחן ערוך, אורח חיים", "Shulchan Arukh, Orach Chayim");
    for style in [CiteStyle::HebrewShort, CiteStyle::HebrewFull] {
        assert!(cite(&long, &r("girsa:x/1:1"), style).starts_with("שולחן ערוך, אורח חיים"));
    }
    let short = Sefer::new("שו\"ע או\"ח", "SA OC");
    assert_eq!(
        cite(&short, &r("girsa:x/1:1"), CiteStyle::HebrewShort),
        "שו\"ע או\"ח א', א'"
    );
}

#[test]
fn every_citation_printed_here_reads_back_as_the_ref_it_came_from() {
    let mut lexicon = Lexicon::default();
    lexicon.add(
        Work {
            slug: "shulchan-arukh/orach-chayim".into(),
            he_title: "שולחן ערוך, אורח חיים".into(),
            en_title: "Shulchan Arukh, Orach Chayim".into(),
        },
        &["שולחן ערוך, אורח חיים", "Shulchan Arukh, Orach Chayim"],
    );
    lexicon.add(
        Work {
            slug: "bavli/berakhot".into(),
            he_title: "ברכות".into(),
            en_title: "Berakhot".into(),
        },
        &["ברכות", "Berakhot"],
    );

    let cases = [
        (shulchan_arukh(), "girsa:shulchan-arukh/orach-chayim/1:1"),
        (shulchan_arukh(), "girsa:shulchan-arukh/orach-chayim/121:3"),
        (berakhot(), "girsa:bavli/berakhot/2a:1"),
        (berakhot(), "girsa:bavli/berakhot/33b:9"),
        (berakhot(), "girsa:bavli/berakhot/2a:1-2b:4"),
    ];
    for (sefer, text) in cases {
        let reference = r(text);
        for style in [
            CiteStyle::HebrewShort,
            CiteStyle::HebrewFull,
            CiteStyle::English,
        ] {
            let printed = cite(&sefer, &reference, style);
            assert_ne!(
                printed,
                reference.to_string(),
                "that is the ref, not a citation"
            );
            match resolve(&lexicon, &printed) {
                Resolution::Exact(back) => assert_eq!(
                    back, reference,
                    "{printed:?} ({style:?}) read back as a different place"
                ),
                other => panic!("{printed:?} ({style:?}) did not read back: {other:?}"),
            }
        }
    }
}
