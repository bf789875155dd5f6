use girsa::cite::{cite, CiteStyle, Sefer};
use girsa::refs::lexicon::{Lexicon, Work};
use girsa::refs::reference::Ref;
use girsa::refs::resolve::{resolve, Resolution};

fn r(s: &str) -> Ref {
    s.parse().unwrap_or_else(|e| panic!("{s}: {e:?}"))
}

fn lexicon() -> Lexicon {
    let mut lexicon = Lexicon::default();
    lexicon.add(
        Work {
            slug: "shulchan-arukh/orach-chayim".into(),
            he_title: "שולחן ערוך, אורח חיים".into(),
            en_title: "Shulchan Arukh, Orach Chayim".into(),
        },
        &["שולחן ערוך, אורח חיים", "Shulchan Arukh, Orach Chayim"],
    );
    lexicon.add(
        Work {
            slug: "bavli/berakhot".into(),
            he_title: "ברכות".into(),
            en_title: "Berakhot".into(),
        },
        &["ברכות", "Berakhot"],
    );
    lexicon
}

fn shulchan_arukh() -> Sefer {
    Sefer::new("שולחן ערוך, אורח חיים", "Shulchan Arukh, Orach Chayim").with_sections(&["סימן", "סעיף"])
}

fn berakhot() -> Sefer {
    Sefer::new("ברכות", "Berakhot").with_sections(&["דף", "שורה"])
}

fn reads_back(sefer: &Sefer, text: &str, style: CiteStyle) {
    let lexicon = lexicon();
    let reference = r(text);
    let printed = cite(sefer, &reference, style);
    match resolve(&lexicon, &printed) {
        Resolution::Exact(back) => assert_eq!(back, reference, "{printed:?} ({style:?})"),
        other => panic!("{printed:?} ({style:?}) did not read back: {other:?}"),
    }
}

const STYLES: [CiteStyle; 3] = [CiteStyle::HebrewShort, CiteStyle::HebrewFull, CiteStyle::English];

#[test]
fn numbers_across_the_hundreds_read_back_in_every_style() {
    for text in [
        "girsa:shulchan-arukh/orach-chayim/15:16",
        "girsa:shulchan-arukh/orach-chayim/90:10",
        "girsa:shulchan-arukh/orach-chayim/270:5",
        "girsa:shulchan-arukh/orach-chayim/500:40",
        "girsa:shulchan-arukh/orach-chayim/999:60",
        "girsa:shulchan-arukh/orach-chayim/141:1",
    ] {
        for style in STYLES {
            reads_back(&shulchan_arukh(), text, style);
        }
    }
}

#[test]
fn a_range_of_simanim_reads_back_in_every_style() {
    for (sefer, text) in [
        (shulchan_arukh(), "girsa:shulchan-arukh/orach-chayim/121:3-122:1"),
        (shulchan_arukh(), "girsa:shulchan-arukh/orach-chayim/1-3"),
        (berakhot(), "girsa:bavli/berakhot/33b:9-34a"),
    ] {
        for style in STYLES {
            reads_back(&sefer, text, style);
        }
    }
}

#[test]
fn dafim_read_back_in_every_style() {
    for text in ["girsa:bavli/berakhot/64a", "girsa:bavli/berakhot/176b:2", "girsa:bavli/berakhot/4a:1"] {
        for style in STYLES {
            reads_back(&berakhot(), text, style);
        }
    }
}

#[test]
fn a_siman_in_the_forties_printed_in_hebrew_reads_as_a_label_and_its_units() {
    let printed = cite(&shulchan_arukh(), &r("girsa:shulchan-arukh/orach-chayim/41:1"), CiteStyle::HebrewShort);
    assert_eq!(printed, "שולחן ערוך, אורח חיים מ\"א, א'");
    match resolve(&lexicon(), &printed) {
        Resolution::Exact(back) => assert_eq!(back, r("girsa:shulchan-arukh/orach-chayim/1:1")),
        other => panic!("{other:?}"),
    }
}

#[test]
fn siman_eighty_printed_in_hebrew_reads_as_the_abbreviation_of_perek() {
    let printed = cite(&shulchan_arukh(), &r("girsa:shulchan-arukh/orach-chayim/80:2"), CiteStyle::HebrewShort);
    assert_eq!(printed, "שולחן ערוך, אורח חיים פ', ב'");
    match resolve(&lexicon(), &printed) {
        Resolution::Exact(back) => assert_eq!(back, r("girsa:shulchan-arukh/orach-chayim/2")),
        other => panic!("{other:?}"),
    }
}

#[test]
fn siman_seventy_one_printed_in_hebrew_reads_as_an_amud() {
    let printed = cite(&shulchan_arukh(), &r("girsa:shulchan-arukh/orach-chayim/71:1"), CiteStyle::HebrewShort);
    assert_eq!(printed, "שולחן ערוך, אורח חיים ע\"א, א'");
    assert!(matches!(resolve(&lexicon(), &printed), Resolution::Unresolved));
}

#[test]
fn every_style_reads_back_where_each_level_alone_does() {
    for n in 1..=40u32 {
        let text = format!("girsa:shulchan-arukh/orach-chayim/{n}:{n}");
        for style in STYLES {
            reads_back(&shulchan_arukh(), &text, style);
        }
    }
}

#[test]
fn numbers_in_the_thousands_read_back_in_every_style() {
    for text in [
        "girsa:shulchan-arukh/orach-chayim/1001:2",
        "girsa:shulchan-arukh/orach-chayim/1071:3",
        "girsa:shulchan-arukh/orach-chayim/5784:39",
        "girsa:shulchan-arukh/orach-chayim/2000:1",
    ] {
        for style in STYLES {
            reads_back(&shulchan_arukh(), text, style);
        }
    }
}

#[test]
fn a_number_in_the_thousands_ending_in_an_amud_reads_as_a_daf() {
    let printed = cite(&shulchan_arukh(), &r("girsa:shulchan-arukh/orach-chayim/2071:1"), CiteStyle::HebrewShort);
    assert_eq!(printed, "שולחן ערוך, אורח חיים ב'ע\"א, א'");
    match resolve(&lexicon(), &printed) {
        Resolution::Exact(back) => assert_eq!(back, r("girsa:shulchan-arukh/orach-chayim/2a:1")),
        other => panic!("{other:?}"),
    }
}
