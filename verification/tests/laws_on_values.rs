use girsa::cite::CiteStyle;
use girsa::ksav::{escape, mekor, read, to_text, Block, NoteKind};
use girsa::refs::lexicon::{Lexicon, Work};
use girsa::refs::redirect::RedirectTable;
use girsa::refs::reference::{Ref, RefError};
use girsa::source::{check_schema, PacketError, Range, PACKET_SCHEMA_VERSION};

fn r(s: &str) -> Ref {
    s.parse().unwrap_or_else(|e| panic!("{s}: {e:?}"))
}

#[test]
fn a_table_survives_being_written_out_as_rows_and_read_back() {
    let mut here = RedirectTable::new();
    here.insert(
        &r("girsa:shulchan-arukh/orach-chayim/1:3"),
        vec![
            r("girsa:shulchan-arukh/orach-chayim/1:3"),
            r("girsa:shulchan-arukh/orach-chayim/1:4"),
        ],
    );
    here.insert(&r("girsa:bavli/berakhot/2a:1"), vec![r("girsa:bavli/berakhot/2a:2")]);
    let there = RedirectTable::of_rows(&here.rows());
    assert_eq!(there.len(), here.len());
    for original in [
        "girsa:shulchan-arukh/orach-chayim/1:3",
        "girsa:bavli/berakhot/2a:1",
        "girsa:bavli/berakhot/9b:1",
    ] {
        assert_eq!(there.follow(&r(original)), here.follow(&r(original)));
    }
}

#[test]
fn a_long_cycle_never_lists_a_place_twice() {
    let mut table = RedirectTable::new();
    table.insert(&r("girsa:x/1:1"), vec![r("girsa:x/1:2"), r("girsa:x/1:3")]);
    table.insert(&r("girsa:x/1:2"), vec![r("girsa:x/1:3"), r("girsa:x/1:1")]);
    table.insert(&r("girsa:x/1:3"), vec![r("girsa:x/1:2")]);
    let out = table.follow(&r("girsa:x/1:1"));
    for (i, a) in out.iter().enumerate() {
        assert!(!out[i + 1..].contains(a), "{out:?}");
    }
}

#[test]
fn a_spelling_taught_with_its_work_finds_it_however_it_is_typed() {
    let mut lexicon = Lexicon::new();
    lexicon.add(
        Work {
            slug: "mishnah-berurah".into(),
            he_title: "משנה ברורה".into(),
            en_title: "Mishnah Berurah".into(),
        },
        &["מ\"ב", "משנה ברורה"],
    );
    for typed in ["מ\"ב", "מ״ב", "מ”ב", "מִשְׁנָה בְּרוּרָה"] {
        let found = lexicon.lookup(typed);
        assert_eq!(found.len(), 1, "{typed}");
        assert_eq!(found[0].slug, "mishnah-berurah");
    }
}

#[test]
fn every_style_reads_back_from_its_own_name() {
    for style in [CiteStyle::HebrewFull, CiteStyle::HebrewShort, CiteStyle::English] {
        assert_eq!(CiteStyle::named(style.name()), Some(style));
    }
    assert_eq!(CiteStyle::named("hebrew_full"), None);
}

#[test]
fn the_handshake_refuses_a_newer_schema_and_names_both_versions() {
    assert!(check_schema(PACKET_SCHEMA_VERSION).is_ok());
    match check_schema(99) {
        Err(PacketError::SchemaTooNew { found, supported }) => {
            assert_eq!(found, 99);
            assert_eq!(supported, PACKET_SCHEMA_VERSION);
        }
        other => panic!("expected a loud refusal, got {other:?}"),
    }
    match check_schema(0) {
        Err(PacketError::SchemaTooOld { found, minimum }) => {
            assert_eq!(found, 0);
            assert_eq!(minimum, 1);
        }
        other => panic!("expected a refusal, got {other:?}"),
    }
}

#[test]
fn a_document_reads_flat_as_lines() {
    let text = to_text("#ממוספרת(פריט[א], פריט[ב])\nסוף#הערה[שוליים].\n\n#טבלה(עמודות: 2, תא[1], תא[2])");
    assert_eq!(text, "1. א\n2. ב\nסוף1.\n1. שוליים\n1\t2");
    assert_eq!(to_text(""), "");
}

#[test]
fn every_block_that_comes_out_has_words_and_a_level_that_exists() {
    let blocks = read("#כותרת(רמה: 9)[עמוק]\n#ציטוט[]\n#כותרת(רמה: 0)[שטוח]");
    assert_eq!(
        blocks,
        vec![
            Block::Heading {
                level: 6,
                text: "עמוק".into()
            },
            Block::Heading {
                level: 1,
                text: "שטוח".into()
            },
        ]
    );
    assert_eq!(NoteKind::OnNote.as_str(), "on-note");
}

#[test]
fn escaped_text_reads_back_as_the_text() {
    let text = "וכתב [הרמב\"ם] #ד' *כאן* _שם_\n- פריט\n12. שנים";
    let escaped = escape(text);
    let mut read_back = String::new();
    let mut chars = escaped.chars();
    while let Some(c) = chars.next() {
        if c == '\\' {
            if let Some(n) = chars.next() {
                read_back.push(n);
            }
        } else {
            read_back.push(c);
        }
    }
    assert_eq!(read_back, text);
}

#[test]
fn a_range_and_the_whole_place_are_written_differently() {
    let whole = mekor("א", Some("girsa:x/1:1"), Some(Range::all()));
    let part = mekor("א", Some("girsa:x/1:1"), Some(Range { from: 2, to: None }));
    assert_eq!(whole, "#מראה_מקום(מקור: \"girsa:x/1:1\")[א]");
    assert_eq!(part, "#מראה_מקום(מקור: \"girsa:x/1:1\", תווים: \"2-\")[א]");
}

#[test]
fn a_ref_error_says_what_went_wrong() {
    assert_eq!(RefError::NotAGirsaRef.to_string(), "a ref must start with `girsa:`");
    assert_eq!(RefError::NoWork.to_string(), "a ref must name a work");
    assert_eq!(RefError::BadAddress("x:y".to_string()).to_string(), "`x:y` is not an address");
}

#[test]
fn a_normal_form_has_no_marks_finals_capitals_or_doubled_spaces() {
    let n = girsa::hebrew::normalize("  שָׁלוֹם   Ab\tמֶלֶךְ  ");
    assert_eq!(n, "שלומ ab מלכ");
    for c in ['ך', 'ם', 'ן', 'ף', 'ץ'] {
        assert!(!n.contains(c), "{n}");
    }
    assert!(!n.chars().any(|c| c.is_ascii_uppercase() || girsa::hebrew::is_mark(c)));
    assert!(!n.contains("  ") && !n.starts_with(' ') && !n.ends_with(' '));
}

#[test]
fn the_distinct_forms_are_each_form_once_and_no_more_than_the_set() {
    let set = girsa::hebrew::variants("חת\"ם סופר");
    let forms = set.distinct_forms();
    for (i, f) in forms.iter().enumerate() {
        assert!(!forms[i + 1..].contains(f), "{forms:?}");
    }
    for (_, f) in set.iter() {
        assert!(forms.contains(&f), "{f}");
    }
    assert!(forms.len() < set.len());
}

#[test]
fn an_abbreviation_and_its_expansion_find_each_other() {
    let table = girsa::hebrew::AbbreviationTable::new(vec![("שו\"ע", vec!["שולחן ערוך"])]);
    assert_eq!(table.expansions_of("שו\"ע"), vec!["שולחן ערוך".to_string()]);
    assert_eq!(table.expansions_of("שולחן ערוך"), vec!["שו\"ע".to_string()]);
    assert!(table.expansions_of("גמרא").is_empty());
}

#[test]
fn teaching_a_new_work_adds_one_and_leaves_other_spellings_alone() {
    let mut lexicon = Lexicon::new();
    let work = |slug: &str| Work { slug: slug.into(), he_title: slug.into(), en_title: slug.into() };
    lexicon.add(work("a"), &["אלף"]);
    assert_eq!(lexicon.len(), 1);
    lexicon.add(work("b"), &["בית"]);
    assert_eq!(lexicon.len(), 2);
    lexicon.add(work("a"), &["אל"]);
    assert_eq!(lexicon.len(), 2);
    assert_eq!(lexicon.lookup("בית").len(), 1);
    assert_eq!(lexicon.lookup("בית")[0].slug, "b");
    assert_eq!(lexicon.lookup("אלף").len(), 1);
}

#[test]
fn inserting_a_redirect_counts_a_new_source_once() {
    let mut table = RedirectTable::new();
    table.insert(&r("girsa:x/1:1"), vec![r("girsa:y/1:1")]);
    assert_eq!(table.len(), 1);
    table.insert(&r("girsa:x/1:1"), vec![r("girsa:z/1:1")]);
    assert_eq!(table.len(), 1);
    assert!(table.is_redirected(&r("girsa:x/1:1")));
    assert!(!table.is_redirected(&r("girsa:y/1:1")));
    table.insert(&r("girsa:y/1:1"), vec![r("girsa:z/1:1")]);
    assert_eq!(table.len(), 2);
}
