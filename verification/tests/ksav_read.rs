use girsa::ksav::{read, Block, NoteKind, ALIASES, PARAM_ALIASES};

#[test]
fn a_heading_is_a_heading_and_not_a_paragraph() {
    assert_eq!(
        read("#כותרת1[מבוא]"),
        vec![Block::Heading {
            level: 1,
            text: "מבוא".into()
        }]
    );
    assert_eq!(
        read("#כותרת(רמה: 4)[פרט]"),
        vec![Block::Heading {
            level: 4,
            text: "פרט".into()
        }]
    );
    assert_eq!(
        read("#שער[ספר]\n#תת_שער[חלק א]"),
        vec![
            Block::Heading {
                level: 1,
                text: "ספר".into()
            },
            Block::Heading {
                level: 2,
                text: "חלק א".into()
            }
        ]
    );
}

#[test]
fn a_list_is_items_and_not_nothing() {
    assert_eq!(
        read("#רשימה(\n  פריט[ראשון],\n  פריט[שני],\n)"),
        vec![
            Block::Item {
                depth: 0,
                ordinal: None,
                text: "ראשון".into()
            },
            Block::Item {
                depth: 0,
                ordinal: None,
                text: "שני".into()
            },
        ]
    );
}

#[test]
fn a_numbered_list_says_how_it_numbers() {
    let read = read("#ממוספרת_עברית(פריט[א], פריט[ב])");
    assert_eq!(
        read,
        vec![
            Block::Item {
                depth: 0,
                ordinal: Some("א".into()),
                text: "א".into()
            },
            Block::Item {
                depth: 0,
                ordinal: Some("ב".into()),
                text: "ב".into()
            },
        ]
    );
    let numbered = girsa::ksav::read("#ממוספרת(פריט[x])");
    assert_eq!(
        numbered[0],
        Block::Item {
            depth: 0,
            ordinal: Some("1".into()),
            text: "x".into()
        }
    );
}

#[test]
fn a_table_is_rows_and_not_nothing() {
    assert_eq!(
        read("#טבלה(עמודות: 2, כותרת_תא[א], כותרת_תא[ב], תא[1], תא[2],)"),
        vec![
            Block::Row {
                cells: vec!["א".into(), "ב".into()],
                header: true
            },
            Block::Row {
                cells: vec!["1".into(), "2".into()],
                header: false
            },
        ]
    );
}

#[test]
fn a_footnote_leaves_the_sentence_alone() {
    assert_eq!(
        read("סוף#הערה[הערת שוליים]."),
        vec![
            Block::Paragraph("סוף1.".into()),
            Block::Note {
                kind: NoteKind::Foot,
                marker: 1,
                text: "הערת שוליים".into()
            },
        ]
    );
}

#[test]
fn the_kinds_of_note_are_kept_apart() {
    let blocks = read("א#הערת_עורך[צריך עיון] ב#מראה_מקום[ברכות ב.] ג#הערתסיום[בסוף]");
    let kinds: Vec<NoteKind> = blocks
        .iter()
        .filter_map(|b| match b {
            Block::Note { kind, .. } => Some(*kind),
            _ => None,
        })
        .collect();
    assert_eq!(
        kinds,
        vec![NoteKind::Editor, NoteKind::Mekor, NoteKind::End]
    );
    assert!(!NoteKind::Editor.is_the_text());
    assert!(NoteKind::Mekor.is_the_text());
}

#[test]
fn a_list_inside_a_list_is_deeper_and_is_still_there() {
    let blocks = read("#רשימה(פריט[חיצוני #ממוספרת(פריט[פנימי])])");
    let depths: Vec<u8> = blocks
        .iter()
        .filter_map(|b| match b {
            Block::Item { depth, .. } => Some(*depth),
            _ => None,
        })
        .collect();
    assert_eq!(depths, vec![0, 1], "the inner item is one level down");
    assert!(blocks.iter().any(|b| matches!(
        b,
        Block::Item { text, .. } if text.contains("פנימי")
    )));
}

#[test]
fn a_footnote_with_a_table_in_it_is_still_a_footnote() {
    let blocks = read(
        "תא#הערה[מלים
#טבלה(עמודות: 2, תא[א], תא[ב])]",
    );
    assert_eq!(
        blocks[0],
        Block::Paragraph("תא1".into()),
        "the marker is still in the sentence: {blocks:#?}"
    );
    assert_eq!(
        blocks[1],
        Block::Note {
            kind: NoteKind::Foot,
            marker: 1,
            text: "מלים".into()
        },
        "{blocks:#?}"
    );
    assert_eq!(
        blocks[2],
        Block::Row {
            cells: vec!["א".into(), "ב".into()],
            header: false
        },
        "and the table it held follows it: {blocks:#?}"
    );
}

#[test]
fn a_table_inside_a_footnote_inside_a_cell_still_comes_out() {
    let blocks =
        read("#טבלה(עמודות: 1, תא[ראה הערה#הערה[#טבלה(עמודות: 2, תא[פנימי א], תא[פנימי ב])]])");
    let words: String = format!("{blocks:?}");
    assert!(words.contains("פנימי א"), "{blocks:#?}");
    assert!(words.contains("פנימי ב"), "{blocks:#?}");
}

#[test]
fn an_unknown_command_keeps_its_words() {
    assert_eq!(
        read("#פקודה_שאין[מילים]"),
        vec![Block::Paragraph("מילים".into())]
    );
    assert_eq!(
        read("א #הדגשה[ב] ג"),
        vec![Block::Paragraph("א ב ג".into())]
    );
}

#[test]
fn a_setting_has_no_words_in_it() {
    assert_eq!(read("#הגדרות_רשימות(סמן: ([◆], [–]), הזחה: 1.5em)"), vec![]);
}

#[test]
fn an_escaped_bracket_is_a_bracket() {
    assert_eq!(
        read(r"\#לא פקודה \[ולא סוגר\]"),
        vec![Block::Paragraph("#לא פקודה [ולא סוגר]".into())]
    );
}

#[test]
fn a_document_that_stops_mid_bracket_yields_what_it_had() {
    let blocks = read("#כותרת1[מבוא]\n\nטקסט#הערה[לא נסגר");
    assert!(blocks.contains(&Block::Heading {
        level: 1,
        text: "מבוא".into()
    }));
    assert!(!blocks.is_empty());
}

#[test]
fn a_blank_line_ends_a_paragraph_and_one_newline_does_not() {
    assert_eq!(
        read("שורה א\nשורה ב\n\nפסקה שנייה"),
        vec![
            Block::Paragraph("שורה א\nשורה ב".into()),
            Block::Paragraph("פסקה שנייה".into()),
        ]
    );
}

/// The same document in both spellings reads to the same blocks.
///
/// This is the fence, and it is written as a translation rather than as a
/// list of names on purpose: a list would be a second copy of [`ALIASES`]
/// and would agree with it by construction. Here the Hebrew half is read by
/// the code that always worked, and the English half has to arrive at the
/// same answer — headings at the same levels, items at the same depths, the
/// header row still a header row, the note still lifted out of its
/// sentence.
///
/// Before the aliases, every English block came back `Paragraph`.
#[test]
fn an_english_document_reads_the_same_as_its_hebrew_twin() {
    const HE: &str = "#שער[ספר]
#כותרת4[פרק]

טקסט#הערה[שוליים] המשך.

#רשימה(פריט[ראשון], פריט[שני #ממוספרת(פריט[פנימי])])

#טבלה(עמודות: 2, כותרת_תא[א], כותרת_תא[ב], תא[1], תא[2])

#ציטוט[מובאה]

#הגדרות_כותרות(רמה: 2)

#מעבר_עמוד";
    const EN: &str = "#title[ספר]
#h4[פרק]

טקסט#fnote[שוליים] המשך.

#bullets(item[ראשון], item[שני #numbered(item[פנימי])])

#mktable(columns: 2, headcell[א], headcell[ב], cell[1], cell[2])

#blockquote[מובאה]

#headings_config(level: 2)

#pbreak";
    let he = read(HE);
    assert_eq!(read(EN), he, "the English spelling read differently");
    assert!(
        he.iter()
            .any(|b| matches!(b, Block::Heading { level: 4, .. }))
            && he.iter().any(|b| matches!(b, Block::Item { depth: 1, .. }))
            && he
                .iter()
                .any(|b| matches!(b, Block::Row { header: true, .. }))
            && he.iter().any(|b| matches!(b, Block::Note { .. }))
            && he.iter().any(|b| matches!(b, Block::Quote(_))),
        "{he:#?}"
    );
}

/// No name is in the table twice, on either side.
///
/// [`hebrew`] takes the first match, so a duplicate is a silent preference
/// rather than an error — and the two sides are different kinds of
/// duplicate: a repeated Hebrew name is a typo, a repeated English one is
/// two commands that would read as one.
#[test]
fn the_alias_table_has_no_name_twice() {
    for table in [&ALIASES[..], &PARAM_ALIASES[..]] {
        for (i, (he, en)) in table.iter().enumerate() {
            let dup_he = table.iter().skip(i + 1).find(|(h, _)| h == he);
            let dup_en = table.iter().skip(i + 1).find(|(_, e)| e == en);
            assert!(dup_he.is_none(), "{he} is in the table twice");
            assert!(dup_en.is_none(), "{en} is in the table twice");
        }
    }
}

/// A settings command has no words in it in either language.
#[test]
fn an_english_setting_is_still_a_setting() {
    for src in [
        "#הגדרות_רשימות(סמן: ([◆], [–]))",
        "#lists_config(marker: ([◆], [–]))",
        "#footnote_config(spacing: 1em)",
        "#tables_config(inset: 4pt)",
    ] {
        assert_eq!(read(src), vec![], "{src} left words behind");
    }
}

#[test]
fn a_break_ends_a_paragraph_and_adds_no_words() {
    assert_eq!(
        read("א\n#מעבר_עמוד\nב"),
        vec![Block::Paragraph("א".into()), Block::Paragraph("ב".into())]
    );
}

#[test]
fn a_document_that_nests_forever_is_read_rather_than_aborting() {
    for levels in [64, 65, 700, 2_000, 40_000] {
        let markup = format!("{}דבר{}", "#ציטוט[".repeat(levels), "]".repeat(levels));
        let blocks = read(&markup);
        assert!(
            !blocks.is_empty(),
            "{levels} levels: a truncated reading is the right answer, and an \
             empty one says the words were lost rather than flattened"
        );
    }
}

/// The same shape with nothing closing it, which is what a half-typed
/// document looks like.
#[test]
fn a_document_that_never_closes_its_brackets_is_read_rather_than_aborting() {
    let markup = "#ציטוט[".repeat(40_000);
    let _ = read(&markup);
}

#[test]
fn the_plain_text_lifts_a_footnote_and_numbers_an_item() {
    assert_eq!(girsa::ksav::to_text("סוף#הערה[הערת שוליים]."), "סוף1.\n1. הערת שוליים");
    assert_eq!(girsa::ksav::to_text("#ממוספרת(פריט[x])"), "1. x");
}
