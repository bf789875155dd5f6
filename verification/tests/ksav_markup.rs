use girsa::ksav::{
    cited_in, escape, heading, live_citation, mekor, quote_block, refs_in, retargeted, to_ksav,
    to_text, CitationPlacement,
};
use girsa::refs::reference::Ref;
use girsa::source::{Range, SourcePacket};

fn packet() -> SourcePacket {
    let r: Ref = "girsa:shulchan-arukh/orach-chayim/1:1"
        .parse()
        .expect("the ref parses");
    SourcePacket::new(
        &r,
        "שו\"ע או\"ח סימן א' סעיף א'",
        "יתגבר כארי לעמוד בבוקר לעבודת בוראו",
    )
}

#[test]
fn a_whole_seif_says_nothing_about_characters() {
    let markup = mekor("שו\"ע", Some("girsa:shulchan-arukh/orach-chayim/1:1"), None);
    assert!(!markup.contains("תווים"));
    assert_eq!(
        markup,
        mekor(
            "שו\"ע",
            Some("girsa:shulchan-arukh/orach-chayim/1:1"),
            Some(Range::all())
        )
    );
}

#[test]
fn half_a_seif_says_which_half_and_can_be_read_back() {
    let markup = mekor(
        "שו\"ע",
        Some("girsa:shulchan-arukh/orach-chayim/1:1"),
        Some(Range {
            from: 4,
            to: Some(19),
        }),
    );
    assert!(markup.contains("תווים: \"4-19\""));
    let cited = cited_in(&markup);
    assert_eq!(cited.len(), 1);
    assert_eq!(
        cited[0].range,
        Some(Range {
            from: 4,
            to: Some(19)
        })
    );
}

#[test]
fn to_the_end_is_a_range_and_not_a_missing_one() {
    let markup = mekor(
        "שו\"ע",
        Some("girsa:shulchan-arukh/orach-chayim/1:1"),
        Some(Range { from: 4, to: None }),
    );
    assert!(markup.contains("תווים: \"4-\""));
    assert_eq!(
        cited_in(&markup)[0].range,
        Some(Range { from: 4, to: None })
    );
}

#[test]
fn one_citation_s_characters_are_not_the_next_one_s() {
    let document = format!(
        "{}\nוכן\n{}\n",
        mekor(
            "א'",
            Some("girsa:shulchan-arukh/orach-chayim/1:1"),
            Some(Range {
                from: 0,
                to: Some(10)
            })
        ),
        mekor("ב'", Some("girsa:shulchan-arukh/orach-chayim/1:2"), None),
    );
    let cited = cited_in(&document);
    assert_eq!(cited.len(), 2);
    assert_eq!(
        cited[0].range,
        Some(Range {
            from: 0,
            to: Some(10)
        })
    );
    assert_eq!(
        cited[1].range, None,
        "the second one quotes the whole se'if"
    );
}

#[test]
fn the_range_travels_from_the_packet_into_the_document() {
    let mut packet = packet();
    packet.range = Some(Range {
        from: 0,
        to: Some(10),
    });
    let markup = to_ksav(&packet, CitationPlacement::Mekor);
    assert_eq!(
        cited_in(&markup)[0].range,
        Some(Range {
            from: 0,
            to: Some(10)
        })
    );
}

#[test]
fn the_ranges_do_not_change_which_refs_a_document_cites() {
    let document = format!(
        "{}\n{}\n",
        mekor(
            "א'",
            Some("girsa:shulchan-arukh/orach-chayim/1:1"),
            Some(Range {
                from: 0,
                to: Some(4)
            })
        ),
        mekor("א'", Some("girsa:shulchan-arukh/orach-chayim/1:1"), None),
    );
    assert_eq!(
        refs_in(&document),
        ["girsa:shulchan-arukh/orach-chayim/1:1"]
    );
    assert_eq!(cited_in(&document).len(), 2);
}

#[test]
fn a_source_becomes_a_quote_with_a_mekor() {
    let markup = to_ksav(&packet(), CitationPlacement::Mekor);
    assert!(markup.contains("#ציטוט["));
    assert!(markup.contains("#מראה_מקום("));
    assert!(markup.contains("יתגבר כארי"));
}

#[test]
fn the_document_keeps_the_place_and_not_only_the_printed_string() {
    let markup = to_ksav(&packet(), CitationPlacement::Mekor);
    assert!(
        markup.contains("מקור: \"girsa:shulchan-arukh/orach-chayim/1:1\""),
        "{markup}"
    );
}

#[test]
fn a_source_with_no_words_arrives_as_a_mareh_makom_and_not_as_an_empty_quote() {
    let r: Ref = "girsa:bavli/berakhot/2a".parse().expect("the ref parses");
    let page = SourcePacket::new(&r, "ברכות ב.", "");
    for placement in [CitationPlacement::Mekor, CitationPlacement::Inline] {
        let markup = to_ksav(&page, placement);
        assert!(!markup.contains("#ציטוט"), "{markup}");
        assert!(markup.contains("#מראה_מקום("), "{markup}");
        assert!(markup.contains("girsa:bavli/berakhot/2a"), "{markup}");
    }
    assert!(to_ksav(&packet(), CitationPlacement::Mekor).contains("#ציטוט["));
}

#[test]
fn a_citation_with_no_ref_behind_it_still_prints() {
    assert_eq!(
        mekor("שו\"ע או\"ח א' א'", None, None),
        "#מראה_מקום[שו\"ע או\"ח א' א']"
    );
}

#[test]
fn a_quote_carrying_typst_markup_does_not_open_a_block_that_never_closes() {
    let mut p = packet();
    p.text = "וכתב [הרמב\"ם] #ד' *כאן* עיין _שם_".into();
    let markup = to_ksav(&p, CitationPlacement::Mekor);
    assert!(markup.contains("\\[הרמב"));
    assert!(markup.contains("\\#ד'"));
    assert_eq!(open_blocks(&markup), 0, "{markup}");
}

/// How many content blocks are still open — counting only the brackets
/// Typst reads, which is to say the unescaped ones.
fn open_blocks(markup: &str) -> i32 {
    let mut depth = 0;
    let mut escaped = false;
    for c in markup.chars() {
        if escaped {
            escaped = false;
            continue;
        }
        match c {
            '\\' => escaped = true,
            '[' => depth += 1,
            ']' => depth -= 1,
            _ => {}
        }
    }
    depth
}

#[test]
fn a_note_is_a_comment_about_the_text_and_not_part_of_the_quote() {
    let mut p = packet();
    p.note = Some("צריך עיון".into());
    let markup = to_ksav(&p, CitationPlacement::Mekor);
    assert!(markup.contains("#הערת_עורך[צריך עיון]"));
    let quote = markup.split("#מראה_מקום").next().unwrap_or_default();
    assert!(!quote.contains("צריך עיון"));
}

#[test]
fn a_linkified_citation_prints_the_same_words_and_keeps_the_place() {
    let markup = live_citation(
        "שו\"ע או\"ח סימן א' סעיף ג'",
        "girsa:shulchan-arukh/orach-chayim/1:3",
    );
    assert!(markup.contains("שו\"ע או\"ח סימן א' סעיף ג'"), "{markup}");
    assert_eq!(refs_in(&markup), ["girsa:shulchan-arukh/orach-chayim/1:3"]);
    assert_eq!(to_text(&markup).trim(), "שו\"ע או\"ח סימן א' סעיף ג'");
}

#[test]
fn a_document_reads_back_as_the_words_somebody_wrote() {
    let markup = r#"#כותרת1[השכמת הבוקר]
#ציטוט[ראוי לכל ירא שמים]#מראה_מקום(מקור: "girsa:x/1:3")[שו"ע א' ג']

וצריך עיון על מה שכתב \#ד'.
"#;
    let text = to_text(markup);
    assert!(text.contains("השכמת הבוקר"), "{text}");
    assert!(text.contains("ראוי לכל ירא שמים"), "{text}");
    assert!(text.contains("וצריך עיון על מה שכתב #ד'."), "{text}");
    assert!(!text.contains("כותרת1"), "{text}");
    assert!(!text.contains("girsa:x/1:3"), "{text}");
    assert!(!text.contains('#') || text.contains("#ד'"), "{text}");
}

#[test]
fn the_refs_a_document_stores_can_be_read_back_out_of_it() {
    let markup = to_ksav(&packet(), CitationPlacement::Mekor).repeat(2)
        + "#מראה_מקום(מקור: \"girsa:bavli/berakhot/2a:1\")[ברכות ב.]";
    assert_eq!(
        refs_in(&markup),
        [
            "girsa:shulchan-arukh/orach-chayim/1:1",
            "girsa:bavli/berakhot/2a:1"
        ]
    );
    assert!(refs_in("prose with no citations at all").is_empty());
}

#[test]
fn a_heading_is_a_ksav_heading_and_the_level_is_one_that_exists() {
    assert_eq!(heading(2, "סוגיא"), "#כותרת2[סוגיא]\n");
    assert_eq!(heading(9, "סוגיא"), "#כותרת6[סוגיא]\n");
    assert_eq!(heading(0, "סוגיא"), "#כותרת1[סוגיא]\n");
}

#[test]
fn a_citation_that_moved_is_rewritten_and_nothing_else_is() {
    let markup = "כתב #מקור(מקור: \"girsa:shulchan-arukh/orach-chayim/1:3\", תווים: \"0-12\")[דברים]\nועוד #מקור(מקור: \"girsa:bavli/berakhot/2a:1\")[דברים אחרים]\nוכאן girsa:shulchan-arukh/orach-chayim/1:3 בגוף הטקסט, שאינו ציטוט.\n";
    let after = retargeted(markup, |old| {
        if old == "girsa:shulchan-arukh/orach-chayim/1:3" {
            Some("girsa:shulchan-arukh/orach-chayim/1:4".to_string())
        } else {
            None
        }
    });

    assert!(after.contains("מקור: \"girsa:shulchan-arukh/orach-chayim/1:4\""));
    assert!(
        after.contains("girsa:shulchan-arukh/orach-chayim/1:3 בגוף הטקסט"),
        "a ref in the prose is not a citation: {after}"
    );
    assert!(
        after.contains("girsa:bavli/berakhot/2a:1"),
        "a citation nobody moved is untouched: {after}"
    );
    assert!(
        after.contains("תווים: \"0-12\""),
        "the range is not ours to move"
    );

    let cited = cited_in(&after);
    assert_eq!(cited.len(), 2);
    assert_eq!(cited[0].reference, "girsa:shulchan-arukh/orach-chayim/1:4");
    assert_eq!(cited[1].reference, "girsa:bavli/berakhot/2a:1");
}

#[test]
fn moving_nothing_returns_the_document_byte_for_byte() {
    let markup = "#מקור(מקור: \"girsa:bavli/berakhot/2a:1\")[מאימתי]";
    assert_eq!(retargeted(markup, |_| None), markup);
    assert_eq!(retargeted("", |_| None), "");
    assert_eq!(retargeted("שום ציטוט כאן", |_| None), "שום ציטוט כאן");
}

#[test]
fn the_same_place_cited_twice_moves_twice() {
    let markup = "#מקור(מקור: \"girsa:bavli/berakhot/2a:1\")[א]\n#מקור(מקור: \"girsa:bavli/berakhot/2a:1\")[ב]\n";
    let after = retargeted(markup, |_| Some("girsa:bavli/berakhot/2a:2".to_string()));
    assert_eq!(after.matches("2a:2").count(), 2, "{after}");
    assert!(!after.contains("2a:1"), "{after}");
}

#[test]
fn a_quoted_line_that_starts_with_a_list_marker_stays_a_line_of_the_quote() {
    for marker in ["=", "-", "+", "/"] {
        let text = format!(
            "אחד
{marker} שניים"
        );
        let out = quote_block(&text);
        assert!(
            out.contains(&format!("\\{marker} ")),
            "{marker} at a line start is escaped: {out}"
        );
    }
}

#[test]
fn an_indented_marker_is_still_a_marker() {
    let out = escape(
        "אחד
   - שניים",
    );
    assert!(out.contains(r"   \- "), "{out}");
}

#[test]
fn a_number_that_opens_a_line_does_not_open_a_list() {
    let out = escape("12. דבר");
    assert!(out.starts_with(r"12\. "), "{out}");
    let out = escape("דבר. ועוד 12.5");
    assert!(!out.contains(r"\."), "{out}");
}

#[test]
fn a_citation_printed_inside_a_quote_is_words_and_not_a_citation() {
    let markup = quote_block("כותבים מקור: \"girsa:bavli/berakhot/2a:1\" וזהו הכלל");
    assert!(cited_in(&markup).is_empty(), "{markup}");
    assert_eq!(
        retargeted(&markup, |_| Some("girsa:bavli/berakhot/99a:9".into())),
        markup,
        "somebody else's words are not this function's to rewrite"
    );
}

#[test]
fn a_citation_inside_a_footnote_is_still_a_citation() {
    let inner = mekor("שו\"ע", Some("girsa:bavli/berakhot/2a:1"), None);
    let markup = format!("#הערה[וראה {inner}]");
    assert_eq!(cited_in(&markup).len(), 1, "{markup}");
}

#[test]
fn retargeting_asks_once_about_each_citation_in_order_and_uses_the_answers() {
    let markup = format!(
        "{} {}",
        mekor("א'", Some("girsa:x/1:1"), None),
        mekor("ב'", Some("girsa:x/1:2"), None)
    );
    let mut asked: Vec<String> = Vec::new();
    let same = retargeted(&markup, |r| {
        asked.push(r.to_string());
        None
    });
    assert_eq!(same, markup);
    assert_eq!(asked, vec!["girsa:x/1:1".to_string(), "girsa:x/1:2".to_string()]);
    let moved = retargeted(&markup, |r| {
        if r == "girsa:x/1:2" {
            Some("girsa:x/2:1".to_string())
        } else {
            None
        }
    });
    assert_eq!(moved, markup.replace("girsa:x/1:2", "girsa:x/2:1"));
}
