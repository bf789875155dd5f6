use girsa::hebrew::{for_each_token, normalize, tokenize, variants, variants_with, VariantKind};

#[test]
fn tokens_point_back_at_the_text_as_printed() {
    let input = "מֵאֵימָתַי קוֹרִין";
    let tokens = tokenize(input);
    assert_eq!(tokens.len(), 2);
    assert_eq!(&input[tokens[0].start..tokens[0].end], "מֵאֵימָתַי");
    assert_eq!(tokens[0].text, "מאימתי");
}

#[test]
fn tokenizing_agrees_with_normalizing() {
    for input in [
        "בְּרֵאשִׁית בָּרָא אֱלֹהִים אֵת הַשָּׁמַיִם וְאֵת הָאָרֶץ׃",
        "אֶת־הַשָּׁמַיִם",
        "וכל כונת הש\"י הוא רק לטובתנו",
        "",
        "   ",
    ] {
        let joined = tokenize(input)
            .into_iter()
            .map(|t| t.text)
            .collect::<Vec<_>>()
            .join(" ");
        assert_eq!(joined, normalize(input), "disagreement on {input:?}");
    }
}

#[test]
fn walking_the_tokens_says_what_collecting_them_says() {
    for input in ["מֵאֵימָתַי קוֹרִין אֶת־שְׁמַע", "Berakhot 2a — קוֹרִין", "  ", "א"] {
        let mut walked = Vec::new();
        for_each_token(input, |t, s, e| walked.push((t.to_string(), s, e)));
        let collected: Vec<_> = tokenize(input)
            .into_iter()
            .map(|t| (t.text, t.start, t.end))
            .collect();
        assert_eq!(walked, collected, "disagreement on {input:?}");
    }
}

#[test]
fn the_word_buffer_is_one_buffer() {
    let text = "אחד שנים שלושה ארבעה חמישה שישה שבעה שמונה תשעה עשרה";
    let mut seen = Vec::new();
    for_each_token(text, |t, _, _| seen.push(t.as_ptr() as usize));
    let tail = &seen[3..];
    assert!(tail.iter().all(|p| *p == tail[0]), "the buffer moved: {seen:?}");
}

#[test]
fn html_angle_brackets_do_not_glue_a_heading_to_its_text() {
    assert_eq!(normalize("<h2>דף ב.</h2>"), "h2 דפ ב h2");
}

#[test]
fn asking_for_one_rung_does_not_pay_for_the_others() {
    let only_prefixes = variants_with("ובשבת", &[VariantKind::PrefixPeeled]);
    assert!(only_prefixes
        .counts()
        .iter()
        .all(|(k, _)| *k == VariantKind::PrefixPeeled));
}

#[test]
fn a_word_with_nothing_to_offer_offers_nothing() {
    assert!(variants("אב").is_empty());
    assert!(variants("hello").is_empty());
}

#[test]
fn one_rung_never_offers_the_same_form_twice() {
    for kind in VariantKind::ALL {
        let v = variants_with("שו\"ע", &[kind]);
        let mut forms: Vec<&str> = v.iter().map(|(_, f)| f).collect();
        let before = forms.len();
        forms.sort_unstable();
        forms.dedup();
        assert_eq!(forms.len(), before, "{kind:?} repeated a form");
    }
}

#[test]
fn a_form_two_rungs_both_reach_belongs_to_both() {
    let v = variants("חת\"ם סופר");
    assert!(v
        .forms_of_kind(VariantKind::GershayimDropped)
        .any(|f| f == "חתם סופר"));
    assert!(v
        .forms_of_kind(VariantKind::AbbreviationExpanded)
        .any(|f| f == "חתם סופר"));
}

#[test]
fn applying_two_rungs_at_once_runs_each_query_once() {
    let v = variants("חת\"ם סופר");
    let distinct = v.distinct_forms();
    assert!(distinct.len() < v.len(), "nothing was shared, so this proves nothing");
    let mut sorted = distinct.clone();
    sorted.sort_unstable();
    sorted.dedup();
    assert_eq!(sorted.len(), distinct.len());
}

#[test]
fn dropping_gershayim_from_a_word_without_any_offers_nothing() {
    let v = variants_with("שבת", &[VariantKind::GershayimDropped]);
    assert!(v.is_empty());
}
