use girsa::refs::reference::Ref;
use girsa::source::{Range, SourcePacket};

#[test]
fn the_whole_place_and_nobody_knows_are_two_different_answers() {
    let reference: Ref = "girsa:tur/1".parse().expect("a ref");
    let whole = SourcePacket::new(&reference, "טור א'", "…");
    assert_eq!(whole.range, Some(Range::all()));
    assert!(whole.range.is_some_and(|r| r.is_all()));

    let part = SourcePacket::part(
        &reference,
        "טור א'",
        "…",
        Range {
            from: 4,
            to: Some(19),
        },
    );
    assert!(part.range.is_some_and(|r| !r.is_all()));
}
