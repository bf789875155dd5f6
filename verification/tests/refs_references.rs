use girsa::refs::redirect::{Moved, RedirectTable};
use girsa::refs::reference::{Ref, RefError};

fn r(s: &str) -> Ref {
    s.parse().unwrap_or_else(|e| panic!("{s}: {e:?}"))
}

#[test]
fn a_ref_nobody_moved_resolves_to_itself() {
    let table = RedirectTable::new();
    let original = r("girsa:bavli/berakhot/2a:1");
    assert_eq!(table.follow(&original), vec![original]);
}

#[test]
fn a_moved_ref_follows() {
    let mut table = RedirectTable::new();
    table.insert(
        &r("girsa:bavli/berakhot/2a:1"),
        vec![r("girsa:bavli/berakhot/2a:2")],
    );
    assert_eq!(
        table.follow(&r("girsa:bavli/berakhot/2a:1")),
        vec![r("girsa:bavli/berakhot/2a:2")]
    );
}

#[test]
fn a_ref_that_became_two_places_resolves_to_both() {
    let mut table = RedirectTable::new();
    table.insert(
        &r("girsa:shulchan-arukh/orach-chayim/1:1"),
        vec![
            r("girsa:shulchan-arukh/orach-chayim/1:1"),
            r("girsa:shulchan-arukh/orach-chayim/1:2"),
        ],
    );
    assert_eq!(
        table
            .follow(&r("girsa:shulchan-arukh/orach-chayim/1:1"))
            .len(),
        2
    );
}

#[test]
fn a_chain_of_two_re_segmentations_still_lands() {
    let mut table = RedirectTable::new();
    table.insert(&r("girsa:x/1:1"), vec![r("girsa:x/1:2")]);
    table.insert(&r("girsa:x/1:2"), vec![r("girsa:x/1:3")]);
    assert_eq!(table.follow(&r("girsa:x/1:1")), vec![r("girsa:x/1:3")]);
}

#[test]
fn a_cycle_stops_rather_than_hanging() {
    let mut table = RedirectTable::new();
    table.insert(&r("girsa:x/1:1"), vec![r("girsa:x/1:2")]);
    table.insert(&r("girsa:x/1:2"), vec![r("girsa:x/1:1")]);
    assert!(table.follow(&r("girsa:x/1:1")).len() <= 1);
}

#[test]
fn a_row_naming_something_this_build_cannot_read_is_dropped() {
    let rows = vec![
        Moved {
            from: "not a ref".into(),
            to: vec!["girsa:bavli/berakhot/2a:1".into()],
        },
        Moved {
            from: "girsa:bavli/berakhot/2a:1".into(),
            to: vec!["also not a ref".into()],
        },
        Moved {
            from: "girsa:bavli/berakhot/3a:1".into(),
            to: vec!["nonsense".into(), "girsa:bavli/berakhot/3a:2".into()],
        },
    ];
    let table = RedirectTable::of_rows(&rows);

    assert_eq!(table.len(), 1, "one row of the three survives");
    assert!(!table.is_redirected(&r("girsa:bavli/berakhot/2a:1")));
    assert_eq!(
        table.follow(&r("girsa:bavli/berakhot/3a:1")),
        vec![r("girsa:bavli/berakhot/3a:2")]
    );
}

#[test]
fn the_examples_in_the_spec_round_trip() {
    for s in [
        "girsa:shulchan-arukh/orach-chayim/1:1",
        "girsa:bavli/berakhot/2a:1-2b:4",
        "girsa:mishnah-berurah/121:3",
    ] {
        let parsed: Ref = match s.parse() {
            Ok(r) => r,
            Err(e) => panic!("{s} did not parse: {e:?}"),
        };
        assert_eq!(parsed.to_string(), s);
    }
}

#[test]
fn the_last_component_is_the_address_and_the_rest_is_the_work() {
    let r: Ref = "girsa:bavli/berakhot/2a:1-2b:4".parse().expect("parses");
    assert_eq!(r.work_slug(), "bavli/berakhot");
    assert_eq!(r.from().to_string(), "2a:1");
    assert_eq!(r.to().map(|a| a.to_string()), Some("2b:4".into()));
    assert!(r.is_span());
}

#[test]
fn a_ref_to_a_whole_sefer_has_no_address() {
    let r: Ref = "girsa:berakhot".parse().expect("parses");
    assert_eq!(r.work_slug(), "berakhot");
    assert_eq!(r.to_string(), "girsa:berakhot");
    assert!(!r.is_span());
}

#[test]
fn a_span_of_length_one_is_a_point() {
    let a: Ref = "girsa:bavli/berakhot/2a:1-2a:1".parse().expect("parses");
    let b: Ref = "girsa:bavli/berakhot/2a:1".parse().expect("parses");
    assert_eq!(a, b);
    assert_eq!(a.to_string(), b.to_string());
}

#[test]
fn a_segment_id_read_as_a_ref_points_at_the_same_place() {
    let r: Ref = "girsa:mishnah-berurah/1:1#7".parse().expect("parses");
    assert_eq!(r.to_string(), "girsa:mishnah-berurah/1:1");
}

#[test]
fn something_that_is_not_a_girsa_ref_is_refused() {
    assert_eq!(
        "Berakhot 2a".parse::<Ref>().unwrap_err(),
        RefError::NotAGirsaRef
    );
    assert_eq!("girsa:".parse::<Ref>().unwrap_err(), RefError::NoWork);
}
