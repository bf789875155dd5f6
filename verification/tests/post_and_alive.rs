use girsa::alive::{alive, Liveness};
use girsa::post::routes::{self, HEALTH, RENAMED};
use girsa::post::{deep_link, mint_token, App, Endpoint, Errand};

#[test]
fn a_pid_nothing_holds_is_gone() {
    assert_eq!(alive(u32::MAX, |_| Ok(())), Liveness::Gone);
    assert!(alive(u32::MAX, |_| Ok(())).gone());
}

#[test]
fn zero_is_not_a_question() {
    assert_eq!(alive(0, |_| Ok(())), Liveness::Unknown);
    assert!(!alive(0, |_| Ok(())).gone(), "unknown must never read as gone");
}

#[test]
fn a_token_is_not_something_another_process_can_work_out() {
    let (a, b) = (
        mint_token().expect("randomness"),
        mint_token().expect("randomness"),
    );
    assert_eq!(a.len(), 32);
    assert_ne!(a, b);
    assert!(a.chars().all(|c| c.is_ascii_hexdigit()));
}

#[test]
fn each_application_has_its_own_endpoint_file() {
    let home = "/home/reader/.local/share/girsa";
    assert_ne!(Endpoint::path(App::Girsa, home), Endpoint::path(App::Ksav, home));
    assert!(Endpoint::path(App::Girsa, home).contains("girsa-endpoint"));
}

#[test]
fn a_ref_is_already_a_link_and_that_is_the_whole_point() {
    assert_eq!(
        deep_link(App::Girsa, "girsa:bavli/berakhot/2a:1"),
        Some(Errand::Open {
            reference: "girsa:bavli/berakhot/2a:1".into()
        })
    );
}

#[test]
fn the_long_form_the_spec_names_reads_too() {
    assert_eq!(
        deep_link(
            App::Girsa,
            "girsa://open?ref=girsa%3Ashulchan-arukh%2Forach-chayim%2F1%3A1"
        ),
        Some(Errand::Open {
            reference: "girsa:shulchan-arukh/orach-chayim/1:1".into()
        })
    );
}

#[test]
fn a_packet_arrives_whole_through_a_url() {
    let packet = r#"{"schema":1,"ref":"girsa:x/1:1","display":"ד","text":"א ב"}"#;
    let encoded: String = packet
        .bytes()
        .map(|b| {
            if b.is_ascii_alphanumeric() {
                (b as char).to_string()
            } else {
                format!("%{b:02X}")
            }
        })
        .collect();
    assert_eq!(
        deep_link(App::Ksav, &format!("ksav://insert?packet={encoded}")),
        Some(Errand::Insert {
            packet: packet.to_string()
        })
    );
}

#[test]
fn hebrew_survives_the_round_trip_through_a_url() {
    assert_eq!(
        deep_link(App::Girsa, "girsa://open?ref=%D7%91%D7%A8%D7%9B%D7%95%D7%AA"),
        Some(Errand::Open {
            reference: "ברכות".into()
        })
    );
}

#[test]
fn the_other_applications_errand_is_refused_rather_than_approximated() {
    assert_eq!(deep_link(App::Girsa, "ksav://insert?packet=%7B%7D"), None);
    assert_eq!(deep_link(App::Ksav, "girsa:bavli/berakhot/2a:1"), None);
    assert_eq!(deep_link(App::Girsa, "girsa://delete?everything=yes"), None);
    assert_eq!(deep_link(App::Girsa, "https://example.com/girsa:x"), None);
    assert_eq!(deep_link(App::Girsa, "girsa://open"), None);
    assert_eq!(deep_link(App::Girsa, "girsa://open?ref="), None);
    assert_eq!(deep_link(App::Girsa, "girsa:"), None);
}

#[test]
fn no_path_serves_two_errands_under_one_name() {
    assert_ne!(RENAMED.0, RENAMED.1, "the rename is what this file is for");
    assert_eq!(RENAMED, (routes::girsa::DOCUMENT_SAVED, routes::ksav::TAKE_DOCUMENT));

    let girsa_paths = [
        routes::girsa::DOCUMENT_SAVED,
        routes::girsa::REFRESH,
        routes::girsa::WHERE_FROM,
        routes::girsa::LINKIFY,
    ];
    let ksav_paths = [routes::ksav::TAKE_DOCUMENT, routes::ksav::INSERT];
    let shared: Vec<&str> = girsa_paths.iter().filter(|p| ksav_paths.contains(p)).copied().collect();
    assert!(
        shared.is_empty(),
        "a path serving two errands under one name: {shared:?}"
    );
    assert!(!girsa_paths.contains(&HEALTH) && !ksav_paths.contains(&HEALTH));
}

#[test]
fn the_legacy_name_is_only_a_legacy_name() {
    assert_eq!(routes::girsa::LEGACY_DOCUMENT, routes::ksav::LEGACY_DOCUMENT);
    for live in [
        routes::girsa::DOCUMENT_SAVED,
        routes::girsa::REFRESH,
        routes::girsa::WHERE_FROM,
        routes::girsa::LINKIFY,
        routes::ksav::TAKE_DOCUMENT,
        routes::ksav::INSERT,
        HEALTH,
    ] {
        assert_ne!(live, routes::girsa::LEGACY_DOCUMENT);
    }
}

#[test]
fn a_scheme_in_capitals_is_the_same_scheme() {
    assert_eq!(
        deep_link(App::Girsa, "GIRSA:bavli/berakhot/2a:1"),
        Some(Errand::Open {
            reference: "girsa:bavli/berakhot/2a:1".into()
        })
    );
    assert_eq!(
        deep_link(App::Ksav, "KSav://insert?packet=%7B%7D"),
        Some(Errand::Insert { packet: "{}".into() })
    );
}

#[test]
fn a_link_whose_bytes_are_not_text_is_refused_rather_than_repaired() {
    assert_eq!(deep_link(App::Girsa, "girsa://open?ref=girsa%3Ax%FF"), None);
}
