use girsa::alive::{alive, liveness_of, Liveness};
use girsa::post::desk::{check_request, constant_time_eq, dispatch, health_reply, Dispatch, Reply};
use girsa::post::{
    deep_link, judge, presence_after, request, status_of, token_text, too_large_message, App,
    Endpoint, Errand, Health, Heard, Presence, Verdict,
};

fn endpoint() -> Endpoint {
    Endpoint {
        app: App::Ksav,
        port: 51234,
        token: "0123456789abcdef0123456789abcdef".into(),
        pid: 42,
        version: "0.1.0".into(),
    }
}

#[test]
fn a_request_with_a_body_is_a_post_and_counts_its_bytes() {
    let text = request(&endpoint(), "/echo", Some("שלום"));
    assert_eq!(
        text,
        "POST /echo HTTP/1.1\r\nHost: 127.0.0.1:51234\r\nX-Girsa-Token: \
         0123456789abcdef0123456789abcdef\r\nContent-Type: application/json\r\n\
         Content-Length: 8\r\nConnection: close\r\n\r\nשלום"
    );
}

#[test]
fn a_request_that_only_asks_is_a_get_with_nothing_after_the_headers() {
    let text = request(&endpoint(), "/health", None);
    assert!(text.starts_with("GET /health HTTP/1.1\r\n"));
    assert!(text.ends_with("Content-Length: 0\r\nConnection: close\r\n\r\n"));
}

#[test]
fn the_status_is_the_second_word_of_the_first_line() {
    assert_eq!(status_of("HTTP/1.1 200 OK\r\n"), 200);
    assert_eq!(status_of("HTTP/1.1 404 Not Found\r\n"), 404);
    assert_eq!(status_of("HTTP/1.1 +401 x"), 401);
    assert_eq!(status_of("HTTP/1.1 70000 x"), 0);
    assert_eq!(status_of("garbage"), 0);
    assert_eq!(status_of(""), 0);
}

#[test]
fn an_answer_is_judged_by_its_size_its_text_and_its_status() {
    assert_eq!(judge(200, "שלום".as_bytes()), Verdict::Accepted("שלום".into()));
    assert_eq!(
        judge(404, b"  no such errand \n"),
        Verdict::Refused {
            status: 404,
            body: "no such errand".into()
        }
    );
    assert_eq!(judge(200, &[0xff, 0xfe]), Verdict::NotText);
    assert_eq!(judge(200, &vec![b'a'; 1024 * 1024 + 1]), Verdict::TooLarge);
    assert_eq!(too_large_message(), "the answer is over 1048576 bytes");
}

#[test]
fn presence_is_live_only_when_the_right_application_answers() {
    let health = |app| Health {
        app,
        version: "1.2".into(),
    };
    assert_eq!(presence_after(App::Ksav, Heard::NoEndpoint), Presence::NotRunning);
    assert_eq!(
        presence_after(App::Ksav, Heard::Answered(Ok(health(App::Ksav)))),
        Presence::Live {
            version: "1.2".into()
        }
    );
    assert_eq!(
        presence_after(App::Ksav, Heard::Answered(Ok(health(App::Girsa)))),
        Presence::Stale {
            why: "something calling itself girsa answered".into()
        }
    );
    assert_eq!(
        presence_after(App::Ksav, Heard::Answered(Err("expected value".into()))),
        Presence::Stale {
            why: "the answer was not ksav's: expected value".into()
        }
    );
    assert_eq!(
        presence_after(App::Girsa, Heard::Unreachable("connection refused".into())),
        Presence::Stale {
            why: "connection refused".into()
        }
    );
    assert!(!Presence::NotRunning.is_live());
}

#[test]
fn an_endpoint_file_sits_under_the_home_it_is_given() {
    assert_eq!(Endpoint::path(App::Girsa, "/data/girsa"), "/data/girsa/girsa-endpoint.json");
    assert_eq!(Endpoint::path(App::Ksav, "/data/girsa/"), "/data/girsa/ksav-endpoint.json");
    assert_eq!(Endpoint::path(App::Ksav, ""), "ksav-endpoint.json");
    assert_eq!(App::Girsa.sibling(), App::Ksav);
    assert_eq!(App::Ksav.sibling(), App::Girsa);
}

#[test]
fn a_token_is_the_bytes_in_lowercase_hexadecimal() {
    let bytes = [0x00, 0x01, 0x0a, 0xff, 0x10, 0x7f, 0x80, 0xab, 0, 0, 0, 0, 0, 0, 0, 0x2c];
    assert_eq!(token_text(&bytes), "00010aff107f80ab000000000000002c");
}

#[test]
fn the_desk_refuses_in_order_and_the_token_comes_first() {
    let token = "secret";
    let refused = check_request("wrong", token, true, Some(10_000_000)).expect("refused");
    assert_eq!(refused.status, 401);
    assert_eq!(refused.body, r#"{"error":"wrong token"}"#);
    let refused = check_request(token, token, true, Some(10)).expect("refused");
    assert_eq!(refused.status, 405);
    assert_eq!(refused.body, r#"{"error":"no"}"#);
    let refused = check_request(token, token, false, Some(1024 * 1024 + 1)).expect("refused");
    assert_eq!(refused.status, 413);
    assert!(check_request(token, token, false, Some(1024 * 1024)).is_none());
}

#[test]
fn a_body_of_unknown_length_is_refused_with_411() {
    let refused = check_request("s", "s", false, None).expect("refused");
    assert_eq!(refused.status, 411);
    assert_eq!(refused.body, r#"{"error":"length required"}"#);
    assert_eq!(check_request("x", "s", false, None).expect("refused").status, 401);
}

#[test]
fn a_body_that_reads_past_the_cap_is_refused_whatever_its_length_said() {
    match dispatch("/echo", Some(vec![b'a'; 1024 * 1024 + 1])) {
        Dispatch::Reply(reply) => assert_eq!(reply.status, 413),
        _ => panic!("a body past the cap is refused"),
    }
    match dispatch("/echo", Some(vec![b'a'; 1024 * 1024])) {
        Dispatch::Errand { body, .. } => assert_eq!(body.len(), 1024 * 1024),
        _ => panic!("a body at the cap is whole"),
    }
    match dispatch("/echo", Some(vec![0xff])) {
        Dispatch::Reply(reply) => assert_eq!(reply.status, 400),
        _ => panic!("bytes that are not text are refused"),
    }
}

#[test]
fn a_refusal_is_json_even_when_its_words_carry_quotes() {
    let reply = Reply::refused(400, "a \"quoted\" word\n");
    assert_eq!(reply.status, 400);
    assert_eq!(reply.body, r#"{"error":"a \"quoted\" word\n"}"#);
    let ok = Reply::ok("שלום");
    assert_eq!((ok.status, ok.body.as_str()), (200, "שלום"));
}

#[test]
fn health_says_who_this_is() {
    let reply = health_reply(App::Girsa, "0.5.4");
    assert_eq!(reply.status, 200);
    assert_eq!(reply.body, r#"{"app":"girsa","version":"0.5.4"}"#);
}

#[test]
fn an_admitted_request_goes_where_its_path_says() {
    match dispatch("/health?x=1", Some(Vec::new())) {
        Dispatch::Health => {}
        _ => panic!("health is answered by the desk"),
    }
    match dispatch("/echo?x=1", Some(b"body".to_vec())) {
        Dispatch::Errand { path, body } => {
            assert_eq!(path, "/echo");
            assert_eq!(body, "body");
        }
        _ => panic!("an errand goes to the handler"),
    }
    match dispatch("/health", None) {
        Dispatch::Reply(reply) => {
            assert_eq!(reply.status, 400);
            assert_eq!(reply.body, r#"{"error":"the body is not text"}"#);
        }
        _ => panic!("a body that is not text is refused"),
    }
}

#[test]
fn tokens_compare_equal_only_when_they_are_equal() {
    assert!(constant_time_eq("abc", "abc"));
    assert!(!constant_time_eq("abc", "abd"));
    assert!(!constant_time_eq("abc", "ab"));
    assert!(constant_time_eq("", ""));
    assert!(!constant_time_eq("א", "ב"));
}

#[test]
fn a_plus_is_a_space_and_a_stray_percent_is_itself() {
    assert_eq!(
        deep_link(App::Girsa, "girsa://open?ref=a+b%zz%2"),
        Some(Errand::Open {
            reference: "a b%zz%2".into()
        })
    );
    assert_eq!(
        deep_link(App::Ksav, "  ksav://insert/?other=1&packet=%7B%7D&packet=x  "),
        Some(Errand::Insert {
            packet: "{}".into()
        })
    );
}

#[test]
fn bytes_that_are_not_text_fail_the_link_rather_than_being_repaired() {
    assert_eq!(deep_link(App::Girsa, "girsa://open?ref=%FFx"), None);
}

#[test]
fn the_probe_decides_only_for_a_pid_it_may_ask_about() {
    assert_eq!(alive(5, |_| Ok(())), Liveness::Alive);
    assert_eq!(alive(5, |_| Err(Some(3))), Liveness::Gone);
    assert_eq!(alive(5, |_| Err(Some(1))), Liveness::Alive);
    assert_eq!(alive(5, |_| Err(Some(22))), Liveness::Unknown);
    assert_eq!(alive(5, |_| Err(None)), Liveness::Unknown);
    assert_eq!(alive(0x8000_0000, |_| Ok(())), Liveness::Gone);
    assert_eq!(liveness_of(Err(Some(3))), Liveness::Gone);
    assert!(!Liveness::Unknown.gone());
}
