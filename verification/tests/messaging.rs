use driver::decimal::{decimal_string, parse_decimal_u64};
use driver::rabbit::{
    random_response_queue_name, correlation_id, default_request_queue_name, expiration, group_headers, response_queue_name, route_response,
    timeout_millis, Callbacks, Request, RequestIds, Routed,
};

#[test]
fn decimal_text_of_numbers() {
    assert_eq!(decimal_string(0), "0");
    assert_eq!(decimal_string(1234567890), "1234567890");
    assert_eq!(decimal_string(u128::MAX), u128::MAX.to_string());
}

#[test]
fn parse_follows_str_parse() {
    for text in ["0", "42", "+42", "007", "", "+", "-1", "-", "1a", " 1", "18446744073709551615", "18446744073709551616", "99999999999999999999", "٣"] {
        assert_eq!(parse_decimal_u64(text), text.parse::<u64>().ok(), "{text}");
    }
}

#[test]
fn correlation_id_reads_back() {
    for id in [0u64, 7, 10, u64::MAX] {
        assert_eq!(parse_decimal_u64(&correlation_id(id)), Some(id));
    }
}

#[test]
fn queue_names() {
    assert_eq!(response_queue_name(17), "solver_17");
    assert_eq!(default_request_queue_name(), "work");
}

#[test]
fn timeouts_in_milliseconds() {
    assert_eq!(timeout_millis(Some((2, 1_500_000))), 2001);
    assert_eq!(timeout_millis(None), std::time::Duration::MAX.as_millis());
    assert_eq!(expiration(timeout_millis(None)), "18446744073709551615999");
}

#[test]
fn request_ids_count_up() {
    let mut ids = RequestIds::new();
    assert_eq!(ids.next_id(), 0);
    assert_eq!(ids.next_id(), 1);
}

#[test]
fn responses_reach_their_request() {
    let mut callbacks: Callbacks<&str> = Callbacks::new();
    callbacks.register(3, "three");
    callbacks.register(4, "four");
    match route_response(&mut callbacks, Some(&correlation_id(4))) {
        Routed::Deliver(4, "four") => {}
        other => panic!("{other:?}"),
    }
    assert_eq!(callbacks.len(), 1);
    assert!(matches!(route_response(&mut callbacks, Some("4")), Routed::NoWaiter(4)));
    assert!(matches!(route_response(&mut callbacks, Some("x")), Routed::InvalidCorrelationId));
    assert!(matches!(route_response(&mut callbacks, None), Routed::MissingCorrelationId));
    assert_eq!(callbacks.len(), 1);
}

#[test]
fn timed_out_request_gets_no_response() {
    let mut callbacks: Callbacks<u8> = Callbacks::new();
    callbacks.register(9, 1);
    assert_eq!(callbacks.take(9), Some(1));
    assert_eq!(callbacks.take(9), None);
    assert!(matches!(route_response(&mut callbacks, Some("9")), Routed::NoWaiter(9)));
}

#[test]
fn headers_are_grouped_by_name() {
    let s = |t: &str| t.to_string();
    let pairs = vec![
        (s("accept"), Some(s("a"))),
        (s("x-bin"), None),
        (s("accept"), Some(s("b"))),
        (s("host"), Some(s("h"))),
    ];
    let groups = group_headers(&pairs);
    assert_eq!(
        groups,
        vec![(s("accept"), vec![s("a"), s("b")]), (s("x-bin"), vec![]), (s("host"), vec![s("h")])]
    );
}

#[test]
fn request_from_parts_groups_headers() {
    let s = |t: &str| t.to_string();
    let pairs = vec![(s("accept"), Some(s("a"))), (s("x-bin"), None), (s("accept"), Some(s("b")))];
    let r = Request::from_parts(None, s("http://x/"), s("POST"), &pairs);
    assert_eq!(r.body, Vec::<u8>::new());
    assert_eq!(r.url, "http://x/");
    assert_eq!(r.method, "POST");
    assert_eq!(r.headers, vec![(s("accept"), vec![s("a"), s("b")]), (s("x-bin"), vec![])]);
    let r = Request::from_parts(Some(vec![1, 2]), s("u"), s("GET"), &Vec::new());
    assert_eq!(r.body, vec![1, 2]);
    assert!(r.headers.is_empty());
}

#[test]
fn request_ids_are_distinct() {
    let mut ids = RequestIds::new();
    let mut seen = std::collections::HashSet::new();
    for _ in 0..1000 {
        assert!(seen.insert(ids.next_id()));
    }
}

#[test]
fn random_response_queue_names() {
    let name = random_response_queue_name();
    let number = name.strip_prefix("solver_").expect("prefix");
    assert_eq!(parse_decimal_u64(number).map(|n| n.to_string()), Some(number.to_string()));
}
