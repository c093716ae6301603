use gitea_mirror_sync::http::{
    do_send, is_success, max_retries, paginate, truncate, Pages, SendError,
};
use gitea_mirror_sync::json::Json;

fn page(n: usize) -> Vec<Json> {
    (0..n).map(|_| Json::Null).collect()
}

fn status(code: u16) -> SendError {
    SendError::Status { code, line: format!("{code}"), body: "b".into() }
}

#[test]
fn success_is_any_code_of_the_200s() {
    assert!(is_success(200));
    assert!(is_success(299));
    assert!(!is_success(199));
    assert!(!is_success(300));
    assert!(do_send(204, "204 No Content".into(), "".into()).is_ok());
    assert_eq!(
        do_send(404, "404 Not Found".into(), "gone".into()),
        Err(SendError::Status { code: 404, line: "404 Not Found".into(), body: "gone".into() })
    );
}

#[test]
fn what_is_worth_another_try() {
    assert!(status(500).is_transient());
    assert!(status(599).is_transient());
    assert!(status(429).is_transient());
    assert!(!status(428).is_transient());
    assert!(!status(404).is_transient());
    assert!(!status(600).is_transient());
    let transport = |timeout, connect| SendError::Transport { timeout, connect, reason: "r".into() };
    assert!(transport(true, false).is_transient());
    assert!(transport(false, true).is_transient());
    assert!(!transport(false, false).is_transient());
    assert_eq!(max_retries(), 4);
}

#[test]
fn failures_in_words() {
    let e = SendError::Transport { timeout: true, connect: false, reason: "timed out".into() };
    assert_eq!(e.message(), "HTTP request failed: timed out");
    let e = SendError::Status { code: 404, line: "404 Not Found".into(), body: "gone".into() };
    assert_eq!(e.message(), "API returned HTTP 404 Not Found: gone");
    let e = SendError::Status { code: 500, line: "500".into(), body: "x".repeat(601) };
    assert_eq!(e.message(), format!("API returned HTTP 500: {}\u{2026}", "x".repeat(600)));
}

#[test]
fn a_long_text_is_cut_by_characters() {
    assert_eq!(truncate("abc", 3), "abc");
    assert_eq!(truncate("abcd", 3), "abc\u{2026}");
    assert_eq!(truncate("\u{e9}\u{e9}\u{e9}\u{e9}", 3), "\u{e9}\u{e9}\u{e9}\u{2026}");
    assert_eq!(truncate("", 0), "");
    assert_eq!(truncate("a", 0), "\u{2026}");
}

#[test]
fn a_short_page_is_the_last() {
    let list = Pages::new(2, 5);
    assert_eq!(list.next_page(), Some(1));
    let list = paginate(list, page(2));
    assert_eq!(list.next_page(), Some(2));
    let list = paginate(list, page(3));
    assert_eq!(list.next_page(), Some(3));
    let list = paginate(list, page(1));
    assert_eq!(list.next_page(), None);
    assert_eq!(list.into_items().len(), 6);
}

#[test]
fn the_page_limit_ends_a_list() {
    let list = paginate(Pages::new(1, 2), page(1));
    let list = paginate(list, page(1));
    assert_eq!(list.next_page(), None);
    assert_eq!(list.into_items().len(), 2);
    assert_eq!(Pages::new(1, 0).next_page(), None);
    assert_eq!(paginate(Pages::new(1, 9), page(0)).next_page(), None);
}

#[test]
fn items_stand_in_the_order_of_the_pages() {
    let list = paginate(Pages::new(1, 9), vec![Json::Bool(true)]);
    let list = paginate(list, vec![]);
    assert_eq!(list.into_items(), vec![Json::Bool(true)]);
}
