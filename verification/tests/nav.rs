use rmbrowser::engine::{DomPosition, LinkInfo};
use rmbrowser::nav::{page_number, pick_best, score, NavSlot};

const W_REL: i32 = 100;
const W_URL_DELTA: i32 = 40;
const W_TEXT: i32 = 30;
const W_GLYPH: i32 = 15;
const W_OFFHOST: i32 = 30;

fn link(href: &str, text: &str, rel: &[&str]) -> LinkInfo {
    LinkInfo {
        href: href.into(),
        text: text.into(),
        rel: rel.iter().map(|s| s.to_string()).collect(),
        in_nav: false,
        same_origin: true,
        position: DomPosition::Middle,
    }
}

#[test]
fn rel_next_is_decisive() {
    let l = link("https://x.test/2", "click", &["next"]);
    assert!(score(NavSlot::Next, &l, "https://x.test/1") >= W_REL);
}

#[test]
fn glyph_and_text_contribute() {
    let l = link("https://x.test/p2", "Next »", &[]);
    let s = score(NavSlot::Next, &l, "https://x.test/p1");
    assert!(s >= W_TEXT + W_GLYPH);
}

#[test]
fn url_page_delta_detected() {
    let l = link("https://x.test/articles/13", "go", &[]);
    let s = score(NavSlot::Next, &l, "https://x.test/articles/12");
    assert!(s >= W_URL_DELTA);
}

#[test]
fn negative_words_penalised() {
    let l = link("https://x.test/c", "next comment", &[]);
    let pos = link("https://x.test/2", "next", &["next"]);
    assert!(score(NavSlot::Next, &l, "https://x.test/1") < score(NavSlot::Next, &pos, "https://x.test/1"));
}

#[test]
fn off_origin_penalised() {
    let same = link("https://x.test/2", "next", &[]);
    let mut off = same.clone();
    off.href = "https://other.test/2".into();
    off.same_origin = false;
    // Identical but cross-origin must score exactly W_OFFHOST lower.
    assert_eq!(
        score(NavSlot::Next, &same, "https://x.test/1") - score(NavSlot::Next, &off, "https://x.test/1"),
        W_OFFHOST
    );
}

#[test]
fn pick_best_chooses_highest() {
    let links = vec![
        link("https://x.test/spam", "share", &[]),
        link("https://x.test/2", "Next »", &["next"]),
        link("https://x.test/0", "Prev", &["prev"]),
    ];
    let best = pick_best(NavSlot::Next, &links, "https://x.test/1", 1).unwrap();
    assert_eq!(best.href, "https://x.test/2");
}

#[test]
fn page_number_forms() {
    assert_eq!(page_number("https://x.test/list?page=7"), Some(7));
    assert_eq!(page_number("https://x.test/PAGE/12/"), Some(12));
    assert_eq!(page_number("https://x.test/?p=3&x=1"), None);
    assert_eq!(page_number("https://x.test/articles/42/"), Some(42));
    assert_eq!(page_number("https://x.test/articles/42?utm=5"), Some(42));
    assert_eq!(page_number("https://x.test/about"), None);
    assert_eq!(page_number("https://x.test/a1"), None);
    assert_eq!(page_number(""), None);
}

#[test]
fn page_key_without_digits_falls_through() {
    // "page=" with no digits: the trailing-segment rule still applies.
    assert_eq!(page_number("https://x.test/9?page=x"), Some(9));
}

#[test]
fn page_number_overflow_is_none() {
    assert_eq!(page_number("https://x.test/?page=99999999999999999999"), None);
}

#[test]
fn exact_score_of_full_signal_link() {
    let mut l = link("https://x.test/p/3", "Next page »", &["next"]);
    l.in_nav = true;
    l.position = DomPosition::Bottom;
    // rel 100 + url delta 40 + text 30 + glyph 15 + landmark 15 + position 10
    assert_eq!(score(NavSlot::Next, &l, "https://x.test/p/2"), 210);
}

#[test]
fn exact_score_of_penalised_link() {
    let mut l = link("https://o.test/x", "Sign in", &[]);
    l.same_origin = false;
    assert_eq!(score(NavSlot::Next, &l, "https://x.test/1"), -80);
}

#[test]
fn prev_slot_uses_page_minus_one_and_top() {
    let mut l = link("https://x.test/?page=4", "older", &["previous"]);
    l.position = DomPosition::Top;
    // rel 100 + url delta 40 + position 10 ("older" is a next word, not prev)
    assert_eq!(score(NavSlot::Prev, &l, "https://x.test/?page=5"), 150);
}

#[test]
fn pick_best_none_below_threshold() {
    let links = vec![link("https://x.test/a", "about", &[])];
    assert!(pick_best(NavSlot::Next, &links, "https://x.test/1", 1).is_none());
    assert!(pick_best(NavSlot::Next, &[], "https://x.test/1", 0).is_none());
}

#[test]
fn pick_best_ties_go_to_last() {
    let links = vec![link("https://x.test/a", "next", &[]), link("https://x.test/b", "next", &[])];
    let best = pick_best(NavSlot::Next, &links, "https://x.test/z", 1).unwrap();
    assert_eq!(best.href, "https://x.test/b");
}

#[test]
fn page_keys_count_only_as_query_parameters() {
    assert_eq!(page_number("https://x.test/list?step=5"), None);
    assert_eq!(page_number("https://x.test/list?homepage=5"), None);
    assert_eq!(page_number("https://x.test/list?a=1&page=4"), Some(4));
    assert_eq!(page_number("https://x.test/list?step=5&p=2"), None);
    assert_eq!(page_number("https://x.test/4?p=2"), Some(4));
    assert_eq!(page_number("https://x.test/list?Page=6"), Some(6));
    assert_eq!(page_number("https://x.test/7?step=5"), Some(7));
}
