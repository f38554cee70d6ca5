//! Link drawer / semantic fast-navigation scoring.
//!
//! Scores candidate links for a fixed set of navigation slots using rel signals, URL
//! page-number deltas, link text and glyph heuristics, landmark membership, position,
//! and negative-word / off-origin penalties.

use vstd::prelude::*;
use crate::engine::{DomPosition, LinkInfo};
use crate::text::{
    ascii_lower, chars_of, contains, contains_seq, find, find_from, find_seq,
    lemma_find_from_result, matches_at, seq_eq, slice_of, to_ascii_lower,
};

verus! {

broadcast use vstd::string::group_string_axioms;

// ------------------------------------------------------------------- page numbers

pub open spec fn is_digit(c: char) -> bool {
    '0' <= c <= '9'
}

/// Index of the first non-digit at or after `i` (or the length).
pub open spec fn digit_run_end(s: Seq<char>, i: int) -> int
    decreases s.len() - i,
{
    if 0 <= i < s.len() && is_digit(s[i]) {
        digit_run_end(s, i + 1)
    } else {
        i
    }
}

/// Decimal value of a run of digits.
pub open spec fn digits_value(d: Seq<char>) -> int
    decreases d.len(),
{
    if d.len() == 0 {
        0
    } else {
        digits_value(d.drop_last()) * 10 + (d.last() as int - '0' as int)
    }
}

pub open spec fn all_digits(d: Seq<char>) -> bool {
    forall|i: int| 0 <= i < d.len() ==> is_digit(#[trigger] d[i])
}

/// `str::parse::<i64>` of a run of ASCII digits: the value when the run is non-empty and
/// the value fits in an `i64`.
pub open spec fn parse_digits(d: Seq<char>) -> Option<i64> {
    if d.len() > 0 && all_digits(d) && digits_value(d) <= i64::MAX {
        Some(digits_value(d) as i64)
    } else {
        None
    }
}

proof fn lemma_digits_value_nonneg(d: Seq<char>)
    requires
        all_digits(d),
    ensures
        digits_value(d) >= 0,
    decreases d.len(),
{
    if d.len() > 0 {
        lemma_digits_value_nonneg(d.drop_last());
        assert(is_digit(d[d.len() - 1]));
    }
}

proof fn lemma_digits_value_prefix_grows(d: Seq<char>, i: int, j: int)
    requires
        all_digits(d),
        0 <= i <= j <= d.len(),
    ensures
        digits_value(d.take(i)) <= digits_value(d.take(j)),
    decreases j - i,
{
    if i < j {
        lemma_digits_value_prefix_grows(d, i, j - 1);
        assert(d.take(j).drop_last() == d.take(j - 1));
        assert(is_digit(d[j - 1]));
        lemma_digits_value_nonneg(d.take(j - 1));
    }
}

/// Parse a run of ASCII digits as `str::parse::<i64>` does.
fn parse_i64(d: &[char]) -> (r: Option<i64>)
    requires
        all_digits(d@),
    ensures
        r == parse_digits(d@),
{
    let n = d.len();
    if n == 0 {
        return None;
    }
    let mut val: u128 = 0;
    let mut i: usize = 0;
    while i < n
        invariant
            n == d@.len(),
            all_digits(d@),
            i <= n,
            val == digits_value(d@.take(i as int)),
            val <= i64::MAX,
        decreases n - i,
    {
        assert(is_digit(d@[i as int]));
        let digit = (d[i] as u32 - '0' as u32) as u128;
        let next = val * 10 + digit;
        proof {
            assert(d@.take(i + 1).drop_last() == d@.take(i as int));
        }
        if next > i64::MAX as u128 {
            proof {
                lemma_digits_value_prefix_grows(d@, i + 1, n as int);
                assert(d@.take(n as int) == d@);
            }
            return None;
        }
        val = next;
        i += 1;
    }
    proof {
        assert(d@.take(n as int) == d@);
    }
    Some(val as i64)
}

/// End of the digit run of `s` starting at `from`.
fn digit_run(s: &[char], from: usize) -> (e: usize)
    requires
        from <= s@.len(),
    ensures
        e == digit_run_end(s@, from as int),
        from <= e <= s@.len(),
        all_digits(s@.subrange(from as int, e as int)),
        e < s@.len() ==> !is_digit(s@[e as int]),
{
    let mut i = from;
    while i < s.len() && '0' <= s[i] && s[i] <= '9'
        invariant
            from <= i <= s@.len(),
            digit_run_end(s@, i as int) == digit_run_end(s@, from as int),
            all_digits(s@.subrange(from as int, i as int)),
        decreases s@.len() - i,
    {
        assert(s@.subrange(from as int, i + 1) == s@.subrange(from as int, i as int).push(
            s@[i as int],
        ));
        i += 1;
    }
    i
}

/// The number following the first occurrence of `key` (matched without regard to ASCII
/// case) in a URL, when digits follow it and fit an `i64`.
pub open spec fn key_number(url: Seq<char>, key: Seq<char>) -> Option<i64> {
    match find(ascii_lower(url), key) {
        None => None,
        Some(pos) => {
            let start = pos + key.len();
            parse_digits(url.subrange(start, digit_run_end(url, start)))
        },
    }
}

fn key_number_of(url: &[char], lower: &[char], key: &[char]) -> (r: Option<i64>)
    requires
        lower@ == ascii_lower(url@),
    ensures
        r == key_number(url@, key@),
{
    match find_seq(lower, key) {
        None => None,
        Some(pos) => {
            proof {
                lemma_find_from_result(lower@, key@, 0);
                assert(find_from(lower@, key@, 0) == Some(pos as int));
            }
            let ulen = url.len();
            let start = pos + key.len();
            let end = digit_run(url, start);
            let digits = slice_of(url, start, end);
            parse_i64(&digits)
        },
    }
}

/// First position at or after `i` where `key` occurs right after a `?` or `&`, that is,
/// where `key` begins a query parameter.
pub open spec fn param_pos_from(s: Seq<char>, key: Seq<char>, i: int) -> Option<int>
    decreases s.len() + 1 - i,
{
    if i < 0 || i + key.len() > s.len() {
        None
    } else if i >= 1 && (s[i - 1] == '?' || s[i - 1] == '&') && s.subrange(i, i + key.len())
        == key {
        Some(i)
    } else {
        param_pos_from(s, key, i + 1)
    }
}

proof fn lemma_param_pos_result(s: Seq<char>, key: Seq<char>, i: int)
    ensures
        param_pos_from(s, key, i) matches Some(p) ==> {
            &&& i <= p
            &&& 1 <= p
            &&& p + key.len() <= s.len()
        },
    decreases s.len() + 1 - i,
{
    if !(i < 0 || i + key.len() > s.len()) {
        if !(i >= 1 && (s[i - 1] == '?' || s[i - 1] == '&') && s.subrange(i, i + key.len())
            == key) {
            lemma_param_pos_result(s, key, i + 1);
        }
    }
}

/// The number given to the query parameter `key` (a name followed by `=`, matched without
/// regard to ASCII case) at its first occurrence, when digits follow it and fit an `i64`.
pub open spec fn query_number(url: Seq<char>, key: Seq<char>) -> Option<i64> {
    match param_pos_from(ascii_lower(url), key, 0) {
        None => None,
        Some(pos) => {
            let start = pos + key.len();
            parse_digits(url.subrange(start, digit_run_end(url, start)))
        },
    }
}

fn param_pos(s: &[char], key: &[char]) -> (r: Option<usize>)
    requires
        key@.len() > 0,
    ensures
        r matches Some(p) ==> param_pos_from(s@, key@, 0) == Some(p as int),
        r is None ==> param_pos_from(s@, key@, 0) is None,
{
    let n = s.len();
    let k = key.len();
    let mut i: usize = 0;
    while k <= n - i
        invariant
            n == s@.len(),
            k == key@.len(),
            k > 0,
            i <= n,
            param_pos_from(s@, key@, 0) == param_pos_from(s@, key@, i as int),
        decreases n + 1 - i,
    {
        if i >= 1 && (s[i - 1] == '?' || s[i - 1] == '&') && matches_at(s, key, i) {
            return Some(i);
        }
        i += 1;
    }
    None
}

fn query_number_of(url: &[char], lower: &[char], key: &[char]) -> (r: Option<i64>)
    requires
        lower@ == ascii_lower(url@),
        key@.len() > 0,
    ensures
        r == query_number(url@, key@),
{
    let ll = lower.len();
    match param_pos(lower, key) {
        None => None,
        Some(pos) => {
            proof {
                lemma_param_pos_result(lower@, key@, 0);
                assert(lower@.len() == url@.len());
                assert(pos + key@.len() <= ll);
            }
            let start = pos + key.len();
            let end = digit_run(url, start);
            let digits = slice_of(url, start, end);
            parse_i64(&digits)
        },
    }
}

/// Index of the first `?` or `#` at or after `i` (or the length): where the path of a
/// URL ends.
pub open spec fn path_end(s: Seq<char>, i: int) -> int
    decreases s.len() - i,
{
    if 0 <= i < s.len() && s[i] != '?' && s[i] != '#' {
        path_end(s, i + 1)
    } else {
        i
    }
}

/// Length of `s.take(j)` once trailing `/` characters are dropped.
pub open spec fn trim_slashes_end(s: Seq<char>, j: int) -> int
    decreases j,
{
    if 0 < j <= s.len() && s[j - 1] == '/' {
        trim_slashes_end(s, j - 1)
    } else {
        j
    }
}

/// Start of the last `/`-separated segment of `s.take(j)`: one past its last `/`, or 0.
pub open spec fn segment_start(s: Seq<char>, j: int) -> int
    decreases j,
{
    if 0 < j <= s.len() && s[j - 1] != '/' {
        segment_start(s, j - 1)
    } else {
        j
    }
}

/// The trailing path segment of a URL: the path (before any `?` or `#`) with trailing
/// slashes dropped, after its last remaining `/`.
pub open spec fn last_segment(url: Seq<char>) -> Seq<char> {
    let p = path_end(url, 0);
    let t = trim_slashes_end(url, p);
    url.subrange(segment_start(url, t), t)
}

/// The trailing path segment's value, when it is a non-empty run of digits that fits an
/// `i64`.
pub open spec fn trailing_number(url: Seq<char>) -> Option<i64> {
    let seg = last_segment(url);
    if seg.len() > 0 && all_digits(seg) {
        parse_digits(seg)
    } else {
        None
    }
}

pub open spec fn page_eq_key() -> Seq<char> {
    seq!['p', 'a', 'g', 'e', '=']
}

pub open spec fn page_path_key() -> Seq<char> {
    seq!['/', 'p', 'a', 'g', 'e', '/']
}

/// Page number of a URL: the value of a `page=` query parameter (a parameter name right
/// after `?` or `&`), else the number after a `/page/` path part (each at its first
/// occurrence), else the trailing integer path segment.
pub open spec fn spec_page_number(url: Seq<char>) -> Option<i64> {
    if query_number(url, page_eq_key()) is Some {
        query_number(url, page_eq_key())
    } else if key_number(url, page_path_key()) is Some {
        key_number(url, page_path_key())
    } else {
        trailing_number(url)
    }
}

fn page_number_chars(url: &[char]) -> (r: Option<i64>)
    ensures
        r == spec_page_number(url@),
{
    let lower = to_ascii_lower(url);
    let k1 = ['p', 'a', 'g', 'e', '='];
    let k2 = ['/', 'p', 'a', 'g', 'e', '/'];
    proof {
        assert(k1@ == page_eq_key());
        assert(k2@ == page_path_key());
    }
    if let Some(n) = query_number_of(url, &lower, &k1) {
        return Some(n);
    }
    if let Some(n) = key_number_of(url, &lower, &k2) {
        return Some(n);
    }
    // Trailing integer path segment, e.g. /articles/12
    let mut p: usize = 0;
    while p < url.len() && url[p] != '?' && url[p] != '#'
        invariant
            p <= url@.len(),
            path_end(url@, p as int) == path_end(url@, 0),
        decreases url@.len() - p,
    {
        p += 1;
    }
    let mut t = p;
    while t > 0 && url[t - 1] == '/'
        invariant
            t <= p <= url@.len(),
            trim_slashes_end(url@, t as int) == trim_slashes_end(url@, p as int),
        decreases t,
    {
        t -= 1;
    }
    let mut s = t;
    while s > 0 && url[s - 1] != '/'
        invariant
            s <= t <= url@.len(),
            segment_start(url@, s as int) == segment_start(url@, t as int),
        decreases s,
    {
        s -= 1;
    }
    if s == t {
        return None;
    }
    let seg = slice_of(url, s, t);
    let e = digit_run(&seg, 0);
    if e < seg.len() {
        proof {
            assert(!is_digit(seg@[e as int]));
        }
        return None;
    }
    proof {
        assert(seg@.subrange(0, e as int) == seg@);
    }
    parse_i64(&seg)
}

/// Extract a page number from a URL: `?page=N` (or `&page=N`), `/page/N`, or a trailing
/// path integer.
pub fn page_number(url: &str) -> (r: Option<i64>)
    ensures
        r == spec_page_number(url@),
{
    let chars = chars_of(url);
    page_number_chars(&chars)
}

// ---------------------------------------------------------------------------- slots

/// A navigation slot the drawer resolves and exposes as a direct-jump target.
#[derive(Clone, Copy, Debug, PartialEq, Eq, Structural)]
pub enum NavSlot {
    Next,
    Prev,
    Up,
    Home,
    Contents,
    Top,
    Close,
}

/// Recognised rel tokens for a slot (including legacy synonyms).
pub open spec fn spec_rel_tokens(slot: NavSlot) -> Seq<Seq<char>> {
    match slot {
        NavSlot::Next => seq!["next"@],
        NavSlot::Prev => seq!["prev"@, "previous"@],
        NavSlot::Up => seq!["up"@, "parent"@],
        NavSlot::Home => seq!["home"@, "start"@, "begin"@],
        NavSlot::Contents => seq!["contents"@, "index"@, "toc"@],
        NavSlot::Top => seq![],
        NavSlot::Close => seq![],
    }
}

/// Positive text keywords (lower-case substrings) for a slot.
pub open spec fn spec_text_words(slot: NavSlot) -> Seq<Seq<char>> {
    match slot {
        NavSlot::Next => seq!["next"@, "continue"@, "weiter"@, "older"@, "more"@],
        NavSlot::Prev => seq!["prev"@, "previous"@, "earlier"@, "newer"@, "back"@],
        NavSlot::Up => seq!["up"@, "parent"@],
        NavSlot::Home => seq!["home"@, "start"@, "index"@],
        NavSlot::Contents => seq!["contents"@, "table of contents"@, "toc"@, "index"@],
        NavSlot::Top => seq!["top"@, "back to top"@],
        NavSlot::Close => seq!["close"@, "dismiss"@],
    }
}

/// Directional glyphs hinting a slot.
pub open spec fn spec_glyphs(slot: NavSlot) -> Seq<char> {
    match slot {
        NavSlot::Next => seq!['\u{bb}', '\u{203a}', '\u{2192}', '>'],
        NavSlot::Prev => seq!['\u{ab}', '\u{2039}', '\u{2190}', '<'],
        _ => seq![],
    }
}

/// Words whose presence in a link's text marks it as not navigational.
pub open spec fn spec_negative_words() -> Seq<Seq<char>> {
    seq!["comment"@, "login"@, "sign in"@, "signup"@, "sign up"@, "share"@, "tag"@, "print"@]
}

pub open spec fn views(v: Seq<&str>) -> Seq<Seq<char>> {
    v.map_values(|s: &str| s@)
}

impl NavSlot {
    fn rel_tokens(self) -> (r: Vec<&'static str>)
        ensures
            views(r@) == spec_rel_tokens(self),
    {
        let r = match self {
            NavSlot::Next => vec!["next"],
            NavSlot::Prev => vec!["prev", "previous"],
            NavSlot::Up => vec!["up", "parent"],
            NavSlot::Home => vec!["home", "start", "begin"],
            NavSlot::Contents => vec!["contents", "index", "toc"],
            NavSlot::Top => vec![],
            NavSlot::Close => vec![],
        };
        assert(views(r@) =~= spec_rel_tokens(self));
        r
    }

    fn text_words(self) -> (r: Vec<&'static str>)
        ensures
            views(r@) == spec_text_words(self),
    {
        let r = match self {
            NavSlot::Next => vec!["next", "continue", "weiter", "older", "more"],
            NavSlot::Prev => vec!["prev", "previous", "earlier", "newer", "back"],
            NavSlot::Up => vec!["up", "parent"],
            NavSlot::Home => vec!["home", "start", "index"],
            NavSlot::Contents => vec!["contents", "table of contents", "toc", "index"],
            NavSlot::Top => vec!["top", "back to top"],
            NavSlot::Close => vec!["close", "dismiss"],
        };
        assert(views(r@) =~= spec_text_words(self));
        r
    }

    fn glyphs(self) -> (r: Vec<char>)
        ensures
            r@ == spec_glyphs(self),
    {
        let r = match self {
            NavSlot::Next => vec!['\u{bb}', '\u{203a}', '\u{2192}', '>'],
            NavSlot::Prev => vec!['\u{ab}', '\u{2039}', '\u{2190}', '<'],
            _ => vec![],
        };
        assert(r@ =~= spec_glyphs(self));
        r
    }
}

fn negative_words() -> (r: Vec<&'static str>)
    ensures
        views(r@) == spec_negative_words(),
{
    let r = vec!["comment", "login", "sign in", "signup", "sign up", "share", "tag", "print"];
    assert(views(r@) =~= spec_negative_words());
    r
}

/// Score weights.
const W_REL: i32 = 100;

const W_URL_DELTA: i32 = 40;

const W_TEXT: i32 = 30;

const W_GLYPH: i32 = 15;

const W_LANDMARK: i32 = 15;

const W_POSITION: i32 = 10;

const W_NEGATIVE: i32 = 50;

const W_OFFHOST: i32 = 30;

/// Some word of `words` occurs in `text`.
pub open spec fn any_word_in(words: Seq<Seq<char>>, text: Seq<char>) -> bool {
    exists|j: int| 0 <= j < words.len() && contains(text, #[trigger] words[j])
}

/// Some character of `text` is one of `glyphs`.
pub open spec fn has_glyph(glyphs: Seq<char>, text: Seq<char>) -> bool {
    exists|i: int| 0 <= i < text.len() && glyphs.contains(#[trigger] text[i])
}

/// Some rel token of the link is one of the slot's tokens.
pub open spec fn rel_matches(tokens: Seq<Seq<char>>, rels: Seq<Seq<char>>) -> bool {
    exists|i: int, j: int| 0 <= i < rels.len() && 0 <= j < tokens.len() && #[trigger] rels[i]
        == #[trigger] tokens[j]
}

pub open spec fn rel_views(link: LinkInfo) -> Seq<Seq<char>> {
    link.rel@.map_values(|r: String| r@)
}

/// The candidate URL is the current URL with its page number moved one step in the
/// slot's direction (for next/prev only).
pub open spec fn url_delta_matches(slot: NavSlot, href: Seq<char>, current: Seq<char>) -> bool {
    (slot == NavSlot::Next || slot == NavSlot::Prev) && match (
        spec_page_number(current),
        spec_page_number(href),
    ) {
        (Some(cur), Some(cand)) => cand == if slot == NavSlot::Next {
            cur + 1
        } else {
            cur - 1
        },
        _ => false,
    }
}

/// The link sits where the slot's target is expected: next at the bottom, prev/up at the
/// top.
pub open spec fn position_matches(slot: NavSlot, pos: DomPosition) -> bool {
    ||| slot == NavSlot::Next && pos == DomPosition::Bottom
    ||| (slot == NavSlot::Prev || slot == NavSlot::Up) && pos == DomPosition::Top
}

pub open spec fn bonus(b: bool, w: int) -> int {
    if b {
        w
    } else {
        0
    }
}

/// The score of a candidate link for a slot: the sum of the weights of the signals that
/// hold, less the penalties that apply.
pub open spec fn spec_score(slot: NavSlot, link: LinkInfo, current: Seq<char>) -> int {
    let text_lower = ascii_lower(link.text@);
    bonus(rel_matches(spec_rel_tokens(slot), rel_views(link)), 100) + bonus(
        url_delta_matches(slot, link.href@, current),
        40,
    ) + bonus(any_word_in(spec_text_words(slot), text_lower), 30) + bonus(
        has_glyph(spec_glyphs(slot), link.text@),
        15,
    ) + bonus(link.in_nav, 15) + bonus(position_matches(slot, link.position), 10) - bonus(
        any_word_in(spec_negative_words(), text_lower),
        50,
    ) - bonus(!link.same_origin, 30)
}

/// Scoring is defined without overflow: a "next" step from the largest representable page
/// number cannot be computed.
pub open spec fn score_computable(slot: NavSlot, link: LinkInfo, current: Seq<char>) -> bool {
    !(slot == NavSlot::Next && spec_page_number(current) == Some(i64::MAX) && spec_page_number(
        link.href@,
    ) is Some)
}

fn text_matches(words: &Vec<&'static str>, text_lower: &[char]) -> (b: bool)
    ensures
        b == any_word_in(views(words@), text_lower@),
{
    let n = words.len();
    for j in 0..n
        invariant
            n == words@.len(),
            forall|k: int| 0 <= k < j ==> !contains(text_lower@, #[trigger] views(words@)[k]),
    {
        let w = chars_of(words[j]);
        if contains_seq(text_lower, &w) {
            assert(views(words@)[j as int] == w@);
            return true;
        }
    }
    proof {
        assert forall|k: int| 0 <= k < views(words@).len() implies !contains(
            text_lower@,
            #[trigger] views(words@)[k],
        ) by {}
    }
    false
}

fn rel_match(tokens: &Vec<&'static str>, rels: &Vec<String>) -> (b: bool)
    ensures
        b == rel_matches(views(tokens@), rels@.map_values(|r: String| r@)),
{
    let ghost rv = rels@.map_values(|r: String| r@);
    let ghost tv = views(tokens@);
    let n = rels.len();
    let m = tokens.len();
    for i in 0..n
        invariant
            n == rels@.len(),
            m == tokens@.len(),
            rv == rels@.map_values(|r: String| r@),
            tv == views(tokens@),
            forall|a: int, b: int| 0 <= a < i && 0 <= b < m ==> #[trigger] rv[a] != #[trigger] tv[b],
    {
        let r = chars_of(rels[i].as_str());
        for j in 0..m
            invariant
                n == rels@.len(),
                m == tokens@.len(),
                i < n,
                rv == rels@.map_values(|r: String| r@),
                tv == views(tokens@),
                r@ == rv[i as int],
                forall|a: int, b: int|
                    0 <= a < i && 0 <= b < m ==> #[trigger] rv[a] != #[trigger] tv[b],
                forall|b: int| 0 <= b < j ==> rv[i as int] != #[trigger] tv[b],
        {
            let t = chars_of(tokens[j]);
            if seq_eq(&r, &t) {
                assert(rv[i as int] == tv[j as int]);
                return true;
            }
        }
    }
    false
}

fn has_any_glyph(glyphs: &Vec<char>, text: &[char]) -> (b: bool)
    ensures
        b == has_glyph(glyphs@, text@),
{
    let n = text.len();
    for i in 0..n
        invariant
            n == text@.len(),
            forall|k: int| 0 <= k < i ==> !glyphs@.contains(#[trigger] text@[k]),
    {
        let c = text[i];
        let m = glyphs.len();
        for j in 0..m
            invariant
                m == glyphs@.len(),
                n == text@.len(),
                i < n,
                c == text@[i as int],
                forall|b: int| 0 <= b < j ==> glyphs@[b] != c,
        {
            if glyphs[j] == c {
                assert(glyphs@.contains(text@[i as int]));
                return true;
            }
        }
    }
    false
}

/// Score one candidate link for a slot, given the current document URL.
pub fn score(slot: NavSlot, link: &LinkInfo, current_url: &str) -> (s: i32)
    requires
        score_computable(slot, *link, current_url@),
    ensures
        s == spec_score(slot, *link, current_url@),
{
    let text = chars_of(link.text.as_str());
    let text_lower = to_ascii_lower(&text);
    let mut s: i32 = 0;

    // rel (decisive when present)
    if rel_match(&slot.rel_tokens(), &link.rel) {
        s += W_REL;
    }
    // URL page-number delta for next/prev
    let mut delta = false;
    match slot {
        NavSlot::Next | NavSlot::Prev => {
            let href = chars_of(link.href.as_str());
            let cur_url = chars_of(current_url);
            match (page_number_chars(&cur_url), page_number_chars(&href)) {
                (Some(cur), Some(cand)) => {
                    let want = if slot == NavSlot::Next {
                        cur + 1
                    } else {
                        proof {
                            lemma_page_number_nonneg(cur_url@);
                        }
                        cur - 1
                    };
                    if cand == want {
                        delta = true;
                    }
                },
                _ => {},
            }
        },
        _ => {},
    }
    if delta {
        s += W_URL_DELTA;
    }
    // text + glyph heuristics

    if text_matches(&slot.text_words(), &text_lower) {
        s += W_TEXT;
    }
    if has_any_glyph(&slot.glyphs(), &text) {
        s += W_GLYPH;
    }
    // landmark + position

    if link.in_nav {
        s += W_LANDMARK;
    }
    match (slot, link.position) {
        (NavSlot::Next, DomPosition::Bottom) => s += W_POSITION,
        (NavSlot::Prev, DomPosition::Top) | (NavSlot::Up, DomPosition::Top) => s += W_POSITION,
        _ => {},
    }
    // penalties

    if text_matches(&negative_words(), &text_lower) {
        s -= W_NEGATIVE;
    }
    if !link.same_origin {
        s -= W_OFFHOST;
    }
    s
}

/// `links[k]` is the link that the drawer picks: it reaches the threshold, no link scores
/// higher, and every later link scores lower (ties go to the last).
pub open spec fn is_best(
    slot: NavSlot,
    links: Seq<LinkInfo>,
    current: Seq<char>,
    threshold: int,
    k: int,
) -> bool {
    &&& 0 <= k < links.len()
    &&& spec_score(slot, links[k], current) >= threshold
    &&& forall|j: int|
        0 <= j < links.len() ==> #[trigger] spec_score(slot, links[j], current) <= spec_score(
            slot,
            links[k],
            current,
        )
    &&& forall|j: int|
        k < j < links.len() ==> #[trigger] spec_score(slot, links[j], current) < spec_score(
            slot,
            links[k],
            current,
        )
}

/// Pick the best candidate for a slot above a minimum confidence threshold.
pub fn pick_best<'a>(slot: NavSlot, links: &'a [LinkInfo], current_url: &str, threshold: i32) -> (r:
    Option<&'a LinkInfo>)
    requires
        forall|i: int|
            0 <= i < links@.len() ==> score_computable(slot, #[trigger] links@[i], current_url@),
    ensures
        r is None <==> forall|i: int|
            0 <= i < links@.len() ==> #[trigger] spec_score(slot, links@[i], current_url@)
                < threshold,
        r matches Some(l) ==> exists|k: int|
            is_best(slot, links@, current_url@, threshold as int, k) && *l == #[trigger] links@[k],
{
    let n = links.len();
    let mut best: Option<usize> = None;
    let mut best_score: i32 = 0;
    for i in 0..n
        invariant
            n == links@.len(),
            forall|j: int|
                0 <= j < links@.len() ==> score_computable(slot, #[trigger] links@[j], current_url@),
            best is None ==> forall|j: int|
                0 <= j < i ==> #[trigger] spec_score(slot, links@[j], current_url@) < threshold,
            best matches Some(k) ==> {
                &&& k < i
                &&& best_score == spec_score(slot, links@[k as int], current_url@)
                &&& best_score >= threshold
                &&& forall|j: int|
                    0 <= j < i ==> #[trigger] spec_score(slot, links@[j], current_url@)
                        <= best_score
                &&& forall|j: int|
                    k < j < i ==> #[trigger] spec_score(slot, links@[j], current_url@)
                        < best_score
            },
    {
        let s = score(slot, &links[i], current_url);
        if s >= threshold {
            match best {
                None => {
                    best = Some(i);
                    best_score = s;
                },
                Some(_) => {
                    if s >= best_score {
                        best = Some(i);
                        best_score = s;
                    }
                },
            }
        }
    }
    match best {
        None => None,
        Some(k) => {
            assert(is_best(slot, links@, current_url@, threshold as int, k as int));
            Some(&links[k])
        },
    }
}

/// The number after a run of digits starting at `start` is never negative.
proof fn lemma_digit_run_nonneg(url: Seq<char>, start: int)
    ensures
        parse_digits(url.subrange(start, digit_run_end(url, start))) matches Some(n) ==> n >= 0,
{
    let d = url.subrange(start, digit_run_end(url, start));
    if parse_digits(d) is Some {
        lemma_digits_value_nonneg(d);
    }
}

proof fn lemma_page_number_nonneg(url: Seq<char>)
    ensures
        spec_page_number(url) matches Some(n) ==> n >= 0,
{
    let lower = ascii_lower(url);
    if let Some(pos) = param_pos_from(lower, page_eq_key(), 0) {
        lemma_digit_run_nonneg(url, pos + 5);
    }
    if let Some(pos) = find(lower, page_path_key()) {
        lemma_digit_run_nonneg(url, pos + 6);
    }
    let seg = last_segment(url);
    if seg.len() > 0 && all_digits(seg) {
        lemma_digits_value_nonneg(seg);
    }
}

/// Off-origin links pay exactly the off-host penalty: two links that differ only in being
/// same-origin score 30 apart.
pub proof fn lemma_off_origin_penalty(slot: NavSlot, link: LinkInfo, current: Seq<char>)
    ensures
        spec_score(slot, LinkInfo { same_origin: true, ..link }, current) - spec_score(
            slot,
            LinkInfo { same_origin: false, ..link },
            current,
        ) == 30,
{
}

/// A rel match is decisive: a same-origin link whose rel tokens name the slot and whose
/// text carries no negative word scores at least the rel weight.
pub proof fn lemma_rel_is_decisive(slot: NavSlot, link: LinkInfo, current: Seq<char>)
    requires
        rel_matches(spec_rel_tokens(slot), rel_views(link)),
        link.same_origin,
        !any_word_in(spec_negative_words(), ascii_lower(link.text@)),
    ensures
        spec_score(slot, link, current) >= 100,
{
}

/// Every score lies between the two penalties together (-80) and all the bonuses together
/// (210).
pub proof fn lemma_score_bounds(slot: NavSlot, link: LinkInfo, current: Seq<char>)
    ensures
        -80 <= spec_score(slot, link, current) <= 210,
{
}

proof fn lemma_token_matches(tokens: Seq<Seq<char>>, rels: Seq<Seq<char>>, j: int)
    requires
        0 <= j < tokens.len(),
        rels.contains(tokens[j]),
    ensures
        rel_matches(tokens, rels),
{
    let i = choose|i: int| 0 <= i < rels.len() && rels[i] == tokens[j];
    assert(rels[i] == tokens[j]);
}

/// The rel values of each slot are recognised, legacy synonyms included: `next` for next;
/// `prev` and `previous` for prev; `up` and `parent` for up; `home`, `start` and `begin`
/// for home; `contents`, `index` and `toc` for contents. Top and close have none. A
/// same-origin link with no negative word that carries such a rel value scores at least
/// the rel weight for its slot.
pub proof fn lemma_rel_tokens_recognised(link: LinkInfo, current: Seq<char>)
    ensures
        rel_views(link).contains("next"@) ==> rel_matches(
            spec_rel_tokens(NavSlot::Next),
            rel_views(link),
        ),
        rel_views(link).contains("prev"@) || rel_views(link).contains("previous"@)
            ==> rel_matches(spec_rel_tokens(NavSlot::Prev), rel_views(link)),
        rel_views(link).contains("up"@) || rel_views(link).contains("parent"@) ==> rel_matches(
            spec_rel_tokens(NavSlot::Up),
            rel_views(link),
        ),
        rel_views(link).contains("home"@) || rel_views(link).contains("start"@) || rel_views(
            link,
        ).contains("begin"@) ==> rel_matches(spec_rel_tokens(NavSlot::Home), rel_views(link)),
        rel_views(link).contains("contents"@) || rel_views(link).contains("index"@) || rel_views(
            link,
        ).contains("toc"@) ==> rel_matches(spec_rel_tokens(NavSlot::Contents), rel_views(link)),
        !rel_matches(spec_rel_tokens(NavSlot::Top), rel_views(link)),
        !rel_matches(spec_rel_tokens(NavSlot::Close), rel_views(link)),
        rel_views(link).contains("prev"@) && link.same_origin && !any_word_in(
            spec_negative_words(),
            ascii_lower(link.text@),
        ) ==> spec_score(NavSlot::Prev, link, current) >= 100,
        rel_views(link).contains("next"@) && link.same_origin && !any_word_in(
            spec_negative_words(),
            ascii_lower(link.text@),
        ) ==> spec_score(NavSlot::Next, link, current) >= 100,
{
    let rels = rel_views(link);
    let t = spec_rel_tokens(NavSlot::Next);
    if rels.contains(t[0]) {
        lemma_token_matches(t, rels, 0);
    }
    let t = spec_rel_tokens(NavSlot::Prev);
    if rels.contains(t[0]) {
        lemma_token_matches(t, rels, 0);
    }
    if rels.contains(t[1]) {
        lemma_token_matches(t, rels, 1);
    }
    let t = spec_rel_tokens(NavSlot::Up);
    if rels.contains(t[0]) {
        lemma_token_matches(t, rels, 0);
    }
    if rels.contains(t[1]) {
        lemma_token_matches(t, rels, 1);
    }
    let t = spec_rel_tokens(NavSlot::Home);
    if rels.contains(t[0]) {
        lemma_token_matches(t, rels, 0);
    }
    if rels.contains(t[1]) {
        lemma_token_matches(t, rels, 1);
    }
    if rels.contains(t[2]) {
        lemma_token_matches(t, rels, 2);
    }
    let t = spec_rel_tokens(NavSlot::Contents);
    if rels.contains(t[0]) {
        lemma_token_matches(t, rels, 0);
    }
    if rels.contains(t[1]) {
        lemma_token_matches(t, rels, 1);
    }
    if rels.contains(t[2]) {
        lemma_token_matches(t, rels, 2);
    }
}

proof fn lemma_path_end_at(u: Seq<char>, n: int, i: int)
    requires
        0 <= i <= n < u.len(),
        u[n] == '?' || u[n] == '#',
        forall|k: int| 0 <= k < n ==> u[k] != '?' && u[k] != '#',
    ensures
        path_end(u, i) == n,
    decreases n - i,
{
    if i < n {
        lemma_path_end_at(u, n, i + 1);
    }
}

proof fn lemma_path_end_whole(p: Seq<char>, i: int)
    requires
        0 <= i <= p.len(),
        forall|k: int| 0 <= k < p.len() ==> p[k] != '?' && p[k] != '#',
    ensures
        path_end(p, i) == p.len(),
    decreases p.len() - i,
{
    if i < p.len() {
        lemma_path_end_whole(p, i + 1);
    }
}

proof fn lemma_trim_slashes_prefix(u: Seq<char>, p: Seq<char>, j: int)
    requires
        0 <= j <= p.len() <= u.len(),
        forall|k: int| 0 <= k < p.len() ==> u[k] == p[k],
    ensures
        trim_slashes_end(u, j) == trim_slashes_end(p, j),
    decreases j,
{
    if j > 0 {
        lemma_trim_slashes_prefix(u, p, j - 1);
    }
}

proof fn lemma_segment_start_prefix(u: Seq<char>, p: Seq<char>, j: int)
    requires
        0 <= j <= p.len() <= u.len(),
        forall|k: int| 0 <= k < p.len() ==> u[k] == p[k],
    ensures
        segment_start(u, j) == segment_start(p, j),
    decreases j,
{
    if j > 0 {
        lemma_segment_start_prefix(u, p, j - 1);
    }
}

proof fn lemma_trim_slashes_bounds(s: Seq<char>, j: int)
    requires
        0 <= j <= s.len(),
    ensures
        0 <= trim_slashes_end(s, j) <= j,
    decreases j,
{
    if j > 0 {
        lemma_trim_slashes_bounds(s, j - 1);
    }
}

proof fn lemma_segment_start_bounds(s: Seq<char>, j: int)
    requires
        0 <= j <= s.len(),
    ensures
        0 <= segment_start(s, j) <= j,
    decreases j,
{
    if j > 0 {
        lemma_segment_start_bounds(s, j - 1);
    }
}

/// A URL's path ends at its first `?` or `#`: whatever query or fragment follows a path,
/// the trailing path number is the path's own.
pub proof fn lemma_path_ends_at_query_or_fragment(path: Seq<char>, sep: char, rest: Seq<char>)
    requires
        sep == '?' || sep == '#',
        forall|k: int| 0 <= k < path.len() ==> path[k] != '?' && path[k] != '#',
    ensures
        last_segment(path + seq![sep] + rest) == last_segment(path),
        trailing_number(path + seq![sep] + rest) == trailing_number(path),
{
    let u = path + seq![sep] + rest;
    let n = path.len() as int;
    assert(u[n] == sep);
    assert forall|k: int| 0 <= k < n implies u[k] == path[k] && u[k] != '?' && u[k] != '#' by {
        assert(u[k] == path[k]);
    }
    lemma_path_end_at(u, n, 0);
    lemma_path_end_whole(path, 0);
    lemma_trim_slashes_prefix(u, path, n);
    let t = trim_slashes_end(path, n);
    lemma_trim_slashes_bounds(path, n);
    lemma_segment_start_prefix(u, path, t);
    let st = segment_start(path, t);
    lemma_segment_start_bounds(path, t);
    assert(u.subrange(st, t) == path.subrange(st, t));
}

proof fn lemma_word_found(words: Seq<Seq<char>>, text: Seq<char>, j: int)
    requires
        0 <= j < words.len(),
        contains(text, words[j]),
    ensures
        any_word_in(words, text),
{
}

/// The keyword lists: each slot recognises its words anywhere in the (lower-cased) link
/// text — next: next, continue, weiter, older, more; prev: prev, previous, earlier,
/// newer, back; up: up, parent; home: home, start, index; contents: contents, table of
/// contents, toc, index; top: top, back to top; close: close, dismiss — and the negative
/// words are comment, login, sign in, signup, sign up, share, tag and print.
pub proof fn lemma_keywords_recognised(text: Seq<char>)
    ensures
        contains(text, "next"@) ==> any_word_in(spec_text_words(NavSlot::Next), text),
        contains(text, "continue"@) ==> any_word_in(spec_text_words(NavSlot::Next), text),
        contains(text, "weiter"@) ==> any_word_in(spec_text_words(NavSlot::Next), text),
        contains(text, "older"@) ==> any_word_in(spec_text_words(NavSlot::Next), text),
        contains(text, "more"@) ==> any_word_in(spec_text_words(NavSlot::Next), text),
        contains(text, "prev"@) ==> any_word_in(spec_text_words(NavSlot::Prev), text),
        contains(text, "previous"@) ==> any_word_in(spec_text_words(NavSlot::Prev), text),
        contains(text, "earlier"@) ==> any_word_in(spec_text_words(NavSlot::Prev), text),
        contains(text, "newer"@) ==> any_word_in(spec_text_words(NavSlot::Prev), text),
        contains(text, "back"@) ==> any_word_in(spec_text_words(NavSlot::Prev), text),
        contains(text, "up"@) ==> any_word_in(spec_text_words(NavSlot::Up), text),
        contains(text, "parent"@) ==> any_word_in(spec_text_words(NavSlot::Up), text),
        contains(text, "home"@) ==> any_word_in(spec_text_words(NavSlot::Home), text),
        contains(text, "start"@) ==> any_word_in(spec_text_words(NavSlot::Home), text),
        contains(text, "index"@) ==> any_word_in(spec_text_words(NavSlot::Home), text),
        contains(text, "contents"@) ==> any_word_in(spec_text_words(NavSlot::Contents), text),
        contains(text, "table of contents"@) ==> any_word_in(spec_text_words(NavSlot::Contents), text),
        contains(text, "toc"@) ==> any_word_in(spec_text_words(NavSlot::Contents), text),
        contains(text, "index"@) ==> any_word_in(spec_text_words(NavSlot::Contents), text),
        contains(text, "top"@) ==> any_word_in(spec_text_words(NavSlot::Top), text),
        contains(text, "back to top"@) ==> any_word_in(spec_text_words(NavSlot::Top), text),
        contains(text, "close"@) ==> any_word_in(spec_text_words(NavSlot::Close), text),
        contains(text, "dismiss"@) ==> any_word_in(spec_text_words(NavSlot::Close), text),
        contains(text, "comment"@) ==> any_word_in(spec_negative_words(), text),
        contains(text, "login"@) ==> any_word_in(spec_negative_words(), text),
        contains(text, "sign in"@) ==> any_word_in(spec_negative_words(), text),
        contains(text, "signup"@) ==> any_word_in(spec_negative_words(), text),
        contains(text, "sign up"@) ==> any_word_in(spec_negative_words(), text),
        contains(text, "share"@) ==> any_word_in(spec_negative_words(), text),
        contains(text, "tag"@) ==> any_word_in(spec_negative_words(), text),
        contains(text, "print"@) ==> any_word_in(spec_negative_words(), text),
{
    let t = spec_text_words(NavSlot::Next);
    if contains(text, t[0]) {
        lemma_word_found(t, text, 0);
    }
    if contains(text, t[1]) {
        lemma_word_found(t, text, 1);
    }
    if contains(text, t[2]) {
        lemma_word_found(t, text, 2);
    }
    if contains(text, t[3]) {
        lemma_word_found(t, text, 3);
    }
    if contains(text, t[4]) {
        lemma_word_found(t, text, 4);
    }
    let t = spec_text_words(NavSlot::Prev);
    if contains(text, t[0]) {
        lemma_word_found(t, text, 0);
    }
    if contains(text, t[1]) {
        lemma_word_found(t, text, 1);
    }
    if contains(text, t[2]) {
        lemma_word_found(t, text, 2);
    }
    if contains(text, t[3]) {
        lemma_word_found(t, text, 3);
    }
    if contains(text, t[4]) {
        lemma_word_found(t, text, 4);
    }
    let t = spec_text_words(NavSlot::Up);
    if contains(text, t[0]) {
        lemma_word_found(t, text, 0);
    }
    if contains(text, t[1]) {
        lemma_word_found(t, text, 1);
    }
    let t = spec_text_words(NavSlot::Home);
    if contains(text, t[0]) {
        lemma_word_found(t, text, 0);
    }
    if contains(text, t[1]) {
        lemma_word_found(t, text, 1);
    }
    if contains(text, t[2]) {
        lemma_word_found(t, text, 2);
    }
    let t = spec_text_words(NavSlot::Contents);
    if contains(text, t[0]) {
        lemma_word_found(t, text, 0);
    }
    if contains(text, t[1]) {
        lemma_word_found(t, text, 1);
    }
    if contains(text, t[2]) {
        lemma_word_found(t, text, 2);
    }
    if contains(text, t[3]) {
        lemma_word_found(t, text, 3);
    }
    let t = spec_text_words(NavSlot::Top);
    if contains(text, t[0]) {
        lemma_word_found(t, text, 0);
    }
    if contains(text, t[1]) {
        lemma_word_found(t, text, 1);
    }
    let t = spec_text_words(NavSlot::Close);
    if contains(text, t[0]) {
        lemma_word_found(t, text, 0);
    }
    if contains(text, t[1]) {
        lemma_word_found(t, text, 1);
    }
    let t = spec_negative_words();
    if contains(text, t[0]) {
        lemma_word_found(t, text, 0);
    }
    if contains(text, t[1]) {
        lemma_word_found(t, text, 1);
    }
    if contains(text, t[2]) {
        lemma_word_found(t, text, 2);
    }
    if contains(text, t[3]) {
        lemma_word_found(t, text, 3);
    }
    if contains(text, t[4]) {
        lemma_word_found(t, text, 4);
    }
    if contains(text, t[5]) {
        lemma_word_found(t, text, 5);
    }
    if contains(text, t[6]) {
        lemma_word_found(t, text, 6);
    }
    if contains(text, t[7]) {
        lemma_word_found(t, text, 7);
    }
}

/// The directional glyphs: », ›, → and > hint next; «, ‹, ← and < hint prev; no other
/// slot has glyphs.
pub proof fn lemma_glyphs_recognised(text: Seq<char>, i: int)
    requires
        0 <= i < text.len(),
    ensures
        text[i] == '\u{bb}' || text[i] == '\u{203a}' || text[i] == '\u{2192}' || text[i] == '>'
            ==> has_glyph(spec_glyphs(NavSlot::Next), text),
        text[i] == '\u{ab}' || text[i] == '\u{2039}' || text[i] == '\u{2190}' || text[i] == '<'
            ==> has_glyph(spec_glyphs(NavSlot::Prev), text),
        forall|slot: NavSlot|
            slot != NavSlot::Next && slot != NavSlot::Prev ==> !has_glyph(
                #[trigger] spec_glyphs(slot),
                text,
            ),
{
    let g = spec_glyphs(NavSlot::Next);
    assert(g[0] == '\u{bb}' && g[1] == '\u{203a}' && g[2] == '\u{2192}' && g[3] == '>');
    if g.contains(text[i]) {
        assert(has_glyph(g, text));
    }
    let g = spec_glyphs(NavSlot::Prev);
    assert(g[0] == '\u{ab}' && g[1] == '\u{2039}' && g[2] == '\u{2190}' && g[3] == '<');
    if g.contains(text[i]) {
        assert(has_glyph(g, text));
    }
}

/// Two links that carry the same scoring signals: URL, text, rel values, landmark, origin
/// and position.
pub open spec fn same_link_signals(a: LinkInfo, b: LinkInfo) -> bool {
    &&& a.href@ == b.href@
    &&& a.text@ == b.text@
    &&& rel_views(a) == rel_views(b)
    &&& a.in_nav == b.in_nav
    &&& a.same_origin == b.same_origin
    &&& a.position == b.position
}

/// The landmark weight: a link inside a navigation landmark scores 15 more than the same
/// link outside one.
pub proof fn lemma_landmark_weight(slot: NavSlot, a: LinkInfo, b: LinkInfo, current: Seq<char>)
    requires
        same_link_signals(a, LinkInfo { in_nav: a.in_nav, ..b }),
        a.in_nav,
        !b.in_nav,
    ensures
        spec_score(slot, a, current) - spec_score(slot, b, current) == 15,
{
}

/// The position weight: a next link at the bottom, or a prev or up link at the top,
/// scores 10 more than the same link in the middle; other slots ignore position.
pub proof fn lemma_position_weight(
    slot: NavSlot,
    a: LinkInfo,
    b: LinkInfo,
    current: Seq<char>,
)
    requires
        same_link_signals(a, LinkInfo { position: a.position, ..b }),
        b.position == DomPosition::Middle,
    ensures
        slot == NavSlot::Next && a.position == DomPosition::Bottom ==> spec_score(slot, a, current)
            - spec_score(slot, b, current) == 10,
        (slot == NavSlot::Prev || slot == NavSlot::Up) && a.position == DomPosition::Top
            ==> spec_score(slot, a, current) - spec_score(slot, b, current) == 10,
        slot == NavSlot::Next && a.position == DomPosition::Top ==> spec_score(slot, a, current)
            == spec_score(slot, b, current),
        slot != NavSlot::Next && slot != NavSlot::Prev && slot != NavSlot::Up ==> spec_score(
            slot,
            a,
            current,
        ) == spec_score(slot, b, current),
{
}

/// The page-step weight: for next, a link to page `n + 1` from page `n` scores 40 more
/// than the same link to a URL with no page number; for prev, a link to page `n - 1`
/// does. Other slots ignore page numbers.
pub proof fn lemma_page_step_weight(
    slot: NavSlot,
    a: LinkInfo,
    b: LinkInfo,
    current: Seq<char>,
    n: i64,
)
    requires
        a.text@ == b.text@,
        rel_views(a) == rel_views(b),
        a.in_nav == b.in_nav,
        a.same_origin == b.same_origin,
        a.position == b.position,
        spec_page_number(current) == Some(n),
        spec_page_number(b.href@) is None,
    ensures
        slot == NavSlot::Next && spec_page_number(a.href@) == Some((n + 1) as i64) && n < i64::MAX
            ==> spec_score(slot, a, current) - spec_score(slot, b, current) == 40,
        slot == NavSlot::Prev && spec_page_number(a.href@) == Some((n - 1) as i64) && n > i64::MIN
            ==> spec_score(slot, a, current) - spec_score(slot, b, current) == 40,
        slot == NavSlot::Next && spec_page_number(a.href@) == Some(n) ==> spec_score(slot, a, current)
            == spec_score(slot, b, current),
        slot != NavSlot::Next && slot != NavSlot::Prev ==> spec_score(slot, a, current)
            == spec_score(slot, b, current),
{
}

/// The text weights: with the rest of the link the same, a slot keyword adds 30, a
/// directional glyph adds 15, and a negative word takes away 50.
pub proof fn lemma_text_weights(slot: NavSlot, a: LinkInfo, b: LinkInfo, current: Seq<char>)
    requires
        a.href@ == b.href@,
        rel_views(a) == rel_views(b),
        a.in_nav == b.in_nav,
        a.same_origin == b.same_origin,
        a.position == b.position,
    ensures
        ({
            let la = ascii_lower(a.text@);
            let lb = ascii_lower(b.text@);
            &&& any_word_in(spec_text_words(slot), la) && !any_word_in(spec_text_words(slot), lb)
                && has_glyph(spec_glyphs(slot), a.text@) == has_glyph(spec_glyphs(slot), b.text@)
                && any_word_in(spec_negative_words(), la) == any_word_in(spec_negative_words(), lb)
                ==> spec_score(slot, a, current) - spec_score(slot, b, current) == 30
            &&& has_glyph(spec_glyphs(slot), a.text@) && !has_glyph(spec_glyphs(slot), b.text@)
                && any_word_in(spec_text_words(slot), la) == any_word_in(spec_text_words(slot), lb)
                && any_word_in(spec_negative_words(), la) == any_word_in(spec_negative_words(), lb)
                ==> spec_score(slot, a, current) - spec_score(slot, b, current) == 15
            &&& any_word_in(spec_negative_words(), la) && !any_word_in(spec_negative_words(), lb)
                && any_word_in(spec_text_words(slot), la) == any_word_in(spec_text_words(slot), lb)
                && has_glyph(spec_glyphs(slot), a.text@) == has_glyph(spec_glyphs(slot), b.text@)
                ==> spec_score(slot, a, current) - spec_score(slot, b, current) == -50
        }),
{
}

} // verus!
