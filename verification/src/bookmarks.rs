//! Bookmark import from the Netscape Bookmark HTML format that every browser exports.
//!
//! The parser is lenient: the format omits close tags, so `<H3>` opens a folder and
//! descends, `<A HREF>` adds a leaf to the current folder, and `</DL>` closes the current
//! folder. Unclosed `<DT>`/`<DD>` and attribute-case variation are tolerated, and folders
//! still open at the end of the document are folded back into the root.

use vstd::prelude::*;
use crate::text::{
    ascii_lower, chars_of, find, find_char, find_from, find_char_from, find_seq, is_white, is_whitespace,
    lemma_find_char_from_result, lemma_find_from_result, matches_at, seq_eq,
    skip_white, skip_whitespace, slice_of, starts_with, starts_with_seq, string_from, to_ascii_lower,
    trim, trim_chars, trim_start, trim_start_chars,
};

verus! {

/// A node in the bookmark tree.
#[derive(Debug, PartialEq)]
pub enum Node {
    Bookmark(Bookmark),
    Folder(Folder),
}

#[derive(Clone, Debug, PartialEq)]
pub struct Bookmark {
    pub title: String,
    pub url: String,
}

#[derive(Debug, PartialEq, Default)]
pub struct Folder {
    pub name: String,
    pub children: Vec<Node>,
}

/// Mathematical model of a folder: its name and its children, in document order.
pub struct FolderModel {
    pub name: Seq<char>,
    pub children: Seq<NodeModel>,
}

/// Mathematical model of a bookmark-tree node.
pub enum NodeModel {
    Bookmark { title: Seq<char>, url: Seq<char> },
    Folder(FolderModel),
}

pub open spec fn node_model(n: Node) -> NodeModel
    decreases n,
{
    match n {
        Node::Bookmark(b) => NodeModel::Bookmark { title: b.title@, url: b.url@ },
        Node::Folder(f) => NodeModel::Folder(folder_model(f)),
    }
}

pub open spec fn folder_model(f: Folder) -> FolderModel
    decreases f,
{
    FolderModel { name: f.name@, children: nodes_model(f.children@) }
}

pub open spec fn nodes_model(s: Seq<Node>) -> Seq<NodeModel>
    decreases s,
{
    if s.len() == 0 {
        Seq::empty()
    } else {
        nodes_model(s.subrange(0, s.len() - 1)).push(node_model(s[s.len() - 1]))
    }
}

impl View for Folder {
    type V = FolderModel;

    open spec fn view(&self) -> FolderModel {
        folder_model(*self)
    }
}

/// Number of bookmarks in a node, counting through nested folders.
pub open spec fn node_bookmarks(n: NodeModel) -> nat
    decreases n,
{
    match n {
        NodeModel::Bookmark { .. } => 1,
        NodeModel::Folder(f) => nodes_bookmarks(f.children),
    }
}

/// Number of bookmarks in a sequence of nodes, counting through nested folders.
pub open spec fn nodes_bookmarks(s: Seq<NodeModel>) -> nat
    decreases s,
{
    if s.len() == 0 {
        0
    } else {
        nodes_bookmarks(s.subrange(0, s.len() - 1)) + node_bookmarks(s[s.len() - 1])
    }
}

proof fn lemma_nodes_model_push(s: Seq<Node>, n: Node)
    ensures
        nodes_model(s.push(n)) == nodes_model(s).push(node_model(n)),
{
    assert(s.push(n).subrange(0, s.len() as int) == s);
}

proof fn lemma_nodes_model_take(s: Seq<Node>, i: int)
    requires
        0 <= i < s.len(),
    ensures
        nodes_model(s.take(i + 1)) == nodes_model(s.take(i)).push(node_model(s[i])),
{
    assert(s.take(i + 1).subrange(0, i) == s.take(i));
}

proof fn lemma_nodes_bookmarks_prefix(s: Seq<NodeModel>, i: int)
    requires
        0 <= i <= s.len(),
    ensures
        nodes_bookmarks(s.take(i)) <= nodes_bookmarks(s),
    decreases s.len() - i,
{
    if i < s.len() {
        lemma_nodes_bookmarks_prefix(s, i + 1);
        assert(s.take(i + 1).subrange(0, i) == s.take(i));
    } else {
        assert(s.take(i) == s);
    }
}

impl Folder {
    /// Total number of bookmarks (recursively), or `None` when it does not fit a `usize`.
    pub fn checked_bookmark_count(&self) -> (r: Option<usize>)
        ensures
            r is None <==> nodes_bookmarks(self@.children) > usize::MAX,
            r matches Some(n) ==> n == nodes_bookmarks(self@.children),
        decreases self,
    {
        let ghost kids = self.children@;
        let ghost all = nodes_model(kids);
        let mut total: usize = 0;
        let len = self.children.len();
        proof {
            lemma_nodes_model_prefix(kids, 0);
            assert(all.take(0).len() == 0);
        }
        for i in 0..len
            invariant
                len == kids.len(),
                kids == self.children@,
                all == nodes_model(kids),
                total == nodes_bookmarks(all.take(i as int)),
        {
            proof {
                lemma_nodes_model_prefix(kids, i as int);
                lemma_nodes_model_prefix(kids, i + 1);
                lemma_nodes_model_take(kids, i as int);
                lemma_nodes_bookmarks_prefix(all, i + 1);
                assert(all.take(i + 1).subrange(0, i as int) == all.take(i as int));
                assert(all[i as int] == node_model(kids[i as int]));
                assert(all.take(i + 1)[i as int] == all[i as int]);
                assert(nodes_bookmarks(all.take(i + 1)) == nodes_bookmarks(all.take(i as int))
                    + node_bookmarks(all[i as int]));
            }
            let c: usize = match &self.children[i] {
                Node::Bookmark(_) => 1,
                Node::Folder(f) => match f.checked_bookmark_count() {
                    Some(c) => c,
                    None => {
                        return None;
                    },
                },
            };
            match total.checked_add(c) {
                Some(t) => {
                    total = t;
                },
                None => {
                    return None;
                },
            }
        }
        proof {
            lemma_nodes_model_prefix(kids, len as int);
            assert(all.take(len as int) == all);
        }
        Some(total)
    }
}

impl Folder {
    /// Total number of bookmarks (recursively).
    pub fn bookmark_count(&self) -> (n: usize)
        requires
            nodes_bookmarks(self@.children) <= usize::MAX,
        ensures
            n == nodes_bookmarks(self@.children),
        decreases self,
    {
        let ghost kids = self.children@;
        let ghost all = nodes_model(kids);
        let mut total: usize = 0;
        let len = self.children.len();
        proof {
            lemma_nodes_model_prefix(kids, 0);
            assert(all.take(0).len() == 0);
        }
        for i in 0..len
            invariant
                len == kids.len(),
                kids == self.children@,
                all == nodes_model(kids),
                nodes_bookmarks(all) <= usize::MAX,
                total == nodes_bookmarks(all.take(i as int)),
        {
            proof {
                lemma_nodes_model_prefix(kids, i as int);
                lemma_nodes_model_prefix(kids, i + 1);
                lemma_nodes_model_take(kids, i as int);
                lemma_nodes_bookmarks_prefix(all, i + 1);
                assert(all.take(i + 1).subrange(0, i as int) == all.take(i as int));
                assert(all[i as int] == node_model(kids[i as int]));
                assert(all.take(i + 1)[i as int] == all[i as int]);
                assert(nodes_bookmarks(all.take(i + 1)) == nodes_bookmarks(all.take(i as int))
                    + node_bookmarks(all[i as int]));
            }
            match &self.children[i] {
                Node::Bookmark(_) => {
                    total = total + 1;
                },
                Node::Folder(f) => {
                    let c = f.bookmark_count();
                    total = total + c;
                },
            }
        }
        proof {
            lemma_nodes_model_prefix(kids, len as int);
            assert(all.take(len as int) == all);
        }
        total
    }
}

/// A copy of a node, folder by folder.
fn clone_node(n: &Node) -> (r: Node)
    ensures
        node_model(r) == node_model(*n),
    decreases n,
{
    match n {
        Node::Bookmark(b) => Node::Bookmark(Bookmark { title: b.title.clone(), url: b.url.clone() }),
        Node::Folder(f) => Node::Folder(clone_folder(f)),
    }
}

/// A copy of a folder and everything in it.
fn clone_folder(f: &Folder) -> (r: Folder)
    ensures
        r@ == f@,
    decreases f,
{
    let ghost kids = f.children@;
    let mut children: Vec<Node> = Vec::new();
    let len = f.children.len();
    proof {
        lemma_nodes_model_prefix(kids, 0);
    }
    for i in 0..len
        invariant
            len == kids.len(),
            kids == f.children@,
            nodes_model(children@) == nodes_model(kids.take(i as int)),
    {
        let c = clone_node(&f.children[i]);
        proof {
            lemma_nodes_model_push(children@, c);
            lemma_nodes_model_take(kids, i as int);
        }
        children.push(c);
    }
    proof {
        assert(kids.take(len as int) == kids);
    }
    Folder { name: f.name.clone(), children }
}

impl Clone for Node {
    /// A deep copy: the same tree.
    fn clone(&self) -> (r: Node)
        ensures
            node_model(r) == node_model(*self),
    {
        clone_node(self)
    }
}

impl Clone for Folder {
    /// A deep copy: the same tree.
    fn clone(&self) -> (r: Folder)
        ensures
            r@ == self@,
    {
        clone_folder(self)
    }
}

proof fn lemma_nodes_model_prefix(s: Seq<Node>, i: int)
    requires
        0 <= i <= s.len(),
    ensures
        nodes_model(s.take(i)) == nodes_model(s).take(i),
        nodes_model(s).len() == s.len(),
    decreases s.len(),
{
    if s.len() > 0 {
        let init = s.subrange(0, s.len() - 1);
        if i < s.len() {
            lemma_nodes_model_prefix(init, i);
            assert(init.take(i) == s.take(i));
        } else {
            lemma_nodes_model_prefix(init, 0);
            assert(s.take(i) == s);
        }
        assert(nodes_model(s).take(i) == nodes_model(init).push(node_model(s[s.len() - 1])).take(
            i,
        ));
        if i < s.len() {
            assert(nodes_model(init).push(node_model(s[s.len() - 1])).take(i) == nodes_model(
                init,
            ).take(i));
        }
    } else {
        assert(s.take(i) == s);
    }
}

// ----------------------------------------------------------------------------- parsing

/// The entity `e` is spelled out in `s` at position `i`.
pub open spec fn at_entity(s: Seq<char>, i: int, e: Seq<char>) -> bool {
    0 <= i && i + e.len() <= s.len() && s.subrange(i, i + e.len()) == e
}

pub open spec fn amp_entity() -> Seq<char> {
    seq!['&', 'a', 'm', 'p', ';']
}

pub open spec fn lt_entity() -> Seq<char> {
    seq!['&', 'l', 't', ';']
}

pub open spec fn gt_entity() -> Seq<char> {
    seq!['&', 'g', 't', ';']
}

pub open spec fn quot_entity() -> Seq<char> {
    seq!['&', 'q', 'u', 'o', 't', ';']
}

pub open spec fn apos_entity() -> Seq<char> {
    seq!['&', '#', '3', '9', ';']
}

/// `s` from position `i` on, unescaped in one left-to-right pass: a recognised entity
/// becomes its character and reading goes on after it; any other character is kept.
pub open spec fn unescape_from(s: Seq<char>, i: int) -> Seq<char>
    decreases s.len() - i,
{
    if i < 0 || i >= s.len() {
        Seq::empty()
    } else if at_entity(s, i, amp_entity()) {
        seq!['&'] + unescape_from(s, i + 5)
    } else if at_entity(s, i, lt_entity()) {
        seq!['<'] + unescape_from(s, i + 4)
    } else if at_entity(s, i, gt_entity()) {
        seq!['>'] + unescape_from(s, i + 4)
    } else if at_entity(s, i, quot_entity()) {
        seq!['"'] + unescape_from(s, i + 6)
    } else if at_entity(s, i, apos_entity()) {
        seq!['\''] + unescape_from(s, i + 5)
    } else {
        seq![s[i]] + unescape_from(s, i + 1)
    }
}

/// Minimal HTML entity unescaping for the entities bookmark exports use: `&amp;`,
/// `&lt;`, `&gt;`, `&quot;` and `&#39;`, each decoded once, as HTML does (so `&amp;lt;`
/// is the text `&lt;`).
pub open spec fn spec_unescape(s: Seq<char>) -> Seq<char> {
    unescape_from(s, 0)
}

proof fn lemma_unescape_from_plain(s: Seq<char>, i: int)
    requires
        !s.contains('&'),
        0 <= i <= s.len(),
    ensures
        unescape_from(s, i) == s.skip(i),
    decreases s.len() - i,
{
    if i < s.len() {
        assert(s.contains(s[i]));
        assert(s[i] != '&');
        if i + 5 <= s.len() {
            assert(s.subrange(i, i + 5)[0] == s[i]);
        }
        if i + 4 <= s.len() {
            assert(s.subrange(i, i + 4)[0] == s[i]);
        }
        if i + 6 <= s.len() {
            assert(s.subrange(i, i + 6)[0] == s[i]);
        }
        assert(!at_entity(s, i, amp_entity()));
        assert(!at_entity(s, i, lt_entity()));
        assert(!at_entity(s, i, gt_entity()));
        assert(!at_entity(s, i, quot_entity()));
        assert(!at_entity(s, i, apos_entity()));
        lemma_unescape_from_plain(s, i + 1);
        assert(seq![s[i]] + s.skip(i + 1) == s.skip(i));
    } else {
        assert(s.skip(i).len() == 0);
    }
}

proof fn lemma_unescape_from_shift(p: Seq<char>, s: Seq<char>, i: int)
    requires
        0 <= i <= s.len(),
    ensures
        unescape_from(p + s, p.len() + i) == unescape_from(s, i),
    decreases s.len() - i,
{
    let u = p + s;
    let j = p.len() + i;
    if i < s.len() {
        assert forall|e: Seq<char>| #[trigger] at_entity(u, j, e) == at_entity(s, i, e) by {
            if 0 <= i && i + e.len() <= s.len() {
                assert(u.subrange(j, j + e.len()) == s.subrange(i, i + e.len()));
            }
        }
        assert(u[j] == s[i]);
        if at_entity(s, i, amp_entity()) {
            lemma_unescape_from_shift(p, s, i + 5);
        } else if at_entity(s, i, lt_entity()) {
            lemma_unescape_from_shift(p, s, i + 4);
        } else if at_entity(s, i, gt_entity()) {
            lemma_unescape_from_shift(p, s, i + 4);
        } else if at_entity(s, i, quot_entity()) {
            lemma_unescape_from_shift(p, s, i + 6);
        } else if at_entity(s, i, apos_entity()) {
            lemma_unescape_from_shift(p, s, i + 5);
        } else {
            lemma_unescape_from_shift(p, s, i + 1);
        }
    }
}

/// How unescaping reads text, one piece at a time from the left: each of `&amp;`,
/// `&lt;`, `&gt;`, `&quot;` and `&#39;` at the front becomes `&`, `<`, `>`, `"` and `'`
/// and the rest is unescaped on its own (so what an entity decodes to is never read
/// again); any character but `&` at the front is kept as it is.
pub proof fn lemma_unescape_reads_left_to_right(s: Seq<char>, c: char)
    ensures
        spec_unescape(seq!['&', 'a', 'm', 'p', ';'] + s) == seq!['&'] + spec_unescape(s),
        spec_unescape(seq!['&', 'l', 't', ';'] + s) == seq!['<'] + spec_unescape(s),
        spec_unescape(seq!['&', 'g', 't', ';'] + s) == seq!['>'] + spec_unescape(s),
        spec_unescape(seq!['&', 'q', 'u', 'o', 't', ';'] + s) == seq!['"'] + spec_unescape(s),
        spec_unescape(seq!['&', '#', '3', '9', ';'] + s) == seq!['\''] + spec_unescape(s),
        c != '&' ==> spec_unescape(seq![c] + s) == seq![c] + spec_unescape(s),
{
    let u1 = amp_entity() + s;
    assert(u1.subrange(0, 5) == amp_entity());
    lemma_unescape_from_shift(amp_entity(), s, 0);
    let u2 = lt_entity() + s;
    assert(u2.subrange(0, 4) == lt_entity());
    if 5 <= u2.len() {
        assert(u2.subrange(0, 5)[1] == 'l');
    }
    lemma_unescape_from_shift(lt_entity(), s, 0);
    let u3 = gt_entity() + s;
    assert(u3.subrange(0, 4) == gt_entity());
    if 5 <= u3.len() {
        assert(u3.subrange(0, 5)[1] == 'g');
    }
    assert(u3.subrange(0, 4)[1] == 'g');
    lemma_unescape_from_shift(gt_entity(), s, 0);
    let u4 = quot_entity() + s;
    assert(u4.subrange(0, 6) == quot_entity());
    assert(u4.subrange(0, 5)[1] == 'q');
    assert(u4.subrange(0, 4)[1] == 'q');
    lemma_unescape_from_shift(quot_entity(), s, 0);
    let u5 = apos_entity() + s;
    assert(u5.subrange(0, 5) == apos_entity());
    assert(u5.subrange(0, 4)[1] == '#');
    if 6 <= u5.len() {
        assert(u5.subrange(0, 6)[1] == '#');
    }
    lemma_unescape_from_shift(apos_entity(), s, 0);
    let u6 = seq![c] + s;
    if c != '&' {
        if 4 <= u6.len() {
            assert(u6.subrange(0, 4)[0] == c);
        }
        if 5 <= u6.len() {
            assert(u6.subrange(0, 5)[0] == c);
        }
        if 6 <= u6.len() {
            assert(u6.subrange(0, 6)[0] == c);
        }
        lemma_unescape_from_shift(seq![c], s, 0);
    }
}

/// Text without an ampersand holds no entity, and unescaping leaves it as it is.
pub proof fn lemma_unescape_plain_text(s: Seq<char>)
    requires
        !s.contains('&'),
    ensures
        spec_unescape(s) == s,
{
    lemma_unescape_from_plain(s, 0);
    assert(s.skip(0) == s);
}

/// Whether the entity `e` is spelled out in `s` at position `i`.
fn entity_here(s: &[char], i: usize, e: &[char]) -> (b: bool)
    requires
        i <= s@.len(),
    ensures
        b == at_entity(s@, i as int, e@),
{
    e.len() <= s.len() - i && matches_at(s, e, i)
}

fn unescape(s: &[char]) -> (r: Vec<char>)
    ensures
        r@ == spec_unescape(s@),
{
    let amp = ['&', 'a', 'm', 'p', ';'];
    let lt = ['&', 'l', 't', ';'];
    let gt = ['&', 'g', 't', ';'];
    let quot = ['&', 'q', 'u', 'o', 't', ';'];
    let apos = ['&', '#', '3', '9', ';'];
    proof {
        assert(amp@ == amp_entity());
        assert(lt@ == lt_entity());
        assert(gt@ == gt_entity());
        assert(quot@ == quot_entity());
        assert(apos@ == apos_entity());
    }
    let n = s.len();
    let mut out: Vec<char> = Vec::new();
    let mut i: usize = 0;
    while i < n
        invariant
            n == s@.len(),
            i <= n,
            amp@ == amp_entity(),
            lt@ == lt_entity(),
            gt@ == gt_entity(),
            quot@ == quot_entity(),
            apos@ == apos_entity(),
            spec_unescape(s@) == out@ + unescape_from(s@, i as int),
        decreases n - i,
    {
        let ghost before = out@;
        let ghost rest = unescape_from(s@, i as int);
        let c: char;
        let step: usize;
        if entity_here(s, i, &amp) {
            c = '&';
            step = 5;
        } else if entity_here(s, i, &lt) {
            c = '<';
            step = 4;
        } else if entity_here(s, i, &gt) {
            c = '>';
            step = 4;
        } else if entity_here(s, i, &quot) {
            c = '"';
            step = 6;
        } else if entity_here(s, i, &apos) {
            c = '\'';
            step = 5;
        } else {
            c = s[i];
            step = 1;
        }
        assert(rest == seq![c] + unescape_from(s@, i + step));
        out.push(c);
        i = i + step;
        assert(before + rest == out@ + unescape_from(s@, i as int));
    }
    assert(unescape_from(s@, i as int) == Seq::<char>::empty());
    assert(out@ + Seq::<char>::empty() == out@);
    out
}

/// Position of the first whitespace or `>` character of `s` at or after `i` (or the
/// length): the end of an unquoted attribute value.
pub open spec fn unquoted_end(s: Seq<char>, i: int) -> int
    decreases s.len() - i,
{
    if 0 <= i < s.len() && !(is_white(s[i]) || s[i] == '>') {
        unquoted_end(s, i + 1)
    } else {
        i
    }
}

proof fn lemma_unquoted_end_bounds(s: Seq<char>, i: int)
    requires
        0 <= i <= s.len(),
    ensures
        i <= unquoted_end(s, i) <= s.len(),
    decreases s.len() - i,
{
    if i < s.len() && !(is_white(s[i]) || s[i] == '>') {
        lemma_unquoted_end_bounds(s, i + 1);
    }
}

/// The value of attribute `name` (matched without regard to ASCII case) in a tag's inner
/// text: a quoted value up to its closing quote, or an unquoted value up to the next
/// whitespace or `>`, unescaped. `None` when the attribute is absent, has nothing after
/// its `=`, or its quote is never closed.
pub open spec fn spec_extract_attr(tag: Seq<char>, name: Seq<char>) -> Option<Seq<char>> {
    let key = name.push('=');
    match find(ascii_lower(tag), key) {
        None => None,
        Some(k) => {
            let after = trim_start(tag.skip(k + key.len()));
            if after.len() == 0 {
                None
            } else {
                let first = after[0];
                if first == '"' || first == '\'' {
                    let rest = after.skip(1);
                    match find_char_from(rest, first, 0) {
                        None => None,
                        Some(end) => Some(spec_unescape(rest.take(end))),
                    }
                } else {
                    Some(spec_unescape(after.take(unquoted_end(after, 0))))
                }
            }
        },
    }
}

/// An attribute value is taken from the tag as written: in an anchor tag `a NAME="v"...`
/// whose attribute name is `href` in any letter case, the `href` value is exactly `v`,
/// with its letter case kept, whatever follows the closing quote (when `v` holds no
/// quote and no entity).
pub proof fn lemma_href_value_kept(name: Seq<char>, v: Seq<char>, tail: Seq<char>)
    requires
        ascii_lower(name) == seq!['h', 'r', 'e', 'f'],
        !v.contains('"'),
        !v.contains('&'),
    ensures
        spec_extract_attr(
            seq!['a', ' '] + name + seq!['=', '"'] + v + seq!['"'] + tail,
            seq!['h', 'r', 'e', 'f'],
        ) == Some(v),
{
    let tag = seq!['a', ' '] + name + seq!['=', '"'] + v + seq!['"'] + tail;
    let key = seq!['h', 'r', 'e', 'f'].push('=');
    let lower = ascii_lower(tag);
    assert(name.len() == 4);
    assert(lower[0] == 'a');
    assert(lower[1] == ' ');
    assert forall|k: int| 0 <= k < 4 implies lower[2 + k] == ascii_lower(name)[k] by {
        assert(tag[2 + k] == name[k]);
    }
    assert(tag[6] == '=');
    assert(lower[6] == '=');
    assert(lower.subrange(0, 5)[0] == 'a');
    assert(lower.subrange(1, 6)[0] == ' ');
    assert(lower.subrange(2, 7) == key);
    assert(find_from(lower, key, 2) == Some(2int));
    assert(find_from(lower, key, 1) == Some(2int));
    assert(find(lower, key) == Some(2int));
    let rest0 = tag.skip(7);
    assert(rest0 == seq!['"'] + v + seq!['"'] + tail);
    assert(rest0[0] == '"');
    assert(skip_white(rest0, 0) == 0);
    assert(trim_start(rest0) == rest0);
    let rest = rest0.skip(1);
    assert(rest == v + seq!['"'] + tail);
    assert(rest[v.len() as int] == '"');
    lemma_find_char_from_result(rest, '"', 0);
    assert forall|j: int| 0 <= j < v.len() implies rest[j] != '"' by {
        assert(rest[j] == v[j]);
        assert(v.contains(v[j]));
    }
    assert(find_char_from(rest, '"', 0) == Some(v.len() as int));
    assert(rest.take(v.len() as int) == v);
    lemma_unescape_plain_text(v);
}

/// Extract an attribute value (see [`spec_extract_attr`]).
fn extract_attr(tag: &[char], name: &[char]) -> (r: Option<Vec<char>>)
    ensures
        r matches Some(v) ==> spec_extract_attr(tag@, name@) == Some(v@),
        r is None ==> spec_extract_attr(tag@, name@) is None,
{
    let lower = to_ascii_lower(tag);
    let mut key = slice_of(name, 0, name.len());
    key.push('=');
    assert(key@ == name@.push('='));
    let kpos = match find_seq(&lower, &key) {
        Some(k) => k,
        None => return None,
    };
    proof {
        lemma_find_from_result(ascii_lower(tag@), key@, 0);
        assert(lower@ == ascii_lower(tag@));
        assert(find_from(lower@, key@, 0) == Some(kpos as int));
        assert(kpos + key@.len() <= lower@.len());
        assert(lower@.len() == tag@.len());
    }
    let tlen = tag.len();
    let tail = slice_of(tag, kpos + key.len(), tlen);
    let after = trim_start_chars(&tail);
    if after.len() == 0 {
        return None;
    }
    let first = after[0];
    if first == '"' || first == '\'' {
        let rest = slice_of(&after, 1, after.len());
        match find_char(&rest, first, 0) {
            None => None,
            Some(end) => {
                proof {
                    lemma_find_char_from_result(rest@, first, 0);
                }
                let v = slice_of(&rest, 0, end);
                Some(unescape(&v))
            },
        }
    } else {
        let mut end: usize = 0;
        while end < after.len() && !(is_whitespace(after[end]) || after[end] == '>')
            invariant
                end <= after@.len(),
                unquoted_end(after@, end as int) == unquoted_end(after@, 0),
            decreases after@.len() - end,
        {
            end += 1;
        }
        let v = slice_of(&after, 0, end);
        Some(unescape(&v))
    }
}

pub open spec fn empty_folder(name: Seq<char>) -> FolderModel {
    FolderModel { name, children: Seq::empty() }
}

/// `stack` with `n` appended to the children of its top folder.
pub open spec fn add_child(stack: Seq<FolderModel>, n: NodeModel) -> Seq<FolderModel> {
    let top = stack[stack.len() - 1];
    stack.update(stack.len() - 1, FolderModel { name: top.name, children: top.children.push(n) })
}

/// A tag that opens an anchor: `a`, or `a` followed by a space or a tab.
pub open spec fn is_anchor_tag(lower: Seq<char>) -> bool {
    ||| lower == seq!['a']
    ||| starts_with(lower, seq!['a', ' '])
    ||| starts_with(lower, seq!['a', '\t'])
}

/// Effect of one tag, and the text that follows it, on the stack of open folders (the
/// innermost last): `<H3>` opens a folder named by the text; an anchor with an `href`
/// attribute adds a bookmark titled by the text to the innermost folder; `</DL>` closes
/// the innermost folder into its parent unless it is the root. Other tags change nothing.
pub open spec fn apply_tag(stack: Seq<FolderModel>, tag: Seq<char>, text: Seq<char>) -> Seq<
    FolderModel,
> {
    let lower = ascii_lower(trim_start(tag));
    if starts_with(lower, seq!['h', '3']) {
        stack.push(empty_folder(text))
    } else if is_anchor_tag(lower) {
        match spec_extract_attr(tag, seq!['h', 'r', 'e', 'f']) {
            Some(url) => add_child(stack, NodeModel::Bookmark { title: text, url }),
            None => stack,
        }
    } else if starts_with(lower, seq!['/', 'd', 'l']) && stack.len() > 1 {
        add_child(stack.drop_last(), NodeModel::Folder(stack.last()))
    } else {
        stack
    }
}

/// End of the text that follows a tag closing at `gt`: the next `<`, or the end.
pub open spec fn text_end(html: Seq<char>, gt: int) -> int {
    match find_char_from(html, '<', gt + 1) {
        Some(e) => e,
        None => html.len() as int,
    }
}

/// The stack of open folders after reading every tag from position `i` on. A tag runs
/// from a `<` to the next `>`; reading stops at a `<` with no `>` after it.
pub open spec fn parse_from(html: Seq<char>, i: int, stack: Seq<FolderModel>) -> Seq<
    FolderModel,
>
    decreases html.len() - i,
{
    if i < 0 || i >= html.len() {
        stack
    } else {
        match find_char_from(html, '<', i) {
            None => stack,
            Some(lt) => match find_char_from(html, '>', lt + 1) {
                None => stack,
                Some(gt) => {
                    proof {
                        lemma_find_char_from_result(html, '<', i);
                        lemma_find_char_from_result(html, '>', lt + 1);
                        lemma_find_char_from_result(html, '<', gt + 1);
                    }
                    let e = text_end(html, gt);
                    let tag = html.subrange(lt + 1, gt);
                    let text = spec_unescape(trim(html.subrange(gt + 1, e)));
                    parse_from(html, e, apply_tag(stack, tag, text))
                },
            },
        }
    }
}

/// Folds every open folder back into its parent, innermost first.
pub open spec fn close_all(stack: Seq<FolderModel>) -> Seq<FolderModel>
    decreases stack.len(),
{
    if stack.len() > 1 {
        close_all(add_child(stack.drop_last(), NodeModel::Folder(stack.last())))
    } else {
        stack
    }
}

/// The root folder that a Netscape bookmark document describes.
pub open spec fn spec_parse_netscape(html: Seq<char>) -> FolderModel {
    close_all(parse_from(html, 0, seq![empty_folder(Seq::empty())]))[0]
}

/// A tag that the import turns into a bookmark: an anchor with an `href` attribute.
pub open spec fn is_bookmark_tag(tag: Seq<char>) -> bool {
    &&& is_anchor_tag(ascii_lower(trim_start(tag)))
    &&& spec_extract_attr(tag, seq!['h', 'r', 'e', 'f']) is Some
}

/// Number of bookmark tags read from position `i` on, tag by tag as the parser reads them.
pub open spec fn bookmark_tags_from(html: Seq<char>, i: int) -> nat
    decreases html.len() - i,
{
    if i < 0 || i >= html.len() {
        0
    } else {
        match find_char_from(html, '<', i) {
            None => 0,
            Some(lt) => match find_char_from(html, '>', lt + 1) {
                None => 0,
                Some(gt) => {
                    proof {
                        lemma_find_char_from_result(html, '<', i);
                        lemma_find_char_from_result(html, '>', lt + 1);
                        lemma_find_char_from_result(html, '<', gt + 1);
                    }
                    let e = text_end(html, gt);
                    let tag = html.subrange(lt + 1, gt);
                    (if is_bookmark_tag(tag) {
                        1nat
                    } else {
                        0nat
                    }) + bookmark_tags_from(html, e)
                },
            },
        }
    }
}

/// Bookmarks held by a stack of open folders.
pub open spec fn stack_bookmarks(stack: Seq<FolderModel>) -> nat
    decreases stack.len(),
{
    if stack.len() == 0 {
        0
    } else {
        stack_bookmarks(stack.drop_last()) + nodes_bookmarks(stack.last().children)
    }
}

proof fn lemma_nodes_bookmarks_push(s: Seq<NodeModel>, n: NodeModel)
    ensures
        nodes_bookmarks(s.push(n)) == nodes_bookmarks(s) + node_bookmarks(n),
{
    assert(s.push(n).subrange(0, s.len() as int) == s);
}

proof fn lemma_add_child_bookmarks(stack: Seq<FolderModel>, n: NodeModel)
    requires
        stack.len() > 0,
    ensures
        stack_bookmarks(add_child(stack, n)) == stack_bookmarks(stack) + node_bookmarks(n),
        add_child(stack, n).len() == stack.len(),
        add_child(stack, n)[0].name == stack[0].name,
{
    let s2 = add_child(stack, n);
    assert(s2.drop_last() == stack.drop_last());
    lemma_nodes_bookmarks_push(stack.last().children, n);
}

/// Each tag changes the bookmarks held by the open folders by one for a bookmark tag and
/// by none otherwise, and never empties the stack.
proof fn lemma_apply_tag_bookmarks(stack: Seq<FolderModel>, tag: Seq<char>, text: Seq<char>)
    requires
        stack.len() > 0,
    ensures
        stack_bookmarks(apply_tag(stack, tag, text)) == stack_bookmarks(stack) + if is_bookmark_tag(
            tag,
        ) {
            1nat
        } else {
            0nat
        },
        apply_tag(stack, tag, text).len() > 0,
        apply_tag(stack, tag, text)[0].name == stack[0].name,
{
    let lower = ascii_lower(trim_start(tag));
    if starts_with(lower, seq!['h', '3']) {
        let s2 = stack.push(empty_folder(text));
        assert(s2.drop_last() == stack);
        assert(nodes_bookmarks(empty_folder(text).children) == 0);
        assert(!is_anchor_tag(lower)) by {
            assert(lower[0] == 'h');
            if lower == seq!['a'] {
                assert(lower[0] == 'a');
            }
            if starts_with(lower, seq!['a', ' ']) {
                assert(lower.take(2)[0] == 'a');
            }
            if starts_with(lower, seq!['a', '\t']) {
                assert(lower.take(2)[0] == 'a');
            }
        }
    } else if is_anchor_tag(lower) {
        match spec_extract_attr(tag, seq!['h', 'r', 'e', 'f']) {
            Some(url) => {
                lemma_add_child_bookmarks(stack, NodeModel::Bookmark { title: text, url });
            },
            None => {},
        }
    } else if starts_with(lower, seq!['/', 'd', 'l']) && stack.len() > 1 {
        let dl = stack.drop_last();
        lemma_add_child_bookmarks(dl, NodeModel::Folder(stack.last()));
        assert(dl[0] == stack[0]);
    }
}

/// Reading the rest of the document adds one bookmark per bookmark tag.
proof fn lemma_parse_from_bookmarks(html: Seq<char>, i: int, stack: Seq<FolderModel>)
    requires
        stack.len() > 0,
    ensures
        stack_bookmarks(parse_from(html, i, stack)) == stack_bookmarks(stack) + bookmark_tags_from(
            html,
            i,
        ),
        parse_from(html, i, stack).len() > 0,
        parse_from(html, i, stack)[0].name == stack[0].name,
    decreases html.len() - i,
{
    if 0 <= i < html.len() {
        match find_char_from(html, '<', i) {
            None => {},
            Some(lt) => {
                lemma_find_char_from_result(html, '<', i);
                match find_char_from(html, '>', lt + 1) {
                    None => {},
                    Some(gt) => {
                        lemma_find_char_from_result(html, '>', lt + 1);
                        lemma_find_char_from_result(html, '<', gt + 1);
                        let e = text_end(html, gt);
                        let tag = html.subrange(lt + 1, gt);
                        let text = spec_unescape(trim(html.subrange(gt + 1, e)));
                        lemma_apply_tag_bookmarks(stack, tag, text);
                        lemma_parse_from_bookmarks(html, e, apply_tag(stack, tag, text));
                    },
                }
            },
        }
    }
}

/// Folding the open folders into the root keeps every bookmark.
proof fn lemma_close_all_bookmarks(stack: Seq<FolderModel>)
    requires
        stack.len() > 0,
    ensures
        close_all(stack).len() == 1,
        nodes_bookmarks(close_all(stack)[0].children) == stack_bookmarks(stack),
        close_all(stack)[0].name == stack[0].name,
    decreases stack.len(),
{
    if stack.len() > 1 {
        let dl = stack.drop_last();
        lemma_add_child_bookmarks(dl, NodeModel::Folder(stack.last()));
        assert(dl[0] == stack[0]);
        lemma_close_all_bookmarks(add_child(dl, NodeModel::Folder(stack.last())));
    } else {
        assert(stack.drop_last().len() == 0);
        assert(stack_bookmarks(stack.drop_last()) == 0);
        assert(stack.last() == stack[0]);
    }
}

/// The import keeps every bookmark: the root folder holds, through its nested folders,
/// exactly one bookmark for each anchor tag with an `href` that the parser reads.
pub proof fn lemma_import_keeps_every_bookmark(html: Seq<char>)
    ensures
        nodes_bookmarks(spec_parse_netscape(html).children) == bookmark_tags_from(html, 0),
{
    let init = seq![empty_folder(Seq::empty())];
    assert(init.drop_last().len() == 0);
    assert(stack_bookmarks(init.drop_last()) == 0);
    assert(init.last().children.len() == 0);
    assert(nodes_bookmarks(init.last().children) == 0);
    assert(stack_bookmarks(init) == 0);
    lemma_parse_from_bookmarks(html, 0, init);
    lemma_close_all_bookmarks(parse_from(html, 0, init));
}

/// The root folder of an import is the synthetic, unnamed one: no tag renames or closes
/// it, whatever the document holds.
pub proof fn lemma_import_root_unnamed(html: Seq<char>)
    ensures
        spec_parse_netscape(html).name == Seq::<char>::empty(),
{
    let init = seq![empty_folder(Seq::empty())];
    lemma_parse_from_bookmarks(html, 0, init);
    lemma_close_all_bookmarks(parse_from(html, 0, init));
}

proof fn lemma_nodes_bookmarks_concat(a: Seq<NodeModel>, b: Seq<NodeModel>)
    ensures
        nodes_bookmarks(a + b) == nodes_bookmarks(a) + nodes_bookmarks(b),
    decreases b.len(),
{
    if b.len() == 0 {
        assert(a + b == a);
    } else {
        let bl = b.subrange(0, b.len() - 1);
        lemma_nodes_bookmarks_concat(a, bl);
        assert((a + b).subrange(0, (a + b).len() - 1) == a + bl);
        assert((a + b)[(a + b).len() - 1] == b[b.len() - 1]);
    }
}

/// Bookmark counts add up: over the concatenation of two folders' children the count is
/// the sum of theirs, a folder holding only a folder counts what that folder counts, and
/// an empty folder counts none.
pub proof fn lemma_bookmark_count_adds_up(a: FolderModel, b: FolderModel)
    ensures
        nodes_bookmarks(a.children + b.children) == nodes_bookmarks(a.children) + nodes_bookmarks(
            b.children,
        ),
        nodes_bookmarks(seq![NodeModel::Folder(a)]) == nodes_bookmarks(a.children),
        nodes_bookmarks(Seq::<NodeModel>::empty()) == 0,
{
    lemma_nodes_bookmarks_concat(a.children, b.children);
    let one = seq![NodeModel::Folder(a)];
    assert(one.subrange(0, 0).len() == 0);
    assert(nodes_bookmarks(one.subrange(0, 0)) == 0);
    assert(one[0] == NodeModel::Folder(a));
    assert(node_bookmarks(NodeModel::Folder(a)) == nodes_bookmarks(a.children));
    assert(nodes_bookmarks(one) == nodes_bookmarks(one.subrange(0, 0)) + node_bookmarks(one[0]));
}

/// Exec `add_child`: append `n` to the innermost open folder.
fn push_child(stack: &mut Vec<Folder>, n: Node)
    requires
        old(stack)@.len() >= 1,
    ensures
        final(stack)@.len() == old(stack)@.len(),
        final(stack)@.map_values(|f: Folder| f@) == add_child(
            old(stack)@.map_values(|f: Folder| f@),
            node_model(n),
        ),
{
    let ghost before = stack@;
    let mut top = stack.pop().unwrap();
    proof {
        lemma_nodes_model_push(top.children@, n);
    }
    top.children.push(n);
    stack.push(top);
    proof {
        assert(stack@ == before.update(before.len() - 1, top));
        assert(stack@.map_values(|f: Folder| f@) =~= add_child(
            before.map_values(|f: Folder| f@),
            node_model(n),
        ));
    }
}

/// Close the innermost open folder into its parent.
fn close_top(stack: &mut Vec<Folder>)
    requires
        old(stack)@.len() > 1,
    ensures
        final(stack)@.len() == old(stack)@.len() - 1,
        final(stack)@.map_values(|f: Folder| f@) == add_child(
            old(stack)@.map_values(|f: Folder| f@).drop_last(),
            NodeModel::Folder(old(stack)@.map_values(|f: Folder| f@).last()),
        ),
{
    let ghost before = stack@;
    let f = stack.pop().unwrap();
    proof {
        assert(stack@.map_values(|f: Folder| f@) =~= before.map_values(|f: Folder| f@).drop_last());
    }
    push_child(stack, Node::Folder(f));
}

/// Parse a Netscape Bookmark HTML document into a root folder.
///
/// Lenient by necessity: treats `<H3>` as "open folder, descend", `<A HREF>` as a leaf,
/// and `</DL>` as "close current folder". Unclosed `<DT>`/`<DD>` and attribute-case
/// variation are tolerated.
pub fn parse_netscape(html: &str) -> (root: Folder)
    ensures
        root@ == spec_parse_netscape(html@),
{
    let chars = chars_of(html);
    let ghost h = chars@;
    let mut stack: Vec<Folder> = Vec::new();
    stack.push(Folder { name: String::new(), children: Vec::new() });
    let ghost init = stack@.map_values(|f: Folder| f@);
    proof {
        assert(init =~= seq![empty_folder(Seq::empty())]);
    }
    let mut i: usize = 0;
    let n = chars.len();
    let h3 = ['h', '3'];
    let a1 = ['a'];
    let a_sp = ['a', ' '];
    let a_tab = ['a', '\t'];
    let close_dl = ['/', 'd', 'l'];
    let href = ['h', 'r', 'e', 'f'];
    proof {
        assert(h3@ == seq!['h', '3']);
        assert(a1@ == seq!['a']);
        assert(a_sp@ == seq!['a', ' ']);
        assert(a_tab@ == seq!['a', '\t']);
        assert(close_dl@ == seq!['/', 'd', 'l']);
        assert(href@ == seq!['h', 'r', 'e', 'f']);
    }
    while i < n
        invariant
            h3@ == seq!['h', '3'],
            a1@ == seq!['a'],
            a_sp@ == seq!['a', ' '],
            a_tab@ == seq!['a', '\t'],
            close_dl@ == seq!['/', 'd', 'l'],
            href@ == seq!['h', 'r', 'e', 'f'],
            n == h.len(),
            h == chars@,
            h == html@,
            i <= n,
            stack@.len() >= 1,
            parse_from(h, i as int, stack@.map_values(|f: Folder| f@)) == parse_from(
                h,
                0,
                seq![empty_folder(Seq::empty())],
            ),
        ensures
            stack@.len() >= 1,
            stack@.map_values(|f: Folder| f@) == parse_from(
                h,
                0,
                seq![empty_folder(Seq::empty())],
            ),
        decreases n - i,
    {
        let lt = match find_char(&chars, '<', i) {
            Some(k) => k,
            None => {
                break;
            },
        };
        proof {
            lemma_find_char_from_result(h, '<', i as int);
        }
        let gt = match find_char(&chars, '>', lt + 1) {
            Some(k) => k,
            None => {
                break;
            },
        };
        proof {
            lemma_find_char_from_result(h, '>', lt + 1);
            lemma_find_char_from_result(h, '<', gt + 1);
        }
        let tag = slice_of(&chars, lt + 1, gt);
        let tag_trimmed = trim_start_chars(&tag);
        let tag_lower = to_ascii_lower(&tag_trimmed);
        let text_stop = match find_char(&chars, '<', gt + 1) {
            Some(e) => e,
            None => n,
        };
        let raw = slice_of(&chars, gt + 1, text_stop);
        let trimmed = trim_chars(&raw);
        let text = unescape(&trimmed);
        let ghost before = stack@.map_values(|f: Folder| f@);
        if starts_with_seq(&tag_lower, &h3) {
            stack.push(Folder { name: string_from(&text), children: Vec::new() });
            proof {
                assert(stack@.map_values(|f: Folder| f@) =~= before.push(empty_folder(text@)));
            }
        } else if seq_eq(&tag_lower, &a1) || starts_with_seq(&tag_lower, &a_sp)
            || starts_with_seq(&tag_lower, &a_tab) {
            match extract_attr(&tag, &href) {
                Some(url) => {
                    let b = Bookmark { title: string_from(&text), url: string_from(&url) };
                    push_child(&mut stack, Node::Bookmark(b));
                },
                None => {},
            }
        } else if starts_with_seq(&tag_lower, &close_dl) && stack.len() > 1 {
            close_top(&mut stack);
        }
        proof {
            assert(stack@.map_values(|f: Folder| f@) == apply_tag(before, tag@, text@));
        }
        proof {
            assert(text_stop as int == text_end(h, gt as int));
        }
        i = text_stop;
    }
    while stack.len() > 1
        invariant
            stack@.len() >= 1,
            close_all(stack@.map_values(|f: Folder| f@)) == close_all(
                parse_from(h, 0, seq![empty_folder(Seq::empty())]),
            ),
        decreases stack@.len(),
    {
        close_top(&mut stack);
    }
    let ghost last = stack@.map_values(|f: Folder| f@);
    let root = stack.pop().unwrap();
    proof {
        assert(last[0] == root@);
    }
    root
}

} // verus!
