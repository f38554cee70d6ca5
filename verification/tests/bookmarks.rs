use rmbrowser::bookmarks::{parse_netscape, Bookmark, Folder, Node};

const SAMPLE: &str = r#"<!DOCTYPE NETSCAPE-Bookmark-file-1>
<META HTTP-EQUIV="Content-Type" CONTENT="text/html; charset=UTF-8">
<TITLE>Bookmarks</TITLE>
<H1>Bookmarks</H1>
<DL><p>
    <DT><H3 PERSONAL_TOOLBAR_FOLDER="true">Bookmarks Bar</H3>
    <DL><p>
        <DT><A HREF="https://example.com/" ADD_DATE="1698384000">Example &amp; Co</A>
        <DD>desc
        <DT><H3>Sub</H3>
        <DL><p>
            <DT><A HREF="https://mozilla.org/">Mozilla</A>
        </DL><p>
    </DL><p>
</DL><p>"#;

#[test]
fn parses_tree_structure() {
    let root = parse_netscape(SAMPLE);
    assert_eq!(root.children.len(), 1);
    let bar = match &root.children[0] {
        Node::Folder(f) => f,
        _ => panic!("expected a folder"),
    };
    assert_eq!(bar.name, "Bookmarks Bar");
    // Example bookmark + Sub folder.
    assert_eq!(bar.children.len(), 2);
}

#[test]
fn extracts_href_and_unescapes_title() {
    let root = parse_netscape(SAMPLE);
    let bar = match &root.children[0] {
        Node::Folder(f) => f,
        _ => unreachable!(),
    };
    match &bar.children[0] {
        Node::Bookmark(b) => {
            assert_eq!(b.url, "https://example.com/");
            assert_eq!(b.title, "Example & Co");
        }
        _ => panic!("expected a bookmark"),
    }
}

#[test]
fn counts_nested_bookmarks() {
    let root = parse_netscape(SAMPLE);
    assert_eq!(root.bookmark_count(), 2);
}

fn leaf(title: &str, url: &str) -> Node {
    Node::Bookmark(Bookmark { title: title.to_string(), url: url.to_string() })
}

#[test]
fn nested_folder_holds_its_bookmark() {
    let root = parse_netscape(SAMPLE);
    let bar = match &root.children[0] {
        Node::Folder(f) => f,
        _ => panic!("expected a folder"),
    };
    let sub = Folder { name: "Sub".to_string(), children: vec![leaf("Mozilla", "https://mozilla.org/")] };
    assert_eq!(bar.children[1], Node::Folder(sub));
}

#[test]
fn empty_document_gives_empty_root() {
    let root = parse_netscape("");
    assert_eq!(root, Folder::default());
    assert_eq!(root.bookmark_count(), 0);
}

#[test]
fn unclosed_folders_fold_into_root() {
    let root = parse_netscape("<DL><DT><H3>A</H3><DL><DT><A HREF=\"u\">t</A>");
    let a = Folder { name: "A".to_string(), children: vec![leaf("t", "u")] };
    assert_eq!(root.children, vec![Node::Folder(a)]);
}

#[test]
fn anchor_without_href_is_skipped() {
    let root = parse_netscape("<A NAME=\"x\">no link</A><a href='q'>yes</a>");
    assert_eq!(root.children, vec![leaf("yes", "q")]);
}

#[test]
fn unquoted_attribute_and_entities() {
    let root = parse_netscape("<a href=https://e.test/?a=1&amp;b=2 add_date=1>&lt;tag&gt; &quot;q&quot; &#39;s&#39;</a>");
    assert_eq!(root.children, vec![leaf("<tag> \"q\" 's'", "https://e.test/?a=1&b=2")]);
}

#[test]
fn stray_close_at_root_is_ignored() {
    let root = parse_netscape("</DL><A HREF=\"x\">X</A></DL>");
    assert_eq!(root.children, vec![leaf("X", "x")]);
}

#[test]
fn unterminated_tag_stops_parsing() {
    let root = parse_netscape("<A HREF=\"x\">X</A><A HREF=\"y\"");
    assert_eq!(root.children, vec![leaf("X", "x")]);
}

#[test]
fn entities_are_decoded_once() {
    let root = parse_netscape("<a href=\"x?a&amp;amp;b\">&amp;lt; &amp;amp; &lt;&gt;</a>");
    assert_eq!(root.children, vec![leaf("&lt; &amp; <>", "x?a&amp;b")]);
}

#[test]
fn clone_is_a_deep_copy() {
    let root = parse_netscape(SAMPLE);
    let copy = root.clone();
    assert_eq!(copy, root);
    assert_eq!(copy.children[0].clone(), root.children[0]);
}

#[test]
fn checked_count_matches_count() {
    let root = parse_netscape(SAMPLE);
    assert_eq!(root.checked_bookmark_count(), Some(2));
    assert_eq!(Folder::default().checked_bookmark_count(), Some(0));
}

#[test]
fn root_stays_unnamed() {
    assert_eq!(parse_netscape("</DL><H3>Top</H3></DL></DL>").name, "");
    assert_eq!(parse_netscape("</DL>"), Folder::default());
}
