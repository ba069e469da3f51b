use rustysozluk::{assemble_entries, clean_text, extract_entries, Entry, RawItem};

fn post(id: u32, content: Option<&str>, date: Option<&str>, author: Option<&str>) -> String {
    let mut html = format!("<li data-id=\"{}\">", id);
    if let Some(content) = content {
        html.push_str(&format!("<div class=\"content\">{}</div>", content));
    }
    html.push_str("<footer>");
    if let Some(author) = author {
        html.push_str(&format!(
            "<div id=\"entry-author\"><a class=\"entry-author\" href=\"/biri/x\">{}</a></div>",
            author
        ));
    }
    if let Some(date) = date {
        html.push_str(&format!("<a class=\"entry-date permalink\" href=\"/entry/{}\">{}</a>", id, date));
    }
    html.push_str("</footer></li>");
    html
}

fn page(posts: &[String]) -> String {
    format!(
        "<!DOCTYPE html><html><head><title>t</title></head><body><ul id=\"entry-item-list\">{}</ul></body></html>",
        posts.concat()
    )
}

fn entry(content: &str, date: &str, username: &str) -> Entry {
    Entry {
        content: content.to_string(),
        date: date.to_string(),
        username: username.to_string(),
    }
}

fn nodes(texts: &[&str]) -> Vec<String> {
    texts.iter().map(|t| t.to_string()).collect()
}

fn one(texts: &[&str]) -> Vec<Vec<String>> {
    vec![nodes(texts)]
}

fn none() -> Vec<Vec<String>> {
    Vec::new()
}

#[test]
fn entries_are_read_in_document_order() {
    let html = page(&[
        post(1, Some("first post"), Some("01.01.2020 10:00"), Some("alice")),
        post(2, Some("second post"), Some("02.01.2020 11:00"), Some("bob")),
    ]);
    assert_eq!(
        extract_entries(&html, 10),
        vec![
            entry("first post", "01.01.2020 10:00", "alice"),
            entry("second post", "02.01.2020 11:00", "bob"),
        ]
    );
}

#[test]
fn text_nodes_are_joined_and_trimmed() {
    let html = page(&[post(
        1,
        Some("\n   rust <b>is</b> a <a href=\"/x\">language</a>\n  "),
        Some("  01.01.2020 "),
        Some(" alice\n"),
    )]);
    assert_eq!(extract_entries(&html, 1), vec![entry("rust is a language", "01.01.2020", "alice")]);
}

#[test]
fn a_post_without_one_part_is_dropped_and_the_rest_stays() {
    let html = page(&[
        post(1, None, Some("d1"), Some("a1")),
        post(2, Some("c2"), Some("d2"), Some("a2")),
        post(3, Some("c3"), None, Some("a3")),
        post(4, Some("c4"), Some("d4"), None),
        post(5, Some("c5"), Some("d5"), Some("a5")),
    ]);
    assert_eq!(
        extract_entries(&html, 10),
        vec![entry("c2", "d2", "a2"), entry("c5", "d5", "a5")]
    );
}

#[test]
fn the_limit_truncates_the_entries() {
    let html = page(&[
        post(1, Some("c1"), Some("d1"), Some("a1")),
        post(2, Some("c2"), Some("d2"), Some("a2")),
        post(3, Some("c3"), Some("d3"), Some("a3")),
    ]);
    assert_eq!(extract_entries(&html, 2), vec![entry("c1", "d1", "a1"), entry("c2", "d2", "a2")]);
    assert_eq!(extract_entries(&html, 3).len(), 3);
    assert_eq!(extract_entries(&html, 4).len(), 3);
    assert_eq!(extract_entries(&html, 0), Vec::<Entry>::new());
}

#[test]
fn the_limit_counts_entries_not_elements() {
    let html = page(&[
        post(1, None, Some("d1"), Some("a1")),
        post(2, Some("c2"), Some("d2"), Some("a2")),
        post(3, Some("c3"), Some("d3"), Some("a3")),
    ]);
    assert_eq!(extract_entries(&html, 1), vec![entry("c2", "d2", "a2")]);
    assert_eq!(extract_entries(&html, 2), vec![entry("c2", "d2", "a2"), entry("c3", "d3", "a3")]);
}

#[test]
fn a_page_without_posts_gives_no_entries() {
    assert_eq!(extract_entries(&page(&[]), 5), Vec::<Entry>::new());
    assert_eq!(extract_entries("", 5), Vec::<Entry>::new());
    assert_eq!(extract_entries("not html at all <<<", 5), Vec::<Entry>::new());
    assert_eq!(
        extract_entries("<ul><li>no identifier<div class=\"content\">c</div></li></ul>", 5),
        Vec::<Entry>::new()
    );
}

#[test]
fn the_first_match_of_each_part_is_taken() {
    let html = page(&["<li data-id=\"9\"><div class=\"content\">one</div><div class=\"content\">two</div>\
        <div id=\"entry-author\"><a class=\"entry-author\">alice</a><a class=\"entry-author\">bob</a></div>\
        <a class=\"entry-date\">d1</a><a class=\"entry-date\">d2</a></li>"
        .to_string()]);
    assert_eq!(extract_entries(&html, 5), vec![entry("one", "d1", "alice")]);
}

#[test]
fn an_author_link_outside_the_author_block_does_not_count() {
    let html = page(&["<li data-id=\"9\"><div class=\"content\">c</div>\
        <a class=\"entry-author\">alice</a><a class=\"entry-date\">d</a></li>"
        .to_string()]);
    assert_eq!(extract_entries(&html, 5), Vec::<Entry>::new());
}

#[test]
fn empty_parts_give_empty_fields() {
    let html = page(&[post(1, Some("   "), Some(""), Some("<b></b>"))]);
    assert_eq!(extract_entries(&html, 5), vec![entry("", "", "")]);
}

#[test]
fn character_references_are_resolved_by_the_parser() {
    let html = page(&[post(1, Some("a &amp; b &lt;c&gt;"), Some("d"), Some("&uuml;ser"))]);
    assert_eq!(extract_entries(&html, 5), vec![entry("a & b <c>", "d", "üser")]);
}

#[test]
fn clean_text_joins_nodes_then_trims() {
    assert_eq!(clean_text(&nodes(&["  a ", "b", " c \n"])), "a b c");
    assert_eq!(clean_text(&nodes(&[" ", "\t", ""])), "");
    assert_eq!(clean_text(&Vec::new()), "");
    assert_eq!(clean_text(&nodes(&["ab", "cd"])), "abcd");
}

#[test]
fn items_make_entries_when_complete() {
    let items = vec![
        RawItem { content: one(&[" c1 "]), date: one(&["d1"]), username: one(&["a", "1"]) },
        RawItem { content: none(), date: one(&["d2"]), username: one(&["a2"]) },
        RawItem { content: one(&["c3"]), date: none(), username: one(&["a3"]) },
        RawItem { content: one(&["c4"]), date: one(&["d4"]), username: none() },
        RawItem { content: one(&[]), date: one(&[]), username: one(&[]) },
        RawItem { content: one(&["c6"]), date: one(&["d6"]), username: one(&["a6"]) },
    ];
    assert_eq!(
        assemble_entries(&items, 10),
        vec![entry("c1", "d1", "a1"), entry("", "", ""), entry("c6", "d6", "a6")]
    );
    assert_eq!(assemble_entries(&items, 2), vec![entry("c1", "d1", "a1"), entry("", "", "")]);
    assert_eq!(assemble_entries(&items, 1), vec![entry("c1", "d1", "a1")]);
    assert_eq!(assemble_entries(&items, 0), Vec::<Entry>::new());
    assert_eq!(assemble_entries(&Vec::new(), 3), Vec::<Entry>::new());
}

#[test]
fn the_first_of_several_parts_makes_the_entry() {
    let items = vec![RawItem {
        content: vec![nodes(&["first"]), nodes(&["second"])],
        date: vec![nodes(&["d1"]), nodes(&["d2"])],
        username: vec![nodes(&["a1"]), nodes(&["a2"])],
    }];
    assert_eq!(assemble_entries(&items, 5), vec![entry("first", "d1", "a1")]);
}
