use typost::site::{collect_export, normalize_html, relocate_endnotes};

#[test]
fn moves_endnotes_into_content_region() {
    let html = "<body><header>h</header>\
                <main id=\"typost-content\"><p>x</p></main>\
                <footer>f</footer>\
                <section role=\"doc-endnotes\"><ol><li>n</li></ol></section>\
                </body>";
    let fixed = relocate_endnotes(html).unwrap();
    let notes = fixed.find("doc-endnotes").unwrap();
    let main_close = fixed.find("</main>").unwrap();
    let footer = fixed.find("<footer>").unwrap();
    assert!(
        notes < main_close,
        "endnotes should be inside the content region"
    );
    assert!(
        main_close < footer,
        "footer should follow the content region"
    );
}

#[test]
fn no_endnotes_is_a_noop() {
    let html = "<body><main id=\"typost-content\">x</main></body>";
    assert!(relocate_endnotes(html).is_none());
}

#[test]
fn handles_nested_sections() {
    let html = "<body><main id=\"typost-content\">x</main>\
                <section role=\"doc-endnotes\"><section>inner</section></section>\
                </body>";
    let fixed = relocate_endnotes(html).unwrap();
    assert!(
        fixed.contains(
            "<section role=\"doc-endnotes\"><section>inner</section></section></main>"
        )
    );
}

#[test]
fn relocation_gives_the_exact_page() {
    let html = "<main>a</main><footer>f</footer><section role=\"doc-endnotes\">n</section>";
    assert_eq!(
        relocate_endnotes(html).unwrap(),
        "<main>a<section role=\"doc-endnotes\">n</section></main><footer>f</footer>"
    );
}

#[test]
fn unclosed_endnotes_are_left_alone() {
    let html = "<main>a</main><section role=\"doc-endnotes\"><p>n</p>";
    assert!(relocate_endnotes(html).is_none());
}

#[test]
fn a_page_without_a_content_region_is_left_alone() {
    let html = "<body><section role=\"doc-endnotes\">n</section></body>";
    assert!(relocate_endnotes(html).is_none());
}

#[test]
fn section_lookalikes_do_not_nest() {
    let html = "<main>a</main><section role=\"doc-endnotes\"><sectionx>y</section></main>";
    assert_eq!(
        relocate_endnotes(html).unwrap(),
        "<main>a</main><section role=\"doc-endnotes\"><sectionx>y</section></main>"
    );
}

#[test]
fn normalizing_keeps_bytes_that_are_not_utf8() {
    let bytes = vec![0xff, 0xfe, b'<', b'/'];
    assert_eq!(normalize_html(&bytes), bytes);
}

#[test]
fn normalizing_relocates_endnotes() {
    let html = "<main>a</main><section role=\"doc-endnotes\">n</section>";
    assert_eq!(
        normalize_html(html.as_bytes()),
        b"<main>a<section role=\"doc-endnotes\">n</section></main>".to_vec()
    );
}

#[test]
fn export_drops_leading_slashes_and_normalizes_pages_only() {
    let page = "<main>a</main><section role=\"doc-endnotes\">n</section>";
    let files = vec![
        ("/index.html".to_owned(), page.as_bytes().to_vec()),
        ("/notes.txt".to_owned(), page.as_bytes().to_vec()),
        ("//a/b.css".to_owned(), b"x".to_vec()),
    ];
    let out = collect_export(files);
    assert_eq!(out.len(), 3);
    assert_eq!(out.path_at(0), "a/b.css");
    assert_eq!(out.path_at(1), "index.html");
    assert_eq!(out.path_at(2), "notes.txt");
    assert_eq!(
        out.get("index.html").unwrap(),
        b"<main>a<section role=\"doc-endnotes\">n</section></main>"
    );
    assert_eq!(out.get("notes.txt").unwrap(), page.as_bytes());
}

#[test]
fn a_later_export_replaces_an_earlier_one() {
    let files = vec![
        ("/a.txt".to_owned(), b"one".to_vec()),
        ("a.txt".to_owned(), b"two".to_vec()),
    ];
    let out = collect_export(files);
    assert_eq!(out.len(), 1);
    assert_eq!(out.get("a.txt").unwrap(), b"two");
}

#[test]
fn relocating_twice_changes_nothing() {
    let html = "<body><main id=\"typost-content\"><p>a<sup>1</sup></p></main>\
                <footer>f</footer>\
                <section role=\"doc-endnotes\"><ol><li>n</li></ol></section></body>";
    let once = relocate_endnotes(html).unwrap();
    assert_eq!(once.len(), html.len());
    let twice = relocate_endnotes(&once).unwrap();
    assert_eq!(twice, once);
}
