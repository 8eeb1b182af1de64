use typost::manifest::SiteManifest;
use typost::plugin::{Plugin, RenderOutput, TypstOverlay};
use typost::spoiler::Spoiler;

fn page(body: &str) -> Vec<u8> {
    format!("<html><head><title>t</title></head><body>{body}</body></html>").into_bytes()
}

#[test]
fn injects_css_into_pages_with_spoilers() {
    let mut out = RenderOutput::new();
    out.insert(
        "index.html",
        page("<p>answer: <span class=\"typost-spoiler\">42</span></p>"),
    );

    Spoiler::new()
        .post(&mut out, &SiteManifest::default())
        .unwrap();

    let html = String::from_utf8(out.get("index.html").unwrap().to_vec()).unwrap();
    assert!(html.contains("<style class=\"typost-spoiler-style\">"));
    assert!(html.contains(".typost-spoiler:hover"));
    // Injected into the head, before any content.
    assert!(html.find("<style").unwrap() < html.find("<body>").unwrap());
}

#[test]
fn ignores_pages_without_spoilers() {
    let mut out = RenderOutput::new();
    out.insert("index.html", page("<p>nothing hidden</p>"));

    Spoiler::new()
        .post(&mut out, &SiteManifest::default())
        .unwrap();

    let html = String::from_utf8(out.get("index.html").unwrap().to_vec()).unwrap();
    assert!(!html.contains("<style"));
}

#[test]
fn is_idempotent() {
    let mut out = RenderOutput::new();
    out.insert(
        "index.html",
        page("<span class=\"typost-spoiler\">x</span>"),
    );

    let plugin = Spoiler::new();
    plugin.post(&mut out, &SiteManifest::default()).unwrap();
    plugin.post(&mut out, &SiteManifest::default()).unwrap();

    let html = String::from_utf8(out.get("index.html").unwrap().to_vec()).unwrap();
    assert_eq!(
        html.matches("<style class=\"typost-spoiler-style\">")
            .count(),
        1
    );
}

#[test]
fn contributes_the_helper() {
    let mut overlay = TypstOverlay::new();
    Spoiler::new().typst(&mut overlay).unwrap();
    let source = overlay
        .get("lib/typost/spoiler.typ")
        .expect("helper contributed");
    assert!(source.contains("#let spoiler"));
}

#[test]
fn non_html_files_and_headless_pages_are_left_alone() {
    let mut out = RenderOutput::new();
    out.insert("a.txt", b"<span class=\"typost-spoiler\">x</span></head>".to_vec());
    out.insert("b.html", b"<span class=\"typost-spoiler\">x</span>".to_vec());
    Spoiler::default()
        .post(&mut out, &SiteManifest::default())
        .unwrap();
    assert_eq!(
        out.get("a.txt").unwrap(),
        b"<span class=\"typost-spoiler\">x</span></head>"
    );
    assert_eq!(out.get("b.html").unwrap(), b"<span class=\"typost-spoiler\">x</span>");
}
