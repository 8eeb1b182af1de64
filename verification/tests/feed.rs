use typost::feed::{absolutize, page_url, rfc3339, Feed};
use typost::manifest::{FrontMatter, PageMeta, SiteManifest};
use typost::plugin::{Plugin, RenderOutput};

fn page(route: &str, title: &str, date: &str) -> PageMeta {
    PageMeta {
        route: route.into(),
        src: None,
        data: FrontMatter::Dict(vec![
            ("section".to_owned(), FrontMatter::Str("post".into())),
            ("title".to_owned(), FrontMatter::Str(title.into())),
            ("date".to_owned(), FrontMatter::Str(date.into())),
            (
                "tags".to_owned(),
                FrontMatter::Array(vec![FrontMatter::Str("rust".into())]),
            ),
        ]),
    }
}

fn chars(s: &str) -> Vec<char> {
    s.chars().collect()
}

fn string(v: Vec<char>) -> String {
    v.into_iter().collect()
}

#[test]
fn emits_entries_newest_first_with_absolute_content() {
    let mut out = RenderOutput::new();
    out.insert(
        "post/old/index.html",
        b"<head></head><body><main id=\"typost-content\"><a href=\"/post/old/\">old</a></main></body>".to_vec(),
    );
    out.insert(
        "post/new/index.html",
        b"<head></head><body><main id=\"typost-content\"><p>new</p></main></body>".to_vec(),
    );
    let manifest = SiteManifest {
        title: Some("My Site".into()),
        pages: vec![
            page("post/old/index.html", "Old", "2020-01-01"),
            page("post/new/index.html", "New", "2024-06-01"),
            // Undated pages are ignored.
            PageMeta {
                route: "about/index.html".into(),
                src: None,
                data: FrontMatter::Null,
            },
        ],
        entries: Vec::new(),
    };

    Feed::new("https://example.com/")
        .author("Ada")
        .post(&mut out, &manifest)
        .unwrap();

    let xml = String::from_utf8(out.get("atom.xml").unwrap().to_vec()).unwrap();
    assert!(xml.contains("<title>My Site</title>"));
    assert!(xml.contains("<name>Ada</name>"));
    assert!(xml.contains("<id>https://example.com/post/new/</id>"));
    assert!(xml.contains("<updated>2024-06-01T00:00:00Z</updated>"));
    assert!(xml.contains("<category term=\"rust\"/>"));
    // Newest entry precedes the older one.
    assert!(xml.find("New").unwrap() < xml.find("Old").unwrap());
    // Root-relative content links were made absolute.
    assert!(xml.contains("https://example.com/post/old/"));

    // The feed is linked from the pages' heads.
    let html = String::from_utf8(out.get("post/new/index.html").unwrap().to_vec()).unwrap();
    assert!(html.contains("application/atom+xml"));
}

#[test]
fn limit_is_respected() {
    let mut out = RenderOutput::new();
    let pages: Vec<PageMeta> = (0..5)
        .map(|i| page(&format!("post/{i}/index.html"), &format!("P{i}"), &format!("202{i}-01-01")))
        .collect();
    let manifest = SiteManifest {
        title: None,
        pages,
        entries: Vec::new(),
    };

    Feed::new("https://example.com").limit(2).post(&mut out, &manifest).unwrap();
    let xml = String::from_utf8(out.get("atom.xml").unwrap().to_vec()).unwrap();
    assert_eq!(xml.matches("<entry>").count(), 2);
}

#[test]
fn the_limit_keeps_the_newest_entries() {
    let mut out = RenderOutput::new();
    let pages: Vec<PageMeta> = (0..5)
        .map(|i| page(&format!("post/{i}/index.html"), &format!("P{i}"), &format!("202{i}-01-01")))
        .collect();
    let manifest = SiteManifest {
        title: None,
        pages,
        entries: Vec::new(),
    };
    Feed::new("https://example.com").limit(2).post(&mut out, &manifest).unwrap();
    let xml = String::from_utf8(out.get("atom.xml").unwrap().to_vec()).unwrap();
    let p4 = xml.find("<title>P4</title>").unwrap();
    let p3 = xml.find("<title>P3</title>").unwrap();
    assert!(p4 < p3);
    assert!(!xml.contains("<title>P2</title>"));
    assert!(xml.contains("<title>Feed</title>"));
    assert!(xml.contains("<updated>2024-01-01T00:00:00Z</updated>"));
}

#[test]
fn equal_dates_keep_declaration_order() {
    let mut out = RenderOutput::new();
    let manifest = SiteManifest {
        title: None,
        pages: vec![
            page("a/index.html", "First", "2024-01-01"),
            page("b/index.html", "Second", "2024-01-01"),
        ],
        entries: Vec::new(),
    };
    Feed::new("https://x.org").post(&mut out, &manifest).unwrap();
    let xml = String::from_utf8(out.get("atom.xml").unwrap().to_vec()).unwrap();
    assert!(xml.find("First").unwrap() < xml.find("Second").unwrap());
}

#[test]
fn an_empty_feed_has_the_epoch_as_its_date() {
    let mut out = RenderOutput::new();
    Feed::new("https://x.org/")
        .path("/feeds/all.xml")
        .title("T & Co")
        .description("about")
        .section("notes")
        .post(&mut out, &SiteManifest::default())
        .unwrap();
    let xml = String::from_utf8(out.get("/feeds/all.xml").unwrap().to_vec()).unwrap();
    assert_eq!(
        xml,
        "<?xml version=\"1.0\" encoding=\"UTF-8\"?>\n\
         <feed xmlns=\"http://www.w3.org/2005/Atom\">\n  \
         <title>T &amp; Co</title>\n  \
         <subtitle>about</subtitle>\n  \
         <id>https://x.org/</id>\n  \
         <updated>1970-01-01T00:00:00Z</updated>\n  \
         <link href=\"https://x.org/feeds/all.xml\" rel=\"self\"/>\n  \
         <link href=\"https://x.org/\" rel=\"alternate\"/>\n  \
         <generator>typost</generator>\n\
         </feed>\n"
    );
}

#[test]
fn the_head_link_is_added_once() {
    let mut out = RenderOutput::new();
    out.insert("index.html", b"<html><head></head><body></body></html>".to_vec());
    let feed = Feed::new("https://x.org");
    feed.post(&mut out, &SiteManifest::default()).unwrap();
    feed.post(&mut out, &SiteManifest::default()).unwrap();
    let html = String::from_utf8(out.get("index.html").unwrap().to_vec()).unwrap();
    assert_eq!(
        html,
        "<html><head><link rel=\"alternate\" type=\"application/atom+xml\" title=\"Feed\" href=\"/atom.xml\"></head><body></body></html>"
    );
}

#[test]
fn dates_become_rfc3339() {
    assert_eq!(rfc3339("2024-06-01"), "2024-06-01T00:00:00Z");
    assert_eq!(rfc3339("2024-6-1"), "2024-6-1");
}

#[test]
fn index_pages_get_directory_urls() {
    assert_eq!(
        string(page_url(&chars("https://x.org"), &chars("post/a/index.html"))),
        "https://x.org/post/a/"
    );
    assert_eq!(
        string(page_url(&chars("https://x.org"), &chars("/about.html"))),
        "https://x.org/about.html"
    );
}

#[test]
fn root_relative_urls_become_absolute() {
    let html = "<a href=\"/a\">x</a><img src=\"//cdn/i.png\"><video poster=\"p.png\"><use xlink:href=\"/s.svg\">";
    assert_eq!(
        string(absolutize(&chars(html), &chars("https://x.org"))),
        "<a href=\"https://x.org/a\">x</a><img src=\"//cdn/i.png\"><video poster=\"p.png\"><use xlink:href=\"https://x.org/s.svg\">"
    );
}

#[test]
fn the_plugin_is_named_feed() {
    assert_eq!(Feed::new("https://x.org").name(), "feed");
}

#[test]
fn absolutizing_twice_changes_nothing() {
    let html = "<a href=\"/a\">a</a><img src=\"//cdn/x.png\"><video poster=\"/p.jpg\"></video>\
                <use xlink:href=\"/i.svg#x\"/><a href=\"rel\">r</a><a href=\"/\">root</a>";
    for base in ["https://x.org", "", "/", "//cdn.example"] {
        let once = absolutize(&chars(html), &chars(base));
        let twice = absolutize(&once, &chars(base));
        assert_eq!(string(twice), string(once), "base {base:?}");
    }
    let once = string(absolutize(&chars(html), &chars("https://x.org")));
    assert!(once.contains("href=\"https://x.org/a\""));
    assert!(once.contains("src=\"//cdn/x.png\""));
    assert!(once.contains("xlink:href=\"https://x.org/i.svg#x\""));
}

#[test]
fn a_base_with_a_single_leading_slash_is_applied_again() {
    let once = absolutize(&chars("<a href=\"/a\">"), &chars("/blog"));
    assert_eq!(string(once.clone()), "<a href=\"/blog/a\">");
    assert_eq!(string(absolutize(&once, &chars("/blog"))), "<a href=\"/blog/blog/a\">");
}

#[test]
fn pages_of_one_date_keep_their_order() {
    let mut out = RenderOutput::new();
    let manifest = SiteManifest {
        title: None,
        pages: vec![
            page("a.html", "A", "2024-01-01"),
            page("b.html", "B", "2023-01-01"),
            page("c.html", "C", "2024-01-01"),
            page("d.html", "D", "2024-01-01"),
        ],
        entries: Vec::new(),
    };
    Feed::new("https://x.org").post(&mut out, &manifest).unwrap();
    let xml = String::from_utf8(out.get("atom.xml").unwrap().to_vec()).unwrap();
    let at = |t: &str| xml.find(&format!("<title>{t}</title>")).unwrap();
    assert!(at("A") < at("C") && at("C") < at("D") && at("D") < at("B"));
}
