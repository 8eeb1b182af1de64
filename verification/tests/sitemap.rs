use typost::manifest::SiteManifest;
use typost::plugin::{Plugin, RenderOutput};
use typost::sitemap::Sitemap;

#[test]
fn writes_a_url_for_every_rendered_page() {
    let mut out = RenderOutput::new();
    out.insert("index.html", b"<html></html>".to_vec());
    out.insert("hello/index.html", b"<html></html>".to_vec());
    out.insert("tags/index.html", b"<html></html>".to_vec());
    out.insert("static/css/theme.css", b"body{}".to_vec());

    Sitemap::new("https://example.com/")
        .post(&mut out, &SiteManifest::default())
        .unwrap();

    let xml = String::from_utf8(out.get("sitemap.xml").unwrap().to_vec()).unwrap();
    assert!(xml.contains("<loc>https://example.com/index.html</loc>"));
    assert!(xml.contains("<loc>https://example.com/hello/index.html</loc>"));
    assert!(xml.contains("<loc>https://example.com/tags/index.html</loc>"));
    assert!(!xml.contains("theme.css"));
}

#[test]
fn the_sitemap_lists_pages_in_path_order_and_escapes_them() {
    let mut out = RenderOutput::new();
    out.insert("b&c.html", b"".to_vec());
    out.insert("a.html", b"".to_vec());
    Sitemap::new("https://x.org")
        .post(&mut out, &SiteManifest::default())
        .unwrap();
    let xml = String::from_utf8(out.get("sitemap.xml").unwrap().to_vec()).unwrap();
    assert_eq!(
        xml,
        "<?xml version=\"1.0\" encoding=\"UTF-8\"?>\n\
         <urlset xmlns=\"http://www.sitemaps.org/schemas/sitemap/0.9\">\n  \
         <url><loc>https://x.org/a.html</loc></url>\n  \
         <url><loc>https://x.org/b&amp;c.html</loc></url>\n\
         </urlset>\n"
    );
}

#[test]
fn the_plugin_is_named_sitemap() {
    assert_eq!(Sitemap::new("https://x.org").name(), "sitemap");
}
