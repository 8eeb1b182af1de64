use typost::config::{register_plugins, BuiltinPlugin, Config, ConfigError, FeedConfig, SitemapConfig};
use typost::manifest::{collect_manifest, parse_metadata, walk, ContentNode, FrontMatter, SiteManifest};
use typost::markup::{escape_html, escape_xml};
use typost::plugin::{Plugin, PluginError, RenderOutput, TypstOverlay};
use typost::site::{run_post_stage, run_prepare_stage, run_typst_stage, BuildOptions, Site, Stage};
use typost::stdlib::{add_to, STDLIB_PATH, STDLIB_TYP};
use typost::taxonomies::Taxonomies;

fn s(v: &str) -> FrontMatter {
    FrontMatter::Str(v.to_owned())
}

fn dict(pairs: Vec<(&str, FrontMatter)>) -> FrontMatter {
    FrontMatter::Dict(pairs.into_iter().map(|(k, v)| (k.to_owned(), v)).collect())
}

fn marker(typost: Vec<(&str, FrontMatter)>) -> FrontMatter {
    dict(vec![("typost", dict(typost))])
}

#[test]
fn a_write_is_read_back_and_files_stay_in_path_order() {
    let mut out = RenderOutput::new();
    out.insert("b.html", b"1".to_vec());
    out.insert("a.html", b"2".to_vec());
    out.insert("b.html", b"3".to_vec());
    assert_eq!(out.len(), 2);
    assert_eq!(out.path_at(0), "a.html");
    assert_eq!(out.path_at(1), "b.html");
    assert_eq!(out.get("b.html").unwrap(), b"3");
    assert_eq!(out.bytes_at(0), b"2");
    assert!(out.get("c.html").is_none());
    out.set_bytes_at(0, b"4".to_vec());
    assert_eq!(out.get("a.html").unwrap(), b"4");
}

#[test]
fn a_later_overlay_source_replaces_an_earlier_one() {
    let mut overlay = TypstOverlay::new();
    add_to(&mut overlay);
    assert_eq!(overlay.get(STDLIB_PATH).unwrap(), STDLIB_TYP);
    overlay.add("lib/typost.typ", "#let site() = 1");
    overlay.add("lib/x.typ", "x");
    assert_eq!(overlay.len(), 2);
    assert_eq!(overlay.get(STDLIB_PATH).unwrap(), "#let site() = 1");
    assert_eq!(overlay.path_at(1), "lib/x.typ");
    assert_eq!(overlay.source_at(1), "x");
    assert!(overlay.get("lib/y.typ").is_none());
}

#[test]
fn the_last_binding_of_a_key_wins() {
    let fm = dict(vec![("a", s("1")), ("b", FrontMatter::Bool(true)), ("a", s("2"))]);
    assert_eq!(fm.get("a").and_then(FrontMatter::as_str), Some("2"));
    assert_eq!(fm.get("b").and_then(FrontMatter::as_bool), Some(true));
    assert!(fm.get("c").is_none());
    assert!(s("x").get("a").is_none());
    assert!(FrontMatter::Int(3).as_str().is_none());
    assert_eq!(
        FrontMatter::Array(vec![s("t")]).as_array().map(|a| a.len()),
        Some(1)
    );
    assert_eq!(FrontMatter::default(), FrontMatter::Null);
}

#[test]
fn site_metadata_sets_the_title() {
    let mut manifest = SiteManifest::default();
    parse_metadata(marker(vec![("kind", s("site")), ("title", s("Example"))]), None, &mut manifest);
    assert_eq!(manifest.title.as_deref(), Some("Example"));
    assert!(manifest.pages.is_empty());
    assert!(manifest.entries.is_empty());
}

#[test]
fn page_metadata_adds_a_page() {
    let mut manifest = SiteManifest::default();
    let data = dict(vec![("tags", FrontMatter::Array(vec![s("intro")]))]);
    parse_metadata(
        marker(vec![("kind", s("page")), ("route", s("hello/index.html")), ("data", data.clone())]),
        Some(&"ignored.html".to_owned()),
        &mut manifest,
    );
    parse_metadata(marker(vec![("kind", s("page")), ("route", s("bare.html"))]), None, &mut manifest);
    parse_metadata(marker(vec![("kind", s("page"))]), None, &mut manifest);
    assert_eq!(manifest.pages.len(), 2);
    assert_eq!(manifest.pages[0].route, "hello/index.html");
    assert_eq!(manifest.pages[0].data, data);
    assert!(manifest.pages[0].src.is_none());
    assert_eq!(manifest.pages[1].data, FrontMatter::Null);
}

#[test]
fn other_kinds_pass_through_verbatim_with_their_route() {
    let mut manifest = SiteManifest::default();
    let typost = vec![("kind", s("test-marker")), ("value", s("hello"))];
    parse_metadata(marker(typost.clone()), Some(&"index.html".to_owned()), &mut manifest);
    assert_eq!(manifest.entries.len(), 1);
    assert_eq!(manifest.entries[0].kind, "test-marker");
    assert_eq!(manifest.entries[0].route.as_deref(), Some("index.html"));
    assert_eq!(manifest.entries[0].data, dict(typost));
}

#[test]
fn values_without_a_typost_marker_are_ignored() {
    let mut manifest = SiteManifest::default();
    parse_metadata(dict(vec![("other", s("x"))]), None, &mut manifest);
    parse_metadata(dict(vec![("typost", s("x"))]), None, &mut manifest);
    parse_metadata(marker(vec![("kind", FrontMatter::Int(1))]), None, &mut manifest);
    parse_metadata(s("x"), None, &mut manifest);
    assert_eq!(manifest, SiteManifest::default());
}

#[test]
fn escaping_covers_the_markup_characters() {
    assert_eq!(escape_xml("<a href=\"x\">'&'</a>"), "&lt;a href=&quot;x&quot;&gt;&apos;&amp;&apos;&lt;/a&gt;");
    assert_eq!(escape_html("<'&\">é"), "&lt;&#39;&amp;&quot;&gt;é");
}

fn config(base_url: Option<&str>, sitemap: Option<SitemapConfig>, feed: Option<FeedConfig>) -> Config {
    Config {
        entry: "home.typ".into(),
        out: "dist".into(),
        base_url: base_url.map(str::to_owned),
        sitemap,
        feed,
    }
}

fn feed_config(base_url: Option<&str>) -> FeedConfig {
    FeedConfig {
        base_url: base_url.map(str::to_owned),
        path: None,
        limit: Some(5),
        section: None,
        title: Some("T".into()),
        description: None,
        author: None,
    }
}

#[test]
fn a_plugin_base_url_overrides_the_shared_one() {
    let c = config(Some("https://top"), None, None);
    assert_eq!(c.base_url(Some("https://own")), Some("https://own"));
    assert_eq!(c.base_url(None), Some("https://top"));
    assert_eq!(config(None, None, None).base_url(None), None);
}

#[test]
fn the_default_plugins_are_encrypt_then_taxonomies() {
    let plugins = register_plugins(&config(None, None, None)).unwrap();
    let names: Vec<&str> = plugins.iter().map(|p| p.name()).collect();
    assert_eq!(names, vec!["encrypt", "taxonomies"]);
}

#[test]
fn configured_plugins_follow_in_order() {
    let c = config(
        Some("https://top"),
        Some(SitemapConfig { base_url: None }),
        Some(feed_config(Some("https://feed"))),
    );
    let plugins = register_plugins(&c).unwrap();
    let names: Vec<&str> = plugins.iter().map(|p| p.name()).collect();
    assert_eq!(names, vec!["encrypt", "taxonomies", "sitemap", "feed"]);
    let mut out = RenderOutput::new();
    out.insert("index.html", b"<head></head>".to_vec());
    plugins[2].post(&mut out, &SiteManifest::default()).unwrap();
    let xml = String::from_utf8(out.get("sitemap.xml").unwrap().to_vec()).unwrap();
    assert!(xml.contains("<loc>https://top/index.html</loc>"));
    plugins[3].post(&mut out, &SiteManifest::default()).unwrap();
    let atom = String::from_utf8(out.get("atom.xml").unwrap().to_vec()).unwrap();
    assert!(atom.contains("<id>https://feed/</id>"));
    assert!(atom.contains("<title>T</title>"));
    assert!(matches!(plugins[0], BuiltinPlugin::Encrypt(_)));
}

#[test]
fn a_sitemap_without_a_base_url_is_refused() {
    let c = config(None, Some(SitemapConfig { base_url: None }), Some(feed_config(None)));
    let err = register_plugins(&c).err().unwrap();
    assert_eq!(err, ConfigError::SitemapBaseUrl);
    assert_eq!(
        err.message(),
        "`[sitemap]` needs a base URL (set `base_url` top-level or in `[sitemap]`)"
    );
}

#[test]
fn a_feed_without_a_base_url_is_refused() {
    let c = config(None, Some(SitemapConfig { base_url: Some("https://s".into()) }), Some(feed_config(None)));
    let err = register_plugins(&c).err().unwrap();
    assert_eq!(err, ConfigError::FeedBaseUrl);
    assert_eq!(err.message(), "`[feed]` needs a base URL (set `base_url` top-level or in `[feed]`)");
}

struct Recorder {
    fail_in: Option<Stage>,
}

impl Plugin for Recorder {
    fn name(&self) -> &str {
        "recorder"
    }

    fn typst(&self, overlay: &mut TypstOverlay) -> Result<(), PluginError> {
        if self.fail_in == Some(Stage::Typst) {
            return Err(PluginError::Message("typst".into()));
        }
        overlay.add("recorder.typ", "ran");
        Ok(())
    }

    fn prepare(&self, manifest: &mut SiteManifest) -> Result<(), PluginError> {
        if self.fail_in == Some(Stage::Prepare) {
            return Err(PluginError::Message("prepare".into()));
        }
        manifest.title = Some("prepare ran".into());
        Ok(())
    }

    fn post(&self, out: &mut RenderOutput, _manifest: &SiteManifest) -> Result<(), PluginError> {
        if self.fail_in == Some(Stage::Post) {
            return Err(PluginError::Message("post".into()));
        }
        out.insert("recorder.txt", b"ran".to_vec());
        Ok(())
    }
}

#[test]
fn stages_run_every_plugin_in_order() {
    let site = Site::new(BuildOptions::default())
        .plugin(Taxonomies::new())
        .plugin(Recorder { fail_in: None });
    assert_eq!(site.plugins().len(), 2);
    assert_eq!(site.options().entry, "home.typ");
    let mut overlay = TypstOverlay::new();
    run_typst_stage(site.plugins(), &mut overlay).unwrap();
    assert!(overlay.get("lib/typost/taxonomies.typ").is_some());
    assert_eq!(overlay.get("recorder.typ"), Some("ran"));
    let mut manifest = SiteManifest::default();
    run_prepare_stage(site.plugins(), &mut manifest).unwrap();
    assert_eq!(manifest.title.as_deref(), Some("prepare ran"));
    let mut out = RenderOutput::new();
    run_post_stage(site.plugins(), &mut out, &manifest).unwrap();
    assert_eq!(out.get("recorder.txt").unwrap(), b"ran");
}

#[test]
fn a_failing_plugin_stops_its_stage() {
    let site = Site::default()
        .plugin(Recorder { fail_in: None })
        .plugin(Recorder { fail_in: Some(Stage::Post) });
    let mut out = RenderOutput::new();
    let err = run_post_stage(site.plugins(), &mut out, &SiteManifest::default())
        .err()
        .unwrap();
    assert_eq!(err.index, 1);
    assert_eq!(err.plugin, "recorder");
    assert_eq!(err.stage, Stage::Post);
    assert!(matches!(err.error, PluginError::Message(ref m) if m == "post"));
    assert_eq!(err.message(), "plugin `recorder` failed in its `post` stage");
    assert_eq!(err.error.message(), "post");
    let site = Site::default().plugin(Recorder { fail_in: Some(Stage::Typst) });
    let err = run_typst_stage(site.plugins(), &mut TypstOverlay::new()).err().unwrap();
    assert_eq!((err.index, err.stage), (0, Stage::Typst));
    assert_eq!(err.message(), "plugin `recorder` failed in its `typst` stage");
    let site = Site::default().plugin(Recorder { fail_in: Some(Stage::Prepare) });
    let err = run_prepare_stage(site.plugins(), &mut SiteManifest::default()).err().unwrap();
    assert_eq!((err.index, err.stage), (0, Stage::Prepare));
    assert_eq!(err.message(), "plugin `recorder` failed in its `prepare` stage");
}

fn node(metadata: Option<FrontMatter>, document: Option<&str>, children: Vec<ContentNode>) -> ContentNode {
    ContentNode {
        metadata,
        document: document.map(str::to_owned),
        children,
    }
}

#[test]
fn metadata_is_collected_in_document_order_with_its_route() {
    let content = node(
        None,
        None,
        vec![
            node(Some(marker(vec![("kind", s("site")), ("title", s("Site"))])), None, vec![]),
            node(
                None,
                Some("index.html"),
                vec![node(
                    None,
                    None,
                    vec![
                        node(
                            Some(marker(vec![("kind", s("page")), ("route", s("index.html"))])),
                            None,
                            vec![],
                        ),
                        node(Some(marker(vec![("kind", s("test-marker")), ("value", s("hello"))])), None, vec![]),
                    ],
                )],
            ),
            node(Some(marker(vec![("kind", s("loose"))])), None, vec![]),
        ],
    );
    let manifest = collect_manifest(content);
    assert_eq!(manifest.title.as_deref(), Some("Site"));
    assert_eq!(manifest.pages.len(), 1);
    assert_eq!(manifest.pages[0].route, "index.html");
    assert_eq!(manifest.entries.len(), 2);
    assert_eq!(manifest.entries[0].kind, "test-marker");
    assert_eq!(manifest.entries[0].route.as_deref(), Some("index.html"));
    assert_eq!(
        manifest.entries[0].data.get("value").and_then(FrontMatter::as_str),
        Some("hello")
    );
    assert_eq!(manifest.entries[1].kind, "loose");
    assert_eq!(manifest.entries[1].route, None);
}

#[test]
fn a_nested_document_retags_its_entries() {
    let mut manifest = SiteManifest::default();
    let content = node(
        None,
        Some("outer.html"),
        vec![
            node(None, Some("inner.html"), vec![node(Some(marker(vec![("kind", s("a"))])), None, vec![])]),
            node(Some(marker(vec![("kind", s("b"))])), None, vec![]),
        ],
    );
    walk(content, Some(&"ignored.html".to_owned()), &mut manifest);
    assert_eq!(manifest.entries[0].route.as_deref(), Some("inner.html"));
    assert_eq!(manifest.entries[1].route.as_deref(), Some("outer.html"));
}

#[test]
fn default_build_options_point_at_the_project() {
    let options = BuildOptions::default();
    assert_eq!(options.root, std::path::PathBuf::from("."));
    assert_eq!(options.entry, "home.typ");
    assert_eq!(options.out, std::path::PathBuf::from("dist"));
}

#[test]
fn overlay_paths_are_normalised() {
    let mut overlay = TypstOverlay::new();
    overlay.add("lib/x.typ", "a");
    overlay.add("./lib//x.typ", "b");
    assert_eq!(overlay.len(), 1);
    assert_eq!(overlay.path_at(0), "lib/x.typ");
    assert_eq!(overlay.get("/lib/./x.typ"), Some("b"));
    overlay.add("lib/sub/../y.typ", "c");
    assert_eq!(overlay.path_at(1), "lib/y.typ");
    assert!(!overlay.try_add("../escape.typ", "d"));
    assert!(!overlay.try_add("lib\\z.typ", "d"));
    assert_eq!(overlay.len(), 2);
    assert!(overlay.try_add("lib/z.typ", "e"));
    assert_eq!(overlay.len(), 3);
    assert_eq!(overlay.get("../x"), None);
    assert!(overlay.try_add("/a/./b/", "f"));
    assert_eq!(overlay.path_at(3), "a/b");
    assert!(overlay.try_add("a/b/../../c", "g"));
    assert_eq!(overlay.path_at(4), "c");
    assert!(!overlay.try_add("a/../../c", "h"));
    assert_eq!(overlay.len(), 5);
}
