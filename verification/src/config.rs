//! `typost.toml` and the plugin list it selects.
use vstd::prelude::*;

use crate::encrypt::{Encrypt, DEFAULT_ITERATIONS};
use crate::feed::Feed;
use crate::manifest::{ManifestView, SiteManifest};
use crate::plugin::{Plugin, PluginError, RenderOutput, TypstOverlay};
use crate::sitemap::Sitemap;
use crate::taxonomies::Taxonomies;

verus! {

/// `typost.toml`.
pub struct Config {
    /// The entry file, relative to the project root.
    pub entry: String,
    /// The output directory, relative to the project root.
    pub out: std::path::PathBuf,
    /// The site's base URL, shared by plugins that need absolute URLs.
    pub base_url: Option<String>,
    /// Optional sitemap plugin configuration.
    pub sitemap: Option<SitemapConfig>,
    /// Optional Atom feed plugin configuration.
    pub feed: Option<FeedConfig>,
}

/// `[sitemap]` in `typost.toml`.
pub struct SitemapConfig {
    /// Overrides the top-level `base_url`.
    pub base_url: Option<String>,
}

/// `[feed]` in `typost.toml`.
pub struct FeedConfig {
    /// Overrides the top-level `base_url`.
    pub base_url: Option<String>,
    /// The feed's output path (default `atom.xml`).
    pub path: Option<String>,
    /// The maximum number of entries (default 20).
    pub limit: Option<usize>,
    /// The front-matter `section` to include (default `post`).
    pub section: Option<String>,
    /// The feed title (defaults to the site title).
    pub title: Option<String>,
    /// The feed subtitle.
    pub description: Option<String>,
    /// The feed author name.
    pub author: Option<String>,
}

/// The characters of an optional string.
pub open spec fn opt_chars(s: Option<String>) -> Option<Seq<char>> {
    match s {
        Some(v) => Some(v@),
        None => None,
    }
}

/// A plugin's base URL: its own override, then the top-level one.
pub open spec fn resolve_base(top: Option<String>, own: Option<String>) -> Option<Seq<char>> {
    match own {
        Some(u) => Some(u@),
        None => opt_chars(top),
    }
}

impl Config {
    /// Resolve a plugin's base URL: its own override, then the top-level one.
    pub fn base_url<'a>(&'a self, override_url: Option<&'a str>) -> (r: Option<&'a str>)
        ensures
            match override_url {
                Some(u) => r == Some(u),
                None => match self.base_url {
                    Some(b) => r matches Some(x) && x@ == b@,
                    None => r is None,
                },
            },
    {
        match override_url {
            Some(u) => Some(u),
            None => match &self.base_url {
                Some(b) => Some(b.as_str()),
                None => None,
            },
        }
    }
}

/// A configuration the plugin list cannot be built from.
#[derive(Debug, PartialEq, Eq)]
pub enum ConfigError {
    /// `[sitemap]` is present but no base URL is set for it.
    SitemapBaseUrl,
    /// `[feed]` is present but no base URL is set for it.
    FeedBaseUrl,
}

impl ConfigError {
    /// The message shown to the user.
    pub fn message(&self) -> (r: &'static str)
        ensures
            r@ == match *self {
                ConfigError::SitemapBaseUrl => "`[sitemap]` needs a base URL (set `base_url` top-level or in `[sitemap]`)"@,
                ConfigError::FeedBaseUrl => "`[feed]` needs a base URL (set `base_url` top-level or in `[feed]`)"@,
            },
    {
        match self {
            ConfigError::SitemapBaseUrl => "`[sitemap]` needs a base URL (set `base_url` top-level or in `[sitemap]`)",
            ConfigError::FeedBaseUrl => "`[feed]` needs a base URL (set `base_url` top-level or in `[feed]`)",
        }
    }
}

/// One of the first-party plugins.
pub enum BuiltinPlugin {
    /// Build-time encryption of marked regions.
    Encrypt(Encrypt),
    /// The taxonomy pages module.
    Taxonomies(Taxonomies),
    /// `sitemap.xml`.
    Sitemap(Sitemap),
    /// The Atom feed.
    Feed(Feed),
}

impl Plugin for BuiltinPlugin {
    open spec fn typst_effect(
        &self,
        before: Seq<(Seq<char>, Seq<char>)>,
        after: Seq<(Seq<char>, Seq<char>)>,
        r: Result<(), PluginError>,
    ) -> bool {
        match *self {
            BuiltinPlugin::Encrypt(p) => p.typst_effect(before, after, r),
            BuiltinPlugin::Taxonomies(p) => p.typst_effect(before, after, r),
            BuiltinPlugin::Sitemap(p) => p.typst_effect(before, after, r),
            BuiltinPlugin::Feed(p) => p.typst_effect(before, after, r),
        }
    }

    open spec fn prepare_effect(&self, before: ManifestView, after: ManifestView, r: Result<(), PluginError>) -> bool {
        match *self {
            BuiltinPlugin::Encrypt(p) => p.prepare_effect(before, after, r),
            BuiltinPlugin::Taxonomies(p) => p.prepare_effect(before, after, r),
            BuiltinPlugin::Sitemap(p) => p.prepare_effect(before, after, r),
            BuiltinPlugin::Feed(p) => p.prepare_effect(before, after, r),
        }
    }

    open spec fn post_effect(
        &self,
        before: Seq<(Seq<char>, Seq<u8>)>,
        manifest: SiteManifest,
        after: Seq<(Seq<char>, Seq<u8>)>,
        r: Result<(), PluginError>,
    ) -> bool {
        match *self {
            BuiltinPlugin::Encrypt(p) => p.post_effect(before, manifest, after, r),
            BuiltinPlugin::Taxonomies(p) => p.post_effect(before, manifest, after, r),
            BuiltinPlugin::Sitemap(p) => p.post_effect(before, manifest, after, r),
            BuiltinPlugin::Feed(p) => p.post_effect(before, manifest, after, r),
        }
    }

    fn name(&self) -> (r: &str)
        ensures
            r@ == match *self {
                BuiltinPlugin::Encrypt(_) => "encrypt"@,
                BuiltinPlugin::Taxonomies(_) => "taxonomies"@,
                BuiltinPlugin::Sitemap(_) => "sitemap"@,
                BuiltinPlugin::Feed(_) => "feed"@,
            },
    {
        match self {
            BuiltinPlugin::Encrypt(p) => p.name(),
            BuiltinPlugin::Taxonomies(p) => p.name(),
            BuiltinPlugin::Sitemap(p) => p.name(),
            BuiltinPlugin::Feed(p) => p.name(),
        }
    }

    fn typst(&self, overlay: &mut TypstOverlay) -> (r: Result<(), PluginError>)
        ensures
            self.typst_effect(old(overlay)@, final(overlay)@, r),
    {
        match self {
            BuiltinPlugin::Encrypt(p) => p.typst(overlay),
            BuiltinPlugin::Taxonomies(p) => p.typst(overlay),
            BuiltinPlugin::Sitemap(p) => p.typst(overlay),
            BuiltinPlugin::Feed(p) => p.typst(overlay),
        }
    }

    fn prepare(&self, manifest: &mut SiteManifest) -> (r: Result<(), PluginError>)
        ensures
            self.prepare_effect(old(manifest)@, final(manifest)@, r),
    {
        match self {
            BuiltinPlugin::Encrypt(p) => p.prepare(manifest),
            BuiltinPlugin::Taxonomies(p) => p.prepare(manifest),
            BuiltinPlugin::Sitemap(p) => p.prepare(manifest),
            BuiltinPlugin::Feed(p) => p.prepare(manifest),
        }
    }

    fn post(&self, out: &mut RenderOutput, manifest: &SiteManifest) -> (r: Result<(), PluginError>)
        ensures
            self.post_effect(old(out)@, *manifest, final(out)@, r),
    {
        match self {
            BuiltinPlugin::Encrypt(p) => p.post(out, manifest),
            BuiltinPlugin::Taxonomies(p) => p.post(out, manifest),
            BuiltinPlugin::Sitemap(p) => p.post(out, manifest),
            BuiltinPlugin::Feed(p) => p.post(out, manifest),
        }
    }
}

/// `p` is the feed plugin that `[feed]` describes, with base URL `base`.
pub open spec fn feed_configured(p: Feed, f: FeedConfig, base: Seq<char>) -> bool {
    &&& p.spec_base_url() == base
    &&& p.spec_path() == match f.path {
        Some(x) => x@,
        None => "atom.xml"@,
    }
    &&& p.spec_limit() == match f.limit {
        Some(l) => l,
        None => 20,
    }
    &&& p.spec_section() == match f.section {
        Some(x) => x@,
        None => "post"@,
    }
    &&& p.spec_title() == opt_chars(f.title)
    &&& p.spec_description() == opt_chars(f.description)
    &&& p.spec_author() == opt_chars(f.author)
}

/// The feed plugin for `[feed]`, with base URL `base`.
fn configure_feed(f: &FeedConfig, base: &str) -> (r: Feed)
    ensures
        feed_configured(r, *f, base@),
{
    let mut plugin = Feed::new(base);
    if let Some(path) = &f.path {
        plugin = plugin.path(path.as_str());
    }
    if let Some(limit) = f.limit {
        plugin = plugin.limit(limit);
    }
    if let Some(section) = &f.section {
        plugin = plugin.section(section.as_str());
    }
    if let Some(title) = &f.title {
        plugin = plugin.title(title.as_str());
    }
    if let Some(description) = &f.description {
        plugin = plugin.description(description.as_str());
    }
    if let Some(author) = &f.author {
        plugin = plugin.author(author.as_str());
    }
    plugin
}

/// Why `config` cannot select a plugin list, if it cannot: a present
/// `[sitemap]` or `[feed]` without a base URL, checked in that order.
pub open spec fn config_failure(config: Config) -> Option<ConfigError> {
    if config.sitemap matches Some(s) && resolve_base(config.base_url, s.base_url) is None {
        Some(ConfigError::SitemapBaseUrl)
    } else if config.feed matches Some(f) && resolve_base(config.base_url, f.base_url) is None {
        Some(ConfigError::FeedBaseUrl)
    } else {
        None
    }
}

/// `v` is the plugin list that `config` selects, in running order.
pub open spec fn plugins_selected(config: Config, v: Seq<BuiltinPlugin>) -> bool {
    let sitemap_at = 2int;
    let feed_at = if config.sitemap is Some { 3int } else { 2int };
    &&& v.len() == feed_at + if config.feed is Some { 1int } else { 0int }
    &&& v[0] matches BuiltinPlugin::Encrypt(p) && p.spec_iterations() == DEFAULT_ITERATIONS
    &&& v[1] is Taxonomies
    &&& config.sitemap matches Some(s) ==> (v[sitemap_at] matches BuiltinPlugin::Sitemap(p)
        && resolve_base(config.base_url, s.base_url) == Some(p@))
    &&& config.feed matches Some(f) ==> (v[feed_at] matches BuiltinPlugin::Feed(p)
        && feed_configured(p, f, resolve_base(config.base_url, f.base_url)->0))
}

/// The compile-time plugin list, in the order the plugins run: encryption
/// (pages opt in with a password), the taxonomies module, then the sitemap
/// and the feed when `typost.toml` configures them.
pub fn register_plugins(config: &Config) -> (r: Result<Vec<BuiltinPlugin>, ConfigError>)
    ensures
        config_failure(*config) matches Some(e) ==> r == Err::<Vec<BuiltinPlugin>, ConfigError>(e),
        config_failure(*config) is None ==> (r matches Ok(v) && plugins_selected(*config, v@)),
{
    let mut plugins: Vec<BuiltinPlugin> = Vec::new();
    plugins.push(BuiltinPlugin::Encrypt(Encrypt::new()));
    plugins.push(BuiltinPlugin::Taxonomies(Taxonomies::new()));
    if let Some(sitemap) = &config.sitemap {
        let own = match &sitemap.base_url {
            Some(u) => Some(u.as_str()),
            None => None,
        };
        let base = match config.base_url(own) {
            Some(b) => b,
            None => return Err(ConfigError::SitemapBaseUrl),
        };
        plugins.push(BuiltinPlugin::Sitemap(Sitemap::new(base)));
    }
    if let Some(feed) = &config.feed {
        let own = match &feed.base_url {
            Some(u) => Some(u.as_str()),
            None => None,
        };
        let base = match config.base_url(own) {
            Some(b) => b,
            None => return Err(ConfigError::FeedBaseUrl),
        };
        plugins.push(BuiltinPlugin::Feed(configure_feed(feed, base)));
    }
    Ok(plugins)
}

} // verus!
