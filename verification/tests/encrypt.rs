use typost::encrypt::{
    encrypt_regions_with, seal_with, decrypt_bytes, encrypt_bytes, encrypt_regions, lock_html, Encrypt, EncryptError, Locked,
    RegionLock, DEFAULT_HINT,
};
use typost::manifest::{FrontMatter, MetadataEntry, SiteManifest};
use typost::plugin::{Plugin, PluginError, RenderOutput, TypstOverlay};

/// Build a `FrontMatter` dict from string pairs.
fn fm(pairs: &[(&str, &str)]) -> FrontMatter {
    FrontMatter::Dict(
        pairs
            .iter()
            .map(|(k, v)| ((*k).to_owned(), FrontMatter::Str((*v).to_owned())))
            .collect(),
    )
}

fn region(route: &str, password: &str) -> MetadataEntry {
    MetadataEntry {
        kind: "encrypted".into(),
        route: Some(route.into()),
        data: fm(&[("password", password)]),
    }
}

fn manifest(entries: Vec<MetadataEntry>) -> SiteManifest {
    SiteManifest {
        title: None,
        pages: Vec::new(),
        entries,
    }
}

fn chars(s: &str) -> Vec<char> {
    s.chars().collect()
}

fn lock(password: &str) -> RegionLock {
    RegionLock {
        password: password.into(),
        hint: None,
    }
}

#[test]
fn round_trips() {
    let locked = encrypt_bytes("hunter2", b"top secret", 1000).unwrap();
    assert_eq!(decrypt_bytes("hunter2", &locked).unwrap(), b"top secret");
    assert!(decrypt_bytes("wrong", &locked).is_err());
}

#[test]
fn encrypts_inline_regions_in_order() {
    let html = "<main id=\"typost-content\">\
                <p>public</p>\
                <div class=\"typost-encrypted\"><p>secret one <b>bold</b></p></div>\
                <div class=\"typost-encrypted\"><p>secret two</p></div>\
                </main>";
    let mut out = RenderOutput::new();
    out.insert("page.html", html.as_bytes().to_vec());

    let manifest = SiteManifest {
        title: None,
        pages: Vec::new(),
        entries: vec![
            MetadataEntry {
                kind: "encrypted".into(),
                route: Some("page.html".into()),
                data: fm(&[("password", "pw1"), ("hint", "Type <the> word")]),
            },
            MetadataEntry {
                kind: "encrypted".into(),
                route: Some("page.html".into()),
                data: fm(&[("password", "pw2")]),
            },
        ],
    };

    Encrypt::with_iterations(1000)
        .post(&mut out, &manifest)
        .unwrap();

    let result = String::from_utf8(out.get("page.html").unwrap().to_vec()).unwrap();
    assert!(!result.contains("secret one"));
    assert!(!result.contains("secret two"));
    assert!(result.contains("public"));
    assert_eq!(result.matches("typost-lock\"").count(), 2);
    assert_eq!(result.matches("typost-encrypted").count(), 2);
    // A custom hint is rendered and HTML-escaped.
    assert!(result.contains("Type &lt;the&gt; word"));
    // Regions without a hint get the default prompt.
    assert!(result.contains("This part is encrypted"));
}

#[test]
fn no_entries_is_a_noop() {
    let html = "<main id=\"typost-content\"><p>public</p></main>";
    let mut out = RenderOutput::new();
    out.insert("page.html", html.as_bytes().to_vec());
    let manifest = SiteManifest {
        title: None,
        pages: Vec::new(),
        entries: Vec::new(),
    };

    Encrypt::new().post(&mut out, &manifest).unwrap();
    assert_eq!(out.get("page.html").unwrap(), html.as_bytes());
}

#[test]
fn contributes_the_typst_helper() {
    let mut overlay = TypstOverlay::new();
    Encrypt::new().typst(&mut overlay).unwrap();
    let source = overlay
        .get("lib/typost/encrypted.typ")
        .expect("helper contributed");
    assert!(source.contains("#let encrypted"));
}

#[test]
fn the_plugin_is_named_encrypt() {
    assert_eq!(Encrypt::default().name(), "encrypt");
}

#[test]
fn sealing_adds_a_tag_and_hides_the_plaintext() {
    let locked = encrypt_bytes("pw", b"attack at dawn", 1).unwrap();
    assert_eq!(locked.iterations, 1);
    assert_eq!(locked.ciphertext.len(), b"attack at dawn".len() + 16);
    assert_ne!(&locked.ciphertext[..14], b"attack at dawn");
}

#[test]
fn each_lock_gets_a_fresh_salt_and_nonce() {
    let a = encrypt_bytes("pw", b"x", 1).unwrap();
    let b = encrypt_bytes("pw", b"x", 1).unwrap();
    assert!(a.salt != b.salt || a.nonce != b.nonce);
    assert_eq!(decrypt_bytes("pw", &b).unwrap(), b"x");
}

#[test]
fn the_round_count_matters_for_the_key() {
    let mut locked = encrypt_bytes("pw", b"secret", 2).unwrap();
    locked.iterations = 3;
    assert!(matches!(
        decrypt_bytes("pw", &locked),
        Err(EncryptError::WrongPassword)
    ));
}

#[test]
fn lock_markup_carries_base64_parameters_and_ciphertext() {
    let locked = Locked {
        salt: [0u8; 16],
        nonce: [0u8; 12],
        iterations: 1000,
        ciphertext: b"abc".to_vec(),
    };
    let html = lock_html(&locked, None);
    assert!(html.starts_with("<div class=\"typost-lock\"><style>"));
    assert!(html.ends_with("</script></div>"));
    assert!(html.contains(
        "<script type=\"application/json\" class=\"typost-lock-params\">\
         {\"salt\":\"AAAAAAAAAAAAAAAAAAAAAA==\",\"iv\":\"AAAAAAAAAAAAAAAA\",\"iterations\":1000}\
         </script>"
    ));
    assert!(html.contains(
        "<script type=\"text/plain\" class=\"typost-lock-cipher\">YWJj</script>"
    ));
    assert!(html.contains(&format!("<p class=\"typost-lock-hint\">{DEFAULT_HINT}</p>")));
}

#[test]
fn lock_markup_escapes_the_hint() {
    let locked = Locked {
        salt: [255u8; 16],
        nonce: [1u8; 12],
        iterations: 7,
        ciphertext: vec![0xfb, 0xff],
    };
    let html = lock_html(&locked, Some("a \"b\" & 'c'"));
    assert!(html.contains("<p class=\"typost-lock-hint\">a &quot;b&quot; &amp; &#39;c&#39;</p>"));
    assert!(html.contains("\"salt\":\"/////////////////////w==\""));
    assert!(html.contains("\"iv\":\"AQEBAQEBAQEBAQEB\""));
    assert!(html.contains("\"iterations\":7}"));
    assert!(html.contains("class=\"typost-lock-cipher\">+/8=</script>"));
}

#[test]
fn regions_keep_the_page_around_them() {
    let html = "<head>h</head><div class=\"typost-encrypted\">s</div><footer>f</footer>";
    let out: String = encrypt_regions(&chars(html), &[lock("pw")], 1)
        .unwrap()
        .into_iter()
        .collect();
    assert!(out.starts_with("<head>h</head><div class=\"typost-encrypted\"><div class=\"typost-lock\">"));
    assert!(out.ends_with("</script></div></div><footer>f</footer>"));
    assert!(!out.contains(">s<"));
}

#[test]
fn fewer_regions_than_passwords_fail() {
    let html = "<div class=\"typost-encrypted\">s</div>";
    let r = encrypt_regions(&chars(html), &[lock("a"), lock("b")], 1);
    assert!(matches!(
        r,
        Err(EncryptError::MissingRegions {
            expected: 2,
            found: 1
        })
    ));
}

#[test]
fn more_regions_than_passwords_fail() {
    let html = "<div class=\"typost-encrypted\">s</div><div class=\"typost-encrypted\">t</div>";
    let r = encrypt_regions(&chars(html), &[lock("a")], 1);
    assert!(matches!(r, Err(EncryptError::ExtraRegions)));
    assert_eq!(
        r.unwrap_err().message(),
        "encrypt: more encrypted regions than passwords"
    );
}

#[test]
fn an_unclosed_region_fails() {
    let html = "<div class=\"typost-encrypted\"><div>s</div>";
    let r = encrypt_regions(&chars(html), &[lock("a")], 1);
    assert!(matches!(r, Err(EncryptError::Unterminated)));
}

#[test]
fn nested_divisions_stay_inside_their_region() {
    let html = "<div class=\"typost-encrypted\"><div><div>s</div></div></div>tail";
    let out: String = encrypt_regions(&chars(html), &[lock("a")], 1)
        .unwrap()
        .into_iter()
        .collect();
    assert!(out.ends_with("</script></div></div>tail"));
    assert_eq!(out.matches("<div").count(), 2);
}

#[test]
fn a_region_on_a_page_that_was_not_rendered_fails() {
    let mut out = RenderOutput::new();
    let r = Encrypt::with_iterations(1).post(&mut out, &manifest(vec![region("gone.html", "pw")]));
    match r {
        Err(PluginError::Encrypt(EncryptError::PageNotRendered(route))) => {
            assert_eq!(route, "gone.html")
        }
        other => panic!("unexpected result: {other:?}"),
    }
}

#[test]
fn a_page_that_is_not_utf8_fails() {
    let mut out = RenderOutput::new();
    out.insert("bad.html", vec![0xff, 0x00]);
    let r = Encrypt::with_iterations(1).post(&mut out, &manifest(vec![region("bad.html", "pw")]));
    match r {
        Err(PluginError::Encrypt(EncryptError::NotUtf8(route))) => assert_eq!(route, "bad.html"),
        other => panic!("unexpected result: {other:?}"),
    }
}

#[test]
fn entries_without_a_password_or_of_another_kind_are_ignored() {
    let html = "<div class=\"typost-encrypted\">s</div>";
    let mut out = RenderOutput::new();
    out.insert("p.html", html.as_bytes().to_vec());
    let entries = vec![
        MetadataEntry {
            kind: "encrypted".into(),
            route: Some("p.html".into()),
            data: fm(&[("password", "")]),
        },
        MetadataEntry {
            kind: "encrypted".into(),
            route: Some("p.html".into()),
            data: fm(&[("hint", "h")]),
        },
        MetadataEntry {
            kind: "tags".into(),
            route: Some("p.html".into()),
            data: fm(&[("password", "pw")]),
        },
        MetadataEntry {
            kind: "encrypted".into(),
            route: None,
            data: fm(&[("password", "pw")]),
        },
    ];
    Encrypt::with_iterations(1)
        .post(&mut out, &manifest(entries))
        .unwrap();
    assert_eq!(out.get("p.html").unwrap(), html.as_bytes());
}

#[test]
fn pages_are_locked_independently() {
    let html = "<div class=\"typost-encrypted\">s</div>";
    let mut out = RenderOutput::new();
    out.insert("a.html", html.as_bytes().to_vec());
    out.insert("b.html", html.as_bytes().to_vec());
    out.insert("c.html", html.as_bytes().to_vec());
    Encrypt::with_iterations(1)
        .post(
            &mut out,
            &manifest(vec![region("c.html", "x"), region("a.html", "y")]),
        )
        .unwrap();
    assert_eq!(out.len(), 3);
    assert!(String::from_utf8(out.get("a.html").unwrap().to_vec()).unwrap().contains("typost-lock"));
    assert_eq!(out.get("b.html").unwrap(), html.as_bytes());
    assert!(String::from_utf8(out.get("c.html").unwrap().to_vec()).unwrap().contains("typost-lock"));
}

#[test]
fn the_default_round_count_is_the_documented_one() {
    assert_eq!(typost::encrypt::DEFAULT_ITERATIONS, 600_000);
}

fn page(route: &str, data: FrontMatter) -> typost::manifest::PageMeta {
    typost::manifest::PageMeta {
        route: route.into(),
        src: None,
        data,
    }
}

#[test]
fn a_page_opts_in_with_its_front_matter_password() {
    let mut out = RenderOutput::new();
    out.insert(
        "p.html",
        b"<main id=\"typost-content\"><p>s</p></main>".to_vec(),
    );
    let m = SiteManifest {
        title: None,
        pages: vec![page("p.html", fm(&[("password", "pw")]))],
        entries: Vec::new(),
    };
    Encrypt::with_iterations(1000).post(&mut out, &m).unwrap();
    let html = String::from_utf8(out.get("p.html").unwrap().to_vec()).unwrap();
    assert!(!html.contains("<p>s</p>"));
    assert_eq!(html.matches("typost-lock\"").count(), 1);
    assert!(html.starts_with("<main id=\"typost-content\">"));
    assert!(html.ends_with("</main>"));
}

#[test]
fn a_page_with_an_empty_password_stays_plain() {
    let mut out = RenderOutput::new();
    let html = b"<main id=\"typost-content\"><p>s</p></main>".to_vec();
    out.insert("p.html", html.clone());
    let m = SiteManifest {
        title: None,
        pages: vec![page("p.html", fm(&[("password", "")]))],
        entries: Vec::new(),
    };
    Encrypt::with_iterations(1).post(&mut out, &m).unwrap();
    assert_eq!(out.get("p.html").unwrap(), html.as_slice());
}

#[test]
fn a_locked_page_without_a_content_region_fails() {
    let mut out = RenderOutput::new();
    out.insert("p.html", b"<p>s</p>".to_vec());
    let m = SiteManifest {
        title: None,
        pages: vec![page("p.html", fm(&[("password", "pw")]))],
        entries: Vec::new(),
    };
    let r = Encrypt::with_iterations(1).post(&mut out, &m);
    match r {
        Err(PluginError::Encrypt(EncryptError::NoContentRegion)) => {}
        other => panic!("unexpected result: {other:?}"),
    }
    assert_eq!(out.get("p.html").unwrap(), b"<p>s</p>");
}

#[test]
fn a_content_hint_is_lifted_into_the_lock() {
    let mut out = RenderOutput::new();
    out.insert(
        "p.html",
        b"<template class=\"typost-hint\"><em>Ask</em></template><div class=\"typost-encrypted\"><p>s</p></div>"
            .to_vec(),
    );
    let entry = MetadataEntry {
        kind: "encrypted".into(),
        route: Some("p.html".into()),
        data: FrontMatter::Dict(vec![
            ("password".into(), FrontMatter::Str("pw".into())),
            ("hint".into(), FrontMatter::Null),
        ]),
    };
    Encrypt::with_iterations(1000)
        .post(&mut out, &manifest(vec![entry]))
        .unwrap();
    let html = String::from_utf8(out.get("p.html").unwrap().to_vec()).unwrap();
    assert!(html.contains("<p class=\"typost-lock-hint\"><em>Ask</em></p>"));
    assert!(!html.contains(DEFAULT_HINT));
    assert!(!html.contains("<template class=\"typost-hint\">"));
    assert!(!html.contains("<p>s</p>"));
}

#[test]
fn a_failed_lock_leaves_the_output_alone() {
    let mut out = RenderOutput::new();
    let r = Encrypt::with_iterations(1000).post(&mut out, &manifest(vec![region("missing.html", "pw")]));
    match r {
        Err(e) => assert_eq!(e.message(), "encrypt: page `missing.html` was not rendered"),
        other => panic!("unexpected result: {other:?}"),
    }
    assert_eq!(out.len(), 0);
}

#[test]
fn region_errors_name_the_problem() {
    let r = encrypt_regions(&chars("<p>x</p>"), &[lock("pw")], 1000);
    assert!(matches!(
        r,
        Err(EncryptError::MissingRegions { expected: 1, found: 0 })
    ));
    assert_eq!(
        r.unwrap_err().message(),
        "encrypt: expected 1 encrypted region(s), found 0"
    );
    let r = encrypt_regions(&chars("<div class=\"typost-encrypted\">a</div>"), &[], 1000);
    assert!(matches!(r, Err(EncryptError::ExtraRegions)));
    assert_eq!(
        r.unwrap_err().message(),
        "encrypt: more encrypted regions than passwords"
    );
}

#[test]
fn errors_say_what_went_wrong() {
    assert_eq!(
        EncryptError::NotUtf8("a.html".into()).message(),
        "encrypt: page `a.html` is not UTF-8"
    );
    assert_eq!(
        EncryptError::MissingRegions { expected: 12, found: 3 }.message(),
        "encrypt: expected 12 encrypted region(s), found 3"
    );
    assert_eq!(
        EncryptError::Unterminated.message(),
        "encrypt: unterminated encrypted region"
    );
    assert_eq!(EncryptError::Rng.message(), "encrypt: rng failed");
    assert_eq!(EncryptError::Cipher.message(), "encrypt: encryption failed");
    assert_eq!(
        EncryptError::WrongPassword.message(),
        "decrypt: wrong password or corrupt ciphertext"
    );
    assert_eq!(
        PluginError::Message("boom".into()).message(),
        "boom"
    );
    assert_eq!(
        PluginError::Encrypt(EncryptError::ExtraRegions).message(),
        "encrypt: more encrypted regions than passwords"
    );
}

#[test]
fn a_lock_carries_its_marker_once() {
    let locked = encrypt_bytes("pw", b"secret", 1000).unwrap();
    for hint in [None, Some("a \"quoted\" typost-lock\" hint")] {
        let html = lock_html(&locked, hint);
        assert_eq!(html.matches("typost-lock\"").count(), 1);
        assert_eq!(html.find("typost-lock\""), Some(12));
    }
}

#[test]
fn the_same_draw_changes_only_the_ciphertext() {
    let salt = [7u8; 16];
    let nonce = [9u8; 12];
    let a = seal_with("one", b"secret text", salt, nonce, 1000).unwrap();
    let b = seal_with("two", b"secret text", salt, nonce, 1000).unwrap();
    let a2 = seal_with("one", b"secret text", salt, nonce, 1000).unwrap();
    let (ha, hb) = (lock_html(&a, None), lock_html(&b, None));
    assert_ne!(ha, hb);
    assert_eq!(ha.len(), hb.len());
    let cut = ha.find("typost-lock-cipher\">").unwrap();
    assert_eq!(&ha[..cut], &hb[..cut]);
    assert_eq!(&ha[ha.len() - 1500..], &hb[hb.len() - 1500..]);
    assert_eq!(lock_html(&a2, None), ha);
    assert_eq!(decrypt_bytes("two", &b).unwrap(), b"secret text");
}

#[test]
fn the_same_draws_change_only_the_ciphertexts_of_a_page() {
    let html = chars(
        "<main><p>a</p><div class=\"typost-encrypted\"><p>one</p></div>\
         <p>b</p><div class=\"typost-encrypted\"><p>two</p></div></main>",
    );
    let draws = [([1u8; 16], [2u8; 12]), ([3u8; 16], [4u8; 12])];
    let a = encrypt_regions_with(&html, &[lock("x"), lock("y")], 1000, &draws).unwrap();
    let b = encrypt_regions_with(&html, &[lock("p"), lock("q")], 1000, &draws).unwrap();
    let a2 = encrypt_regions_with(&html, &[lock("x"), lock("y")], 1000, &draws).unwrap();
    assert_eq!(a, a2);
    assert_ne!(a, b);
    assert_eq!(a.len(), b.len());
    let (a, b): (String, String) = (a.into_iter().collect(), b.into_iter().collect());
    assert!(!a.contains("\"x\"") && !b.contains("\"p\""));
    let marker = "typost-lock-cipher\">";
    let parts_a: Vec<&str> = a.split(marker).collect();
    let parts_b: Vec<&str> = b.split(marker).collect();
    assert_eq!(parts_a.len(), 3);
    assert_eq!(parts_a[0], parts_b[0]);
    for k in 1..3 {
        let (ca, ra) = parts_a[k].split_once("</script>").unwrap();
        let (cb, rb) = parts_b[k].split_once("</script>").unwrap();
        assert_ne!(ca, cb);
        assert_eq!(ra, rb);
    }
    assert!(matches!(
        encrypt_regions_with(&html, &[lock("x")], 1000, &draws[..1]),
        Err(EncryptError::ExtraRegions)
    ));
}
