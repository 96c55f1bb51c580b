use website_icon_extract::markup::{equal_ignoring_case, scan_elements, starts_with_bytes};
use website_icon_extract::resolve::is_web_url;
use website_icon_extract::{
    analyze_content, analyze_location, check_start_elem, extract, page_url, probe_targets,
    resolve_candidates, Attribute, Element, IconError, ImageLink, ImageType,
};

fn attr(name: &str, value: &str) -> Option<Attribute> {
    Some(Attribute { name: name.to_string(), value: value.to_string() })
}

fn ico_16() -> Vec<u8> {
    vec![
        0x00, 0x00, 0x01, 0x00, 0x01, 0x00, 0x10, 0x10, 0x00, 0x00, 0x01, 0x00, 0x20, 0x00, 0x68,
        0x04, 0x00, 0x00, 0x16, 0x00, 0x00, 0x00,
    ]
}

fn png_512() -> Vec<u8> {
    vec![
        0x89, 0x50, 0x4E, 0x47, 0x0D, 0x0A, 0x1A, 0x0A, 0x00, 0x00, 0x00, 0x0D, 0x49, 0x48, 0x44,
        0x52, 0x00, 0x00, 0x02, 0x00, 0x00, 0x00, 0x02, 0x00, 0x08, 0x06, 0x00, 0x00, 0x00, 0x9A,
        0x38, 0xC4,
    ]
}

#[test]
fn link_icon_yields_href() {
    let html = r#"<html><head><link rel="icon" href="/x.png"></head><body></body></html>"#;
    assert_eq!(analyze_content(html), vec!["/x.png".to_string()]);
}

#[test]
fn link_icon_any_order_and_spacing() {
    let html = "<html><head>\n  <link   href=\"/x.png\"\n   rel=\"icon\"  />\n</head></html>";
    assert_eq!(analyze_content(html), vec!["/x.png".to_string()]);
}

#[test]
fn upper_case_markup_matches_lower_case() {
    let upper = analyze_content(r#"<LINK REL="ICON" HREF="/a.png">"#);
    let lower = analyze_content(r#"<link rel="icon" href="/a.png">"#);
    assert_eq!(upper, vec!["/a.png".to_string()]);
    assert_eq!(upper, lower);
}

#[test]
fn candidate_keeps_its_case() {
    let html = r#"<link rel="Shortcut Icon" href="/Static/Fav.ICO">"#;
    assert_eq!(analyze_content(html), vec!["/Static/Fav.ICO".to_string()]);
}

#[test]
fn apple_touch_icon_and_meta_tags() {
    let html = [
        r#"<html><head><link rel="apple-touch-icon" href="/touch.png"/>"#,
        r#"<meta name="msapplication-TileImage" content="/tile.png">"#,
        r#"<meta property="og:image" content="https://cdn.example.com/og.png">"#,
        r#"<link rel="stylesheet" href="/style.css"><meta name="viewport" content="width=device-width">"#,
        r#"</head><body><img src="/not-an-icon.png"></body></html>"#,
    ]
    .join("");
    let html = html.as_str();
    assert_eq!(
        analyze_content(html),
        vec![
            "/touch.png".to_string(),
            "/tile.png".to_string(),
            "https://cdn.example.com/og.png".to_string()
        ]
    );
}

#[test]
fn meta_name_and_property_both_fire() {
    let e = Element {
        name: "meta".to_string(),
        attributes: vec![
            attr("name", "msapplication-square70x70logo"),
            attr("property", "OG:IMAGE"),
            attr("content", "/both.png"),
        ],
    };
    assert_eq!(check_start_elem(&e), vec!["/both.png".to_string(), "/both.png".to_string()]);
}

#[test]
fn unreadable_attribute_is_skipped() {
    let e = Element {
        name: "Link".to_string(),
        attributes: vec![attr("REL", "icon"), None, attr("Href", "/k.png")],
    };
    assert_eq!(check_start_elem(&e), vec!["/k.png".to_string()]);
    let other = Element { name: "a".to_string(), attributes: vec![attr("rel", "icon"), attr("href", "/k.png")] };
    assert_eq!(check_start_elem(&other), Vec::<String>::new());
}

#[test]
fn extract_matches_keyword_ignoring_case() {
    let attrs = vec![attr("Rel", "ICON"), attr("href", "/Mixed.png")];
    let names = vec!["apple-touch-icon", "shortcut icon", "icon"];
    assert_eq!(extract(&attrs, &names, "rel", "href"), vec!["/Mixed.png".to_string()]);
    assert_eq!(extract(&attrs, &vec!["og:image"], "rel", "href"), Vec::<String>::new());
    assert_eq!(extract(&attrs, &names, "rel", "content"), Vec::<String>::new());
}

#[test]
fn last_attribute_of_a_name_wins() {
    let attrs = vec![attr("href", "/first.png"), attr("rel", "icon"), attr("HREF", "/second.png")];
    let names = vec!["icon"];
    assert_eq!(extract(&attrs, &names, "rel", "href"), vec!["/second.png".to_string()]);
}

#[test]
fn scan_elements_in_order() {
    let els = vec![
        Element { name: "link".to_string(), attributes: vec![attr("rel", "icon"), attr("href", "/1.png")] },
        Element { name: "div".to_string(), attributes: vec![] },
        Element { name: "meta".to_string(), attributes: vec![attr("property", "og:image"), attr("content", "/2.png")] },
    ];
    assert_eq!(scan_elements(&els), vec!["/1.png".to_string(), "/2.png".to_string()]);
}

#[test]
fn non_html_content_is_not_scanned() {
    let body = r#"<link rel="icon" href="/x.png">"#;
    assert!(analyze_location(Some("application/json"), body).is_empty());
    assert!(analyze_location(None, body).is_empty());
    assert_eq!(analyze_location(Some("text/html; charset=utf-8"), body), vec!["/x.png".to_string()]);
}

#[test]
fn resolve_root_relative_reference() {
    let r = resolve_candidates("https://example.com/page", &vec!["/favicon.ico".to_string()]);
    assert_eq!(r, vec!["https://example.com/favicon.ico".to_string()]);
}

#[test]
fn resolve_relative_and_protocol_relative() {
    let cands = vec![
        "img/a.png".to_string(),
        "//cdn.example.org/b.png".to_string(),
        "https://other.example.net/c.png".to_string(),
    ];
    let r = resolve_candidates("https://example.com/dir/page.html", &cands);
    assert_eq!(
        r,
        vec![
            "https://example.com/dir/img/a.png".to_string(),
            "https://cdn.example.org/b.png".to_string(),
            "https://other.example.net/c.png".to_string()
        ]
    );
}

#[test]
fn resolve_drops_non_web_schemes_and_bad_base() {
    let cands = vec!["data:image/png;base64,AAAA".to_string(), "mailto:a@b.c".to_string()];
    assert!(resolve_candidates("https://example.com/", &cands).is_empty());
    assert!(resolve_candidates("not a url", &vec!["/x.png".to_string()]).is_empty());
}

#[test]
fn duplicate_addresses_give_one_target() {
    let html = r#"<link rel="icon" href="/a.png"><link rel="shortcut icon" href="https://example.com/a.png">"#;
    let r = probe_targets("https://example.com/", Some("text/html"), html);
    assert_eq!(
        r,
        vec!["https://example.com/a.png".to_string(), "https://example.com/favicon.ico".to_string()]
    );
}

#[test]
fn favicon_named_in_markup_is_probed_once() {
    let html = r#"<link rel="icon" href="/favicon.ico">"#;
    let r = probe_targets("https://example.com/x/y", Some("text/html"), html);
    assert_eq!(r, vec!["https://example.com/favicon.ico".to_string()]);
}

#[test]
fn json_page_still_probes_favicon() {
    let body = r#"{"icon": "<link rel=\"icon\" href=\"/x.png\">"}"#;
    let r = probe_targets("https://example.com/api", Some("application/json"), body);
    assert_eq!(r, vec!["https://example.com/favicon.ico".to_string()]);
}

#[test]
fn page_url_checks_input() {
    assert_eq!(page_url("https://example.com"), Ok("https://example.com/".to_string()));
    assert_eq!(page_url("http://example.com/a?b=c"), Ok("http://example.com/a?b=c".to_string()));
    assert_eq!(page_url("not a url"), Err(IconError::InvalidUrl));
    assert_eq!(page_url("ftp://example.com/"), Err(IconError::InvalidUrl));
    assert_eq!(page_url(""), Err(IconError::InvalidUrl));
}

#[test]
fn sniff_ico_16() {
    let link = ImageLink::new("https://example.com/favicon.ico".to_string(), &ico_16()).unwrap();
    assert_eq!(link.image_type, ImageType::Ico);
    assert_eq!((link.width, link.height), (16, 16));
    assert_eq!(link.url, "https://example.com/favicon.ico");
}

#[test]
fn sniff_truncated() {
    let data = ico_16();
    let r = ImageLink::new("https://example.com/favicon.ico".to_string(), &data[..5]);
    assert_eq!(r.unwrap_err(), IconError::TruncatedData);
    let r = ImageLink::new("https://example.com/e.png".to_string(), &[]);
    assert_eq!(r.unwrap_err(), IconError::TruncatedData);
}

#[test]
fn sniff_unsupported() {
    let r = ImageLink::new("https://example.com/a.txt".to_string(), b"hello, world, this is text");
    assert_eq!(r.unwrap_err(), IconError::UnsupportedFormat);
}

#[test]
fn sniff_png_512() {
    let link = ImageLink::new("https://cdn.example.com/og.png".to_string(), &png_512()).unwrap();
    assert_eq!(link.image_type, ImageType::Png);
    assert_eq!((link.width, link.height), (512, 512));
}

#[test]
fn collect_drops_failed_probes() {
    let html = r#"<link rel="icon" href="/a.ico"><link rel="icon" href="/b.png"><link rel="icon" href="/c.png">"#;
    let outcomes = vec![Ok(ico_16()), Err(IconError::FetchError), Ok(vec![1, 2, 3])];
    let links = ImageLink::from_website("https://example.com/", Some("text/html"), html, &outcomes).unwrap();
    assert_eq!(links.len(), 1);
    assert_eq!(links[0].url, "https://example.com/a.ico");
    let none = ImageLink::from_website("https://example.com/", Some("text/html"), html, &Vec::new()).unwrap();
    assert!(none.is_empty());
}

#[test]
fn og_image_end_to_end() {
    let base = page_url("https://example.com/").unwrap();
    let html = r#"<html><head><meta property="og:image" content="https://cdn.example.com/og.png"></head></html>"#;
    let targets = probe_targets(&base, Some("text/html; charset=utf-8"), html);
    assert_eq!(
        targets,
        vec!["https://cdn.example.com/og.png".to_string(), "https://example.com/favicon.ico".to_string()]
    );
    let outcomes: Vec<Result<Vec<u8>, IconError>> = targets
        .iter()
        .map(|u| if u.ends_with("og.png") { Ok(png_512()) } else { Err(IconError::FetchError) })
        .collect();
    let links = ImageLink::from_website("https://example.com/", Some("text/html; charset=utf-8"), html, &outcomes).unwrap();
    assert_eq!(links.len(), 1);
    assert_eq!(links[0].url, "https://cdn.example.com/og.png");
    assert_eq!(links[0].image_type, ImageType::Png);
    assert_eq!((links[0].width, links[0].height), (512, 512));
}

#[test]
fn website_with_invalid_address_fails() {
    let r = ImageLink::from_website("not a url", Some("text/html"), "", &vec![Ok(ico_16())]);
    assert_eq!(r.unwrap_err(), IconError::InvalidUrl);
    let r = ImageLink::from_website("ftp://example.com/", Some("text/html"), "", &vec![Ok(ico_16())]);
    assert_eq!(r.unwrap_err(), IconError::InvalidUrl);
}

#[test]
fn json_page_yields_only_favicon() {
    let body = r#"<link rel="icon" href="/x.png">"#;
    let links = ImageLink::from_website("https://example.com/page", Some("application/json"), body, &vec![Ok(ico_16()), Ok(png_512())]).unwrap();
    assert_eq!(links.len(), 1);
    assert_eq!(links[0].url, "https://example.com/favicon.ico");
    assert_eq!(links[0].image_type, ImageType::Ico);
}

#[test]
fn same_address_twice_gives_one_link() {
    let html = r#"<link rel="icon" href="/favicon.ico"><link rel="shortcut icon" href="https://example.com/favicon.ico">"#;
    let links = ImageLink::from_website("https://example.com/", Some("text/html"), html, &vec![Ok(ico_16()), Ok(ico_16())]).unwrap();
    assert_eq!(links.len(), 1);
    assert_eq!(links[0].url, "https://example.com/favicon.ico");
}

#[test]
fn byte_order_mark_is_skipped() {
    let html = "\u{feff}<head><link rel=\"icon\" href=\"/a.png\"><!x><link rel=\"icon\" href=\"/b.png\"></head>";
    assert_eq!(analyze_content(html), vec!["/a.png".to_string(), "/b.png".to_string()]);
}

#[test]
fn byte_helpers() {
    assert!(equal_ignoring_case(b"Meta", b"mETA"));
    assert!(!equal_ignoring_case(b"meta", b"metas"));
    assert!(!equal_ignoring_case(b"[", b"{"));
    assert!(starts_with_bytes(b"text/html; charset=utf-8", b"text/html"));
    assert!(!starts_with_bytes(b"text/htm", b"text/html"));
    assert!(is_web_url("https://a.example/"));
    assert!(!is_web_url("data:,x"));
}

#[test]
fn self_closing_and_open_tags_both_scanned() {
    let html = r#"<link rel="icon" href="/a.png"/><link rel="apple-touch-icon" href="/t.png">"#;
    assert_eq!(analyze_content(html), vec!["/a.png".to_string(), "/t.png".to_string()]);
}

#[test]
fn page_without_link_or_meta_has_no_candidates() {
    let html = r#"<html><head><title>icon</title><a rel="icon" href="/x.png">x</a><img src="/y.png"></head></html>"#;
    assert!(analyze_content(html).is_empty());
    assert!(analyze_content("").is_empty());
}

#[test]
fn og_image_meta_is_scanned() {
    let html = r#"<head><meta property="og:image" content="https://cdn.example.com/og.png"></head>"#;
    assert_eq!(analyze_content(html), vec!["https://cdn.example.com/og.png".to_string()]);
}

#[test]
fn html_location_equals_content_scan() {
    let html = r#"<head><link rel="icon" href="/i.png"><meta name="msapplication-wide310x150logo" content="/w.png"></head>"#;
    assert_eq!(analyze_location(Some("text/html"), html), analyze_content(html));
}

#[test]
fn new_rejects_invalid_address() {
    let r = ImageLink::new("not a url".to_string(), &ico_16());
    assert_eq!(r.unwrap_err(), IconError::InvalidUrl);
}

#[test]
fn new_keeps_parsed_address() {
    let link = ImageLink::new("HTTPS://Example.com".to_string(), &ico_16()).unwrap();
    assert_eq!(link.url, "https://example.com/");
}

#[test]
fn scan_goes_on_after_malformed_markup() {
    let html = r#"<head><link rel="icon" href="/a.png"><!x><link rel="apple-touch-icon" href="/b.png"></head>"#;
    assert_eq!(analyze_content(html), vec!["/a.png".to_string(), "/b.png".to_string()]);
}
