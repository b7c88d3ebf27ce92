use guugle::scrape::{classify_response, is_html, prepare_url, Html, HtmlGetterError};

#[test]
fn valid_html() {
    let html = r#"
        <!doctype html><html itemscope="" itemtype="http://schema.org/WebPage" lang="de-CH"><head><meta content="text/html; charset=UTF-8" http-equiv="Content-Type"><meta content="/images/branding/googleg/1x/googleg_standard_color_128dp.png" itemprop="image"><title>Google</title>
        "#;

    assert!(is_html(html));
}

#[test]
fn invalid_html() {
    let html = r#"
        <html itemscope="" itemtype="http://schema.org/WebPage" lang="de-CH"><head><meta content="text/html; charset=UTF-8" http-equiv="Content-Type"><meta content="/images/branding/googleg/1x/googleg_standard_color_128dp.png" itemprop="image"><title>Google</title>
        "#;

    assert!(!is_html(html))
}

#[test]
fn get_links() {
    let html = r#"
        <!DOCTYPE html>
        <html>
        <body>
        <a href="www.google.ch"></a>
        <h1>
            <a href="https://team-crystal.ch"></a>
        </h1>
        </body>
        </html>
        "#;

    let links = guugle::scrape::get_links(&Html::new(html));

    assert!(links.contains(&"www.google.ch".to_string()));
    assert!(links.contains(&"https://team-crystal.ch".to_string()));
}

#[test]
fn extraction_order_and_count() {
    let html = "<!doctype html><a href=\"www.google.ch\"></a><h1><a href=\"https://team-crystal.ch\"></a></h1>";

    let links = guugle::scrape::get_links(&Html::new(html));

    assert_eq!(links, vec!["www.google.ch".to_string(), "https://team-crystal.ch".to_string()]);
}

#[test]
fn extraction_empty_without_anchors() {
    let html = "<!doctype html><html><body><p>plain</p></body></html>";

    let links = guugle::scrape::get_links(&Html::new(html));

    assert!(links.is_empty());
}

#[test]
fn classify_ok_response() {
    let body = "<!doctype html><html><body></body></html>";

    let doc = classify_response(200, Some("text/html; charset=utf-8"), body).unwrap();

    assert_eq!(doc.text(), body);
}

#[test]
fn classify_bad_status() {
    let body = "<!doctype html><html></html>";

    let err = classify_response(404, Some("text/html"), body).unwrap_err();

    assert!(matches!(err, HtmlGetterError::StatusCode));
}

#[test]
fn classify_missing_content_type() {
    let body = "<!doctype html><html></html>";

    let err = classify_response(200, None, body).unwrap_err();

    assert!(matches!(err, HtmlGetterError::NotHTML));
}

#[test]
fn classify_body_without_doctype() {
    let body = "{\"kind\": \"json\"}";

    let err = classify_response(200, Some("text/html"), body).unwrap_err();

    assert!(matches!(err, HtmlGetterError::NotHTML));
}

#[test]
fn prepare_url_adds_scheme() {
    assert_eq!(prepare_url("example.com").unwrap(), "http://example.com");
}

#[test]
fn prepare_url_keeps_scheme() {
    assert_eq!(prepare_url("https://example.com/a").unwrap(), "https://example.com/a");
}

#[test]
fn prepare_url_rejects_garbage() {
    let err = prepare_url("").unwrap_err();

    assert!(matches!(err, HtmlGetterError::UrlError));
}
