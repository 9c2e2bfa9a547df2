use couscous_crawler::extractor::extract_emails;
use couscous_crawler::extractor::extract_link_infos;
use couscous_crawler::extractor::extract_links;
use couscous_crawler::extractor::extract_phones;
use couscous_crawler::extractor::host_in_scope;
use couscous_crawler::extractor::href_is_followable;
use couscous_crawler::extractor::is_false_positive;
use couscous_crawler::extractor::is_same_domain;
use couscous_crawler::extractor::normalize_phone;
use url::Url;

#[test]
fn test_extract_emails() {
    let html = r#"
        <html>
            <body>
                Contact us at test@example.com or info@company.org
                Image: background@2x.png
            </body>
        </html>
    "#;

    let emails = extract_emails(html);
    assert!(emails.contains(&"test@example.com".to_string()));
    assert!(emails.contains(&"info@company.org".to_string()));
    assert!(!emails.iter().any(|e| e.contains(".png")));
}

#[test]
fn test_extract_links() {
    let html = r#"
        <html>
            <body>
                <a href="/page1">Page 1</a>
                <a href="https://example.com/page2">Page 2</a>
                <a href="mailto:test@test.com">Email</a>
            </body>
        </html>
    "#;

    let base = Url::parse("https://example.com").unwrap();
    let links = extract_links(html, base.as_str());

    assert!(links.iter().any(|u| u.path() == "/page1"));
    assert!(links.iter().any(|u| u.path() == "/page2"));
    assert!(!links.iter().any(|u| u.scheme() == "mailto"));
}

#[test]
fn test_extract_phones() {
    let html = r#"
        <html>
            <body>
                Appelez-nous au 01 02 03 04 05
                Ou au +33 6 12 34 56 78
                Fax: 0102030405
                Mobile: +33612345678
                Autre: 01.02.03.04.05
                International: +33 1 02 03 04 05
            </body>
        </html>
    "#;

    let phones = extract_phones(html);
    assert!(phones.contains(&"0102030405".to_string()));
    assert!(phones.contains(&"0612345678".to_string()));
}

#[test]
fn test_normalize_phone() {
    assert_eq!(normalize_phone("+33 1 02 03 04 05"), "0102030405");
    assert_eq!(normalize_phone("01 02 03 04 05"), "0102030405");
    assert_eq!(normalize_phone("0102030405"), "0102030405");
    assert_eq!(normalize_phone("+33612345678"), "0612345678");
    assert_eq!(normalize_phone("01.02.03.04.05"), "0102030405");
    assert_eq!(normalize_phone("01-02-03-04-05"), "0102030405");
}

#[test]
fn normalize_phone_bare_country_code_and_junk() {
    assert_eq!(normalize_phone("33612345678"), "0612345678");
    assert_eq!(normalize_phone("abc"), "");
    assert_eq!(normalize_phone(""), "");
}

#[test]
fn extract_emails_lowercases_and_dedups() {
    let html = "Write to Bob@Example.COM or bob@example.com today";
    let emails = extract_emails(html);
    assert_eq!(emails, vec!["bob@example.com".to_string()]);
}

#[test]
fn extract_emails_empty_page() {
    let emails = extract_emails("<html><body>no contacts here</body></html>");
    assert!(emails.is_empty());
}

#[test]
fn false_positive_filters() {
    assert!(is_false_positive("icon@2x.png"));
    assert!(is_false_positive("logo@site.webp"));
    assert!(is_false_positive("a@b"));
    assert!(!is_false_positive("someone@example.com"));
}

#[test]
fn extract_phones_dedups_equal_numbers() {
    let html = "Tel: 01 02 03 04 05 ou 01.02.03.04.05";
    let phones = extract_phones(html);
    assert_eq!(phones, vec!["0102030405".to_string()]);
}

#[test]
fn followable_href_filters_pseudo_links() {
    assert!(!href_is_followable("javascript:void(0)"));
    assert!(!href_is_followable("mailto:a@b.com"));
    assert!(!href_is_followable("tel:0102030405"));
    assert!(!href_is_followable("#section"));
    assert!(!href_is_followable(""));
    assert!(href_is_followable("/contact"));
    assert!(href_is_followable("https://example.com/a"));
}

#[test]
fn extract_links_strips_fragments_and_dedups() {
    let html = r#"
        <a href="/a#top">one</a>
        <a href="/a#bottom">two</a>
        <a href="ftp://example.com/file">ftp</a>
    "#;
    let base = Url::parse("https://example.com").unwrap();
    let links = extract_links(html, base.as_str());
    assert_eq!(links.len(), 1);
    assert_eq!(links[0].as_str(), "https://example.com/a");
}

#[test]
fn domain_scope_anchored_on_dot() {
    assert!(host_in_scope("example.com", "example.com"));
    assert!(host_in_scope("sub.example.com", "example.com"));
    assert!(host_in_scope("a.b.example.com", "example.com"));
    assert!(!host_in_scope("other.com", "example.com"));
    assert!(!host_in_scope("example.com.evil.com", "example.com"));
    assert!(!host_in_scope("badexample.com", "example.com"));
}

#[test]
fn same_domain_through_serialized_urls() {
    assert!(is_same_domain("https://sub.example.com/x", "example.com"));
    assert!(!is_same_domain("https://other.com/x", "example.com"));
    assert!(!is_same_domain("https://example.com.evil.com/x", "example.com"));
    assert!(!is_same_domain("not a url", "example.com"));
    assert!(!is_same_domain("data:text/plain,x", "example.com"));
}

#[test]
fn link_infos_carry_serialization_and_host() {
    let html = r#"
        <a href="/a#top">one</a>
        <a href="https://sub.example.com/b">two</a>
        <a href="mailto:x@y.z">mail</a>
    "#;
    let links = extract_link_infos(html, "https://example.com/");
    assert_eq!(links.len(), 2);
    assert_eq!(links[0].url, "https://example.com/a");
    assert_eq!(links[0].host.as_deref(), Some("example.com"));
    assert_eq!(links[1].url, "https://sub.example.com/b");
    assert_eq!(links[1].host.as_deref(), Some("sub.example.com"));
}

#[test]
fn phones_come_out_ten_digits() {
    let phones = extract_phones("Mobile: +33 6 12 34 56 78 et fixe 01-02-03-04-05");
    for p in &phones {
        assert_eq!(p.len(), 10);
        assert!(p.starts_with('0'));
        assert!(p.chars().all(|c| c.is_ascii_digit()));
    }
    assert_eq!(phones.len(), 2);
}
