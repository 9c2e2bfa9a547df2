//! Extraction of contact artifacts from page text: email addresses and
//! French phone numbers, found by fixed patterns, then cleaned, filtered
//! and deduplicated by verified code.

use url::Url;
use vstd::prelude::*;

verus! {

/// Every non-overlapping match of the fixed email pattern in the text, in
/// order of appearance.
pub uninterp spec fn email_matches_of(text: Seq<char>) -> Seq<Seq<char>>;

/// Every non-overlapping match of the fixed French phone pattern in the
/// text, in order of appearance.
pub uninterp spec fn phone_matches_of(text: Seq<char>) -> Seq<Seq<char>>;

/// Relies on regex::Regex::find_iter over the fixed pattern
/// `[a-zA-Z0-9._%+-]+@[a-zA-Z0-9.-]+\.[a-zA-Z]{2,}`: the non-overlapping
/// matches, a function of the text alone.
#[verifier::external_body]
fn email_matches(text: &str) -> (r: Vec<String>)
    ensures
        r.deep_view() == email_matches_of(text@),
{
    let re = regex::Regex::new(r"[a-zA-Z0-9._%+-]+@[a-zA-Z0-9.-]+\.[a-zA-Z]{2,}").unwrap();
    re.find_iter(text).map(|m| m.as_str().to_string()).collect()
}

/// Relies on regex::Regex::find_iter over the fixed pattern for French
/// phone numbers (`+33` or `0`, a non-zero digit, then four groups of two
/// digits with optional separators): the non-overlapping matches, a
/// function of the text alone.
#[verifier::external_body]
fn phone_matches(text: &str) -> (r: Vec<String>)
    ensures
        r.deep_view() == phone_matches_of(text@),
{
    let re = regex::Regex::new(
        r"(?x)
        (?:
            (?:\+33\s?|0)           # +33 (with optional space) or 0 prefix
            [1-9]                    # First digit after prefix (not 0)
            (?:[\s.\-]?\d{2}){4}     # 4 groups of 2 digits with optional separators
        )
        ",
    ).unwrap();
    re.find_iter(text).map(|m| m.as_str().to_string()).collect()
}

/// Whether an email-like candidate is a known false positive: an image
/// file name, or anything shorter than five characters.
pub open spec fn false_positive_spec(s: Seq<char>) -> bool {
    ||| ".png"@.is_suffix_of(s)
    ||| ".jpg"@.is_suffix_of(s)
    ||| ".jpeg"@.is_suffix_of(s)
    ||| ".gif"@.is_suffix_of(s)
    ||| ".svg"@.is_suffix_of(s)
    ||| ".webp"@.is_suffix_of(s)
    ||| ".ico"@.is_suffix_of(s)
    ||| s.len() < 5
}

/// Whether an email-like candidate is a false positive: it names an image
/// file or is suspiciously short.
pub fn is_false_positive(email: &str) -> (r: bool)
    ensures
        r == false_positive_spec(email@),
{
    if crate::text::str_ends_with(email, ".png") {
        return true;
    }
    if crate::text::str_ends_with(email, ".jpg") {
        return true;
    }
    if crate::text::str_ends_with(email, ".jpeg") {
        return true;
    }
    if crate::text::str_ends_with(email, ".gif") {
        return true;
    }
    if crate::text::str_ends_with(email, ".svg") {
        return true;
    }
    if crate::text::str_ends_with(email, ".webp") {
        return true;
    }
    if crate::text::str_ends_with(email, ".ico") {
        return true;
    }
    if email.unicode_len() < 5 {
        return true;
    }
    false
}

/// The candidates kept from a sequence of raw email matches: each is
/// lowercased; false positives are dropped; of equal addresses only the
/// first is kept.
pub open spec fn clean_emails(ms: Seq<Seq<char>>) -> Seq<Seq<char>>
    decreases ms.len(),
{
    if ms.len() == 0 {
        Seq::empty()
    } else {
        let prev = clean_emails(ms.drop_last());
        let e = crate::text::lower_seq(ms.last());
        if !false_positive_spec(e) && !prev.contains(e) {
            prev.push(e)
        } else {
            prev
        }
    }
}

/// Lowercase each candidate, drop false positives, and keep the first
/// occurrence of each address.
pub fn clean_email_candidates(matches: &Vec<String>) -> (r: Vec<String>)
    ensures
        r.deep_view() == clean_emails(matches.deep_view()),
{
    let ghost ms = matches.deep_view();
    let n = matches.len();
    let mut out: Vec<String> = Vec::new();
    let mut i: usize = 0;
    while i < n
        invariant
            i <= n,
            n == matches.len(),
            ms == matches.deep_view(),
            out.deep_view() == clean_emails(ms.subrange(0, i as int)),
        decreases n - i,
    {
        proof {
            assert(ms.subrange(0, i + 1).drop_last() =~= ms.subrange(0, i as int));
            assert(ms.subrange(0, i + 1).last() == ms[i as int]);
            assert(ms[i as int] == matches@[i as int]@);
        }
        let low = crate::text::ascii_lowercase(matches[i].as_str());
        if !is_false_positive(low.as_str()) {
            let m = out.len();
            let mut j: usize = 0;
            let mut dup = false;
            while j < m
                invariant
                    j <= m,
                    m == out.len(),
                    dup ==> out.deep_view().contains(low@),
                    !dup ==> forall|k: int| 0 <= k < j ==> (#[trigger] out.deep_view()[k]) != low@,
                decreases m - j,
            {
                if crate::text::str_eq(out[j].as_str(), low.as_str()) {
                    proof {
                        assert((#[trigger] out.deep_view()[j as int]) == low@);
                    }
                    dup = true;
                    j = m;
                } else {
                    j += 1;
                }
            }
            if !dup {
                let ghost before = out.deep_view();
                out.push(low);
                proof {
                    assert(out.deep_view() =~= before.push(
                        crate::text::lower_seq(ms[i as int]),
                    ));
                }
            }
        }
        i += 1;
    }
    proof {
        assert(ms.subrange(0, n as int) =~= ms);
    }
    out
}

/// All email addresses found in the text: every match of the email
/// pattern, lowercased, with image-file false positives dropped and each
/// address reported once.
pub fn extract_emails(html: &str) -> (r: Vec<String>)
    ensures
        r.deep_view() == clean_emails(email_matches_of(html@)),
{
    let matches = email_matches(html);
    clean_email_candidates(&matches)
}

/// Whether this character survives phone-number normalization: an ASCII
/// digit or a leading plus.
pub open spec fn is_phone_char(c: char) -> bool {
    (48 <= c as u32 <= 57) || c == '+'
}

/// The digits (and pluses) of a raw phone match, separators dropped.
pub open spec fn phone_digits(s: Seq<char>) -> Seq<char>
    decreases s.len(),
{
    if s.len() == 0 {
        Seq::empty()
    } else if is_phone_char(s.last()) {
        phone_digits(s.drop_last()).push(s.last())
    } else {
        phone_digits(s.drop_last())
    }
}

/// The normalized form of a raw phone match: separators dropped, and a
/// leading `+33` or bare `33` country code folded to `0`.
pub open spec fn normalize_phone_spec(s: Seq<char>) -> Seq<char> {
    let digits = phone_digits(s);
    if digits.len() >= 3 && digits[0] == '+' && digits[1] == '3' && digits[2] == '3' {
        seq!['0'] + digits.skip(3)
    } else if digits.len() == 11 && digits[0] == '3' && digits[1] == '3' {
        seq!['0'] + digits.skip(2)
    } else {
        digits
    }
}

/// Copy the characters of `cs` from position `from` on into `out`.
fn push_chars_from(out: &mut String, cs: &Vec<char>, from: usize)
    requires
        from <= cs@.len(),
    ensures
        final(out)@ == old(out)@ + cs@.skip(from as int),
{
    let n = cs.len();
    let mut j = from;
    while j < n
        invariant
            from <= j <= n,
            n == cs@.len(),
            out@ == old(out)@ + cs@.subrange(from as int, j as int),
        decreases n - j,
    {
        crate::text::push_char(out, cs[j]);
        proof {
            assert(cs@.subrange(from as int, j + 1) =~= cs@.subrange(from as int, j as int).push(
                cs@[j as int],
            ));
            assert(out@ =~= old(out)@ + cs@.subrange(from as int, j + 1));
        }
        j += 1;
    }
    proof {
        assert(cs@.subrange(from as int, n as int) =~= cs@.skip(from as int));
        assert(out@ =~= old(out)@ + cs@.skip(from as int));
    }
}

/// Normalize a French phone number: strip separators and fold a leading
/// `+33` or bare eleven-digit `33` to the domestic `0` prefix.
pub fn normalize_phone(phone: &str) -> (r: String)
    ensures
        r@ == normalize_phone_spec(phone@),
{
    let n = phone.unicode_len();
    let mut digits: Vec<char> = Vec::new();
    let mut i: usize = 0;
    while i < n
        invariant
            i <= n,
            n == phone@.len(),
            digits@ == phone_digits(phone@.subrange(0, i as int)),
        decreases n - i,
    {
        proof {
            assert(phone@.subrange(0, i + 1).drop_last() =~= phone@.subrange(0, i as int));
            assert(phone@.subrange(0, i + 1).last() == phone@[i as int]);
        }
        let c = phone.get_char(i);
        let v = c as u32;
        if (48 <= v && v <= 57) || c == '+' {
            digits.push(c);
        }
        i += 1;
    }
    proof {
        assert(phone@.subrange(0, n as int) =~= phone@);
    }
    let mut out = String::new();
    if digits.len() >= 3 && digits[0] == '+' && digits[1] == '3' && digits[2] == '3' {
        crate::text::push_char(&mut out, '0');
        proof {
            assert(out@ =~= seq!['0']);
        }
        push_chars_from(&mut out, &digits, 3);
    } else if digits.len() == 11 && digits[0] == '3' && digits[1] == '3' {
        crate::text::push_char(&mut out, '0');
        proof {
            assert(out@ =~= seq!['0']);
        }
        push_chars_from(&mut out, &digits, 2);
    } else {
        push_chars_from(&mut out, &digits, 0);
        proof {
            assert(digits@.skip(0) =~= digits@);
            assert(out@ =~= digits@);
        }
    }
    out
}

/// The phone numbers kept from a sequence of raw matches: each normalized;
/// empty results dropped; of equal numbers only the first is kept.
pub open spec fn clean_phones(ms: Seq<Seq<char>>) -> Seq<Seq<char>>
    decreases ms.len(),
{
    if ms.len() == 0 {
        Seq::empty()
    } else {
        let prev = clean_phones(ms.drop_last());
        let p = normalize_phone_spec(ms.last());
        if p.len() > 0 && !prev.contains(p) {
            prev.push(p)
        } else {
            prev
        }
    }
}

/// Normalize each candidate, drop empty results, and keep the first
/// occurrence of each number.
pub fn clean_phone_candidates(matches: &Vec<String>) -> (r: Vec<String>)
    ensures
        r.deep_view() == clean_phones(matches.deep_view()),
{
    let ghost ms = matches.deep_view();
    let n = matches.len();
    let mut out: Vec<String> = Vec::new();
    let mut i: usize = 0;
    while i < n
        invariant
            i <= n,
            n == matches.len(),
            ms == matches.deep_view(),
            out.deep_view() == clean_phones(ms.subrange(0, i as int)),
        decreases n - i,
    {
        proof {
            assert(ms.subrange(0, i + 1).drop_last() =~= ms.subrange(0, i as int));
            assert(ms.subrange(0, i + 1).last() == ms[i as int]);
            assert(ms[i as int] == matches@[i as int]@);
        }
        let norm = normalize_phone(matches[i].as_str());
        if norm.unicode_len() > 0 {
            let m = out.len();
            let mut j: usize = 0;
            let mut dup = false;
            while j < m
                invariant
                    j <= m,
                    m == out.len(),
                    dup ==> out.deep_view().contains(norm@),
                    !dup ==> forall|k: int| 0 <= k < j ==> (#[trigger] out.deep_view()[k]) != norm@,
                decreases m - j,
            {
                if crate::text::str_eq(out[j].as_str(), norm.as_str()) {
                    proof {
                        assert((#[trigger] out.deep_view()[j as int]) == norm@);
                    }
                    dup = true;
                    j = m;
                } else {
                    j += 1;
                }
            }
            if !dup {
                let ghost before = out.deep_view();
                out.push(norm);
                proof {
                    assert(out.deep_view() =~= before.push(
                        normalize_phone_spec(ms[i as int]),
                    ));
                }
            }
        }
        i += 1;
    }
    proof {
        assert(ms.subrange(0, n as int) =~= ms);
    }
    out
}

/// All French phone numbers found in the text: every match of the phone
/// pattern, normalized, each number reported once.
pub fn extract_phones(html: &str) -> (r: Vec<String>)
    ensures
        r.deep_view() == clean_phones(phone_matches_of(html@)),
{
    let matches = phone_matches(html);
    clean_phone_candidates(&matches)
}

/// Every `href` attribute of an anchor element in the document, in
/// document order.
pub uninterp spec fn hrefs_of(html: Seq<char>) -> Seq<Seq<char>>;

/// Relies on scraper (Html::parse_document, Selector::parse, Html::select,
/// Element::attr): the href attributes of the document's `a[href]`
/// elements, in document order, a function of the document text alone.
#[verifier::external_body]
fn html_hrefs(html: &str) -> (r: Vec<String>)
    ensures
        r.deep_view() == hrefs_of(html@),
{
    let document = scraper::Html::parse_document(html);
    let selector = scraper::Selector::parse("a[href]").unwrap();
    let mut out = Vec::new();
    for element in document.select(&selector) {
        if let Some(href) = element.value().attr("href") {
            out.push(href.to_string());
        }
    }
    out
}

/// Whether an href is worth resolving at all: not empty, not a fragment,
/// and not a javascript / mailto / tel pseudo-link.
pub open spec fn followable_href(h: Seq<char>) -> bool {
    &&& !"javascript:"@.is_prefix_of(h)
    &&& !"mailto:"@.is_prefix_of(h)
    &&& !"tel:"@.is_prefix_of(h)
    &&& !"#"@.is_prefix_of(h)
    &&& h.len() > 0
}

/// Whether an href is worth resolving: see `followable_href`.
pub fn href_is_followable(href: &str) -> (r: bool)
    ensures
        r == followable_href(href@),
{
    if crate::text::str_starts_with(href, "javascript:") {
        return false;
    }
    if crate::text::str_starts_with(href, "mailto:") {
        return false;
    }
    if crate::text::str_starts_with(href, "tel:") {
        return false;
    }
    if crate::text::str_starts_with(href, "#") {
        return false;
    }
    !href.is_empty()
}

/// One discovered link, reduced to what the crawl reads of it: its
/// fragment-free serialization, and its host if it has one.
pub struct LinkInfo {
    pub url: String,
    pub host: Option<String>,
}

/// Mathematical image of one discovered link.
pub struct LinkModel {
    pub url: Seq<char>,
    pub host: Option<Seq<char>>,
}

impl View for LinkInfo {
    type V = LinkModel;

    open spec fn view(&self) -> LinkModel {
        LinkModel { url: self.url@, host: self.host.deep_view() }
    }
}

/// The mathematical image of a list of links.
pub open spec fn links_model(ls: Seq<LinkInfo>) -> Seq<LinkModel> {
    ls.map_values(|l: LinkInfo| l@)
}

/// Whether some link in the list carries this serialization.
pub open spec fn links_contain_url(ls: Seq<LinkModel>, u: Seq<char>) -> bool {
    exists|i: int| 0 <= i < ls.len() && (#[trigger] ls[i]).url == u
}

/// What one href of a page becomes: nothing for a pseudo-link, an
/// unresolvable href, or a non-http(s) resolution; otherwise the resolved
/// URL's fragment-free serialization together with its host.
pub open spec fn resolved_link(base: Seq<char>, href: Seq<char>) -> Option<LinkModel> {
    if !followable_href(href) {
        Option::None
    } else {
        match crate::urls::joined_url_of(base, href) {
            Option::Some(ser) => {
                if crate::urls::scheme_of(ser) == Option::Some("http"@) || crate::urls::scheme_of(
                    ser,
                ) == Option::Some("https"@) {
                    match crate::urls::fragmentless_of(ser) {
                        Option::Some(clean) => Option::Some(
                            LinkModel { url: clean, host: crate::urls::host_of(ser) },
                        ),
                        Option::None => Option::None,
                    }
                } else {
                    Option::None
                }
            },
            Option::None => Option::None,
        }
    }
}

/// The links kept from a sequence of hrefs resolved against one base: each
/// resolves as `resolved_link` says, and of equal serializations only the
/// first is kept.
pub open spec fn clean_links(hrefs: Seq<Seq<char>>, base: Seq<char>) -> Seq<LinkModel>
    decreases hrefs.len(),
{
    if hrefs.len() == 0 {
        Seq::empty()
    } else {
        let prev = clean_links(hrefs.drop_last(), base);
        match resolved_link(base, hrefs.last()) {
            Option::Some(l) => if !links_contain_url(prev, l.url) {
                prev.push(l)
            } else {
                prev
            },
            Option::None => prev,
        }
    }
}

/// All followable links of the document resolved against the URL
/// serialized as `base`: see `resolved_link` and `clean_links`.
pub open spec fn links_spec(html: Seq<char>, base: Seq<char>) -> Seq<LinkModel> {
    clean_links(hrefs_of(html), base)
}

/// Whether some already-kept link carries this serialization.
fn link_vec_contains_url(v: &Vec<LinkInfo>, u: &str) -> (r: bool)
    ensures
        r == links_contain_url(links_model(v@), u@),
{
    let n = v.len();
    let mut i: usize = 0;
    while i < n
        invariant
            i <= n,
            n == v.len(),
            forall|k: int| 0 <= k < i ==> (#[trigger] links_model(v@)[k]).url != u@,
        decreases n - i,
    {
        if crate::text::str_eq(v[i].url.as_str(), u) {
            proof {
                assert((#[trigger] links_model(v@)[i as int]).url == u@);
            }
            return true;
        }
        i += 1;
    }
    false
}

/// All followable links of the document, resolved against the URL
/// serialized as `base_url`: every `a[href]` target that is not a
/// pseudo-link, resolves, and is http or https, with its fragment stripped
/// and its host read, each serialization once.
pub fn extract_link_infos(html: &str, base_url: &str) -> (r: Vec<LinkInfo>)
    ensures
        links_model(r@) == links_spec(html@, base_url@),
{
    let hrefs = html_hrefs(html);
    let ghost hs = hrefs.deep_view();
    let n = hrefs.len();
    let mut out: Vec<LinkInfo> = Vec::new();
    let mut i: usize = 0;
    while i < n
        invariant
            i <= n,
            n == hrefs.len(),
            hs == hrefs.deep_view(),
            links_model(out@) == clean_links(hs.subrange(0, i as int), base_url@),
        decreases n - i,
    {
        proof {
            assert(hs.subrange(0, i + 1).drop_last() =~= hs.subrange(0, i as int));
            assert(hs.subrange(0, i + 1).last() == hs[i as int]);
            assert(hs[i as int] == hrefs@[i as int]@);
        }
        if href_is_followable(hrefs[i].as_str()) {
            match crate::urls::join_url_ser(base_url, hrefs[i].as_str()) {
                Option::Some(ser) => {
                    let keep = match crate::urls::scheme_of_ser(ser.as_str()) {
                        Option::Some(sch) => crate::text::str_eq(sch.as_str(), "http")
                            || crate::text::str_eq(sch.as_str(), "https"),
                        Option::None => false,
                    };
                    if keep {
                        match crate::urls::fragmentless_ser(ser.as_str()) {
                            Option::Some(clean) => {
                                let host = crate::urls::host_of_ser(ser.as_str());
                                if !link_vec_contains_url(&out, clean.as_str()) {
                                    let ghost before = links_model(out@);
                                    let ghost l = resolved_link(base_url@, hs[i as int]);
                                    out.push(LinkInfo { url: clean, host });
                                    proof {
                                        assert(links_model(out@) =~= before.push(l->0));
                                    }
                                }
                            },
                            Option::None => {},
                        }
                    }
                },
                Option::None => {},
            }
        }
        i += 1;
    }
    proof {
        assert(hs.subrange(0, n as int) =~= hs);
    }
    out
}

/// How many of the kept links parse back into url-crate values.
pub open spec fn parseable_link_count(ls: Seq<LinkModel>) -> nat
    decreases ls.len(),
{
    if ls.len() == 0 {
        0
    } else {
        parseable_link_count(ls.drop_last()) + if crate::urls::parsed_url_of(
            ls.last().url,
        ) is Some {
            1nat
        } else {
            0nat
        }
    }
}

/// All followable links of the document resolved against the URL
/// serialized as `base_url`, as parsed values for callers that work with
/// the url crate: the links of `extract_link_infos`, parsed back, in
/// order. Of a `Url` value itself the verifier can say nothing, so the
/// contract counts the links that parse back; their serializations and
/// hosts are stated on `extract_link_infos`.
pub fn extract_links(html: &str, base_url: &str) -> (links: Vec<Url>)
    ensures
        links@.len() == parseable_link_count(links_spec(html@, base_url@)),
{
    let infos = extract_link_infos(html, base_url);
    let ghost ls = links_model(infos@);
    let n = infos.len();
    let mut links: Vec<Url> = Vec::new();
    let mut i: usize = 0;
    while i < n
        invariant
            i <= n,
            n == infos.len(),
            ls == links_model(infos@),
            links@.len() == parseable_link_count(ls.subrange(0, i as int)),
        decreases n - i,
    {
        proof {
            assert(ls.subrange(0, i + 1).drop_last() =~= ls.subrange(0, i as int));
            assert(ls.subrange(0, i + 1).last() == ls[i as int]);
            assert(ls[i as int].url == infos@[i as int].url@);
        }
        match crate::urls::url_parse(infos[i].url.as_str()) {
            Option::Some(u) => {
                links.push(u);
            },
            Option::None => {},
        }
        i += 1;
    }
    proof {
        assert(ls.subrange(0, n as int) =~= ls);
    }
    links
}

/// Whether the host falls under the base domain: equal to it, or a strict
/// subdomain (ending with a dot followed by the base domain).
pub open spec fn host_in_scope_spec(host: Seq<char>, base: Seq<char>) -> bool {
    host == base || (seq!['.'] + base).is_suffix_of(host)
}

/// Whether the host falls under the base domain. The suffix test is
/// anchored on a dot boundary, so a domain that merely ends with the same
/// letters does not pass.
pub fn host_in_scope(host: &str, base_domain: &str) -> (r: bool)
    ensures
        r == host_in_scope_spec(host@, base_domain@),
{
    if crate::text::str_eq(host, base_domain) {
        return true;
    }
    let mut dotted = String::new();
    crate::text::push_char(&mut dotted, '.');
    dotted.append(base_domain);
    proof {
        assert(dotted@ =~= seq!['.'] + base_domain@);
    }
    crate::text::str_ends_with(host, dotted.as_str())
}

/// Whether the URL serialized as `url` has a host under the base domain;
/// a string that is no URL, or a host-less URL, never does.
pub open spec fn same_domain_spec(url: Seq<char>, base: Seq<char>) -> bool {
    match crate::urls::host_of(url) {
        Option::Some(h) => host_in_scope_spec(h, base),
        Option::None => false,
    }
}

/// Whether the URL serialized as `url` has a host under the base domain.
pub fn is_same_domain(url: &str, base_domain: &str) -> (r: bool)
    ensures
        r == same_domain_spec(url@, base_domain@),
{
    match crate::urls::host_of_ser(url) {
        Option::Some(h) => host_in_scope(h.as_str(), base_domain),
        Option::None => false,
    }
}

} // verus!
