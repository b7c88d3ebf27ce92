//! The link extractor and the fetch classifier: validating a document by
//! its doctype, pulling anchor-tag `href` targets out of HTML text, and
//! turning a fetch outcome (status, content type, body) into a validated
//! document or a typed failure.

use vstd::prelude::*;
use crate::text::{
    chars_of, contains_chars, contains_pat, find_from, lemma_match_skip, lemma_spec_find,
    lower_seq, match_at, matches_at, skip_spaces, spec_find, to_lower_vec, trim_start_seq,
};

verus! {

/// The opening of an anchor tag.
pub open spec fn anchor_pat() -> Seq<char> {
    "<a"@
}

/// The start of a double-quoted href attribute.
pub open spec fn href_pat() -> Seq<char> {
    "href=\""@
}

/// The closing quote of the attribute value.
pub open spec fn quote_pat() -> Seq<char> {
    "\""@
}

/// The doctype declaration that marks a document as HTML.
pub open spec fn doctype_pat() -> Seq<char> {
    "<!doctype html>"@
}

/// A document is HTML when, after ASCII lowercasing and dropping leading
/// whitespace, it starts with the HTML doctype declaration.
pub open spec fn spec_is_html(s: Seq<char>) -> bool {
    let t = trim_start_seq(lower_seq(s));
    t.len() >= doctype_pat().len() && t.subrange(0, doctype_pat().len() as int) == doctype_pat()
}

/// Whether the document text declares itself as HTML by its doctype.
pub fn is_html(html: &str) -> (r: bool)
    ensures
        r == spec_is_html(html@),
{
    let lv = to_lower_vec(&chars_of(html));
    let k = skip_spaces(&lv);
    let dt = chars_of("<!doctype html>");
    let ghost t = trim_start_seq(lower_seq(html@));
    if lv.len() - k < dt.len() {
        return false;
    }
    let r = matches_at(&lv, &dt, k);
    proof {
        assert(t =~= lv@.skip(k as int));
        assert(t.subrange(0, dt@.len() as int) =~= lv@.subrange(k as int, k + dt@.len()));
    }
    r
}

/// A validated HTML document.
#[derive(Debug)]
pub struct Html {
    text: String,
}

impl View for Html {
    type V = Seq<char>;

    closed spec fn view(&self) -> Seq<char> {
        self.text@
    }
}

impl Html {
    /// Wraps text that has been validated as HTML.
    pub fn new(text: &str) -> (r: Html)
        requires
            spec_is_html(text@),
        ensures
            r@ == text@,
    {
        Html { text: text.to_owned() }
    }

    /// The document text.
    pub fn text(&self) -> (r: &str)
        ensures
            r@ == self@,
    {
        self.text.as_str()
    }
}

/// The anchor targets of the document, in order of occurrence: for each
/// successive `<a`, the text between the following `href="` and the next
/// `"`. Scanning resumes right after the `href="`, as a plain scan (not a
/// tag parser) does.
pub open spec fn spec_extract(text: Seq<char>) -> Seq<Seq<char>>
    decreases text.len(),
    via spec_extract_dec
{
    match spec_find(text, anchor_pat()) {
        None => Seq::<Seq<char>>::empty(),
        Some(i) => {
            let t1 = text.skip(i + anchor_pat().len() as int);
            match spec_find(t1, href_pat()) {
                None => Seq::<Seq<char>>::empty(),
                Some(j) => {
                    let t2 = t1.skip(j + href_pat().len() as int);
                    match spec_find(t2, quote_pat()) {
                        None => Seq::<Seq<char>>::empty(),
                        Some(k) => seq![t2.take(k as int)] + spec_extract(t2),
                    }
                },
            }
        },
    }
}

#[via_fn]
proof fn spec_extract_dec(text: Seq<char>) {
    lemma_spec_find(text, anchor_pat());
    proof_anchor_len();
    if let Some(i) = spec_find(text, anchor_pat()) {
        let t1 = text.skip(i + anchor_pat().len() as int);
        lemma_spec_find(t1, href_pat());
    }
}

/// The anchor opening is two characters and the href opener six; recorded
/// once so proofs need not reveal the literals each time.
proof fn proof_anchor_len()
    ensures
        anchor_pat().len() == 2,
        href_pat().len() == 6,
        quote_pat().len() == 1,
        doctype_pat().len() == 15,
{
    reveal_strlit("<a");
    reveal_strlit("href=\"");
    reveal_strlit("\"");
    reveal_strlit("<!doctype html>");
}

/// A found first match pins `spec_find` down.
proof fn lemma_spec_find_is(text: Seq<char>, pat: Seq<char>, i: int)
    requires
        0 <= i,
        match_at(text, pat, i),
        forall|j: int| 0 <= j < i ==> !match_at(text, pat, j),
    ensures
        spec_find(text, pat) == Some(i as nat),
{
    lemma_spec_find(text, pat);
    match spec_find(text, pat) {
        None => {
            assert(!match_at(text, pat, i));
        },
        Some(k) => {
            if (k as int) < i {
                assert(!match_at(text, pat, k as int));
            }
            if i < k as int {
                assert(!match_at(text, pat, i));
            }
        },
    }
}

/// No match at all pins `spec_find` to `None`.
proof fn lemma_spec_find_is_none(text: Seq<char>, pat: Seq<char>)
    requires
        forall|j: int| !match_at(text, pat, j),
    ensures
        spec_find(text, pat) == None::<nat>,
{
    lemma_spec_find(text, pat);
    if let Some(k) = spec_find(text, pat) {
        assert(!match_at(text, pat, k as int));
    }
}

/// Extracts every anchor-tag target from the document, in order; a
/// document without anchors yields the empty list.
pub fn get_links(html: &Html) -> (r: Vec<String>)
    ensures
        r.deep_view() == spec_extract(html@),
{
    let text = html.text();
    let chars = chars_of(text);
    let a_pat = chars_of("<a");
    let h_pat = chars_of("href=\"");
    let q_pat = chars_of("\"");
    proof {
        proof_anchor_len();
    }
    let n = chars.len();
    let mut links: Vec<String> = Vec::new();
    let mut pos: usize = 0;
    proof {
        assert(chars@.skip(0) =~= chars@);
        assert(links.deep_view() + spec_extract(chars@) =~~= spec_extract(chars@));
    }
    loop
        invariant
            pos <= chars@.len(),
            n == chars@.len(),
            chars@ == html@,
            text@ == html@,
            a_pat@ == anchor_pat(),
            h_pat@ == href_pat(),
            q_pat@ == quote_pat(),
            spec_extract(html@) == links.deep_view() + spec_extract(html@.skip(pos as int)),
        ensures
            links.deep_view() == spec_extract(html@),
        decreases chars@.len() - pos,
    {
        proof {
            proof_anchor_len();
        }
        let ghost suf = chars@.skip(pos as int);
        let ia = match find_from(&chars, &a_pat, pos) {
            Some(ia) => ia,
            None => {
                proof {
                    assert forall|j: int| !match_at(suf, a_pat@, j) by {
                        if 0 <= j {
                            lemma_match_skip(chars@, a_pat@, pos as int, j);
                        }
                    }
                    lemma_spec_find_is_none(suf, a_pat@);
                    assert(spec_extract(suf) =~~= Seq::<Seq<char>>::empty());
                    assert(links.deep_view() + spec_extract(suf) =~~= links.deep_view());
                }
                break;
            },
        };
        proof {
            lemma_match_skip(chars@, a_pat@, pos as int, ia - pos);
            assert forall|j: int| 0 <= j < ia - pos implies !match_at(suf, a_pat@, j) by {
                lemma_match_skip(chars@, a_pat@, pos as int, j);
            }
            lemma_spec_find_is(suf, a_pat@, ia - pos);
            assert(suf.skip(ia - pos + 2) =~= chars@.skip(ia + 2));
        }
        let ghost t1 = chars@.skip(ia + 2);
        let p1 = ia + 2;
        let jh = match find_from(&chars, &h_pat, p1) {
            Some(jh) => jh,
            None => {
                proof {
                    assert forall|j: int| !match_at(t1, h_pat@, j) by {
                        if 0 <= j {
                            lemma_match_skip(chars@, h_pat@, p1 as int, j);
                        }
                    }
                    lemma_spec_find_is_none(t1, h_pat@);
                    assert(spec_extract(suf) =~~= Seq::<Seq<char>>::empty());
                    assert(links.deep_view() + spec_extract(suf) =~~= links.deep_view());
                }
                break;
            },
        };
        proof {
            lemma_match_skip(chars@, h_pat@, p1 as int, jh - p1);
            assert forall|j: int| 0 <= j < jh - p1 implies !match_at(t1, h_pat@, j) by {
                lemma_match_skip(chars@, h_pat@, p1 as int, j);
            }
            lemma_spec_find_is(t1, h_pat@, jh - p1);
            assert(t1.skip(jh - p1 + 6) =~= chars@.skip(jh + 6));
        }
        let ghost t2 = chars@.skip(jh + 6);
        let p2 = jh + 6;
        let kq = match find_from(&chars, &q_pat, p2) {
            Some(kq) => kq,
            None => {
                proof {
                    assert forall|j: int| !match_at(t2, q_pat@, j) by {
                        if 0 <= j {
                            lemma_match_skip(chars@, q_pat@, p2 as int, j);
                        }
                    }
                    lemma_spec_find_is_none(t2, q_pat@);
                    assert(spec_extract(suf) =~~= Seq::<Seq<char>>::empty());
                    assert(links.deep_view() + spec_extract(suf) =~~= links.deep_view());
                }
                break;
            },
        };
        proof {
            lemma_match_skip(chars@, q_pat@, p2 as int, kq - p2);
            assert forall|j: int| 0 <= j < kq - p2 implies !match_at(t2, q_pat@, j) by {
                lemma_match_skip(chars@, q_pat@, p2 as int, j);
            }
            lemma_spec_find_is(t2, q_pat@, kq - p2);
        }
        let link = text.substring_char(p2, kq).to_owned();
        let ghost pre = links.deep_view();
        links.push(link);
        proof {
            assert(links.deep_view() =~~= pre.push(link@));
            assert(t2.take(kq - p2) =~= chars@.subrange(p2 as int, kq as int));
            assert(spec_extract(suf) =~~= seq![t2.take(kq - p2)] + spec_extract(t2));
            assert(links.deep_view() + spec_extract(t2) =~~= pre + spec_extract(suf));
        }
        pos = p2;
    }
    links
}


/// A failure while fetching or validating a page.
#[derive(Debug, Clone, Copy, PartialEq, Eq, Structural)]
pub enum HtmlGetterError {
    /// The response is not an HTML document.
    NotHTML,
    /// The transport failed: connection, timeout, or I/O.
    GetError,
    /// The response status was not a success.
    StatusCode,
    /// The address cannot be parsed as a URL.
    UrlError,
}

/// Whether the string parses as a URI.
pub uninterp spec fn uri_parses(s: Seq<char>) -> bool;

/// Whether the string parses as a URI that carries a scheme.
pub uninterp spec fn uri_has_scheme(s: Seq<char>) -> bool;

/// Outcome of checking an address string.
#[derive(Debug, Clone, Copy, PartialEq, Eq, Structural)]
enum UrlCheck {
    /// The string is not a URI at all.
    Invalid,
    /// A URI without a scheme.
    NoScheme,
    /// A URI with a scheme.
    HasScheme,
}

/// Relies on `http::Uri::from_str` (through `str::parse::<hyper::Uri>`)
/// and `http::Uri::scheme`: whether the string parses as a URI, and
/// whether the parsed URI carries a scheme; both depend on the string
/// alone.
#[verifier::external_body]
fn check_url(link: &str) -> (r: UrlCheck)
    ensures
        (r == UrlCheck::Invalid) == !uri_parses(link@),
        uri_parses(link@) ==> ((r == UrlCheck::HasScheme) == uri_has_scheme(link@)),
{
    match link.parse::<hyper::Uri>() {
        Err(_) => UrlCheck::Invalid,
        Ok(u) => {
            if u.scheme().is_some() {
                UrlCheck::HasScheme
            } else {
                UrlCheck::NoScheme
            }
        },
    }
}

/// Readies an address for dispatch: an address with a scheme is used as
/// given; one without is prefixed with `http://`; a string that does not
/// parse as a URL fails with `UrlError`.
pub fn prepare_url(link: &str) -> (r: Result<String, HtmlGetterError>)
    ensures
        match r {
            Ok(u) => uri_parses(link@) && uri_parses(u@) && uri_has_scheme(u@) && if uri_has_scheme(
                link@,
            ) {
                u@ == link@
            } else {
                u@ == "http://"@ + link@
            },
            Err(e) => e == HtmlGetterError::UrlError && (!uri_parses(link@) || (!uri_has_scheme(
                link@,
            ) && !(uri_parses("http://"@ + link@) && uri_has_scheme("http://"@ + link@)))),
        },
{
    match check_url(link) {
        UrlCheck::Invalid => Err(HtmlGetterError::UrlError),
        UrlCheck::HasScheme => Ok(link.to_owned()),
        UrlCheck::NoScheme => {
            let mut prefixed = "http://".to_owned();
            prefixed.append(link);
            match check_url(prefixed.as_str()) {
                UrlCheck::HasScheme => Ok(prefixed),
                _ => Err(HtmlGetterError::UrlError),
            }
        },
    }
}

/// The content-type header indicates HTML: present and mentioning `html`.
pub open spec fn header_is_html(ct: Option<Seq<char>>) -> bool {
    match ct {
        Some(s) => contains_pat(s, "html"@),
        None => false,
    }
}

/// The view of an optional header value.
pub open spec fn opt_str_view(ct: Option<&str>) -> Option<Seq<char>> {
    match ct {
        Some(s) => Some(s@),
        None => None,
    }
}

/// Classifies a fetched response: only a success status whose content
/// type and body both indicate HTML yields a validated document; a
/// non-success status is `StatusCode`, and anything else is `NotHTML`.
pub fn classify_response(status: u16, content_type: Option<&str>, body: &str) -> (r: Result<
    Html,
    HtmlGetterError,
>)
    ensures
        match r {
            Ok(h) => h@ == body@ && 200 <= status < 300 && header_is_html(
                opt_str_view(content_type),
            ) && spec_is_html(body@),
            Err(HtmlGetterError::StatusCode) => !(200 <= status < 300),
            Err(HtmlGetterError::NotHTML) => 200 <= status < 300 && !(header_is_html(
                opt_str_view(content_type),
            ) && spec_is_html(body@)),
            Err(_) => false,
        },
{
    if status < 200 || status >= 300 {
        return Err(HtmlGetterError::StatusCode);
    }
    let header_ok = match content_type {
        Some(ct) => {
            let ct_chars = chars_of(ct);
            let html_pat = chars_of("html");
            contains_chars(&ct_chars, &html_pat)
        },
        None => false,
    };
    if !header_ok {
        return Err(HtmlGetterError::NotHTML);
    }
    if !is_html(body) {
        return Err(HtmlGetterError::NotHTML);
    }
    Ok(Html::new(body))
}

} // verus!
