//! Requests to the site: addresses, headers, login cookies, and what an
//! answer turns out to be.
use vstd::prelude::*;
use crate::consts::{BASE_URL, REQUEST_BASE_URL, USER_AGENT};
use crate::encode::{gbk_decode, gbk_decoding};
use crate::model::SourceError;
use crate::text::{
    contains, contains_exec, from_chars, join, push_all, starts_with, starts_with_exec,
    suffix, to_chars, trim, trimmed, views,
};

verus! {

// ---------------------------------------------------------------------------
// Addresses
// ---------------------------------------------------------------------------

/// The address asked for the GBK edition of a page: unchanged when it
/// already names a charset, else with `charset=gbk` added to its query.
pub open spec fn with_charset(url: Seq<char>) -> Seq<char> {
    if contains(url, "charset="@) {
        url
    } else if contains(url, "?"@) {
        url + "&charset=gbk"@
    } else {
        url + "?charset=gbk"@
    }
}

fn contains_lit(v: &[char], p: &str) -> (b: bool)
    ensures
        b == contains(v@, p@),
{
    let pv = to_chars(p);
    contains_exec(v, pv.as_slice())
}

/// Adds `charset=gbk` to an address's query unless it names a charset.
pub fn append_charset(url: &str) -> (out: String)
    ensures
        out@ == with_charset(url@),
{
    let v = to_chars(url);
    if contains_lit(v.as_slice(), "charset=") {
        return from_chars(v.as_slice());
    }
    let mut o = to_chars(url);
    if contains_lit(v.as_slice(), "?") {
        push_all(&mut o, to_chars("&charset=gbk").as_slice());
    } else {
        push_all(&mut o, to_chars("?charset=gbk").as_slice());
    }
    from_chars(o.as_slice())
}

/// Asking twice for the GBK edition asks for the same address.
pub proof fn lemma_with_charset_idempotent(url: Seq<char>)
    ensures
        with_charset(with_charset(url)) == with_charset(url),
{
    reveal_strlit("charset=");
    reveal_strlit("&charset=gbk");
    reveal_strlit("?charset=gbk");
    if !contains(url, "charset="@) {
        let suffix_text = if contains(url, "?"@) {
            "&charset=gbk"@
        } else {
            "?charset=gbk"@
        };
        let w = url + suffix_text;
        let k: int = url.len() as int + 1;
        assert(w.subrange(k, k + 8) =~= "charset="@);
        assert(crate::text::matches_at(w, "charset="@, k));
        crate::text::lemma_find_from_skip_some(w, "charset="@, 0, k);
    }
}

/// The address that a request goes to: site addresses are moved to the
/// request host.
pub open spec fn network_address(url: Seq<char>) -> Seq<char> {
    if starts_with(url, BASE_URL@) {
        REQUEST_BASE_URL@ + url.skip(BASE_URL@.len() as int)
    } else {
        url
    }
}

/// Moves a site address to the request host.
pub fn network_url(url: &str) -> (out: String)
    ensures
        out@ == network_address(url@),
{
    let v = to_chars(url);
    let base = to_chars(BASE_URL);
    if starts_with_exec(v.as_slice(), base.as_slice()) {
        let mut o = to_chars(REQUEST_BASE_URL);
        let rest = suffix(v.as_slice(), base.len());
        push_all(&mut o, rest.as_slice());
        from_chars(o.as_slice())
    } else {
        from_chars(v.as_slice())
    }
}

/// The address a page request is sent to.
pub fn request_url(url: &str) -> (out: String)
    ensures
        out@ == with_charset(network_address(url@)),
{
    let n = network_url(url);
    append_charset(n.as_str())
}

/// `<site>/index.php`.
pub fn home_url() -> (out: String)
    ensures
        out@ == BASE_URL@ + "/index.php"@,
{
    let mut o = to_chars(BASE_URL);
    push_all(&mut o, to_chars("/index.php").as_slice());
    from_chars(o.as_slice())
}

/// `<site>/modules/article/tags.php`.
pub fn tags_url() -> (out: String)
    ensures
        out@ == BASE_URL@ + "/modules/article/tags.php"@,
{
    let mut o = to_chars(BASE_URL);
    push_all(&mut o, to_chars("/modules/article/tags.php").as_slice());
    from_chars(o.as_slice())
}

// ---------------------------------------------------------------------------
// Cookies and headers
// ---------------------------------------------------------------------------

/// The `name=value` pairs.
pub open spec fn cookie_pairs(cookies: Seq<(String, String)>) -> Seq<Seq<char>> {
    cookies.map_values(|c: (String, String)| c.0@ + "="@ + c.1@)
}

/// The `Cookie` header: the pairs separated by `; `.
pub open spec fn cookie_text(cookies: Seq<(String, String)>) -> Seq<char> {
    join(cookie_pairs(cookies), "; "@)
}

/// Builds the `Cookie` header from the stored login cookies, in the order
/// given.
pub fn cookie_header(cookies: &Vec<(String, String)>) -> (out: String)
    ensures
        out@ == cookie_text(cookies@),
{
    let mut pairs: Vec<Vec<char>> = Vec::new();
    let mut i: usize = 0;
    while i < cookies.len()
        invariant
            i <= cookies@.len(),
            views(pairs@) == cookie_pairs(cookies@.take(i as int)),
        decreases cookies.len() - i,
    {
        let (k, v) = &cookies[i];
        let mut p = to_chars(k.as_str());
        push_all(&mut p, to_chars("=").as_slice());
        push_all(&mut p, to_chars(v.as_str()).as_slice());
        let ghost before = pairs@;
        pairs.push(p);
        assert(views(pairs@) =~= views(before).push(p@));
        assert(cookie_pairs(cookies@.take(i + 1)) =~= cookie_pairs(cookies@.take(i as int)).push(
            cookies@[i as int].0@ + "="@ + cookies@[i as int].1@,
        ));
        i += 1;
    }
    assert(cookies@.take(cookies@.len() as int) =~= cookies@);
    let out = crate::text::join_exec(&pairs, to_chars("; ").as_slice());
    from_chars(out.as_slice())
}

/// The value of the first cookie with the name.
pub open spec fn cookie_value(cookies: Seq<(String, String)>, name: Seq<char>) -> Option<Seq<char>>
    decreases cookies.len(),
{
    if cookies.len() == 0 {
        None
    } else if cookies[0].0@ == name {
        Some(cookies[0].1@)
    } else {
        cookie_value(cookies.drop_first(), name)
    }
}

/// The cookies show a login: a non-blank `jieqiUserInfo`, a
/// `jieqiVisitInfo` naming a user, or a non-blank `PHPSESSID`.
pub open spec fn is_logged_in(cookies: Seq<(String, String)>) -> bool {
    ||| (cookie_value(cookies, "jieqiUserInfo"@) matches Some(v) && trim(v).len() > 0)
    ||| (cookie_value(cookies, "jieqiVisitInfo"@) matches Some(v) && contains(v, "jieqiUserId"@))
    ||| (cookie_value(cookies, "PHPSESSID"@) matches Some(v) && trim(v).len() > 0)
}

fn cookie_value_exec(cookies: &Vec<(String, String)>, name: &str) -> (r: Option<Vec<char>>)
    ensures
        match r {
            Some(v) => cookie_value(cookies@, name@) == Some(v@),
            None => cookie_value(cookies@, name@) is None,
        },
{
    let nv = to_chars(name);
    let mut i: usize = 0;
    assert(cookies@.skip(0) =~= cookies@);
    while i < cookies.len()
        invariant
            i <= cookies@.len(),
            nv@ == name@,
            cookie_value(cookies@, name@) == cookie_value(cookies@.skip(i as int), name@),
        decreases cookies.len() - i,
    {
        let ghost s = cookies@.skip(i as int);
        assert(s.drop_first() =~= cookies@.skip(i + 1));
        assert(s[0] == cookies@[i as int]);
        let (k, v) = &cookies[i];
        if crate::text::chars_eq(to_chars(k.as_str()).as_slice(), nv.as_slice()) {
            return Some(to_chars(v.as_str()));
        }
        i += 1;
    }
    None
}

/// Whether the cookies show a login.
pub fn has_auth_cookie(cookies: &Vec<(String, String)>) -> (b: bool)
    ensures
        b == is_logged_in(cookies@),
{
    let a = match cookie_value_exec(cookies, "jieqiUserInfo") {
        Some(v) => trimmed(v.as_slice()).len() > 0,
        None => false,
    };
    let b = match cookie_value_exec(cookies, "jieqiVisitInfo") {
        Some(v) => contains_lit(v.as_slice(), "jieqiUserId"),
        None => false,
    };
    let c = match cookie_value_exec(cookies, "PHPSESSID") {
        Some(v) => trimmed(v.as_slice()).len() > 0,
        None => false,
    };
    a || b || c
}

/// The headers of a request to the site: the browser identity, the site as
/// referrer, and the cookies when there are any.
pub open spec fn request_header_list(cookie: Seq<char>) -> Seq<(Seq<char>, Seq<char>)> {
    let base = seq![("User-Agent"@, USER_AGENT@), ("Referer"@, BASE_URL@)];
    if cookie.len() == 0 {
        base
    } else {
        base.push(("Cookie"@, cookie))
    }
}

pub open spec fn header_views(v: Seq<(String, String)>) -> Seq<(Seq<char>, Seq<char>)> {
    v.map_values(|h: (String, String)| (h.0@, h.1@))
}

fn owned(s: &str) -> (r: String)
    ensures
        r@ == s@,
{
    from_chars(to_chars(s).as_slice())
}

/// The headers of a request to the site.
pub fn request_headers(cookie: &str) -> (out: Vec<(String, String)>)
    ensures
        header_views(out@) == request_header_list(cookie@),
{
    let mut out: Vec<(String, String)> = Vec::new();
    out.push((owned("User-Agent"), owned(USER_AGENT)));
    out.push((owned("Referer"), owned(BASE_URL)));
    if !cookie.is_empty() {
        out.push((owned("Cookie"), owned(cookie)));
    }
    assert(header_views(out@) =~= request_header_list(cookie@));
    out
}

// ---------------------------------------------------------------------------
// Answers
// ---------------------------------------------------------------------------

/// A login form on the page.
pub open spec fn login_form(html: Seq<char>) -> bool {
    ||| contains(html, "jieqi_username"@)
    ||| contains(html, "jieqi_password"@)
    ||| (contains(html, "login.php"@) && contains(html, "name=\"username\""@))
    ||| (contains(html, "login.php"@) && contains(html, "name=\"password\""@))
}

/// A request to log in on the page.
pub open spec fn login_notice(html: Seq<char>) -> bool {
    ||| contains(html, "请先登录"@)
    ||| contains(html, "請先登錄"@)
    ||| contains(html, "请先登陆"@)
    ||| contains(html, "您尚未登录"@)
}

/// A Cloudflare challenge page.
pub open spec fn cloudflare_page(html: Seq<char>) -> bool {
    ||| contains(html, "cf-mitigated"@)
    ||| contains(html, "window._cf_chl_opt"@)
    ||| contains(html, "Just a moment"@)
    ||| contains(html, "Attention Required! | Cloudflare"@)
}

pub fn looks_like_login_form(html: &str) -> (b: bool)
    ensures
        b == login_form(html@),
{
    let v = to_chars(html);
    let v = v.as_slice();
    contains_lit(v, "jieqi_username") || contains_lit(v, "jieqi_password") || (contains_lit(
        v,
        "login.php",
    ) && contains_lit(v, "name=\"username\"")) || (contains_lit(v, "login.php") && contains_lit(
        v,
        "name=\"password\"",
    ))
}

pub fn looks_like_login_notice(html: &str) -> (b: bool)
    ensures
        b == login_notice(html@),
{
    let v = to_chars(html);
    let v = v.as_slice();
    contains_lit(v, "请先登录") || contains_lit(v, "請先登錄") || contains_lit(v, "请先登陆")
        || contains_lit(v, "您尚未登录")
}

pub fn looks_like_login_page(html: &str) -> (b: bool)
    ensures
        b == (login_form(html@) || login_notice(html@)),
{
    looks_like_login_form(html) || looks_like_login_notice(html)
}

pub fn looks_like_cloudflare(html: &str) -> (b: bool)
    ensures
        b == cloudflare_page(html@),
{
    let v = to_chars(html);
    let v = v.as_slice();
    contains_lit(v, "cf-mitigated") || contains_lit(v, "window._cf_chl_opt") || contains_lit(
        v,
        "Just a moment",
    ) || contains_lit(v, "Attention Required! | Cloudflare")
}

/// What a page answer is: the page itself, a challenge, or a login page.
#[derive(Clone, Copy, Debug, PartialEq, Eq, Structural)]
pub enum PageCheck {
    Page,
    Challenge,
    Login,
}

/// A challenge: status 403, a `cf-mitigated` header naming a challenge, or
/// a challenge page; else a login page; else the page.
pub open spec fn page_check(status: i32, mitigated: Option<Seq<char>>, html: Seq<char>) -> PageCheck {
    if status == 403 || (mitigated matches Some(m) && contains(m, "challenge"@)) || cloudflare_page(
        html,
    ) {
        PageCheck::Challenge
    } else if login_form(html) || login_notice(html) {
        PageCheck::Login
    } else {
        PageCheck::Page
    }
}

/// A page answer is a challenge when its status is 403, when its
/// `cf-mitigated` header names a challenge, or when it is a challenge page;
/// otherwise it is a login page when it shows a login form or asks to log
/// in; otherwise it is the page itself.
pub proof fn lemma_page_check_rules(status: i32, mitigated: Option<Seq<char>>, html: Seq<char>)
    ensures
        status == 403 ==> page_check(status, mitigated, html) == PageCheck::Challenge,
        (mitigated matches Some(m) && contains(m, "challenge"@)) ==> page_check(status, mitigated, html)
            == PageCheck::Challenge,
        cloudflare_page(html) ==> page_check(status, mitigated, html) == PageCheck::Challenge,
        page_check(status, mitigated, html) == PageCheck::Login <==> (page_check(
            status,
            mitigated,
            html,
        ) != PageCheck::Challenge && (login_form(html) || login_notice(html))),
        page_check(status, mitigated, html) == PageCheck::Page <==> (status != 403 && !(
        mitigated matches Some(m) && contains(m, "challenge"@)) && !cloudflare_page(html)
            && !login_form(html) && !login_notice(html)),
        webview_check(html) == Ok::<(), SourceError>(()) <==> (!cloudflare_page(html) && !login_form(
            html,
        ) && !login_notice(html)),
        cloudflare_page(html) ==> webview_check(html) == Err::<(), SourceError>(
            SourceError::CloudflareChallenge,
        ),
{
}

/// The cookies show a login exactly when one of them does: a
/// `jieqiUserInfo` that is not blank, a `jieqiVisitInfo` that names a user,
/// or a `PHPSESSID` that is not blank, each read from its first cookie of
/// that name. Cookies of other names never matter.
pub proof fn lemma_login_cookies(cookies: Seq<(String, String)>, other: (String, String))
    ensures
        (cookie_value(cookies, "PHPSESSID"@) matches Some(v) && trim(v).len() > 0) ==> is_logged_in(
            cookies,
        ),
        (cookie_value(cookies, "jieqiUserInfo"@) matches Some(v) && trim(v).len() > 0) ==> is_logged_in(
            cookies,
        ),
        (cookie_value(cookies, "jieqiVisitInfo"@) matches Some(v) && contains(v, "jieqiUserId"@))
            ==> is_logged_in(cookies),
        cookies.len() == 0 ==> !is_logged_in(cookies),
        other.0@ != "PHPSESSID"@ && other.0@ != "jieqiUserInfo"@ && other.0@ != "jieqiVisitInfo"@
            ==> (is_logged_in(seq![other] + cookies) == is_logged_in(cookies)),
{
    let c = seq![other] + cookies;
    assert(c.drop_first() =~= cookies);
}

/// Tells what a page answer is.
pub fn check_page(status: i32, mitigated: Option<&str>, html: &str) -> (r: PageCheck)
    ensures
        r == page_check(
            status,
            match mitigated {
                Some(m) => Some(m@),
                None => None,
            },
            html@,
        ),
{
    let challenged = match mitigated {
        Some(m) => contains_lit(to_chars(m).as_slice(), "challenge"),
        None => false,
    };
    if status == 403 || challenged || looks_like_cloudflare(html) {
        PageCheck::Challenge
    } else if looks_like_login_page(html) {
        PageCheck::Login
    } else {
        PageCheck::Page
    }
}

/// Decodes the GBK bytes of a page answer and tells what it is: the text
/// is what the decoder gives, and it is classified from that text.
pub fn read_page(status: i32, mitigated: Option<&str>, data: &[u8]) -> (r: (String, PageCheck))
    requires
        data@.len() <= usize::MAX / 16,
    ensures
        r.0@ == gbk_decoding(data@),
        r.1 == page_check(
            status,
            match mitigated {
                Some(m) => Some(m@),
                None => None,
            },
            gbk_decoding(data@),
        ),
{
    let html = gbk_decode(data);
    let check = check_page(status, mitigated, html.as_str());
    (html, check)
}

/// What a page rendered in the web view is: an error for a challenge or a
/// login page.
pub open spec fn webview_check(html: Seq<char>) -> Result<(), SourceError> {
    if cloudflare_page(html) {
        Err(SourceError::CloudflareChallenge)
    } else if login_form(html) || login_notice(html) {
        Err(SourceError::LoginRequired)
    } else {
        Ok(())
    }
}

/// Checks a page rendered in the web view.
pub fn check_webview_html(html: &str) -> (r: Result<(), SourceError>)
    ensures
        r == webview_check(html@),
{
    if looks_like_cloudflare(html) {
        Err(SourceError::CloudflareChallenge)
    } else if looks_like_login_page(html) {
        Err(SourceError::LoginRequired)
    } else {
        Ok(())
    }
}

} // verus!
