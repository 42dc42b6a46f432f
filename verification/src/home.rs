//! The home page: its sections of books.
use vstd::prelude::*;
use crate::chapters::{first_in, text_or_empty};
use crate::consts::BASE_URL;
use crate::details::{book_address, book_url};
use crate::model::{ContentRating, Listing, Manga, MangaStatus, Viewer, MangaView, SourceError, manga_views, opt_str};
use crate::text::{
    chars_eq, contains, contains_exec, from_chars, normalize_space,
    normalize_space_exec, prefix, to_chars, trim, trimmed,
};
use crate::util::{
    cover_url, distinct_keys, extract_manga_key, lemma_distinct_keys_take,
    lemma_push_unique_distinct, manga_key_of, mewx_cover_url, normalize_image, normalized_img,
    push_unique, push_unique_spec,
};

verus! {

// ---------------------------------------------------------------------------
// Titles
// ---------------------------------------------------------------------------

/// A section heading: its words up to the first bracket, trimmed; `None`
/// when empty or when it belongs to the login box.
pub open spec fn home_title(text: Seq<char>) -> Option<Seq<char>> {
    let n = normalize_space(text);
    let head = match first_in(n, seq!['(', '（']) {
        Some(i) => n.take(i),
        None => n,
    };
    let title = trim(head);
    if title.len() == 0 {
        None
    } else if contains(title, "用户名"@) || contains(title, "密码"@) || contains(title, "新用户注册"@)
        || contains(title, "取回密码"@) {
        None
    } else {
        Some(title)
    }
}

/// A section heading is the text's words up to the first bracket: it is
/// not empty, has no surrounding whitespace, holds no bracket, and is not a
/// heading of the login box.
pub proof fn lemma_home_title_shape(text: Seq<char>)
    ensures
        home_title(text) matches Some(t) ==> {
            &&& t.len() > 0
            &&& trim(t) == t
            &&& forall|i: int| 0 <= i < t.len() ==> #[trigger] t[i] != '(' && t[i] != '（'
            &&& !contains(t, "用户名"@) && !contains(t, "密码"@) && !contains(t, "新用户注册"@)
                && !contains(t, "取回密码"@)
        },
{
    let n = normalize_space(text);
    let set = seq!['(', '（'];
    crate::chapters::lemma_first_in_from_bounds(n, set, 0);
    crate::chapters::lemma_first_in_from_before(n, set, 0);
    let head = match first_in(n, set) {
        Some(i) => n.take(i),
        None => n,
    };
    assert forall|j: int| 0 <= j < head.len() implies #[trigger] head[j] != '(' && head[j] != '（' by {
        assert(head[j] == n[j]);
        if head[j] == '(' || head[j] == '（' {
            assert(set.contains(n[j])) by {
                if n[j] == '(' {
                    assert(set[0] == n[j]);
                } else {
                    assert(set[1] == n[j]);
                }
            }
        }
    }
    let a = crate::text::lemma_trim_shape(head);
    let t = trim(head);
    assert forall|i: int| 0 <= i < t.len() implies #[trigger] t[i] != '(' && t[i] != '（' by {
        assert(t[i] == head[a + i]);
    }
}

fn contains_lit(v: &[char], p: &str) -> (b: bool)
    ensures
        b == contains(v@, p@),
{
    let pv = to_chars(p);
    contains_exec(v, pv.as_slice())
}

fn eq_lit(v: &[char], p: &str) -> (b: bool)
    ensures
        b == (v@ == p@),
{
    let pv = to_chars(p);
    chars_eq(v, pv.as_slice())
}

/// Cleans a section heading.
pub fn clean_home_title(text: &str) -> (out: Option<String>)
    ensures
        opt_str(out) == home_title(text@),
{
    let v = to_chars(text);
    let n = normalize_space_exec(v.as_slice());
    let m = n.len();
    let mut k: usize = 0;
    while k < m && n[k] != '(' && n[k] != '（'
        invariant
            m == n@.len(),
            k <= m,
            first_in(n@, seq!['(', '（']) == crate::chapters::first_in_from(
                n@,
                seq!['(', '（'],
                k as int,
            ),
        decreases m - k,
    {
        assert(!seq!['(', '（'].contains(n@[k as int])) by {
            if seq!['(', '（'].contains(n@[k as int]) {
                let j = choose|j: int| 0 <= j < 2 && seq!['(', '（'][j] == n@[k as int];
                assert(j == 0 || j == 1);
            }
        }
        k += 1;
    }
    proof {
        if k < m {
            assert(seq!['(', '（'].contains(n@[k as int])) by {
                if n@[k as int] == '(' {
                    assert(seq!['(', '（'][0] == '(');
                } else {
                    assert(seq!['(', '（'][1] == '（');
                }
            }
        }
        if k == m {
            assert(n@.take(k as int) =~= n@);
        }
    }
    let head = prefix(n.as_slice(), k);
    let title = trimmed(head.as_slice());
    let t = title.as_slice();
    if title.len() == 0 {
        return None;
    }
    if contains_lit(t, "用户名") || contains_lit(t, "密码") || contains_lit(t, "新用户注册")
        || contains_lit(t, "取回密码") {
        return None;
    }
    Some(from_chars(t))
}

/// The section of recently updated books.
pub open spec fn is_recent_update_title(title: Seq<char>) -> bool {
    contains(title, "最近更新"@)
}

pub fn is_recent_update_home_title(title: &str) -> (b: bool)
    ensures
        b == is_recent_update_title(title@),
{
    let v = to_chars(title);
    contains_lit(v.as_slice(), "最近更新")
}

/// The section of promoted books.
pub open spec fn is_promote_title(title: Seq<char>) -> bool {
    contains(title, "文库轻小说推广区"@) || contains(title, "文庫輕小說推廣區"@)
}

pub fn is_promote_home_title(title: &str) -> (b: bool)
    ensures
        b == is_promote_title(title@),
{
    let v = to_chars(title);
    contains_lit(v.as_slice(), "文库轻小说推广区") || contains_lit(v.as_slice(), "文庫輕小說推廣區")
}

/// A book title on the home page: its words; `None` when empty or when it is
/// a navigation label.
pub open spec fn home_manga_title(text: Seq<char>) -> Option<Seq<char>> {
    let title = normalize_space(text);
    if title.len() == 0 || title == "查看"@ || title == "更多"@ || contains(title, "TOP榜"@)
        || contains(title, "轻小说文库"@) {
        None
    } else {
        Some(title)
    }
}

/// Cleans a book title of the home page.
pub fn clean_home_manga_title(text: &str) -> (out: Option<String>)
    ensures
        opt_str(out) == home_manga_title(text@),
{
    let v = to_chars(text);
    let t = normalize_space_exec(v.as_slice());
    let t = t.as_slice();
    if t.len() == 0 || eq_lit(t, "查看") || eq_lit(t, "更多") || contains_lit(t, "TOP榜")
        || contains_lit(t, "轻小说文库") {
        None
    } else {
        Some(from_chars(t))
    }
}

/// The listing that a section heading leads to, as (id, name).
pub open spec fn listing_for(title: Seq<char>) -> Option<(Seq<char>, Seq<char>)> {
    if contains(title, "新书"@) {
        Some(("new"@, "新书一览"@))
    } else if contains(title, "更新"@) {
        Some(("updated"@, "今日更新"@))
    } else if contains(title, "动画"@) || contains(title, "新番"@) {
        Some(("anime"@, "动画化作品"@))
    } else if contains(title, "完结"@) || contains(title, "完本"@) {
        Some(("completed"@, "完结全本"@))
    } else if contains(title, "热门"@) || contains(title, "风云"@) || contains(title, "推荐"@) {
        Some(("popular"@, "热门轻小说"@))
    } else {
        None
    }
}

/// The words of a section heading decide the listing it leads to, the
/// first that applies: 新书 to the new books, 更新 to the updated ones, 动画
/// or 新番 to the anime adaptations, 完结 or 完本 to the completed ones, 热门,
/// 风云 or 推荐 to the popular ones; a heading with none of them leads to no
/// listing.
pub proof fn lemma_listing_words(title: Seq<char>)
    ensures
        contains(title, "新书"@) ==> listing_for(title) == Some(("new"@, "新书一览"@)),
        !contains(title, "新书"@) && contains(title, "更新"@) ==> listing_for(title) == Some(
            ("updated"@, "今日更新"@),
        ),
        !contains(title, "新书"@) && !contains(title, "更新"@) && (contains(title, "动画"@)
            || contains(title, "新番"@)) ==> listing_for(title) == Some(("anime"@, "动画化作品"@)),
        !contains(title, "新书"@) && !contains(title, "更新"@) && !contains(title, "动画"@)
            && !contains(title, "新番"@) && (contains(title, "完结"@) || contains(title, "完本"@))
            ==> listing_for(title) == Some(("completed"@, "完结全本"@)),
        !contains(title, "新书"@) && !contains(title, "更新"@) && !contains(title, "动画"@)
            && !contains(title, "新番"@) && !contains(title, "完结"@) && !contains(title, "完本"@) && (
        contains(title, "热门"@) || contains(title, "风云"@) || contains(title, "推荐"@))
            ==> listing_for(title) == Some(("popular"@, "热门轻小说"@)),
        listing_for(title) is None <==> !(contains(title, "新书"@) || contains(title, "更新"@)
            || contains(title, "动画"@) || contains(title, "新番"@) || contains(title, "完结"@)
            || contains(title, "完本"@) || contains(title, "热门"@) || contains(title, "风云"@)
            || contains(title, "推荐"@)),
{
}

pub open spec fn listing_view(l: Option<Listing>) -> Option<(Seq<char>, Seq<char>)> {
    match l {
        Some(x) => Some((x.id@, x.name@)),
        None => None,
    }
}

fn listing(id: &str, name: &str) -> (l: Listing)
    ensures
        l.id@ == id@,
        l.name@ == name@,
{
    Listing { id: from_chars(to_chars(id).as_slice()), name: from_chars(to_chars(name).as_slice()) }
}

/// The listing that a section heading leads to.
pub fn home_listing_for_title(title: &str) -> (out: Option<Listing>)
    ensures
        listing_view(out) == listing_for(title@),
{
    let v = to_chars(title);
    let t = v.as_slice();
    if contains_lit(t, "新书") {
        Some(listing("new", "新书一览"))
    } else if contains_lit(t, "更新") {
        Some(listing("updated", "今日更新"))
    } else if contains_lit(t, "动画") || contains_lit(t, "新番") {
        Some(listing("anime", "动画化作品"))
    } else if contains_lit(t, "完结") || contains_lit(t, "完本") {
        Some(listing("completed", "完结全本"))
    } else if contains_lit(t, "热门") || contains_lit(t, "风云") || contains_lit(t, "推荐") {
        Some(listing("popular", "热门轻小说"))
    } else {
        None
    }
}

// ---------------------------------------------------------------------------
// Book cards
// ---------------------------------------------------------------------------

/// A link: its `href`, its `title` attribute and its text.
pub struct LinkInfo {
    pub href: Option<String>,
    pub title: Option<String>,
    pub text: Option<String>,
}

/// An image: its `src`, `abs:src`, `alt` and `title` attributes.
pub struct CardImage {
    pub src: Option<String>,
    pub abs_src: Option<String>,
    pub alt: Option<String>,
    pub title: Option<String>,
}

/// A book card: its first book link, all its book links, its first image and
/// its text.
pub struct CardData {
    pub book_link: Option<LinkInfo>,
    pub links: Vec<LinkInfo>,
    pub img: Option<CardImage>,
    pub text: Option<String>,
}

/// A bare book link: the link, its first image, and the element around it.
pub struct LinkData {
    pub link: LinkInfo,
    pub img: Option<CardImage>,
    pub parent: Option<CardData>,
}

pub open spec fn opt_clean_title(o: Option<String>) -> Option<Seq<char>> {
    match o {
        Some(t) => home_manga_title(t@),
        None => None,
    }
}

/// The title of a link: its `title` attribute, else its text.
pub open spec fn link_title(l: LinkInfo) -> Option<Seq<char>> {
    match opt_clean_title(l.title) {
        Some(t) => Some(t),
        None => opt_clean_title(l.text),
    }
}

/// The title of the first link to the book that has one.
pub open spec fn links_title(links: Seq<LinkInfo>, key: Seq<char>) -> Option<Seq<char>>
    decreases links.len(),
{
    if links.len() == 0 {
        None
    } else if manga_key_of(text_or_empty(links[0].href)) == Some(key) && link_title(links[0]) is Some {
        link_title(links[0])
    } else {
        links_title(links.drop_first(), key)
    }
}

/// The title of a card: that of a link to the book, else the image's `alt`
/// (or `title`), else the card's text.
pub open spec fn card_title(card: CardData, key: Seq<char>) -> Option<Seq<char>> {
    match links_title(card.links@, key) {
        Some(t) => Some(t),
        None => {
            let from_img = match card.img {
                Some(img) => match img.alt {
                    Some(a) => home_manga_title(a@),
                    None => opt_clean_title(img.title),
                },
                None => None,
            };
            match from_img {
                Some(t) => Some(t),
                None => opt_clean_title(card.text),
            }
        },
    }
}

pub open spec fn card_image_address(img: Option<CardImage>) -> Option<Seq<char>> {
    match img {
        Some(i) => match i.src {
            Some(s) => if trim(s@).len() == 0 {
                None
            } else {
                Some(normalize_image(s@, opt_str(i.abs_src), BASE_URL@))
            },
            None => None,
        },
        None => None,
    }
}

/// A book of the home page with its key, title, cover and address.
pub open spec fn home_manga(key: Seq<char>, title: Seq<char>, cover: Seq<char>) -> MangaView {
    MangaView {
        key,
        title,
        cover: Some(cover),
        url: Some(book_address(key)),
        authors: None,
        artists: None,
        description: None,
        tags: None,
        status: MangaStatus::Unknown,
        content_rating: ContentRating::Safe,
        viewer: Viewer::Vertical,
    }
}

/// The book of a card: the key of its first book link, its title, and its
/// image or else the cover on the image host.
pub open spec fn home_card(card: CardData) -> Option<MangaView> {
    match card.book_link {
        Some(link) => match link.href {
            Some(h) => match manga_key_of(h@) {
                Some(key) => match card_title(card, key) {
                    Some(title) => Some(
                        home_manga(
                            key,
                            title,
                            match card_image_address(card.img) {
                                Some(c) => c,
                                None => cover_url(key),
                            },
                        ),
                    ),
                    None => None,
                },
                None => None,
            },
            None => None,
        },
        None => None,
    }
}

/// The book of a bare link: its title from the link or the element around
/// it, its image or the surrounding image, else the cover on the image host.
pub open spec fn home_link(l: LinkData) -> Option<MangaView> {
    match l.link.href {
        Some(h) => match manga_key_of(h@) {
            Some(key) => {
                let title = match link_title(l.link) {
                    Some(t) => Some(t),
                    None => match l.parent {
                        Some(p) => card_title(p, key),
                        None => None,
                    },
                };
                match title {
                    Some(t) => {
                        let cover = match card_image_address(l.img) {
                            Some(c) => c,
                            None => match l.parent {
                                Some(p) => match card_image_address(p.img) {
                                    Some(c) => c,
                                    None => cover_url(key),
                                },
                                None => cover_url(key),
                            },
                        };
                        Some(home_manga(key, t, cover))
                    },
                    None => None,
                }
            },
            None => None,
        },
        None => None,
    }
}

/// The address of a card image, when its `src` is not blank.
pub open spec fn card_image_src(img: Option<CardImage>) -> Option<Seq<char>> {
    match img {
        Some(i) => match i.src {
            Some(src) => if trim(src@).len() > 0 {
                Some(normalize_image(src@, opt_str(i.abs_src), BASE_URL@))
            } else {
                None
            },
            None => None,
        },
        None => None,
    }
}

/// A title that the home page shows for a book: not empty, and not one of
/// the navigation labels.
pub open spec fn shown_title(t: Seq<char>) -> bool {
    t.len() > 0 && t != "查看"@ && t != "更多"@ && !contains(t, "TOP榜"@) && !contains(t, "轻小说文库"@)
}

/// A home card gives the book of its first book link: its key, a title
/// that is shown, the book page as address, the card image's address as
/// cover (the image host's cover when the card has no usable image), a Safe
/// rating and the vertical viewer.
pub proof fn lemma_home_card_fields(card: CardData)
    ensures
        home_card(card) matches Some(m) ==> {
            &&& card.book_link matches Some(l) && l.href matches Some(h) && manga_key_of(h@)
                == Some(m.key)
            &&& shown_title(m.title)
            &&& m.url == Some(book_address(m.key))
            &&& m.cover == Some(
                match card_image_src(card.img) {
                    Some(c) => c,
                    None => cover_url(m.key),
                },
            )
            &&& m.content_rating == ContentRating::Safe
            &&& m.viewer == Viewer::Vertical
        },
{
    if let Some(m) = home_card(card) {
        lemma_card_title_shown(card, m.key);
    }
}

proof fn lemma_title_shown(t: Seq<char>)
    ensures
        home_manga_title(t) matches Some(x) ==> shown_title(x),
{
}

proof fn lemma_links_title_shown(links: Seq<LinkInfo>, key: Seq<char>)
    ensures
        links_title(links, key) matches Some(x) ==> shown_title(x),
    decreases links.len(),
{
    if links.len() > 0 {
        match links[0].title {
            Some(t) => lemma_title_shown(t@),
            None => {},
        }
        match links[0].text {
            Some(t) => lemma_title_shown(t@),
            None => {},
        }
        lemma_links_title_shown(links.drop_first(), key);
    }
}

proof fn lemma_card_title_shown(card: CardData, key: Seq<char>)
    ensures
        card_title(card, key) matches Some(x) ==> shown_title(x),
{
    lemma_links_title_shown(card.links@, key);
    if let Some(img) = card.img {
        if let Some(a) = img.alt {
            lemma_title_shown(a@);
        }
        if let Some(t) = img.title {
            lemma_title_shown(t@);
        }
    }
    if let Some(t) = card.text {
        lemma_title_shown(t@);
    }
}

/// A bare book link gives the book it leads to: its key, a title that is
/// shown, the book page as address, as cover the link's image, else the
/// image of the element around it, else the image host's cover, a Safe
/// rating and the vertical viewer.
pub proof fn lemma_home_link_fields(l: LinkData)
    ensures
        home_link(l) matches Some(m) ==> {
            &&& l.link.href matches Some(h) && manga_key_of(h@) == Some(m.key)
            &&& shown_title(m.title)
            &&& m.url == Some(book_address(m.key))
            &&& m.cover == Some(
                match card_image_src(l.img) {
                    Some(c) => c,
                    None => match l.parent {
                        Some(p) => match card_image_src(p.img) {
                            Some(c) => c,
                            None => cover_url(m.key),
                        },
                        None => cover_url(m.key),
                    },
                },
            )
            &&& m.content_rating == ContentRating::Safe
            &&& m.viewer == Viewer::Vertical
        },
{
    if let Some(m) = home_link(l) {
        if let Some(t) = l.link.title {
            lemma_title_shown(t@);
        }
        if let Some(t) = l.link.text {
            lemma_title_shown(t@);
        }
        if let Some(p) = l.parent {
            lemma_card_title_shown(p, m.key);
        }
    }
}

fn opt_ref(o: &Option<String>) -> (r: Option<&str>)
    ensures
        match r {
            Some(s) => o is Some && s@ == o->0@,
            None => o is None,
        },
{
    match o {
        Some(s) => Some(s.as_str()),
        None => None,
    }
}

fn opt_clean_title_exec(o: &Option<String>) -> (r: Option<String>)
    ensures
        opt_str(r) == opt_clean_title(*o),
{
    match o {
        Some(t) => clean_home_manga_title(t.as_str()),
        None => None,
    }
}

fn link_title_exec(l: &LinkInfo) -> (r: Option<String>)
    ensures
        opt_str(r) == link_title(*l),
{
    match opt_clean_title_exec(&l.title) {
        Some(t) => Some(t),
        None => opt_clean_title_exec(&l.text),
    }
}

/// The title of a card for the book with the given key.
pub fn home_card_title(card: &CardData, key: &str) -> (r: Option<String>)
    ensures
        opt_str(r) == card_title(*card, key@),
{
    let links = &card.links;
    let mut i: usize = 0;
    assert(links@.skip(0) =~= links@);
    while i < links.len()
        invariant
            i <= links@.len(),
            links@ == card.links@,
            links_title(links@, key@) == links_title(links@.skip(i as int), key@),
        decreases links.len() - i,
    {
        let ghost s = links@.skip(i as int);
        assert(s.drop_first() =~= links@.skip(i + 1));
        assert(s[0] == links@[i as int]);
        let link = &links[i];
        let href: &str = match &link.href {
            Some(h) => h.as_str(),
            None => "",
        };
        proof {
            reveal_strlit("");
        }
        assert(href@ == text_or_empty(link.href));
        let same = match extract_manga_key(href) {
            Some(k) => chars_eq(to_chars(k.as_str()).as_slice(), to_chars(key).as_slice()),
            None => false,
        };
        assert(same == (manga_key_of(text_or_empty(links@[i as int].href)) == Some(key@)));
        if same {
            if let Some(t) = link_title_exec(link) {
                assert(link_title(links@[i as int]) == Some(t@));
                assert(links_title(s, key@) == Some(t@));
                return Some(t);
            }
        }
        i += 1;
    }
    let from_img: Option<String> = match &card.img {
        Some(img) => match &img.alt {
            Some(a) => clean_home_manga_title(a.as_str()),
            None => opt_clean_title_exec(&img.title),
        },
        None => None,
    };
    match from_img {
        Some(t) => Some(t),
        None => opt_clean_title_exec(&card.text),
    }
}

fn card_image_exec(img: &Option<CardImage>) -> (r: Option<String>)
    ensures
        opt_str(r) == card_image_address(*img),
{
    match img {
        Some(i) => normalized_img(opt_ref(&i.src), opt_ref(&i.abs_src), BASE_URL),
        None => None,
    }
}

fn home_manga_exec(key: String, title: String, cover: String) -> (m: Manga)
    ensures
        m@ == home_manga(key@, title@, cover@),
{
    let url = book_url(key.as_str());
    Manga {
        key,
        title,
        cover: Some(cover),
        url: Some(url),
        authors: None,
        artists: None,
        description: None,
        tags: None,
        status: MangaStatus::Unknown,
        content_rating: ContentRating::Safe,
        viewer: Viewer::Vertical,
    }
}

/// Reads the book of a card.
pub fn parse_home_card(card: &CardData) -> (r: Option<Manga>)
    ensures
        match r {
            Some(m) => home_card(*card) == Some(m@),
            None => home_card(*card) is None,
        },
{
    let link = match &card.book_link {
        Some(l) => l,
        None => return None,
    };
    let href = match &link.href {
        Some(h) => h,
        None => return None,
    };
    let key = match extract_manga_key(href.as_str()) {
        Some(k) => k,
        None => return None,
    };
    let title = match home_card_title(card, key.as_str()) {
        Some(t) => t,
        None => return None,
    };
    let cover = match card_image_exec(&card.img) {
        Some(c) => c,
        None => mewx_cover_url(key.as_str()),
    };
    Some(home_manga_exec(key, title, cover))
}

/// Reads the book of a bare link.
pub fn parse_home_link(l: &LinkData) -> (r: Option<Manga>)
    ensures
        match r {
            Some(m) => home_link(*l) == Some(m@),
            None => home_link(*l) is None,
        },
{
    let href = match &l.link.href {
        Some(h) => h,
        None => return None,
    };
    let key = match extract_manga_key(href.as_str()) {
        Some(k) => k,
        None => return None,
    };
    let title: Option<String> = match link_title_exec(&l.link) {
        Some(t) => Some(t),
        None => match &l.parent {
            Some(p) => home_card_title(p, key.as_str()),
            None => None,
        },
    };
    let title = match title {
        Some(t) => t,
        None => return None,
    };
    let cover = match card_image_exec(&l.img) {
        Some(c) => c,
        None => match &l.parent {
            Some(p) => match card_image_exec(&p.img) {
                Some(c) => c,
                None => mewx_cover_url(key.as_str()),
            },
            None => mewx_cover_url(key.as_str()),
        },
    };
    Some(home_manga_exec(key, title, cover))
}

// ---------------------------------------------------------------------------
// Sections
// ---------------------------------------------------------------------------

/// The books of the cards, each added once.
pub open spec fn cards_fold(items: Seq<CardData>) -> Seq<MangaView>
    decreases items.len(),
{
    if items.len() == 0 {
        seq![]
    } else {
        match home_card(items.last()) {
            Some(m) => push_unique_spec(cards_fold(items.drop_last()), m),
            None => cards_fold(items.drop_last()),
        }
    }
}

/// The books of the bare links, each added once.
pub open spec fn links_fold(items: Seq<LinkData>) -> Seq<MangaView>
    decreases items.len(),
{
    if items.len() == 0 {
        seq![]
    } else {
        match home_link(items.last()) {
            Some(m) => push_unique_spec(links_fold(items.drop_last()), m),
            None => links_fold(items.drop_last()),
        }
    }
}

/// The books of the first card group that yields any.
pub open spec fn groups_entries(groups: Seq<Option<Vec<CardData>>>) -> Seq<MangaView>
    decreases groups.len(),
{
    if groups.len() == 0 {
        seq![]
    } else {
        let e = match groups[0] {
            Some(items) => cards_fold(items@),
            None => seq![],
        };
        if e.len() > 0 {
            e
        } else {
            groups_entries(groups.drop_first())
        }
    }
}

/// What a section gives: the texts of its candidate headings, its card
/// groups in order of preference, and its bare book links.
pub struct SectionData {
    pub title_candidates: Vec<Option<String>>,
    pub card_groups: Vec<Option<Vec<CardData>>>,
    pub book_links: Option<Vec<LinkData>>,
}

/// The books of a section: those of the first card group that yields any,
/// else those of its bare links; at most thirty.
pub open spec fn section_entries(section: SectionData) -> Seq<MangaView> {
    let e = groups_entries(section.card_groups@);
    let e2 = if e.len() == 0 {
        match section.book_links {
            Some(ls) => links_fold(ls@),
            None => e,
        }
    } else {
        e
    };
    if e2.len() > 30 {
        e2.take(30)
    } else {
        e2
    }
}

/// The heading of a section: the first candidate that cleans to one.
pub open spec fn section_title(cands: Seq<Option<String>>) -> Option<Seq<char>>
    decreases cands.len(),
{
    if cands.len() == 0 {
        None
    } else {
        match cands[0] {
            Some(t) => match home_title(t@) {
                Some(x) => Some(x),
                None => section_title(cands.drop_first()),
            },
            None => section_title(cands.drop_first()),
        }
    }
}

/// The books of cards never share a key.
pub proof fn lemma_cards_distinct(items: Seq<CardData>)
    ensures
        distinct_keys(cards_fold(items)),
    decreases items.len(),
{
    if items.len() > 0 {
        lemma_cards_distinct(items.drop_last());
        if let Some(m) = home_card(items.last()) {
            lemma_push_unique_distinct(cards_fold(items.drop_last()), m);
        }
    }
}

/// The books of bare links never share a key.
pub proof fn lemma_links_distinct(items: Seq<LinkData>)
    ensures
        distinct_keys(links_fold(items)),
    decreases items.len(),
{
    if items.len() > 0 {
        lemma_links_distinct(items.drop_last());
        if let Some(m) = home_link(items.last()) {
            lemma_push_unique_distinct(links_fold(items.drop_last()), m);
        }
    }
}

proof fn lemma_groups_distinct(groups: Seq<Option<Vec<CardData>>>)
    ensures
        distinct_keys(groups_entries(groups)),
    decreases groups.len(),
{
    if groups.len() > 0 {
        if let Some(items) = groups[0] {
            lemma_cards_distinct(items@);
        }
        lemma_groups_distinct(groups.drop_first());
    }
}

/// A section of the home page lists at most thirty books, none twice.
pub proof fn lemma_section_entries_bounds(section: SectionData)
    ensures
        distinct_keys(section_entries(section)),
        section_entries(section).len() <= 30,
        ({
            let found = if groups_entries(section.card_groups@).len() > 0 {
                groups_entries(section.card_groups@)
            } else {
                match section.book_links {
                    Some(ls) => links_fold(ls@),
                    None => Seq::empty(),
                }
            };
            &&& section_entries(section).len() == if found.len() > 30 {
                30
            } else {
                found.len() as int
            }
            &&& section_entries(section).is_prefix_of(found)
        }),
{
    lemma_groups_distinct(section.card_groups@);
    if let Some(ls) = section.book_links {
        lemma_links_distinct(ls@);
    }
    let e = groups_entries(section.card_groups@);
    let e2 = if e.len() == 0 {
        match section.book_links {
            Some(ls) => links_fold(ls@),
            None => e,
        }
    } else {
        e
    };
    if e2.len() > 30 {
        lemma_distinct_keys_take(e2, 30);
    }
}

/// Reads the heading of a section.
pub fn home_section_title(cands: &Vec<Option<String>>) -> (r: Option<String>)
    ensures
        opt_str(r) == section_title(cands@),
{
    let mut i: usize = 0;
    assert(cands@.skip(0) =~= cands@);
    while i < cands.len()
        invariant
            i <= cands@.len(),
            section_title(cands@) == section_title(cands@.skip(i as int)),
        decreases cands.len() - i,
    {
        let ghost s = cands@.skip(i as int);
        assert(s.drop_first() =~= cands@.skip(i + 1));
        assert(s[0] == cands@[i as int]);
        if let Some(t) = &cands[i] {
            if let Some(x) = clean_home_title(t.as_str()) {
                return Some(x);
            }
        }
        i += 1;
    }
    None
}

fn cards_entries(items: &Vec<CardData>) -> (out: Vec<Manga>)
    ensures
        manga_views(out@) == cards_fold(items@),
{
    let mut out: Vec<Manga> = Vec::new();
    let mut j: usize = 0;
    assert(items@.take(0) =~= Seq::<CardData>::empty());
    assert(manga_views(out@) =~= Seq::<MangaView>::empty());
    while j < items.len()
        invariant
            j <= items@.len(),
            manga_views(out@) == cards_fold(items@.take(j as int)),
        decreases items.len() - j,
    {
        assert(items@.take(j + 1).drop_last() =~= items@.take(j as int));
        assert(items@.take(j + 1).last() == items@[j as int]);
        if let Some(m) = parse_home_card(&items[j]) {
            push_unique(&mut out, m);
        }
        j += 1;
    }
    assert(items@.take(items@.len() as int) =~= items@);
    out
}

fn links_entries(items: &Vec<LinkData>) -> (out: Vec<Manga>)
    ensures
        manga_views(out@) == links_fold(items@),
{
    let mut out: Vec<Manga> = Vec::new();
    let mut j: usize = 0;
    assert(items@.take(0) =~= Seq::<LinkData>::empty());
    assert(manga_views(out@) =~= Seq::<MangaView>::empty());
    while j < items.len()
        invariant
            j <= items@.len(),
            manga_views(out@) == links_fold(items@.take(j as int)),
        decreases items.len() - j,
    {
        assert(items@.take(j + 1).drop_last() =~= items@.take(j as int));
        assert(items@.take(j + 1).last() == items@[j as int]);
        if let Some(m) = parse_home_link(&items[j]) {
            push_unique(&mut out, m);
        }
        j += 1;
    }
    assert(items@.take(items@.len() as int) =~= items@);
    out
}

/// Reads the books of a section.
pub fn home_section_links(section: &SectionData) -> (out: Vec<Manga>)
    ensures
        manga_views(out@) == section_entries(*section),
{
    let groups = &section.card_groups;
    let mut entries: Vec<Manga> = Vec::new();
    let mut i: usize = 0;
    assert(groups@.skip(0) =~= groups@);
    assert(manga_views(entries@) =~= Seq::<MangaView>::empty());
    loop
        invariant_except_break
            i <= groups@.len(),
            entries@.len() == 0,
            groups_entries(groups@) == groups_entries(groups@.skip(i as int)),
        ensures
            manga_views(entries@) == groups_entries(groups@),
        decreases groups.len() - i,
    {
        if i >= groups.len() {
            proof {
                assert(groups@.skip(i as int) =~= Seq::<Option<Vec<CardData>>>::empty());
                assert(manga_views(entries@) =~= Seq::<MangaView>::empty());
            }
            break;
        }
        let ghost s = groups@.skip(i as int);
        assert(s.drop_first() =~= groups@.skip(i + 1));
        assert(s[0] == groups@[i as int]);
        if let Some(items) = &groups[i] {
            let e = cards_entries(items);
            if e.len() > 0 {
                entries = e;
                break;
            }
        }
        i += 1;
    }
    if entries.len() == 0 {
        if let Some(ls) = &section.book_links {
            entries = links_entries(ls);
        }
    }
    let ghost before = entries@;
    entries.truncate(30);
    proof {
        if before.len() > 30 {
            assert(manga_views(entries@) =~= manga_views(before).take(30));
        }
    }
    entries
}

// ---------------------------------------------------------------------------
// The page
// ---------------------------------------------------------------------------

/// How a section of the home page shows its books: in a horizontal
/// scroller.
#[derive(Clone, Copy, Debug, PartialEq, Eq, Structural)]
pub enum SectionLayout {
    Scroller,
}

/// A section of the home page: its heading, its subtitle (none), its layout
/// (a scroller), its books and the listing it leads to.
pub struct HomeSection {
    pub title: Option<String>,
    pub subtitle: Option<String>,
    pub layout: SectionLayout,
    pub entries: Vec<Manga>,
    pub listing: Option<Listing>,
}

pub struct HomeSectionView {
    pub title: Option<Seq<char>>,
    pub subtitle: Option<Seq<char>>,
    pub layout: SectionLayout,
    pub entries: Seq<MangaView>,
    pub listing: Option<(Seq<char>, Seq<char>)>,
}

impl View for HomeSection {
    type V = HomeSectionView;

    open spec fn view(&self) -> HomeSectionView {
        HomeSectionView {
            title: opt_str(self.title),
            subtitle: opt_str(self.subtitle),
            layout: self.layout,
            entries: manga_views(self.entries@),
            listing: listing_view(self.listing),
        }
    }
}

pub open spec fn section_views(v: Seq<HomeSection>) -> Seq<HomeSectionView> {
    v.map_values(|c: HomeSection| c@)
}

/// A section of books: it has a heading that is not the login box, a notice
/// board or the recent updates, and some books.
pub open spec fn book_component(section: SectionData) -> Option<HomeSectionView> {
    match section_title(section.title_candidates@) {
        Some(t) => if contains(t, "用户登录"@) || contains(t, "公告"@) || is_recent_update_title(t) {
            None
        } else {
            let e = section_entries(section);
            if e.len() == 0 {
                None
            } else {
                Some(
                    HomeSectionView {
                        title: Some(t),
                        subtitle: None,
                        layout: SectionLayout::Scroller,
                        entries: e,
                        listing: listing_for(t),
                    },
                )
            }
        },
        None => None,
    }
}

/// Reads a section of books.
pub fn parse_home_book_component(section: &SectionData) -> (r: Option<HomeSection>)
    ensures
        match r {
            Some(c) => book_component(*section) == Some(c@),
            None => book_component(*section) is None,
        },
{
    let title = match home_section_title(&section.title_candidates) {
        Some(t) => t,
        None => return None,
    };
    let tv = to_chars(title.as_str());
    if contains_lit(tv.as_slice(), "用户登录") || contains_lit(tv.as_slice(), "公告")
        || is_recent_update_home_title(title.as_str()) {
        return None;
    }
    let entries = home_section_links(section);
    if entries.len() == 0 {
        return None;
    }
    let listing = home_listing_for_title(title.as_str());
    Some(
        HomeSection {
            title: Some(title),
            subtitle: None,
            layout: SectionLayout::Scroller,
            entries,
            listing,
        },
    )
}

/// The first promoted section of a selector's sections.
pub open spec fn promote_in(sections: Seq<SectionData>) -> Option<HomeSectionView>
    decreases sections.len(),
{
    if sections.len() == 0 {
        None
    } else {
        match section_title(sections[0].title_candidates@) {
            Some(t) => if is_promote_title(t) && section_entries(sections[0]).len() > 0 {
                Some(
                    HomeSectionView {
                        title: Some(t),
                        subtitle: None,
                        layout: SectionLayout::Scroller,
                        entries: section_entries(sections[0]),
                        listing: None,
                    },
                )
            } else {
                promote_in(sections.drop_first())
            },
            None => promote_in(sections.drop_first()),
        }
    }
}

/// The promoted section: the first found, trying the selectors in order.
pub open spec fn promote_component(groups: Seq<Option<Vec<SectionData>>>) -> Option<
    HomeSectionView,
>
    decreases groups.len(),
{
    if groups.len() == 0 {
        None
    } else {
        match groups[0] {
            Some(ss) => match promote_in(ss@) {
                Some(c) => Some(c),
                None => promote_component(groups.drop_first()),
            },
            None => promote_component(groups.drop_first()),
        }
    }
}

fn promote_in_exec(sections: &Vec<SectionData>) -> (r: Option<HomeSection>)
    ensures
        match r {
            Some(c) => promote_in(sections@) == Some(c@),
            None => promote_in(sections@) is None,
        },
{
    let mut i: usize = 0;
    assert(sections@.skip(0) =~= sections@);
    while i < sections.len()
        invariant
            i <= sections@.len(),
            promote_in(sections@) == promote_in(sections@.skip(i as int)),
        decreases sections.len() - i,
    {
        let ghost s = sections@.skip(i as int);
        assert(s.drop_first() =~= sections@.skip(i + 1));
        assert(s[0] == sections@[i as int]);
        let section = &sections[i];
        if let Some(title) = home_section_title(&section.title_candidates) {
            if is_promote_home_title(title.as_str()) {
                let entries = home_section_links(section);
                if entries.len() > 0 {
                    return Some(
                        HomeSection {
                            title: Some(title),
                            subtitle: None,
                            layout: SectionLayout::Scroller,
                            entries,
                            listing: None,
                        },
                    );
                }
            }
        }
        i += 1;
    }
    None
}

/// Reads the promoted section, trying the selectors in order.
pub fn parse_home_promote_component(groups: &Vec<Option<Vec<SectionData>>>) -> (r: Option<
    HomeSection,
>)
    ensures
        match r {
            Some(c) => promote_component(groups@) == Some(c@),
            None => promote_component(groups@) is None,
        },
{
    let mut i: usize = 0;
    assert(groups@.skip(0) =~= groups@);
    while i < groups.len()
        invariant
            i <= groups@.len(),
            promote_component(groups@) == promote_component(groups@.skip(i as int)),
        decreases groups.len() - i,
    {
        let ghost s = groups@.skip(i as int);
        assert(s.drop_first() =~= groups@.skip(i + 1));
        assert(s[0] == groups@[i as int]);
        if let Some(ss) = &groups[i] {
            if let Some(c) = promote_in_exec(ss) {
                return Some(c);
            }
        }
        i += 1;
    }
    None
}

/// The sections of books among the given sections, in order.
pub open spec fn components_of(sections: Seq<SectionData>) -> Seq<HomeSectionView>
    decreases sections.len(),
{
    if sections.len() == 0 {
        seq![]
    } else {
        match book_component(sections.last()) {
            Some(c) => components_of(sections.drop_last()).push(c),
            None => components_of(sections.drop_last()),
        }
    }
}

fn push_components(out: &mut Vec<HomeSection>, sections: &Vec<SectionData>)
    ensures
        section_views(final(out)@) == section_views(old(out)@) + components_of(sections@),
{
    let ghost start = section_views(out@);
    let mut i: usize = 0;
    assert(sections@.take(0) =~= Seq::<SectionData>::empty());
    assert(start + components_of(sections@.take(0)) =~= start);
    while i < sections.len()
        invariant
            i <= sections@.len(),
            section_views(out@) == start + components_of(sections@.take(i as int)),
        decreases sections.len() - i,
    {
        assert(sections@.take(i + 1).drop_last() =~= sections@.take(i as int));
        assert(sections@.take(i + 1).last() == sections@[i as int]);
        if let Some(c) = parse_home_book_component(&sections[i]) {
            let ghost before = out@;
            out.push(c);
            assert(section_views(out@) =~= section_views(before).push(c@));
            assert(start + components_of(sections@.take(i + 1)) =~= (start + components_of(
                sections@.take(i as int),
            )).push(c@));
        }
        i += 1;
    }
    assert(sections@.take(sections@.len() as int) =~= sections@);
}

pub open spec fn title_or_empty(t: Option<Seq<char>>) -> Seq<char> {
    match t {
        Some(x) => x,
        None => Seq::empty(),
    }
}

/// Some kept section has this title.
pub open spec fn has_title(r: Seq<HomeSectionView>, t: Seq<char>) -> bool {
    exists|i: int| 0 <= i < r.len() && (#[trigger] r[i]).title == Some(t)
}

/// The sections without the later ones whose heading an earlier kept
/// section already has.
pub open spec fn dedupe(cs: Seq<HomeSectionView>) -> Seq<HomeSectionView>
    decreases cs.len(),
{
    if cs.len() == 0 {
        seq![]
    } else {
        let r = dedupe(cs.drop_last());
        let c = cs.last();
        if has_title(r, title_or_empty(c.title)) {
            r
        } else {
            r.push(c)
        }
    }
}

/// Drops the sections whose heading an earlier section already has.
pub fn dedupe_home_components(components: &mut Vec<HomeSection>)
    ensures
        section_views(final(components)@) == dedupe(section_views(old(components)@)),
{
    let mut src: Vec<HomeSection> = Vec::new();
    std::mem::swap(&mut src, components);
    let ghost orig = section_views(src@);
    let mut result: Vec<HomeSection> = Vec::new();
    let ghost mut k: int = 0;
    assert(orig.take(0) =~= Seq::<HomeSectionView>::empty());
    assert(section_views(result@) =~= Seq::<HomeSectionView>::empty());
    assert(section_views(src@) =~= orig.skip(0));
    while src.len() > 0
        invariant
            0 <= k <= orig.len(),
            section_views(src@) == orig.skip(k),
            section_views(result@) == dedupe(orig.take(k)),
        decreases src.len(),
    {
        let ghost before_src = src@;
        assert(orig.skip(k).len() == before_src.len());
        assert(k < orig.len());
        let component = src.remove(0);
        assert(src@ =~= before_src.drop_first());
        assert(section_views(src@) =~= section_views(before_src).drop_first());
        assert(section_views(before_src).drop_first() =~= orig.skip(k).drop_first());
        assert(orig.skip(k).drop_first() =~= orig.skip(k + 1));
        assert(component == before_src[0]);
        assert(section_views(before_src)[0] == before_src[0]@);
        assert(orig.skip(k)[0] == orig[k]);
        assert(component@ == orig[k]);
        assert(orig.take(k + 1).drop_last() =~= orig.take(k));
        assert(orig.take(k + 1).last() == orig[k]);
        let title: Vec<char> = match &component.title {
            Some(t) => to_chars(t.as_str()),
            None => Vec::new(),
        };
        assert(title@ == title_or_empty(component@.title));
        let n = result.len();
        let mut j: usize = 0;
        let mut seen = false;
        while j < n
            invariant
                n == result@.len(),
                j <= n,
                seen == exists|m: int| 0 <= m < j && (#[trigger] section_views(result@)[m]).title
                    == Some(title@),
            decreases n - j,
        {
            let same = match &result[j].title {
                Some(t) => chars_eq(to_chars(t.as_str()).as_slice(), title.as_slice()),
                None => false,
            };
            assert(same == (section_views(result@)[j as int].title == Some(title@)));
            if same {
                seen = true;
            }
            proof {
                if seen {
                    if !same {
                        let m = choose|m: int|
                            0 <= m < j && (#[trigger] section_views(result@)[m]).title == Some(
                                title@,
                            );
                        assert(0 <= m < j + 1);
                    } else {
                        assert(section_views(result@)[j as int].title == Some(title@));
                    }
                }
            }
            j += 1;
        }
        if !seen {
            let ghost before_res = result@;
            result.push(component);
            assert(section_views(result@) =~= section_views(before_res).push(orig[k]));
        }
        proof {
            k = k + 1;
        }
    }
    proof {
        assert(orig.skip(k).len() == 0);
        assert(orig.take(k) =~= orig);
    }
    *components = result;
}

/// Dropping repeated headings keeps the first section, keeps every heading
/// that occurs, and keeps only sections that were there.
pub proof fn lemma_dedupe_keeps_first(cs: Seq<HomeSectionView>)
    ensures
        cs.len() > 0 ==> dedupe(cs).len() > 0 && dedupe(cs)[0] == cs[0],
        forall|i: int|
            0 <= i < cs.len() && (#[trigger] cs[i]).title is Some ==> has_title(dedupe(cs), cs[i].title->0),
        forall|j: int| 0 <= j < dedupe(cs).len() ==> cs.contains(#[trigger] dedupe(cs)[j]),
    decreases cs.len(),
{
    if cs.len() > 0 {
        let p = cs.drop_last();
        lemma_dedupe_keeps_first(p);
        let r = dedupe(p);
        let c = cs.last();
        let d = dedupe(cs);
        if p.len() == 0 {
            assert(r.len() == 0);
            assert(!has_title(r, title_or_empty(c.title)));
            assert(d == r.push(c));
        }
        assert forall|i: int| 0 <= i < cs.len() && (#[trigger] cs[i]).title is Some implies has_title(
            d,
            cs[i].title->0,
        ) by {
            if i < p.len() {
                assert(p[i] == cs[i]);
                let w = choose|w: int| 0 <= w < r.len() && (#[trigger] r[w]).title == Some(p[i].title->0);
                if has_title(r, title_or_empty(c.title)) {
                } else {
                    assert(d[w] == r[w]);
                }
            } else {
                assert(cs[i] == c);
                if has_title(r, title_or_empty(c.title)) {
                } else {
                    assert(d[r.len() as int] == c);
                }
            }
        }
        assert forall|j: int| 0 <= j < d.len() implies cs.contains(#[trigger] d[j]) by {
            if j < r.len() {
                assert(d[j] == r[j]);
                assert(p.contains(r[j]));
                let k = choose|k: int| 0 <= k < p.len() && p[k] == r[j];
                assert(cs[k] == p[k]);
            } else {
                assert(d[j] == c);
                assert(cs[cs.len() - 1] == c);
            }
        }
        if p.len() > 0 {
            assert(d[0] == r[0]);
            assert(p[0] == cs[0]);
        }
    }
}

/// After dropping, no two kept sections share a heading.
pub proof fn lemma_dedupe_distinct(cs: Seq<HomeSectionView>)
    ensures
        forall|i: int, j: int|
            0 <= i < j < dedupe(cs).len() && dedupe(cs)[j].title is Some ==> #[trigger] dedupe(
                cs,
            )[i].title != #[trigger] dedupe(cs)[j].title,
        dedupe(cs).len() <= cs.len(),
    decreases cs.len(),
{
    if cs.len() > 0 {
        lemma_dedupe_distinct(cs.drop_last());
        let r = dedupe(cs.drop_last());
        let c = cs.last();
        if !has_title(r, title_or_empty(c.title)) {
            let d = r.push(c);
            assert forall|i: int, j: int|
                0 <= i < j < d.len() && d[j].title is Some implies #[trigger] d[i].title
                != #[trigger] d[j].title by {
                if j == r.len() {
                    assert(d[j] == c);
                    assert(c.title == Some(title_or_empty(c.title)));
                    if d[i].title == d[j].title {
                        assert(r[i].title == Some(title_or_empty(c.title)));
                        assert(has_title(r, title_or_empty(c.title)));
                    }
                } else {
                    assert(d[i] == r[i] && d[j] == r[j]);
                }
            }
        }
    }
}

/// A section as the home page shows it: at most thirty books, none twice.
pub open spec fn well_formed_section(c: HomeSectionView) -> bool {
    distinct_keys(c.entries) && c.entries.len() <= 30
}

proof fn lemma_components_well_formed(sections: Seq<SectionData>)
    ensures
        forall|i: int|
            0 <= i < components_of(sections).len() ==> well_formed_section(
                #[trigger] components_of(sections)[i],
            ),
    decreases sections.len(),
{
    if sections.len() > 0 {
        let prev = components_of(sections.drop_last());
        lemma_components_well_formed(sections.drop_last());
        lemma_section_entries_bounds(sections.last());
        if let Some(c) = book_component(sections.last()) {
            assert(c.entries == section_entries(sections.last()));
            let all = components_of(sections);
            assert(all == prev.push(c));
            assert forall|i: int| 0 <= i < all.len() implies well_formed_section(
                #[trigger] all[i],
            ) by {
                if i < prev.len() {
                    assert(all[i] == prev[i]);
                } else {
                    assert(all[i] == c);
                }
            }
        }
    }
}

proof fn lemma_promote_in_well_formed(sections: Seq<SectionData>)
    ensures
        promote_in(sections) matches Some(c) ==> well_formed_section(c),
    decreases sections.len(),
{
    if sections.len() > 0 {
        lemma_section_entries_bounds(sections[0]);
        lemma_promote_in_well_formed(sections.drop_first());
    }
}

proof fn lemma_promote_well_formed(groups: Seq<Option<Vec<SectionData>>>)
    ensures
        promote_component(groups) matches Some(c) ==> well_formed_section(c),
    decreases groups.len(),
{
    if groups.len() > 0 {
        if let Some(ss) = groups[0] {
            lemma_promote_in_well_formed(ss@);
        }
        lemma_promote_well_formed(groups.drop_first());
    }
}

proof fn lemma_dedupe_keeps(cs: Seq<HomeSectionView>)
    requires
        forall|i: int| 0 <= i < cs.len() ==> well_formed_section(#[trigger] cs[i]),
    ensures
        forall|i: int| 0 <= i < dedupe(cs).len() ==> well_formed_section(#[trigger] dedupe(cs)[i]),
    decreases cs.len(),
{
    if cs.len() > 0 {
        let p = cs.drop_last();
        assert forall|i: int| 0 <= i < p.len() implies well_formed_section(#[trigger] p[i]) by {
            assert(p[i] == cs[i]);
        }
        lemma_dedupe_keeps(p);
        let r = dedupe(p);
        let c = cs.last();
        assert(well_formed_section(c));
        if !has_title(r, title_or_empty(c.title)) {
            let d = r.push(c);
            assert(dedupe(cs) == d);
            assert forall|i: int| 0 <= i < d.len() implies well_formed_section(#[trigger] d[i]) by {
                if i < r.len() {
                    assert(d[i] == r[i]);
                }
            }
        }
    }
}

/// What the home page gives: the sections of the centre column, the
/// candidates for the promoted section by selector, and the tables and
/// blocks to fall back on.
pub struct HomePage {
    pub center_blocks: Option<Vec<SectionData>>,
    pub promote_groups: Vec<Option<Vec<SectionData>>>,
    pub content_tables: Option<Vec<SectionData>>,
    pub fallback_blocks: Option<Vec<SectionData>>,
}

/// The sections of the home page: the centre column's sections of books
/// and the promoted section; failing those, the sections of the content
/// tables; failing those, of the fallback blocks; duplicates dropped.
pub open spec fn home(page: HomePage) -> Result<Seq<HomeSectionView>, SourceError> {
    let c1 = match page.center_blocks {
        Some(bs) => components_of(bs@),
        None => seq![],
    };
    let c2 = match promote_component(page.promote_groups@) {
        Some(p) => c1.push(p),
        None => c1,
    };
    let c3 = if c2.len() == 0 {
        match page.content_tables {
            Some(ts) => components_of(ts@),
            None => c2,
        }
    } else {
        c2
    };
    let c4 = if c3.len() == 0 {
        match page.fallback_blocks {
            Some(bs) => components_of(bs@),
            None => c3,
        }
    } else {
        c3
    };
    let d = dedupe(c4);
    if d.len() == 0 {
        Err(SourceError::HomeEmpty)
    } else {
        Ok(d)
    }
}

/// Reads the sections of the home page.
pub fn parse_home(page: &HomePage) -> (r: Result<Vec<HomeSection>, SourceError>)
    ensures
        match home(*page) {
            Ok(d) => r matches Ok(v) && section_views(v@) == d,
            Err(e) => r == Err::<Vec<HomeSection>, SourceError>(e),
        },
{
    let mut components: Vec<HomeSection> = Vec::new();
    assert(section_views(components@) =~= Seq::<HomeSectionView>::empty());
    if let Some(bs) = &page.center_blocks {
        push_components(&mut components, bs);
        assert(Seq::<HomeSectionView>::empty() + components_of(bs@) =~= components_of(bs@));
    }
    if let Some(p) = parse_home_promote_component(&page.promote_groups) {
        let ghost before = components@;
        components.push(p);
        assert(section_views(components@) =~= section_views(before).push(p@));
    }
    if components.len() == 0 {
        if let Some(ts) = &page.content_tables {
            push_components(&mut components, ts);
            assert(Seq::<HomeSectionView>::empty() + components_of(ts@) =~= components_of(ts@));
        }
    }
    if components.len() == 0 {
        if let Some(bs) = &page.fallback_blocks {
            push_components(&mut components, bs);
            assert(Seq::<HomeSectionView>::empty() + components_of(bs@) =~= components_of(bs@));
        }
    }
    dedupe_home_components(&mut components);
    if components.len() == 0 {
        return Err(SourceError::HomeEmpty);
    }
    Ok(components)
}

/// Every section read from the home page lists at most thirty books, none
/// twice, and no two sections share a heading.
pub proof fn lemma_home_sections(page: HomePage)
    ensures
        home(page) matches Ok(d) ==> (forall|i: int|
            0 <= i < d.len() ==> well_formed_section(#[trigger] d[i])) && (forall|i: int, j: int|
            0 <= i < j < d.len() && d[j].title is Some ==> #[trigger] d[i].title
                != #[trigger] d[j].title),
{
    let c1 = match page.center_blocks {
        Some(bs) => components_of(bs@),
        None => seq![],
    };
    if let Some(bs) = page.center_blocks {
        lemma_components_well_formed(bs@);
    }
    lemma_promote_well_formed(page.promote_groups@);
    let c2 = match promote_component(page.promote_groups@) {
        Some(p) => c1.push(p),
        None => c1,
    };
    assert forall|i: int| 0 <= i < c2.len() implies well_formed_section(#[trigger] c2[i]) by {
        if i < c1.len() {
            assert(c2[i] == c1[i]);
        }
    }
    if let Some(ts) = page.content_tables {
        lemma_components_well_formed(ts@);
    }
    if let Some(bs) = page.fallback_blocks {
        lemma_components_well_formed(bs@);
    }
    let c3 = if c2.len() == 0 {
        match page.content_tables {
            Some(ts) => components_of(ts@),
            None => c2,
        }
    } else {
        c2
    };
    let c4 = if c3.len() == 0 {
        match page.fallback_blocks {
            Some(bs) => components_of(bs@),
            None => c3,
        }
    } else {
        c3
    };
    lemma_dedupe_keeps(c4);
    lemma_dedupe_distinct(c4);
}

} // verus!
