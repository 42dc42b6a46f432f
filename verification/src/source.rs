//! The decisions of the source that the reader app drives: what a search
//! asks for, what a chapter's pages are, where a link leads and whether a
//! login succeeded.
use vstd::prelude::*;
use crate::chapters::{chapter_address, chapter_text, chapter_url, clean_chapter_text, image_list, image_urls};
use crate::filters::{FilterInput, filters_fold, parse_search_filters};
use crate::model::{SourceError, opt_str};
use crate::net::{has_auth_cookie, is_logged_in};
use crate::consts::BASE_URL;
use crate::details::book_address;
use crate::chapters::catalog_address;
use crate::number::{decimal, lemma_decimal_digits, signed_decimal};
use crate::util::{book_group, chapter_key_of, last_slash};
use crate::text::{
    second_piece, lemma_find_absent_char, lemma_find_at_char,
    all_digits, is_digit, is_ws, lemma_find_absent, lemma_find_at, lemma_matches_at_index,
    lemma_trim_unchanged, matches_at,
    chars_eq, from_chars, push_all, starts_with, starts_with_exec, string_views, to_chars, trim,
    trimmed,
};
use crate::util::{
    chapter_keys_of, extract_chapter_keys, extract_manga_key, manga_key_of,
};

verus! {

// ---------------------------------------------------------------------------
// Searching
// ---------------------------------------------------------------------------

/// What a search asks for.
pub enum SearchPlan {
    /// The book with this key.
    Book(String),
    /// A relay search of this kind (`"author"` or `"articlename"`).
    Search { search_type: String, query: String },
    /// The books with this tag.
    Tag(String),
    /// The list of all books.
    ListAll,
}

pub enum SearchPlanView {
    Book(Seq<char>),
    Search { search_type: Seq<char>, query: Seq<char> },
    Tag(Seq<char>),
    ListAll,
}

impl View for SearchPlan {
    type V = SearchPlanView;

    open spec fn view(&self) -> SearchPlanView {
        match self {
            SearchPlan::Book(k) => SearchPlanView::Book(k@),
            SearchPlan::Search { search_type, query } => SearchPlanView::Search {
                search_type: search_type@,
                query: query@,
            },
            SearchPlan::Tag(t) => SearchPlanView::Tag(t@),
            SearchPlan::ListAll => SearchPlanView::ListAll,
        }
    }
}

/// A query that names a book leads to it; else an author filter searches
/// by author; else a tag filter lists the tag; else a blank query lists all
/// books; else the query is searched by title, or by author when the filters
/// ask so.
pub open spec fn search_plan(query: Option<Seq<char>>, filters: Seq<FilterInput>) -> SearchPlanView {
    let key = match query {
        Some(q) => manga_key_of(q),
        None => None,
    };
    let st = filters_fold(filters);
    match key {
        Some(k) => SearchPlanView::Book(k),
        None => match st.0 {
            Some(author) => SearchPlanView::Search { search_type: "author"@, query: author },
            None => match st.1 {
                Some(tag) => SearchPlanView::Tag(tag),
                None => {
                    let q = match query {
                        Some(q) => q,
                        None => Seq::empty(),
                    };
                    if trim(q).len() == 0 {
                        SearchPlanView::ListAll
                    } else {
                        SearchPlanView::Search {
                            search_type: if st.2 {
                                "author"@
                            } else {
                                "articlename"@
                            },
                            query: q,
                        }
                    }
                },
            },
        },
    }
}

/// A query that names a book leads to that book, whatever the filters; else
/// an author filter searches by that author, before any tag; else a tag
/// filter lists the tag; else a blank or missing query lists all books;
/// else the query is searched as it stands, by author when the filters ask
/// for it and by title otherwise.
pub proof fn lemma_search_plan_rules(query: Option<Seq<char>>, filters: Seq<FilterInput>)
    ensures
        (query matches Some(q) && manga_key_of(q) is Some) ==> search_plan(query, filters)
            == SearchPlanView::Book(manga_key_of(query->0)->0),
        !(query matches Some(q) && manga_key_of(q) is Some) && filters_fold(filters).0 is Some
            ==> search_plan(query, filters) == (SearchPlanView::Search {
            search_type: "author"@,
            query: filters_fold(filters).0->0,
        }),
        !(query matches Some(q) && manga_key_of(q) is Some) && filters_fold(filters).0 is None
            && filters_fold(filters).1 is Some ==> search_plan(query, filters) == SearchPlanView::Tag(
            filters_fold(filters).1->0,
        ),
        !(query matches Some(q) && manga_key_of(q) is Some) && filters_fold(filters).0 is None
            && filters_fold(filters).1 is None && (query is None || trim(query->0).len() == 0)
            ==> search_plan(query, filters) == SearchPlanView::ListAll,
        (query matches Some(q) && manga_key_of(q) is None && trim(q).len() > 0) && filters_fold(
            filters,
        ).0 is None && filters_fold(filters).1 is None ==> search_plan(query, filters)
            == (SearchPlanView::Search {
            search_type: if filters_fold(filters).2 {
                "author"@
            } else {
                "articlename"@
            },
            query: query->0,
        }),
{
    reveal_strlit("");
    assert(trim(Seq::<char>::empty()) =~= Seq::<char>::empty());
}

/// Decides what a search asks for.
pub fn plan_search(query: Option<&str>, filters: Vec<FilterInput>) -> (r: SearchPlan)
    ensures
        r@ == search_plan(
            match query {
                Some(q) => Some(q@),
                None => None,
            },
            filters@,
        ),
{
    if let Some(q) = query {
        if let Some(key) = extract_manga_key(q) {
            return SearchPlan::Book(key);
        }
    }
    let (author, tag, search_type) = parse_search_filters(filters);
    if let Some(a) = author {
        return SearchPlan::Search { search_type: from_chars(to_chars("author").as_slice()), query: a };
    }
    if let Some(t) = tag {
        return SearchPlan::Tag(t);
    }
    let q: Vec<char> = match query {
        Some(q) => to_chars(q),
        None => Vec::new(),
    };
    if trimmed(q.as_slice()).len() == 0 {
        return SearchPlan::ListAll;
    }
    SearchPlan::Search {
        search_type: from_chars(to_chars(search_type).as_slice()),
        query: from_chars(q.as_slice()),
    }
}

// ---------------------------------------------------------------------------
// Chapter pages
// ---------------------------------------------------------------------------

/// The chapter's own address, else the one built from the keys.
pub fn chapter_page_url(url: Option<&str>, manga_key: &str, chapter_key: &str) -> (out: String)
    ensures
        out@ == match url {
            Some(u) => u@,
            None => chapter_address(manga_key@, chapter_key@),
        },
{
    match url {
        Some(u) => from_chars(to_chars(u).as_slice()),
        None => chapter_url(manga_key, chapter_key),
    }
}

/// A page of a chapter: text in Markdown, or the address of an image.
pub enum PageItem {
    Text(String),
    Image(String),
}

pub enum PageItemView {
    Text(Seq<char>),
    Image(Seq<char>),
}

impl View for PageItem {
    type V = PageItemView;

    open spec fn view(&self) -> PageItemView {
        match self {
            PageItem::Text(t) => PageItemView::Text(t@),
            PageItem::Image(u) => PageItemView::Image(u@),
        }
    }
}

pub open spec fn page_views(v: Seq<PageItem>) -> Seq<PageItemView> {
    v.map_values(|p: PageItem| p@)
}

/// What a chapter page gives: the text of its content block as it stands
/// and the `src` and `abs:src` attributes of its images.
pub struct ChapterContent {
    pub text: Option<String>,
    pub images: Vec<(Option<String>, Option<String>)>,
}

/// The Markdown of a chapter: its text, headed by its title unless the
/// title is empty or the text already starts with it.
pub open spec fn chapter_markdown(title: Seq<char>, text: Seq<char>) -> Seq<char> {
    if title.len() == 0 || starts_with(text, title) {
        text
    } else {
        "# "@ + title + "\n\n"@ + text
    }
}

/// The pages of a chapter: its text when there is any, then its images; an
/// error when the page has no content block or the chapter has neither.
pub open spec fn chapter_pages(
    content: Option<ChapterContent>,
    page_title: Option<Seq<char>>,
    chapter_title: Option<Seq<char>>,
    base: Seq<char>,
) -> Result<Seq<PageItemView>, SourceError> {
    match content {
        None => Err(SourceError::ChapterContentMissing),
        Some(c) => {
            let title = match page_title {
                Some(t) => t,
                None => match chapter_title {
                    Some(t) => t,
                    None => Seq::empty(),
                },
            };
            let text = chapter_text(
                match c.text {
                    Some(t) => t@,
                    None => Seq::empty(),
                },
            );
            let head = if text.len() > 0 {
                seq![PageItemView::Text(chapter_markdown(title, text))]
            } else {
                seq![]
            };
            let pages = head + image_list(c.images@, base).map_values(
                |u: Seq<char>| PageItemView::Image(u),
            );
            if pages.len() == 0 {
                Err(SourceError::ChapterEmpty)
            } else {
                Ok(pages)
            }
        },
    }
}

/// The pages of a chapter: an error when the page has no content block;
/// else one text page when the cleaned text is not empty, which is that
/// text, headed by `# <title>` and a blank line unless the title is empty or
/// the text already starts with it, the title being the page's, else the
/// chapter's; then one image page for each usable image, in order; and an
/// error exactly when there is neither.
pub proof fn lemma_chapter_pages_shape(
    content: Option<ChapterContent>,
    page_title: Option<Seq<char>>,
    chapter_title: Option<Seq<char>>,
    base: Seq<char>,
)
    ensures
        content is None ==> chapter_pages(content, page_title, chapter_title, base) == Err::<
            Seq<PageItemView>,
            SourceError,
        >(SourceError::ChapterContentMissing),
        forall|c: ChapterContent|
            content == Some(c) ==> {
                let text = chapter_text(
                    match c.text {
                        Some(t) => t@,
                        None => Seq::empty(),
                    },
                );
                let title = match page_title {
                    Some(t) => t,
                    None => match chapter_title {
                        Some(t) => t,
                        None => Seq::empty(),
                    },
                };
                let imgs = image_list(c.images@, base);
                &&& (#[trigger] chapter_pages(Some(c), page_title, chapter_title, base) is Err
                    <==> text.len() == 0 && imgs.len() == 0)
                &&& chapter_pages(Some(c), page_title, chapter_title, base) is Err ==> chapter_pages(
                    Some(c),
                    page_title,
                    chapter_title,
                    base,
                ) == Err::<Seq<PageItemView>, SourceError>(SourceError::ChapterEmpty)
                &&& chapter_pages(Some(c), page_title, chapter_title, base) matches Ok(ps) ==> {
                    &&& ps.len() == imgs.len() + if text.len() > 0 {
                        1int
                    } else {
                        0int
                    }
                    &&& forall|i: int|
                        0 <= i < imgs.len() ==> ps[ps.len() - imgs.len() + i] == PageItemView::Image(
                            #[trigger] imgs[i],
                        )
                    &&& text.len() > 0 ==> ps[0] == PageItemView::Text(
                        if title.len() == 0 || starts_with(text, title) {
                            text
                        } else {
                            "# "@ + title + "\n\n"@ + text
                        },
                    )
                }
            },
{
    assert forall|c: ChapterContent| content == Some(c) implies {
        let text = chapter_text(
            match c.text {
                Some(t) => t@,
                None => Seq::empty(),
            },
        );
        let title = match page_title {
            Some(t) => t,
            None => match chapter_title {
                Some(t) => t,
                None => Seq::empty(),
            },
        };
        let imgs = image_list(c.images@, base);
        &&& (#[trigger] chapter_pages(Some(c), page_title, chapter_title, base) is Err <==> text.len()
            == 0 && imgs.len() == 0)
        &&& chapter_pages(Some(c), page_title, chapter_title, base) is Err ==> chapter_pages(
            Some(c),
            page_title,
            chapter_title,
            base,
        ) == Err::<Seq<PageItemView>, SourceError>(SourceError::ChapterEmpty)
        &&& chapter_pages(Some(c), page_title, chapter_title, base) matches Ok(ps) ==> {
            &&& ps.len() == imgs.len() + if text.len() > 0 {
                1int
            } else {
                0int
            }
            &&& forall|i: int|
                0 <= i < imgs.len() ==> ps[ps.len() - imgs.len() + i] == PageItemView::Image(
                    #[trigger] imgs[i],
                )
            &&& text.len() > 0 ==> ps[0] == PageItemView::Text(
                if title.len() == 0 || starts_with(text, title) {
                    text
                } else {
                    "# "@ + title + "\n\n"@ + text
                },
            )
        }
    } by {
        let text = chapter_text(
            match c.text {
                Some(t) => t@,
                None => Seq::empty(),
            },
        );
        let imgs = image_list(c.images@, base);
        let head: Seq<PageItemView> = if text.len() > 0 {
            seq![PageItemView::Text(chapter_markdown(
                match page_title {
                    Some(t) => t,
                    None => match chapter_title {
                        Some(t) => t,
                        None => Seq::empty(),
                    },
                },
                text,
            ))]
        } else {
            seq![]
        };
        let tail = imgs.map_values(|u: Seq<char>| PageItemView::Image(u));
        let pages = head + tail;
        assert forall|i: int| 0 <= i < imgs.len() implies pages[pages.len() - imgs.len() + i]
            == PageItemView::Image(#[trigger] imgs[i]) by {
            assert(pages[pages.len() - imgs.len() + i] == tail[i]);
        }
        if text.len() > 0 {
            assert(pages[0] == head[0]);
        }
    }
}

/// Makes the pages of a chapter.
pub fn build_chapter_pages(
    content: Option<ChapterContent>,
    page_title: Option<String>,
    chapter_title: Option<String>,
    base_url: &str,
) -> (r: Result<Vec<PageItem>, SourceError>)
    ensures
        match chapter_pages(content, opt_str(page_title), opt_str(chapter_title), base_url@) {
            Ok(ps) => r matches Ok(v) && page_views(v@) == ps,
            Err(e) => r == Err::<Vec<PageItem>, SourceError>(e),
        },
{
    let c = match content {
        Some(c) => c,
        None => return Err(SourceError::ChapterContentMissing),
    };
    let title: String = match page_title {
        Some(t) => t,
        None => match chapter_title {
            Some(t) => t,
            None => String::new(),
        },
    };
    let raw: String = match &c.text {
        Some(t) => from_chars(to_chars(t.as_str()).as_slice()),
        None => String::new(),
    };
    let text = clean_chapter_text(raw);
    let images = image_urls(&c.images, base_url);
    let mut pages: Vec<PageItem> = Vec::new();
    let tv = to_chars(text.as_str());
    let ttl = to_chars(title.as_str());
    if tv.len() > 0 {
        let markdown: String = if ttl.len() == 0 || starts_with_exec(tv.as_slice(), ttl.as_slice()) {
            text
        } else {
            let mut o = to_chars("# ");
            push_all(&mut o, ttl.as_slice());
            push_all(&mut o, to_chars("\n\n").as_slice());
            push_all(&mut o, tv.as_slice());
            from_chars(o.as_slice())
        };
        pages.push(PageItem::Text(markdown));
    }
    let ghost head = page_views(pages@);
    let ghost imgs = string_views(images@);
    let mut i: usize = 0;
    while i < images.len()
        invariant
            i <= images@.len(),
            imgs == string_views(images@),
            page_views(pages@) == head + imgs.take(i as int).map_values(
                |u: Seq<char>| PageItemView::Image(u),
            ),
        decreases images.len() - i,
    {
        let u = from_chars(to_chars(images[i].as_str()).as_slice());
        let ghost before = pages@;
        pages.push(PageItem::Image(u));
        assert(page_views(pages@) =~= page_views(before).push(PageItemView::Image(imgs[i as int])));
        assert(imgs.take(i + 1).map_values(|u: Seq<char>| PageItemView::Image(u)) =~= imgs.take(
            i as int,
        ).map_values(|u: Seq<char>| PageItemView::Image(u)).push(PageItemView::Image(imgs[i as int])));
        i += 1;
    }
    assert(imgs.take(images@.len() as int) =~= imgs);
    if pages.len() == 0 {
        return Err(SourceError::ChapterEmpty);
    }
    Ok(pages)
}

// ---------------------------------------------------------------------------
// Links and login
// ---------------------------------------------------------------------------

/// Where a link leads.
pub enum DeepLink {
    Manga { key: String },
    Chapter { manga_key: String, key: String },
}

pub enum DeepLinkView {
    Manga { key: Seq<char> },
    Chapter { manga_key: Seq<char>, key: Seq<char> },
}

impl View for DeepLink {
    type V = DeepLinkView;

    open spec fn view(&self) -> DeepLinkView {
        match self {
            DeepLink::Manga { key } => DeepLinkView::Manga { key: key@ },
            DeepLink::Chapter { manga_key, key } => DeepLinkView::Chapter {
                manga_key: manga_key@,
                key: key@,
            },
        }
    }
}

/// A link to a book leads to it; else a chapter link leads to the chapter.
pub open spec fn deep_link_of(url: Seq<char>) -> Option<DeepLinkView> {
    match manga_key_of(url) {
        Some(k) => Some(DeepLinkView::Manga { key: k }),
        None => match chapter_keys_of(url) {
            Some((m, c)) => Some(DeepLinkView::Chapter { manga_key: m, key: c }),
            None => None,
        },
    }
}

/// Tells where a link leads.
pub fn handle_deep_link(url: &str) -> (r: Option<DeepLink>)
    ensures
        match r {
            Some(d) => deep_link_of(url@) == Some(d@),
            None => deep_link_of(url@) is None,
        },
{
    if let Some(key) = extract_manga_key(url) {
        return Some(DeepLink::Manga { key });
    }
    if let Some((manga_key, key)) = extract_chapter_keys(url) {
        return Some(DeepLink::Chapter { manga_key, key });
    }
    None
}

/// Checks a web login.
pub fn handle_web_login(key: &str, cookies: &Vec<(String, String)>) -> (r: Result<bool, SourceError>)
    ensures
        key@ != "login"@ ==> (r matches Err(SourceError::InvalidLoginKey(k)) && k@ == key@),
        key@ == "login"@ ==> r == Ok::<bool, SourceError>(is_logged_in(cookies@)),
{
    let k = to_chars(key);
    if !chars_eq(k.as_slice(), to_chars("login").as_slice()) {
        return Err(SourceError::InvalidLoginKey(from_chars(k.as_slice())));
    }
    Ok(has_auth_cookie(cookies))
}


// ---------------------------------------------------------------------------
// Addresses read back
// ---------------------------------------------------------------------------

/// The characters of the site's address.
proof fn lemma_base_chars()
    ensures
        BASE_URL@.len() == 22,
        BASE_URL@[0] == 'h',
        forall|j: int|
            0 <= j < 22 ==> #[trigger] BASE_URL@[j] != 'a' && BASE_URL@[j] != 'b' && BASE_URL@[j]
                != 'c' && BASE_URL@[j] != 'o',
        forall|j: int| 0 <= j < 21 && #[trigger] BASE_URL@[j] == '/' ==> BASE_URL@[j + 1] != 'b',
{
    reveal_strlit("https://www.wenku8.net");
}

/// The directory group written in an address: digits, after a minus sign
/// when negative.
proof fn lemma_group_chars(k: Seq<char>)
    ensures
        forall|i: int|
            0 <= i < signed_decimal(book_group(k)).len() ==> is_digit(
                #[trigger] signed_decimal(book_group(k))[i],
            ) || signed_decimal(book_group(k))[i] == '-',
{
    let n = book_group(k);
    if n < 0 {
        lemma_decimal_digits((-n) as nat);
        let d = decimal((-n) as nat);
        let g = seq!['-'] + d;
        assert forall|i: int| 0 <= i < g.len() implies is_digit(#[trigger] g[i]) || g[i] == '-' by {
            if i > 0 {
                assert(g[i] == d[i - 1]);
            }
        }
    } else {
        lemma_decimal_digits(n as nat);
    }
}

/// The last `/` of `x + "/" + y` is the one written, when `y` holds none.
proof fn lemma_last_slash_tail(x: Seq<char>, y: Seq<char>)
    requires
        forall|i: int| 0 <= i < y.len() ==> y[i] != '/',
    ensures
        last_slash(x + seq!['/'] + y) == Some(x.len() as int),
    decreases y.len(),
{
    let s = x + seq!['/'] + y;
    if y.len() > 0 {
        assert(s.last() == y.last());
        assert(s.drop_last() =~= x + seq!['/'] + y.drop_last());
        lemma_last_slash_tail(x, y.drop_last());
    } else {
        assert(s.last() == '/');
    }
}

/// A book's address gives its key back.
pub proof fn lemma_book_address_key(k: Seq<char>)
    requires
        all_digits(k),
    ensures
        manga_key_of(book_address(k)) == Some(k),
{
    reveal_strlit("/book/");
    reveal_strlit(".htm");
    lemma_base_chars();
    let b = BASE_URL@;
    let s = book_address(k);
    let p = "/book/"@;
    assert(s == b + p + k + ".htm"@);
    lemma_trim_unchanged(s);
    assert(!is_digit(s[0]));
    assert forall|j: int| 0 <= j < 22 implies !matches_at(s, p, j) by {
        if matches_at(s, p, j) {
            lemma_matches_at_index(s, p, j, 0);
            lemma_matches_at_index(s, p, j, 1);
            assert(s[j] == b[j]);
            if j < 21 {
                assert(s[j + 1] == b[j + 1]);
            }
        }
    }
    assert(s.subrange(22, 28) =~= p);
    lemma_find_at(s, p, 22);
    let rest = k + ".htm"@;
    assert(s.skip(28) =~= rest);
    assert forall|j: int| 0 <= j <= rest.len() implies !matches_at(rest, p, j) by {
        if matches_at(rest, p, j) {
            lemma_matches_at_index(rest, p, j, 0);
            if j < k.len() {
                assert(rest[j] == k[j]);
                assert(is_digit(k[j]));
            }
        }
    }
    lemma_find_absent(rest, p);
    let h = ".htm"@;
    assert forall|j: int| 0 <= j < k.len() implies !matches_at(rest, h, j) by {
        if matches_at(rest, h, j) {
            lemma_matches_at_index(rest, h, j, 0);
            assert(rest[j] == k[j]);
            assert(is_digit(k[j]));
        }
    }
    assert(rest.subrange(k.len() as int, k.len() + 4int) =~= h);
    lemma_find_at(rest, h, k.len() as int);
    assert(rest.take(k.len() as int) =~= k);
}


/// What a `<site>/novel/<group>/<book>/<tail>` address reads as.
proof fn lemma_novel_path(g: Seq<char>, m: Seq<char>, tail: Seq<char>)
    requires
        forall|i: int| 0 <= i < g.len() ==> is_digit(#[trigger] g[i]) || g[i] == '-',
        all_digits(m),
        tail.len() > 0,
        !is_ws(tail.last()),
        forall|i: int|
            0 <= i < tail.len() ==> #[trigger] tail[i] != 'a' && tail[i] != 'b' && tail[i] != 'c'
                && tail[i] != 'o',
    ensures
        manga_key_of(BASE_URL@ + "/novel/"@ + g + "/"@ + m + "/"@ + tail) == Some(m),
        second_piece(BASE_URL@ + "/novel/"@ + g + "/"@ + m + "/"@ + tail, "/novel/"@) == Some(
            g + "/"@ + m + "/"@ + tail,
        ),
        second_piece(BASE_URL@ + "/novel/"@ + g + "/"@ + m + "/"@ + tail, "cid="@) is None,
{
    reveal_strlit("/novel/");
    reveal_strlit("/");
    reveal_strlit("/book/");
    reveal_strlit("bid=");
    reveal_strlit("aid=");
    reveal_strlit("cid=");
    lemma_base_chars();
    let b = BASE_URL@;
    let nv = "/novel/"@;
    let sl = "/"@;
    let s = b + nv + g + sl + m + sl + tail;
    let rest = g + sl + m + sl + tail;
    assert(s =~= b + nv + rest);
    assert(s.last() == tail.last());
    lemma_trim_unchanged(s);
    assert(!is_digit(s[0]));
    assert forall|i: int| 0 <= i < s.len() implies s[i] != 'a' && s[i] != 'b' && s[i] != 'c' by {
        if i < 22 {
            assert(s[i] == b[i]);
        } else if i < 29 {
            assert(s[i] == nv[i - 22]);
        } else {
            assert(s[i] == rest[i - 29]);
            let r = i - 29;
            if r < g.len() {
                assert(rest[r] == g[r]);
            } else if r == g.len() {
            } else if r < g.len() + 1 + m.len() {
                assert(rest[r] == m[r - g.len() - 1]);
            } else if r == g.len() + 1 + m.len() {
            } else {
                assert(rest[r] == tail[r - g.len() - 2 - m.len()]);
            }
        }
    }
    lemma_find_absent_char(s, "/book/"@, 1);
    lemma_find_absent_char(s, "bid="@, 0);
    lemma_find_absent_char(s, "aid="@, 0);
    lemma_find_absent_char(s, "cid="@, 0);
    assert(s.subrange(22, 29) =~= nv);
    assert forall|i: int| 2 <= i < 24 implies s[i] != nv[2] by {
        if i < 22 {
            assert(s[i] == b[i]);
        } else {
            assert(s[i] == nv[i - 22]);
        }
    }
    lemma_find_at_char(s, nv, 22, 2);
    assert(s.skip(29) =~= rest);
    assert forall|i: int| 0 <= i < rest.len() implies rest[i] != nv[2] by {
        let r = i;
        if r < g.len() {
            assert(rest[r] == g[r]);
        } else if r == g.len() {
        } else if r < g.len() + 1 + m.len() {
            assert(rest[r] == m[r - g.len() - 1]);
        } else if r == g.len() + 1 + m.len() {
        } else {
            assert(rest[r] == tail[r - g.len() - 2 - m.len()]);
        }
    }
    lemma_find_absent_char(rest, nv, 2);
    assert(rest.subrange(g.len() as int, g.len() + 1int) =~= sl);
    assert forall|i: int| 0 <= i < g.len() implies rest[i] != sl[0] by {
        assert(rest[i] == g[i]);
    }
    lemma_find_at_char(rest, sl, g.len() as int, 0);
    let r1 = m + sl + tail;
    assert(rest.skip(g.len() + 1int) =~= r1);
    assert(r1.subrange(m.len() as int, m.len() + 1int) =~= sl);
    assert forall|i: int| 0 <= i < m.len() implies r1[i] != sl[0] by {
        assert(r1[i] == m[i]);
    }
    lemma_find_at_char(r1, sl, m.len() as int, 0);
    assert(r1.take(m.len() as int) =~= m);
}

/// A catalog's address gives the book's key back.
pub proof fn lemma_catalog_address_key(k: Seq<char>)
    requires
        all_digits(k),
    ensures
        manga_key_of(catalog_address(k)) == Some(k),
{
    reveal_strlit("/index.htm");
    reveal_strlit("index.htm");
    reveal_strlit("/");
    lemma_group_chars(k);
    let tail = "index.htm"@;
    assert("/index.htm"@ =~= "/"@ + tail);
    lemma_novel_path(signed_decimal(book_group(k)), k, tail);
    assert(catalog_address(k) =~= BASE_URL@ + "/novel/"@ + signed_decimal(book_group(k)) + "/"@ + k
        + "/"@ + tail);
}


/// A chapter's address, with numbers for keys, reads back as it was built.
proof fn lemma_chapter_path(m: Seq<char>, c: Seq<char>)
    requires
        all_digits(m),
        all_digits(c),
    ensures
        chapter_address(m, c) == BASE_URL@ + "/novel/"@ + signed_decimal(book_group(m)) + "/"@ + m
            + "/"@ + (c + ".htm"@),
        manga_key_of(chapter_address(m, c)) == Some(m),
        second_piece(chapter_address(m, c), "/novel/"@) == Some(
            signed_decimal(book_group(m)) + "/"@ + m + "/"@ + (c + ".htm"@),
        ),
        second_piece(chapter_address(m, c), "cid="@) is None,
{
    reveal_strlit(".htm");
    lemma_group_chars(m);
    let tail = c + ".htm"@;
    assert forall|i: int| 0 <= i < tail.len() implies #[trigger] tail[i] != 'a' && tail[i] != 'b'
        && tail[i] != 'c' && tail[i] != 'o' by {
        if i < c.len() {
            assert(tail[i] == c[i]);
            assert(is_digit(c[i]));
        }
    }
    assert(tail.last() == 'm');
    lemma_novel_path(signed_decimal(book_group(m)), m, tail);
    assert(chapter_address(m, c) =~= BASE_URL@ + "/novel/"@ + signed_decimal(book_group(m)) + "/"@
        + m + "/"@ + tail);
}

/// A chapter's address leads to its book: the book key is found in it.
pub proof fn lemma_chapter_address_book_key(m: Seq<char>, c: Seq<char>)
    requires
        all_digits(m),
        all_digits(c),
    ensures
        manga_key_of(chapter_address(m, c)) == Some(m),
{
    lemma_chapter_path(m, c);
}

/// A chapter's address gives both keys back.
pub proof fn lemma_chapter_address_keys(m: Seq<char>, c: Seq<char>)
    requires
        all_digits(m),
        all_digits(c),
        m.len() > 0,
        c.len() > 0,
    ensures
        chapter_keys_of(chapter_address(m, c)) == Some((m, c)),
{
    reveal_strlit("/");
    reveal_strlit(".htm");
    lemma_chapter_path(m, c);
    let g = signed_decimal(book_group(m));
    let sl = "/"@;
    let h = ".htm"@;
    let tail = c + h;
    let rest = g + sl + m + sl + tail;
    lemma_group_chars(m);
    assert(rest.subrange(g.len() as int, g.len() + 1int) =~= sl);
    assert forall|i: int| 0 <= i < g.len() implies rest[i] != sl[0] by {
        assert(rest[i] == g[i]);
    }
    lemma_find_at_char(rest, sl, g.len() as int, 0);
    let r1 = m + sl + tail;
    assert(rest.skip(g.len() + 1int) =~= r1);
    assert(r1.subrange(m.len() as int, m.len() + 1int) =~= sl);
    assert forall|i: int| 0 <= i < m.len() implies r1[i] != sl[0] by {
        assert(r1[i] == m[i]);
        assert(is_digit(m[i]));
    }
    lemma_find_at_char(r1, sl, m.len() as int, 0);
    assert(r1.skip(m.len() + 1int) =~= tail);
    assert(r1.take(m.len() as int) =~= m);
    assert forall|i: int| 0 <= i < tail.len() implies tail[i] != sl[0] by {
        if i < c.len() {
            assert(tail[i] == c[i]);
            assert(is_digit(c[i]));
        }
    }
    lemma_find_absent_char(tail, sl, 0);
    assert(tail.subrange(c.len() as int, c.len() + 4int) =~= h);
    assert forall|i: int| 0 <= i < c.len() implies tail[i] != h[0] by {
        assert(tail[i] == c[i]);
        assert(is_digit(c[i]));
    }
    lemma_find_at_char(tail, h, c.len() as int, 0);
    assert(tail.take(c.len() as int) =~= c);
}

/// A chapter's address gives the chapter key back, as a catalog link does.
pub proof fn lemma_chapter_address_chapter_key(m: Seq<char>, c: Seq<char>)
    requires
        all_digits(m),
        all_digits(c),
    ensures
        chapter_key_of(chapter_address(m, c)) == c,
{
    reveal_strlit("/");
    reveal_strlit(".htm");
    lemma_chapter_path(m, c);
    let h = ".htm"@;
    let tail = c + h;
    let x = BASE_URL@ + "/novel/"@ + signed_decimal(book_group(m)) + "/"@ + m;
    let s = chapter_address(m, c);
    assert(s =~= x + seq!['/'] + tail);
    assert forall|i: int| 0 <= i < tail.len() implies tail[i] != '/' by {
        if i < c.len() {
            assert(tail[i] == c[i]);
            assert(is_digit(c[i]));
        }
    }
    lemma_last_slash_tail(x, tail);
    assert(s.skip(x.len() + 1int) =~= tail);
    assert(tail.subrange(c.len() as int, c.len() + 4int) =~= h);
    assert forall|i: int| 0 <= i < c.len() implies tail[i] != h[0] by {
        assert(tail[i] == c[i]);
        assert(is_digit(c[i]));
    }
    lemma_find_at_char(tail, h, c.len() as int, 0);
    assert(tail.take(c.len() as int) =~= c);
}


/// A link to a book, or to one of its chapters, leads to the book.
pub proof fn lemma_deep_link_to_book(k: Seq<char>, c: Seq<char>)
    requires
        all_digits(k),
        all_digits(c),
    ensures
        deep_link_of(book_address(k)) == Some(DeepLinkView::Manga { key: k }),
        deep_link_of(chapter_address(k, c)) == Some(DeepLinkView::Manga { key: k }),
{
    lemma_book_address_key(k);
    lemma_chapter_path(k, c);
}

} // verus!
