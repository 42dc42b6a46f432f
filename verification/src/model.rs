//! The values that the source hands to the reader app, and their models.
use vstd::prelude::*;
use crate::text::string_views;

verus! {

/// Publication state of a book.
#[derive(Clone, Copy, Debug, PartialEq, Eq, Structural)]
pub enum MangaStatus {
    Unknown,
    Ongoing,
    Completed,
}

/// How suitable a book is for readers of any age.
#[derive(Clone, Copy, Debug, PartialEq, Eq, Structural)]
pub enum ContentRating {
    Unknown,
    Safe,
    Suggestive,
    Nsfw,
}

/// How the reader lays out a book's pages.
#[derive(Clone, Copy, Debug, PartialEq, Eq, Structural)]
pub enum Viewer {
    Unknown,
    RightToLeft,
    LeftToRight,
    Vertical,
    Webtoon,
}

/// A book as the source describes it.
#[derive(Clone, Debug)]
pub struct Manga {
    pub key: String,
    pub title: String,
    pub cover: Option<String>,
    pub url: Option<String>,
    pub authors: Option<Vec<String>>,
    pub artists: Option<Vec<String>>,
    pub description: Option<String>,
    pub tags: Option<Vec<String>>,
    pub status: MangaStatus,
    pub content_rating: ContentRating,
    pub viewer: Viewer,
}

/// The model of `Manga`: every text by its characters.
pub struct MangaView {
    pub key: Seq<char>,
    pub title: Seq<char>,
    pub cover: Option<Seq<char>>,
    pub url: Option<Seq<char>>,
    pub authors: Option<Seq<Seq<char>>>,
    pub artists: Option<Seq<Seq<char>>>,
    pub description: Option<Seq<char>>,
    pub tags: Option<Seq<Seq<char>>>,
    pub status: MangaStatus,
    pub content_rating: ContentRating,
    pub viewer: Viewer,
}

pub open spec fn opt_str(o: Option<String>) -> Option<Seq<char>> {
    match o {
        Some(s) => Some(s@),
        None => None,
    }
}

pub open spec fn opt_strs(o: Option<Vec<String>>) -> Option<Seq<Seq<char>>> {
    match o {
        Some(v) => Some(string_views(v@)),
        None => None,
    }
}

impl View for Manga {
    type V = MangaView;

    open spec fn view(&self) -> MangaView {
        MangaView {
            key: self.key@,
            title: self.title@,
            cover: opt_str(self.cover),
            url: opt_str(self.url),
            authors: opt_strs(self.authors),
            artists: opt_strs(self.artists),
            description: opt_str(self.description),
            tags: opt_strs(self.tags),
            status: self.status,
            content_rating: self.content_rating,
            viewer: self.viewer,
        }
    }
}

pub open spec fn manga_views(v: Seq<Manga>) -> Seq<MangaView> {
    v.map_values(|m: Manga| m@)
}

/// One page of a list of books.
pub struct MangaPageResult {
    pub entries: Vec<Manga>,
    pub has_next_page: bool,
}

/// A list of books that the site offers.
#[derive(Clone, Debug)]
pub struct Listing {
    pub id: String,
    pub name: String,
}

/// What the source reports when a request cannot be served.
#[derive(Clone, Debug, PartialEq, Eq)]
pub enum SourceError {
    /// The chapter page has no content block.
    ChapterContentMissing,
    /// The chapter has neither text nor images.
    ChapterEmpty,
    /// The catalog page has no table cells.
    CatalogMissing,
    /// The catalog lists no chapter.
    CatalogEmpty,
    /// The book key is not a number.
    InvalidBookId(String),
    /// The book page has no content block.
    DetailsMissing,
    /// The home page has no section with books.
    HomeEmpty,
    /// The listing id is not one that the site has.
    UnknownListing(String),
    /// The tag page has no tag.
    TagsEmpty,
    /// The tag page is behind a challenge or a login.
    TagsUnreadable,
    /// The search relay answered with a status outside 200–299.
    RelayHttp(i32),
    /// The search relay reported a network failure of its own.
    RelayNetwork,
    /// The search relay has no record of the book.
    RelayNoBook(String),
    /// The login key is not the one the source offers.
    InvalidLoginKey(String),
    /// The site answered with a Cloudflare challenge.
    CloudflareChallenge,
    /// The site asks for a login.
    LoginRequired,
}

} // verus!
