//! The details page of a book.
use vstd::prelude::*;
use crate::consts::BASE_URL;
use crate::model::{ContentRating, Manga, MangaStatus, Viewer, MangaView, SourceError, opt_str};
use crate::text::{
    contains, contains_exec, ends_with, ends_with_exec, find, find_exec, from_chars, string_views, to_chars, words, lemma_find_from_some, suffix,
};
use crate::util::{
    clean_description, clean_description_spec, decode_entities, decode_entities_exec,
    normalize_image, normalized_img, split_tags, status_of, parse_status, str_views,
    value_after, value_after_labels,
};

verus! {

// ---------------------------------------------------------------------------
// Markup to text
// ---------------------------------------------------------------------------

/// The text starts with a `<br` tag: `<`, `b` or `B`, `r` or `R`, then `>`,
/// `/` or whitespace.
pub open spec fn is_br(s: Seq<char>) -> bool {
    &&& s.len() >= 4
    &&& s[0] == '<'
    &&& (s[1] == 'b' || s[1] == 'B')
    &&& (s[2] == 'r' || s[2] == 'R')
    &&& (s[3] == '>' || s[3] == '/' || s[3] == ' ' || s[3] == '\t' || s[3] == '\r' || s[3]
        == '\n')
}

/// Whether a text starts with a line-break tag.
pub fn is_br_tag(raw: &str) -> (b: bool)
    ensures
        b == is_br(raw@),
{
    let v = to_chars(raw);
    is_br_chars(v.as_slice(), 0)
}

fn is_br_chars(v: &[char], i: usize) -> (b: bool)
    requires
        i <= v@.len(),
    ensures
        b == is_br(v@.skip(i as int)),
{
    let n = v.len();
    let ghost s = v@.skip(i as int);
    if n - i < 4 {
        return false;
    }
    assert(s[0] == v@[i as int] && s[1] == v@[i + 1] && s[2] == v@[i + 2] && s[3] == v@[i + 3]);
    let c3 = v[i + 3];
    v[i] == '<' && (v[i + 1] == 'b' || v[i + 1] == 'B') && (v[i + 2] == 'r' || v[i + 2] == 'R') && (
    c3 == '>' || c3 == '/' || c3 == ' ' || c3 == '\t' || c3 == '\r' || c3 == '\n')
}

/// Reading markup: text is copied, a tag is dropped up to its `>` (or the
/// rest of the markup when none follows), and a `<br` tag becomes a line
/// feed unless the text already ends in one.
pub open spec fn markup_text(s: Seq<char>, acc: Seq<char>) -> Seq<char>
    decreases s.len(),
{
    if s.len() == 0 {
        acc
    } else if s[0] == '<' {
        let acc2 = if is_br(s) && !ends_with(acc, "\n"@) {
            acc.push('\n')
        } else {
            acc
        };
        match find(s, ">"@) {
            Some(k) => if 0 <= k && k + 1 <= s.len() {
                markup_text(s.skip(k + 1), acc2)
            } else {
                acc2
            },
            None => acc2,
        }
    } else {
        markup_text(s.drop_first(), acc.push(s[0]))
    }
}

/// The text of a markup fragment with its entities decoded.
pub open spec fn html_text(html: Seq<char>) -> Seq<char> {
    decode_entities(markup_text(html, seq![]))
}

/// The text of a markup fragment, line breaks kept. Markup and the tags
/// sought are ASCII, so reading characters gives what reading bytes gives.
pub fn text_from_html(html: &str) -> (out: String)
    ensures
        out@ == html_text(html@),
{
    let v = to_chars(html);
    let n = v.len();
    let gt = to_chars(">");
    let nl = to_chars("\n");
    proof {
        reveal_strlit(">");
        reveal_strlit("\n");
    }
    let mut result: Vec<char> = Vec::new();
    let mut index: usize = 0;
    assert(v@.skip(0) =~= v@);
    while index < n
        invariant
            n == v@.len(),
            index <= n,
            gt@ == ">"@,
            nl@ == "\n"@,
            markup_text(v@.skip(index as int), result@) == markup_text(v@, seq![]),
        decreases n - index,
    {
        let ghost s = v@.skip(index as int);
        assert(s[0] == v@[index as int]);
        if v[index] == '<' {
            if is_br_chars(v.as_slice(), index) && !ends_with_exec(result.as_slice(), nl.as_slice()) {
                result.push('\n');
            }
            let rest = suffix(v.as_slice(), index);
            match find_exec(rest.as_slice(), gt.as_slice()) {
                Some(k) => {
                    proof {
                        reveal_strlit(">");
                        lemma_find_from_some(rest@, gt@, 0);
                        assert(s.skip(k + 1) =~= v@.skip(index + k + 1));
                    }
                    index = index + k + 1;
                },
                None => {
                    proof {
                        assert(v@.skip(n as int) =~= Seq::<char>::empty());
                    }
                    index = n;
                },
            }
        } else {
            assert(s.drop_first() =~= v@.skip(index + 1));
            result.push(v[index]);
            index += 1;
        }
    }
    assert(v@.skip(n as int) =~= Seq::<char>::empty());
    let decoded = decode_entities_exec(result.as_slice());
    from_chars(decoded.as_slice())
}

// ---------------------------------------------------------------------------
// Description and tags
// ---------------------------------------------------------------------------

/// What the page gives of a `<span>`: its inner markup, its text as it
/// stands, and its trimmed text.
pub struct SpanContent {
    pub html: Option<String>,
    pub untrimmed: Option<String>,
    pub text: Option<String>,
}

/// The plain text of a span: markup with `<br` tags is converted, otherwise
/// the untrimmed text, else the text, else nothing.
pub open spec fn span_text(span: SpanContent) -> Seq<char> {
    let plain = match span.untrimmed {
        Some(t) => t@,
        None => match span.text {
            Some(t) => t@,
            None => Seq::empty(),
        },
    };
    match span.html {
        Some(h) => if contains(h@, "<br"@) || contains(h@, "<BR"@) {
            html_text(h@)
        } else {
            plain
        },
        None => plain,
    }
}

/// The description that a span holds.
pub open spec fn span_description(span: SpanContent) -> Option<Seq<char>> {
    clean_description_spec(span_text(span))
}

/// Reads the description in a span.
pub fn description_from_span(span: &SpanContent) -> (out: Option<String>)
    ensures
        opt_str(out) == span_description(*span),
{
    let plain: String = match &span.untrimmed {
        Some(t) => t.clone(),
        None => match &span.text {
            Some(t) => t.clone(),
            None => String::new(),
        },
    };
    let text: String = match &span.html {
        Some(h) => {
            let hv = to_chars(h.as_str());
            let br = to_chars("<br");
            let br_upper = to_chars("<BR");
            if contains_exec(hv.as_slice(), br.as_slice()) || contains_exec(
                hv.as_slice(),
                br_upper.as_slice(),
            ) {
                text_from_html(h.as_str())
            } else {
                plain
            }
        },
        None => plain,
    };
    clean_description(text)
}

/// The last span, from the end, that holds a description.
pub open spec fn last_description(spans: Seq<SpanContent>) -> Option<Seq<char>>
    decreases spans.len(),
{
    if spans.len() == 0 {
        None
    } else {
        match span_description(spans.last()) {
            Some(d) => Some(d),
            None => last_description(spans.drop_last()),
        }
    }
}

/// The description of a book: the sixth span's, if it holds one, else that
/// of the last span that holds one.
pub open spec fn details_description(spans: Seq<SpanContent>) -> Option<Seq<char>> {
    if spans.len() > 5 && span_description(spans[5]) is Some {
        span_description(spans[5])
    } else {
        last_description(spans)
    }
}

/// Reads the description of a book from the spans of its detail cell.
pub fn detail_description(spans: &Vec<SpanContent>) -> (out: Option<String>)
    ensures
        opt_str(out) == details_description(spans@),
{
    if spans.len() > 5 {
        let d = description_from_span(&spans[5]);
        if d.is_some() {
            return d;
        }
    }
    let mut index: usize = spans.len();
    assert(spans@.take(index as int) =~= spans@);
    while index > 0
        invariant
            index <= spans@.len(),
            details_description(spans@) == last_description(spans@),
            last_description(spans@) == last_description(spans@.take(index as int)),
        decreases index,
    {
        let ghost t = spans@.take(index as int);
        assert(t.drop_last() =~= spans@.take(index - 1));
        assert(t.last() == spans@[index - 1]);
        let d = description_from_span(&spans[index - 1]);
        if d.is_some() {
            return d;
        }
        index -= 1;
    }
    None
}

/// The labels of the tag line.
pub open spec fn tag_labels() -> Seq<Seq<char>> {
    seq!["作品Tags："@, "作品Tags:"@]
}

pub open spec fn span_plain_text(span: SpanContent) -> Seq<char> {
    match span.text {
        Some(t) => t@,
        None => Seq::empty(),
    }
}

/// The tags of the first span with a tag line.
pub open spec fn details_tags(spans: Seq<SpanContent>) -> Option<Seq<Seq<char>>>
    decreases spans.len(),
{
    if spans.len() == 0 {
        None
    } else {
        match value_after(span_plain_text(spans[0]), tag_labels()) {
            Some(v) => Some(words(v)),
            None => details_tags(spans.drop_first()),
        }
    }
}

/// Reads the tags of a book from the spans of its detail cell.
pub fn detail_tags(spans: &Vec<SpanContent>) -> (out: Option<Vec<String>>)
    ensures
        match out {
            Some(v) => details_tags(spans@) == Some(string_views(v@)),
            None => details_tags(spans@) is None,
        },
{
    let labels: [&str; 2] = ["作品Tags：", "作品Tags:"];
    assert(str_views(labels@) =~= tag_labels());
    let mut i: usize = 0;
    assert(spans@.skip(0) =~= spans@);
    while i < spans.len()
        invariant
            i <= spans@.len(),
            str_views(labels@) == tag_labels(),
            details_tags(spans@) == details_tags(spans@.skip(i as int)),
        decreases spans.len() - i,
    {
        let ghost s = spans@.skip(i as int);
        assert(s.drop_first() =~= spans@.skip(i + 1));
        assert(s[0] == spans@[i as int]);
        let text: String = match &spans[i].text {
            Some(t) => t.clone(),
            None => String::new(),
        };
        if let Some(value) = value_after_labels(text.as_str(), labels.as_slice()) {
            return Some(split_tags(value.as_str()));
        }
        i += 1;
    }
    None
}

// ---------------------------------------------------------------------------
// The details page
// ---------------------------------------------------------------------------

/// The `src` and `abs:src` attributes of an image.
pub struct ImageAttrs {
    pub src: Option<String>,
    pub abs_src: Option<String>,
}

/// What a book page gives: whether it has a content block, the bold title,
/// the first image, the texts of the table cells, and the candidates for
/// the detail cell in order of preference: for each way of finding it,
/// `None` when it finds no cell, else the cell's spans (`None` when the cell
/// has no span list).
pub struct DetailsPage {
    pub has_content: bool,
    pub title: Option<String>,
    pub cover: Option<ImageAttrs>,
    pub cells: Option<Vec<String>>,
    pub detail_cells: Vec<Option<Option<Vec<SpanContent>>>>,
}

/// The detail cell: the first candidate that was found.
pub open spec fn first_cell(cells: Seq<Option<Option<Vec<SpanContent>>>>) -> Option<
    Option<Vec<SpanContent>>,
>
    decreases cells.len(),
{
    if cells.len() == 0 {
        None
    } else {
        match cells[0] {
            Some(c) => Some(c),
            None => first_cell(cells.drop_first()),
        }
    }
}

/// Finds the detail cell: the position of the first candidate found.
pub fn first_cell_index(cells: &Vec<Option<Option<Vec<SpanContent>>>>) -> (r: Option<usize>)
    ensures
        match r {
            Some(i) => i < cells@.len() && cells@[i as int] is Some && first_cell(cells@)
                == cells@[i as int],
            None => first_cell(cells@) is None,
        },
{
    let mut i: usize = 0;
    assert(cells@.skip(0) =~= cells@);
    while i < cells.len()
        invariant
            i <= cells@.len(),
            first_cell(cells@) == first_cell(cells@.skip(i as int)),
        decreases cells.len() - i,
    {
        let ghost rest = cells@.skip(i as int);
        assert(rest.drop_first() =~= cells@.skip(i + 1));
        assert(rest[0] == cells@[i as int]);
        if cells[i].is_some() {
            return Some(i);
        }
        i += 1;
    }
    None
}

/// The image address of an optional image.
pub open spec fn image_address(img: Option<ImageAttrs>, base: Seq<char>) -> Option<Seq<char>> {
    match img {
        Some(i) => match i.src {
            Some(s) => if crate::text::trim(s@).len() == 0 {
                None
            } else {
                Some(normalize_image(s@, opt_str(i.abs_src), base))
            },
            None => None,
        },
        None => None,
    }
}

pub open spec fn author_labels() -> Seq<Seq<char>> {
    seq!["小说作者："@, "小說作者："@]
}

pub open spec fn status_labels() -> Seq<Seq<char>> {
    seq!["文章状态："@, "文章狀態："@]
}

/// The author: the first cell that names one.
pub open spec fn cells_author(cells: Seq<String>) -> Option<Seq<char>>
    decreases cells.len(),
{
    if cells.len() == 0 {
        None
    } else {
        match value_after(cells[0]@, author_labels()) {
            Some(a) => Some(a),
            None => cells_author(cells.drop_first()),
        }
    }
}

/// The state: that of the last cell that names one.
pub open spec fn cells_status(cells: Seq<String>) -> MangaStatus
    decreases cells.len(),
{
    if cells.len() == 0 {
        MangaStatus::Unknown
    } else {
        match value_after(cells.last()@, status_labels()) {
            Some(v) => status_of(v),
            None => cells_status(cells.drop_last()),
        }
    }
}

/// `<site>/book/<key>.htm`.
pub open spec fn book_address(key: Seq<char>) -> Seq<char> {
    BASE_URL@ + "/book/"@ + key + ".htm"@
}

/// The book after its details page was read.
pub open spec fn details_of(m: MangaView, page: DetailsPage) -> MangaView {
    let cells = match page.cells {
        Some(c) => c@,
        None => Seq::empty(),
    };
    let authors = match cells_author(cells) {
        Some(a) => Some(seq![a]),
        None => None,
    };
    let base = MangaView {
        title: match page.title {
            Some(t) => t@,
            None => m.title,
        },
        cover: image_address(page.cover, BASE_URL@),
        url: Some(book_address(m.key)),
        authors,
        artists: authors,
        status: cells_status(cells),
        content_rating: ContentRating::Safe,
        viewer: Viewer::Vertical,
        ..m
    };
    match first_cell(page.detail_cells@) {
        Some(Some(spans)) => MangaView {
            description: details_description(spans@),
            tags: details_tags(spans@),
            ..base
        },
        Some(None) => MangaView { description: None, tags: None, ..base },
        None => base,
    }
}

/// Reading a book page keeps the book's key; gives it the bold title when
/// there is one (else keeps its title), the page image's address as cover
/// when the image's `src` is not blank (no cover otherwise), the book page
/// as address, a Safe rating and the vertical viewer; its author, who is
/// also its artist, is the value after the first author label in the
/// cells, and its state that after the last state label; with no detail
/// cell its description and tags are kept.
pub proof fn lemma_details_fields(m: MangaView, page: DetailsPage)
    ensures
        details_of(m, page).key == m.key,
        details_of(m, page).title == match page.title {
            Some(t) => t@,
            None => m.title,
        },
        details_of(m, page).url == Some(book_address(m.key)),
        details_of(m, page).cover == match page.cover {
            Some(i) => match i.src {
                Some(src) => if crate::text::trim(src@).len() > 0 {
                    Some(normalize_image(src@, opt_str(i.abs_src), BASE_URL@))
                } else {
                    None
                },
                None => None,
            },
            None => None,
        },
        details_of(m, page).content_rating == ContentRating::Safe,
        details_of(m, page).viewer == Viewer::Vertical,
        details_of(m, page).artists == details_of(m, page).authors,
        forall|cells: Vec<String>, i: int|
            page.cells == Some(cells) && 0 <= i < cells@.len() && value_after(
                cells@[i]@,
                author_labels(),
            ) is Some && (forall|j: int| 0 <= j < i ==> value_after(cells@[j]@, author_labels()) is None)
                ==> #[trigger] details_of(m, page).authors == Some(
                seq![value_after(cells@[i]@, author_labels())->0],
            ),
        (page.cells matches Some(cells) && cells@.len() > 0 && value_after(
            cells@.last()@,
            status_labels(),
        ) is Some) ==> details_of(m, page).status == status_of(
            value_after(page.cells->0@.last()@, status_labels())->0,
        ),
        first_cell(page.detail_cells@) is None ==> details_of(m, page).description == m.description
            && details_of(m, page).tags == m.tags,
{
    assert forall|cells: Vec<String>, i: int|
        page.cells == Some(cells) && 0 <= i < cells@.len() && value_after(
            cells@[i]@,
            author_labels(),
        ) is Some && (forall|j: int| 0 <= j < i ==> value_after(cells@[j]@, author_labels()) is None)
            implies #[trigger] details_of(m, page).authors == Some(
            seq![value_after(cells@[i]@, author_labels())->0],
        ) by {
        lemma_cells_author_first(cells@, i);
    }
}

proof fn lemma_cells_author_first(cells: Seq<String>, i: int)
    requires
        0 <= i < cells.len(),
        value_after(cells[i]@, author_labels()) is Some,
        forall|j: int| 0 <= j < i ==> value_after(cells[j]@, author_labels()) is None,
    ensures
        cells_author(cells) == value_after(cells[i]@, author_labels()),
    decreases i,
{
    if i > 0 {
        let t = cells.drop_first();
        assert forall|j: int| 0 <= j < i - 1 implies value_after(t[j]@, author_labels()) is None by {
            assert(t[j] == cells[j + 1]);
        }
        assert(value_after(cells[0]@, author_labels()) is None);
        lemma_cells_author_first(t, i - 1);
        assert(t[i - 1] == cells[i]);
    }
}

/// The book address.
pub fn book_url(key: &str) -> (out: String)
    ensures
        out@ == book_address(key@),
{
    let mut o = to_chars(BASE_URL);
    crate::text::push_all(&mut o, to_chars("/book/").as_slice());
    crate::text::push_all(&mut o, to_chars(key).as_slice());
    crate::text::push_all(&mut o, to_chars(".htm").as_slice());
    from_chars(o.as_slice())
}

fn clone_str(s: &String) -> (r: String)
    ensures
        r@ == s@,
{
    s.clone()
}

/// Fills a book from its details page; an error when the page has no
/// content block, in which case the book is left as it was.
pub fn parse_details(page: &DetailsPage, manga: &mut Manga) -> (r: Result<(), SourceError>)
    ensures
        page.has_content ==> r is Ok && final(manga)@ == details_of(old(manga)@, *page),
        !page.has_content ==> r == Err::<(), SourceError>(SourceError::DetailsMissing)
            && final(manga)@ == old(manga)@,
{
    if !page.has_content {
        return Err(SourceError::DetailsMissing);
    }
    if let Some(t) = &page.title {
        manga.title = clone_str(t);
    }
    manga.cover = match &page.cover {
        Some(img) => {
            let src: Option<&str> = match &img.src {
                Some(s) => Some(s.as_str()),
                None => None,
            };
            let abs: Option<&str> = match &img.abs_src {
                Some(s) => Some(s.as_str()),
                None => None,
            };
            normalized_img(src, abs, BASE_URL)
        },
        None => None,
    };
    manga.url = Some(book_url(manga.key.as_str()));
    let author_ls: [&str; 2] = ["小说作者：", "小說作者："];
    let status_ls: [&str; 2] = ["文章状态：", "文章狀態："];
    assert(str_views(author_ls@) =~= author_labels());
    assert(str_views(status_ls@) =~= status_labels());
    let mut author: Option<String> = None;
    let mut status = MangaStatus::Unknown;
    match &page.cells {
        Some(cells) => {
            let mut i: usize = 0;
            assert(cells@.take(0) =~= Seq::<String>::empty());
            assert(cells@.skip(0) =~= cells@);
            while i < cells.len()
                invariant
                    i <= cells@.len(),
                    str_views(author_ls@) == author_labels(),
                    str_views(status_ls@) == status_labels(),
                    cells_author(cells@) == match author {
                        Some(a) => Some(a@),
                        None => cells_author(cells@.skip(i as int)),
                    },
                    status == cells_status(cells@.take(i as int)),
                decreases cells.len() - i,
            {
                let ghost s = cells@.skip(i as int);
                assert(s.drop_first() =~= cells@.skip(i + 1));
                assert(s[0] == cells@[i as int]);
                assert(cells@.take(i + 1).drop_last() =~= cells@.take(i as int));
                assert(cells@.take(i + 1).last() == cells@[i as int]);
                let text = &cells[i];
                if author.is_none() {
                    author = value_after_labels(text.as_str(), author_ls.as_slice());
                }
                if let Some(value) = value_after_labels(text.as_str(), status_ls.as_slice()) {
                    status = parse_status(value.as_str());
                }
                i += 1;
            }
            assert(cells@.take(cells@.len() as int) =~= cells@);
            assert(cells@.skip(cells@.len() as int) =~= Seq::<String>::empty());
        },
        None => {},
    }
    let authors: Option<Vec<String>> = match &author {
        Some(a) => {
            let v = vec![clone_str(a)];
            assert(string_views(v@) =~= seq![a@]);
            Some(v)
        },
        None => None,
    };
    let artists: Option<Vec<String>> = match &author {
        Some(a) => {
            let v = vec![clone_str(a)];
            assert(string_views(v@) =~= seq![a@]);
            Some(v)
        },
        None => None,
    };
    manga.authors = authors;
    manga.artists = artists;
    manga.status = status;
    manga.content_rating = ContentRating::Safe;
    manga.viewer = Viewer::Vertical;
    match first_cell_index(&page.detail_cells) {
        Some(i) => match &page.detail_cells[i] {
            Some(Some(spans)) => {
                manga.description = detail_description(spans);
                manga.tags = detail_tags(spans);
            },
            Some(None) => {
                manga.description = None;
                manga.tags = None;
            },
            None => {},
        },
        None => {},
    }
    Ok(())
}

} // verus!
