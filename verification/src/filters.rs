//! Search filters and the tag list.
use vstd::prelude::*;
use crate::consts::{BASE_URL, KNOWN_TAGS};
use crate::encode::{encode_gbk_component, gbk_encoding, percent_encode};
use crate::model::{SourceError, opt_str};
use crate::number::{push_signed_decimal, signed_decimal};
use crate::text::{
    chars_eq, contains, contains_exec, from_chars, normalize_space, normalize_space_exec,
    push_all, string_views, to_chars, trim, trimmed,
};
use crate::util::{
    decode_entities, decode_entities_exec, lemma_push_unique_string_distinct, push_unique_string,
    push_unique_string_spec,
};

verus! {

/// A filter value chosen in the reader app.
pub enum FilterInput {
    Text { id: String, value: String },
    Select { id: String, value: String },
    MultiSelect { id: String, included: Vec<String> },
    Other,
}

/// The ids of the tag filter.
pub open spec fn tag_filter_id(id: Seq<char>) -> bool {
    id == "genre"@ || id == "tag"@ || id == "tags"@ || id == "Tags"@
}

fn eq_lit(v: &[char], p: &str) -> (b: bool)
    ensures
        b == (v@ == p@),
{
    let pv = to_chars(p);
    chars_eq(v, pv.as_slice())
}

/// Whether a filter id is that of the tag filter.
pub fn is_tag_filter(id: &str) -> (b: bool)
    ensures
        b == tag_filter_id(id@),
{
    let v = to_chars(id);
    let v = v.as_slice();
    eq_lit(v, "genre") || eq_lit(v, "tag") || eq_lit(v, "tags") || eq_lit(v, "Tags")
}

/// The first non-blank value.
pub open spec fn first_non_blank(vs: Seq<String>) -> Option<Seq<char>>
    decreases vs.len(),
{
    if vs.len() == 0 {
        None
    } else if trim(vs[0]@).len() > 0 {
        Some(vs[0]@)
    } else {
        first_non_blank(vs.drop_first())
    }
}

/// The author, tag and search kind that the filters ask for, from the
/// filters read so far; a later filter overrides an earlier one.
pub open spec fn filters_fold(fs: Seq<FilterInput>) -> (Option<Seq<char>>, Option<Seq<char>>, bool)
    decreases fs.len(),
{
    if fs.len() == 0 {
        (None, None, false)
    } else {
        let st = filters_fold(fs.drop_last());
        match fs.last() {
            FilterInput::Text { id, value } => if id@ == "author"@ && trim(value@).len() > 0 {
                (Some(value@), st.1, st.2)
            } else {
                st
            },
            FilterInput::Select { id, value } => if id@ == "search_type"@ && trim(value@)
                == "author"@ {
                (st.0, st.1, true)
            } else if tag_filter_id(id@) && trim(value@).len() > 0 {
                (st.0, Some(value@), st.2)
            } else {
                st
            },
            FilterInput::MultiSelect { id, included } => if tag_filter_id(id@) {
                (st.0, first_non_blank(included@), st.2)
            } else {
                st
            },
            FilterInput::Other => st,
        }
    }
}

/// A filter that asks for a search by author.
pub open spec fn asks_author_search(f: FilterInput) -> bool {
    f matches FilterInput::Select { id, value } && id@ == "search_type"@ && trim(value@) == "author"@
}

/// What the filters ask for, filter by filter: a later filter overrides an
/// earlier one. An author text that is not blank sets the author; a tag
/// select that is not blank sets the tag, and a tag multi-select sets it to
/// its first choice that is not blank (or to none); other filters leave
/// both as they were. The search is by author exactly when some filter asks
/// for it.
pub proof fn lemma_filters_rules(fs: Seq<FilterInput>, f: FilterInput)
    ensures
        (f matches FilterInput::Text { id, value } && id@ == "author"@ && trim(value@).len() > 0)
            ==> filters_fold(fs.push(f)).0 == Some(f->Text_value@),
        !(f matches FilterInput::Text { id, value } && id@ == "author"@ && trim(value@).len() > 0)
            ==> filters_fold(fs.push(f)).0 == filters_fold(fs).0,
        (f matches FilterInput::Select { id, value } && tag_filter_id(id@) && trim(value@).len() > 0)
            ==> filters_fold(fs.push(f)).1 == Some(f->Select_value@),
        (f matches FilterInput::MultiSelect { id, included } && tag_filter_id(id@)) ==> filters_fold(
            fs.push(f),
        ).1 == first_non_blank(f->included@),
        (f is Text || f is Other) ==> filters_fold(fs.push(f)).1 == filters_fold(fs).1,
        filters_fold(fs).2 <==> exists|i: int| 0 <= i < fs.len() && asks_author_search(#[trigger] fs[i]),
    decreases fs.len(),
{
    reveal_strlit("search_type");
    reveal_strlit("genre");
    reveal_strlit("tag");
    reveal_strlit("tags");
    reveal_strlit("Tags");
    if let FilterInput::Select { id, value } = f {
        if tag_filter_id(id@) {
            assert(id@ != "search_type"@) by {
                assert("search_type"@.len() == 11);
                assert(id@.len() <= 5);
            }
        }
    }
    assert(fs.push(f).drop_last() =~= fs);
    assert(fs.push(f).last() == f);
    if fs.len() > 0 {
        lemma_filters_rules(fs.drop_last(), fs.last());
        assert(fs.drop_last().push(fs.last()) =~= fs);
        if asks_author_search(fs.last()) {
            assert(asks_author_search(fs[fs.len() - 1]));
        }
        if exists|i: int| 0 <= i < fs.len() && asks_author_search(#[trigger] fs[i]) {
            let i = choose|i: int| 0 <= i < fs.len() && asks_author_search(#[trigger] fs[i]);
            if i < fs.len() - 1 {
                assert(fs.drop_last()[i] == fs[i]);
            }
        }
        if exists|i: int| 0 <= i < fs.len() - 1 && asks_author_search(#[trigger] fs.drop_last()[i]) {
            let i = choose|i: int| 0 <= i < fs.len() - 1 && asks_author_search(#[trigger] fs.drop_last()[i]);
            assert(fs.drop_last()[i] == fs[i]);
        }
    }
}

fn first_non_blank_exec(vs: &Vec<String>) -> (r: Option<String>)
    ensures
        opt_str(r) == first_non_blank(vs@),
{
    let mut i: usize = 0;
    assert(vs@.skip(0) =~= vs@);
    while i < vs.len()
        invariant
            i <= vs@.len(),
            first_non_blank(vs@) == first_non_blank(vs@.skip(i as int)),
        decreases vs.len() - i,
    {
        let ghost s = vs@.skip(i as int);
        assert(s.drop_first() =~= vs@.skip(i + 1));
        assert(s[0] == vs@[i as int]);
        let v = to_chars(vs[i].as_str());
        if trimmed(v.as_slice()).len() > 0 {
            return Some(from_chars(v.as_slice()));
        }
        i += 1;
    }
    None
}

/// Reads the author, the tag and the kind of search that the filters ask
/// for: `"author"` or `"articlename"`.
pub fn parse_search_filters(filters: Vec<FilterInput>) -> (r: (Option<String>, Option<String>, &'static str))
    ensures
        opt_str(r.0) == filters_fold(filters@).0,
        opt_str(r.1) == filters_fold(filters@).1,
        r.2@ == if filters_fold(filters@).2 {
            "author"@
        } else {
            "articlename"@
        },
{
    let mut author: Option<String> = None;
    let mut tag: Option<String> = None;
    let mut by_author = false;
    let mut i: usize = 0;
    assert(filters@.take(0) =~= Seq::<FilterInput>::empty());
    while i < filters.len()
        invariant
            i <= filters@.len(),
            filters_fold(filters@.take(i as int)) == (opt_str(author), opt_str(tag), by_author),
        decreases filters.len() - i,
    {
        assert(filters@.take(i + 1).drop_last() =~= filters@.take(i as int));
        assert(filters@.take(i + 1).last() == filters@[i as int]);
        match &filters[i] {
            FilterInput::Text { id, value } => {
                let idv = to_chars(id.as_str());
                let vv = to_chars(value.as_str());
                if eq_lit(idv.as_slice(), "author") && trimmed(vv.as_slice()).len() > 0 {
                    author = Some(from_chars(vv.as_slice()));
                }
            },
            FilterInput::Select { id, value } => {
                let idv = to_chars(id.as_str());
                let vv = to_chars(value.as_str());
                let tv = trimmed(vv.as_slice());
                if eq_lit(idv.as_slice(), "search_type") && eq_lit(tv.as_slice(), "author") {
                    by_author = true;
                } else if is_tag_filter(id.as_str()) && tv.len() > 0 {
                    tag = Some(from_chars(vv.as_slice()));
                }
            },
            FilterInput::MultiSelect { id, included } => {
                if is_tag_filter(id.as_str()) {
                    tag = first_non_blank_exec(included);
                }
            },
            FilterInput::Other => {},
        }
        i += 1;
    }
    assert(filters@.take(filters@.len() as int) =~= filters@);
    let kind: &'static str = if by_author {
        "author"
    } else {
        "articlename"
    };
    (author, tag, kind)
}

/// The address of a page of books with a tag; with a blank tag, the page of
/// all books.
pub open spec fn tag_address(tag: Seq<char>, page: i32) -> Seq<char> {
    let t = trim(tag);
    if t.len() == 0 {
        BASE_URL@ + "/modules/article/articlelist.php?page="@ + signed_decimal(page as int)
    } else {
        BASE_URL@ + "/modules/article/tags.php?t="@ + percent_encode(gbk_encoding(t)) + "&page="@
            + signed_decimal(page as int)
    }
}

/// The address of a page of books with a tag.
pub fn tag_page_url(tag: &str, page: i32) -> (out: String)
    requires
        tag@.len() <= usize::MAX / 16,
    ensures
        out@ == tag_address(tag@, page),
{
    let v = to_chars(tag);
    let t = trimmed(v.as_slice());
    let mut o = to_chars(BASE_URL);
    if t.len() == 0 {
        push_all(&mut o, to_chars("/modules/article/articlelist.php?page=").as_slice());
    } else {
        let ts = from_chars(t.as_slice());
        proof {
            assert(t@.len() <= tag@.len()) by {
                crate::text::lemma_trim_len(tag@);
            }
        }
        let encoded = encode_gbk_component(ts.as_str());
        push_all(&mut o, to_chars("/modules/article/tags.php?t=").as_slice());
        push_all(&mut o, to_chars(encoded.as_str()).as_slice());
        push_all(&mut o, to_chars("&page=").as_slice());
    }
    push_signed_decimal(&mut o, page as i64);
    from_chars(o.as_slice())
}

/// A link of the tag page: its `href` and its text.
pub struct TagLink {
    pub href: Option<String>,
    pub text: Option<String>,
}

/// The tag of a link: the words of its decoded text, when the link goes to
/// a tag page and the text is a tag rather than a heading.
pub open spec fn tag_of(link: TagLink) -> Option<Seq<char>> {
    let href = match link.href {
        Some(h) => h@,
        None => Seq::empty(),
    };
    if !contains(href, "tags.php"@) && !contains(href, "t="@) {
        None
    } else {
        match link.text {
            Some(t) => {
                let tag = normalize_space(decode_entities(t@));
                if tag.len() == 0 || contains(tag, "Tags"@) || contains(tag, "推荐"@) {
                    None
                } else {
                    Some(tag)
                }
            },
            None => None,
        }
    }
}

/// The tags of the links added to the list, each once.
pub open spec fn tags_fold(tags: Seq<Seq<char>>, links: Seq<TagLink>) -> Seq<Seq<char>>
    decreases links.len(),
{
    if links.len() == 0 {
        tags
    } else {
        match tag_of(links.last()) {
            Some(t) => push_unique_string_spec(tags_fold(tags, links.drop_last()), t),
            None => tags_fold(tags, links.drop_last()),
        }
    }
}

fn contains_lit(v: &[char], p: &str) -> (b: bool)
    ensures
        b == contains(v@, p@),
{
    let pv = to_chars(p);
    contains_exec(v, pv.as_slice())
}

fn tag_of_exec(link: &TagLink) -> (r: Option<String>)
    ensures
        opt_str(r) == tag_of(*link),
{
    let href: Vec<char> = match &link.href {
        Some(h) => to_chars(h.as_str()),
        None => Vec::new(),
    };
    if !contains_lit(href.as_slice(), "tags.php") && !contains_lit(href.as_slice(), "t=") {
        return None;
    }
    match &link.text {
        Some(t) => {
            let tv = to_chars(t.as_str());
            let decoded = decode_entities_exec(tv.as_slice());
            let tag = normalize_space_exec(decoded.as_slice());
            if tag.len() == 0 || contains_lit(tag.as_slice(), "Tags") || contains_lit(
                tag.as_slice(),
                "推荐",
            ) {
                None
            } else {
                Some(from_chars(tag.as_slice()))
            }
        },
        None => None,
    }
}

/// Adds the tags of the links that a selector found.
pub fn collect_tag_links(links: &Option<Vec<TagLink>>, tags: &mut Vec<String>)
    ensures
        string_views(final(tags)@) == match links {
            Some(ls) => tags_fold(string_views(old(tags)@), ls@),
            None => string_views(old(tags)@),
        },
{
    if let Some(ls) = links {
        let ghost start = string_views(tags@);
        let mut i: usize = 0;
        assert(ls@.take(0) =~= Seq::<TagLink>::empty());
        while i < ls.len()
            invariant
                i <= ls@.len(),
                string_views(tags@) == tags_fold(start, ls@.take(i as int)),
            decreases ls.len() - i,
        {
            assert(ls@.take(i + 1).drop_last() =~= ls@.take(i as int));
            assert(ls@.take(i + 1).last() == ls@[i as int]);
            if let Some(tag) = tag_of_exec(&ls[i]) {
                push_unique_string(tags, tag);
            }
            i += 1;
        }
        assert(ls@.take(ls@.len() as int) =~= ls@);
    }
}

/// The tags of the tag page, over the links that each selector found in
/// order.
pub open spec fn tag_groups_fold(groups: Seq<Option<Vec<TagLink>>>) -> Seq<Seq<char>>
    decreases groups.len(),
{
    if groups.len() == 0 {
        seq![]
    } else {
        let prev = tag_groups_fold(groups.drop_last());
        match groups.last() {
            Some(ls) => tags_fold(prev, ls@),
            None => prev,
        }
    }
}

/// Collecting tag links never lists a tag twice.
pub proof fn lemma_tags_fold_distinct(tags: Seq<Seq<char>>, links: Seq<TagLink>)
    requires
        tags.no_duplicates(),
    ensures
        tags_fold(tags, links).no_duplicates(),
    decreases links.len(),
{
    if links.len() > 0 {
        lemma_tags_fold_distinct(tags, links.drop_last());
        if let Some(t) = tag_of(links.last()) {
            lemma_push_unique_string_distinct(tags_fold(tags, links.drop_last()), t);
        }
    }
}

/// A tag read from a link comes from a link to a tag page; it is the
/// decoded text of the link with its words separated by single spaces, not
/// empty, and neither a heading (`Tags`) nor a recommendation (推荐).
pub proof fn lemma_tag_of_shape(link: TagLink)
    ensures
        tag_of(link) matches Some(t) ==> {
            &&& t.len() > 0
            &&& normalize_space(t) == t
            &&& !contains(t, "Tags"@) && !contains(t, "推荐"@)
            &&& link.href matches Some(h) && (contains(h@, "tags.php"@) || contains(h@, "t="@))
            &&& link.text matches Some(x) && t == normalize_space(decode_entities(x@))
        },
{
    if let Some(x) = link.text {
        crate::util::lemma_normalize_space_idempotent(decode_entities(x@));
    }
    if link.href is None {
        reveal_strlit("tags.php");
        reveal_strlit("t=");
        crate::text::lemma_find_absent(Seq::<char>::empty(), "tags.php"@);
        crate::text::lemma_find_absent(Seq::<char>::empty(), "t="@);
    }
}

/// Collecting tag links keeps every tag already listed and lists the tag of
/// every link that has one.
pub proof fn lemma_tags_fold_keeps(tags: Seq<Seq<char>>, links: Seq<TagLink>)
    ensures
        forall|i: int| 0 <= i < tags.len() ==> tags_fold(tags, links).contains(#[trigger] tags[i]),
        forall|i: int|
            0 <= i < links.len() && tag_of(#[trigger] links[i]) is Some ==> tags_fold(tags, links).contains(
                tag_of(links[i])->0,
            ),
    decreases links.len(),
{
    if links.len() > 0 {
        let p = links.drop_last();
        lemma_tags_fold_keeps(tags, p);
        let prev = tags_fold(tags, p);
        let r = tags_fold(tags, links);
        if let Some(t) = tag_of(links.last()) {
            assert(r == push_unique_string_spec(prev, t));
        }
        assert forall|x: Seq<char>| prev.contains(x) implies r.contains(x) by {
            let k = choose|k: int| 0 <= k < prev.len() && prev[k] == x;
            if let Some(t) = tag_of(links.last()) {
                if !prev.contains(t) {
                    assert(r[k] == prev[k]);
                }
            }
        }
        assert forall|i: int| 0 <= i < tags.len() implies r.contains(#[trigger] tags[i]) by {
            assert(prev.contains(tags[i]));
        }
        assert forall|i: int|
            0 <= i < links.len() && tag_of(#[trigger] links[i]) is Some implies r.contains(
                tag_of(links[i])->0,
            ) by {
            if i < p.len() {
                assert(p[i] == links[i]);
                assert(prev.contains(tag_of(p[i])->0));
            } else {
                let t = tag_of(links.last())->0;
                if !prev.contains(t) {
                    assert(r[prev.len() as int] == t);
                }
            }
        }
    }
}

/// The tags read from the tag page are each listed once.
pub proof fn lemma_tag_groups_distinct(groups: Seq<Option<Vec<TagLink>>>)
    ensures
        tag_groups_fold(groups).no_duplicates(),
    decreases groups.len(),
{
    if groups.len() > 0 {
        lemma_tag_groups_distinct(groups.drop_last());
        if let Some(ls) = groups.last() {
            lemma_tags_fold_distinct(tag_groups_fold(groups.drop_last()), ls@);
        }
    }
}

/// Reads the tags of the tag page; an error when there are none.
pub fn collect_tags(groups: &Vec<Option<Vec<TagLink>>>) -> (r: Result<Vec<String>, SourceError>)
    ensures
        tag_groups_fold(groups@).len() > 0 ==> (r matches Ok(v) && string_views(v@)
            == tag_groups_fold(groups@)),
        tag_groups_fold(groups@).len() == 0 ==> r == Err::<Vec<String>, SourceError>(
            SourceError::TagsEmpty,
        ),
{
    let mut tags: Vec<String> = Vec::new();
    let mut i: usize = 0;
    assert(groups@.take(0) =~= Seq::<Option<Vec<TagLink>>>::empty());
    assert(string_views(tags@) =~= Seq::<Seq<char>>::empty());
    while i < groups.len()
        invariant
            i <= groups@.len(),
            string_views(tags@) == tag_groups_fold(groups@.take(i as int)),
        decreases groups.len() - i,
    {
        assert(groups@.take(i + 1).drop_last() =~= groups@.take(i as int));
        assert(groups@.take(i + 1).last() == groups@[i as int]);
        collect_tag_links(&groups[i], &mut tags);
        i += 1;
    }
    assert(groups@.take(groups@.len() as int) =~= groups@);
    if tags.len() == 0 {
        return Err(SourceError::TagsEmpty);
    }
    Ok(tags)
}

/// The tags offered when the tag page cannot be read.
pub open spec fn known_tag_list() -> Seq<Seq<char>> {
    KNOWN_TAGS@.map_values(|t: &str| t@)
}

/// The tags offered when the tag page cannot be read.
pub fn known_tags() -> (out: Vec<String>)
    ensures
        string_views(out@) == known_tag_list(),
{
    let mut out: Vec<String> = Vec::new();
    let mut i: usize = 0;
    assert(string_views(out@) =~= known_tag_list().take(0));
    while i < KNOWN_TAGS.len()
        invariant
            i <= KNOWN_TAGS@.len(),
            KNOWN_TAGS@.len() == known_tag_list().len(),
            string_views(out@) == known_tag_list().take(i as int),
        decreases KNOWN_TAGS.len() - i,
    {
        let t = from_chars(to_chars(KNOWN_TAGS[i]).as_slice());
        assert(known_tag_list()[i as int] == KNOWN_TAGS@[i as int]@);
        assert(t@ == KNOWN_TAGS@[i as int]@);
        let ghost before = out@;
        out.push(t);
        assert(string_views(out@) =~= string_views(before).push(t@));
        assert(string_views(out@) =~= known_tag_list().take(i + 1));
        i += 1;
    }
    assert(known_tag_list().take(KNOWN_TAGS@.len() as int) =~= known_tag_list());
    out
}

/// The tags of the filter: those read from the site when there are any,
/// else the known ones.
pub fn choose_tags(fetched: Result<Vec<String>, SourceError>) -> (out: Vec<String>)
    ensures
        match fetched {
            Ok(v) => if v@.len() > 0 {
                out@ == v@
            } else {
                string_views(out@) == known_tag_list()
            },
            Err(_) => string_views(out@) == known_tag_list(),
        },
{
    match fetched {
        Ok(v) => if v.len() > 0 {
            v
        } else {
            known_tags()
        },
        Err(_) => known_tags(),
    }
}

/// The options and ids of the tag filter: "全部" with an empty id, then
/// each tag as both.
pub fn tag_filter_options(tags: &Vec<String>) -> (out: (Vec<String>, Vec<String>))
    ensures
        string_views(out.0@) == seq!["全部"@] + string_views(tags@),
        string_views(out.1@) == seq![""@] + string_views(tags@),
{
    let mut options: Vec<String> = Vec::new();
    let mut ids: Vec<String> = Vec::new();
    options.push(from_chars(to_chars("全部").as_slice()));
    ids.push(String::new());
    proof {
        reveal_strlit("");
    }
    assert(""@ =~= Seq::<char>::empty());
    assert(string_views(options@) =~= seq!["全部"@] + string_views(tags@).take(0));
    assert(string_views(ids@) =~= seq![""@] + string_views(tags@).take(0));
    let mut i: usize = 0;
    while i < tags.len()
        invariant
            i <= tags@.len(),
            string_views(options@) == seq!["全部"@] + string_views(tags@).take(i as int),
            string_views(ids@) == seq![""@] + string_views(tags@).take(i as int),
        decreases tags.len() - i,
    {
        let o = from_chars(to_chars(tags[i].as_str()).as_slice());
        let d = from_chars(to_chars(tags[i].as_str()).as_slice());
        let ghost before_o = options@;
        let ghost before_d = ids@;
        options.push(o);
        ids.push(d);
        assert(string_views(options@) =~= string_views(before_o).push(tags@[i as int]@));
        assert(string_views(ids@) =~= string_views(before_d).push(tags@[i as int]@));
        assert(string_views(tags@).take(i + 1) =~= string_views(tags@).take(i as int).push(
            tags@[i as int]@,
        ));
        assert(string_views(options@) =~= seq!["全部"@] + string_views(tags@).take(i + 1));
        assert(string_views(ids@) =~= seq![""@] + string_views(tags@).take(i + 1));
        i += 1;
    }
    assert(string_views(tags@).take(tags@.len() as int) =~= string_views(tags@));
    (options, ids)
}

/// The tag filter that searches offer: a genre select shown in tag style,
/// with id `genre`, title `标签`, "全部" (empty id, the default) and then each
/// tag as option and id.
pub struct TagFilter {
    pub id: String,
    pub title: String,
    pub is_genre: bool,
    pub uses_tag_style: bool,
    pub options: Vec<String>,
    pub ids: Vec<String>,
    pub default: String,
}

/// Builds the tag filter for the tags.
pub fn tag_filter(tags: &Vec<String>) -> (f: TagFilter)
    ensures
        f.id@ == "genre"@,
        f.title@ == "标签"@,
        f.is_genre,
        f.uses_tag_style,
        string_views(f.options@) == seq!["全部"@] + string_views(tags@),
        string_views(f.ids@) == seq![""@] + string_views(tags@),
        f.default@ == ""@,
{
    let (options, ids) = tag_filter_options(tags);
    proof {
        reveal_strlit("");
    }
    TagFilter {
        id: from_chars(to_chars("genre").as_slice()),
        title: from_chars(to_chars("标签").as_slice()),
        is_genre: true,
        uses_tag_style: true,
        options,
        ids,
        default: String::new(),
    }
}

} // verus!
