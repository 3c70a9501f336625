//! Extraction of structured records from the source site's pages: the
//! chapter count on a series index page, the title, subtitle and text of a
//! chapter page, and the hits of a search page.
use vstd::prelude::*;

use crate::data::LN;
use crate::error::{EngineError, InputProblem, PagePart};
use crate::navigate::{
    digit_at, marker, marker_str, parse_chapter_url, parsed_chapter_url, single_token, url_chapter,
};
use crate::text::{find, find_spec, is_digit, numeral_value, parse_decimal, starts_with, trim, trimmed};

verus! {

/// The pattern that reads a chapter number out of a chapter link.
pub const CHAPTER_LINK_PATTERN: &'static str = r"chapter-(\d+)\.html";

/// The first entry of the "latest chapters" listing on a series index page.
pub const LATEST_CHAPTER_SELECTOR: &'static str =
    "body > div.main > div > div > div.col-content > div.m-newest1 > ul > li:nth-child(1) > a";

/// The series title on a chapter page.
pub const TITLE_SELECTOR: &'static str = "#main1 > div > div > div.top > h1 > a";

/// The chapter subtitle on a chapter page.
pub const SUBTITLE_SELECTOR: &'static str = "#main1 > div > div > div.top > span";

/// The container of a chapter's paragraphs.
pub const CONTENT_SELECTOR: &'static str = "#main1 > div > div > div.txt";

/// The paragraphs of a chapter: the container's `p` children.
pub const PARAGRAPH_SELECTOR: &'static str = "#main1 > div > div > div.txt > p";

/// The attribute that holds a link's address.
pub const LINK_ATTRIBUTE: &'static str = "href";

/// The address of the source site, which search links are relative to.
pub const SITE_ROOT: &'static str = "https://freewebnovel.com";

/// Where search queries are posted, as the form field `searchkey`.
pub const SEARCH_URL: &'static str = "https://freewebnovel.com/search/";

/// The rows of a search results page.
pub const RESULT_ROW_SELECTOR: &'static str = "div.li-row";

/// A row's title, and its link.
pub const RESULT_TITLE_SELECTOR: &'static str = "h3.tit";

pub const RESULT_LINK_SELECTOR: &'static str = "h3.tit > a";

/// The series title on a series index page.
pub const NAME_SELECTOR: &'static str = "h1.tit";


/// The selectors that this library reads pages with.
pub open spec fn known_selector(s: Seq<char>) -> bool {
    ||| s == LATEST_CHAPTER_SELECTOR@
    ||| s == TITLE_SELECTOR@
    ||| s == SUBTITLE_SELECTOR@
    ||| s == CONTENT_SELECTOR@
    ||| s == PARAGRAPH_SELECTOR@
    ||| s == RESULT_ROW_SELECTOR@
    ||| s == RESULT_TITLE_SELECTOR@
    ||| s == RESULT_LINK_SELECTOR@
    ||| s == NAME_SELECTOR@
}

pub open spec fn strings_view(v: Seq<String>) -> Seq<Seq<char>> {
    v.map_values(|s: String| s@)
}

pub open spec fn option_view(o: Option<String>) -> Option<Seq<char>> {
    match o {
        Some(s) => Some(s@),
        None => None,
    }
}

pub open spec fn rows_view(v: Seq<(String, Option<String>)>) -> Seq<(Seq<char>, Option<Seq<char>>)> {
    v.map_values(|r: (String, Option<String>)| (r.0@, option_view(r.1)))
}

/// The text content of each element of the document `html` that matches
/// `selector`, in document order; `None` where the markup is refused.
pub uninterp spec fn selected_texts(html: Seq<char>, selector: Seq<char>) -> Option<Seq<Seq<char>>>;

/// Relies on `visdom::Vis::load` (`None` where it reports an error),
/// `Elements::find`, `Elements::eq` and `Elements::text`: the text of each
/// element that matches `selector`.
#[verifier::external_body]
fn select_texts(html: &str, selector: &str) -> (r: Option<Vec<String>>)
    requires
        known_selector(selector@),
    ensures
        match r {
            Some(v) => selected_texts(html@, selector@) == Some(strings_view(v@)),
            None => selected_texts(html@, selector@) is None,
        },
{
    let doc = visdom::Vis::load(html).ok()?;
    let found = doc.find(selector);
    Some((0..found.length()).map(|i| found.eq(i).text()).collect())
}

/// The value of attribute `attr`, if present, on each element of the
/// document `html` that matches `selector`; `None` where the markup is
/// refused.
pub uninterp spec fn selected_attrs(html: Seq<char>, selector: Seq<char>, attr: Seq<char>) -> Option<
    Seq<Option<Seq<char>>>,
>;

/// Relies on `visdom::Vis::load` (`None` where it reports an error),
/// `Elements::find`, `Elements::eq` and `Elements::attr`, whose value is
/// written out with `to_string`.
#[verifier::external_body]
fn select_attrs(html: &str, selector: &str, attr: &str) -> (r: Option<Vec<Option<String>>>)
    requires
        known_selector(selector@),
    ensures
        match r {
            Some(v) => selected_attrs(html@, selector@, attr@) == Some(
                v@.map_values(|o: Option<String>| option_view(o)),
            ),
            None => selected_attrs(html@, selector@, attr@) is None,
        },
{
    let doc = visdom::Vis::load(html).ok()?;
    let found = doc.find(selector);
    Some((0..found.length()).map(|i| found.eq(i).attr(attr).map(|v| v.to_string())).collect())
}

/// For each element of `html` that matches `row`: the text of the first
/// match of `title` among its children's descendants, and the attribute
/// `attr` of the first match of `link` there; `None` where the markup is
/// refused.
pub uninterp spec fn result_rows(
    html: Seq<char>,
    row: Seq<char>,
    title: Seq<char>,
    link: Seq<char>,
    attr: Seq<char>,
) -> Option<Seq<(Seq<char>, Option<Seq<char>>)>>;

/// Relies on `visdom::Vis::load` (`None` where it reports an error), and on
/// `Elements::find`, `eq`, `children`, `text` and `attr` for each row.
#[verifier::external_body]
fn select_rows(html: &str, row: &str, title: &str, link: &str, attr: &str) -> (r: Option<
    Vec<(String, Option<String>)>,
>)
    requires
        known_selector(row@),
        known_selector(title@),
        known_selector(link@),
    ensures
        match r {
            Some(v) => result_rows(html@, row@, title@, link@, attr@) == Some(rows_view(v@)),
            None => result_rows(html@, row@, title@, link@, attr@) is None,
        },
{
    let doc = visdom::Vis::load(html).ok()?;
    let rows = doc.find(row);
    Some((0..rows.length()).map(|i| {
        let kids = rows.eq(i).children("");
        (kids.find(title).eq(0).text(), kids.find(link).eq(0).attr(attr).map(|v| v.to_string()))
    }).collect())
}


/// The group of the leftmost match of a pattern in a text.
pub uninterp spec fn first_capture(pattern: Seq<char>, text: Seq<char>) -> Option<Seq<char>>;

/// Relies on `regex::Regex::new` and `Regex::captures`: the first capture
/// group of the leftmost match of `pattern` in `text`, or `None` where the
/// pattern does not compile, nothing matches, or the group took no part.
#[verifier::external_body]
fn capture_group(pattern: &str, text: &str) -> (r: Option<String>)
    ensures
        match r {
            Some(c) => first_capture(pattern@, text@) == Some(c@),
            None => first_capture(pattern@, text@) is None,
        },
{
    let re = regex::Regex::new(pattern).ok()?;
    re.captures(text).and_then(|c| c.get(1)).map(|m| m.as_str().to_owned())
}

/// What becomes of the group that the chapter pattern captured: the number
/// it writes, after trimming.
pub open spec fn chapter_of_capture(capture: Option<Seq<char>>) -> Result<nat, EngineError> {
    match capture {
        None => Err(EngineError::Parse(PagePart::LatestChapterLink)),
        Some(c) => match numeral_value(trimmed(c)) {
            Some(v) => if v <= usize::MAX {
                Ok(v)
            } else {
                Err(EngineError::Parse(PagePart::ChapterCount))
            },
            None => Err(EngineError::Parse(PagePart::ChapterCount)),
        },
    }
}

/// The chapter number that a chapter link names.
pub open spec fn link_chapter(href: Seq<char>) -> Result<nat, EngineError> {
    chapter_of_capture(first_capture(CHAPTER_LINK_PATTERN@, href))
}

pub open spec fn view_usize_result(r: Result<usize, EngineError>) -> Result<nat, EngineError> {
    match r {
        Ok(v) => Ok(v as nat),
        Err(e) => Err(e),
    }
}

/// The chapter number in a captured group.
pub fn chapter_from_capture(capture: Option<&str>) -> (r: Result<usize, EngineError>)
    ensures
        view_usize_result(r) == chapter_of_capture(
            match capture {
                Some(c) => Some(c@),
                None => None,
            },
        ),
{
    match capture {
        None => Err(EngineError::Parse(PagePart::LatestChapterLink)),
        Some(c) => match parse_decimal(trim(c)) {
            Some(v) => Ok(v),
            None => Err(EngineError::Parse(PagePart::ChapterCount)),
        },
    }
}

/// The chapter number named by a chapter link such as `.../chapter-87.html`.
pub fn max_chapter_from_link(href: &str) -> (r: Result<usize, EngineError>)
    ensures
        view_usize_result(r) == link_chapter(href@),
{
    let captured = capture_group(CHAPTER_LINK_PATTERN, href);
    match captured {
        Some(c) => chapter_from_capture(Some(c.as_str())),
        None => chapter_from_capture(None),
    }
}


/// The link of the first entry of the "latest chapters" listing of the
/// index page `html`.
pub open spec fn latest_link(html: Seq<char>) -> Result<Seq<char>, EngineError> {
    match selected_attrs(html, LATEST_CHAPTER_SELECTOR@, LINK_ATTRIBUTE@) {
        None => Err(EngineError::Parse(PagePart::Document)),
        Some(v) => if v.len() > 0 && v[0] is Some {
            Ok(v[0]->Some_0)
        } else {
            Err(EngineError::Parse(PagePart::LatestChapterLink))
        },
    }
}

/// The number of chapters that the index page `html` lists.
pub open spec fn index_chapters(html: Seq<char>) -> Result<nat, EngineError> {
    match latest_link(html) {
        Ok(h) => link_chapter(h),
        Err(e) => Err(e),
    }
}

/// The number of chapters that a series index page lists: read from the
/// link of the first entry of its "latest chapters" listing.
pub fn index_max_chapters(html: &str) -> (r: Result<usize, EngineError>)
    ensures
        view_usize_result(r) == index_chapters(html@),
{
    match select_attrs(html, LATEST_CHAPTER_SELECTOR, LINK_ATTRIBUTE) {
        None => Err(EngineError::Parse(PagePart::Document)),
        Some(v) => {
            if v.len() > 0 {
                match &v[0] {
                    Some(href) => max_chapter_from_link(href.as_str()),
                    None => Err(EngineError::Parse(PagePart::LatestChapterLink)),
                }
            } else {
                Err(EngineError::Parse(PagePart::LatestChapterLink))
            }
        },
    }
}

/// What a chapter page yields.
#[derive(Debug, Clone)]
pub struct Output {
    pub name: String,
    pub chapter_title: String,
    pub content: String,
    pub chapter: usize,
    pub max_chapters: usize,
}

/// The text is `"<digits> - "` for its first `k + 3` characters.
pub open spec fn number_prefix(raw: Seq<char>, k: int) -> bool {
    &&& 1 <= k
    &&& k + 3 <= raw.len()
    &&& forall|i: int| 0 <= i < k ==> is_digit(#[trigger] raw[i])
    &&& raw.subrange(k, k + 3) == seq![' ', '-', ' ']
}

/// The subtitle shown for a chapter: a leading `"<number> - "` is removed
/// and the rest trimmed; any other text is kept as it is.
pub open spec fn subtitle_spec(raw: Seq<char>) -> Seq<char> {
    if exists|k: int| number_prefix(raw, k) {
        trimmed(raw.skip((choose|k: int| number_prefix(raw, k)) + 3))
    } else {
        raw
    }
}

/// The blank-line separator that follows each paragraph.
pub open spec fn paragraph_break() -> Seq<char> {
    seq!['\n', '\n']
}

/// The chapter text: each paragraph that is not blank, followed by a blank
/// line, in order.
pub open spec fn joined(paragraphs: Seq<Seq<char>>) -> Seq<char>
    decreases paragraphs.len(),
{
    if paragraphs.len() == 0 {
        Seq::empty()
    } else {
        let last = paragraphs.last();
        joined(paragraphs.drop_last()) + if trimmed(last).len() == 0 {
            Seq::empty()
        } else {
            last + paragraph_break()
        }
    }
}

/// The texts one after another.
pub open spec fn concat_all(texts: Seq<Seq<char>>) -> Seq<char>
    decreases texts.len(),
{
    if texts.len() == 0 {
        Seq::empty()
    } else {
        concat_all(texts.drop_last()) + texts.last()
    }
}

/// The subtitle shown for a chapter whose subtitle element reads `raw`.
pub fn subtitle_from_text(raw: &str) -> (r: String)
    ensures
        r@ == subtitle_spec(raw@),
{
    let sep = " - ";
    proof {
        reveal_strlit(" - ");
    }
    assert(sep@ =~= seq![' ', '-', ' ']);
    let n = raw.unicode_len();
    let mut i: usize = 0;
    while digit_at(raw, n, i)
        invariant
            n == raw@.len(),
            i <= n,
            forall|t: int| 0 <= t < i ==> is_digit(#[trigger] raw@[t]),
        decreases n - i,
    {
        i = i + 1;
    }
    assert(i < n ==> !is_digit(raw@[i as int]));
    let mut found = false;
    if i >= 1 && n - i >= 3 {
        let after = raw.substring_char(i, n);
        found = starts_with(after, sep);
        assert(after@.take(3) =~= raw@.subrange(i as int, i + 3));
    }
    assert forall|k: int| #[trigger] number_prefix(raw@, k) implies k == i && found by {
        if k < i {
            assert(raw@.subrange(k, k + 3)[0] == raw@[k]);
        } else if k > i {
            assert(is_digit(raw@[i as int]));
        }
    }
    if found {
        assert(number_prefix(raw@, i as int));
        let rest = raw.substring_char(i + 3, n);
        assert(rest@ =~= raw@.skip(i + 3));
        String::from_str(trim(rest))
    } else {
        String::from_str(raw)
    }
}

/// The chapter text made of the given paragraph texts.
pub fn join_paragraphs(paragraphs: &Vec<String>) -> (r: String)
    ensures
        r@ == joined(strings_view(paragraphs@)),
{
    let brk = "\n\n";
    proof {
        reveal_strlit("\n\n");
    }
    assert(brk@ == paragraph_break());
    let mut out = String::new();
    let n = paragraphs.len();
    let mut i: usize = 0;
    while i < n
        invariant
            n == paragraphs@.len(),
            i <= n,
            brk@ == paragraph_break(),
            out@ == joined(strings_view(paragraphs@.take(i as int))),
        decreases n - i,
    {
        let p = &paragraphs[i];
        assert(strings_view(paragraphs@.take(i + 1)).drop_last() =~= strings_view(
            paragraphs@.take(i as int),
        ));
        assert(strings_view(paragraphs@.take(i + 1)).last() == p@);
        if trim(p.as_str()).unicode_len() != 0 {
            out.append(p.as_str());
            out.append(brk);
        }
        i = i + 1;
        assert(out@ =~= joined(strings_view(paragraphs@.take(i as int))));
    }
    assert(paragraphs@.take(n as int) =~= paragraphs@);
    out
}

/// All the texts, one after another.
fn concat_texts(texts: &Vec<String>) -> (r: String)
    ensures
        r@ == concat_all(strings_view(texts@)),
{
    let mut out = String::new();
    let n = texts.len();
    let mut i: usize = 0;
    while i < n
        invariant
            n == texts@.len(),
            i <= n,
            out@ == concat_all(strings_view(texts@.take(i as int))),
        decreases n - i,
    {
        assert(strings_view(texts@.take(i + 1)).drop_last() =~= strings_view(
            texts@.take(i as int),
        ));
        assert(strings_view(texts@.take(i + 1)).last() == texts@[i as int]@);
        out.append(texts[i].as_str());
        i = i + 1;
    }
    assert(texts@.take(n as int) =~= texts@);
    out
}

/// The parts of the chapter page `html`: the series title, the subtitle and
/// the chapter text, or the first part that is missing.
pub open spec fn page_parts(html: Seq<char>) -> Result<(Seq<char>, Seq<char>, Seq<char>), EngineError> {
    match selected_texts(html, TITLE_SELECTOR@) {
        None => Err(EngineError::Parse(PagePart::Document)),
        Some(t) => if t.len() == 0 {
            Err(EngineError::Parse(PagePart::Title))
        } else {
            match selected_texts(html, SUBTITLE_SELECTOR@) {
                None => Err(EngineError::Parse(PagePart::Document)),
                Some(st) => if st.len() == 0 {
                    Err(EngineError::Parse(PagePart::Subtitle))
                } else {
                    match selected_texts(html, CONTENT_SELECTOR@) {
                        None => Err(EngineError::Parse(PagePart::Document)),
                        Some(c) => if c.len() == 0 {
                            Err(EngineError::Parse(PagePart::Content))
                        } else {
                            match selected_texts(html, PARAGRAPH_SELECTOR@) {
                                None => Err(EngineError::Parse(PagePart::Document)),
                                Some(ps) => Ok(
                                    (concat_all(t), subtitle_spec(concat_all(st)), joined(ps)),
                                ),
                            }
                        },
                    }
                },
            }
        },
    }
}

pub open spec fn view_triple(r: Result<(String, String, String), EngineError>) -> Result<
    (Seq<char>, Seq<char>, Seq<char>),
    EngineError,
> {
    match r {
        Ok((a, b, c)) => Ok((a@, b@, c@)),
        Err(e) => Err(e),
    }
}

/// The series title, chapter subtitle and chapter text of a chapter page.
/// Each missing part is a parse error that names it.
pub fn parse_chapter_page(html: &str) -> (r: Result<(String, String, String), EngineError>)
    ensures
        view_triple(r) == page_parts(html@),
{
    let title = match select_texts(html, TITLE_SELECTOR) {
        None => {
            return Err(EngineError::Parse(PagePart::Document));
        },
        Some(t) => t,
    };
    if title.len() == 0 {
        return Err(EngineError::Parse(PagePart::Title));
    }
    let subtitle = match select_texts(html, SUBTITLE_SELECTOR) {
        None => {
            return Err(EngineError::Parse(PagePart::Document));
        },
        Some(t) => t,
    };
    if subtitle.len() == 0 {
        return Err(EngineError::Parse(PagePart::Subtitle));
    }
    let container = match select_texts(html, CONTENT_SELECTOR) {
        None => {
            return Err(EngineError::Parse(PagePart::Document));
        },
        Some(t) => t,
    };
    if container.len() == 0 {
        return Err(EngineError::Parse(PagePart::Content));
    }
    let paragraphs = match select_texts(html, PARAGRAPH_SELECTOR) {
        None => {
            return Err(EngineError::Parse(PagePart::Document));
        },
        Some(t) => t,
    };
    let name = concat_texts(&title);
    let raw = concat_texts(&subtitle);
    let chapter_title = subtitle_from_text(raw.as_str());
    let content = join_paragraphs(&paragraphs);
    Ok((name, chapter_title, content))
}

/// What loading a chapter gives, from its address, its index page and its
/// page: name, subtitle, text, chapter and chapter count.
pub open spec fn load_spec(url: Seq<char>, index_html: Seq<char>, page_html: Seq<char>) -> Result<
    (Seq<char>, Seq<char>, Seq<char>, nat, nat),
    EngineError,
> {
    match parsed_chapter_url(url) {
        Err(e) => Err(e),
        Ok((_, c)) => match index_chapters(index_html) {
            Err(e) => Err(e),
            Ok(m) => if c > m {
                Err(EngineError::Validation(InputProblem::OutOfRange))
            } else {
                match page_parts(page_html) {
                    Err(e) => Err(e),
                    Ok((n, t, ct)) => Ok((n, t, ct, c, m)),
                }
            },
        },
    }
}

/// Assembles what a chapter page yields, from its address, its series index
/// page and the chapter page itself: the address must encode a chapter, and
/// that chapter must not lie past the last one that the index lists.
pub fn load(url: &str, index_html: &str, page_html: &str) -> (r: Result<Output, EngineError>)
    ensures
        match load_spec(url@, index_html@, page_html@) {
            Ok((n, t, ct, c, m)) => r matches Ok(o) && o.name@ == n && o.chapter_title@ == t
                && o.content@ == ct && o.chapter as nat == c && o.max_chapters as nat == m,
            Err(e) => r == Err::<Output, EngineError>(e),
        },
        r matches Ok(o) ==> {
            &&& single_token(url@)
            &&& url_chapter(url@) == Some(o.chapter as nat)
            &&& 1 <= o.chapter <= o.max_chapters
        },
{
    let chapter = match parse_chapter_url(url) {
        Ok((_, c)) => c,
        Err(e) => {
            return Err(e);
        },
    };
    let max_chapters = match index_max_chapters(index_html) {
        Ok(m) => m,
        Err(e) => {
            return Err(e);
        },
    };
    if chapter > max_chapters {
        return Err(EngineError::Validation(InputProblem::OutOfRange));
    }
    match parse_chapter_page(page_html) {
        Ok((name, chapter_title, content)) => Ok(
            Output { name, chapter_title, content, chapter, max_chapters },
        ),
        Err(e) => Err(e),
    }
}

/// Refuses a chapter address where a series index address is wanted, before
/// anything is fetched.
pub fn check_index_url(url: &str) -> (r: Result<(), EngineError>)
    ensures
        find_spec(url@, marker()) is Some ==> r == Err::<(), EngineError>(
            EngineError::Validation(InputProblem::NotAnIndexUrl),
        ),
        find_spec(url@, marker()) is None ==> r is Ok,
{
    if find(url, marker_str()).is_some() {
        Err(EngineError::Validation(InputProblem::NotAnIndexUrl))
    } else {
        Ok(())
    }
}

/// Whether the series whose index address is `url` has chapters past
/// `last_chapter`, judged from its index page `index_html`. A chapter
/// address is refused.
pub fn update_check(url: &str, last_chapter: usize, index_html: &str) -> (r: Result<
    bool,
    EngineError,
>)
    ensures
        find_spec(url@, marker()) is Some ==> r == Err::<bool, EngineError>(
            EngineError::Validation(InputProblem::NotAnIndexUrl),
        ),
        find_spec(url@, marker()) is None ==> r == match index_chapters(index_html@) {
            Ok(m) => Ok::<bool, EngineError>(m > last_chapter),
            Err(e) => Err(e),
        },
{
    match check_index_url(url) {
        Err(e) => Err(e),
        Ok(()) => match index_max_chapters(index_html) {
            Ok(m) => Ok(m > last_chapter),
            Err(e) => Err(e),
        },
    }
}

/// The outcome of checking a batch of tracked titles for new chapters.
#[derive(Debug)]
pub struct UpdateReport {
    /// The titles with chapters past their last chapter, in input order.
    pub updated: Vec<LN>,
    /// The titles whose check failed, with the failure, in input order.
    pub failed: Vec<(LN, EngineError)>,
}

/// The first `n` entries that have chapters past their last one.
pub open spec fn updated_upto(
    entries: Seq<LN>,
    live: Seq<Result<usize, EngineError>>,
    n: nat,
) -> Seq<LN>
    decreases n,
{
    if n == 0 {
        Seq::empty()
    } else {
        let prev = updated_upto(entries, live, (n - 1) as nat);
        let i = n - 1;
        if live[i] is Ok && live[i]->Ok_0 > entries[i].last_chapter {
            prev.push(entries[i])
        } else {
            prev
        }
    }
}

/// The first `n` entries whose check failed, each with its failure.
pub open spec fn failed_upto(
    entries: Seq<LN>,
    live: Seq<Result<usize, EngineError>>,
    n: nat,
) -> Seq<(LN, EngineError)>
    decreases n,
{
    if n == 0 {
        Seq::empty()
    } else {
        let prev = failed_upto(entries, live, (n - 1) as nat);
        let i = n - 1;
        match live[i] {
            Err(e) => prev.push((entries[i], e)),
            Ok(_) => prev,
        }
    }
}

/// Sorts a batch of tracked titles by the live chapter counts found for
/// them (`live[i]` for `entries[i]`): a title is updated when its count
/// exceeds its last chapter, and each failure is kept with its title; one
/// failure never hides another title's outcome.
pub fn check_updates(entries: &Vec<LN>, live: &Vec<Result<usize, EngineError>>) -> (r:
    UpdateReport)
    requires
        entries@.len() == live@.len(),
    ensures
        r.updated@ == updated_upto(entries@, live@, entries@.len()),
        r.failed@ == failed_upto(entries@, live@, entries@.len()),
{
    let n = entries.len();
    let mut updated: Vec<LN> = Vec::new();
    let mut failed: Vec<(LN, EngineError)> = Vec::new();
    let mut i: usize = 0;
    while i < n
        invariant
            n == entries@.len(),
            n == live@.len(),
            i <= n,
            updated@ == updated_upto(entries@, live@, i as nat),
            failed@ == failed_upto(entries@, live@, i as nat),
        decreases n - i,
    {
        match live[i] {
            Ok(m) => {
                if m > entries[i].last_chapter {
                    updated.push(entries[i].duplicate());
                }
            },
            Err(e) => {
                failed.push((entries[i].duplicate(), e));
            },
        }
        i = i + 1;
    }
    UpdateReport { updated, failed }
}

/// The serialisation of an address as the URL standard parses it.
pub uninterp spec fn url_parse(s: Seq<char>) -> Option<Seq<char>>;

/// Relies on `url::Url::parse`: the parsed address written out, or `None`
/// where it does not parse.
#[verifier::external_body]
pub(crate) fn parse_url(s: &str) -> (r: Option<String>)
    ensures
        match r {
            Some(u) => url_parse(s@) == Some(u@),
            None => url_parse(s@) is None,
        },
{
    url::Url::parse(s).ok().map(String::from)
}


/// A query, as searched for.
#[derive(Debug)]
pub struct Search {
    pub query: String,
    /// Each hit as its address and its label.
    pub results: Vec<(String, String)>,
}

pub open spec fn pairs_view(s: Seq<(String, String)>) -> Seq<(Seq<char>, Seq<char>)> {
    s.map_values(|p: (String, String)| (p.0@, p.1@))
}

/// The hits of the first `n` result rows, each a title and the link, if
/// any, that it carried: rows without a link, or whose link does not make an
/// address, are passed over.
pub open spec fn hits_upto(rows: Seq<(Seq<char>, Option<Seq<char>>)>, n: nat) -> Seq<
    (Seq<char>, Seq<char>),
>
    decreases n,
{
    if n == 0 {
        Seq::empty()
    } else {
        let prev = hits_upto(rows, (n - 1) as nat);
        let (title, href) = rows[n - 1];
        match href {
            Some(h) => match url_parse(SITE_ROOT@ + h) {
                Some(u) => prev.push((u, title)),
                None => prev,
            },
            None => prev,
        }
    }
}

/// The hits among result rows (title, link).
pub fn search_hits(rows: &Vec<(String, Option<String>)>) -> (r: Vec<(String, String)>)
    ensures
        pairs_view(r@) == hits_upto(rows_view(rows@), rows@.len()),
{
    let n = rows.len();
    let mut out: Vec<(String, String)> = Vec::new();
    let mut i: usize = 0;
    while i < n
        invariant
            n == rows@.len(),
            i <= n,
            pairs_view(out@) == hits_upto(rows_view(rows@), i as nat),
        decreases n - i,
    {
        let (title, href) = &rows[i];
        assert(rows_view(rows@)[i as int] == (title@, option_view(*href)));
        match href {
            Some(h) => {
                let mut address = String::from_str(SITE_ROOT);
                address.append(h.as_str());
                match parse_url(address.as_str()) {
                    Some(u) => {
                        let ghost before = out@;
                        out.push((u, title.clone()));
                        assert(pairs_view(out@) =~= pairs_view(before).push((u@, title@)));
                    },
                    None => {},
                }
            },
            None => {},
        }
        i = i + 1;
    }
    out
}

/// What a search results page yields: its rows' hits, in order.
pub open spec fn search_spec(html: Seq<char>) -> Option<Seq<(Seq<char>, Seq<char>)>> {
    match result_rows(
        html,
        RESULT_ROW_SELECTOR@,
        RESULT_TITLE_SELECTOR@,
        RESULT_LINK_SELECTOR@,
        LINK_ATTRIBUTE@,
    ) {
        Some(rows) => Some(hits_upto(rows, rows.len())),
        None => None,
    }
}

/// The hits on a search results page for `query`.
pub fn search(html: &str, query: &str) -> (r: Result<Search, EngineError>)
    ensures
        match search_spec(html@) {
            Some(hits) => r matches Ok(s) && s.query@ == query@ && pairs_view(s.results@)
                == hits,
            None => r == Err::<Search, EngineError>(EngineError::Parse(PagePart::Document)),
        },
{
    let rows = match select_rows(
        html,
        RESULT_ROW_SELECTOR,
        RESULT_TITLE_SELECTOR,
        RESULT_LINK_SELECTOR,
        LINK_ATTRIBUTE,
    ) {
        Some(rows) => rows,
        None => {
            return Err(EngineError::Parse(PagePart::Document));
        },
    };
    let results = search_hits(&rows);
    Ok(Search { query: String::from_str(query), results })
}

/// The series title on a series index page: the text of the first title
/// element, empty where there is none.
pub open spec fn name_spec(html: Seq<char>) -> Result<Seq<char>, EngineError> {
    match selected_texts(html, NAME_SELECTOR@) {
        Some(t) => Ok(if t.len() > 0 { t[0] } else { Seq::empty() }),
        None => Err(EngineError::Parse(PagePart::Document)),
    }
}

/// The series title on a series index page.
pub fn get_name(html: &str) -> (r: Result<String, EngineError>)
    ensures
        crate::navigate::view_result(r) == name_spec(html@),
{
    match select_texts(html, NAME_SELECTOR) {
        Some(t) => {
            if t.len() > 0 {
                Ok(t[0].clone())
            } else {
                Ok(String::new())
            }
        },
        None => Err(EngineError::Parse(PagePart::Document)),
    }
}

/// Why a search query is refused, or the query to send: `text` is taken
/// without its surrounding white space, and needs three characters.
pub open spec fn query_spec(text: Seq<char>) -> Result<Seq<char>, EngineError> {
    let t = trimmed(text);
    if t.len() == 0 {
        Err(EngineError::Validation(InputProblem::Empty))
    } else if t.len() < 3 {
        Err(EngineError::Validation(InputProblem::QueryTooShort))
    } else {
        Ok(t)
    }
}

/// The query to search for, from what was entered.
pub fn validate_query(text: &str) -> (r: Result<String, EngineError>)
    ensures
        crate::navigate::view_result(r) == query_spec(text@),
{
    let t = trim(text);
    let n = t.unicode_len();
    if n == 0 {
        Err(EngineError::Validation(InputProblem::Empty))
    } else if n < 3 {
        Err(EngineError::Validation(InputProblem::QueryTooShort))
    } else {
        Ok(String::from_str(t))
    }
}

} // verus!
