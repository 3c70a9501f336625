use lncli::data::LN;
use lncli::error::{check_status, EngineError, InputProblem, PagePart};
use lncli::reader::App;
use lncli::scrape::{
    chapter_from_capture, check_index_url, check_updates, get_name, index_max_chapters, join_paragraphs, load,
    max_chapter_from_link, parse_chapter_page, search, search_hits, subtitle_from_text,
    update_check, validate_query,
};
use lncli::text::{parse_decimal, push_decimal, starts_with, trim};

fn index_page(link: &str) -> String {
    format!(
        "<html><body><div class=\"main\"><div><div><div class=\"col-content\">\
         <div class=\"m-newest1\"><ul><li><a href=\"{}\">Latest</a></li>\
         <li><a href=\"/novel/x/chapter-2.html\">Older</a></li></ul></div>\
         </div></div></div></div><h1 class=\"tit\">Some Title</h1></body></html>",
        link
    )
}

const CHAPTER_PAGE: &str = "<html><body><div id=\"main1\"><div><div>\
    <div class=\"top\"><h1><a>Some Title</a></h1><span>3 - The Storm</span></div>\
    <div class=\"txt\"><p>First line.</p><p>   </p><p>Second line.</p></div>\
    </div></div></div></body></html>";

fn entry(name: &str, last_chapter: usize) -> LN {
    LN {
        name: name.to_string(),
        url: format!("https://freewebnovel.com/novel/{}.html", name),
        last_chapter,
    }
}

#[test]
fn index_page_gives_max_chapters() {
    let html = index_page("https://freewebnovel.com/novel/x/chapter-87.html");
    assert_eq!(index_max_chapters(&html), Ok(87));
}

#[test]
fn index_page_without_listing_is_parse_error() {
    let html = "<html><body><p>nothing here</p></body></html>";
    assert_eq!(
        index_max_chapters(html),
        Err(EngineError::Parse(PagePart::LatestChapterLink))
    );
    let bad = index_page("/novel/x/latest");
    assert_eq!(index_max_chapters(&bad), Err(EngineError::Parse(PagePart::LatestChapterLink)));
}

#[test]
fn chapter_number_from_link() {
    assert_eq!(max_chapter_from_link("/novel/x/chapter-123.html"), Ok(123));
    assert_eq!(
        max_chapter_from_link("/novel/x/chapter-.html"),
        Err(EngineError::Parse(PagePart::LatestChapterLink))
    );
    assert_eq!(chapter_from_capture(Some(" 12 ")), Ok(12));
    assert_eq!(
        chapter_from_capture(Some("99999999999999999999999")),
        Err(EngineError::Parse(PagePart::ChapterCount))
    );
    assert_eq!(chapter_from_capture(None), Err(EngineError::Parse(PagePart::LatestChapterLink)));
}

#[test]
fn subtitle_drops_number_prefix() {
    assert_eq!(subtitle_from_text("12 - A New Day"), "A New Day");
    assert_eq!(subtitle_from_text("Prologue"), "Prologue");
    assert_eq!(subtitle_from_text("Re-Birth"), "Re-Birth");
    assert_eq!(subtitle_from_text("Chapter 3 - Storm"), "Chapter 3 - Storm");
    assert_eq!(subtitle_from_text("7 -  Spaced  "), "Spaced");
}

#[test]
fn paragraphs_join_skipping_blank_ones() {
    let ps = vec!["One".to_string(), "  \t ".to_string(), "".to_string(), "Two".to_string()];
    assert_eq!(join_paragraphs(&ps), "One\n\nTwo\n\n");
    assert_eq!(join_paragraphs(&vec![]), "");
}

#[test]
fn chapter_page_parts() {
    let (name, subtitle, content) = parse_chapter_page(CHAPTER_PAGE).unwrap();
    assert_eq!(name, "Some Title");
    assert_eq!(subtitle, "The Storm");
    assert_eq!(content, "First line.\n\nSecond line.\n\n");
    assert_eq!(
        parse_chapter_page("<html><body><p>x</p></body></html>"),
        Err(EngineError::Parse(PagePart::Title))
    );
    let no_text = "<html><body><div id=\"main1\"><div><div>\
        <div class=\"top\"><h1><a>T</a></h1><span>S</span></div></div></div></div></body></html>";
    assert_eq!(parse_chapter_page(no_text), Err(EngineError::Parse(PagePart::Content)));
}

#[test]
fn load_assembles_output() {
    let url = "https://freewebnovel.com/novel/x/chapter-3.html";
    let index = index_page("https://freewebnovel.com/novel/x/chapter-87.html");
    let out = load(url, &index, CHAPTER_PAGE).unwrap();
    assert_eq!(out.name, "Some Title");
    assert_eq!(out.chapter_title, "The Storm");
    assert_eq!(out.chapter, 3);
    assert_eq!(out.max_chapters, 87);
    assert_eq!(
        load("https://freewebnovel.com/novel/x.html", &index, CHAPTER_PAGE).unwrap_err(),
        EngineError::Validation(InputProblem::NoChapterMarker)
    );
    assert_eq!(
        load("https://freewebnovel.com/novel/x/chapter-3.html?/chapter-3.html", &index, CHAPTER_PAGE)
            .unwrap_err(),
        EngineError::Validation(InputProblem::RepeatedChapterMarker)
    );
    assert_eq!(
        load("https://freewebnovel.com/novel/x/chapter-90.html", &index, CHAPTER_PAGE)
            .unwrap_err(),
        EngineError::Validation(InputProblem::OutOfRange)
    );
}

#[test]
fn update_check_compares_counts() {
    let ten = index_page("/novel/x/chapter-10.html");
    let eleven = index_page("/novel/x/chapter-11.html");
    let url = "https://freewebnovel.com/novel/x.html";
    assert_eq!(update_check(url, 10, &ten), Ok(false));
    assert_eq!(update_check(url, 10, &eleven), Ok(true));
    assert_eq!(
        update_check("https://freewebnovel.com/novel/x/chapter-1.html", 10, &ten),
        Err(EngineError::Validation(InputProblem::NotAnIndexUrl))
    );
    assert_eq!(
        check_index_url("https://freewebnovel.com/novel/x/chapter-1.html"),
        Err(EngineError::Validation(InputProblem::NotAnIndexUrl))
    );
    assert_eq!(check_index_url(url), Ok(()));
    let no_link = "<html><body><p>nothing</p></body></html>";
    assert_eq!(
        update_check(url, 10, no_link),
        Err(EngineError::Parse(PagePart::LatestChapterLink))
    );
}

#[test]
fn check_updates_equal_and_greater() {
    let entries = vec![entry("same", 10), entry("newer", 10), entry("broken", 4)];
    let live = vec![Ok(10), Ok(11), Err(EngineError::Network(Some(404)))];
    let report = check_updates(&entries, &live);
    assert_eq!(report.updated, vec![entry("newer", 10)]);
    assert_eq!(report.failed, vec![(entry("broken", 4), EngineError::Network(Some(404)))]);
}

#[test]
fn check_updates_keeps_every_failure() {
    let entries = vec![entry("a", 1), entry("b", 1), entry("c", 1)];
    let live = vec![
        Err(EngineError::Network(None)),
        Ok(5),
        Err(EngineError::Parse(PagePart::Document)),
    ];
    let report = check_updates(&entries, &live);
    assert_eq!(report.updated, vec![entry("b", 1)]);
    assert_eq!(report.failed.len(), 2);
    assert_eq!(report.failed[0].0, entry("a", 1));
    assert_eq!(report.failed[1].0, entry("c", 1));
}

#[test]
fn search_hits_skip_rows_without_links() {
    let rows = vec![
        ("First".to_string(), Some("/novel/first.html".to_string())),
        ("Broken".to_string(), None),
        ("Spaced".to_string(), Some("/novel/a b.html".to_string())),
    ];
    assert_eq!(
        search_hits(&rows),
        vec![
            ("https://freewebnovel.com/novel/first.html".to_string(), "First".to_string()),
            ("https://freewebnovel.com/novel/a%20b.html".to_string(), "Spaced".to_string()),
        ]
    );
}

#[test]
fn search_page_rows() {
    let html = "<html><body>\
        <div class=\"li-row\"><div><h3 class=\"tit\"><a href=\"/novel/one.html\">One</a></h3></div></div>\
        <div class=\"li-row\"><div><h3 class=\"tit\">No link</h3></div></div>\
        </body></html>";
    let s = search(html, "one").unwrap();
    assert_eq!(s.query, "one");
    assert_eq!(
        s.results,
        vec![("https://freewebnovel.com/novel/one.html".to_string(), "One".to_string())]
    );
}

#[test]
fn name_from_index_page() {
    let html = index_page("/novel/x/chapter-1.html");
    assert_eq!(get_name(&html), Ok("Some Title".to_string()));
}

#[test]
fn query_validation() {
    assert_eq!(validate_query("  fate  "), Ok("fate".to_string()));
    assert_eq!(validate_query("   "), Err(EngineError::Validation(InputProblem::Empty)));
    assert_eq!(validate_query(" ab "), Err(EngineError::Validation(InputProblem::QueryTooShort)));
}

#[test]
fn status_codes() {
    assert_eq!(check_status(200, "body".to_string()), Ok("body".to_string()));
    assert_eq!(check_status(404, "x".to_string()), Err(EngineError::Network(Some(404))));
    assert_eq!(check_status(301, "x".to_string()), Err(EngineError::Network(Some(301))));
}

#[test]
fn decimal_text() {
    assert_eq!(parse_decimal("0042"), Some(42));
    assert_eq!(parse_decimal("+5"), Some(5));
    assert_eq!(parse_decimal("-5"), None);
    assert_eq!(parse_decimal(""), None);
    assert_eq!(parse_decimal("18446744073709551615"), Some(usize::MAX));
    assert_eq!(parse_decimal("18446744073709551616"), None);
    let mut s = "n=".to_string();
    push_decimal(&mut s, 907);
    assert_eq!(s, "n=907");
    assert!(starts_with("chapter-1", "chap"));
    assert!(!starts_with("ch", "chap"));
}

#[test]
fn reader_address_and_load() {
    let app = App::new();
    assert!(app.get_url().is_none());
    let mut app = app.with_url("https://freewebnovel.com/novel/x.html").unwrap();
    assert_eq!(app.get_url().map(|s| s.as_str()), Some("https://freewebnovel.com/novel/x.html"));
    app.load("Title".to_string(), vec!["a".to_string(), "b".to_string()]).unwrap();
    assert_eq!(app.get_title().map(|s| s.as_str()), Some("Title"));
    assert_eq!(app.get_lines().len(), 2);
    assert!(App::new().with_url("not a url").is_err());
    let mut bare = App::new();
    assert_eq!(
        bare.load("T".to_string(), vec![]),
        Err(EngineError::Validation(InputProblem::InvalidUrl))
    );
}

#[test]
fn trim_matches_unicode_white_space() {
    assert_eq!(trim("\u{3000} x y\u{a0}\n"), "x y");
    for sample in ["", "   ", "\t a \r\n", "\u{2009}b\u{205f}", "\u{200b}c", "d\u{85}"] {
        assert_eq!(trim(sample), sample.trim());
    }
}
