use lncli::error::{Edge, EngineError, InputProblem};
use lncli::navigate::{chapter_link_of, derive_chapter_url, index_url, parse_chapter_url};
use lncli::scrape::Output;
use lncli::state::{chapter_choice, State};

const URL_1: &str = "https://freewebnovel.com/novel/some-title/chapter-1.html";
const URL_10: &str = "https://freewebnovel.com/novel/some-title/chapter-10.html";

fn state(url: &str, chapter: usize, max_chapters: usize) -> State {
    State::from_output(
        url,
        Output {
            name: "Some Title".to_string(),
            chapter_title: "Start".to_string(),
            content: "Text\n\n".to_string(),
            chapter,
            max_chapters,
        },
    )
}

#[test]
fn derive_to_same_chapter_is_identity() {
    assert_eq!(derive_chapter_url(URL_1, 1, 1), Ok(URL_1.to_string()));
    assert_eq!(derive_chapter_url(URL_10, 10, 10), Ok(URL_10.to_string()));
}

#[test]
fn derive_round_trip_one_and_ten() {
    let there = derive_chapter_url(URL_1, 1, 10).unwrap();
    assert_eq!(there, URL_10);
    let back = derive_chapter_url(&there, 10, 1).unwrap();
    assert_eq!(back, URL_1);
}

#[test]
fn derive_does_not_match_inside_longer_ordinal() {
    // chapter 1 is not the ordinal of a chapter-10 address
    assert_eq!(
        derive_chapter_url(URL_10, 1, 2),
        Err(EngineError::Validation(InputProblem::ChapterMismatch))
    );
    assert_eq!(
        derive_chapter_url(URL_10, 10, 11),
        Ok("https://freewebnovel.com/novel/some-title/chapter-11.html".to_string())
    );
}

#[test]
fn derive_keeps_the_rest_of_the_address() {
    assert_eq!(
        derive_chapter_url("http://a.b/x/chapter-7.html?p=chapter-7", 7, 123),
        Ok("http://a.b/x/chapter-123.html?p=chapter-7".to_string())
    );
}

#[test]
fn derive_rejects_bad_input() {
    assert_eq!(
        derive_chapter_url("https://a.b/novel/x.html", 1, 2),
        Err(EngineError::Validation(InputProblem::NoChapterMarker))
    );
    assert_eq!(derive_chapter_url(URL_1, 1, 0), Err(EngineError::Boundary(Edge::First)));
}

#[test]
fn parse_chapter_url_reads_index_and_chapter() {
    assert_eq!(
        parse_chapter_url("https://freewebnovel.com/novel/x/chapter-42.html"),
        Ok(("https://freewebnovel.com/novel/x.html".to_string(), 42))
    );
    assert_eq!(
        parse_chapter_url("https://freewebnovel.com/novel/x.html"),
        Err(EngineError::Validation(InputProblem::NoChapterMarker))
    );
    assert_eq!(
        parse_chapter_url("https://freewebnovel.com/novel/x/chapter-abc.html"),
        Err(EngineError::Validation(InputProblem::NoChapterMarker))
    );
    assert_eq!(
        parse_chapter_url("https://freewebnovel.com/novel/x/chapter-+5.html"),
        Err(EngineError::Validation(InputProblem::NoChapterMarker))
    );
    assert_eq!(
        parse_chapter_url("https://freewebnovel.com/novel/x/chapter-0.html"),
        Err(EngineError::Validation(InputProblem::BadChapterNumber))
    );
    assert_eq!(
        parse_chapter_url("https://freewebnovel.com/novel/x/chapter-99999999999999999999999.html"),
        Err(EngineError::Validation(InputProblem::BadChapterNumber))
    );
}

#[test]
fn index_url_strips_the_chapter_part() {
    assert_eq!(index_url(URL_10), Some("https://freewebnovel.com/novel/some-title.html".to_string()));
    assert_eq!(index_url("https://freewebnovel.com/novel/x.html"), None);
}

#[test]
fn chapter_link_from_index_address() {
    assert_eq!(
        chapter_link_of("https://freewebnovel.com/novel/some-title.html", 10),
        Ok(URL_10.to_string())
    );
    assert_eq!(
        chapter_link_of(URL_10, 3),
        Err(EngineError::Validation(InputProblem::NotAnIndexUrl))
    );
    assert_eq!(
        chapter_link_of("https://freewebnovel.com/novel/some-title", 3),
        Err(EngineError::Validation(InputProblem::NotAnIndexUrl))
    );
    assert_eq!(
        chapter_link_of("https://freewebnovel.com/novel/some-title.html", 0),
        Err(EngineError::Boundary(Edge::First))
    );
}

#[test]
fn previous_at_first_chapter_is_boundary() {
    let s = state(URL_1, 1, 10);
    assert_eq!(s.previous_chapter(), Err(EngineError::Boundary(Edge::First)));
    assert_eq!(s.url, URL_1);
    assert_eq!(s.chapter, 1);
}

#[test]
fn next_at_last_chapter_is_boundary() {
    let s = state(URL_10, 10, 10);
    assert_eq!(s.next_chapter(), Err(EngineError::Boundary(Edge::Last)));
    assert_eq!(s.url, URL_10);
    assert_eq!(s.chapter, 10);
}

#[test]
fn next_and_previous_inside_range() {
    let s = state(URL_1, 1, 10);
    assert_eq!(
        s.next_chapter(),
        Ok("https://freewebnovel.com/novel/some-title/chapter-2.html".to_string())
    );
    let t = state(URL_10, 10, 12);
    assert_eq!(
        t.previous_chapter(),
        Ok("https://freewebnovel.com/novel/some-title/chapter-9.html".to_string())
    );
}

#[test]
fn select_chapter_distinguishes_failures() {
    let s = state(URL_1, 1, 10);
    assert_eq!(s.select_chapter("   "), Err(EngineError::Validation(InputProblem::Empty)));
    assert_eq!(s.select_chapter("abc"), Err(EngineError::Validation(InputProblem::NotANumber)));
    assert_eq!(s.select_chapter("11"), Err(EngineError::Validation(InputProblem::OutOfRange)));
    assert_eq!(s.select_chapter("0"), Err(EngineError::Validation(InputProblem::OutOfRange)));
    assert_eq!(s.select_chapter(" 10 "), Ok(URL_10.to_string()));
}

#[test]
fn chapter_choice_reads_numbers() {
    assert_eq!(chapter_choice("+7", 10), Ok(7));
    assert_eq!(chapter_choice("", 10), Err(EngineError::Validation(InputProblem::Empty)));
    assert_eq!(chapter_choice("7x", 10), Err(EngineError::Validation(InputProblem::NotANumber)));
}

#[test]
fn chapter_link_reads_back() {
    let index = "https://freewebnovel.com/novel/some-title.html";
    let link = chapter_link_of(index, 87).unwrap();
    assert_eq!(parse_chapter_url(&link), Ok((index.to_string(), 87)));
}

#[test]
fn earlier_chapter_segment_belongs_to_prefix() {
    let url = "https://freewebnovel.com/chapter-10-tales/chapter-1.html";
    assert_eq!(
        derive_chapter_url(url, 1, 2),
        Ok("https://freewebnovel.com/chapter-10-tales/chapter-2.html".to_string())
    );
    assert_eq!(derive_chapter_url("/chapter-a/chapter-1.html", 1, 1), Ok("/chapter-a/chapter-1.html".to_string()));
    assert_eq!(
        parse_chapter_url("https://a.b/chapter-5.html/x/chapter-12.html"),
        Err(EngineError::Validation(InputProblem::RepeatedChapterMarker))
    );
    let s = state(url, 1, 5);
    assert_eq!(
        s.select_chapter("2"),
        Ok("https://freewebnovel.com/chapter-10-tales/chapter-2.html".to_string())
    );
}

#[test]
fn repeated_chapter_token_is_refused() {
    assert_eq!(
        parse_chapter_url("https://freewebnovel.com/novel/x/chapter-3.html?/chapter-3.html"),
        Err(EngineError::Validation(InputProblem::RepeatedChapterMarker))
    );
}
