//! The failures that the engine reports, by kind.
use vstd::prelude::*;

verus! {

/// Which piece of expected page structure was missing.
#[derive(Clone, Copy, Debug, PartialEq, Eq, Structural)]
pub enum PagePart {
    /// The document could not be read as markup at all.
    Document,
    /// The first entry of the index page's "latest chapters" listing.
    LatestChapterLink,
    /// The chapter number in that entry's link.
    ChapterCount,
    /// The series title on a chapter page.
    Title,
    /// The chapter subtitle on a chapter page.
    Subtitle,
    /// The container of the chapter's paragraphs.
    Content,
}

/// What was wrong with an input or an address.
#[derive(Clone, Copy, Debug, PartialEq, Eq, Structural)]
pub enum InputProblem {
    /// Nothing was entered.
    Empty,
    /// The text is not a decimal number.
    NotANumber,
    /// The number lies outside `1..=max`.
    OutOfRange,
    /// A chapter address lacks the `/chapter-<n>.html` part.
    NoChapterMarker,
    /// A chapter address holds more than one chapter token.
    RepeatedChapterMarker,
    /// The ordinal in a chapter address is not a positive number that fits.
    BadChapterNumber,
    /// The ordinal in the address is not the chapter that was claimed.
    ChapterMismatch,
    /// A series index address was expected, and a chapter address was given.
    NotAnIndexUrl,
    /// A search query shorter than three characters.
    QueryTooShort,
    /// The text is not an address.
    InvalidUrl,
}

/// The end of the chapter range that navigation ran into.
#[derive(Clone, Copy, Debug, PartialEq, Eq, Structural)]
pub enum Edge {
    First,
    Last,
}

#[derive(Clone, Copy, Debug, PartialEq, Eq, Structural)]
pub enum EngineError {
    /// A transport failure (`None`) or a non-success status code.
    Network(Option<u16>),
    /// Expected page structure or pattern not found.
    Parse(PagePart),
    /// Malformed or out-of-range input, or a malformed address.
    Validation(InputProblem),
    /// Navigation past the first or the last chapter.
    Boundary(Edge),
    /// No store file exists yet.
    StoreNotFound,
    /// A store file exists and cannot be read as a store.
    StoreCorrupt,
}

/// Classifies a fetched response: a status in `200..=299` hands the body on,
/// any other status is a network error that carries the code.
pub fn check_status(status: u16, body: String) -> (r: Result<String, EngineError>)
    ensures
        200 <= status <= 299 ==> r == Ok::<String, EngineError>(body),
        !(200 <= status <= 299) ==> r == Err::<String, EngineError>(
            EngineError::Network(Some(status)),
        ),
{
    if 200 <= status && status <= 299 {
        Ok(body)
    } else {
        Err(EngineError::Network(Some(status)))
    }
}

} // verus!
