//! The page that a reader is on, and navigation from it.
use vstd::prelude::*;

use crate::error::{EngineError, Edge, InputProblem};
use crate::navigate::{
    canonical_for, derive_chapter_url, derived_url, lemma_derive_round_trip, parsed_chapter_url,
    single_token, url_chapter, view_result,
};
use crate::scrape::Output;
use crate::text::{numeral_value, parse_decimal, trim, trimmed};

verus! {

/// A loaded chapter page.
#[derive(Debug, Clone)]
pub struct State {
    pub url: String,
    pub title: String,
    pub chapter: usize,
    pub max_chapters: usize,
    pub content: String,
}

/// Why a chapter choice was refused, or the chapter chosen: `text` is the
/// entry with surrounding white space already removed.
pub open spec fn choice_spec(text: Seq<char>, max_chapters: nat) -> Result<nat, EngineError> {
    if text.len() == 0 {
        Err(EngineError::Validation(InputProblem::Empty))
    } else {
        match numeral_value(text) {
            None => Err(EngineError::Validation(InputProblem::NotANumber)),
            Some(v) => if v > usize::MAX {
                Err(EngineError::Validation(InputProblem::NotANumber))
            } else if 1 <= v <= max_chapters {
                Ok(v)
            } else {
                Err(EngineError::Validation(InputProblem::OutOfRange))
            },
        }
    }
}

/// Reads a chapter choice out of `text` (already trimmed): empty, not a
/// number, and outside `1..=max_chapters` are told apart.
pub fn chapter_choice(text: &str, max_chapters: usize) -> (r: Result<usize, EngineError>)
    ensures
        match choice_spec(text@, max_chapters as nat) {
            Ok(v) => r == Ok::<usize, EngineError>(v as usize),
            Err(e) => r == Err::<usize, EngineError>(e),
        },
{
    if text.unicode_len() == 0 {
        return Err(EngineError::Validation(InputProblem::Empty));
    }
    match parse_decimal(text) {
        None => Err(EngineError::Validation(InputProblem::NotANumber)),
        Some(v) => {
            if 1 <= v && v <= max_chapters {
                Ok(v)
            } else {
                Err(EngineError::Validation(InputProblem::OutOfRange))
            }
        },
    }
}

impl State {
    /// The page is consistent: its chapter lies in `1..=max_chapters`, its
    /// address holds exactly one chapter token, and that token encodes the
    /// chapter.
    pub open spec fn wf(&self) -> bool {
        &&& 1 <= self.chapter <= self.max_chapters
        &&& single_token(self.url@)
        &&& url_chapter(self.url@) == Some(self.chapter as nat)
    }

    /// The page state for `url`, from what was extracted there.
    pub fn from_output(url: &str, output: Output) -> (r: State)
        ensures
            r.url@ == url@,
            r.title == output.chapter_title,
            r.chapter == output.chapter,
            r.max_chapters == output.max_chapters,
            r.content == output.content,
            parsed_chapter_url(url@) matches Ok((_, c)) && c == output.chapter as nat
                && output.chapter <= output.max_chapters ==> r.wf(),
    {
        let Output { chapter_title, content, chapter, max_chapters, .. } = output;
        State { url: String::from_str(url), title: chapter_title, chapter, max_chapters, content }
    }

    /// Where moving forward leads: a boundary error on the last chapter,
    /// else the next chapter's address.
    pub open spec fn next_spec(&self) -> Result<Seq<char>, EngineError> {
        if self.chapter >= self.max_chapters {
            Err(EngineError::Boundary(Edge::Last))
        } else {
            derived_url(self.url@, self.chapter as nat, (self.chapter + 1) as nat)
        }
    }

    /// Where moving back leads: a boundary error on the first chapter, else
    /// the previous chapter's address.
    pub open spec fn previous_spec(&self) -> Result<Seq<char>, EngineError> {
        if self.chapter <= 1 {
            Err(EngineError::Boundary(Edge::First))
        } else {
            derived_url(self.url@, self.chapter as nat, (self.chapter - 1) as nat)
        }
    }

    /// The address of the next chapter; a boundary error on the last one.
    /// The page is only read, and no address is produced at the boundary, so
    /// nothing is there to fetch and nothing changes.
    pub fn next_chapter(&self) -> (r: Result<String, EngineError>)
        ensures
            view_result(r) == self.next_spec(),
            self.chapter >= self.max_chapters ==> r == Err::<String, EngineError>(
                EngineError::Boundary(Edge::Last),
            ),
    {
        if self.chapter >= self.max_chapters {
            return Err(EngineError::Boundary(Edge::Last));
        }
        derive_chapter_url(self.url.as_str(), self.chapter, self.chapter + 1)
    }

    /// The address of the previous chapter; a boundary error on the first
    /// one. The page is only read, and no address is produced at the
    /// boundary, so nothing is there to fetch and nothing changes.
    pub fn previous_chapter(&self) -> (r: Result<String, EngineError>)
        ensures
            view_result(r) == self.previous_spec(),
            self.chapter <= 1 ==> r == Err::<String, EngineError>(
                EngineError::Boundary(Edge::First),
            ),
    {
        if self.chapter <= 1 {
            return Err(EngineError::Boundary(Edge::First));
        }
        derive_chapter_url(self.url.as_str(), self.chapter, self.chapter - 1)
    }

    /// The address of the chapter that `text` names, checked against
    /// `1..=max_chapters` first.
    pub fn select_chapter(&self, text: &str) -> (r: Result<String, EngineError>)
        ensures
            match choice_spec(trimmed(text@), self.max_chapters as nat) {
                Ok(v) => view_result(r) == derived_url(self.url@, self.chapter as nat, v),
                Err(e) => r == Err::<String, EngineError>(e),
            },
    {
        let chosen = chapter_choice(trim(text), self.max_chapters);
        match chosen {
            Ok(target) => derive_chapter_url(self.url.as_str(), self.chapter, target),
            Err(e) => Err(e),
        }
    }
}

/// At either end of a page's range, moving past it is a boundary error and
/// yields no address; inside the range, a well-formed page at a canonical
/// address moves to the neighbouring chapter's canonical address.
pub proof fn lemma_navigation_bounds(s: State)
    ensures
        s.chapter == 1 ==> s.previous_spec() == Err::<Seq<char>, EngineError>(
            EngineError::Boundary(Edge::First),
        ),
        s.chapter == s.max_chapters ==> s.next_spec() == Err::<Seq<char>, EngineError>(
            EngineError::Boundary(Edge::Last),
        ),
        s.wf() && canonical_for(s.url@, s.chapter as nat) && s.chapter < s.max_chapters
            ==> s.next_spec() is Ok && canonical_for(s.next_spec()->Ok_0, (s.chapter + 1) as nat),
        s.wf() && canonical_for(s.url@, s.chapter as nat) && s.chapter > 1 ==> s.previous_spec() is Ok
            && canonical_for(s.previous_spec()->Ok_0, (s.chapter - 1) as nat),
{
    if s.wf() && canonical_for(s.url@, s.chapter as nat) {
        if s.chapter < s.max_chapters {
            lemma_derive_round_trip(s.url@, s.chapter as nat, (s.chapter + 1) as nat);
        }
        if s.chapter > 1 {
            lemma_derive_round_trip(s.url@, s.chapter as nat, (s.chapter - 1) as nat);
        }
    }
}

} // verus!
