//! A single-page reader: an address, and the title and lines of the page
//! last loaded from it.
use vstd::prelude::*;

use crate::error::{EngineError, InputProblem};
use crate::scrape::{parse_url, url_parse};

verus! {

/// Whether the reader's page has been loaded.
#[derive(Debug)]
pub enum Loaded {
    Yes,
    /// Loading failed, for the reason given.
    No(String),
    Never,
}

#[derive(Debug)]
pub struct App {
    loaded: Loaded,
    title: Option<String>,
    raw_lines: Vec<String>,
    url: Option<String>,
}

impl App {
    pub closed spec fn url_spec(&self) -> Option<Seq<char>> {
        match self.url {
            Some(u) => Some(u@),
            None => None,
        }
    }

    pub closed spec fn title_spec(&self) -> Option<String> {
        self.title
    }

    pub closed spec fn lines_spec(&self) -> Seq<String> {
        self.raw_lines@
    }

    pub closed spec fn loaded_spec(&self) -> Loaded {
        self.loaded
    }

    /// A reader with no address and nothing loaded.
    pub fn new() -> (r: App)
        ensures
            r.url_spec() is None,
            r.title_spec() is None,
            r.lines_spec() == Seq::<String>::empty(),
            r.loaded_spec() is Never,
    {
        App { loaded: Loaded::Never, title: None, raw_lines: Vec::new(), url: None }
    }

    /// The reader with its address set to `url`, written as the URL standard
    /// parses it; an error where `url` is not an address.
    pub fn with_url(self, url: &str) -> (r: Result<App, EngineError>)
        ensures
            match url_parse(url@) {
                Some(u) => r matches Ok(a) && a.url_spec() == Some(u) && a.title_spec()
                    == self.title_spec() && a.lines_spec() == self.lines_spec()
                    && a.loaded_spec() == self.loaded_spec(),
                None => r == Err::<App, EngineError>(
                    EngineError::Validation(InputProblem::InvalidUrl),
                ),
            },
    {
        match parse_url(url) {
            Some(u) => {
                let App { loaded, title, raw_lines, .. } = self;
                Ok(App { loaded, title, raw_lines, url: Some(u) })
            },
            None => Err(EngineError::Validation(InputProblem::InvalidUrl)),
        }
    }

    /// Takes in the page fetched from the reader's address: its title and
    /// its lines. Without an address nothing is taken and loading fails.
    pub fn load(&mut self, title: String, lines: Vec<String>) -> (r: Result<(), EngineError>)
        ensures
            old(self).url_spec() is None ==> {
                &&& r == Err::<(), EngineError>(EngineError::Validation(InputProblem::InvalidUrl))
                &&& final(self).loaded_spec() is No
                &&& final(self).title_spec() == old(self).title_spec()
                &&& final(self).lines_spec() == old(self).lines_spec()
            },
            old(self).url_spec() is Some ==> {
                &&& r is Ok
                &&& final(self).loaded_spec() is Yes
                &&& final(self).title_spec() == Some(title)
                &&& final(self).lines_spec() == lines@
            },
            final(self).url_spec() == old(self).url_spec(),
    {
        if self.url.is_none() {
            self.loaded = Loaded::No(String::from_str("URL is not set"));
            return Err(EngineError::Validation(InputProblem::InvalidUrl));
        }
        self.raw_lines = lines;
        self.title = Some(title);
        self.loaded = Loaded::Yes;
        Ok(())
    }

    pub fn get_title(&self) -> (r: Option<&String>)
        ensures
            match self.title_spec() {
                Some(t) => r == Some(&t),
                None => r is None,
            },
    {
        self.title.as_ref()
    }

    pub fn get_lines(&self) -> (r: &[String])
        ensures
            r@ == self.lines_spec(),
    {
        self.raw_lines.as_slice()
    }

    pub fn get_url(&self) -> (r: Option<&String>)
        ensures
            match self.url_spec() {
                Some(u) => r matches Some(s) && s@ == u,
                None => r is None,
            },
    {
        self.url.as_ref()
    }
}

} // verus!
