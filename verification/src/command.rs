//! The command line's choices and the web server's routing decisions.
use vstd::prelude::*;
use crate::index::term_processor::{Lowercase, Processor, Raw, Stemming, Uppercase};

verus! {

/// The term strategy to use for indexing and searching.
#[derive(Clone, Copy, Debug, PartialEq, Eq)]
pub enum TermStrategy {
    Raw,
    Lowercase,
    Uppercase,
    /// Convert term to lowercase for better matching, as the stemmer cannot
    /// handle uppercase words.
    Stemming,
}

impl TermStrategy {
    /// The term processor that carries out the strategy.
    pub fn processor(&self) -> (p: Processor)
        ensures
            match self {
                TermStrategy::Raw => p is Raw,
                TermStrategy::Lowercase => p is Lowercase,
                TermStrategy::Uppercase => p is Uppercase,
                TermStrategy::Stemming => p is Stemming,
            },
    {
        match self {
            TermStrategy::Raw => Processor::Raw(Raw),
            TermStrategy::Lowercase => Processor::Lowercase(Lowercase),
            TermStrategy::Uppercase => Processor::Uppercase(Uppercase),
            TermStrategy::Stemming => Processor::Stemming(Stemming::new()),
        }
    }
}

/// The command-line arguments.
pub struct Args {
    pub commands: Commands,
}

/// The commands of the program.
pub enum Commands {
    /// Index a directory of documents.
    Index { dir: String, recursive: bool, output: String, strategy: TermStrategy },
    /// Read an index from a JSON file.
    Read { path: String },
    /// Serve searches over an index.
    Serve { index_path: String, port: u16, strategy: TermStrategy },
}

/// The most results that one search answers with.
pub const MAX_RESULTS: usize = 30;

/// The request methods that routing tells apart.
#[derive(Clone, Copy, Debug, PartialEq, Eq)]
pub enum HttpMethod {
    Get,
    Post,
    Other,
}

/// What the server does with a request.
#[derive(Clone, Copy, Debug, PartialEq, Eq)]
pub enum Route {
    /// Run the search that the body holds.
    Search,
    /// Send the search page.
    IndexPage,
    /// Send the search page's script.
    IndexScript,
    /// Answer 404.
    NotFound,
}

pub open spec fn spec_route(method: HttpMethod, url: Seq<char>) -> Route {
    if method == HttpMethod::Post && url == "/api/search"@ {
        Route::Search
    } else if method == HttpMethod::Get && (url == "/"@ || url == "/index.html"@) {
        Route::IndexPage
    } else if method == HttpMethod::Get && url == "/index.js"@ {
        Route::IndexScript
    } else {
        Route::NotFound
    }
}

/// Routes a request by its method and URL: a POST to `/api/search`
/// searches, a GET of `/` or `/index.html` sends the page, a GET of
/// `/index.js` sends its script, and anything else is not found.
pub fn route(method: HttpMethod, url: &str) -> (r: Route)
    ensures
        r == spec_route(method, url@),
{
    let u = String::from_str(url);
    match method {
        HttpMethod::Post => {
            if u == String::from_str("/api/search") {
                Route::Search
            } else {
                Route::NotFound
            }
        },
        HttpMethod::Get => {
            if u == String::from_str("/") || u == String::from_str("/index.html") {
                Route::IndexPage
            } else if u == String::from_str("/index.js") {
                Route::IndexScript
            } else {
                Route::NotFound
            }
        },
        HttpMethod::Other => Route::NotFound,
    }
}

impl Route {
    /// The file that a route sends, if it sends one.
    pub fn static_file(&self) -> (r: Option<&'static str>)
        ensures
            match self {
                Route::IndexPage => r matches Some(f) && f@ == "static/index.html"@,
                Route::IndexScript => r matches Some(f) && f@ == "static/index.js"@,
                _ => r is None,
            },
    {
        match self {
            Route::IndexPage => Some("static/index.html"),
            Route::IndexScript => Some("static/index.js"),
            _ => None,
        }
    }
}

} // verus!
