//! Term processors: what a token becomes before it is counted.
use vstd::prelude::*;
use crate::text::{
    char_is_lowercase, char_is_uppercase, chars_of, has_lowercase, has_uppercase, is_lowercase,
    is_uppercase, to_lowercase, to_uppercase, unicode_lowercase, unicode_uppercase,
};

verus! {

/// Turns a token into the term under which it is counted.
pub trait TermProcessor {
    /// The term that `process` makes of a token.
    spec fn spec_process(&self, s: Seq<char>) -> Seq<char>;

    fn process(&self, s: &str) -> (r: String)
        ensures
            r@ == self.spec_process(s@),
    ;
}

/// What `waken_snowball::stem` returns for `Algorithm::English` and a word.
pub uninterp spec fn snowball_english_stem(word: Seq<char>) -> Seq<char>;

/// Calls `waken_snowball::stem` with the English Snowball algorithm; the
/// stem is named, not described.
#[verifier::external_body]
fn english_stem(word: &str) -> (r: String)
    ensures
        r@ == snowball_english_stem(word@),
{
    waken_snowball::stem(waken_snowball::Algorithm::English, word).into_owned()
}

fn any_uppercase(s: &str) -> (r: bool)
    ensures
        r == has_uppercase(s@),
{
    let cs = chars_of(s);
    let mut i: usize = 0;
    while i < cs.len()
        invariant
            cs@ == s@,
            i <= cs.len(),
            forall|j: int| 0 <= j < i ==> !char_is_uppercase(#[trigger] cs@[j]),
        decreases cs.len() - i,
    {
        if is_uppercase(cs[i]) {
            return true;
        }
        i = i + 1;
    }
    false
}

fn any_lowercase(s: &str) -> (r: bool)
    ensures
        r == has_lowercase(s@),
{
    let cs = chars_of(s);
    let mut i: usize = 0;
    while i < cs.len()
        invariant
            cs@ == s@,
            i <= cs.len(),
            forall|j: int| 0 <= j < i ==> !char_is_lowercase(#[trigger] cs@[j]),
        decreases cs.len() - i,
    {
        if is_lowercase(cs[i]) {
            return true;
        }
        i = i + 1;
    }
    false
}

/// Keeps tokens as they are.
pub struct Raw;

/// Lowercases tokens that hold an uppercase character.
pub struct Lowercase;

/// Uppercases tokens that hold a lowercase character.
pub struct Uppercase;

/// Stems tokens with the English Snowball stemmer. Every token is
/// lowercased first, as the stemmer cannot handle uppercase words.
pub struct Stemming;

impl Stemming {
    pub fn new() -> Self {
        Stemming
    }
}

impl TermProcessor for Raw {
    open spec fn spec_process(&self, s: Seq<char>) -> Seq<char> {
        s
    }

    fn process(&self, s: &str) -> (r: String) {
        s.to_owned()
    }
}

impl TermProcessor for Lowercase {
    open spec fn spec_process(&self, s: Seq<char>) -> Seq<char> {
        if has_uppercase(s) {
            unicode_lowercase(s)
        } else {
            s
        }
    }

    fn process(&self, s: &str) -> (r: String) {
        if any_uppercase(s) {
            to_lowercase(s)
        } else {
            s.to_owned()
        }
    }
}

impl TermProcessor for Uppercase {
    open spec fn spec_process(&self, s: Seq<char>) -> Seq<char> {
        if has_lowercase(s) {
            unicode_uppercase(s)
        } else {
            s
        }
    }

    fn process(&self, s: &str) -> (r: String) {
        if any_lowercase(s) {
            to_uppercase(s)
        } else {
            s.to_owned()
        }
    }
}

impl TermProcessor for Stemming {
    open spec fn spec_process(&self, s: Seq<char>) -> Seq<char> {
        snowball_english_stem(unicode_lowercase(s))
    }

    fn process(&self, s: &str) -> (r: String) {
        let lc = to_lowercase(s);
        english_stem(lc.as_str())
    }
}

/// One of the term processors, chosen at run time.
pub enum Processor {
    Raw(Raw),
    Lowercase(Lowercase),
    Uppercase(Uppercase),
    Stemming(Stemming),
}

impl TermProcessor for Processor {
    open spec fn spec_process(&self, s: Seq<char>) -> Seq<char> {
        match self {
            Processor::Raw(p) => p.spec_process(s),
            Processor::Lowercase(p) => p.spec_process(s),
            Processor::Uppercase(p) => p.spec_process(s),
            Processor::Stemming(p) => p.spec_process(s),
        }
    }

    fn process(&self, s: &str) -> (r: String) {
        match self {
            Processor::Raw(p) => p.process(s),
            Processor::Lowercase(p) => p.process(s),
            Processor::Uppercase(p) => p.process(s),
            Processor::Stemming(p) => p.process(s),
        }
    }
}

/// The uppercase strategy makes every token that holds a lowercase
/// character into its Unicode uppercase form, and keeps the others.
pub proof fn law_uppercase_terms(s: Seq<char>)
    ensures
        has_lowercase(s) ==> Uppercase.spec_process(s) == unicode_uppercase(s),
        !has_lowercase(s) ==> Uppercase.spec_process(s) == s,
{
}

/// The lowercase strategy makes every token that holds an uppercase
/// character into its Unicode lowercase form, and keeps the others.
pub proof fn law_lowercase_terms(s: Seq<char>)
    ensures
        has_uppercase(s) ==> Lowercase.spec_process(s) == unicode_lowercase(s),
        !has_uppercase(s) ==> Lowercase.spec_process(s) == s,
{
}

/// The stemming strategy makes every token, whatever its case, into the
/// English Snowball stem of its Unicode lowercase form; tokens with the
/// same lowercase form get the same term.
pub proof fn law_stemming_terms(s: Seq<char>, u: Seq<char>)
    ensures
        Stemming.spec_process(s) == snowball_english_stem(unicode_lowercase(s)),
        unicode_lowercase(s) == unicode_lowercase(u) ==> Stemming.spec_process(s)
            == Stemming.spec_process(u),
{
}

} // verus!
