//! Splits text into terms: runs of numeric characters, runs of
//! alphanumeric characters that start with a letter, and single other
//! characters, with ASCII whitespace between them skipped.
use vstd::prelude::*;
use vstd::slice::slice_subrange;
use crate::text::{
    char_is_alphabetic, char_is_alphanumeric, char_is_numeric, chars_of, is_alphabetic,
    is_alphanumeric, is_ascii_whitespace, is_ascii_ws, is_numeric, string_from_chars,
};

verus! {

/// The character classes whose runs the lexer consumes.
#[derive(Clone, Copy, Debug, PartialEq, Eq)]
pub enum CharClass {
    Whitespace,
    Numeric,
    Alphanumeric,
}

pub open spec fn in_class(c: char, k: CharClass) -> bool {
    match k {
        CharClass::Whitespace => is_ascii_ws(c),
        CharClass::Numeric => char_is_numeric(c),
        CharClass::Alphanumeric => char_is_alphanumeric(c),
    }
}

/// Length of the longest prefix of `s` whose characters all lie in `k`.
pub open spec fn span(s: Seq<char>, k: CharClass) -> nat
    decreases s.len(),
{
    if s.len() > 0 && in_class(s[0], k) {
        1 + span(s.drop_first(), k)
    } else {
        0
    }
}

/// Length of the token at the front of `t` (which starts at a
/// non-whitespace character): a numeric run, an alphanumeric run that
/// starts with a letter, or one character.
pub open spec fn token_len(t: Seq<char>) -> nat {
    if t.len() == 0 {
        0
    } else if char_is_numeric(t[0]) {
        span(t, CharClass::Numeric)
    } else if char_is_alphabetic(t[0]) {
        span(t, CharClass::Alphanumeric)
    } else {
        1
    }
}

/// The tokens of `s`, in order.
pub open spec fn lex(s: Seq<char>) -> Seq<Seq<char>>
    decreases s.len(),
{
    let w = span(s, CharClass::Whitespace);
    if w >= s.len() {
        seq![]
    } else {
        let t = s.skip(w as int);
        let n = token_len(t);
        proof {
            lemma_token_len(t);
        }
        seq![t.take(n as int)] + lex(t.skip(n as int))
    }
}

/// The first token of `s` (when `s` is not all whitespace).
pub open spec fn first_token(s: Seq<char>) -> Seq<char> {
    let t = s.skip(span(s, CharClass::Whitespace) as int);
    t.take(token_len(t) as int)
}

/// What is left of `s` after its leading whitespace and its first token.
pub open spec fn after_first_token(s: Seq<char>) -> Seq<char> {
    let t = s.skip(span(s, CharClass::Whitespace) as int);
    t.skip(token_len(t) as int)
}

/// `span` measures a prefix of `s` that lies in the class, and stops at
/// the first character outside it.
pub proof fn lemma_span(s: Seq<char>, k: CharClass)
    ensures
        span(s, k) <= s.len(),
        forall|i: int| 0 <= i < span(s, k) ==> in_class(#[trigger] s[i], k),
        span(s, k) < s.len() ==> !in_class(s[span(s, k) as int], k),
    decreases s.len(),
{
    if s.len() > 0 && in_class(s[0], k) {
        lemma_span(s.drop_first(), k);
        assert forall|i: int| 0 <= i < span(s, k) implies in_class(#[trigger] s[i], k) by {
            if i > 0 {
                assert(s[i] == s.drop_first()[i - 1]);
            }
        }
    }
}

/// A non-empty text starting with a token has a token of length between
/// one and its own length.
pub proof fn lemma_token_len(t: Seq<char>)
    requires
        t.len() > 0,
    ensures
        1 <= token_len(t) <= t.len(),
{
    lemma_span(t, CharClass::Numeric);
    lemma_span(t, CharClass::Alphanumeric);
}

proof fn lemma_skip_skip(s: Seq<char>, a: int, b: int)
    requires
        0 <= a,
        0 <= b,
        a + b <= s.len(),
    ensures
        s.skip(a).skip(b) =~= s.skip(a + b),
{
}


/// The characters of `s` other than ASCII whitespace, in order.
pub open spec fn without_ws(s: Seq<char>) -> Seq<char>
    decreases s.len(),
{
    if s.len() == 0 {
        seq![]
    } else if is_ascii_ws(s[0]) {
        without_ws(s.drop_first())
    } else {
        seq![s[0]] + without_ws(s.drop_first())
    }
}

/// The tokens of a list written one after the other.
pub open spec fn flatten(ts: Seq<Seq<char>>) -> Seq<char>
    decreases ts.len(),
{
    if ts.len() == 0 {
        seq![]
    } else {
        ts[0] + flatten(ts.drop_first())
    }
}

proof fn lemma_without_ws_append(a: Seq<char>, b: Seq<char>)
    ensures
        without_ws(a + b) == without_ws(a) + without_ws(b),
    decreases a.len(),
{
    if a.len() == 0 {
        assert(a + b =~= b);
        assert(without_ws(a) + without_ws(b) =~= without_ws(b));
    } else {
        assert((a + b).drop_first() =~= a.drop_first() + b);
        lemma_without_ws_append(a.drop_first(), b);
        if !is_ascii_ws(a[0]) {
            assert(seq![a[0]] + (without_ws(a.drop_first()) + without_ws(b)) =~= (seq![a[0]]
                + without_ws(a.drop_first())) + without_ws(b));
        }
    }
}

proof fn lemma_without_ws_of_ws(a: Seq<char>)
    requires
        forall|i: int| 0 <= i < a.len() ==> is_ascii_ws(#[trigger] a[i]),
    ensures
        without_ws(a) == Seq::<char>::empty(),
    decreases a.len(),
{
    if a.len() > 0 {
        assert forall|i: int| 0 <= i < a.drop_first().len() implies is_ascii_ws(
            #[trigger] a.drop_first()[i],
        ) by {
            assert(a.drop_first()[i] == a[i + 1]);
        }
        lemma_without_ws_of_ws(a.drop_first());
    }
}

/// Every token is non-empty and starts with a character that is not ASCII
/// whitespace; and leaving ASCII whitespace aside, the tokens written one
/// after the other hold exactly the characters of the text, in order.
pub proof fn lemma_lex_covers_text(s: Seq<char>)
    ensures
        forall|i: int|
            0 <= i < lex(s).len() ==> (#[trigger] lex(s)[i]).len() > 0 && !is_ascii_ws(
                lex(s)[i][0],
            ),
        without_ws(flatten(lex(s))) == without_ws(s),
    decreases s.len(),
{
    let w = span(s, CharClass::Whitespace);
    lemma_span(s, CharClass::Whitespace);
    assert(forall|i: int| 0 <= i < s.take(w as int).len() ==> s.take(w as int)[i] == s[i]);
    lemma_without_ws_of_ws(s.take(w as int));
    assert(s =~= s.take(w as int) + s.skip(w as int));
    lemma_without_ws_append(s.take(w as int), s.skip(w as int));
    if w >= s.len() {
        assert(s.skip(w as int) =~= Seq::<char>::empty());
        assert(without_ws(flatten(lex(s))) =~= Seq::<char>::empty());
    } else {
        let t = s.skip(w as int);
        let n = token_len(t);
        lemma_token_len(t);
        let rest = t.skip(n as int);
        lemma_lex_covers_text(rest);
        assert(lex(s) == seq![t.take(n as int)] + lex(rest));
        assert(lex(s).drop_first() =~= lex(rest));
        assert(flatten(lex(s)) == t.take(n as int) + flatten(lex(rest)));
        assert(t =~= t.take(n as int) + rest);
        lemma_without_ws_append(t.take(n as int), rest);
        lemma_without_ws_append(t.take(n as int), flatten(lex(rest)));
        assert(t[0] == s[w as int]);
        assert forall|i: int| 0 <= i < lex(s).len() implies (#[trigger] lex(s)[i]).len() > 0
            && !is_ascii_ws(lex(s)[i][0]) by {
            if i > 0 {
                assert(lex(s)[i] == lex(rest)[i - 1]);
            }
        }
    }
}

/// There are no more tokens than characters.
pub proof fn lemma_lex_len(s: Seq<char>)
    ensures
        lex(s).len() <= s.len(),
    decreases s.len(),
{
    let w = span(s, CharClass::Whitespace);
    lemma_span(s, CharClass::Whitespace);
    if w < s.len() {
        let t = s.skip(w as int);
        lemma_token_len(t);
        lemma_lex_len(t.skip(token_len(t) as int));
    }
}

/// ASCII whitespace is neither numeric nor alphabetic. (Unicode puts these
/// five characters in the categories Zs and Cc.)
pub open spec fn whitespace_is_separator() -> bool {
    forall|c: char| #[trigger] is_ascii_ws(c) ==> !char_is_numeric(c) && !char_is_alphabetic(c)
}

proof fn lemma_without_ws_id(x: Seq<char>)
    requires
        forall|i: int| 0 <= i < x.len() ==> !is_ascii_ws(#[trigger] x[i]),
    ensures
        without_ws(x) == x,
    decreases x.len(),
{
    if x.len() > 0 {
        assert forall|i: int| 0 <= i < x.drop_first().len() implies !is_ascii_ws(
            #[trigger] x.drop_first()[i],
        ) by {
            assert(x.drop_first()[i] == x[i + 1]);
        }
        lemma_without_ws_id(x.drop_first());
        assert(seq![x[0]] + x.drop_first() =~= x);
    }
}

proof fn lemma_flatten_no_ws(ts: Seq<Seq<char>>)
    requires
        forall|i: int, j: int|
            0 <= i < ts.len() && 0 <= j < ts[i].len() ==> !is_ascii_ws(#[trigger] ts[i][j]),
    ensures
        forall|j: int| 0 <= j < flatten(ts).len() ==> !is_ascii_ws(#[trigger] flatten(ts)[j]),
    decreases ts.len(),
{
    if ts.len() > 0 {
        assert forall|i: int, j: int|
            0 <= i < ts.drop_first().len() && 0 <= j < ts.drop_first()[i].len() implies !is_ascii_ws(
            #[trigger] ts.drop_first()[i][j],
        ) by {
            assert(ts.drop_first()[i] == ts[i + 1]);
        }
        lemma_flatten_no_ws(ts.drop_first());
        assert forall|j: int| 0 <= j < flatten(ts).len() implies !is_ascii_ws(
            #[trigger] flatten(ts)[j],
        ) by {
            if j < ts[0].len() {
                assert(flatten(ts)[j] == ts[0][j]);
            } else {
                assert(flatten(ts)[j] == flatten(ts.drop_first())[j - ts[0].len()]);
            }
        }
    }
}

/// When ASCII whitespace is neither numeric nor alphabetic, no token holds
/// ASCII whitespace, and the tokens written one after the other are the
/// text with its ASCII whitespace taken out.
pub proof fn law_tokens_hold_no_whitespace(s: Seq<char>)
    requires
        whitespace_is_separator(),
    ensures
        forall|i: int, j: int|
            0 <= i < lex(s).len() && 0 <= j < lex(s)[i].len() ==> !is_ascii_ws(
                #[trigger] lex(s)[i][j],
            ),
        flatten(lex(s)) == without_ws(s),
    decreases s.len(),
{
    let w = span(s, CharClass::Whitespace);
    lemma_span(s, CharClass::Whitespace);
    if w < s.len() {
        let t = s.skip(w as int);
        let n = token_len(t);
        lemma_token_len(t);
        lemma_span(t, CharClass::Numeric);
        lemma_span(t, CharClass::Alphanumeric);
        let rest = t.skip(n as int);
        law_tokens_hold_no_whitespace(rest);
        assert(lex(s) == seq![t.take(n as int)] + lex(rest));
        assert(t[0] == s[w as int]);
        assert forall|j: int| 0 <= j < n implies !is_ascii_ws(#[trigger] t.take(n as int)[j]) by {
            assert(t.take(n as int)[j] == t[j]);
            if j > 0 {
                if char_is_numeric(t[0]) {
                    assert(in_class(t[j], CharClass::Numeric));
                } else {
                    assert(in_class(t[j], CharClass::Alphanumeric));
                }
                if is_ascii_ws(t[j]) {
                    assert(!char_is_numeric(t[j]) && !char_is_alphabetic(t[j]));
                }
            }
        }
        assert forall|i: int, j: int|
            0 <= i < lex(s).len() && 0 <= j < lex(s)[i].len() implies !is_ascii_ws(
            #[trigger] lex(s)[i][j],
        ) by {
            if i > 0 {
                assert(lex(s)[i] == lex(rest)[i - 1]);
            } else {
                assert(lex(s)[0] == t.take(n as int));
            }
        }
    }
    lemma_lex_covers_text(s);
    lemma_flatten_no_ws(lex(s));
    lemma_without_ws_id(flatten(lex(s)));
}

proof fn lemma_span_append(x: Seq<char>, y: Seq<char>, k: CharClass)
    ensures
        span(x, k) < x.len() ==> span(x + y, k) == span(x, k),
        span(x, k) >= x.len() ==> span(x + y, k) == x.len() + span(y, k),
    decreases x.len(),
{
    lemma_span(x, k);
    if x.len() == 0 {
        assert(x + y =~= y);
    } else {
        assert((x + y).drop_first() =~= x.drop_first() + y);
        assert((x + y)[0] == x[0]);
        lemma_span_append(x.drop_first(), y, k);
    }
}

/// When ASCII whitespace is neither numeric nor alphabetic, the tokens of
/// two texts joined by a space are the tokens of the first followed by
/// those of the second.
pub proof fn law_lex_of_joined_texts(a: Seq<char>, b: Seq<char>)
    requires
        whitespace_is_separator(),
    ensures
        lex(a + seq![' '] + b) == lex(a) + lex(b),
    decreases a.len(),
{
    let sp = seq![' '];
    let s = a + sp + b;
    assert(is_ascii_ws(' '));
    assert(!char_is_numeric(' ') && !char_is_alphabetic(' '));
    let wa = span(a, CharClass::Whitespace);
    lemma_span(a, CharClass::Whitespace);
    lemma_span_append(a, sp + b, CharClass::Whitespace);
    assert(s =~= a + (sp + b));
    if wa >= a.len() {
        lemma_span_append(sp, b, CharClass::Whitespace);
        assert(span(sp, CharClass::Whitespace) == 1) by {
            assert(sp.drop_first() =~= Seq::<char>::empty());
            assert(span(sp.drop_first(), CharClass::Whitespace) == 0);
            assert(in_class(sp[0], CharClass::Whitespace));
        }
        let wb = span(b, CharClass::Whitespace);
        lemma_span(b, CharClass::Whitespace);
        assert(span(s, CharClass::Whitespace) == a.len() + 1 + wb);
        assert(s.skip(span(s, CharClass::Whitespace) as int) =~= b.skip(wb as int));
        assert(lex(a) == Seq::<Seq<char>>::empty());
        assert(lex(a) + lex(b) =~= lex(b));
    } else {
        let ta = a.skip(wa as int);
        let ts = s.skip(wa as int);
        assert(ts =~= ta + (sp + b));
        assert(ts[0] == ta[0]);
        let n = token_len(ta);
        lemma_token_len(ta);
        lemma_span_append(ta, sp + b, CharClass::Numeric);
        lemma_span_append(ta, sp + b, CharClass::Alphanumeric);
        assert(span(sp + b, CharClass::Numeric) == 0);
        assert(span(sp + b, CharClass::Alphanumeric) == 0);
        assert(token_len(ts) == n);
        let ra = ta.skip(n as int);
        assert(ts.skip(n as int) =~= ra + sp + b);
        assert(ts.take(n as int) =~= ta.take(n as int));
        law_lex_of_joined_texts(ra, b);
        assert(lex(s) == seq![ta.take(n as int)] + lex(ra + sp + b));
        assert(lex(a) == seq![ta.take(n as int)] + lex(ra));
        assert(lex(s) =~= lex(a) + lex(b));
    }
}

proof fn lemma_span_all(w: Seq<char>, k: CharClass)
    requires
        forall|i: int| 0 <= i < w.len() ==> in_class(#[trigger] w[i], k),
    ensures
        span(w, k) == w.len(),
    decreases w.len(),
{
    if w.len() > 0 {
        assert forall|i: int| 0 <= i < w.drop_first().len() implies in_class(
            #[trigger] w.drop_first()[i],
            k,
        ) by {
            assert(w.drop_first()[i] == w[i + 1]);
        }
        lemma_span_all(w.drop_first(), k);
    }
}

/// A word of alphanumeric characters that starts with a letter (one that
/// is not numeric) is one token, however long it is.
pub proof fn law_word_is_one_token(w: Seq<char>)
    requires
        w.len() > 0,
        char_is_alphabetic(w[0]),
        !char_is_numeric(w[0]),
        forall|i: int| 0 <= i < w.len() ==> char_is_alphanumeric(#[trigger] w[i]),
        forall|i: int| 0 <= i < w.len() ==> !is_ascii_ws(#[trigger] w[i]),
    ensures
        lex(w) == seq![w],
{
    assert(span(w, CharClass::Whitespace) == 0);
    assert(forall|i: int| 0 <= i < w.len() ==> in_class(#[trigger] w[i], CharClass::Alphanumeric));
    lemma_span_all(w, CharClass::Alphanumeric);
    assert(w.skip(0) =~= w);
    assert(w.take(w.len() as int) =~= w);
    assert(w.skip(w.len() as int) =~= Seq::<char>::empty());
    assert(lex(Seq::<char>::empty()) == Seq::<Seq<char>>::empty());
    assert(lex(w) =~= seq![w]);
}

/// A run of numeric characters is one token, however long it is.
pub proof fn law_number_is_one_token(w: Seq<char>)
    requires
        w.len() > 0,
        forall|i: int| 0 <= i < w.len() ==> char_is_numeric(#[trigger] w[i]),
        forall|i: int| 0 <= i < w.len() ==> !is_ascii_ws(#[trigger] w[i]),
    ensures
        lex(w) == seq![w],
{
    assert(span(w, CharClass::Whitespace) == 0);
    assert(forall|i: int| 0 <= i < w.len() ==> in_class(#[trigger] w[i], CharClass::Numeric));
    lemma_span_all(w, CharClass::Numeric);
    assert(w.skip(0) =~= w);
    assert(w.take(w.len() as int) =~= w);
    assert(w.skip(w.len() as int) =~= Seq::<char>::empty());
    assert(lex(Seq::<char>::empty()) == Seq::<Seq<char>>::empty());
    assert(lex(w) =~= seq![w]);
}

/// A lexer over one text. Each call of `next` hands out the next token.
pub struct Lexer<'a> {
    content: &'a str,
    chars: Vec<char>,
    pos: usize,
}

impl<'a> Lexer<'a> {
    /// The text that the lexer was made for.
    pub closed spec fn source(&self) -> Seq<char> {
        self.content@
    }

    /// The part of the text that has not been consumed yet.
    pub closed spec fn rest(&self) -> Seq<char> {
        self.chars@.skip(self.pos as int)
    }

    pub closed spec fn wf(&self) -> bool {
        &&& self.chars@ == self.content@
        &&& self.pos <= self.chars.len()
    }

    pub fn new(content: &'a str) -> (l: Self)
        ensures
            l.wf(),
            content@.len() <= usize::MAX,
            l.source() == content@,
            l.rest() == content@,
    {
        let chars = chars_of(content);
        assert(chars@.len() == chars.len());
        let l = Self { content, chars, pos: 0 };
        assert(l.chars@.skip(0) =~= l.chars@);
        l
    }

    fn trim_left(&mut self)
        requires
            old(self).wf(),
        ensures
            final(self).wf(),
            final(self).content == old(self).content,
            final(self).chars == old(self).chars,
            final(self).pos == old(self).pos + span(old(self).rest(), CharClass::Whitespace),
    {
        let ghost start = self.pos as int;
        while self.pos < self.chars.len() && is_ascii_whitespace(self.chars[self.pos])
            invariant
                self.wf(),
                self.content == old(self).content,
                self.chars == old(self).chars,
                start == old(self).pos,
                start <= self.pos,
                span(self.chars@.skip(start), CharClass::Whitespace) == (self.pos - start) + span(
                    self.chars@.skip(self.pos as int),
                    CharClass::Whitespace,
                ),
            decreases self.chars.len() - self.pos,
        {
            assert(self.chars@.skip(self.pos as int).drop_first() =~= self.chars@.skip(
                self.pos + 1,
            ));
            self.pos = self.pos + 1;
        }
    }

    fn in_class_exec(c: char, k: CharClass) -> (r: bool)
        ensures
            r == in_class(c, k),
    {
        match k {
            CharClass::Whitespace => is_ascii_whitespace(c),
            CharClass::Numeric => is_numeric(c),
            CharClass::Alphanumeric => is_alphanumeric(c),
        }
    }

    fn chop_while(&mut self, k: CharClass) -> (r: Option<String>)
        requires
            old(self).wf(),
        ensures
            final(self).wf(),
            final(self).content == old(self).content,
            final(self).chars == old(self).chars,
            old(self).rest().len() > 0 && in_class(old(self).rest()[0], k) ==> {
                &&& r matches Some(t) && t@ == old(self).rest().take(span(old(self).rest(), k) as int)
                &&& final(self).pos == old(self).pos + span(old(self).rest(), k)
            },
            !(old(self).rest().len() > 0 && in_class(old(self).rest()[0], k)) ==> {
                &&& r is None
                &&& final(self).pos == old(self).pos
            },
    {
        if self.pos >= self.chars.len() || !Self::in_class_exec(self.chars[self.pos], k) {
            return None;
        }
        let start = self.pos;
        let ghost s0 = self.chars@.skip(start as int);
        while self.pos < self.chars.len() && Self::in_class_exec(self.chars[self.pos], k)
            invariant
                self.wf(),
                self.content == old(self).content,
                self.chars == old(self).chars,
                start == old(self).pos,
                start <= self.pos,
                s0 == self.chars@.skip(start as int),
                span(s0, k) == (self.pos - start) + span(self.chars@.skip(self.pos as int), k),
            decreases self.chars.len() - self.pos,
        {
            assert(self.chars@.skip(self.pos as int).drop_first() =~= self.chars@.skip(
                self.pos + 1,
            ));
            self.pos = self.pos + 1;
        }
        let tok = string_from_chars(slice_subrange(self.chars.as_slice(), start, self.pos));
        assert(tok@ =~= s0.take(span(s0, k) as int));
        Some(tok)
    }

    fn next_token(&mut self) -> (r: Option<String>)
        requires
            old(self).wf(),
        ensures
            final(self).wf(),
            final(self).source() == old(self).source(),
            r matches Some(t) ==> lex(old(self).rest()) == seq![t@] + lex(final(self).rest())
                && final(self).rest().len() < old(self).rest().len(),
            r matches Some(t) ==> span(old(self).rest(), CharClass::Whitespace) < old(
                self,
            ).rest().len() && t@ == first_token(old(self).rest()) && final(self).rest()
                == after_first_token(old(self).rest()),
            r is None ==> span(old(self).rest(), CharClass::Whitespace) >= old(self).rest().len(),
            r is None ==> lex(old(self).rest()) == Seq::<Seq<char>>::empty()
                && final(self).rest() == Seq::<char>::empty(),
    {
        let ghost s = old(self).rest();
        proof {
            lemma_span(s, CharClass::Whitespace);
        }
        self.trim_left();
        proof {
            lemma_skip_skip(
                self.chars@,
                old(self).pos as int,
                span(s, CharClass::Whitespace) as int,
            );
        }
        if self.pos >= self.chars.len() {
            assert(self.rest() =~= Seq::<char>::empty());
            return None;
        }
        let ghost t = self.rest();
        assert(t == s.skip(span(s, CharClass::Whitespace) as int));
        let c = self.chars[self.pos];
        assert(c == t[0]);
        proof {
            lemma_token_len(t);
            lemma_skip_skip(self.chars@, self.pos as int, token_len(t) as int);
        }
        if is_numeric(c) {
            return self.chop_while(CharClass::Numeric);
        }
        if is_alphabetic(c) {
            return self.chop_while(CharClass::Alphanumeric);
        }
        let start = self.pos;
        self.pos = self.pos + 1;
        let tok = string_from_chars(slice_subrange(self.chars.as_slice(), start, self.pos));
        assert(tok@ =~= t.take(1));
        Some(tok)
    }

    /// Hands out the next token, or `None` once only whitespace is left.
    /// The tokens handed out, in order, are `lex` of the text.
    pub fn next(&mut self) -> (r: Option<String>)
        requires
            old(self).wf(),
        ensures
            final(self).wf(),
            final(self).source() == old(self).source(),
            r matches Some(t) ==> lex(old(self).rest()) == seq![t@] + lex(final(self).rest())
                && final(self).rest().len() < old(self).rest().len(),
            r matches Some(t) ==> span(old(self).rest(), CharClass::Whitespace) < old(
                self,
            ).rest().len() && t@ == first_token(old(self).rest()) && final(self).rest()
                == after_first_token(old(self).rest()),
            r is None ==> span(old(self).rest(), CharClass::Whitespace) >= old(self).rest().len(),
            r is None ==> lex(old(self).rest()) == Seq::<Seq<char>>::empty()
                && final(self).rest() == Seq::<char>::empty(),
    {
        self.next_token()
    }
}

} // verus!
