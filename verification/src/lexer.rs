use vstd::prelude::*;

use snowstem::{Algorithm, Stemmer};
use vstd::utf8::{char_is_scalar, encode_scalar, encode_utf8};

use crate::laws::law_lexer_fused;

verus! {

/// Whether `c` has Unicode's `White_Space` property, which std's
/// `char::is_whitespace` tests: the 25 code points U+0009 to U+000D, U+0020,
/// U+0085, U+00A0, U+1680, U+2000 to U+200A, U+2028, U+2029, U+202F, U+205F
/// and U+3000.
pub open spec fn char_is_whitespace(c: char) -> bool {
    let u = c as u32;
    ||| 0x09 <= u <= 0x0d
    ||| u == 0x20
    ||| u == 0x85
    ||| u == 0xa0
    ||| u == 0x1680
    ||| 0x2000 <= u <= 0x200a
    ||| u == 0x2028
    ||| u == 0x2029
    ||| u == 0x202f
    ||| u == 0x205f
    ||| u == 0x3000
}

/// Whether std's `char::is_alphabetic` holds of `c`.
pub uninterp spec fn char_is_alphabetic(c: char) -> bool;

/// Whether std's `char::is_numeric` holds of `c`.
pub uninterp spec fn char_is_numeric(c: char) -> bool;

/// The English Snowball stem of a word, as the `snowstem` crate computes it.
pub uninterp spec fn english_stem(word: Seq<char>) -> Seq<char>;

/// The longest word, in bytes of UTF-8, that goes to the stemmer. The stemmer
/// keeps byte positions in 32-bit signed integers; the room left below
/// `i32::MAX` covers the few bytes that its suffix rules may add. A longer
/// word is kept as it is.
pub const MAX_WORD_BYTES: usize = 0x7fff_f000;

/// The number of bytes in the UTF-8 encoding of `word`.
pub open spec fn utf8_len(word: Seq<char>) -> nat {
    encode_utf8(word).len()
}

/// A word stemmed, where it is short enough for the stemmer, or else kept.
pub open spec fn stem_word(word: Seq<char>) -> Seq<char> {
    if utf8_len(word) <= MAX_WORD_BYTES {
        english_stem(word)
    } else {
        word
    }
}

/// Appending a character adds the bytes of its encoding.
proof fn lemma_utf8_len_push(s: Seq<char>, c: char)
    ensures
        utf8_len(s.push(c)) == utf8_len(s) + encode_scalar(c as u32).len(),
    decreases s.len(),
{
    let t = s.push(c);
    if s.len() == 0 {
        assert(t.drop_first() =~= Seq::<char>::empty());
        assert(encode_utf8(t.drop_first()).len() == 0);
        assert(t[0] == c);
    } else {
        assert(t.drop_first() =~= s.drop_first().push(c));
        assert(t[0] == s[0]);
        lemma_utf8_len_push(s.drop_first(), c);
    }
}

/// The number of bytes that `c` takes in UTF-8.
fn utf8_width(c: char) -> (w: u128)
    ensures
        w == encode_scalar(c as u32).len(),
        1 <= w <= 4,
{
    proof {
        char_is_scalar(c);
    }
    let u = c as u32;
    if u <= 0x7f {
        1
    } else if u <= 0x7ff {
        2
    } else if u <= 0xffff {
        3
    } else {
        4
    }
}

/// `c` with an ASCII capital letter turned into its small letter.
pub open spec fn ascii_lower(c: char) -> char {
    if 65 <= (c as u32) <= 90 {
        ((c as u32) + 32) as char
    } else {
        c
    }
}

/// Whether `c` is white space, as std's `char::is_whitespace` finds it.
fn is_whitespace(c: char) -> (b: bool)
    ensures
        b == char_is_whitespace(c),
{
    let u = c as u32;
    (0x09 <= u && u <= 0x0d) || u == 0x20 || u == 0x85 || u == 0xa0 || u == 0x1680 || (0x2000 <= u
        && u <= 0x200a) || u == 0x2028 || u == 0x2029 || u == 0x202f || u == 0x205f || u == 0x3000
}

/// `char::is_alphabetic`: the character has Unicode's `Alphabetic` property.
#[verifier::external_body]
fn is_alphabetic(c: char) -> (b: bool)
    ensures
        b == char_is_alphabetic(c),
{
    c.is_alphabetic()
}

/// `char::is_numeric`: the character is in one of Unicode's numeric
/// categories.
#[verifier::external_body]
fn is_numeric(c: char) -> (b: bool)
    ensures
        b == char_is_numeric(c),
{
    c.is_numeric()
}

/// `String::push`: appends `c` to `s`.
#[verifier::external_body]
pub(crate) fn push_char(s: &mut String, c: char)
    ensures
        final(s)@ == old(s)@.push(c),
{
    s.push(c);
}

/// `snowstem`'s `Stemmer::stem` with the English algorithm. The result is
/// named, not described: it depends on `word` alone. A stemmer is made for
/// each call, which the crate documents as costing nothing. The stemmer keeps
/// byte positions in 32-bit integers, so the word is kept short enough for
/// them.
#[verifier::external_body]
fn stem_english(word: &String) -> (r: String)
    requires
        utf8_len(word@) <= MAX_WORD_BYTES,
    ensures
        r@ == english_stem(word@),
{
    Stemmer::create(Algorithm::English).stem(word.as_str()).into_owned()
}

/// Whether `x` is alphanumeric (`alnum`) or numeric (not `alnum`).
fn in_class(x: ClassifiedChar, alnum: bool) -> (b: bool)
    ensures
        alnum ==> b == is_alnum(x),
        !alnum ==> b == x.numeric,
{
    if alnum {
        x.alphabetic || x.numeric
    } else {
        x.numeric
    }
}

/// `c` with an ASCII capital letter turned into its small letter, as std's
/// `char::to_ascii_lowercase` does.
fn to_ascii_lowercase(c: char) -> (r: char)
    ensures
        r == ascii_lower(c),
{
    if 'A' <= c && c <= 'Z' {
        ((c as u8) + 32) as char
    } else {
        c
    }
}

/// A character with the Unicode properties that the lexer reads.
#[derive(Clone, Copy, PartialEq, Eq, Structural, Debug)]
pub struct ClassifiedChar {
    pub c: char,
    pub whitespace: bool,
    pub alphabetic: bool,
    pub numeric: bool,
}

/// `c` with the properties that std gives it.
pub open spec fn classify(c: char) -> ClassifiedChar {
    ClassifiedChar {
        c,
        whitespace: char_is_whitespace(c),
        alphabetic: char_is_alphabetic(c),
        numeric: char_is_numeric(c),
    }
}

/// Each character of `s` with its properties.
pub open spec fn classify_all(s: Seq<char>) -> Seq<ClassifiedChar> {
    Seq::new(s.len(), |i: int| classify(s[i]))
}

/// A classified character is alphanumeric where it is alphabetic or numeric,
/// as std documents `char::is_alphanumeric`.
pub open spec fn is_alnum(x: ClassifiedChar) -> bool {
    x.alphabetic || x.numeric
}

/// The number of white-space characters that `s` starts with.
pub open spec fn leading_ws(s: Seq<ClassifiedChar>) -> nat
    decreases s.len(),
{
    if s.len() > 0 && s[0].whitespace {
        1 + leading_ws(s.drop_first())
    } else {
        0
    }
}

/// The number of alphanumeric characters that `s` starts with.
pub open spec fn alnum_run(s: Seq<ClassifiedChar>) -> nat
    decreases s.len(),
{
    if s.len() > 0 && is_alnum(s[0]) {
        1 + alnum_run(s.drop_first())
    } else {
        0
    }
}

/// The number of numeric characters that `s` starts with.
pub open spec fn numeric_run(s: Seq<ClassifiedChar>) -> nat
    decreases s.len(),
{
    if s.len() > 0 && s[0].numeric {
        1 + numeric_run(s.drop_first())
    } else {
        0
    }
}

/// The length of the token at the start of `t`: a word (a letter, then
/// letters and digits), a number, or else one character.
pub open spec fn token_len(t: Seq<ClassifiedChar>) -> nat {
    if t.len() == 0 {
        0
    } else if t[0].alphabetic {
        alnum_run(t)
    } else if t[0].numeric {
        numeric_run(t)
    } else {
        1
    }
}

/// The characters of `t`, lowered to ASCII small letters where `lower` holds.
pub open spec fn text_of(t: Seq<ClassifiedChar>, lower: bool) -> Seq<char> {
    Seq::new(
        t.len(),
        |i: int|
            if lower {
                ascii_lower(t[i].c)
            } else {
                t[i].c
            },
    )
}

/// The text of the token at the start of `t`; a word is lowered to ASCII
/// small letters.
pub open spec fn token_text(t: Seq<ClassifiedChar>) -> Seq<char> {
    text_of(t.take(token_len(t) as int), t.len() > 0 && t[0].alphabetic)
}

/// The first token of `s`, before stemming, and the text after it; `None`
/// where `s` holds only white space.
pub open spec fn next_raw(s: Seq<ClassifiedChar>) -> Option<(Seq<char>, Seq<ClassifiedChar>)> {
    let t = s.skip(leading_ws(s) as int);
    if t.len() == 0 {
        None
    } else {
        Some((token_text(t), t.skip(token_len(t) as int)))
    }
}

/// The tokens of `s` before stemming, in order.
pub open spec fn raw_tokens(s: Seq<ClassifiedChar>) -> Seq<Seq<char>>
    decreases s.len(),
{
    match next_raw(s) {
        None => seq![],
        Some((tok, rest)) => {
            proof {
                lemma_next_raw_bounds(s);
            }
            seq![tok] + raw_tokens(rest)
        },
    }
}

/// The stemmed tokens of `s`, in order.
pub open spec fn tokens(s: Seq<ClassifiedChar>) -> Seq<Seq<char>>
    decreases s.len(),
{
    match next_raw(s) {
        None => seq![],
        Some((tok, rest)) => {
            proof {
                lemma_next_raw_bounds(s);
            }
            seq![stem_word(tok)] + tokens(rest)
        },
    }
}

/// The stemmed tokens of a text.
pub open spec fn text_tokens(text: Seq<char>) -> Seq<Seq<char>> {
    tokens(classify_all(text))
}

proof fn lemma_leading_ws_bound(s: Seq<ClassifiedChar>)
    ensures
        leading_ws(s) <= s.len(),
    decreases s.len(),
{
    if s.len() > 0 && s[0].whitespace {
        lemma_leading_ws_bound(s.drop_first());
    }
}

proof fn lemma_runs_bound(s: Seq<ClassifiedChar>)
    ensures
        alnum_run(s) <= s.len(),
        numeric_run(s) <= s.len(),
    decreases s.len(),
{
    if s.len() > 0 {
        lemma_runs_bound(s.drop_first());
    }
}

/// A token is at least one character long and lies inside the text, so the
/// text after it is shorter.
pub proof fn lemma_next_raw_bounds(s: Seq<ClassifiedChar>)
    ensures
        next_raw(s) matches Some((tok, rest)) ==> rest.len() < s.len() && tok.len() <= s.len()
            && tok.len() >= 1,
{
    lemma_leading_ws_bound(s);
    let t = s.skip(leading_ws(s) as int);
    lemma_runs_bound(t);
}

/// `c` with the properties that std gives it.
pub fn classify_char(c: char) -> (r: ClassifiedChar)
    ensures
        r == classify(c),
{
    ClassifiedChar {
        c,
        whitespace: is_whitespace(c),
        alphabetic: is_alphabetic(c),
        numeric: is_numeric(c),
    }
}

/// Splits text into tokens, each stemmed with the English Snowball stemmer.
pub struct Lexer {
    content: Vec<ClassifiedChar>,
    pos: usize,
}

impl Lexer {
    /// The text not yet split.
    pub closed spec fn rest(self) -> Seq<ClassifiedChar> {
        self.content@.subrange(self.pos as int, self.content@.len() as int)
    }

    /// The lexer's position lies inside its text.
    pub closed spec fn wf(self) -> bool {
        &&& self.pos <= self.content@.len()
        &&& self.content@.len() <= usize::MAX
    }

    /// A lexer over `content`.
    pub fn new(content: &[char]) -> (l: Self)
        ensures
            l.wf(),
            l.rest() == classify_all(content@),
    {
        let mut classified: Vec<ClassifiedChar> = Vec::new();
        let n = content.len();
        let mut i: usize = 0;
        while i < n
            invariant
                n == content@.len(),
                i <= n,
                classified@ == classify_all(content@).take(i as int),
            decreases n - i,
        {
            classified.push(classify_char(content[i]));
            proof {
                assert(classified@ =~= classify_all(content@).take(i + 1));
            }
            i = i + 1;
        }
        assert(classify_all(content@).take(n as int) =~= classify_all(content@));
        Lexer::from_classified(classified)
    }

    /// A lexer over characters whose properties are given with them.
    pub fn from_classified(content: Vec<ClassifiedChar>) -> (l: Self)
        ensures
            l.wf(),
            l.rest() == content@,
    {
        let _ = content.len();
        let l = Lexer { content, pos: 0 };
        assert(l.rest() =~= l.content@);
        l
    }

    /// Skips the white space at the front.
    fn trim_left(&mut self)
        requires
            old(self).wf(),
        ensures
            final(self).wf(),
            final(self).rest() == old(self).rest().skip(leading_ws(old(self).rest()) as int),
    {
        let ghost start = self.rest();
        let ghost pos0 = self.pos as int;
        let n = self.content.len();
        while self.pos < n && self.content[self.pos].whitespace
            invariant
                self.wf(),
                n == self.content@.len(),
                pos0 <= self.pos,
                start == self.content@.subrange(pos0, n as int),
                leading_ws(start) == (self.pos - pos0) + leading_ws(self.rest()),
            decreases n - self.pos,
        {
            proof {
                assert(self.rest()[0] == self.content@[self.pos as int]);
                assert(self.rest().drop_first() =~= self.content@.subrange(self.pos + 1, n as int));
            }
            self.pos = self.pos + 1;
        }
        proof {
            if self.pos < n {
                assert(self.rest()[0] == self.content@[self.pos as int]);
            }
            assert(self.rest() =~= start.skip(self.pos - pos0));
        }
    }

    /// The number of characters from the position on that are alphanumeric
    /// (`alnum`) or numeric (not `alnum`).
    fn run_len(&self, alnum: bool) -> (k: usize)
        requires
            self.wf(),
        ensures
            alnum ==> k == alnum_run(self.rest()),
            !alnum ==> k == numeric_run(self.rest()),
            k <= self.rest().len(),
    {
        let n = self.content.len();
        let mut k: usize = 0;
        let ghost t = self.rest();
        assert(t.skip(0) =~= t);
        while self.pos + k < n && in_class(self.content[self.pos + k], alnum)
            invariant
                self.wf(),
                n == self.content@.len(),
                t == self.rest(),
                self.pos + k <= n,
                alnum ==> alnum_run(t) == k + alnum_run(t.skip(k as int)),
                !alnum ==> numeric_run(t) == k + numeric_run(t.skip(k as int)),
            decreases n - self.pos - k,
        {
            proof {
                assert(t.skip(k as int)[0] == self.content@[self.pos + k]);
                assert(t.skip(k as int).drop_first() =~= t.skip(k + 1));
            }
            k = k + 1;
        }
        proof {
            if self.pos + k < n {
                assert(t.skip(k as int)[0] == self.content@[self.pos + k]);
            } else {
                assert(t.skip(k as int).len() == 0);
            }
        }
        k
    }

    /// Takes the next `k` characters as a string, lowered to ASCII small
    /// letters where `lower` holds, with its length in bytes of UTF-8.
    fn take(&mut self, k: usize, lower: bool) -> (r: (String, u128))
        requires
            old(self).wf(),
            k <= old(self).rest().len(),
        ensures
            final(self).wf(),
            final(self).rest() == old(self).rest().skip(k as int),
            r.0@ == text_of(old(self).rest().take(k as int), lower),
            r.1 == utf8_len(r.0@),
    {
        let ghost t = self.rest();
        let mut r = String::new();
        let mut bytes: u128 = 0;
        let mut j: usize = 0;
        while j < k
            invariant
                self.wf(),
                t == self.rest(),
                k <= t.len(),
                j <= k,
                r@ == text_of(t.take(j as int), lower),
                bytes == utf8_len(r@),
                bytes <= 4 * j,
            decreases k - j,
        {
            let x = self.content[self.pos + j];
            assert(x == t[j as int]);
            let c = if lower {
                to_ascii_lowercase(x.c)
            } else {
                x.c
            };
            let w = utf8_width(c);
            proof {
                lemma_utf8_len_push(r@, c);
            }
            push_char(&mut r, c);
            bytes = bytes + w;
            proof {
                assert(r@ =~= text_of(t.take(j + 1), lower));
            }
            j = j + 1;
        }
        self.pos = self.pos + k;
        assert(self.rest() =~= t.skip(k as int));
        (r, bytes)
    }

    /// The next token before stemming; `None` once only white space is left.
    pub fn next_raw_token(&mut self) -> (r: Option<String>)
        requires
            old(self).wf(),
        ensures
            final(self).wf(),
            match next_raw(old(self).rest()) {
                None => r is None && final(self).rest() == old(self).rest().skip(
                    leading_ws(old(self).rest()) as int,
                ),
                Some((tok, rest)) => r matches Some(s) && s@ == tok && final(self).rest() == rest,
            },
    {
        match self.next_counted() {
            None => None,
            Some((token, _)) => Some(token),
        }
    }

    /// The next token before stemming, with its length in bytes of UTF-8.
    fn next_counted(&mut self) -> (r: Option<(String, u128)>)
        requires
            old(self).wf(),
        ensures
            final(self).wf(),
            match next_raw(old(self).rest()) {
                None => r is None && final(self).rest() == old(self).rest().skip(
                    leading_ws(old(self).rest()) as int,
                ),
                Some((tok, rest)) => {
                    &&& r matches Some((s, n)) && s@ == tok && n == utf8_len(tok)
                    &&& final(self).rest() == rest
                },
            },
    {
        let ghost s = self.rest();
        self.trim_left();
        let ghost t = self.rest();
        assert(t == s.skip(leading_ws(s) as int));
        if self.pos >= self.content.len() {
            return None;
        }
        let x = self.content[self.pos];
        assert(x == t[0]);
        if x.alphabetic {
            let k = self.run_len(true);
            Some(self.take(k, true))
        } else if x.numeric {
            let k = self.run_len(false);
            Some(self.take(k, false))
        } else {
            Some(self.take(1, false))
        }
    }

    /// The next token, stemmed; `None` once only white space is left.
    pub fn next(&mut self) -> (r: Option<String>)
        requires
            old(self).wf(),
        ensures
            final(self).wf(),
            match next_raw(old(self).rest()) {
                None => r is None && final(self).rest() == old(self).rest().skip(
                    leading_ws(old(self).rest()) as int,
                ),
                Some((tok, rest)) => {
                    &&& r matches Some(s) && s@ == stem_word(tok)
                    &&& final(self).rest() == rest
                },
            },
    {
        match self.next_counted() {
            None => None,
            Some((token, n)) => if n <= MAX_WORD_BYTES as u128 {
                Some(stem_english(&token))
            } else {
                Some(token)
            },
        }
    }

    /// All the remaining tokens before stemming, in order.
    pub fn collect_raw_tokens(&mut self) -> (r: Vec<String>)
        requires
            old(self).wf(),
        ensures
            final(self).wf(),
            r.deep_view() == raw_tokens(old(self).rest()),
            next_raw(final(self).rest()) is None,
    {
        let ghost s = self.rest();
        let mut r: Vec<String> = Vec::new();
        assert(r.deep_view() + raw_tokens(s) =~= raw_tokens(s));
        loop
            invariant
                self.wf(),
                s == old(self).rest(),
                raw_tokens(s) == r.deep_view() + raw_tokens(self.rest()),
            decreases self.rest().len(),
        {
            let ghost before = self.rest();
            let ghost done = r.deep_view();
            proof {
                lemma_next_raw_bounds(before);
            }
            match self.next_raw_token() {
                None => {
                    proof {
                        law_lexer_fused(before);
                    }
                    assert(raw_tokens(before) =~= Seq::<Seq<char>>::empty());
                    assert(r.deep_view() =~= raw_tokens(s));
                    return r;
                },
                Some(tok) => {
                    r.push(tok);
                    proof {
                        assert(r.deep_view() =~= done.push(tok@));
                        assert(raw_tokens(before) == seq![tok@] + raw_tokens(self.rest()));
                        assert(raw_tokens(s) =~= r.deep_view() + raw_tokens(self.rest()));
                    }
                },
            }
        }
    }

    /// All the remaining tokens, stemmed, in order.
    pub fn collect_tokens(&mut self) -> (r: Vec<String>)
        requires
            old(self).wf(),
        ensures
            final(self).wf(),
            r.deep_view() == tokens(old(self).rest()),
            next_raw(final(self).rest()) is None,
    {
        let ghost s = self.rest();
        let mut r: Vec<String> = Vec::new();
        assert(r.deep_view() + tokens(s) =~= tokens(s));
        loop
            invariant
                self.wf(),
                s == old(self).rest(),
                tokens(s) == r.deep_view() + tokens(self.rest()),
            decreases self.rest().len(),
        {
            let ghost before = self.rest();
            let ghost done = r.deep_view();
            proof {
                lemma_next_raw_bounds(before);
            }
            match self.next() {
                None => {
                    proof {
                        law_lexer_fused(before);
                    }
                    assert(tokens(before) =~= Seq::<Seq<char>>::empty());
                    assert(r.deep_view() =~= tokens(s));
                    return r;
                },
                Some(tok) => {
                    r.push(tok);
                    proof {
                        assert(r.deep_view() =~= done.push(tok@));
                        assert(tokens(before) == seq![tok@] + tokens(self.rest()));
                        assert(tokens(s) =~= r.deep_view() + tokens(self.rest()));
                    }
                },
            }
        }
    }
}

} // verus!
