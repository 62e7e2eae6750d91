//! The tokenizer: splits text at whitespace and turns each word into a
//! token by transliterating it to ASCII, stripping punctuation and
//! lowercasing it; words that come out empty are dropped.
use vstd::prelude::*;
use vstd::utf8::is_ascii_chars;

verus! {

/// The ASCII transliteration that unidecode gives for `s`.
pub uninterp spec fn ascii_fold(s: Seq<char>) -> Seq<char>;

/// Relies on `unidecode::unidecode`: its result is ASCII, and it maps every
/// ASCII character to itself, one character at a time.
#[verifier::external_body]
fn transliterate(s: &str) -> (r: String)
    ensures
        r@ == ascii_fold(s@),
        is_ascii_chars(r@),
        is_ascii_chars(s@) ==> r@ == s@,
{
    unidecode::unidecode(s)
}

/// Relies on `String::push`: appends one character.
#[verifier::external_body]
fn push_char(s: &mut String, c: char)
    ensures
        final(s)@ == old(s)@.push(c),
{
    s.push(c)
}

/// The characters that `char::is_whitespace` accepts: Unicode `White_Space`.
pub open spec fn is_white_space(c: char) -> bool {
    ||| '\t' <= c <= '\r'
    ||| c == ' '
    ||| c == '\u{85}'
    ||| c == '\u{a0}'
    ||| c == '\u{1680}'
    ||| '\u{2000}' <= c <= '\u{200a}'
    ||| c == '\u{2028}'
    ||| c == '\u{2029}'
    ||| c == '\u{202f}'
    ||| c == '\u{205f}'
    ||| c == '\u{3000}'
}

/// The characters stripped from a word.
pub open spec fn is_punctuation(c: char) -> bool {
    ||| c == '.'
    ||| c == '!'
    ||| c == '?'
    ||| c == ','
    ||| c == ';'
    ||| c == ':'
    ||| c == '/'
    ||| c == '&'
    ||| c == '#'
    ||| c == '*'
    ||| c == '_'
    ||| c == '('
    ||| c == ')'
    ||| c == '['
    ||| c == ']'
    ||| c == '{'
    ||| c == '}'
    ||| c == '<'
    ||| c == '>'
    ||| c == '\''
    ||| c == '`'
    ||| c == '"'
}

/// The lowercase form of an ASCII letter; any other character is kept.
pub open spec fn lower(c: char) -> char {
    if 'A' <= c <= 'Z' {
        ((c as u8) + 32) as u8 as char
    } else {
        c
    }
}

/// The word without its punctuation.
pub open spec fn strip(w: Seq<char>) -> Seq<char> {
    w.filter(|c: char| !is_punctuation(c))
}

/// Every letter of the word lowercased; on ASCII text this is what
/// `str::to_lowercase` does.
pub open spec fn lowercase(w: Seq<char>) -> Seq<char> {
    w.map_values(|c: char| lower(c))
}

/// The token that a word stands for; it may be empty.
pub open spec fn normalize(word: Seq<char>) -> Seq<char> {
    lowercase(strip(ascii_fold(word)))
}

/// The length of the run of non-whitespace characters that `s` starts with.
pub open spec fn word_len(s: Seq<char>) -> nat
    decreases s.len(),
{
    if s.len() == 0 || is_white_space(s[0]) {
        0
    } else {
        1 + word_len(s.drop_first())
    }
}

/// The tokens of `s`, in order: one for each maximal run of non-whitespace
/// characters whose normalized form is not empty.
pub open spec fn tokens(s: Seq<char>) -> Seq<Seq<char>>
    decreases s.len(),
{
    if s.len() == 0 {
        Seq::empty()
    } else if is_white_space(s[0]) {
        tokens(s.drop_first())
    } else {
        let n = word_len(s);
        // the word is never empty here and never longer than `s`
        let rest = if 0 < n <= s.len() {
            tokens(s.skip(n as int))
        } else {
            Seq::empty()
        };
        let t = normalize(s.take(n as int));
        if t.len() > 0 {
            seq![t] + rest
        } else {
            rest
        }
    }
}

/// The characters of `s`, in order.
fn chars_of(s: &str) -> (r: Vec<char>)
    ensures
        r@ == s@,
{
    let mut v: Vec<char> = Vec::new();
    for c in it: s.chars()
        invariant
            v@ == it.seq().take(it.index() as int),
    {
        v.push(c);
    }
    v
}


fn white_space(c: char) -> (r: bool)
    ensures
        r == is_white_space(c),
{
    ('\t' <= c && c <= '\r') || c == ' ' || c == '\u{85}' || c == '\u{a0}' || c == '\u{1680}' || (
    '\u{2000}' <= c && c <= '\u{200a}') || c == '\u{2028}' || c == '\u{2029}' || c == '\u{202f}'
        || c == '\u{205f}' || c == '\u{3000}'
}

fn punctuation(c: char) -> (r: bool)
    ensures
        r == is_punctuation(c),
{
    c == '.' || c == '!' || c == '?' || c == ',' || c == ';' || c == ':' || c == '/' || c == '&'
        || c == '#' || c == '*' || c == '_' || c == '(' || c == ')' || c == '[' || c == ']' || c
        == '{' || c == '}' || c == '<' || c == '>' || c == '\'' || c == '`' || c == '"'
}

/// `word` with every ASCII letter lowercased.
fn ascii_lowercase(word: &str) -> (r: String)
    ensures
        r@ == lowercase(word@),
        is_ascii_chars(word@) ==> is_ascii_chars(r@),
{
    let chars = chars_of(word);
    let mut out = String::new();
    let mut i: usize = 0;
    while i < chars.len()
        invariant
            chars@ == word@,
            i <= chars@.len(),
            out@ == lowercase(word@.take(i as int)),
            is_ascii_chars(word@) ==> is_ascii_chars(out@),
        decreases chars@.len() - i,
    {
        let c = chars[i];
        assert(c == word@[i as int]);
        let l = if 'A' <= c && c <= 'Z' {
            ((c as u8) + 32) as char
        } else {
            c
        };
        push_char(&mut out, l);
        i = i + 1;
        assert(out@ =~= lowercase(word@.take(i as int)));
    }
    assert(word@.take(i as int) =~= word@);
    out
}

/// The first position at or after `pos` that holds no whitespace, or the end.
fn skip_white_space(chars: &Vec<char>, pos: usize) -> (r: usize)
    requires
        pos <= chars@.len(),
    ensures
        pos <= r <= chars@.len(),
        r == chars@.len() || !is_white_space(chars@[r as int]),
        tokens(chars@.skip(r as int)) == tokens(chars@.skip(pos as int)),
{
    let mut p = pos;
    while p < chars.len() && white_space(chars[p])
        invariant
            pos <= p <= chars@.len(),
            tokens(chars@.skip(p as int)) == tokens(chars@.skip(pos as int)),
        decreases chars@.len() - p,
    {
        assert(chars@.skip(p as int).drop_first() =~= chars@.skip(p + 1));
        p = p + 1;
    }
    p
}

/// The end of the word that starts at `start`.
fn word_end(chars: &Vec<char>, start: usize) -> (r: usize)
    requires
        start < chars@.len(),
    ensures
        start <= r <= chars@.len(),
        word_len(chars@.skip(start as int)) == r - start,
{
    let mut p = start;
    while p < chars.len() && !white_space(chars[p])
        invariant
            start <= p <= chars@.len(),
            word_len(chars@.skip(start as int)) == (p - start) + word_len(chars@.skip(p as int)),
        decreases chars@.len() - p,
    {
        assert(chars@.skip(p as int).drop_first() =~= chars@.skip(p + 1));
        p = p + 1;
    }
    p
}

/// The characters from `start` up to `end`, as a string.
fn string_of(chars: &Vec<char>, start: usize, end: usize) -> (r: String)
    requires
        start <= end <= chars@.len(),
    ensures
        r@ == chars@.subrange(start as int, end as int),
{
    let mut out = String::new();
    let mut i = start;
    while i < end
        invariant
            start <= i <= end <= chars@.len(),
            out@ == chars@.subrange(start as int, i as int),
        decreases end - i,
    {
        push_char(&mut out, chars[i]);
        i = i + 1;
        assert(out@ =~= chars@.subrange(start as int, i as int));
    }
    out
}

/// `word` without the punctuation characters.
fn strip_punctuation(word: &str) -> (r: String)
    ensures
        r@ == strip(word@),
        is_ascii_chars(word@) ==> is_ascii_chars(r@),
{
    let chars = chars_of(word);
    let mut out = String::new();
    let mut i: usize = 0;
    while i < chars.len()
        invariant
            chars@ == word@,
            i <= chars@.len(),
            out@ == strip(word@.take(i as int)),
            is_ascii_chars(word@) ==> is_ascii_chars(out@),
        decreases chars@.len() - i,
    {
        let c = chars[i];
        assert(c == word@[i as int]);
        assert(word@.take(i + 1).drop_last() =~= word@.take(i as int));
        assert(word@.take(i + 1).last() == c);
        reveal(Seq::filter);
        if !punctuation(c) {
            push_char(&mut out, c);
        }
        i = i + 1;
    }
    assert(word@.take(i as int) =~= word@);
    out
}

/// The token that an already transliterated word stands for: the word
/// without its punctuation, lowercased. ASCII input gives ASCII output.
pub fn normalize_folded(folded: &str) -> (r: String)
    ensures
        r@ == lowercase(strip(folded@)),
        is_ascii_chars(folded@) ==> is_ascii_chars(r@),
{
    let cleaned = strip_punctuation(folded);
    ascii_lowercase(cleaned.as_str())
}

/// The tokens of a text, handed out one at a time.
pub struct Tokens {
    chars: Vec<char>,
    pos: usize,
}

impl View for Tokens {
    type V = Seq<Seq<char>>;

    /// The tokens not handed out yet.
    closed spec fn view(&self) -> Seq<Seq<char>> {
        tokens(self.chars@.skip(self.pos as int))
    }
}

impl Tokens {
    #[verifier::type_invariant]
    spec fn inv(self) -> bool {
        self.pos <= self.chars@.len()
    }

    /// The tokens of `words`.
    pub fn new(words: &str) -> (r: Tokens)
        ensures
            r@ == tokens(words@),
    {
        let chars = chars_of(words);
        assert(chars@.skip(0) =~= words@);
        Tokens { chars, pos: 0 }
    }

    /// `word` without the punctuation characters.
    pub fn clean_word(&self, word: &str) -> (r: String)
        ensures
            r@ == strip(word@),
    {
        strip_punctuation(word)
    }

    /// The token that `word` stands for; it is ASCII.
    fn normalize_word(&self, word: &str) -> (r: String)
        ensures
            r@ == normalize(word@),
            is_ascii_chars(r@),
    {
        let folded = transliterate(word);
        normalize_folded(folded.as_str())
    }

    /// The next token, if any is left.
    pub fn next(&mut self) -> (r: Option<String>)
        ensures
            old(self)@.len() == 0 ==> r is None && final(self)@ == old(self)@,
            old(self)@.len() > 0 ==> (r matches Some(t) && t@ == old(self)@[0] && final(self)@
                == old(self)@.drop_first()),
            r matches Some(t) ==> is_ascii_chars(t@),
    {
        proof {
            use_type_invariant(&*self);
        }
        let ghost start = self@;
        loop
            invariant
                start == old(self)@,
                self.pos <= self.chars@.len(),
                self@ == start,
            decreases self.chars@.len() - self.pos,
        {
            let p = skip_white_space(&self.chars, self.pos);
            self.pos = p;
            if p == self.chars.len() {
                assert(self.chars@.skip(p as int) =~= Seq::<char>::empty());
                assert(tokens(Seq::<char>::empty()) == Seq::<Seq<char>>::empty());
                return None;
            }
            let end = word_end(&self.chars, p);
            let ghost s = self.chars@.skip(p as int);
            proof {
                assert(s.take((end - p) as int) =~= self.chars@.subrange(p as int, end as int));
                assert(s.skip((end - p) as int) =~= self.chars@.skip(end as int));
            }
            let word = string_of(&self.chars, p, end);
            let token = self.normalize_word(word.as_str());
            proof {
                assert(s[0] == self.chars@[p as int]);
                assert(word_len(s) > 0);
                assert(tokens(s) == if token@.len() > 0 {
                    seq![token@] + tokens(self.chars@.skip(end as int))
                } else {
                    tokens(self.chars@.skip(end as int))
                });
            }
            self.pos = end;
            if !token.as_str().is_empty() {
                assert((seq![token@] + tokens(self.chars@.skip(end as int))).drop_first() =~= tokens(
                    self.chars@.skip(end as int),
                ));
                return Some(token);
            }
        }
    }
}
} // verus!
