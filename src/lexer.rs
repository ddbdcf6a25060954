use vstd::prelude::*;

use crate::multi_peek::MultiPeek;
use crate::source::ByteSource;
use crate::token::{
    keydentifier, keyword_spelled, Delimiter, Operator, Token, TokenView,
};

verus! {

// The ASCII bytes that the lexical rules name.
pub const UNDERSCORE: u8 = 0x5F;
pub const NEWLINE: u8 = 0x0A;
pub const EQUALS: u8 = 0x3D;
pub const COLON: u8 = 0x3A;
pub const OPEN_PAREN: u8 = 0x28;
pub const CLOSE_PAREN: u8 = 0x29;
pub const OPEN_BRACE: u8 = 0x7B;
pub const CLOSE_BRACE: u8 = 0x7D;
pub const COMMA: u8 = 0x2C;
pub const MINUS: u8 = 0x2D;
pub const GREATER: u8 = 0x3E;
pub const SLASH: u8 = 0x2F;

/// Why no token could be produced.
#[derive(Debug)]
pub enum LexerError {
    /// The underlying source failed to read.
    IoError(std::io::Error),
    /// A byte that starts no token, read as a character.
    UnexpectedChar(char),
}

/// Whitespace: a byte read as a character with the Unicode White_Space property.
pub open spec fn is_space(b: u8) -> bool {
    (9 <= b && b <= 13) || b == 32 || b == 0x85 || b == 0xA0
}

/// A byte read as an alphabetic character: ASCII letters and the Latin-1 letters.
pub open spec fn is_alpha(b: u8) -> bool {
    ||| (0x41 <= b && b <= 0x5A)
    ||| (0x61 <= b && b <= 0x7A)
    ||| b == 0xAA || b == 0xB5 || b == 0xBA
    ||| (0xC0 <= b && b <= 0xD6)
    ||| (0xD8 <= b && b <= 0xF6)
    ||| 0xF8 <= b
}

/// A byte read as a numeric character: ASCII digits, superscripts and fractions.
pub open spec fn is_numeric(b: u8) -> bool {
    (0x30 <= b && b <= 0x39) || b == 0xB2 || b == 0xB3 || b == 0xB9 || (0xBC <= b && b <= 0xBE)
}

/// A byte that can begin a word.
pub open spec fn starts_word(b: u8) -> bool {
    is_alpha(b) || b == UNDERSCORE
}

/// A byte that can continue a word.
pub open spec fn continues_word(b: u8) -> bool {
    is_alpha(b) || is_numeric(b) || b == UNDERSCORE
}

/// Bytes read as characters, one for one.
pub open spec fn chars_of(s: Seq<u8>) -> Seq<char> {
    s.map_values(|b: u8| b as char)
}

/// The first index from `i` on that holds no whitespace, or the length.
pub open spec fn skip_space(s: Seq<u8>, i: int) -> int
    decreases s.len() - i,
{
    if 0 <= i < s.len() && is_space(s[i]) {
        skip_space(s, i + 1)
    } else {
        i
    }
}

/// The end of the run of word bytes that starts at `i`.
pub open spec fn word_end(s: Seq<u8>, i: int) -> int
    decreases s.len() - i,
{
    if 0 <= i < s.len() && continues_word(s[i]) {
        word_end(s, i + 1)
    } else {
        i
    }
}

/// The index of the first newline from `i` on, or the length.
pub open spec fn line_end(s: Seq<u8>, i: int) -> int
    decreases s.len() - i,
{
    if 0 <= i < s.len() && s[i] != NEWLINE {
        line_end(s, i + 1)
    } else {
        i
    }
}

/// What one request for a token finds at the front of the bytes `s`.
pub enum Scan {
    /// A token, and how many bytes it takes up, leading whitespace included.
    Produced(TokenView, int),
    /// A character that starts no token.
    Unexpected(char),
    /// Nothing but whitespace is left.
    Exhausted,
}

/// The token a single character stands for, if it stands for one alone.
pub open spec fn single(b: u8) -> Option<TokenView> {
    if b == EQUALS {
        Some(TokenView::Operator(Operator::Assignment))
    } else if b == COLON {
        Some(TokenView::Operator(Operator::Type))
    } else if b == OPEN_PAREN {
        Some(TokenView::Delimiter(Delimiter::OpenParen))
    } else if b == CLOSE_PAREN {
        Some(TokenView::Delimiter(Delimiter::CloseParen))
    } else if b == OPEN_BRACE {
        Some(TokenView::Delimiter(Delimiter::OpenBrace))
    } else if b == CLOSE_BRACE {
        Some(TokenView::Delimiter(Delimiter::CloseBrace))
    } else if b == COMMA {
        Some(TokenView::Separator)
    } else {
        None
    }
}

/// The lexical rules: the token at the front of `s`, after whitespace.
pub open spec fn scan(s: Seq<u8>) -> Scan {
    let i = skip_space(s, 0);
    if i >= s.len() {
        Scan::Exhausted
    } else {
        let b = s[i];
        if starts_word(b) {
            let j = word_end(s, i + 1);
            Scan::Produced(keydentifier(chars_of(s.subrange(i, j))), j)
        } else if single(b) is Some {
            Scan::Produced(single(b)->0, i + 1)
        } else if b == MINUS {
            if i + 1 < s.len() && s[i + 1] == GREATER {
                Scan::Produced(TokenView::Operator(Operator::ReturnType), i + 2)
            } else {
                Scan::Unexpected('-')
            }
        } else if b == SLASH {
            if i + 1 < s.len() && s[i + 1] == SLASH {
                let k = line_end(s, i + 2);
                Scan::Produced(
                    TokenView::Comment(chars_of(s.subrange(i + 2, k))),
                    if k < s.len() {
                        k + 1
                    } else {
                        k
                    },
                )
            } else {
                Scan::Unexpected('/')
            }
        } else {
            Scan::Unexpected(b as char)
        }
    }
}

/// What one item of the token stream is, seen mathematically.
pub enum Lexeme {
    Token(TokenView),
    Unexpected(char),
    Failure,
}

pub open spec fn lexeme_of(r: Result<Token, LexerError>) -> Lexeme {
    match r {
        Ok(t) => Lexeme::Token(t@),
        Err(LexerError::UnexpectedChar(c)) => Lexeme::Unexpected(c),
        Err(LexerError::IoError(_)) => Lexeme::Failure,
    }
}

pub open spec fn lexemes_of(rs: Seq<Result<Token, LexerError>>) -> Seq<Lexeme> {
    rs.map_values(|r: Result<Token, LexerError>| lexeme_of(r))
}

/// The whole token stream of the bytes `s`: tokens one after the other,
/// ending with `EndOfInput` or with the first unexpected character.
pub open spec fn tokens_of(s: Seq<u8>) -> Seq<Lexeme>
    decreases s.len(),
{
    match scan(s) {
        Scan::Produced(t, n) => if 0 < n <= s.len() {
            seq![Lexeme::Token(t)] + tokens_of(s.skip(n))
        } else {
            seq![Lexeme::Token(t)]
        },
        Scan::Unexpected(c) => seq![Lexeme::Unexpected(c)],
        Scan::Exhausted => seq![Lexeme::Token(TokenView::EndOfInput)],
    }
}

/// Each produced token takes up at least one byte, and no more than there are.
pub proof fn lemma_scan_progress(s: Seq<u8>)
    ensures
        scan(s) matches Scan::Produced(_, n) ==> 0 < n <= s.len(),
{
    lemma_skip_space_bounds(s, 0);
    let i = skip_space(s, 0);
    if i < s.len() {
        if i + 1 <= s.len() {
            lemma_word_end_bounds(s, i + 1);
        }
        if i + 2 <= s.len() {
            lemma_line_end_bounds(s, i + 2);
        }
    }
}

fn is_space_byte(b: u8) -> (r: bool)
    ensures
        r == is_space(b),
{
    (9 <= b && b <= 13) || b == 32 || b == 0x85 || b == 0xA0
}

fn is_alpha_byte(b: u8) -> (r: bool)
    ensures
        r == is_alpha(b),
{
    (0x41 <= b && b <= 0x5A) || (0x61 <= b && b <= 0x7A) || b == 0xAA || b == 0xB5 || b == 0xBA
        || (0xC0 <= b && b <= 0xD6) || (0xD8 <= b && b <= 0xF6) || 0xF8 <= b
}

fn is_numeric_byte(b: u8) -> (r: bool)
    ensures
        r == is_numeric(b),
{
    (0x30 <= b && b <= 0x39) || b == 0xB2 || b == 0xB3 || b == 0xB9 || (0xBC <= b && b <= 0xBE)
}

/// Relies on String::push: appends the character at the end of the string.
#[verifier::external_body]
fn push_char(s: &mut String, c: char)
    ensures
        final(s)@ == old(s)@.push(c),
{
    s.push(c)
}

fn is_word_start(b: u8) -> (r: bool)
    ensures
        r == starts_word(b),
{
    is_alpha_byte(b) || b == UNDERSCORE
}

fn is_word_continue(b: u8) -> (r: bool)
    ensures
        r == continues_word(b),
{
    is_alpha_byte(b) || is_numeric_byte(b) || b == UNDERSCORE
}

/// The bytes still to come are those of `s0` from index `j` on.
proof fn lemma_front(input: &MultiPeek, s0: Seq<u8>, c0: int, j: int)
    requires
        input.wf(),
        0 <= c0 <= input.origin().len(),
        s0 == input.origin().skip(c0),
        0 <= j <= s0.len(),
        input.cursor() == c0 + j,
    ensures
        input.stream() == s0.skip(j),
        input.stream().len() == s0.len() - j,
{
    assert(input.stream() =~= s0.skip(j));
}

proof fn lemma_word_end_bounds(s: Seq<u8>, i: int)
    requires
        0 <= i <= s.len(),
    ensures
        i <= word_end(s, i) <= s.len(),
        word_end(s, i) < s.len() ==> !continues_word(s[word_end(s, i)]),
    decreases s.len() - i,
{
    if i < s.len() && continues_word(s[i]) {
        lemma_word_end_bounds(s, i + 1);
    }
}

proof fn lemma_line_end_bounds(s: Seq<u8>, i: int)
    requires
        0 <= i <= s.len(),
    ensures
        i <= line_end(s, i) <= s.len(),
        line_end(s, i) < s.len() ==> s[line_end(s, i)] == NEWLINE,
    decreases s.len() - i,
{
    if i < s.len() && s[i] != NEWLINE {
        lemma_line_end_bounds(s, i + 1);
    }
}

proof fn lemma_skip_space_bounds(s: Seq<u8>, i: int)
    requires
        0 <= i <= s.len(),
    ensures
        i <= skip_space(s, i) <= s.len(),
        skip_space(s, i) < s.len() ==> !is_space(s[skip_space(s, i)]),
        forall|k: int| i <= k < skip_space(s, i) ==> is_space(#[trigger] s[k]),
    decreases s.len() - i,
{
    if i < s.len() && is_space(s[i]) {
        lemma_skip_space_bounds(s, i + 1);
    }
}

/// Reads the rest of a word whose first byte, `first`, sits at index `i` of
/// `s0`, the bytes from position `c0` of the source on.
fn read_word(
    input: &mut MultiPeek,
    first: u8,
    Ghost(s0): Ghost<Seq<u8>>,
    Ghost(c0): Ghost<int>,
    Ghost(i): Ghost<int>,
) -> (r: String)
    requires
        old(input).wf(),
        0 <= c0 <= old(input).origin().len(),
        s0 == old(input).origin().skip(c0),
        0 <= i < s0.len(),
        s0[i] == first,
        old(input).cursor() == c0 + i + 1,
    ensures
        final(input).wf(),
        final(input).origin() == old(input).origin(),
        final(input).failure() == old(input).failure(),
        final(input).cursor() == c0 + word_end(s0, i + 1),
        r@ == chars_of(s0.subrange(i, word_end(s0, i + 1))),
{
    let mut word = String::new();
    push_char(&mut word, first as char);
    assert(word@ =~= chars_of(s0.subrange(i, i + 1)));
    let ghost mut j: int = i + 1;
    loop
        invariant
            input.wf(),
            input.origin() == old(input).origin(),
            input.failure() == old(input).failure(),
            0 <= c0 <= input.origin().len(),
            s0 == input.origin().skip(c0),
            0 <= i,
            i + 1 <= j <= s0.len(),
            input.cursor() == c0 + j,
            word_end(s0, j) == word_end(s0, i + 1),
            word@ == chars_of(s0.subrange(i, j)),
        ensures
            input.wf(),
            input.origin() == old(input).origin(),
            input.failure() == old(input).failure(),
            input.cursor() == c0 + j,
            j == word_end(s0, i + 1),
            word@ == chars_of(s0.subrange(i, j)),
        decreases s0.len() - j,
    {
        proof {
            lemma_front(&*input, s0, c0, j);
        }
        match input.peek() {
            Some(Ok(b)) => {
                assert(b == s0[j]);
                if !is_word_continue(b) {
                    break;
                }
                push_char(&mut word, b as char);
                input.skip(1);
                assert(chars_of(s0.subrange(i, j + 1)) =~= chars_of(s0.subrange(i, j)).push(
                    b as char,
                ));
                proof {
                    j = j + 1;
                }
            },
            _ => {
                assert(j == s0.len());
                break;
            },
        }
    }
    word
}

/// Reads a comment's text up to the end of its line; `i` is the index in `s0`
/// of the `//` that opened it.
fn read_comment(
    input: &mut MultiPeek,
    Ghost(s0): Ghost<Seq<u8>>,
    Ghost(c0): Ghost<int>,
    Ghost(i): Ghost<int>,
) -> (r: String)
    requires
        old(input).wf(),
        0 <= c0 <= old(input).origin().len(),
        s0 == old(input).origin().skip(c0),
        0 <= i,
        i + 2 <= s0.len(),
        old(input).cursor() == c0 + i + 2,
    ensures
        final(input).wf(),
        final(input).origin() == old(input).origin(),
        final(input).failure() == old(input).failure(),
        final(input).cursor() == c0 + if line_end(s0, i + 2) < s0.len() {
            line_end(s0, i + 2) + 1
        } else {
            line_end(s0, i + 2)
        },
        r@ == chars_of(s0.subrange(i + 2, line_end(s0, i + 2))),
{
    let mut text = String::new();
    assert(text@ =~= chars_of(s0.subrange(i + 2, i + 2)));
    let ghost mut j: int = i + 2;
    loop
        invariant_except_break
            input.cursor() == c0 + j,
        invariant
            input.wf(),
            input.origin() == old(input).origin(),
            input.failure() == old(input).failure(),
            0 <= c0 <= input.origin().len(),
            s0 == input.origin().skip(c0),
            0 <= i,
            i + 2 <= j <= s0.len(),
            line_end(s0, j) == line_end(s0, i + 2),
            text@ == chars_of(s0.subrange(i + 2, j)),
        ensures
            input.wf(),
            input.origin() == old(input).origin(),
            input.failure() == old(input).failure(),
            j == line_end(s0, i + 2),
            input.cursor() == c0 + if j < s0.len() {
                j + 1
            } else {
                j
            },
            text@ == chars_of(s0.subrange(i + 2, j)),
        decreases s0.len() - j,
    {
        proof {
            lemma_front(&*input, s0, c0, j);
        }
        match input.peek() {
            Some(Ok(b)) => {
                assert(b == s0[j]);
                input.skip(1);
                if b == NEWLINE {
                    break;
                }
                push_char(&mut text, b as char);
                assert(chars_of(s0.subrange(i + 2, j + 1)) =~= chars_of(
                    s0.subrange(i + 2, j),
                ).push(b as char));
                proof {
                    j = j + 1;
                }
            },
            _ => {
                assert(j == s0.len());
                break;
            },
        }
    }
    text
}

/// Consumes `chars` if the input continues with exactly them; otherwise
/// consumes nothing.
fn consume_if_eq(iter: &mut MultiPeek, chars: &[u8]) -> (r: bool)
    requires
        old(iter).wf(),
    ensures
        final(iter).wf(),
        final(iter).origin() == old(iter).origin(),
        final(iter).failure() == old(iter).failure(),
        r == (chars@.len() <= old(iter).stream().len() && old(iter).stream().take(
            chars@.len() as int,
        ) == chars@),
        r ==> final(iter).cursor() == old(iter).cursor() + chars@.len(),
        !r ==> final(iter).cursor() == old(iter).cursor(),
        chars@.len() == 0 ==> final(iter).buffered() == old(iter).buffered(),
{
    if chars.len() == 0 {
        assert(old(iter).stream().take(0) =~= chars@);
        return true;
    }
    let ghost s = iter.stream();
    let mut i: usize = 0;
    while i < chars.len()
        invariant
            iter.wf(),
            iter.origin() == old(iter).origin(),
            iter.failure() == old(iter).failure(),
            iter.cursor() == old(iter).cursor(),
            s == old(iter).stream(),
            i <= chars@.len(),
            i <= s.len(),
            s.take(i as int) == chars@.take(i as int),
        decreases chars.len() - i,
    {
        match iter.peek_nth(i) {
            Some(Ok(b)) => {
                if b != chars[i] {
                    assert(chars@.len() <= s.len() ==> s.take(chars@.len() as int)[i as int]
                        != chars@[i as int]);
                    return false;
                }
            },
            _ => {
                return false;
            },
        }
        assert(s.take(i + 1) =~= s.take(i as int).push(s[i as int]));
        assert(chars@.take(i + 1) =~= chars@.take(i as int).push(chars@[i as int]));
        i = i + 1;
    }
    assert(chars@.take(chars@.len() as int) =~= chars@);
    iter.skip(chars.len());
    true
}

/// One call of `Lexer::next`: what it returns and the state it leaves, from
/// the state `before`.
pub open spec fn next_step(
    before: Lexer,
    r: Option<Result<Token, LexerError>>,
    after: Lexer,
) -> bool {
    &&& after.failure() is Some ==> after.failure() == before.failure()
    &&& before.is_done() ==> {
        &&& r is None
        &&& after.is_done()
        &&& after.stream() == before.stream()
    }
    &&& !before.is_done() ==> match scan(before.stream()) {
        Scan::Produced(t, n) => {
            &&& r matches Some(Ok(tok)) && tok@ == t
            &&& !after.is_done()
            &&& after.stream() == before.stream().skip(n)
            &&& after.failure() == before.failure()
        },
        Scan::Unexpected(c) => {
            &&& r == Some(Err::<Token, LexerError>(LexerError::UnexpectedChar(c)))
            &&& after.is_done()
        },
        Scan::Exhausted => {
            &&& after.is_done()
            &&& match before.failure() {
                Some(e) => r == Some(Err::<Token, LexerError>(LexerError::IoError(e))),
                None => r matches Some(Ok(tok)) && tok@ == TokenView::EndOfInput,
            }
        },
    }
}

/// Produces tokens one at a time from a byte source.
pub struct Lexer {
    input: MultiPeek,
    done: bool,
}

impl Lexer {
    pub open spec fn wf(&self) -> bool {
        self.buffer().wf()
    }

    pub closed spec fn buffer(&self) -> MultiPeek {
        self.input
    }

    /// Whether the lexer has produced its last item.
    pub closed spec fn is_done(&self) -> bool {
        self.done
    }

    /// The bytes not consumed yet.
    pub open spec fn stream(&self) -> Seq<u8> {
        self.buffer().stream()
    }

    /// The read error that follows the bytes, if any.
    pub open spec fn failure(&self) -> Option<std::io::Error> {
        self.buffer().failure()
    }

    pub fn new(reader: ByteSource) -> (l: Lexer)
        requires
            reader.wf(),
        ensures
            l.wf(),
            l.stream() == reader.remaining(),
            l.failure() == reader.failure(),
            !l.is_done(),
    {
        Lexer { input: MultiPeek::new(reader), done: false }
    }
    /// Produces the next token, or the error that ends the stream; `None`
    /// once `EndOfInput` or an error has been produced.
    pub fn next(&mut self) -> (r: Option<Result<Token, LexerError>>)
        requires
            old(self).wf(),
        ensures
            final(self).wf(),
            final(self).stream().len() <= old(self).stream().len(),
            next_step(*old(self), r, *final(self)),
    {
        if self.done {
            return None;
        }
        let ghost s0 = self.input.stream();
        let ghost c0 = self.input.cursor() as int;
        let ghost mut p: int = 0;
        let mut b: u8 = 0;
        loop
            invariant_except_break
                self.input.cursor() == c0 + p,
                skip_space(s0, p) == skip_space(s0, 0),
            invariant
                self.input.wf(),
                !self.done,
                !old(self).is_done(),
                self.input.origin() == old(self).buffer().origin(),
                self.input.failure() == old(self).buffer().failure(),
                s0 == old(self).stream(),
                0 <= c0 <= self.input.origin().len(),
                s0 == self.input.origin().skip(c0),
                0 <= p <= s0.len(),
            ensures
                self.input.wf(),
                !self.done,
                self.input.origin() == old(self).buffer().origin(),
                self.input.failure() == old(self).buffer().failure(),
                p < s0.len(),
                s0[p] == b,
                skip_space(s0, 0) == p,
                self.input.cursor() == c0 + p + 1,
            decreases s0.len() - p,
        {
            proof {
                lemma_front(&self.input, s0, c0, p);
            }
            match self.input.next() {
                None => {
                    self.done = true;
                    return Some(Ok(Token::EndOfInput));
                },
                Some(Err(e)) => {
                    self.done = true;
                    return Some(Err(LexerError::IoError(e)));
                },
                Some(Ok(c)) => {
                    if !is_space_byte(c) {
                        b = c;
                        break;
                    }
                    proof {
                        p = p + 1;
                    }
                },
            }
        }
        let ghost i = p;
        if is_word_start(b) {
            let word = read_word(&mut self.input, b, Ghost(s0), Ghost(c0), Ghost(i));
            proof {
                lemma_word_end_bounds(s0, i + 1);
                lemma_front(&self.input, s0, c0, word_end(s0, i + 1));
            }
            return Some(Ok(Token::parse_keydentifier(word)));
        }
        let ghost mut n: int = i + 1;
        let tok = if b == EQUALS {
            Token::Operator(Operator::Assignment)
        } else if b == COLON {
            Token::Operator(Operator::Type)
        } else if b == OPEN_PAREN {
            Token::Delimiter(Delimiter::OpenParen)
        } else if b == CLOSE_PAREN {
            Token::Delimiter(Delimiter::CloseParen)
        } else if b == OPEN_BRACE {
            Token::Delimiter(Delimiter::OpenBrace)
        } else if b == CLOSE_BRACE {
            Token::Delimiter(Delimiter::CloseBrace)
        } else if b == COMMA {
            Token::Separator
        } else if b == MINUS {
            proof {
                lemma_front(&self.input, s0, c0, i + 1);
            }
            let follow: [u8; 1] = [GREATER];
            assert(follow@ =~= seq![GREATER]);
            let ghost ahead = self.input.stream();
            if consume_if_eq(&mut self.input, &follow) {
                proof {
                    n = i + 2;
                }
                Token::Operator(Operator::ReturnType)
            } else {
                assert(i + 1 < s0.len() && s0[i + 1] == GREATER ==> ahead.take(1) =~= seq![GREATER]);
                self.done = true;
                return Some(Err(LexerError::UnexpectedChar('-')));
            }
        } else if b == SLASH {
            proof {
                lemma_front(&self.input, s0, c0, i + 1);
            }
            let follow: [u8; 1] = [SLASH];
            assert(follow@ =~= seq![SLASH]);
            let ghost ahead = self.input.stream();
            if consume_if_eq(&mut self.input, &follow) {
                let text = read_comment(&mut self.input, Ghost(s0), Ghost(c0), Ghost(i));
                proof {
                    lemma_line_end_bounds(s0, i + 2);
                    n = self.input.cursor() - c0;
                }
                Token::Comment(text)
            } else {
                assert(i + 1 < s0.len() && s0[i + 1] == SLASH ==> ahead.take(1) =~= seq![SLASH]);
                self.done = true;
                return Some(Err(LexerError::UnexpectedChar('/')));
            }
        } else {
            self.done = true;
            return Some(Err(LexerError::UnexpectedChar(b as char)));
        };
        proof {
            lemma_front(&self.input, s0, c0, n);
        }
        Some(Ok(tok))
    }
}

/// Reads all of `input` and returns the token stream: every token in order,
/// ending with `EndOfInput`, or with the error at the first unexpected character.
pub fn tokenize(input: Vec<u8>) -> (r: Vec<Result<Token, LexerError>>)
    ensures
        lexemes_of(r@) == tokens_of(input@),
{
    let ghost whole = input@;
    let mut lexer = Lexer::new(ByteSource::new(input));
    assert(lexer.stream() =~= whole);
    let mut out: Vec<Result<Token, LexerError>> = Vec::new();
    loop
        invariant
            lexer.wf(),
            lexer.failure() is None,
            !lexer.is_done() ==> lexemes_of(out@) + tokens_of(lexer.stream()) == tokens_of(whole),
            lexer.is_done() ==> lexemes_of(out@) == tokens_of(whole),
        ensures
            lexemes_of(out@) == tokens_of(whole),
        decreases 2 * lexer.stream().len() + if lexer.is_done() {
            0int
        } else {
            1int
        },
    {
        let ghost before = lexer.stream();
        let ghost out_before = out@;
        proof {
            lemma_scan_progress(before);
        }
        match lexer.next() {
            None => {
                break;
            },
            Some(item) => {
                out.push(item);
                assert(lexemes_of(out@) =~= lexemes_of(out_before).push(lexeme_of(item)));
                proof {
                    if !lexer.is_done() {
                        assert(tokens_of(before) == seq![lexeme_of(item)] + tokens_of(
                            lexer.stream(),
                        ));
                        assert(lexemes_of(out@) + tokens_of(lexer.stream()) =~= lexemes_of(
                            out_before,
                        ) + tokens_of(before));
                    } else {
                        assert(tokens_of(before) == seq![lexeme_of(item)]);
                        assert(lexemes_of(out@) =~= lexemes_of(out_before) + tokens_of(before));
                    }
                }
            },
        }
    }
    out
}

proof fn lemma_word_runs_to_end(s: Seq<u8>, i: int)
    requires
        0 <= i <= s.len(),
        forall|k: int| i <= k < s.len() ==> continues_word(#[trigger] s[k]),
    ensures
        word_end(s, i) == s.len(),
    decreases s.len() - i,
{
    if i < s.len() {
        lemma_word_runs_to_end(s, i + 1);
    }
}

proof fn lemma_space_runs_to_end(s: Seq<u8>, i: int)
    requires
        0 <= i <= s.len(),
        forall|k: int| i <= k < s.len() ==> is_space(#[trigger] s[k]),
    ensures
        skip_space(s, i) == s.len(),
    decreases s.len() - i,
{
    if i < s.len() {
        lemma_space_runs_to_end(s, i + 1);
    }
}

/// Input made of whitespace alone gives exactly one token, `EndOfInput`.
pub proof fn lemma_whitespace_only(s: Seq<u8>)
    requires
        forall|k: int| 0 <= k < s.len() ==> is_space(#[trigger] s[k]),
    ensures
        tokens_of(s) == seq![Lexeme::Token(TokenView::EndOfInput)],
{
    lemma_space_runs_to_end(s, 0);
}

/// A word that is neither `_` nor a keyword spelling gives a named identifier
/// holding exactly its text, then `EndOfInput`.
pub proof fn lemma_word_is_named(s: Seq<u8>)
    requires
        s.len() > 0,
        starts_word(s[0]),
        forall|k: int| 0 < k < s.len() ==> continues_word(#[trigger] s[k]),
        chars_of(s) != seq!['_'],
        keyword_spelled(chars_of(s)) is None,
    ensures
        tokens_of(s) == seq![
            Lexeme::Token(TokenView::Named(chars_of(s))),
            Lexeme::Token(TokenView::EndOfInput),
        ],
{
    lemma_word_runs_to_end(s, 1);
    assert(s.subrange(0, s.len() as int) =~= s);
    let rest = s.skip(s.len() as int);
    assert(rest.len() == 0);
    assert(tokens_of(rest) == seq![Lexeme::Token(TokenView::EndOfInput)]);
    assert(tokens_of(s) =~= seq![
        Lexeme::Token(TokenView::Named(chars_of(s))),
        Lexeme::Token(TokenView::EndOfInput),
    ]);
}

/// A token that the stream goes on after.
pub open spec fn is_plain(l: Lexeme) -> bool {
    l matches Lexeme::Token(t) && t != TokenView::EndOfInput
}

/// The stream holds tokens, and ends with exactly one `EndOfInput` or with
/// one unexpected character: nothing else is terminal, and nothing follows it.
pub proof fn lemma_stream_shape(s: Seq<u8>)
    ensures
        tokens_of(s).len() >= 1,
        forall|k: int| 0 <= k < tokens_of(s).len() - 1 ==> is_plain(#[trigger] tokens_of(s)[k]),
        tokens_of(s).last() == Lexeme::Token(TokenView::EndOfInput) || tokens_of(
            s,
        ).last() is Unexpected,
    decreases s.len(),
{
    lemma_scan_progress(s);
    match scan(s) {
        Scan::Produced(t, n) => {
            lemma_scan_produces_no_end(s);
            let rest = s.skip(n);
            lemma_stream_shape(rest);
            assert(tokens_of(s) == seq![Lexeme::Token(t)] + tokens_of(rest));
            assert forall|k: int| 0 <= k < tokens_of(s).len() - 1 implies is_plain(
                #[trigger] tokens_of(s)[k],
            ) by {
                if k > 0 {
                    assert(tokens_of(s)[k] == tokens_of(rest)[k - 1]);
                }
            }
        },
        _ => {},
    }
}

/// A token read from the bytes is never the end marker.
proof fn lemma_scan_produces_no_end(s: Seq<u8>)
    ensures
        scan(s) matches Scan::Produced(t, _) ==> t != TokenView::EndOfInput,
{
}

/// Tokenizing the same bytes twice gives the same token stream: the result
/// depends on the bytes alone.
pub proof fn lemma_tokenize_repeatable(
    input: Seq<u8>,
    first: Seq<Result<Token, LexerError>>,
    second: Seq<Result<Token, LexerError>>,
)
    requires
        lexemes_of(first) == tokens_of(input),
        lexemes_of(second) == tokens_of(input),
    ensures
        lexemes_of(first) == lexemes_of(second),
{
}

/// What one call of `Lexer::next` hands out, seen mathematically.
pub open spec fn item_of(r: Option<Result<Token, LexerError>>) -> Option<Lexeme> {
    match r {
        Some(x) => Some(lexeme_of(x)),
        None => None,
    }
}

/// Lexing keeps no hidden state: two lexers in the same state (the same bytes
/// to come, a read failure to come or not, finished or not) hand out the same
/// item on their next call and are left in the same state again. Step by step,
/// two lexers made over the same bytes, at any two times, are drained into
/// equal sequences.
pub proof fn lemma_next_repeatable(
    a: Lexer,
    ra: Option<Result<Token, LexerError>>,
    a_after: Lexer,
    b: Lexer,
    rb: Option<Result<Token, LexerError>>,
    b_after: Lexer,
)
    requires
        next_step(a, ra, a_after),
        next_step(b, rb, b_after),
        a.stream() == b.stream(),
        a.is_done() == b.is_done(),
        (a.failure() is Some) == (b.failure() is Some),
    ensures
        item_of(ra) == item_of(rb),
        a_after.is_done() == b_after.is_done(),
        !a_after.is_done() ==> {
            &&& a_after.stream() == b_after.stream()
            &&& (a_after.failure() is Some) == (b_after.failure() is Some)
        },
{
}

} // verus!
