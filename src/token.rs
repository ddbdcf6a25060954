use vstd::prelude::*;

verus! {

/// The reserved words of the language.
#[derive(Debug, Clone, Copy, PartialEq, Eq, Structural)]
pub enum Keyword {
    /// `given`
    Constant,
    /// `let`
    Variable,
    /// `fn`
    Function,
}

/// A name, or the discard identifier `_`.
#[derive(Debug, PartialEq, Eq)]
pub enum Identifier {
    Named(String),
    Discard,
}

#[derive(Debug, Clone, Copy, PartialEq, Eq, Structural)]
pub enum Operator {
    /// `=`
    Assignment,
    /// `:`
    Type,
    /// `->`
    ReturnType,
}

#[derive(Debug, Clone, Copy, PartialEq, Eq, Structural)]
pub enum Delimiter {
    /// `(`
    OpenParen,
    /// `)`
    CloseParen,
    /// `{`
    OpenBrace,
    /// `}`
    CloseBrace,
}

/// One lexical unit of the input.
#[derive(Debug, PartialEq, Eq)]
pub enum Token {
    Keyword(Keyword),
    Identifier(Identifier),
    Operator(Operator),
    Delimiter(Delimiter),
    /// `,`
    Separator,
    /// The text after `//` up to the end of the line.
    Comment(String),
    /// Marks the end of the input; it is the last token produced.
    EndOfInput,
}

/// The mathematical value of a token: strings are seen as character sequences.
pub enum TokenView {
    Keyword(Keyword),
    Named(Seq<char>),
    Discard,
    Operator(Operator),
    Delimiter(Delimiter),
    Separator,
    Comment(Seq<char>),
    EndOfInput,
}

impl View for Token {
    type V = TokenView;

    open spec fn view(&self) -> TokenView {
        match self {
            Token::Keyword(k) => TokenView::Keyword(*k),
            Token::Identifier(Identifier::Named(s)) => TokenView::Named(s@),
            Token::Identifier(Identifier::Discard) => TokenView::Discard,
            Token::Operator(o) => TokenView::Operator(*o),
            Token::Delimiter(d) => TokenView::Delimiter(*d),
            Token::Separator => TokenView::Separator,
            Token::Comment(s) => TokenView::Comment(s@),
            Token::EndOfInput => TokenView::EndOfInput,
        }
    }
}

/// The keyword that `s` spells, if any.
pub open spec fn keyword_spelled(s: Seq<char>) -> Option<Keyword> {
    if s == seq!['g', 'i', 'v', 'e', 'n'] {
        Some(Keyword::Constant)
    } else if s == seq!['l', 'e', 't'] {
        Some(Keyword::Variable)
    } else if s == seq!['f', 'n'] {
        Some(Keyword::Function)
    } else {
        None
    }
}

/// The token that a word stands for: `_` is the discard identifier, a keyword
/// spelling is its keyword, and anything else is a named identifier.
pub open spec fn keydentifier(s: Seq<char>) -> TokenView {
    if s == seq!['_'] {
        TokenView::Discard
    } else {
        match keyword_spelled(s) {
            Some(k) => TokenView::Keyword(k),
            None => TokenView::Named(s),
        }
    }
}

/// Whether two strings hold the same characters.
fn same_chars(a: &str, b: &str) -> (r: bool)
    ensures
        r == (a@ == b@),
{
    let n = a.unicode_len();
    if n != b.unicode_len() {
        return false;
    }
    let mut i: usize = 0;
    while i < n
        invariant
            n == a@.len(),
            n == b@.len(),
            i <= n,
            a@.subrange(0, i as int) == b@.subrange(0, i as int),
        decreases n - i,
    {
        if a.get_char(i) != b.get_char(i) {
            return false;
        }
        assert(a@.subrange(0, i + 1) == a@.subrange(0, i as int).push(a@[i as int]));
        assert(b@.subrange(0, i + 1) == b@.subrange(0, i as int).push(b@[i as int]));
        i = i + 1;
    }
    assert(a@ == a@.subrange(0, n as int));
    assert(b@ == b@.subrange(0, n as int));
    true
}

impl Keyword {
    /// The keyword spelled by `input`; `Err(())` when it spells none.
    pub fn try_from(input: &str) -> (r: Result<Keyword, ()>)
        ensures
            match keyword_spelled(input@) {
                Some(k) => r == Ok::<Keyword, ()>(k),
                None => r is Err,
            },
    {
        proof {
            reveal_strlit("given");
            reveal_strlit("let");
            reveal_strlit("fn");
        }
        assert("given"@ == seq!['g', 'i', 'v', 'e', 'n']);
        assert("let"@ == seq!['l', 'e', 't']);
        assert("fn"@ == seq!['f', 'n']);
        if same_chars(input, "given") {
            Ok(Keyword::Constant)
        } else if same_chars(input, "let") {
            Ok(Keyword::Variable)
        } else if same_chars(input, "fn") {
            Ok(Keyword::Function)
        } else {
            Err(())
        }
    }
}

impl Token {
    /// Decides whether a word is the discard identifier, a keyword or a name.
    pub fn parse_keydentifier(input: String) -> (t: Token)
        ensures
            t@ == keydentifier(input@),
    {
        proof {
            reveal_strlit("_");
        }
        assert("_"@ == seq!['_']);
        if same_chars(input.as_str(), "_") {
            return Token::Identifier(Identifier::Discard);
        }
        match Keyword::try_from(input.as_str()) {
            Ok(k) => Token::Keyword(k),
            Err(()) => Token::Identifier(Identifier::Named(input)),
        }
    }
}

} // verus!
