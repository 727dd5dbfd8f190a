//! The bottom layer: scalar values classified into separators and characters.
use vstd::prelude::*;

use crate::model::Tok;
use crate::separator::{is_reserved, token_of, tokens_of, FS, GS, RS, US};

verus! {

/// The failure of the text source to supply valid text.
#[verifier::external_type_specification]
#[verifier::external_body]
pub struct ExUtf8Error(utf8_read::Error);

/// Something that is either a separator or content.
pub trait Token {
    spec fn spec_is_separator(&self) -> bool;

    fn is_separator(&self) -> (r: bool)
        ensures
            r == self.spec_is_separator(),
    ;
}

/// A classified scalar value.
#[derive(Debug, Clone, Copy, PartialEq, Eq, Structural)]
pub enum CharToken {
    FileSeparator,
    GroupSeparator,
    RecordSeparator,
    UnitSeparator,
    Character(char),
}

impl View for CharToken {
    type V = Tok<char>;

    open spec fn view(&self) -> Tok<char> {
        match self {
            CharToken::FileSeparator => Tok::Bound(3),
            CharToken::GroupSeparator => Tok::Bound(2),
            CharToken::RecordSeparator => Tok::Bound(1),
            CharToken::UnitSeparator => Tok::Bound(0),
            CharToken::Character(c) => Tok::Item(*c),
        }
    }
}

impl Token for CharToken {
    open spec fn spec_is_separator(&self) -> bool {
        !(self is Character)
    }

    fn is_separator(&self) -> (r: bool) {
        match self {
            CharToken::Character(_) => false,
            _ => true,
        }
    }
}

/// Classifies one scalar value by exact comparison with the separators.
pub fn classify(c: char) -> (t: CharToken)
    ensures
        t@ == token_of(c),
{
    if c == FS {
        CharToken::FileSeparator
    } else if c == GS {
        CharToken::GroupSeparator
    } else if c == RS {
        CharToken::RecordSeparator
    } else if c == US {
        CharToken::UnitSeparator
    } else {
        CharToken::Character(c)
    }
}

/// Whether every content token of `s` is a character that is not reserved.
pub open spec fn plain_tokens(s: Seq<Tok<char>>) -> bool {
    forall|i: int| 0 <= i < s.len() ==> (#[trigger] s[i] matches Tok::Item(c) ==> !is_reserved(c))
}

/// The scalar values of a text, handed out one token at a time, followed by
/// the failure that ended the text, if any.
pub struct CharTokeniser {
    chars: Vec<char>,
    pos: usize,
    failure: Option<utf8_read::Error>,
}

impl CharTokeniser {
    pub closed spec fn wf(&self) -> bool {
        self.pos <= self.chars@.len()
    }

    /// The tokens still to come.
    pub closed spec fn rest(&self) -> Seq<Tok<char>> {
        tokens_of(self.chars@.subrange(self.pos as int, self.chars@.len() as int))
    }

    /// Whether a failure comes after the remaining tokens.
    pub closed spec fn fails(&self) -> bool {
        self.failure is Some
    }

    /// A tokeniser over `chars`, ended by `failure` if there is one.
    pub fn new(chars: Vec<char>, failure: Option<utf8_read::Error>) -> (r: Self)
        ensures
            r.wf(),
            r.rest() == tokens_of(chars@),
            r.fails() == failure is Some,
    {
        let r = CharTokeniser { chars, pos: 0, failure };
        assert(r.chars@.subrange(0, r.chars@.len() as int) =~= r.chars@);
        r
    }

    pub proof fn lemma_plain(&self)
        requires
            self.wf(),
        ensures
            plain_tokens(self.rest()),
    {
    }

    /// The next token; then the failure, once; then nothing.
    pub fn next(&mut self) -> (r: Option<Result<CharToken, utf8_read::Error>>)
        requires
            old(self).wf(),
        ensures
            final(self).wf(),
            crate::model::pulled(
                old(self).rest(),
                old(self).fails(),
                final(self).rest(),
                final(self).fails(),
                crate::model::outcome(r),
            ),
    {
        if self.pos < self.chars.len() {
            let c = self.chars[self.pos];
            let ghost s0 = self.chars@.subrange(self.pos as int, self.chars@.len() as int);
            self.pos = self.pos + 1;
            assert(self.chars@.subrange(self.pos as int, self.chars@.len() as int) =~= s0.drop_first());
            assert(tokens_of(s0.drop_first()) =~= tokens_of(s0).drop_first());
            Some(Ok(classify(c)))
        } else {
            match self.failure.take() {
                Some(e) => Some(Err(e)),
                None => None,
            }
        }
    }
}

} // verus!
