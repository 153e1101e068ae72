//! The parser's token window: the current token and the one after it.
use vstd::prelude::*;
use crate::ast::Program;
use crate::lexer::{lemma_eof_repeats, scan, Lexer, Token, TokenView};

verus! {

/// Reads tokens from a lexer with one token of lookahead.
pub struct Parser {
    lexer: Lexer,
    cur_token: Token,
    peek_token: Token,
}

impl Parser {
    /// The token under consideration.
    pub closed spec fn current(&self) -> TokenView {
        self.cur_token@
    }

    /// The token after it.
    pub closed spec fn peek(&self) -> TokenView {
        self.peek_token@
    }

    /// The lexer that the next token comes from.
    pub closed spec fn source_lexer(&self) -> Lexer {
        self.lexer
    }

    /// Once `Eof` enters the window it stays: the lookahead is `Eof` after a
    /// current `Eof`, and the lexer gives `Eof` again after a lookahead `Eof`.
    pub closed spec fn wf(&self) -> bool {
        &&& self.lexer.wf()
        &&& self.cur_token@ is Eof ==> self.peek_token@ is Eof
        &&& self.peek_token@ is Eof ==> scan(self.lexer.source(), self.lexer.cursor()) == (
            TokenView::Eof,
            self.lexer.cursor(),
        )
    }

    /// A parser whose window holds the lexer's next two tokens.
    pub fn new(lexer: Lexer) -> (p: Parser)
        requires
            lexer.wf(),
        ensures
            p.wf(),
            p.source_lexer().source() == lexer.source(),
            p.current() == scan(lexer.source(), lexer.cursor()).0,
            p.peek() == scan(lexer.source(), scan(lexer.source(), lexer.cursor()).1).0,
            p.source_lexer().cursor() == scan(
                lexer.source(),
                scan(lexer.source(), lexer.cursor()).1,
            ).1,
    {
        let mut lexer = lexer;
        let ghost c0 = lexer.cursor();
        let cur_token = lexer.next_token();
        let ghost c1 = lexer.cursor();
        let peek_token = lexer.next_token();
        proof {
            if cur_token@ is Eof {
                lemma_eof_repeats(lexer.source(), c0);
            }
            if peek_token@ is Eof {
                lemma_eof_repeats(lexer.source(), c1);
            }
        }
        Parser { lexer, cur_token, peek_token }
    }

    /// Moves the window one token on: the lookahead becomes the current
    /// token, and the lexer's next token the lookahead.
    pub fn next_token(&mut self)
        requires
            old(self).wf(),
        ensures
            final(self).wf(),
            final(self).current() == old(self).peek(),
            final(self).source_lexer().source() == old(self).source_lexer().source(),
            (final(self).peek(), final(self).source_lexer().cursor()) == scan(
                old(self).source_lexer().source(),
                old(self).source_lexer().cursor(),
            ),
    {
        let ghost c0 = self.lexer.cursor();
        let mut t = self.lexer.next_token();
        proof {
            if t@ is Eof {
                lemma_eof_repeats(self.lexer.source(), c0);
            }
        }
        std::mem::swap(&mut self.peek_token, &mut t);
        self.cur_token = t;
    }

    /// The token under consideration.
    pub fn cur_token(&self) -> (t: &Token)
        ensures
            t@ == self.current(),
    {
        &self.cur_token
    }

    /// The token after it.
    pub fn peek_token(&self) -> (t: &Token)
        ensures
            t@ == self.peek(),
    {
        &self.peek_token
    }

    /// No grammar is defined yet, so no program is built.
    pub fn parse_program(&self) -> (r: Option<Program>)
        ensures
            r is None,
    {
        None
    }
}

} // verus!
