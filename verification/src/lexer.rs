//! The token source: a cursor over a token sequence that hands out one
//! token per request and the end-of-input marker ever after.

use crate::token::{Token, TokenView};
use vstd::prelude::*;

verus! {

/// The views of a sequence of tokens, element by element.
pub open spec fn tokens_view(tokens: Seq<Token>) -> Seq<TokenView> {
    Seq::new(tokens.len(), |i: int| tokens[i]@)
}

/// The index of the first end-of-input marker at or after `from`, or the
/// length of `ts` if there is none.
pub open spec fn end_of_input(ts: Seq<TokenView>, from: nat) -> nat
    decreases ts.len() - from,
{
    if from >= ts.len() {
        ts.len()
    } else if ts[from as int] is EOF {
        from
    } else {
        end_of_input(ts, from + 1)
    }
}

/// The tokens of `ts` that come before its first end-of-input marker.
pub open spec fn until_eof(ts: Seq<TokenView>) -> Seq<TokenView> {
    ts.take(end_of_input(ts, 0) as int)
}

/// The token at position `i` of a stream: the element of `ts`, or the
/// end-of-input marker at every position past its end.
pub open spec fn token_at(ts: Seq<TokenView>, i: nat) -> TokenView {
    if i < ts.len() {
        ts[i as int]
    } else {
        TokenView::EOF
    }
}

/// No element of `ts` is the end-of-input marker.
pub open spec fn free_of_eof(ts: Seq<TokenView>) -> bool {
    forall|i: int| 0 <= i < ts.len() ==> !(#[trigger] ts[i] is EOF)
}

/// `end_of_input` stays inside the sequence, stops at a marker, and skips
/// none.
pub proof fn lemma_end_of_input(ts: Seq<TokenView>, from: nat)
    requires
        from <= ts.len(),
    ensures
        from <= end_of_input(ts, from) <= ts.len(),
        end_of_input(ts, from) < ts.len() ==> ts[end_of_input(ts, from) as int] is EOF,
        forall|i: int| from <= i < end_of_input(ts, from) ==> !(#[trigger] ts[i] is EOF),
    decreases ts.len() - from,
{
    if from < ts.len() && !(ts[from as int] is EOF) {
        lemma_end_of_input(ts, from + 1);
    }
}

/// What `until_eof` keeps holds no end-of-input marker and is a prefix of
/// the sequence.
pub proof fn lemma_until_eof(ts: Seq<TokenView>)
    ensures
        free_of_eof(until_eof(ts)),
        until_eof(ts).len() <= ts.len(),
        forall|i: int| 0 <= i < until_eof(ts).len() ==> until_eof(ts)[i] == ts[i],
        free_of_eof(ts) ==> until_eof(ts) == ts,
{
    lemma_end_of_input(ts, 0);
    if free_of_eof(ts) {
        assert(until_eof(ts) =~= ts);
    }
}

/// A token source over a fixed sequence of tokens.
///
/// Its stream is the given sequence up to its first end-of-input marker;
/// once the stream is exhausted, every request is answered by the marker.
pub struct Lexer {
    tokens: Vec<Token>,
    next: usize,
    handed: Ghost<nat>,
}

impl Lexer {
    /// The tokens this source hands out before the end-of-input marker.
    pub closed spec fn stream(&self) -> Seq<TokenView> {
        until_eof(tokens_view(self.tokens@))
    }

    /// How many requests have been answered so far.
    pub closed spec fn produced(&self) -> nat {
        self.handed@
    }

    /// The representation invariant.
    pub closed spec fn wf(&self) -> bool {
        &&& self.next <= self.stream().len()
        &&& self.next == if self.handed@ < self.stream().len() {
            self.handed@
        } else {
            self.stream().len()
        }
    }

    /// The stream of a well-formed source holds no end-of-input marker.
    pub proof fn lemma_stream_free_of_eof(&self)
        ensures
            free_of_eof(self.stream()),
    {
        lemma_until_eof(tokens_view(self.tokens@));
    }

    /// A source over `tokens`, with nothing handed out yet.
    pub fn new(tokens: Vec<Token>) -> (l: Lexer)
        ensures
            l.wf(),
            l.stream() == until_eof(tokens_view(tokens@)),
            l.produced() == 0,
    {
        Lexer { tokens, next: 0, handed: Ghost(0) }
    }

    /// Hands out the next token of the stream, or the end-of-input marker
    /// once the stream is exhausted.
    pub fn next_token(&mut self) -> (token: Token)
        requires
            old(self).wf(),
        ensures
            final(self).wf(),
            final(self).stream() == old(self).stream(),
            final(self).produced() == old(self).produced() + 1,
            token@ == token_at(old(self).stream(), old(self).produced()),
    {
        proof {
            lemma_end_of_input(tokens_view(self.tokens@), 0);
        }
        if self.next < self.tokens.len() {
            let token = self.tokens[self.next].clone();
            if !token.is_eof() {
                self.next = self.next + 1;
            }
            self.handed = Ghost((self.handed@ + 1) as nat);
            token
        } else {
            self.handed = Ghost((self.handed@ + 1) as nat);
            Token::EOF
        }
    }
}

} // verus!
