//! Token kinds, tokens and the scanner that produces them.

use crate::context::{Context, ContextModel};
use crate::laws::lemma_lex_well_placed;
use crate::scan::{
    is_bool_text, is_keyword_text, lemma_classify_len, lemma_digits_are_no_bool, lemma_flush,
    lemma_visible_empty, lemma_visible_push, lex_spec, visible, ScanState,
};
use crate::text::{
    all_digits, byte_len, decimal_len, decimal_signed, is_whitespace, lemma_utf8_prefix,
    lemma_utf8_push, parse_decimal, push_char, str_eq, utf8_len,
};
use crate::util::{leak, Interner, Symbol, SymbolModel};
use vstd::prelude::*;
use vstd::std_specs::iter::IteratorSpec;

verus! {

/// What a token kind stands for.
pub enum KindModel {
    Ident(SymbolModel),
    Keyword(Seq<char>),
    LParen,
    RParen,
    LBrace,
    RBrace,
    Colon,
    Comma,
    Pipe,
    FatArrow,
    IntLit(i64),
    BoolLit(bool),
    Whitespace,
}

impl KindModel {
    /// Number of bytes by which a token of this kind moves the scanner on:
    /// the length of its text as the kind itself renders it.
    pub open spec fn len(self) -> nat {
        match self {
            KindModel::Ident(symbol) => utf8_len(symbol.name),
            KindModel::Keyword(text) => utf8_len(text),
            KindModel::FatArrow => 2,
            KindModel::BoolLit(b) => if b {
                4
            } else {
                5
            },
            KindModel::IntLit(n) => decimal_signed(n as int).len(),
            _ => 1,
        }
    }

    /// The text that a token of this kind is written as. A white space
    /// marker stands for any one white space character; as a text it is a
    /// space.
    pub open spec fn text(self) -> Seq<char> {
        match self {
            KindModel::Ident(symbol) => symbol.name,
            KindModel::Keyword(text) => text,
            KindModel::LParen => seq!['('],
            KindModel::RParen => seq![')'],
            KindModel::LBrace => seq!['{'],
            KindModel::RBrace => seq!['}'],
            KindModel::Colon => seq![':'],
            KindModel::Comma => seq![','],
            KindModel::Pipe => seq!['|'],
            KindModel::FatArrow => seq!['=', '>'],
            KindModel::IntLit(n) => decimal_signed(n as int),
            KindModel::BoolLit(b) => if b {
                "true"@
            } else {
                "false"@
            },
            KindModel::Whitespace => seq![' '],
        }
    }
}

/// The lexical category of a token.
#[derive(Debug, Clone, Copy)]
pub enum TokenKind {
    Ident(Symbol),
    Keyword(&'static str),
    LParen,
    RParen,
    LBrace,
    RBrace,
    Colon,
    Comma,
    Pipe,
    FatArrow,
    IntLit(i64),
    BoolLit(bool),
    /// White space: recorded while scanning, pruned from the result.
    Whitespace,
}

impl View for TokenKind {
    type V = KindModel;

    open spec fn view(&self) -> KindModel {
        match self {
            TokenKind::Ident(symbol) => KindModel::Ident(symbol@),
            TokenKind::Keyword(text) => KindModel::Keyword(text@),
            TokenKind::LParen => KindModel::LParen,
            TokenKind::RParen => KindModel::RParen,
            TokenKind::LBrace => KindModel::LBrace,
            TokenKind::RBrace => KindModel::RBrace,
            TokenKind::Colon => KindModel::Colon,
            TokenKind::Comma => KindModel::Comma,
            TokenKind::Pipe => KindModel::Pipe,
            TokenKind::FatArrow => KindModel::FatArrow,
            TokenKind::IntLit(n) => KindModel::IntLit(*n),
            TokenKind::BoolLit(b) => KindModel::BoolLit(*b),
            TokenKind::Whitespace => KindModel::Whitespace,
        }
    }
}

impl TokenKind {
    /// Number of bytes by which a token of this kind moves the scanner on.
    pub fn length(&self) -> (n: usize)
        ensures
            n == self@.len(),
    {
        match self {
            TokenKind::Ident(symbol) => byte_len(symbol.name),
            TokenKind::Keyword(text) => byte_len(text),
            TokenKind::FatArrow => 2,
            TokenKind::BoolLit(b) => if *b {
                4
            } else {
                5
            },
            TokenKind::IntLit(n) => decimal_len(*n),
            _ => 1,
        }
    }
}

impl PartialEq for TokenKind {
    fn eq(&self, other: &Self) -> (r: bool) {
        match (self, other) {
            (TokenKind::Ident(a), TokenKind::Ident(b)) => a == b,
            (TokenKind::Keyword(a), TokenKind::Keyword(b)) => str_eq(a, b),
            (TokenKind::LParen, TokenKind::LParen) => true,
            (TokenKind::RParen, TokenKind::RParen) => true,
            (TokenKind::LBrace, TokenKind::LBrace) => true,
            (TokenKind::RBrace, TokenKind::RBrace) => true,
            (TokenKind::Colon, TokenKind::Colon) => true,
            (TokenKind::Comma, TokenKind::Comma) => true,
            (TokenKind::Pipe, TokenKind::Pipe) => true,
            (TokenKind::FatArrow, TokenKind::FatArrow) => true,
            (TokenKind::IntLit(a), TokenKind::IntLit(b)) => *a == *b,
            (TokenKind::BoolLit(a), TokenKind::BoolLit(b)) => *a == *b,
            (TokenKind::Whitespace, TokenKind::Whitespace) => true,
            _ => false,
        }
    }
}

impl vstd::std_specs::cmp::PartialEqSpecImpl for TokenKind {
    open spec fn obeys_eq_spec() -> bool {
        true
    }

    open spec fn eq_spec(&self, other: &Self) -> bool {
        self@ == other@
    }
}

/// What a token stands for.
pub struct TokenModel {
    pub kind: KindModel,
    pub context: ContextModel,
}

/// A token kind together with the span of source that it was read from.
#[derive(Debug, Clone, Copy)]
pub struct Token {
    pub token: TokenKind,
    pub context: Context,
}

impl View for Token {
    type V = TokenModel;

    open spec fn view(&self) -> TokenModel {
        TokenModel { kind: self.token@, context: self.context@ }
    }
}

/// Tokens are equal when their kinds are: where a token was read from is no
/// part of its identity.
impl PartialEq for Token {
    fn eq(&self, other: &Self) -> (r: bool) {
        self.token == other.token
    }
}

impl vstd::std_specs::cmp::PartialEqSpecImpl for Token {
    open spec fn obeys_eq_spec() -> bool {
        true
    }

    open spec fn eq_spec(&self, other: &Self) -> bool {
        self.token@ == other.token@
    }
}

/// Tells whether `s` is one of the reserved words.
pub fn is_keyword(s: &str) -> (r: bool)
    ensures
        r == is_keyword_text(s@),
{
    str_eq(s, "fn") || str_eq(s, "let") || str_eq(s, "match") || str_eq(s, "cond") || str_eq(
        s,
        "itself",
    )
}

/// Tells whether every character of `s` is a decimal digit.
pub fn is_int(s: &str) -> (r: bool)
    ensures
        r == all_digits(s@),
{
    let mut it = s.chars();
    let ghost mut i: int = 0;
    loop
        invariant
            0 <= i <= s@.len(),
            it.remaining() == s@.skip(i),
            it.obeys_prophetic_iter_laws(),
            all_digits(s@.take(i)),
        decreases s@.len() - i,
    {
        match it.next() {
            None => {
                assert(s@.take(i) == s@);
                return true;
            },
            Some(c) => {
                if !('0' <= c && c <= '9') {
                    return false;
                }
                proof {
                    assert(all_digits(s@.take(i + 1)));
                    i = i + 1;
                }
            },
        }
    }
}

/// Tells whether `s` is one of the two truth values.
pub fn is_bool(s: &str) -> (r: bool)
    ensures
        r == is_bool_text(s@),
{
    str_eq(s, "true") || str_eq(s, "false")
}

/// The scanner: a source text, a position in it, the characters that wait
/// to be classified and the tokens emitted so far.
pub struct Lexer {
    path: &'static str,
    src: &'static str,
    pos: usize,
    accum: String,
    tokens: Vec<Token>,
}

impl Lexer {
    /// Name of the file that the source text came from.
    pub closed spec fn path(&self) -> Seq<char> {
        self.path@
    }

    /// The source text.
    pub closed spec fn source(&self) -> Seq<char> {
        self.src@
    }

    /// A lexer is well formed when it stands at the start of its source:
    /// at position 0, with nothing accumulated and nothing emitted.
    pub closed spec fn wf(&self) -> bool {
        &&& self.pos == 0
        &&& self.accum@.len() == 0
        &&& self.tokens@.len() == 0
    }

    /// The scan state that the lexer is in when the symbol table holds
    /// `names`.
    spec fn state(&self, names: Seq<Seq<char>>) -> ScanState {
        ScanState {
            path: self.path@,
            src: self.src@,
            pos: self.pos as nat,
            accum: self.accum@,
            tokens: self.tokens@.map_values(|t: Token| t@),
            names,
        }
    }

    /// A lexer at the start of the source text `src`, which was read from
    /// the file named `path`. Both texts are kept for the rest of the
    /// process.
    pub fn new(path: &str, src: &str) -> (r: Self)
        ensures
            r.wf(),
            r.path() == path@,
            r.source() == src@,
    {
        Self { path: leak(path), src: leak(src), pos: 0, accum: String::new(), tokens: Vec::new() }
    }

    /// Turns the accumulated characters, if there are any, into a token.
    fn push_accum(&mut self, interner: &mut Interner)
        requires
            old(self).pos + utf8_len(old(self).accum@) <= usize::MAX,
        ensures
            final(self).state(final(interner)@) == old(self).state(old(interner)@).flush(),
        decreases old(self).accum@.len(), 0nat,
    {
        if !self.accum.as_str().is_empty() {
            let text = leak(self.accum.as_str());
            proof {
                lemma_classify_len(text@, interner@);
                lemma_digits_are_no_bool(text@);
            }
            let token = if is_keyword(text) {
                TokenKind::Keyword(text)
            } else if is_int(text) {
                match parse_decimal(text) {
                    Some(n) => TokenKind::IntLit(n),
                    None => TokenKind::Ident(Symbol::new(text, interner)),
                }
            } else if is_bool(text) {
                TokenKind::BoolLit(str_eq(text, "true"))
            } else {
                TokenKind::Ident(Symbol::new(text, interner))
            };
            self.accum = String::new();
            self.push(token, interner);
        }
    }

    /// Flushes the accumulated characters, then emits `token` at the
    /// current position and moves the position on by the token's length.
    fn push(&mut self, token: TokenKind, interner: &mut Interner)
        requires
            old(self).pos + utf8_len(old(self).accum@) + token@.len() <= usize::MAX,
        ensures
            final(self).state(final(interner)@) == old(self).state(old(interner)@).push(token@),
        decreases old(self).accum@.len(), 1nat,
    {
        self.push_accum(interner);
        let ghost flushed = self.state(interner@);
        proof {
            lemma_flush(old(self).state(old(interner)@));
        }
        let len = token.length();
        let emitted = Token {
            token,
            context: Context { start: self.pos, len, path: self.path, src: self.src },
        };
        self.tokens.push(emitted);
        self.pos += len;
        assert(self.tokens@.map_values(|t: Token| t@) =~= flushed.tokens.push(emitted@));
    }

    /// Scans the whole source and returns its tokens in source order.
    /// Identifiers are interned into `interner`.
    ///
    /// White space makes a marker of length 1 that moves the position on
    /// and is pruned from the result. Text is turned into a token only when
    /// white space, a mark or `=>` follows it: text that the input ends on
    /// makes no token.
    pub fn lex(self, interner: &mut Interner) -> (r: Vec<Token>)
        requires
            self.wf(),
        ensures
            r@.map_values(|t: Token| t@) == visible(
                lex_spec(self.path(), self.source(), old(interner)@).tokens,
            ),
            final(interner)@ == lex_spec(self.path(), self.source(), old(interner)@).names,
            utf8_len(self.source()) <= usize::MAX,
            forall|i: int|
                0 <= i < r@.len() ==> (#[trigger] r@[i])@.well_placed(self.path(), self.source()),
    {
        let mut lexer = self;
        let src = lexer.src;
        let size = byte_len(src);
        let ghost first = lexer.state(interner@);
        let mut chars = src.chars();
        let ghost mut i: int = 0;
        assert(first == ScanState::initial(self.path(), self.source(), interner@)) by {
            assert(first.accum =~= Seq::empty());
            assert(first.tokens =~= Seq::empty());
        }
        assert(src@.skip(0) == src@);
        assert(utf8_len(src@.take(0)) == 0) by {
            lemma_utf8_prefix(src@, 0);
        }
        loop
            invariant
                0 <= i <= src@.len(),
                chars.remaining() == src@.skip(i),
                chars.obeys_prophetic_iter_laws(),
                utf8_len(src@) == size,
                lexer.state(interner@).scan(src@.skip(i)) == first.scan(src@),
                lexer.pos + utf8_len(lexer.accum@) <= utf8_len(src@.take(i)),
            ensures
                lexer.state(interner@) == first.scan(src@),
            decreases src@.len() - i,
        {
            let ghost st = lexer.state(interner@);
            let ghost rest = src@.skip(i);
            match chars.next() {
                None => {
                    break ;
                },
                Some(c) => {
                    proof {
                        assert(src@.take(i + 1) == src@.take(i).push(c));
                        lemma_utf8_push(src@.take(i), c);
                        lemma_utf8_prefix(src@, i + 1);
                        lemma_flush(st);
                        lemma_utf8_push(st.accum, c);
                    }
                    match c {
                        c if is_whitespace(c) => lexer.push(TokenKind::Whitespace, interner),
                        '(' => lexer.push(TokenKind::LParen, interner),
                        ')' => lexer.push(TokenKind::RParen, interner),
                        '{' => lexer.push(TokenKind::LBrace, interner),
                        '}' => lexer.push(TokenKind::RBrace, interner),
                        ':' => lexer.push(TokenKind::Colon, interner),
                        ',' => lexer.push(TokenKind::Comma, interner),
                        '|' => lexer.push(TokenKind::Pipe, interner),
                        '=' => {
                            let next = chars.next();
                            proof {
                                if i + 1 < src@.len() {
                                    let o = src@[i + 1];
                                    assert(next == Some(o));
                                    assert(src@.take(i + 2) == src@.take(i + 1).push(o));
                                    lemma_utf8_push(src@.take(i + 1), o);
                                    lemma_utf8_prefix(src@, i + 2);
                                    lemma_utf8_push(st.accum.push('='), o);
                                    lemma_flush(st.accumulate('='));
                                }
                            }
                            match next {
                                Some('>') => lexer.push(TokenKind::FatArrow, interner),
                                Some(' ') => {
                                    push_char(&mut lexer.accum, '=');
                                    lexer.push(TokenKind::Whitespace, interner);
                                },
                                Some(o) => {
                                    push_char(&mut lexer.accum, '=');
                                    push_char(&mut lexer.accum, o);
                                },
                                None => lexer.push(TokenKind::Whitespace, interner),
                            }
                        },
                        c => {
                            push_char(&mut lexer.accum, c);
                        },
                    }
                    proof {
                        let (next_state, used) = st.step(rest);
                        assert(lexer.state(interner@) == next_state);
                        i = i + used;
                        assert(src@.skip(i) == rest.skip(used as int));
                    }
                },
            }
        }
        let mut out: Vec<Token> = Vec::new();
        let mut k: usize = 0;
        let ghost all = lexer.tokens@.map_values(|t: Token| t@);
        proof {
            lemma_visible_empty();
        }
        while k < lexer.tokens.len()
            invariant
                k <= lexer.tokens@.len(),
                all == lexer.tokens@.map_values(|t: Token| t@),
                out@.map_values(|t: Token| t@) == visible(all.take(k as int)),
            decreases lexer.tokens@.len() - k,
        {
            let token = lexer.tokens[k];
            proof {
                assert(all.take(k + 1) =~= all.take(k as int).push(token@));
                lemma_visible_push(all.take(k as int), token@);
            }
            if token.token != TokenKind::Whitespace {
                out.push(token);
            }
            k += 1;
        }
        assert(all.take(k as int) =~= all);
        assert forall|i: int| 0 <= i < out@.len() implies (#[trigger] out@[i])@.well_placed(
            self.path(),
            self.source(),
        ) by {
            lemma_lex_well_placed(self.path(), self.source(), old(interner)@, i);
        }
        out
    }
}

} // verus!
