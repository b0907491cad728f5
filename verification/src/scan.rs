//! The scan as a function on characters: what the scanner computes.
//!
//! The scan reads its input one character at a time. Characters that are
//! neither white space nor marks are accumulated; white space, a mark or
//! `=>` turns what has been accumulated into one token and then makes a
//! token of its own. Every token emitted moves the position on by the
//! length of its kind.

use crate::context::ContextModel;
use crate::lexer::{KindModel, TokenModel};
use crate::text::{
    all_digits, decimal_i64, is_digit, is_white_space, lemma_decimal_of_value_len, lemma_utf8_ascii,
    lemma_utf8_len_lower, utf8_len,
};
use crate::util::intern_spec;
use vstd::prelude::*;

verus! {

/// Whether `text` is one of the reserved words.
pub open spec fn is_keyword_text(text: Seq<char>) -> bool {
    ||| text == "fn"@
    ||| text == "let"@
    ||| text == "match"@
    ||| text == "cond"@
    ||| text == "itself"@
}

/// Whether `text` is one of the two truth values.
pub open spec fn is_bool_text(text: Seq<char>) -> bool {
    text == "true"@ || text == "false"@
}

/// The kind of the token that the accumulated `text` makes, and the symbol
/// table afterwards. The first rule that applies decides: a reserved word
/// is a keyword; a run of digits that a signed 64-bit number can hold is
/// an integer literal; `true` and `false` are boolean literals; anything
/// else, a run of digits too large for such a number included, is an
/// identifier and is interned.
pub open spec fn classify(text: Seq<char>, names: Seq<Seq<char>>) -> (KindModel, Seq<Seq<char>>) {
    if is_keyword_text(text) {
        (KindModel::Keyword(text), names)
    } else if let Some(n) = decimal_i64(text) {
        (KindModel::IntLit(n), names)
    } else if is_bool_text(text) {
        (KindModel::BoolLit(text == "true"@), names)
    } else {
        let (table, symbol) = intern_spec(names, text);
        (KindModel::Ident(symbol), table)
    }
}

/// The kind that a character makes all by itself, if it makes one: white
/// space and the seven one-character marks.
pub open spec fn single(c: char) -> Option<KindModel> {
    if is_white_space(c) {
        Some(KindModel::Whitespace)
    } else if c == '(' {
        Some(KindModel::LParen)
    } else if c == ')' {
        Some(KindModel::RParen)
    } else if c == '{' {
        Some(KindModel::LBrace)
    } else if c == '}' {
        Some(KindModel::RBrace)
    } else if c == ':' {
        Some(KindModel::Colon)
    } else if c == ',' {
        Some(KindModel::Comma)
    } else if c == '|' {
        Some(KindModel::Pipe)
    } else {
        None
    }
}

/// The state of a scan: where the next token starts, the characters that
/// wait to be classified, the tokens emitted so far, white space markers
/// included, and the symbol table.
pub struct ScanState {
    pub path: Seq<char>,
    pub src: Seq<char>,
    pub pos: nat,
    pub accum: Seq<char>,
    pub tokens: Seq<TokenModel>,
    pub names: Seq<Seq<char>>,
}

impl ScanState {
    /// The state before the first character is read.
    pub open spec fn initial(path: Seq<char>, src: Seq<char>, names: Seq<Seq<char>>) -> ScanState {
        ScanState { path, src, pos: 0, accum: Seq::empty(), tokens: Seq::empty(), names }
    }

    /// Appends a token of kind `kind` at the current position and moves the
    /// position on by the kind's length.
    pub open spec fn emit(self, kind: KindModel) -> ScanState {
        ScanState {
            pos: self.pos + kind.len(),
            tokens: self.tokens.push(
                TokenModel {
                    kind,
                    context: ContextModel {
                        start: self.pos,
                        len: kind.len(),
                        path: self.path,
                        src: self.src,
                    },
                },
            ),
            ..self
        }
    }

    /// Turns the accumulated characters, if there are any, into a token.
    pub open spec fn flush(self) -> ScanState {
        if self.accum.len() == 0 {
            self
        } else {
            let (kind, names) = classify(self.accum, self.names);
            (ScanState { accum: Seq::empty(), names, ..self }).emit(kind)
        }
    }

    /// Flushes the accumulated characters, then emits a token of kind
    /// `kind`.
    pub open spec fn push(self, kind: KindModel) -> ScanState {
        self.flush().emit(kind)
    }

    /// Adds `c` to the accumulated characters.
    pub open spec fn accumulate(self, c: char) -> ScanState {
        ScanState { accum: self.accum.push(c), ..self }
    }

    /// One step of the scan on the non-empty input `chars`: the state after
    /// it, and how many characters it has read, one or two.
    ///
    /// White space and the one-character marks push their kind. Any other
    /// character but `=` is accumulated. An `=` looks at the character
    /// after it: with `>` the two push a fat arrow; with a space the `=` is
    /// accumulated and the space pushes a white space marker; with any
    /// other character both are accumulated; at the end of the input the
    /// `=` pushes a white space marker and is itself dropped.
    pub open spec fn step(self, chars: Seq<char>) -> (ScanState, nat)
        recommends
            chars.len() > 0,
    {
        let c = chars[0];
        if let Some(kind) = single(c) {
            (self.push(kind), 1)
        } else if c != '=' {
            (self.accumulate(c), 1)
        } else if chars.len() == 1 {
            (self.push(KindModel::Whitespace), 1)
        } else if chars[1] == '>' {
            (self.push(KindModel::FatArrow), 2)
        } else if chars[1] == ' ' {
            (self.accumulate('=').push(KindModel::Whitespace), 2)
        } else {
            (self.accumulate('=').accumulate(chars[1]), 2)
        }
    }

    /// The state after all of `chars` has been read. Characters that are
    /// still accumulated when the input ends stay accumulated: they make no
    /// token.
    pub open spec fn scan(self, chars: Seq<char>) -> ScanState
        decreases chars.len(),
    {
        if chars.len() == 0 {
            self
        } else {
            let (next, used) = self.step(chars);
            next.scan(chars.skip(used as int))
        }
    }
}

/// The tokens that are no white space markers, in their order.
pub open spec fn visible(tokens: Seq<TokenModel>) -> Seq<TokenModel> {
    tokens.filter(|t: TokenModel| t.kind != KindModel::Whitespace)
}

/// The state in which a scan of the whole of `src` ends.
pub open spec fn lex_spec(path: Seq<char>, src: Seq<char>, names: Seq<Seq<char>>) -> ScanState {
    ScanState::initial(path, src, names).scan(src)
}

/// Pruning nothing leaves nothing.
pub proof fn lemma_visible_empty()
    ensures
        visible(Seq::<TokenModel>::empty()) == Seq::<TokenModel>::empty(),
{
    let pred = |t: TokenModel| t.kind != KindModel::Whitespace;
    Seq::<TokenModel>::empty().lemma_filter_len(pred);
}

/// Pruning goes through the tokens one by one.
pub proof fn lemma_visible_push(tokens: Seq<TokenModel>, t: TokenModel)
    ensures
        visible(tokens.push(t)) == if t.kind != KindModel::Whitespace {
            visible(tokens).push(t)
        } else {
            visible(tokens)
        },
{
    tokens.lemma_filter_push(t, |t: TokenModel| t.kind != KindModel::Whitespace);
}

/// A token made from accumulated text is at least one byte long and no
/// longer than the text.
pub proof fn lemma_classify_len(text: Seq<char>, names: Seq<Seq<char>>)
    requires
        text.len() > 0,
    ensures
        1 <= classify(text, names).0.len() <= utf8_len(text),
{
    lemma_utf8_len_lower(text);
    if !is_keyword_text(text) {
        if decimal_i64(text) is Some {
            lemma_decimal_of_value_len(text);
            lemma_utf8_ascii(text);
        } else if is_bool_text(text) {
            reveal_strlit("true");
            reveal_strlit("false");
            lemma_utf8_ascii(text);
        }
    }
}

/// A string of digits is neither of the two truth values.
pub proof fn lemma_digits_are_no_bool(text: Seq<char>)
    requires
        text.len() > 0,
    ensures
        all_digits(text) ==> !is_bool_text(text),
{
    reveal_strlit("true");
    reveal_strlit("false");
    if all_digits(text) && is_bool_text(text) {
        assert(is_digit(text[0]));
    }
}

/// Flushing leaves nothing accumulated and moves the position on by no
/// more than the bytes that were accumulated.
pub proof fn lemma_flush(st: ScanState)
    ensures
        st.flush().accum.len() == 0,
        st.pos <= st.flush().pos <= st.pos + utf8_len(st.accum),
{
    if st.accum.len() > 0 {
        lemma_classify_len(st.accum, st.names);
    }
}

} // verus!
