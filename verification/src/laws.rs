//! What holds of every scan: how positions are kept, how identifiers are
//! interned, what becomes of text at the end of the input, and when a
//! token's span holds the token's text.

use crate::context::{lemma_line_bounds, ContextModel};
use crate::lexer::{KindModel, TokenModel};
use crate::scan::{
    classify, is_keyword_text, lemma_classify_len, lemma_flush, lemma_visible_empty,
    lemma_visible_push, lex_spec, single, visible, ScanState,
};
use crate::text::{
    decimal_i64, is_white_space, lemma_decimal_ascii, lemma_decimal_of_value, lemma_utf8_ascii,
    lemma_utf8_concat, lemma_utf8_len_lower, lemma_utf8_middle, lemma_utf8_prefix,
    lemma_utf8_push, utf8_len,
};
use crate::util::lemma_intern_extends;
use vstd::prelude::*;
use vstd::utf8::{encode_utf8, is_ascii_chars};

verus! {

/// The length of a kind that is no white space marker is the length of
/// its text in bytes.
pub proof fn lemma_kind_len(kind: KindModel)
    requires
        kind != KindModel::Whitespace,
    ensures
        kind.len() == utf8_len(kind.text()),
{
    reveal_strlit("true");
    reveal_strlit("false");
    match kind {
        KindModel::Ident(_) => {},
        KindModel::Keyword(_) => {},
        KindModel::IntLit(n) => {
            lemma_decimal_ascii(
                if n < 0 {
                    (-n) as nat
                } else {
                    n as nat
                },
            );
            assert(is_ascii_chars(kind.text()));
            lemma_utf8_ascii(kind.text());
        },
        _ => {
            lemma_utf8_ascii(kind.text());
        },
    }
}

/// Sum of the lengths of the kinds of `tokens`.
pub open spec fn total_len(tokens: Seq<TokenModel>) -> nat
    decreases tokens.len(),
{
    if tokens.len() == 0 {
        0
    } else {
        total_len(tokens.drop_last()) + tokens.last().kind.len()
    }
}

impl ScanState {
    /// Positions are kept by adding up lengths: every token emitted so
    /// far, white space markers included, starts where the lengths of the
    /// tokens before it add up to, spans the length of its kind, which is
    /// at least 1, and names the scan's path and source; the position is
    /// the sum of all their lengths.
    pub open spec fn consistent(self) -> bool {
        &&& self.pos == total_len(self.tokens)
        &&& forall|k: int|
            0 <= k < self.tokens.len() ==> {
                let t = #[trigger] self.tokens[k];
                &&& t.kind.len() >= 1
                &&& t.context == ContextModel {
                    start: total_len(self.tokens.take(k)),
                    len: t.kind.len(),
                    path: self.path,
                    src: self.src,
                }
            }
    }
}

/// The lengths of the first `k` tokens add up to no more than the lengths
/// of all of them.
pub proof fn lemma_total_len_prefix(tokens: Seq<TokenModel>, k: int)
    requires
        0 <= k <= tokens.len(),
    ensures
        total_len(tokens.take(k)) <= total_len(tokens),
        k < tokens.len() ==> total_len(tokens.take(k)) + tokens[k].kind.len() <= total_len(tokens),
    decreases tokens.len(),
{
    if k == tokens.len() {
        assert(tokens.take(k) == tokens);
    } else {
        assert(tokens.drop_last().take(k) == tokens.take(k));
        lemma_total_len_prefix(tokens.drop_last(), k);
    }
}

/// Emitting a token of a kind that is at least one byte long keeps the
/// positions consistent.
pub proof fn lemma_emit_consistent(st: ScanState, kind: KindModel)
    requires
        st.consistent(),
        kind.len() >= 1,
    ensures
        st.emit(kind).consistent(),
{
    let next = st.emit(kind);
    assert(next.tokens.drop_last() == st.tokens);
    assert forall|k: int| 0 <= k < next.tokens.len() implies {
        let t = #[trigger] next.tokens[k];
        &&& t.kind.len() >= 1
        &&& t.context == ContextModel {
            start: total_len(next.tokens.take(k)),
            len: t.kind.len(),
            path: next.path,
            src: next.src,
        }
    } by {
        if k < st.tokens.len() {
            assert(next.tokens.take(k) == st.tokens.take(k));
        }
    }
}

/// Pushing a token of a kind that is at least one byte long keeps the
/// positions consistent.
pub proof fn lemma_push_consistent(st: ScanState, kind: KindModel)
    requires
        st.consistent(),
        kind.len() >= 1,
    ensures
        st.push(kind).consistent(),
{
    if st.accum.len() > 0 {
        lemma_classify_len(st.accum, st.names);
        let (flushed, names) = classify(st.accum, st.names);
        let cleared = ScanState { accum: Seq::empty(), names, ..st };
        lemma_emit_consistent(cleared, flushed);
    }
    lemma_emit_consistent(st.flush(), kind);
}

/// A scan keeps the positions consistent.
pub proof fn lemma_scan_consistent(st: ScanState, chars: Seq<char>)
    requires
        st.consistent(),
    ensures
        st.scan(chars).consistent(),
    decreases chars.len(),
{
    if chars.len() > 0 {
        let c = chars[0];
        let (next, used) = st.step(chars);
        if let Some(kind) = single(c) {
            lemma_push_consistent(st, kind);
        } else if c == '=' {
            if chars.len() == 1 {
                lemma_push_consistent(st, KindModel::Whitespace);
            } else if chars[1] == '>' {
                lemma_push_consistent(st, KindModel::FatArrow);
            } else if chars[1] == ' ' {
                lemma_push_consistent(st.accumulate('='), KindModel::Whitespace);
            }
        }
        lemma_scan_consistent(next, chars.skip(used as int));
    }
}

/// One step of the scan reads one or two characters, keeps path and
/// source, and moves the position and the accumulated text on by no more
/// bytes than it reads.
pub proof fn lemma_step_bound(st: ScanState, chars: Seq<char>)
    requires
        chars.len() > 0,
    ensures
        ({
            let (next, used) = st.step(chars);
            &&& 1 <= used <= 2
            &&& used <= chars.len()
            &&& next.path == st.path
            &&& next.src == st.src
            &&& next.pos + utf8_len(next.accum) + utf8_len(chars.skip(used as int)) <= st.pos
                + utf8_len(st.accum) + utf8_len(chars)
        }),
{
    let c = chars[0];
    let (next, used) = st.step(chars);
    lemma_utf8_prefix(chars, used as int);
    assert(chars.take(1) == Seq::<char>::empty().push(c));
    lemma_utf8_push(Seq::empty(), c);
    lemma_utf8_push(st.accum, c);
    lemma_flush(st);
    if chars.len() > 1 {
        let o = chars[1];
        assert(chars.take(2) == chars.take(1).push(o));
        lemma_utf8_push(chars.take(1), o);
        lemma_utf8_push(st.accum.push('='), o);
        lemma_flush(st.accumulate('='));
    }
}

/// A scan keeps path and source and never moves the position past the
/// bytes that it has read.
pub proof fn lemma_scan_bound(st: ScanState, chars: Seq<char>)
    ensures
        st.scan(chars).path == st.path,
        st.scan(chars).src == st.src,
        st.scan(chars).pos + utf8_len(st.scan(chars).accum) <= st.pos + utf8_len(st.accum)
            + utf8_len(chars),
    decreases chars.len(),
{
    if chars.len() > 0 {
        let (next, used) = st.step(chars);
        lemma_step_bound(st, chars);
        lemma_scan_bound(next, chars.skip(used as int));
    }
}

/// Every token that a scan of a whole source emits, white space markers
/// included, starts where the lengths of the tokens before it add up to,
/// is as long as its kind, which is at least one byte, and lies within the
/// source, in a line that the source has.
pub proof fn lemma_lex_spans(path: Seq<char>, src: Seq<char>, names: Seq<Seq<char>>, k: int)
    requires
        0 <= k < lex_spec(path, src, names).tokens.len(),
    ensures
        ({
            let tokens = lex_spec(path, src, names).tokens;
            let t = tokens[k];
            &&& t.context.path == path
            &&& t.context.src == src
            &&& t.context.start == total_len(tokens.take(k))
            &&& t.context.len == t.kind.len()
            &&& t.context.len >= 1
            &&& t.context.start + t.context.len <= utf8_len(src)
            &&& t.context.has_line()
            &&& utf8_len(src) <= usize::MAX ==> t.context.fits()
        }),
{
    let first = ScanState::initial(path, src, names);
    let last = lex_spec(path, src, names);
    lemma_scan_consistent(first, src);
    lemma_scan_bound(first, src);
    lemma_total_len_prefix(last.tokens, k);
    let t = last.tokens[k];
    lemma_line_bounds(t.context.bytes(), t.context.start as int);
}

impl TokenModel {
    /// Whether the token is one that a scan of `src`, read from `path`,
    /// hands out: no white space marker, with a span that is as long as
    /// its kind, lies within the source and can be shown.
    pub open spec fn well_placed(self, path: Seq<char>, src: Seq<char>) -> bool {
        &&& self.kind != KindModel::Whitespace
        &&& self.context.path == path
        &&& self.context.src == src
        &&& self.context.len == self.kind.len()
        &&& self.context.len >= 1
        &&& self.context.start + self.context.len <= utf8_len(src)
        &&& self.context.has_line()
        &&& utf8_len(src) <= usize::MAX ==> self.context.fits()
    }
}

/// Pruning removes the white space markers and nothing else: what is left
/// was there before, and none of it is a marker.
pub proof fn lemma_visible(tokens: Seq<TokenModel>)
    ensures
        visible(tokens).len() <= tokens.len(),
        forall|i: int|
            0 <= i < visible(tokens).len() ==> (#[trigger] visible(tokens)[i]).kind
                != KindModel::Whitespace && tokens.contains(visible(tokens)[i]),
    decreases tokens.len(),
{
    if tokens.len() == 0 {
        lemma_visible_empty();
    } else {
        let front = tokens.drop_last();
        let t = tokens.last();
        assert(tokens == front.push(t));
        lemma_visible(front);
        lemma_visible_push(front, t);
        assert forall|i: int| 0 <= i < visible(tokens).len() implies tokens.contains(
            #[trigger] visible(tokens)[i],
        ) by {
            if i < visible(front).len() {
                let j = choose|j: int| 0 <= j < front.len() && front[j] == visible(front)[i];
                assert(tokens[j] == visible(tokens)[i]);
            } else {
                assert(tokens[tokens.len() - 1] == visible(tokens)[i]);
            }
        }
    }
}

/// Every token that a scan of a whole source hands out is well placed.
pub proof fn lemma_lex_well_placed(path: Seq<char>, src: Seq<char>, names: Seq<Seq<char>>, i: int)
    requires
        0 <= i < visible(lex_spec(path, src, names).tokens).len(),
    ensures
        visible(lex_spec(path, src, names).tokens)[i].well_placed(path, src),
{
    let tokens = lex_spec(path, src, names).tokens;
    lemma_visible(tokens);
    let v = visible(tokens)[i];
    let k = choose|k: int| 0 <= k < tokens.len() && tokens[k] == v;
    lemma_lex_spans(path, src, names, k);
}

impl ScanState {
    /// Every identifier emitted so far holds the symbol that the table has
    /// for its text, and the table holds no text twice.
    pub open spec fn interned(self) -> bool {
        &&& self.names.no_duplicates()
        &&& forall|k: int|
            0 <= k < self.tokens.len() && (#[trigger] self.tokens[k]).kind is Ident ==> {
                let symbol = self.tokens[k].kind->Ident_0;
                &&& symbol.index < self.names.len()
                &&& self.names[symbol.index as int] == symbol.name
            }
    }

    /// Whether `later` keeps every entry of this state's table in its
    /// place.
    pub open spec fn table_kept_by(self, later: ScanState) -> bool {
        &&& self.names.len() <= later.names.len()
        &&& forall|i: int| 0 <= i < self.names.len() ==> later.names[i] == self.names[i]
    }
}

/// Pushing a token that is no identifier keeps the identifiers interned
/// and the table's entries in their places.
pub proof fn lemma_push_interned(st: ScanState, kind: KindModel)
    requires
        st.interned(),
        !(kind is Ident),
    ensures
        st.push(kind).interned(),
        st.table_kept_by(st.push(kind)),
{
    if st.accum.len() > 0 {
        lemma_intern_extends(st.names, st.accum);
    }
}

/// A scan keeps the identifiers interned and the table's entries in their
/// places: it only ever adds to the table.
pub proof fn lemma_scan_interned(st: ScanState, chars: Seq<char>)
    requires
        st.interned(),
    ensures
        st.scan(chars).interned(),
        st.table_kept_by(st.scan(chars)),
    decreases chars.len(),
{
    if chars.len() > 0 {
        let c = chars[0];
        let (next, used) = st.step(chars);
        if let Some(kind) = single(c) {
            lemma_push_interned(st, kind);
        } else if c == '=' {
            if chars.len() == 1 {
                lemma_push_interned(st, KindModel::Whitespace);
            } else if chars[1] == '>' {
                lemma_push_interned(st, KindModel::FatArrow);
            } else if chars[1] == ' ' {
                lemma_push_interned(st.accumulate('='), KindModel::Whitespace);
            }
        }
        lemma_scan_interned(next, chars.skip(used as int));
    }
}

/// A scan of a whole source only adds to the symbol table, and among its
/// tokens two identifiers have the same symbol index exactly when they
/// have the same text: the index at which the table holds that text.
pub proof fn lemma_lex_symbols(
    path: Seq<char>,
    src: Seq<char>,
    names: Seq<Seq<char>>,
    i: int,
    j: int,
)
    requires
        names.no_duplicates(),
        0 <= i < lex_spec(path, src, names).tokens.len(),
        0 <= j < lex_spec(path, src, names).tokens.len(),
        lex_spec(path, src, names).tokens[i].kind is Ident,
        lex_spec(path, src, names).tokens[j].kind is Ident,
    ensures
        ({
            let last = lex_spec(path, src, names);
            let a = last.tokens[i].kind->Ident_0;
            let b = last.tokens[j].kind->Ident_0;
            &&& last.names.no_duplicates()
            &&& names.len() <= last.names.len()
            &&& forall|k: int| 0 <= k < names.len() ==> last.names[k] == names[k]
            &&& a.index < last.names.len()
            &&& last.names[a.index as int] == a.name
            &&& a.index == b.index <==> a.name == b.name
        }),
{
    let first = ScanState::initial(path, src, names);
    lemma_scan_interned(first, src);
}

/// Whether `c` is a character that the scan only accumulates: one that
/// makes no token by itself and is no `=`.
pub open spec fn plain(c: char) -> bool {
    single(c) is None && c != '='
}

/// Whether every character of `text` is plain.
pub open spec fn all_plain(text: Seq<char>) -> bool {
    forall|i: int| 0 <= i < text.len() ==> plain(#[trigger] text[i])
}

/// Scanning plain text, then more input, is scanning the more input from
/// the state that has the plain text accumulated: plain text emits
/// nothing.
pub proof fn lemma_scan_plain(st: ScanState, text: Seq<char>, more: Seq<char>)
    requires
        all_plain(text),
    ensures
        st.scan(text + more) == (ScanState { accum: st.accum + text, ..st }).scan(more),
    decreases text.len(),
{
    if text.len() > 0 {
        let next = st.accumulate(text[0]);
        assert((text + more).skip(1) == text.skip(1) + more);
        assert(all_plain(text.skip(1)));
        lemma_scan_plain(next, text.skip(1), more);
        assert(next.accum + text.skip(1) == st.accum + text);
    }
}

/// The gap at the end of the input: a source of plain text alone makes no
/// token and leaves the symbol table as it was. Its text is accumulated
/// and never classified.
pub proof fn lemma_text_at_end_is_dropped(path: Seq<char>, src: Seq<char>, names: Seq<Seq<char>>)
    requires
        all_plain(src),
    ensures
        lex_spec(path, src, names).tokens == Seq::<TokenModel>::empty(),
        lex_spec(path, src, names).names == names,
        lex_spec(path, src, names).accum == src,
        visible(lex_spec(path, src, names).tokens) == Seq::<TokenModel>::empty(),
{
    let first = ScanState::initial(path, src, names);
    lemma_scan_plain(first, src, Seq::empty());
    lemma_visible_empty();
}

/// The same text with one white space character after it makes exactly
/// one token: the text's classification, at offset 0.
pub proof fn lemma_text_before_space_is_kept(
    path: Seq<char>,
    text: Seq<char>,
    space: char,
    names: Seq<Seq<char>>,
)
    requires
        all_plain(text),
        text.len() > 0,
        is_white_space(space),
    ensures
        ({
            let src = text.push(space);
            let (kind, table) = classify(text, names);
            &&& lex_spec(path, src, names).names == table
            &&& visible(lex_spec(path, src, names).tokens) == seq![
                TokenModel {
                    kind,
                    context: ContextModel { start: 0, len: kind.len(), path, src },
                },
            ]
        }),
{
    let src = text.push(space);
    let (kind, table) = classify(text, names);
    let first = ScanState::initial(path, src, names);
    let tail = seq![space];
    assert(src == text + tail);
    lemma_scan_plain(first, text, tail);
    let loaded = ScanState { accum: text, ..first };
    let last = loaded.push(KindModel::Whitespace);
    assert(loaded.scan(tail) == last) by {
        reveal_with_fuel(ScanState::scan, 2);
    }
    lemma_classify_len(text, names);
    let token = TokenModel { kind, context: ContextModel { start: 0, len: kind.len(), path, src } };
    let marker = last.tokens[1];
    lemma_visible_empty();
    lemma_visible_push(Seq::empty(), token);
    lemma_visible_push(Seq::<TokenModel>::empty().push(token), marker);
}

impl TokenModel {
    /// Whether the bytes of the source that the token's span covers are
    /// the bytes of the text that the token's kind is written as.
    pub open spec fn spans_its_text(self) -> bool {
        let bytes = encode_utf8(self.context.src);
        let start = self.context.start as int;
        &&& start + self.context.len <= bytes.len()
        &&& bytes.subrange(start, start + self.context.len) == encode_utf8(self.kind.text())
    }
}

/// Whether every token of `tokens` that is no white space marker spans its
/// text.
spec fn all_span_their_text(tokens: Seq<TokenModel>) -> bool {
    forall|k: int|
        0 <= k < tokens.len() && (#[trigger] tokens[k]).kind != KindModel::Whitespace
            ==> tokens[k].spans_its_text()
}

/// A token made from accumulated text that is as long as the text is
/// written as that text.
pub proof fn lemma_classify_text(text: Seq<char>, names: Seq<Seq<char>>)
    requires
        text.len() > 0,
        classify(text, names).0.len() == utf8_len(text),
    ensures
        classify(text, names).0.text() == text,
        classify(text, names).0 != KindModel::Whitespace,
{
    if !is_keyword_text(text) && decimal_i64(text) is Some {
        lemma_utf8_ascii(text);
        lemma_decimal_of_value(text);
    }
}

/// Pushing a token where the scan has lost no byte, and loses none by the
/// push, leaves every token spanning its text. Here `before` is the part
/// of the source that the tokens emitted so far were read from, `read` is
/// what the pushed token is read from, and `rest` is what follows.
proof fn lemma_push_exact(
    st: ScanState,
    kind: KindModel,
    before: Seq<char>,
    read: Seq<char>,
    rest: Seq<char>,
)
    requires
        st.src == before + st.accum + read + rest,
        st.pos == utf8_len(before),
        all_span_their_text(st.tokens),
        forall|k: int| 0 <= k < st.tokens.len() ==> (#[trigger] st.tokens[k]).context.src == st.src,
        kind.len() <= utf8_len(read),
        kind != KindModel::Whitespace ==> kind.text() == read,
        st.push(kind).pos >= utf8_len(before + st.accum + read),
    ensures
        st.push(kind).pos == utf8_len(before + st.accum + read),
        all_span_their_text(st.push(kind).tokens),
        forall|k: int|
            0 <= k < st.push(kind).tokens.len() ==> (#[trigger] st.push(kind).tokens[k]).context.src
                == st.src,
{
    let next = st.push(kind);
    lemma_flush(st);
    lemma_utf8_concat(before, st.accum);
    lemma_utf8_concat(before + st.accum, read);
    lemma_utf8_middle(before, st.accum, read + rest);
    lemma_utf8_middle(before + st.accum, read, rest);
    assert(before + st.accum + (read + rest) == st.src);
    if st.accum.len() > 0 {
        lemma_classify_text(st.accum, st.names);
    }
    assert(all_span_their_text(next.tokens));
}

/// The part of the source that the tokens emitted so far were read from,
/// after one step on `chars` from a state in which that part was `before`.
/// A step that pushes reads up to its last character; a step that only
/// accumulates emits nothing.
spec fn read_after_step(st: ScanState, before: Seq<char>, chars: Seq<char>) -> Seq<char> {
    let (next, used) = st.step(chars);
    if next.accum.len() == 0 {
        before + st.accum + chars.take(used as int)
    } else {
        before
    }
}

/// Whether the scan has lost no byte up to the state `st`, with `chars`
/// still to be read and `before` the part of the source that the tokens
/// emitted so far were read from, and every token spans its text.
#[verifier::opaque]
spec fn exact(st: ScanState, before: Seq<char>, chars: Seq<char>) -> bool {
    &&& st.src == before + st.accum + chars
    &&& st.pos == utf8_len(before)
    &&& all_span_their_text(st.tokens)
    &&& forall|k: int| 0 <= k < st.tokens.len() ==> (#[trigger] st.tokens[k]).context.src == st.src
}

/// A step that loses no byte keeps the scan exact.
proof fn lemma_step_keeps_exact(st: ScanState, before: Seq<char>, chars: Seq<char>)
    requires
        chars.len() > 0,
        exact(st, before, chars),
        ({
            let (next, used) = st.step(chars);
            next.pos + utf8_len(next.accum) >= utf8_len(
                before + st.accum + chars.take(used as int),
            )
        }),
    ensures
        ({
            let (next, used) = st.step(chars);
            exact(next, read_after_step(st, before, chars), chars.skip(used as int))
        }),
{
    reveal(exact);
    let c = chars[0];
    let (next, used) = st.step(chars);
    let rest = chars.skip(used as int);
    let read = chars.take(used as int);
    assert(st.src == before + st.accum + read + rest);
    if single(c) is Some || (c == '=' && (chars.len() == 1 || chars[1] == '>')) {
        let kind = if let Some(kind) = single(c) {
            kind
        } else if chars.len() == 1 {
            KindModel::Whitespace
        } else {
            KindModel::FatArrow
        };
        lemma_utf8_len_lower(read);
        assert(kind != KindModel::Whitespace ==> kind.text() == read);
        lemma_push_exact(st, kind, before, read, rest);
    } else if c == '=' && chars[1] == ' ' {
        let loaded = st.accumulate('=');
        let space = seq![' '];
        assert(before + loaded.accum + space == before + st.accum + read);
        lemma_utf8_len_lower(space);
        lemma_push_exact(loaded, KindModel::Whitespace, before, space, rest);
    } else {
        assert(next.accum == st.accum + read);
        assert(before + next.accum + rest == before + st.accum + read + rest);
    }
}

/// In a scan that ends having lost no byte, no step loses a byte: each
/// step keeps the scan exact.
proof fn lemma_step_exact(st: ScanState, before: Seq<char>, chars: Seq<char>)
    requires
        chars.len() > 0,
        exact(st, before, chars),
        st.scan(chars).pos + utf8_len(st.scan(chars).accum) == utf8_len(st.src),
    ensures
        ({
            let (next, used) = st.step(chars);
            &&& next.src == st.src
            &&& st.scan(chars) == next.scan(chars.skip(used as int))
            &&& exact(next, read_after_step(st, before, chars), chars.skip(used as int))
        }),
{
    let (next, used) = st.step(chars);
    let rest = chars.skip(used as int);
    let read = chars.take(used as int);
    lemma_step_bound(st, chars);
    lemma_scan_bound(next, rest);
    assert(st.src == before + st.accum + read + rest) by {
        reveal(exact);
    }
    lemma_utf8_concat(before + st.accum + read, rest);
    lemma_step_keeps_exact(st, before, chars);
}

/// A scan that ends having lost no byte leaves every token spanning its
/// text.
proof fn lemma_scan_exact(st: ScanState, before: Seq<char>, chars: Seq<char>)
    requires
        exact(st, before, chars),
        st.scan(chars).pos + utf8_len(st.scan(chars).accum) == utf8_len(st.src),
    ensures
        all_span_their_text(st.scan(chars).tokens),
    decreases chars.len(),
{
    if chars.len() == 0 {
        assert(all_span_their_text(st.tokens)) by {
            reveal(exact);
        }
    } else {
        let (next, used) = st.step(chars);
        lemma_step_exact(st, before, chars);
        lemma_scan_exact(next, read_after_step(st, before, chars), chars.skip(used as int));
    }
}

/// Where a scan of a whole source loses no byte, every token that it
/// hands out spans its text: the bytes of the source from the token's
/// start on, as many as the token is long, are the bytes of the text that
/// the token's kind is written as.
///
/// A scan loses bytes where a token is shorter than what it was read from:
/// at a white space character of more than one byte, and at an integer
/// literal with leading zeros. Every later token then starts before its
/// text.
pub proof fn lemma_spans_hold_text(
    path: Seq<char>,
    src: Seq<char>,
    names: Seq<Seq<char>>,
    i: int,
)
    requires
        lex_spec(path, src, names).pos + utf8_len(lex_spec(path, src, names).accum) == utf8_len(
            src,
        ),
        0 <= i < visible(lex_spec(path, src, names).tokens).len(),
    ensures
        visible(lex_spec(path, src, names).tokens)[i].spans_its_text(),
{
    let first = ScanState::initial(path, src, names);
    let tokens = lex_spec(path, src, names).tokens;
    assert(exact(first, Seq::empty(), src)) by {
        reveal(exact);
    }
    lemma_scan_exact(first, Seq::empty(), src);
    lemma_visible(tokens);
    let v = visible(tokens)[i];
}

} // verus!
