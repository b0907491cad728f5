use minilex::lexer::{Lexer, TokenKind};
use minilex::util::Interner;

#[derive(Debug, Clone, PartialEq)]
enum Kind {
    Ident(String, usize),
    Keyword(String),
    LParen,
    RParen,
    LBrace,
    RBrace,
    Colon,
    Comma,
    Pipe,
    FatArrow,
    IntLit(i64),
    BoolLit(bool),
    Skip,
}

fn length(kind: &Kind) -> usize {
    match kind {
        Kind::Ident(name, _) => name.len(),
        Kind::Keyword(word) => word.len(),
        Kind::FatArrow => 2,
        Kind::BoolLit(b) => b.to_string().len(),
        Kind::IntLit(n) => n.to_string().len(),
        _ => 1,
    }
}

struct Scanner {
    pos: usize,
    accum: String,
    emitted: Vec<(Kind, usize, usize)>,
    names: Vec<String>,
}

impl Scanner {
    fn intern(&mut self, text: &str) -> usize {
        if let Some(index) = self.names.iter().position(|n| n == text) {
            return index;
        }
        self.names.push(text.to_string());
        self.names.len() - 1
    }

    fn flush(&mut self) {
        if !self.accum.is_empty() {
            let text = std::mem::take(&mut self.accum);
            let kind = if matches!(text.as_str(), "fn" | "let" | "match" | "cond" | "itself") {
                Kind::Keyword(text)
            } else if text.chars().all(|c| c.is_digit(10)) && text.parse::<i64>().is_ok() {
                Kind::IntLit(text.parse().unwrap())
            } else if text == "true" || text == "false" {
                Kind::BoolLit(text == "true")
            } else {
                let index = self.intern(&text);
                Kind::Ident(text, index)
            };
            self.push(kind);
        }
    }

    fn push(&mut self, kind: Kind) {
        self.flush();
        let len = length(&kind);
        self.emitted.push((kind, self.pos, len));
        self.pos += len;
    }
}

fn scan(src: &str) -> (Vec<(Kind, usize, usize)>, Vec<String>) {
    let mut s = Scanner { pos: 0, accum: String::new(), emitted: Vec::new(), names: Vec::new() };
    let mut chars = src.chars();
    while let Some(c) = chars.next() {
        match c {
            c if c.is_whitespace() => s.push(Kind::Skip),
            '(' => s.push(Kind::LParen),
            ')' => s.push(Kind::RParen),
            '{' => s.push(Kind::LBrace),
            '}' => s.push(Kind::RBrace),
            ':' => s.push(Kind::Colon),
            ',' => s.push(Kind::Comma),
            '|' => s.push(Kind::Pipe),
            '=' => match chars.next() {
                Some('>') => s.push(Kind::FatArrow),
                Some(' ') => {
                    s.accum.push('=');
                    s.push(Kind::Skip);
                }
                Some(o) => {
                    s.accum.push('=');
                    s.accum.push(o);
                }
                None => s.push(Kind::Skip),
            },
            c => s.accum.push(c),
        }
    }
    let kept = s.emitted.into_iter().filter(|t| t.0 != Kind::Skip).collect();
    (kept, s.names)
}

fn lexed(src: &str) -> (Vec<(Kind, usize, usize)>, usize) {
    let mut interner = Interner::new();
    let tokens = Lexer::new("agreement", src).lex(&mut interner);
    let mut out = Vec::new();
    for token in tokens {
        assert_eq!(token.context.path, "agreement");
        assert_eq!(token.context.src, src);
        let kind = match token.token {
            TokenKind::Ident(symbol) => Kind::Ident(symbol.name.to_string(), symbol.index),
            TokenKind::Keyword(word) => Kind::Keyword(word.to_string()),
            TokenKind::LParen => Kind::LParen,
            TokenKind::RParen => Kind::RParen,
            TokenKind::LBrace => Kind::LBrace,
            TokenKind::RBrace => Kind::RBrace,
            TokenKind::Colon => Kind::Colon,
            TokenKind::Comma => Kind::Comma,
            TokenKind::Pipe => Kind::Pipe,
            TokenKind::FatArrow => Kind::FatArrow,
            TokenKind::IntLit(n) => Kind::IntLit(n),
            TokenKind::BoolLit(b) => Kind::BoolLit(b),
            TokenKind::Whitespace => Kind::Skip,
        };
        out.push((kind, token.context.start, token.context.len));
    }
    (out, interner.len())
}

fn agree(src: &str) {
    let (expected, names) = scan(src);
    let (got, table) = lexed(src);
    assert_eq!(got, expected, "{:?}", src);
    assert_eq!(table, names.len(), "{:?}", src);
}

fn all_strings(pieces: &[&str], up_to: usize, visit: &mut dyn FnMut(&str)) {
    let mut indices: Vec<usize> = Vec::new();
    loop {
        let text: String = indices.iter().map(|i| pieces[*i]).collect();
        visit(&text);
        let mut place = 0;
        loop {
            if place == indices.len() {
                if indices.len() == up_to {
                    return;
                }
                indices.push(0);
                break;
            }
            indices[place] += 1;
            if indices[place] < pieces.len() {
                break;
            }
            indices[place] = 0;
            place += 1;
        }
    }
}

#[test]
fn scanning_agrees_on_all_short_texts() {
    let pieces = ["a", "1", "0", "=", ">", " ", "(", ":", "\n", "é", "\u{a0}"];
    let mut count = 0;
    all_strings(&pieces, 5, &mut |text| {
        agree(text);
        count += 1;
    });
    assert_eq!(count, 1 + 11 + 121 + 1331 + 14641 + 161051);
}

#[test]
fn scanning_agrees_on_all_short_runs_of_words() {
    let pieces = [
        "fn", "let", "true", "false", "007", "x", "y1", "=", "=>", "(", "}", " ", "\n", "|", ",",
    ];
    let mut count = 0;
    all_strings(&pieces, 4, &mut |text| {
        agree(text);
        count += 1;
    });
    assert_eq!(count, 1 + 15 + 225 + 3375 + 50625);
}

#[test]
fn scanning_agrees_on_larger_texts() {
    let texts = [
        "let f = fn(x: int) => x\nmatch f {\r\n  007 => é | true => itself,\n}\n= ",
        "cond { x == 1 => true, y=2 => false | itself }\n",
        "fn\tadd(a:1,b:2)=>{a|b}\n\nlet\u{2003}z =add ( 9223372036854775807 , 00012 ) \n",
        "match=>cond=>itself=let =fn = true=false ==>\n",
        "((((())))){{{}}}::,,||=>=>=> \t\n",
    ];
    for text in texts {
        agree(text);
        for (end, _) in text.char_indices() {
            agree(&text[..end]);
        }
    }
}
