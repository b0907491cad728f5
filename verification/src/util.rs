//! Permanent text and the symbol table.

use crate::text::str_eq;
use vstd::prelude::*;

verus! {

/// Trusted: `String::leak` gives up ownership of the buffer and hands back a
/// reference to the same text, which lives for the rest of the process.
#[verifier::external_body]
fn leak_string(s: String) -> (r: &'static str)
    ensures
        r@ == s@,
{
    String::leak(s)
}

/// Copies `s` into a buffer that is never freed and returns the copy.
pub fn leak(s: &str) -> (r: &'static str)
    ensures
        r@ == s@,
{
    leak_string(s.to_owned())
}

/// What a symbol stands for: a text and the position at which the table
/// first saw it.
pub struct SymbolModel {
    pub name: Seq<char>,
    pub index: nat,
}

/// A handle for an identifier's text. Within one table, two symbols have the
/// same index exactly when they have the same text.
#[derive(Debug, Clone, Copy, Eq, Hash)]
pub struct Symbol {
    pub name: &'static str,
    pub index: usize,
}

impl View for Symbol {
    type V = SymbolModel;

    open spec fn view(&self) -> SymbolModel {
        SymbolModel { name: self.name@, index: self.index as nat }
    }
}

impl PartialEq for Symbol {
    fn eq(&self, other: &Self) -> (r: bool) {
        self.index == other.index && str_eq(self.name, other.name)
    }
}

impl vstd::std_specs::cmp::PartialEqSpecImpl for Symbol {
    open spec fn obeys_eq_spec() -> bool {
        true
    }

    open spec fn eq_spec(&self, other: &Self) -> bool {
        self@ == other@
    }
}

/// The table after `text` has been interned into `names`, and the symbol
/// that interning returns: the existing entry if there is one, a new last
/// entry otherwise.
pub open spec fn intern_spec(names: Seq<Seq<char>>, text: Seq<char>) -> (Seq<Seq<char>>, SymbolModel) {
    if names.contains(text) {
        (names, SymbolModel { name: text, index: names.index_of(text) as nat })
    } else {
        (names.push(text), SymbolModel { name: text, index: names.len() })
    }
}

/// The table after each of `texts` has been interned in turn.
pub open spec fn intern_all(names: Seq<Seq<char>>, texts: Seq<Seq<char>>) -> Seq<Seq<char>>
    decreases texts.len(),
{
    if texts.len() == 0 {
        names
    } else {
        intern_all(intern_spec(names, texts[0]).0, texts.drop_first())
    }
}

/// Interning keeps a table free of duplicates, keeps every earlier entry in
/// its place, and returns the position at which the table holds the text.
pub proof fn lemma_intern_extends(names: Seq<Seq<char>>, text: Seq<char>)
    requires
        names.no_duplicates(),
    ensures
        ({
            let (table, symbol) = intern_spec(names, text);
            &&& table.no_duplicates()
            &&& names.len() <= table.len() <= names.len() + 1
            &&& forall|i: int| 0 <= i < names.len() ==> table[i] == names[i]
            &&& symbol.index < table.len()
            &&& table[symbol.index as int] == text
            &&& symbol.name == text
        }),
{
}

/// Interning any run of texts keeps a table free of duplicates and keeps
/// every earlier entry in its place.
pub proof fn lemma_intern_all_extends(names: Seq<Seq<char>>, texts: Seq<Seq<char>>)
    requires
        names.no_duplicates(),
    ensures
        ({
            let table = intern_all(names, texts);
            &&& table.no_duplicates()
            &&& names.len() <= table.len()
            &&& forall|i: int| 0 <= i < names.len() ==> table[i] == names[i]
        }),
    decreases texts.len(),
{
    if texts.len() > 0 {
        lemma_intern_extends(names, texts[0]);
        lemma_intern_all_extends(intern_spec(names, texts[0]).0, texts.drop_first());
    }
}

/// Interning is idempotent: once `text` has been interned, interning it
/// again, after any other texts have been interned in between, returns the
/// same index and the same text, and leaves the table as it was.
pub proof fn lemma_intern_idempotent(
    names: Seq<Seq<char>>,
    text: Seq<char>,
    between: Seq<Seq<char>>,
)
    requires
        names.no_duplicates(),
    ensures
        ({
            let (first_table, first) = intern_spec(names, text);
            let later_table = intern_all(first_table, between);
            let (last_table, last) = intern_spec(later_table, text);
            &&& last == first
            &&& last_table == later_table
            &&& last_table[last.index as int] == text
        }),
{
    let (first_table, first) = intern_spec(names, text);
    let later_table = intern_all(first_table, between);
    lemma_intern_extends(names, text);
    lemma_intern_all_extends(first_table, between);
    lemma_intern_extends(later_table, text);
}

/// Interning tells texts apart: two symbols handed out by one table, with
/// any other texts interned in between, have the same index exactly when
/// they have the same text.
pub proof fn lemma_intern_distinct(
    names: Seq<Seq<char>>,
    a: Seq<char>,
    b: Seq<char>,
    between: Seq<Seq<char>>,
)
    requires
        names.no_duplicates(),
    ensures
        ({
            let (first_table, first) = intern_spec(names, a);
            let later_table = intern_all(first_table, between);
            let (last_table, last) = intern_spec(later_table, b);
            first.index == last.index <==> a == b
        }),
{
    let (first_table, first) = intern_spec(names, a);
    let later_table = intern_all(first_table, between);
    lemma_intern_extends(names, a);
    lemma_intern_all_extends(first_table, between);
    lemma_intern_extends(later_table, b);
    if a == b {
        lemma_intern_idempotent(names, a, between);
    }
}

/// An append-only table of the distinct texts seen so far, in the order of
/// their first sighting.
pub struct Interner {
    symbols: Vec<Symbol>,
}

impl View for Interner {
    type V = Seq<Seq<char>>;

    closed spec fn view(&self) -> Seq<Seq<char>> {
        self.symbols@.map_values(|s: Symbol| s.name@)
    }
}

impl Interner {
    #[verifier::type_invariant]
    spec fn inv(&self) -> bool {
        &&& forall|i: int|
            0 <= i < self.symbols@.len() ==> (#[trigger] self.symbols@[i]).index == i
        &&& self@.no_duplicates()
    }

    /// An empty table.
    pub fn new() -> (r: Self)
        ensures
            r@ == Seq::<Seq<char>>::empty(),
    {
        Interner { symbols: Vec::new() }
    }

    /// Number of distinct texts in the table.
    pub fn len(&self) -> (n: usize)
        ensures
            n == self@.len(),
            self@.no_duplicates(),
    {
        proof {
            use_type_invariant(self);
        }
        self.symbols.len()
    }

    /// The symbol of `text`, if the table holds it.
    pub fn lookup(&self, text: &str) -> (r: Option<Symbol>)
        ensures
            self@.no_duplicates(),
            match r {
                Some(s) => self@.contains(text@) && s@ == intern_spec(self@, text@).1,
                None => !self@.contains(text@),
            },
    {
        proof {
            use_type_invariant(self);
        }
        let mut i: usize = 0;
        while i < self.symbols.len()
            invariant
                i <= self.symbols@.len(),
                self@ == self.symbols@.map_values(|s: Symbol| s.name@),
                self@.no_duplicates(),
                forall|j: int|
                    0 <= j < self.symbols@.len() ==> (#[trigger] self.symbols@[j]).index == j,
                forall|j: int| 0 <= j < i ==> self@[j] != text@,
            decreases self.symbols@.len() - i,
        {
            let s = self.symbols[i];
            if str_eq(s.name, text) {
                assert(self@[i as int] == text@);
                return Some(s);
            }
            i += 1;
        }
        None
    }

    /// Returns the symbol of `text`, adding it to the table on first sight.
    /// Symbols handed out earlier stay valid: the table only grows.
    pub fn intern(&mut self, text: &str) -> (r: Symbol)
        ensures
            (final(self)@, r@) == intern_spec(old(self)@, text@),
            final(self)@.no_duplicates(),
    {
        proof {
            use_type_invariant(&*self);
        }
        match self.lookup(text) {
            Some(s) => s,
            None => {
                let name = leak(text);
                let index = self.symbols.len();
                let s = Symbol { name, index };
                let mut symbols = Vec::new();
                std::mem::swap(&mut symbols, &mut self.symbols);
                symbols.push(s);
                assert(symbols@.map_values(|s: Symbol| s.name@) =~= old(self)@.push(text@));
                std::mem::swap(&mut symbols, &mut self.symbols);
                s
            },
        }
    }
}

impl Symbol {
    /// Interns `s` into `table` and returns its symbol.
    pub fn new(s: &str, table: &mut Interner) -> (r: Symbol)
        ensures
            (final(table)@, r@) == intern_spec(old(table)@, s@),
            final(table)@.no_duplicates(),
    {
        table.intern(s)
    }
}

} // verus!
