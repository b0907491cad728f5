use minilex::util::{leak, Interner, Symbol};

#[test]
fn leak_keeps_the_text() {
    let owned = String::from("hello, world");
    let kept: &'static str = leak(&owned);
    drop(owned);
    assert_eq!(kept, "hello, world");
    assert_eq!(leak(""), "");
    assert_eq!(leak("é∀"), "é∀");
}

#[test]
fn new_table_is_empty() {
    let table = Interner::new();
    assert_eq!(table.len(), 0);
    assert_eq!(table.lookup("x"), None);
}

#[test]
fn first_sighting_gets_the_next_index() {
    let mut table = Interner::new();
    let a = table.intern("alpha");
    let b = table.intern("beta");
    let c = table.intern("gamma");
    assert_eq!(a, Symbol { name: "alpha", index: 0 });
    assert_eq!(b, Symbol { name: "beta", index: 1 });
    assert_eq!(c, Symbol { name: "gamma", index: 2 });
    assert_eq!(table.len(), 3);
}

#[test]
fn interning_is_idempotent() {
    let mut table = Interner::new();
    let first = table.intern("name");
    for other in ["a", "b", "name2", "nam", ""] {
        table.intern(other);
        let again = table.intern("name");
        assert_eq!(again.index, first.index);
        assert_eq!(again.name, first.name);
        assert_eq!(again, first);
    }
    assert_eq!(table.len(), 6);
    let size = table.len();
    for _ in 0..10 {
        assert_eq!(table.intern("name"), first);
    }
    assert_eq!(table.len(), size);
}

#[test]
fn interning_tells_texts_apart() {
    let mut table = Interner::new();
    let texts = ["x", "y", "xy", "yx", "X", "", " ", "x ", "é", "e"];
    let mut symbols = Vec::new();
    for text in texts {
        symbols.push(table.intern(text));
    }
    for (i, a) in symbols.iter().enumerate() {
        for (j, b) in symbols.iter().enumerate() {
            assert_eq!(a.index == b.index, i == j);
            assert_eq!(a == b, i == j);
        }
        assert_eq!(a.index, i);
        assert_eq!(a.name, texts[i]);
    }
}

#[test]
fn lookup_finds_what_was_interned() {
    let mut table = Interner::new();
    table.intern("one");
    table.intern("two");
    assert_eq!(table.lookup("one"), Some(Symbol { name: "one", index: 0 }));
    assert_eq!(table.lookup("two"), Some(Symbol { name: "two", index: 1 }));
    assert_eq!(table.lookup("three"), None);
    assert_eq!(table.lookup("on"), None);
    assert_eq!(table.len(), 2);
}

#[test]
fn symbol_new_interns() {
    let mut table = Interner::new();
    let a = Symbol::new("a", &mut table);
    let b = Symbol::new("b", &mut table);
    let a2 = Symbol::new("a", &mut table);
    assert_eq!(a.index, 0);
    assert_eq!(b.index, 1);
    assert_eq!(a2, a);
    assert_eq!(a.name, "a");
    assert_eq!(table.len(), 2);
}

#[test]
fn tables_are_independent() {
    let mut one = Interner::new();
    let mut two = Interner::new();
    one.intern("a");
    let b_in_one = one.intern("b");
    let b_in_two = two.intern("b");
    assert_eq!(b_in_one.index, 1);
    assert_eq!(b_in_two.index, 0);
    assert_ne!(b_in_one, b_in_two);
}

#[test]
fn symbols_compare_by_text_and_index() {
    let a = Symbol { name: "a", index: 0 };
    let owned = String::from("a");
    assert_eq!(a, Symbol { name: leak(&owned), index: 0 });
    assert_ne!(a, Symbol { name: "a", index: 1 });
    assert_ne!(a, Symbol { name: "b", index: 0 });
    let copy = a;
    assert_eq!(copy, a);
}
