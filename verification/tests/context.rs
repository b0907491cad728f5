use minilex::context::Context;

fn span(src: &'static str, start: usize, len: usize) -> Context {
    Context { start, len, path: "main.fl", src }
}

fn expected_line_info(src: &str, index: usize) -> (usize, usize) {
    let mut line_number = 1;
    let mut line_start = 0;
    for (i, c) in src.char_indices() {
        if i >= index {
            break;
        }
        if c == '\n' {
            line_number += 1;
            line_start = i + 1;
        }
    }
    (line_number, index - line_start + 1)
}

fn expected_excerpt(context: &Context) -> Option<String> {
    let (line, col) = expected_line_info(context.src, context.start);
    let line_src = context.src.lines().nth(line - 1)?;
    Some(format!(
        "{}:{}:{}\n{}\n{}{}",
        context.path,
        line,
        col,
        line_src,
        " ".repeat(col - 1),
        "^".repeat(context.len)
    ))
}

#[test]
fn third_line_first_column() {
    let c = span("a\nbb\nccc", 5, 3);
    assert_eq!(c.get_line_info(), (3, 1));
    assert_eq!(c.location(), "main.fl:3:1");
    assert_eq!(c.in_context(), "main.fl:3:1\nccc\n^^^");
}

#[test]
fn second_line_first_column() {
    let c = span("a\nbb\nccc", 2, 2);
    assert_eq!(c.get_line_info(), (2, 1));
    assert_eq!(c.location(), "main.fl:2:1");
    assert_eq!(c.in_context(), "main.fl:2:1\nbb\n^^");
}

#[test]
fn first_line_counts_from_one() {
    let c = span("a\nbb\nccc", 0, 1);
    assert_eq!(c.get_line_info(), (1, 1));
    assert_eq!(c.in_context(), "main.fl:1:1\na\n^");
}

#[test]
fn columns_count_bytes_from_the_line_start() {
    let src = "let x = 1\nfoo(bar)\n";
    let c = span(src, 14, 3);
    assert_eq!(c.get_line_info(), (2, 5));
    assert_eq!(c.location(), "main.fl:2:5");
    assert_eq!(c.in_context(), "main.fl:2:5\nfoo(bar)\n    ^^^");
    assert_eq!(span(src, 9, 1).get_line_info(), (1, 10));
    assert_eq!(span(src, 10, 1).get_line_info(), (2, 1));
    assert_eq!(span(src, 18, 1).get_line_info(), (2, 9));
}

#[test]
fn underline_has_one_caret_per_byte() {
    let src = "alpha beta gamma\n";
    for (start, len) in [(0, 5), (6, 4), (11, 5), (3, 0), (0, 16), (15, 1)] {
        let shown = span(src, start, len).in_context();
        let lines: Vec<&str> = shown.split('\n').collect();
        assert_eq!(lines.len(), 3);
        assert_eq!(lines[0], format!("main.fl:1:{}", start + 1));
        assert_eq!(lines[1], "alpha beta gamma");
        assert_eq!(lines[2], format!("{}{}", " ".repeat(start), "^".repeat(len)));
    }
}

#[test]
fn line_ending_is_no_part_of_the_line() {
    let src = "ab\r\ncd\r\nef";
    assert_eq!(span(src, 0, 2).in_context(), "main.fl:1:1\nab\n^^");
    assert_eq!(span(src, 4, 2).in_context(), "main.fl:2:1\ncd\n^^");
    assert_eq!(span(src, 8, 2).in_context(), "main.fl:3:1\nef\n^^");
    assert_eq!(span(src, 2, 1).in_context(), "main.fl:1:3\nab\n  ^");
    assert_eq!(span(src, 3, 1).in_context(), "main.fl:1:4\nab\n   ^");
}

#[test]
fn carriage_return_alone_is_part_of_the_line() {
    assert_eq!(span("ab\r", 0, 2).in_context(), "main.fl:1:1\nab\r\n^^");
    assert_eq!(span("a\rb\nc", 2, 1).in_context(), "main.fl:1:3\na\rb\n  ^");
    assert_eq!(span("\r\n", 0, 1).in_context(), "main.fl:1:1\n\n^");
    assert_eq!(span("\r\r\n", 0, 1).in_context(), "main.fl:1:1\n\r\n^");
}

#[test]
fn empty_lines_are_lines() {
    let src = "a\n\nb\n";
    assert_eq!(span(src, 2, 1).get_line_info(), (2, 1));
    assert_eq!(span(src, 2, 1).in_context(), "main.fl:2:1\n\n^");
    assert_eq!(span(src, 3, 1).in_context(), "main.fl:3:1\nb\n^");
}

#[test]
fn a_span_may_start_past_the_text() {
    let c = span("abc", 10, 1);
    assert!(c.is_resolvable());
    assert_eq!(c.get_line_info(), (1, 11));
    assert_eq!(c.in_context(), "main.fl:1:11\nabc\n          ^");
    let d = span("a\nbc", 7, 2);
    assert_eq!(d.get_line_info(), (2, 6));
    assert_eq!(d.in_context(), "main.fl:2:6\nbc\n     ^^");
}

#[test]
fn a_line_feed_belongs_to_the_line_it_ends() {
    let c = span("a\nb", 1, 1);
    assert_eq!(c.get_line_info(), (1, 2));
    assert_eq!(c.in_context(), "main.fl:1:2\na\n ^");
}

#[test]
fn a_missing_line_cannot_be_shown() {
    assert!(!span("", 0, 0).is_resolvable());
    assert!(!span("", 5, 1).is_resolvable());
    assert!(!span("a\n", 2, 1).is_resolvable());
    assert!(!span("a\n", 9, 1).is_resolvable());
    assert!(!span("a\nb\n", 4, 1).is_resolvable());
    assert_eq!(expected_excerpt(&span("a\n", 2, 1)), None);
    assert!(span("a\n", 1, 1).is_resolvable());
    assert!(span("a\n\n", 2, 1).is_resolvable());
    assert!(span("a", 0, 1).is_resolvable());
}

#[test]
fn a_column_that_does_not_fit_cannot_be_shown() {
    assert!(!span("abc", usize::MAX, 1).is_resolvable());
    assert!(span("abc", usize::MAX - 1, 0).is_resolvable());
    assert_eq!(span("abc", usize::MAX - 1, 0).get_line_info(), (1, usize::MAX));
    assert!(span("\nabc", usize::MAX, 0).is_resolvable());
    assert_eq!(span("\nabc", usize::MAX, 0).get_line_info(), (2, usize::MAX));
}

#[test]
fn lines_may_hold_any_text() {
    let src = "é = 1\nü x ∀\n𝄞\n";
    assert_eq!(span(src, 0, 2).in_context(), "main.fl:1:1\né = 1\n^^");
    assert_eq!(span(src, 7, 2).in_context(), "main.fl:2:1\nü x ∀\n^^");
    assert_eq!(span(src, 12, 3).in_context(), "main.fl:2:6\nü x ∀\n     ^^^");
    assert_eq!(span(src, 16, 4).in_context(), "main.fl:3:1\n𝄞\n^^^^");
    assert_eq!(span(src, 8, 1).get_line_info(), (2, 2));
}

#[test]
fn the_path_is_shown_as_it_is() {
    let c = Context { start: 0, len: 1, path: "", src: "x" };
    assert_eq!(c.location(), ":1:1");
    let d = Context { start: 0, len: 1, path: "a:b/ç.txt", src: "x" };
    assert_eq!(d.location(), "a:b/ç.txt:1:1");
    assert_eq!(d.in_context(), "a:b/ç.txt:1:1\nx\n^");
}

#[test]
fn large_line_numbers_are_written_out() {
    let text: String = "\n".repeat(12344) + "x";
    let src: &'static str = minilex::util::leak(&text);
    let c = span(src, 12344, 1);
    assert_eq!(c.get_line_info(), (12345, 1));
    assert_eq!(c.location(), "main.fl:12345:1");
    let wide: String = " ".repeat(1009) + "x";
    let src: &'static str = minilex::util::leak(&wide);
    assert_eq!(span(src, 1009, 1).location(), "main.fl:1:1010");
}

#[test]
fn line_and_column_agree_with_a_scan_of_the_characters() {
    let sources = [
        "",
        "a",
        "\n",
        "a\nbb\nccc",
        "a\nbb\nccc\n",
        "\n\n\n",
        "é\nü x ∀\n𝄞\n",
        "ab\r\ncd\r\nef\r",
        "let f = fn(x: int) => x\nmatch f {\r\n  007 => é | true => itself,\n}\n= ",
    ];
    for src in sources {
        for start in 0..=src.len() + 2 {
            let c = span(src, start, 1);
            assert_eq!(c.get_line_info(), expected_line_info(src, start), "{:?} at {}", src, start);
        }
    }
}

#[test]
fn excerpt_agrees_with_the_lines_of_the_text() {
    let sources = [
        "",
        "a",
        "\n",
        "a\nbb\nccc",
        "a\nbb\nccc\n",
        "\n\n\n",
        "\r",
        "\r\n",
        "\r\r\n\r",
        "é\nü x ∀\n𝄞\n",
        "ab\r\ncd\r\nef\r",
        "let f = fn(x: int) => x\nmatch f {\r\n  007 => é | true => itself,\n}\n= ",
    ];
    for src in sources {
        for start in 0..=src.len() + 2 {
            for len in [0, 1, 3] {
                let c = span(src, start, len);
                let expected = expected_excerpt(&c);
                assert_eq!(c.is_resolvable(), expected.is_some(), "{:?} at {}", src, start);
                if let Some(text) = expected {
                    assert_eq!(c.in_context(), text, "{:?} at {}", src, start);
                }
            }
        }
    }
}
