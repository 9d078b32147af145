use pstree::wrap::tokenize;
use pstree::wrap::wrap_cmdline;

#[test]
fn test_wrap_cmdline() {
    assert_eq!(wrap_cmdline("hello", 2), vec!("hello "));
    assert_eq!(wrap_cmdline("hello --world", 20), vec!("hello --world "));
    assert_eq!(wrap_cmdline("hello --world", 7), vec!("hello ", "--world "));
    assert_eq!(wrap_cmdline("hello --world-war", 6), vec!("hello ", "--world-war "));
    assert_eq!(wrap_cmdline("hello --word z", 9), vec!("hello ", "--word z "));
    assert_eq!(
        wrap_cmdline("hello z --word z superdyduperdydo", 9),
        vec!("hello z ", "--word z ", "superdyduperdydo ")
    );
}

#[test]
fn wrap_empty_input_gives_no_lines() {
    assert_eq!(wrap_cmdline("", 10), Vec::<String>::new());
    assert_eq!(wrap_cmdline("   \t  ", 10), Vec::<String>::new());
}

#[test]
fn wrap_width_one_packs_one_token_per_line() {
    assert_eq!(wrap_cmdline("a b c", 1), vec!("a ", "b ", "c "));
}

#[test]
fn wrap_measures_display_width_not_chars() {
    // Each CJK character is two columns wide, so the second token no
    // longer fits at budget five but still fits at budget eight.
    assert_eq!(wrap_cmdline("\u{65e5}\u{672c} \u{8a9e}", 5), vec!("\u{65e5}\u{672c} ", "\u{8a9e} "));
    assert_eq!(wrap_cmdline("\u{65e5}\u{672c} \u{8a9e}", 8), vec!("\u{65e5}\u{672c} \u{8a9e} "));
}

#[test]
fn wrap_rewrapping_a_wrapped_line_keeps_it_whole() {
    let lines = wrap_cmdline("hello z --word z superdyduperdydo", 9);
    for line in &lines {
        assert_eq!(wrap_cmdline(line, 9), vec![line.clone()]);
    }
}

#[test]
fn wrap_keeps_lines_under_the_budget() {
    // Every line of two or more tokens stays, trimmed, strictly under
    // the budget in displayed columns; only a lone over-wide token may
    // exceed it.
    for budget in [5usize, 9, 12] {
        let lines = wrap_cmdline("a b c d e f g hello z --word superdyduperdydo", budget);
        for line in &lines {
            let trimmed = line.trim_end();
            let cols = unicode_width::UnicodeWidthStr::width(trimmed);
            if line.split_whitespace().count() >= 2 {
                assert!(cols < budget);
            }
        }
    }
}

#[test]
fn wrap_charges_every_separator() {
    // Seven one-column tokens at budget nine: the fifth token would bring
    // the line, separators included, to nine columns, so it starts a new
    // line instead.
    assert_eq!(wrap_cmdline("a b c d e f g", 9), vec!("a b c d ", "e f g "));
}

#[test]
fn tokenize_splits_on_whitespace_runs() {
    assert_eq!(tokenize("  ls  -l\tfoo\n"), vec!("ls", "-l", "foo"));
    assert_eq!(tokenize(""), Vec::<String>::new());
    assert_eq!(tokenize("one"), vec!("one"));
}

#[test]
fn tokenize_splits_on_unicode_whitespace() {
    // A no-break space separates tokens just as an ASCII space does.
    assert_eq!(tokenize("a\u{a0}b"), vec!("a", "b"));
    assert_eq!(wrap_cmdline("a\u{a0}b", 10), vec!("a b "));
}
