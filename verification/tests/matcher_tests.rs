use minigrep::{isearch, scan_content, search};

#[test]
fn one_result() {
    let query = "rust";
    let contents = "\
Rust is a very fast
language and Rustaceans love it.
Rustaceans are people who love rust";

    assert_eq!(
        vec![(3, "Rustaceans are people who love rust")],
        search(query, contents)
    )
}

#[test]
fn two_result() {
    let query = "Rusta";
    let contents = "\
Rust is a very fast
language and Rustaceans love it.
Rustaceans are people who love rust";

    assert_eq!(
        vec![
            (2, "language and Rustaceans love it."),
            (3, "Rustaceans are people who love rust"),
        ],
        search(query, contents)
    )
}

#[test]
fn zero_result() {
    let query = "Gopher";
    let contents = "\
Rust is a very fast
language and Rustaceans love it.
Rustaceans are people who love rust";

    let expected: Vec<(usize, &str)> = vec![];
    assert_eq!(expected, search(query, contents))
}

#[test]
fn ione_result() {
    let query = "FAst";
    let contents = "\
Rust is a very fast
language and Rustaceans love it.
Rustaceans are people who love rust";

    assert_eq!(vec![(1, "Rust is a very fast")], isearch(query, contents))
}

#[test]
fn itwo_result() {
    let query = "LangU";
    let contents = "\
Rust is a very fast
language and Rustaceans love it.
Rustaceans are people who love rust";

    assert_eq!(
        vec![(2, "language and Rustaceans love it.")],
        isearch(query, contents)
    )
}

#[test]
fn izero_result() {
    let query = "Gopher";
    let contents = "\
Rust is a very fast
language and Rustaceans love it.
Rustaceans are people who love rust";

    let expected: Vec<(usize, &str)> = vec![];
    assert_eq!(expected, isearch(query, contents))
}

#[test]
fn empty_query_matches_every_line() {
    let contents = "alpha\nbeta\ngamma";
    let expected = vec![(1, "alpha"), (2, "beta"), (3, "gamma")];
    assert_eq!(expected, search("", contents));
    assert_eq!(expected, isearch("", contents));
}

#[test]
fn empty_content_matches_nothing() {
    let expected: Vec<(usize, &str)> = vec![];
    assert_eq!(expected, search("anything", ""));
    assert_eq!(expected, isearch("anything", ""));
}

#[test]
fn empty_query_on_empty_content() {
    let expected: Vec<(usize, &str)> = vec![];
    assert_eq!(expected, search("", ""));
    assert_eq!(expected, isearch("", ""));
}

#[test]
fn crlf_endings_are_stripped() {
    let contents = "one\r\ntwo\r\nthree\r\n";
    assert_eq!(vec![(2, "two")], search("two", contents));
    assert_eq!(vec![(1, "one"), (2, "two"), (3, "three")], search("", contents));
}

#[test]
fn final_unterminated_line_is_counted() {
    let contents = "first\nsecond";
    assert_eq!(vec![(2, "second")], search("sec", contents));
}

#[test]
fn trailing_newline_adds_no_line() {
    let contents = "first\nsecond\n";
    assert_eq!(vec![(1, "first"), (2, "second")], search("", contents));
}

#[test]
fn lone_cr_on_final_line_is_kept() {
    let contents = "a\nb\r";
    assert_eq!(vec![(2, "b\r")], search("b", contents));
}

#[test]
fn empty_lines_are_numbered() {
    let contents = "a\n\nb";
    assert_eq!(vec![(1, "a"), (2, ""), (3, "b")], search("", contents));
    assert_eq!(vec![(3, "b")], search("b", contents));
}

#[test]
fn fold_covers_exact_matches() {
    let contents = "\
Rust is a very fast
language and Rustaceans love it.
Rustaceans are people who love rust";
    let exact = search("Rusta", contents);
    let folded = isearch("Rusta", contents);
    for pair in &exact {
        assert!(folded.contains(pair));
    }
    assert_eq!(
        vec![
            (2, "language and Rustaceans love it."),
            (3, "Rustaceans are people who love rust"),
        ],
        folded
    );
}

#[test]
fn fold_lowers_the_content_too() {
    let contents = "RUST IS GREAT";
    assert_eq!(vec![(1, "RUST IS GREAT")], isearch("rust", contents));
}

#[test]
fn fold_handles_non_ascii_letters() {
    let contents = "une \u{c9}COLE\nrien";
    assert_eq!(vec![(1, "une \u{c9}COLE")], isearch("\u{e9}cole", contents));
}

#[test]
fn scan_content_picks_the_mode() {
    let contents = "Apple\napple";
    assert_eq!(vec![(2, "apple")], scan_content("apple", contents, true));
    assert_eq!(
        vec![(1, "Apple"), (2, "apple")],
        scan_content("apple", contents, false)
    );
}
