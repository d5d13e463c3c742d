use eval::text::{
    all_contained, contains_string, is_delim_char, is_space_char, is_valid_atom, is_variable_name,
    render, to_chars, tokenize, Token,
};

fn shape(tokens: &[Token]) -> Vec<String> {
    tokens
        .iter()
        .map(|t| match t {
            Token::Open => "(".to_string(),
            Token::Close => ")".to_string(),
            Token::Atom(a) => format!("atom:{}", a),
        })
        .collect()
}

#[test]
fn whitespace_and_delimiters_are_told_apart() {
    for c in [' ', '\t', '\n', '\r'] {
        assert!(is_space_char(c));
        assert!(is_delim_char(c));
    }
    assert!(!is_space_char('('));
    assert!(is_delim_char('('));
    assert!(is_delim_char(')'));
    assert!(!is_delim_char('?'));
    assert!(!is_delim_char('a'));
}

#[test]
fn to_chars_keeps_every_character() {
    assert_eq!(to_chars("a(é"), vec!['a', '(', 'é']);
    assert_eq!(to_chars(""), Vec::<char>::new());
}

#[test]
fn tokenize_cuts_at_parentheses_and_whitespace() {
    let toks = tokenize(" (+ ?a(*  2 ?b))x\n");
    assert_eq!(
        shape(&toks),
        vec!["(", "atom:+", "atom:?a", "(", "atom:*", "atom:2", "atom:?b", ")", ")", "atom:x"]
    );
    assert!(tokenize("   \t ").is_empty());
    assert!(tokenize("").is_empty());
}

#[test]
fn tokenize_keeps_characters_outside_ascii() {
    let toks = tokenize("(λ ?x→y)");
    assert_eq!(shape(&toks), vec!["(", "atom:λ", "atom:?x→y", ")"]);
}

#[test]
fn render_puts_one_blank_between_neighbours() {
    let toks = tokenize("(  +   ?a (   * 2 ?b )  )   ==>  ?a");
    assert_eq!(render(&toks), "(+ ?a (* 2 ?b)) ==> ?a");
    assert_eq!(render(&tokenize("")), "");
    assert_eq!(render(&tokenize(") (")), ") (");
    assert_eq!(render(&tokenize("a)(b")), "a) (b");
}

#[test]
fn tokenizing_the_rendered_text_gives_the_tokens_back() {
    for text in ["(+ ?a 0) ==> ?a", "((a)b) )( c", "x", "", " ( ( ) ) "] {
        let toks = tokenize(text);
        let again = tokenize(&render(&toks));
        assert_eq!(shape(&again), shape(&toks));
    }
}

#[test]
fn atoms_are_nonempty_and_free_of_delimiters() {
    assert!(is_valid_atom("?a"));
    assert!(is_valid_atom("<="));
    assert!(is_valid_atom("12"));
    assert!(!is_valid_atom(""));
    assert!(!is_valid_atom("a b"));
    assert!(!is_valid_atom("a("));
    assert!(!is_valid_atom(")"));
    assert!(!is_valid_atom("a\n"));
}

#[test]
fn variables_start_with_a_question_mark() {
    assert!(is_variable_name("?a"));
    assert!(is_variable_name("?"));
    assert!(!is_variable_name("a?"));
    assert!(!is_variable_name(""));
}

#[test]
fn string_membership_and_inclusion() {
    let small = vec!["?a".to_string(), "?b".to_string()];
    let large = vec!["?b".to_string(), "?c".to_string(), "?a".to_string()];
    assert!(contains_string(&large, &"?c".to_string()));
    assert!(!contains_string(&small, &"?c".to_string()));
    assert!(all_contained(&small, &large));
    assert!(!all_contained(&large, &small));
    assert!(all_contained(&Vec::new(), &small));
}
