use mr_lisp::repl::update_paren_balance;

#[test]
fn paren_balance_counts_nesting() {
    let mut balance: i32 = 0;
    let mut in_string = false;
    update_paren_balance("(define x (", &mut balance, &mut in_string);
    assert_eq!(balance, 2);
    assert!(!in_string);
    update_paren_balance("1))", &mut balance, &mut in_string);
    assert_eq!(balance, 0);
    assert!(!in_string);
}

#[test]
fn paren_balance_ignores_parens_inside_strings() {
    let mut balance: i32 = 0;
    let mut in_string = false;
    update_paren_balance("(a \"b)\" (", &mut balance, &mut in_string);
    assert_eq!(balance, 2);
    assert!(!in_string);
}

#[test]
fn paren_balance_tracks_open_strings_across_lines() {
    let mut balance: i32 = 0;
    let mut in_string = false;
    update_paren_balance("(print \"first", &mut balance, &mut in_string);
    assert_eq!(balance, 1);
    assert!(in_string);
    update_paren_balance("second\")", &mut balance, &mut in_string);
    assert_eq!(balance, 0);
    assert!(!in_string);
}

#[test]
fn paren_balance_goes_negative_on_premature_close() {
    let mut balance: i32 = 0;
    let mut in_string = false;
    update_paren_balance(")", &mut balance, &mut in_string);
    assert_eq!(balance, -1);
}
