//! Tests of the human-readable diagnostics and the store dump.

use lifetimes_backend::CheckError;
use lifetimes_backend::Checker;
use lifetimes_backend::CheckerError;

fn checker_in_function() -> Checker {
    let mut checker = Checker::new();
    let static_origin = checker.static_origin();
    checker.enter_function(static_origin);
    checker.enter_scope();
    checker
}

#[test]
fn moved_message_is_exact() {
    let mut c = checker_in_function();
    let x = c.create_var(false, false, "x".to_string());
    let lit = c.create_literal("42".to_string());
    c.initialize_var_with_value(x, vec![lit]).unwrap();
    let y = c.create_var(false, false, "y".to_string());
    c.initialize_var_with_value(y, vec![x]).unwrap();
    let e = c.check_var_usable(x).unwrap_err();
    assert_eq!(e.message().as_str(), "Local 'x' $1 has been moved");
}

#[test]
fn immutable_assigned_message_is_exact() {
    let mut c = checker_in_function();
    let x = c.create_var(false, false, "x".to_string());
    let l1 = c.create_literal("1".to_string());
    c.initialize_var_with_value(x, vec![l1]).unwrap();
    let l2 = c.create_literal("2".to_string());
    let e = c.initialize_var_with_value(x, vec![l2]).unwrap_err();
    assert_eq!(
        e.message().as_str(),
        "Local 'x' $1 is immutable, so exactly one assignment is allowed"
    );
}

#[test]
fn immutable_borrowed_mutable_message_is_exact() {
    let mut c = checker_in_function();
    let x = c.create_var(false, false, "x".to_string());
    let lit = c.create_literal("3".to_string());
    c.initialize_var_with_value(x, vec![lit]).unwrap();
    let y = c.create_var(true, false, "y".to_string());
    let e = c.initialize_var_with_borrow(y, vec![x], true).unwrap_err();
    assert_eq!(
        e.message().as_str(),
        "Local 'x' $1 is immutable, so it cannot be borrowed mutably"
    );
}

#[test]
fn uninitialized_message_is_exact() {
    let mut c = checker_in_function();
    let x = c.create_var(false, false, "x".to_string());
    let e = c.check_var_usable(x).unwrap_err();
    assert_eq!(e.message().as_str(), "Local 'x' $1 has not yet been initialized");
}

#[test]
fn invalid_message_is_exact() {
    let mut c = checker_in_function();
    let x = c.create_var(true, false, "x".to_string());
    let lit = c.create_literal("1".to_string());
    c.initialize_var_with_value(x, vec![lit]).unwrap();
    let y = c.create_var(true, false, "y".to_string());
    c.initialize_var_with_borrow(y, vec![x], true).unwrap();
    let z = c.create_var(true, false, "z".to_string());
    c.initialize_var_with_borrow(z, vec![x], true).unwrap();
    let e = c.check_var_usable(y).unwrap_err();
    assert_eq!(e.message().as_str(), "Local 'y' $3 is not valid anymore");
}

#[test]
fn outermost_scope_message_is_exact() {
    let mut c = Checker::new();
    let static_origin = c.static_origin();
    c.enter_function(static_origin);
    let e = c.leave_scope(None).unwrap_err();
    assert_eq!(e.message().as_str(), "Outermost scope left");
}

#[test]
fn invalid_origin_message_names_the_local() {
    let mut c = checker_in_function();
    c.enter_scope();
    let local = c.create_var(false, false, "local".to_string());
    let lit = c.create_literal("7".to_string());
    c.initialize_var_with_value(local, vec![lit]).unwrap();
    let r = c.create_ref_tmp(false, "&local".to_string());
    c.initialize_var_with_borrow(r, vec![local], false).unwrap();
    let e = c.leave_scope(Some(r)).unwrap_err();
    assert_eq!(e.message().as_str(), "Local 'local' $1 is not valid for origin #2");
}

#[test]
fn check_error_wraps_checker_error() {
    let mut c = checker_in_function();
    let x = c.create_var(false, false, "x".to_string());
    let e = c.check_var_usable(x).unwrap_err();
    let wrapped = CheckError::Borrowcheck(e);
    assert_eq!(wrapped.message().as_str(), "Local 'x' $1 has not yet been initialized");
    let inner = wrapped.into_checker_error();
    assert!(matches!(inner, CheckerError::Uninitialized(_, _)));
}

#[test]
fn dump_of_fresh_checker_shows_the_void_literal() {
    let c = Checker::new();
    assert_eq!(c.dump().as_str(), "Local '()' $0 Initialized (borrows [])\n");
}

#[test]
fn dump_shows_statuses_and_borrows() {
    let mut c = checker_in_function();
    let x = c.create_var(false, false, "x".to_string());
    let lit = c.create_literal("42".to_string());
    c.initialize_var_with_value(x, vec![lit]).unwrap();
    let y = c.create_var(false, false, "y".to_string());
    c.initialize_var_with_borrow(y, vec![x], false).unwrap();
    let expected = "Local '()' $0 Initialized (borrows [])\nLocal 'x' $1 Borrowed[$3] (borrows [])\nLocal '<lit> 42' $2 Initialized (borrows [])\nLocal 'y' $3 Initialized (borrows [&$1])\n";
    assert_eq!(c.dump().as_str(), expected);
}

#[test]
fn temporary_and_literal_names_carry_their_text() {
    let mut c = checker_in_function();
    let lit = c.create_literal("42".to_string());
    let e = c.initialize_var_with_value(lit, vec![c.void_literal()]).unwrap_err();
    assert_eq!(
        e.message().as_str(),
        "Local '<lit> 42' $1 is immutable, so exactly one assignment is allowed"
    );
    let tmp = c.create_ref_tmp(false, "&x".to_string());
    let e2 = c.check_var_usable(tmp).unwrap_err();
    assert_eq!(e2.message().as_str(), "Local '<tmp> &x' $2 has not yet been initialized");
}
