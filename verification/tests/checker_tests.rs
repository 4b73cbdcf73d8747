//! Scenario tests driving the checker through its public facade, the way a
//! front-end walking resolved program structure would.

use lifetimes_backend::Checker;
use lifetimes_backend::CheckerError;

/// A checker with the initial scope already entered, bound to the static
/// origin, as a front-end sets it up for a whole program.
fn checker_in_function() -> Checker {
    let mut checker = Checker::new();
    let static_origin = checker.static_origin();
    checker.enter_function(static_origin);
    checker.enter_scope();
    checker
}

/// `x = 42; y = &x; z = &x;` succeeds: shared borrowers accumulate.
#[test]
fn shared_reuse_succeeds() {
    let mut c = checker_in_function();
    let x = c.create_var(false, false, "x".to_string());
    let lit = c.create_literal("42".to_string());
    c.initialize_var_with_value(x, vec![lit]).unwrap();
    let y = c.create_var(false, false, "y".to_string());
    c.initialize_var_with_borrow(y, vec![x], false).unwrap();
    let z = c.create_var(false, false, "z".to_string());
    c.initialize_var_with_borrow(z, vec![x], false).unwrap();
    assert!(c.check_var_usable(y).is_ok());
    assert!(c.check_var_usable(z).is_ok());
    assert!(c.check_var_usable(x).is_ok());
}

/// A variable carries many simultaneous shared borrowers.
#[test]
fn many_shared_borrowers() {
    let mut c = checker_in_function();
    let x = c.create_var(false, false, "x".to_string());
    let lit = c.create_literal("42".to_string());
    c.initialize_var_with_value(x, vec![lit]).unwrap();
    let mut borrowers = Vec::new();
    for k in 0..8 {
        let b = c.create_var(false, false, format!("b{}", k));
        c.initialize_var_with_borrow(b, vec![x], false).unwrap();
        borrowers.push(b);
    }
    for b in borrowers {
        assert!(c.check_var_usable(b).is_ok());
    }
}

/// `mut x = 42; y = &mut x; z = &mut x; use(y);` fails `Invalid` on the
/// use of `y`: a new exclusive borrow revokes the previous one.
#[test]
fn exclusive_conflict_invalidates_prior_borrower() {
    let mut c = checker_in_function();
    let x = c.create_var(true, false, "x".to_string());
    let lit = c.create_literal("42".to_string());
    c.initialize_var_with_value(x, vec![lit]).unwrap();
    let y = c.create_var(true, false, "y".to_string());
    c.initialize_var_with_borrow(y, vec![x], true).unwrap();
    let z = c.create_var(true, false, "z".to_string());
    c.initialize_var_with_borrow(z, vec![x], true).unwrap();
    let r = c.check_var_usable(y);
    assert!(matches!(r, Err(CheckerError::Invalid(_, _))));
    assert!(c.check_var_usable(z).is_ok());
}

/// A new exclusive borrow also revokes existing shared borrowers.
#[test]
fn exclusive_borrow_invalidates_shared_borrowers() {
    let mut c = checker_in_function();
    let x = c.create_var(true, false, "x".to_string());
    let lit = c.create_literal("1".to_string());
    c.initialize_var_with_value(x, vec![lit]).unwrap();
    let a = c.create_var(false, false, "a".to_string());
    c.initialize_var_with_borrow(a, vec![x], false).unwrap();
    let b = c.create_var(false, false, "b".to_string());
    c.initialize_var_with_borrow(b, vec![x], false).unwrap();
    let m = c.create_var(true, false, "m".to_string());
    c.initialize_var_with_borrow(m, vec![x], true).unwrap();
    assert!(matches!(c.check_var_usable(a), Err(CheckerError::Invalid(_, _))));
    assert!(matches!(c.check_var_usable(b), Err(CheckerError::Invalid(_, _))));
    assert!(c.check_var_usable(m).is_ok());
}

/// `x = 42; y = x; use(x);` fails `Moved`.
#[test]
fn use_after_move_fails_moved() {
    let mut c = checker_in_function();
    let x = c.create_var(false, false, "x".to_string());
    let lit = c.create_literal("42".to_string());
    c.initialize_var_with_value(x, vec![lit]).unwrap();
    let y = c.create_var(false, false, "y".to_string());
    c.initialize_var_with_value(y, vec![x]).unwrap();
    let r = c.check_var_usable(x);
    match r {
        Err(CheckerError::Moved(name, id)) => {
            assert_eq!(name.as_str(), "x");
            assert_eq!(id, x);
        },
        _ => panic!("expected a Moved failure"),
    }
    assert!(c.check_var_usable(y).is_ok());
}

/// `x = 42; y = x; z = &x;` fails: borrowing a moved-from variable.
#[test]
fn borrow_after_move_fails() {
    let mut c = checker_in_function();
    let x = c.create_var(false, false, "x".to_string());
    let lit = c.create_literal("42".to_string());
    c.initialize_var_with_value(x, vec![lit]).unwrap();
    let y = c.create_var(false, false, "y".to_string());
    c.initialize_var_with_value(y, vec![x]).unwrap();
    let z = c.create_var(false, false, "z".to_string());
    let r = c.initialize_var_with_borrow(z, vec![x], false);
    assert!(matches!(r, Err(CheckerError::Moved(_, _))));
}

/// An exclusive borrow of a moved-from variable fails too.
#[test]
fn mut_borrow_after_move_fails() {
    let mut c = checker_in_function();
    let x = c.create_var(true, false, "x".to_string());
    let lit = c.create_literal("42".to_string());
    c.initialize_var_with_value(x, vec![lit]).unwrap();
    let y = c.create_var(false, false, "y".to_string());
    c.initialize_var_with_value(y, vec![x]).unwrap();
    let z = c.create_var(true, false, "z".to_string());
    let r = c.initialize_var_with_borrow(z, vec![x], true);
    assert!(matches!(r, Err(CheckerError::Moved(_, _))));
}

/// Moving a copy-marked variable never consumes it, however often it is
/// moved.
#[test]
fn copy_semantics_survive_repeated_moves() {
    let mut c = checker_in_function();
    let lit = c.create_literal("42".to_string());
    for k in 0..5 {
        let y = c.create_var(false, false, format!("y{}", k));
        c.initialize_var_with_value(y, vec![lit]).unwrap();
        assert!(c.check_var_usable(lit).is_ok());
        assert!(c.check_var_usable(y).is_ok());
    }
}

/// Re-assigning a non-mutable, already-initialized variable fails
/// `ImmutableAssigned`.
#[test]
fn immutable_reassignment_fails() {
    let mut c = checker_in_function();
    let x = c.create_var(false, false, "x".to_string());
    let l1 = c.create_literal("1".to_string());
    c.initialize_var_with_value(x, vec![l1]).unwrap();
    let l2 = c.create_literal("2".to_string());
    let r = c.initialize_var_with_value(x, vec![l2]);
    match r {
        Err(CheckerError::ImmutableAssigned(name, id)) => {
            assert_eq!(name.as_str(), "x");
            assert_eq!(id, x);
        },
        _ => panic!("expected an ImmutableAssigned failure"),
    }
}

/// A mutable variable may be re-assigned.
#[test]
fn mutable_reassignment_succeeds() {
    let mut c = checker_in_function();
    let x = c.create_var(true, false, "x".to_string());
    let l1 = c.create_literal("1".to_string());
    c.initialize_var_with_value(x, vec![l1]).unwrap();
    let l2 = c.create_literal("2".to_string());
    c.initialize_var_with_value(x, vec![l2]).unwrap();
    assert!(c.check_var_usable(x).is_ok());
}

/// Re-assigning a variable invalidates whoever borrowed the old value.
#[test]
fn reassignment_invalidates_borrowers() {
    let mut c = checker_in_function();
    let x = c.create_var(true, false, "x".to_string());
    let l1 = c.create_literal("1".to_string());
    c.initialize_var_with_value(x, vec![l1]).unwrap();
    let y = c.create_var(false, false, "y".to_string());
    c.initialize_var_with_borrow(y, vec![x], false).unwrap();
    let l2 = c.create_literal("2".to_string());
    c.initialize_var_with_value(x, vec![l2]).unwrap();
    assert!(matches!(c.check_var_usable(y), Err(CheckerError::Invalid(_, _))));
}

/// Requesting an exclusive borrow of a non-mutable variable fails
/// `ImmutableBorrowedMutable`, whatever its status.
#[test]
fn exclusive_borrow_of_immutable_fails() {
    let mut c = checker_in_function();
    let x = c.create_var(false, false, "x".to_string());
    let lit = c.create_literal("42".to_string());
    c.initialize_var_with_value(x, vec![lit]).unwrap();
    let y = c.create_var(true, false, "y".to_string());
    let r = c.initialize_var_with_borrow(y, vec![x], true);
    match r {
        Err(CheckerError::ImmutableBorrowedMutable(name, id)) => {
            assert_eq!(name.as_str(), "x");
            assert_eq!(id, x);
        },
        _ => panic!("expected an ImmutableBorrowedMutable failure"),
    }
}

/// Reading an uninitialized variable fails `Uninitialized`.
#[test]
fn use_before_initialization_fails() {
    let mut c = checker_in_function();
    let x = c.create_var(false, false, "x".to_string());
    assert!(matches!(c.check_var_usable(x), Err(CheckerError::Uninitialized(_, _))));
}

/// `leave_scope` at the outermost scope fails `OutermostScopeLeft`.
#[test]
fn scope_underflow_fails() {
    let mut c = Checker::new();
    let static_origin = c.static_origin();
    c.enter_function(static_origin);
    let r = c.leave_scope(None);
    assert!(matches!(r, Err(CheckerError::OutermostScopeLeft)));
}

/// Leaving an inner scope without a return value is always fine.
#[test]
fn leave_inner_scope_succeeds() {
    let mut c = checker_in_function();
    c.enter_scope();
    assert!(c.leave_scope(None).is_ok());
}

/// Returning a borrow of a variable local to the scope being left fails
/// `InvalidOrigin`.
#[test]
fn returning_local_borrow_fails_invalid_origin() {
    let mut c = checker_in_function();
    c.enter_scope();
    let local = c.create_var(false, false, "local".to_string());
    let lit = c.create_literal("42".to_string());
    c.initialize_var_with_value(local, vec![lit]).unwrap();
    let r = c.create_ref_tmp(false, "&local".to_string());
    c.initialize_var_with_borrow(r, vec![local], false).unwrap();
    let res = c.leave_scope(Some(r));
    match res {
        Err(CheckerError::InvalidOrigin(name, id, _origin)) => {
            assert_eq!(name.as_str(), "local");
            assert_eq!(id, local);
        },
        _ => panic!("expected an InvalidOrigin failure"),
    }
}

/// Returning a borrow of a variable from an outer scope is fine.
#[test]
fn returning_outer_borrow_succeeds() {
    let mut c = checker_in_function();
    let outer = c.create_var(false, false, "outer".to_string());
    let lit = c.create_literal("42".to_string());
    c.initialize_var_with_value(outer, vec![lit]).unwrap();
    c.enter_scope();
    let r = c.create_ref_tmp(false, "&outer".to_string());
    c.initialize_var_with_borrow(r, vec![outer], false).unwrap();
    assert!(c.leave_scope(Some(r)).is_ok());
}

/// Dereferencing the same base variable twice returns the identical
/// pseudo-variable id.
#[test]
fn dereference_is_memoized() {
    let mut c = checker_in_function();
    let p = c.create_var(false, false, "p".to_string());
    let d1 = c.get_deref_var(p);
    let d2 = c.get_deref_var(p);
    assert_eq!(d1, d2);
    let q = c.create_var(false, false, "q".to_string());
    let d3 = c.get_deref_var(q);
    assert_ne!(d1, d3);
}

/// The merge of a value out of two control-flow branches moves both
/// branch results.
#[test]
fn branch_merge_moves_all_sources() {
    let mut c = checker_in_function();
    let a = c.create_var(false, false, "a".to_string());
    let la = c.create_literal("1".to_string());
    c.initialize_var_with_value(a, vec![la]).unwrap();
    let b = c.create_var(false, false, "b".to_string());
    let lb = c.create_literal("2".to_string());
    c.initialize_var_with_value(b, vec![lb]).unwrap();
    let merged = c.create_var(false, false, "<if rslt>".to_string());
    c.initialize_var_with_value(merged, vec![a, b]).unwrap();
    assert!(matches!(c.check_var_usable(a), Err(CheckerError::Moved(_, _))));
    assert!(matches!(c.check_var_usable(b), Err(CheckerError::Moved(_, _))));
    assert!(c.check_var_usable(merged).is_ok());
}

/// Moving a borrower transfers its borrow edge: the target then records
/// the new owner, and the old borrower is consumed.
#[test]
fn moving_a_borrower_transfers_the_borrow() {
    let mut c = checker_in_function();
    let x = c.create_var(false, false, "x".to_string());
    let lit = c.create_literal("42".to_string());
    c.initialize_var_with_value(x, vec![lit]).unwrap();
    let y = c.create_var(false, false, "y".to_string());
    c.initialize_var_with_borrow(y, vec![x], false).unwrap();
    let z = c.create_var(false, false, "z".to_string());
    c.initialize_var_with_value(z, vec![y]).unwrap();
    assert!(matches!(c.check_var_usable(y), Err(CheckerError::Moved(_, _))));
    assert!(c.check_var_usable(z).is_ok());
    assert!(c.check_var_usable(x).is_ok());
}

/// The void literal is usable from the start and shared by the store.
#[test]
fn void_literal_is_initialized() {
    let c = Checker::new();
    let void = c.void_literal();
    assert!(c.check_var_usable(void).is_ok());
}

/// Invalidation cascades transitively: invalidating a borrower also
/// invalidates whoever borrows the borrower.
#[test]
fn invalidation_cascades_transitively() {
    let mut c = checker_in_function();
    let x = c.create_var(true, false, "x".to_string());
    let lit = c.create_literal("1".to_string());
    c.initialize_var_with_value(x, vec![lit]).unwrap();
    let a = c.create_var(false, false, "a".to_string());
    c.initialize_var_with_borrow(a, vec![x], false).unwrap();
    let b = c.create_var(false, false, "b".to_string());
    c.initialize_var_with_borrow(b, vec![a], false).unwrap();
    let l2 = c.create_literal("2".to_string());
    c.initialize_var_with_value(x, vec![l2]).unwrap();
    assert!(matches!(c.check_var_usable(a), Err(CheckerError::Invalid(_, _))));
    assert!(matches!(c.check_var_usable(b), Err(CheckerError::Invalid(_, _))));
}

/// The dependency check is load-bearing: a variable that merely shares an
/// id in some status list but holds no live edge to the invalidator is not
/// invalidated.
#[test]
fn unrelated_variables_survive_invalidation() {
    let mut c = checker_in_function();
    let x = c.create_var(true, false, "x".to_string());
    let lit = c.create_literal("1".to_string());
    c.initialize_var_with_value(x, vec![lit]).unwrap();
    let other = c.create_var(false, false, "other".to_string());
    let l3 = c.create_literal("3".to_string());
    c.initialize_var_with_value(other, vec![l3]).unwrap();
    let a = c.create_var(false, false, "a".to_string());
    c.initialize_var_with_borrow(a, vec![x], false).unwrap();
    let l2 = c.create_literal("2".to_string());
    c.initialize_var_with_value(x, vec![l2]).unwrap();
    assert!(matches!(c.check_var_usable(a), Err(CheckerError::Invalid(_, _))));
    assert!(c.check_var_usable(other).is_ok());
    assert!(c.check_var_usable(x).is_ok());
}

/// The dereference pseudo-variable's invalidation does not spill to a base
/// pointer that holds no live edge to it: the dependency check gates the
/// propagation.
#[test]
fn invalid_dereference_leaves_independent_base_alone() {
    let mut c = checker_in_function();
    let p = c.create_var(false, false, "p".to_string());
    let lit = c.create_literal("42".to_string());
    c.initialize_var_with_value(p, vec![lit]).unwrap();
    let d = c.get_deref_var(p);
    let w = c.create_var(true, false, "w".to_string());
    let l1 = c.create_literal("1".to_string());
    c.initialize_var_with_value(w, vec![l1]).unwrap();
    c.initialize_var_with_borrow(d, vec![w], false).unwrap();
    let l2 = c.create_literal("2".to_string());
    c.initialize_var_with_value(w, vec![l2]).unwrap();
    assert!(matches!(c.check_var_usable(d), Err(CheckerError::Invalid(_, _))));
    assert!(c.check_var_usable(p).is_ok());
}

/// A base pointer that does hold a live edge to its dereference
/// pseudo-variable is invalidated along with it: the propagation policy
/// carried over from the observed design.
#[test]
fn invalid_dereference_invalidates_dependent_base() {
    let mut c = checker_in_function();
    let p = c.create_var(true, false, "p".to_string());
    let lit = c.create_literal("42".to_string());
    c.initialize_var_with_value(p, vec![lit]).unwrap();
    let d = c.get_deref_var(p);
    let w = c.create_var(true, false, "w".to_string());
    let l1 = c.create_literal("1".to_string());
    c.initialize_var_with_value(w, vec![l1]).unwrap();
    c.initialize_var_with_borrow(d, vec![w], false).unwrap();
    c.initialize_var_with_borrow(p, vec![d], false).unwrap();
    let l2 = c.create_literal("2".to_string());
    c.initialize_var_with_value(w, vec![l2]).unwrap();
    assert!(matches!(c.check_var_usable(d), Err(CheckerError::Invalid(_, _))));
    assert!(matches!(c.check_var_usable(p), Err(CheckerError::Invalid(_, _))));
}

/// `mut x = 1; y = &x; x = y;` is rejected with `Invalid`: re-assigning
/// the receiver first invalidates its borrower, whose move then fails.
#[test]
fn assigning_own_borrower_fails_invalid() {
    let mut c = checker_in_function();
    let x = c.create_var(true, false, "x".to_string());
    let l1 = c.create_literal("1".to_string());
    c.initialize_var_with_value(x, vec![l1]).unwrap();
    let y = c.create_var(false, false, "y".to_string());
    c.initialize_var_with_borrow(y, vec![x], false).unwrap();
    assert!(c.value_source_admissible(x, y));
    let r = c.initialize_var_with_value(x, vec![y]);
    match r {
        Err(CheckerError::Invalid(name, id)) => {
            assert_eq!(name.as_str(), "y");
            assert_eq!(id, y);
        },
        _ => panic!("expected an Invalid failure"),
    }
}

/// `mut x = 1; x = &x;` is rejected the same way: the reference temporary
/// borrowing `x` is invalidated by the re-assignment and its move fails.
#[test]
fn assigning_reference_to_itself_fails_invalid() {
    let mut c = checker_in_function();
    let x = c.create_var(true, false, "x".to_string());
    let l1 = c.create_literal("1".to_string());
    c.initialize_var_with_value(x, vec![l1]).unwrap();
    let tmp = c.create_ref_tmp(false, "&x".to_string());
    c.initialize_var_with_borrow(tmp, vec![x], false).unwrap();
    assert!(c.var_borrows(tmp, x));
    assert!(c.value_source_admissible(x, tmp));
    let r = c.initialize_var_with_value(x, vec![tmp]);
    assert!(matches!(r, Err(CheckerError::Invalid(_, _))));
}
