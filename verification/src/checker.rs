//! The facade of the ownership checker: one variable store, one origin tree
//! and a scope cursor, driven by the structural events of a resolved program.

use vstd::prelude::*;

pub mod implementation;

use implementation::OriginId;
use implementation::Origins;
use implementation::Var;
use implementation::VarId;
use implementation::Vars;

verus! {

/// Outcome of a single checker operation.
pub type CheckerResult = Result<(), CheckerError>;

/// The closed set of failure kinds of the checker.
///
/// Every failing operation carries one of these, with the display identifier
/// and the id of the implicated variable, and, for escape failures, the
/// implicated origin.
#[derive(Debug)]
pub enum CheckerError {
    /// Use of a variable whose validity flag is false: a dangling alias.
    Invalid(String, VarId),
    /// Read before the first assignment.
    Uninitialized(String, VarId),
    /// Read after ownership was transferred away.
    Moved(String, VarId),
    /// Second write to a non-mutable binding.
    ImmutableAssigned(String, VarId),
    /// Exclusive-borrow request on a non-mutable binding.
    ImmutableBorrowedMutable(String, VarId),
    /// A borrow would escape its owning scope.
    InvalidOrigin(String, VarId, OriginId),
    /// Scope-stack underflow.
    OutermostScopeLeft,
}

/// The full human-readable message of a checker failure, exactly as
/// [`CheckerError::message`] renders it.
pub open spec fn checker_error_message(e: CheckerError) -> Seq<char> {
    match e {
        CheckerError::Invalid(n, id) => "Local '"@ + n@ + "' "@ + implementation::var_id_str(id)
            + " is not valid anymore"@,
        CheckerError::Uninitialized(n, id) => "Local '"@ + n@ + "' "@
            + implementation::var_id_str(id) + " has not yet been initialized"@,
        CheckerError::Moved(n, id) => "Local '"@ + n@ + "' "@ + implementation::var_id_str(id)
            + " has been moved"@,
        CheckerError::ImmutableAssigned(n, id) => "Local '"@ + n@ + "' "@
            + implementation::var_id_str(id) + " is immutable, so exactly one assignment is allowed"@,
        CheckerError::ImmutableBorrowedMutable(n, id) => "Local '"@ + n@ + "' "@
            + implementation::var_id_str(id) + " is immutable, so it cannot be borrowed mutably"@,
        CheckerError::InvalidOrigin(n, id, o) => "Local '"@ + n@ + "' "@
            + implementation::var_id_str(id) + " is not valid for origin "@
            + implementation::origin_id_str(o),
        CheckerError::OutermostScopeLeft => "Outermost scope left"@,
    }
}

impl CheckerError {
    /// The human-readable diagnostic for this failure.
    pub fn message(&self) -> (r: String)
        ensures
            r@ == checker_error_message(*self),
    {
        match self {
            CheckerError::Invalid(n, id) => {
                let mut s = String::from_str("Local '");
                s.append(n.as_str());
                s.append("' ");
                s.append(id.render().as_str());
                s.append(" is not valid anymore");
                proof {
                    assert(s@ =~= checker_error_message(*self));
                }
                s
            },
            CheckerError::Uninitialized(n, id) => {
                let mut s = String::from_str("Local '");
                s.append(n.as_str());
                s.append("' ");
                s.append(id.render().as_str());
                s.append(" has not yet been initialized");
                proof {
                    assert(s@ =~= checker_error_message(*self));
                }
                s
            },
            CheckerError::Moved(n, id) => {
                let mut s = String::from_str("Local '");
                s.append(n.as_str());
                s.append("' ");
                s.append(id.render().as_str());
                s.append(" has been moved");
                proof {
                    assert(s@ =~= checker_error_message(*self));
                }
                s
            },
            CheckerError::ImmutableAssigned(n, id) => {
                let mut s = String::from_str("Local '");
                s.append(n.as_str());
                s.append("' ");
                s.append(id.render().as_str());
                s.append(" is immutable, so exactly one assignment is allowed");
                proof {
                    assert(s@ =~= checker_error_message(*self));
                }
                s
            },
            CheckerError::ImmutableBorrowedMutable(n, id) => {
                let mut s = String::from_str("Local '");
                s.append(n.as_str());
                s.append("' ");
                s.append(id.render().as_str());
                s.append(" is immutable, so it cannot be borrowed mutably");
                proof {
                    assert(s@ =~= checker_error_message(*self));
                }
                s
            },
            CheckerError::InvalidOrigin(n, id, o) => {
                let mut s = String::from_str("Local '");
                s.append(n.as_str());
                s.append("' ");
                s.append(id.render().as_str());
                s.append(" is not valid for origin ");
                s.append(o.render().as_str());
                proof {
                    assert(s@ =~= checker_error_message(*self));
                }
                s
            },
            CheckerError::OutermostScopeLeft => {
                let s = String::from_str("Outermost scope left");
                proof {
                    assert(s@ =~= checker_error_message(*self));
                }
                s
            },
        }
    }
}

/// The ownership/borrow/scope verification engine.
///
/// Owns exactly one variable store and one origin tree, and tracks the
/// current origin as a scope cursor.
pub struct Checker {
    pub vars: Vars,
    pub origins: Origins,
    pub scope: Option<OriginId>,
    pub static_origin: OriginId,
}

impl Checker {
    /// Well-formedness: both components are well-formed, and the scope
    /// cursor, the static origin and every variable's owning origin resolve
    /// in the origin tree.
    pub open spec fn wf(self) -> bool {
        &&& self.vars.wf()
        &&& self.origins.wf()
        &&& (self.scope matches Some(s) ==> s.0 < self.origins.parent_origins@.len())
        &&& self.static_origin.0 < self.origins.parent_origins@.len()
        &&& forall|i: int|
            0 <= i < self.vars.vars@.len() ==> (#[trigger] self.vars.vars@[i]).origin.0
                < self.origins.parent_origins@.len()
    }

    /// A fresh checker: one static origin, a store holding only the void
    /// literal, and no scope entered yet.
    pub fn new() -> (r: Checker)
        ensures
            r.wf(),
            r.vars.alias_ok(),
            r.scope is None,
            r.static_origin == OriginId(0usize),
            r.origins.parent_origins@.len() == 1,
            r.origins.parent_origins@[0] is None,
            r.vars.vars@.len() == 1,
            r.vars.void_literal == VarId(0usize),
            r.vars.vars@[0].status is Initialized,
            r.vars.vars@[0].valid,
            !r.vars.vars@[0].is_mut,
            r.vars.vars@[0].is_copy,
            r.vars.vars@[0].identifier@ == "()"@,
            r.vars.vars@[0].borrows@.len() == 0,
            r.vars.vars@[0].origin == OriginId(0usize),
    {
        let mut origins = Origins::new();
        let static_origin = origins.create_unbound_origin();
        Checker { vars: Vars::new(static_origin), origins, scope: None, static_origin }
    }

    /// Seeds the scope cursor, binding the analysis to a caller-chosen
    /// origin.
    pub fn enter_function(&mut self, return_origin: OriginId)
        requires
            old(self).wf(),
            return_origin.0 < old(self).origins.parent_origins@.len(),
        ensures
            final(self).wf(),
            final(self).scope == Some(return_origin),
            final(self).vars == old(self).vars,
            final(self).origins == old(self).origins,
            final(self).static_origin == old(self).static_origin,
    {
        self.scope = Some(return_origin);
    }

    /// Pushes a new origin bound to the current one. The initial scope is
    /// seeded by [`Checker::enter_function`]; this is for inner scopes.
    pub fn enter_scope(&mut self)
        requires
            old(self).wf(),
        ensures
            final(self).wf(),
            final(self).vars == old(self).vars,
            final(self).static_origin == old(self).static_origin,
            final(self).scope == Some(
                OriginId(old(self).origins.parent_origins@.len() as usize),
            ),
            final(self).origins.parent_origins@ == old(self).origins.parent_origins@.push(
                old(self).scope,
            ),
    {
        let new_origin = match self.scope {
            Some(parent_scope) => self.origins.create_bound_origin(parent_scope),
            None => self.origins.create_unbound_origin(),
        };
        self.scope = Some(new_origin);
    }

    /// Pops the scope cursor to the parent origin: fails
    /// `OutermostScopeLeft` at a root, and, when a return variable is
    /// given, fails `InvalidOrigin` when a view reachable from it would
    /// escape into the destination scope.
    pub fn leave_scope(&mut self, return_var: Option<VarId>) -> (r: CheckerResult)
        requires
            old(self).wf(),
            old(self).scope is Some,
            (return_var matches Some(v) ==> v.0 < old(self).vars.vars@.len()),
        ensures
            final(self).wf(),
            final(self).vars == old(self).vars,
            final(self).origins == old(self).origins,
            final(self).static_origin == old(self).static_origin,
            ({
                let cur = old(self).scope->Some_0;
                let parent = old(self).origins.parent_origins@[cur.0 as int];
                match parent {
                    None => r matches Err(CheckerError::OutermostScopeLeft) && final(self).scope
                        == old(self).scope,
                    Some(p) => match return_var {
                        None => r is Ok && final(self).scope == Some(p),
                        Some(rv) => {
                            &&& (r is Ok <==> !implementation::escapes_origin(
                                old(self).vars.vars@,
                                old(self).origins.parent_origins@,
                                rv.0 as int,
                                p.0 as int,
                            ))
                            &&& (r is Ok ==> final(self).scope == Some(p))
                            &&& (r is Err ==> (final(self).scope == old(self).scope && (
                            r matches Err(CheckerError::InvalidOrigin(n, i, o)))))
                        },
                    },
                }
            }),
    {
        let cur = match self.scope {
            Some(s) => s,
            None => {
                return Err(CheckerError::OutermostScopeLeft);
            },
        };
        let parent_scope = match self.origins.resolve_parent(cur) {
            Some(p) => p,
            None => {
                return Err(CheckerError::OutermostScopeLeft);
            },
        };
        if let Some(rv) = return_var {
            match Var::validate_for_origin(&self.vars, rv, parent_scope, &self.origins) {
                Err(e) => {
                    return Err(e);
                },
                Ok(()) => {},
            }
        }
        self.scope = Some(parent_scope);
        Ok(())
    }

    /// A new uninitialized binding in the current scope.
    pub fn create_var(&mut self, is_mut: bool, is_copy: bool, identifier: String) -> (id: VarId)
        requires
            old(self).wf(),
            old(self).scope is Some,
        ensures
            final(self).wf(),
            final(self).origins == old(self).origins,
            final(self).scope == old(self).scope,
            final(self).static_origin == old(self).static_origin,
            old(self).vars.alias_ok() ==> final(self).vars.alias_ok(),
            id == VarId(old(self).vars.vars@.len() as usize),
            final(self).vars.vars@.len() == old(self).vars.vars@.len() + 1,
            forall|i: int|
                0 <= i < old(self).vars.vars@.len() ==> final(self).vars.vars@[i] == old(self).vars.vars@[i],
            ({
                let v = final(self).vars.vars@[old(self).vars.vars@.len() as int];
                &&& v.status is Uninitialized
                &&& v.valid
                &&& v.identifier@ == identifier@
                &&& v.is_mut == is_mut
                &&& v.is_copy == is_copy
                &&& v.borrows@.len() == 0
                &&& v.origin == old(self).scope->Some_0
            }),
    {
        let origin = match self.scope {
            Some(s) => s,
            None => self.static_origin,
        };
        self.vars.create_var(origin, is_mut, is_copy, identifier)
    }

    /// A new uninitialized temporary for a reference expression, in the
    /// current scope.
    pub fn create_ref_tmp(&mut self, is_mut: bool, text: String) -> (id: VarId)
        requires
            old(self).wf(),
            old(self).scope is Some,
        ensures
            final(self).wf(),
            final(self).origins == old(self).origins,
            final(self).scope == old(self).scope,
            final(self).static_origin == old(self).static_origin,
            old(self).vars.alias_ok() ==> final(self).vars.alias_ok(),
            id == VarId(old(self).vars.vars@.len() as usize),
            final(self).vars.vars@.len() == old(self).vars.vars@.len() + 1,
            forall|i: int|
                0 <= i < old(self).vars.vars@.len() ==> final(self).vars.vars@[i] == old(self).vars.vars@[i],
            ({
                let v = final(self).vars.vars@[old(self).vars.vars@.len() as int];
                &&& v.status is Uninitialized
                &&& v.valid
                &&& v.identifier@ == "<tmp> "@ + text@
                &&& v.is_mut == is_mut
                &&& v.is_copy
                &&& v.borrows@.len() == 0
                &&& v.origin == old(self).scope->Some_0
            }),
    {
        let origin = match self.scope {
            Some(s) => s,
            None => self.static_origin,
        };
        self.vars.create_tmp(origin, is_mut, text)
    }

    /// A new literal in the current scope: initialized, immutable, with
    /// copy semantics.
    pub fn create_literal(&mut self, literal: String) -> (id: VarId)
        requires
            old(self).wf(),
            old(self).scope is Some,
        ensures
            final(self).wf(),
            final(self).origins == old(self).origins,
            final(self).scope == old(self).scope,
            final(self).static_origin == old(self).static_origin,
            old(self).vars.alias_ok() ==> final(self).vars.alias_ok(),
            id == VarId(old(self).vars.vars@.len() as usize),
            final(self).vars.vars@.len() == old(self).vars.vars@.len() + 1,
            forall|i: int|
                0 <= i < old(self).vars.vars@.len() ==> final(self).vars.vars@[i] == old(self).vars.vars@[i],
            ({
                let v = final(self).vars.vars@[old(self).vars.vars@.len() as int];
                &&& v.status is Initialized
                &&& v.valid
                &&& v.identifier@ == "<lit> "@ + literal@
                &&& !v.is_mut
                &&& v.is_copy
                &&& v.borrows@.len() == 0
                &&& v.origin == old(self).scope->Some_0
            }),
    {
        let origin = match self.scope {
            Some(s) => s,
            None => self.static_origin,
        };
        self.vars.create_literal(origin, literal)
    }

    /// The distinguished void-literal variable of the store.
    pub fn void_literal(&self) -> (r: VarId)
        ensures
            r == self.vars.void_literal,
    {
        self.vars.void_literal()
    }

    /// Initializes `var` from one or more sources; see
    /// [`Var::initialize_with_values`].
    pub fn initialize_var_with_value(&mut self, var: VarId, value_sources: Vec<VarId>) -> (r:
        CheckerResult)
        requires
            old(self).wf(),
            var.0 < old(self).vars.vars@.len(),
            value_sources@.len() > 0,
            forall|j: int|
                0 <= j < value_sources@.len() ==> (#[trigger] value_sources@[j]).0 < old(self).vars.vars@.len()
                    && implementation::value_source_admissible(
                    old(self).vars.vars@,
                    var,
                    value_sources@[j],
                ),
        ensures
            final(self).wf(),
            final(self).origins == old(self).origins,
            final(self).scope == old(self).scope,
            final(self).static_origin == old(self).static_origin,
            final(self).vars.vars@.len() == old(self).vars.vars@.len(),
            (r matches Err(CheckerError::ImmutableAssigned(n, i))) <==> !implementation::assignable(
                old(self).vars.vars@[var.0 as int],
            ),
            r matches Err(e) ==> implementation::is_state_machine_error(e),
            (old(self).vars.alias_ok() && r is Ok) ==> ({
                &&& implementation::borrowers_registered(final(self).vars.vars@)
                &&& implementation::no_dangling_alias_except(
                    final(self).vars.vars@,
                    var.0 as int,
                )
                &&& ((forall|k: int|
                    0 <= k < final(self).vars.vars@[var.0 as int].borrows@.len() ==> final(self).vars.vars@[(implementation::borrow_target(
                        #[trigger] final(self).vars.vars@[var.0 as int].borrows@[k],
                    )).0 as int].valid) ==> implementation::no_dangling_alias(
                    final(self).vars.vars@,
                ))
            }),
            forall|i: int|
                0 <= i < old(self).vars.vars@.len() ==> (implementation::eq_frozen_fields(
                    #[trigger] final(self).vars.vars@[i],
                    old(self).vars.vars@[i],
                ) && final(self).vars.vars@[i].deref_var == old(self).vars.vars@[i].deref_var),
            implementation::cascade_free_values(old(self).vars.vars@, var, value_sources@) ==> ({
                let vs0 = old(self).vars.vars@;
                &&& (r is Ok <==> (implementation::assignable(vs0[var.0 as int]) && (forall|
                    j: int,
                |
                    0 <= j < value_sources@.len() ==> implementation::usable(
                        vs0[(#[trigger] value_sources@[j]).0 as int],
                    ))))
                &&& (r is Ok ==> (final(self).vars.vars@[var.0 as int].valid && final(self).vars.vars@[var.0 as int].borrows@.len()
                    == 0 && (forall|i: int|
                    0 <= i < vs0.len() && i != var.0 ==> (#[trigger] final(self).vars.vars@[i]).valid
                        == vs0[i].valid)))
                &&& ((implementation::assignable(vs0[var.0 as int]) && !(forall|j: int|
                    0 <= j < value_sources@.len() ==> implementation::usable(
                        vs0[(#[trigger] value_sources@[j]).0 as int],
                    ))) ==> (r matches Err(e) && exists|k: int|
                    0 <= k < value_sources@.len() && (forall|j: int|
                        0 <= j < k ==> implementation::usable(
                            vs0[(#[trigger] value_sources@[j]).0 as int],
                        )) && !implementation::usable(
                        vs0[(#[trigger] value_sources@[k]).0 as int],
                    ) && implementation::matches_usable_error(
                        e,
                        vs0[value_sources@[k].0 as int],
                    )))
            }),
            r is Ok ==> ({
                &&& final(self).vars.vars@[var.0 as int].status is Initialized
                &&& final(self).vars.vars@[var.0 as int].borrows@ == implementation::moved_edges(
                    old(self).vars.vars@,
                    value_sources@,
                    value_sources@.len() as int,
                )
                &&& forall|j: int|
                    0 <= j < value_sources@.len() && !old(self).vars.vars@[(#[trigger] value_sources@[j]).0 as int].is_copy
                        ==> final(self).vars.vars@[value_sources@[j].0 as int].status is Moved
                &&& forall|j: int|
                    0 <= j < value_sources@.len() && old(self).vars.vars@[(#[trigger] value_sources@[j]).0 as int].is_copy
                        ==> !(final(self).vars.vars@[value_sources@[j].0 as int].status is Moved)
            }),
    {
        Var::initialize_with_values(&mut self.vars, var, &value_sources)
    }

    /// Initializes `var` as a borrow of every variable in `borrowed_vars`;
    /// see [`Var::initialize_with_borrows`].
    pub fn initialize_var_with_borrow(
        &mut self,
        var: VarId,
        borrowed_vars: Vec<VarId>,
        is_mut: bool,
    ) -> (r: CheckerResult)
        requires
            old(self).wf(),
            var.0 < old(self).vars.vars@.len(),
            forall|j: int|
                0 <= j < borrowed_vars@.len() ==> (#[trigger] borrowed_vars@[j]).0 < old(self).vars.vars@.len() && borrowed_vars@[j].0 != var.0,
        ensures
            final(self).wf(),
            final(self).origins == old(self).origins,
            final(self).scope == old(self).scope,
            final(self).static_origin == old(self).static_origin,
            final(self).vars.vars@.len() == old(self).vars.vars@.len(),
            (r matches Err(CheckerError::ImmutableAssigned(n, i))) <==> !implementation::assignable(
                old(self).vars.vars@[var.0 as int],
            ),
            r matches Err(e) ==> implementation::is_state_machine_error(e),
            forall|i: int|
                0 <= i < old(self).vars.vars@.len() ==> (implementation::eq_frozen_fields(
                    #[trigger] final(self).vars.vars@[i],
                    old(self).vars.vars@[i],
                ) && final(self).vars.vars@[i].deref_var == old(self).vars.vars@[i].deref_var),
            forall|i: int|
                0 <= i < old(self).vars.vars@.len() && i != var.0 ==> (#[trigger] final(self).vars.vars@[i]).borrows
                    == old(self).vars.vars@[i].borrows,
            forall|i: int|
                0 <= i < old(self).vars.vars@.len() && i != var.0 ==> ((#[trigger] final(self).vars.vars@[i]).valid
                    ==> old(self).vars.vars@[i].valid),
            forall|i: int|
                0 <= i < old(self).vars.vars@.len() && i != var.0 && !borrowed_vars@.contains(
                    VarId(i as usize),
                ) ==> (#[trigger] final(self).vars.vars@[i]).status == old(self).vars.vars@[i].status,
            r is Ok ==> ({
                &&& final(self).vars.vars@[var.0 as int].status is Initialized
                &&& final(self).vars.vars@[var.0 as int].borrows@ =~= borrowed_vars@.map_values(
                    |t: VarId| implementation::borrow_edge(is_mut, t),
                )
                &&& forall|j: int|
                    0 <= j < borrowed_vars@.len() ==> implementation::status_borrowers(
                        final(self).vars.vars@[(#[trigger] borrowed_vars@[j]).0 as int].status,
                    ).contains(var)
                &&& forall|j: int|
                    0 <= j < borrowed_vars@.len() ==> (if is_mut {
                        final(self).vars.vars@[(#[trigger] borrowed_vars@[j]).0 as int].status is MutBorrowed
                    } else {
                        final(self).vars.vars@[(#[trigger] borrowed_vars@[j]).0 as int].status is Borrowed
                    })
            }),
            (old(self).vars.alias_ok() && r is Ok) ==> ({
                &&& implementation::borrowers_registered(final(self).vars.vars@)
                &&& implementation::no_dangling_alias_except(
                    final(self).vars.vars@,
                    var.0 as int,
                )
                &&& ((forall|j: int|
                    0 <= j < borrowed_vars@.len() ==> final(self).vars.vars@[(
                    #[trigger] borrowed_vars@[j]).0 as int].valid)
                    ==> implementation::no_dangling_alias(final(self).vars.vars@))
            }),
            implementation::cascade_free_borrows(
                old(self).vars.vars@,
                var,
                borrowed_vars@,
                is_mut,
            ) ==> ({
                let vs0 = old(self).vars.vars@;
                &&& (r is Ok <==> (implementation::assignable(vs0[var.0 as int]) && (forall|
                    j: int,
                |
                    0 <= j < borrowed_vars@.len() ==> implementation::borrow_admissible(
                        vs0[(#[trigger] borrowed_vars@[j]).0 as int],
                        is_mut,
                    ))))
                &&& (r is Ok ==> (final(self).vars.vars@[var.0 as int].valid && (forall|i: int|
                    0 <= i < vs0.len() && i != var.0 ==> (#[trigger] final(self).vars.vars@[i]).valid
                        == vs0[i].valid)))
                &&& ((implementation::assignable(vs0[var.0 as int]) && !(forall|j: int|
                    0 <= j < borrowed_vars@.len() ==> implementation::borrow_admissible(
                        vs0[(#[trigger] borrowed_vars@[j]).0 as int],
                        is_mut,
                    ))) ==> (r matches Err(e) && exists|k: int|
                    0 <= k < borrowed_vars@.len() && (forall|j: int|
                        0 <= j < k ==> implementation::borrow_admissible(
                            vs0[(#[trigger] borrowed_vars@[j]).0 as int],
                            is_mut,
                        )) && !implementation::borrow_admissible(
                        vs0[(#[trigger] borrowed_vars@[k]).0 as int],
                        is_mut,
                    ) && implementation::matches_borrow_error(
                        e,
                        vs0[borrowed_vars@[k].0 as int],
                        is_mut,
                    )))
            }),
    {
        let r = Var::initialize_with_borrows(&mut self.vars, var, is_mut, &borrowed_vars);
        proof {
            let vs0 = old(self).vars.vars@;
            if implementation::cascade_free_borrows(vs0, var, borrowed_vars@, is_mut) {
                assert(r is Ok <==> (implementation::assignable(vs0[var.0 as int]) && (forall|
                    j: int,
                |
                    0 <= j < borrowed_vars@.len() ==> implementation::borrow_admissible(
                        vs0[(#[trigger] borrowed_vars@[j]).0 as int],
                        is_mut,
                    ))));
                if r is Ok {
                    assert(self.vars.vars@[var.0 as int].valid);
                    assert(forall|i: int|
                        0 <= i < vs0.len() && i != var.0 ==> (#[trigger] self.vars.vars@[i]).valid
                            == vs0[i].valid);
                }
            }
            if implementation::cascade_free_borrows(vs0, var, borrowed_vars@, is_mut)
                && implementation::assignable(vs0[var.0 as int]) && !(forall|j: int|
                0 <= j < borrowed_vars@.len() ==> implementation::borrow_admissible(
                    vs0[(#[trigger] borrowed_vars@[j]).0 as int],
                    is_mut,
                )) {
                match &r {
                    Err(e) => {
                        let e = *e;
                        let k = choose|k: int|
                            0 <= k < borrowed_vars@.len() && (forall|j: int|
                                0 <= j < k ==> implementation::borrow_admissible(
                                    vs0[(#[trigger] borrowed_vars@[j]).0 as int],
                                    is_mut,
                                )) && !implementation::borrow_admissible(
                                vs0[(#[trigger] borrowed_vars@[k]).0 as int],
                                is_mut,
                            ) && implementation::matches_borrow_error(
                                e,
                                vs0[borrowed_vars@[k].0 as int],
                                is_mut,
                            );
                        assert(0 <= k < borrowed_vars@.len() && (forall|j: int|
                            0 <= j < k ==> implementation::borrow_admissible(
                                vs0[(#[trigger] borrowed_vars@[j]).0 as int],
                                is_mut,
                            )) && !implementation::borrow_admissible(
                            vs0[(#[trigger] borrowed_vars@[k]).0 as int],
                            is_mut,
                        ) && implementation::matches_borrow_error(
                            e,
                            vs0[borrowed_vars@[k].0 as int],
                            is_mut,
                        ));
                    },
                    Ok(_) => {},
                }
            }
        }
        r
    }

    /// The memoized dereference pseudo-variable of `var`; see
    /// [`Vars::get_deref_var`]. Dereferencing the same base twice returns
    /// the identical id.
    pub fn get_deref_var(&mut self, var: VarId) -> (r: VarId)
        requires
            old(self).wf(),
            var.0 < old(self).vars.vars@.len(),
        ensures
            final(self).wf(),
            final(self).origins == old(self).origins,
            final(self).scope == old(self).scope,
            final(self).static_origin == old(self).static_origin,
            r.0 < final(self).vars.vars@.len(),
            old(self).vars.vars@[var.0 as int].deref_var matches Some(d) ==> r == d && *final(self) == *old(self),
            final(self).vars.vars@[r.0 as int].parent == Some(var),
            final(self).vars.vars@[var.0 as int].deref_var == Some(r),
            old(self).vars.alias_ok() ==> final(self).vars.alias_ok(),
    {
        let r = self.vars.get_deref_var(var);
        proof {
            if old(self).vars.vars@[var.0 as int].deref_var is Some {
                assert(self.vars.vars@[var.0 as int].deref_var == old(self).vars.vars@[var.0 as int].deref_var);
            }
        }
        r
    }

    /// Whether `b` currently holds a live borrow edge targeting `t`.
    pub fn var_borrows(&self, b: VarId, t: VarId) -> (r: bool)
        requires
            self.wf(),
            b.0 < self.vars.vars@.len(),
        ensures
            r == implementation::borrows_var(self.vars.vars@[b.0 as int], t),
    {
        Var::holds_borrow_edge(&self.vars, b, t)
    }

    /// Whether `source` is an admissible operand of an assignment into
    /// `var`: distinct from it, and, if it currently borrows it, already
    /// invalid or recorded in its status. A front-end tests this before
    /// [`Checker::initialize_var_with_value`]; the input it refuses (a
    /// valid, unrecorded borrower of the receiver) only arises in states
    /// degraded by an earlier failure.
    pub fn value_source_admissible(&self, var: VarId, source: VarId) -> (r: bool)
        requires
            self.wf(),
            var.0 < self.vars.vars@.len(),
            source.0 < self.vars.vars@.len(),
        ensures
            r == implementation::value_source_admissible(self.vars.vars@, var, source),
    {
        if source.0 == var.0 {
            return false;
        }
        if !Var::holds_borrow_edge(&self.vars, source, var) {
            return true;
        }
        if !self.vars.resolve_var(source).valid {
            return true;
        }
        Var::status_records_borrower(&self.vars, var, source)
    }

    /// Read-checks `var`: fails `Invalid`, `Uninitialized` or `Moved`
    /// exactly as [`Var::assert_usable`] does.
    pub fn check_var_usable(&self, var: VarId) -> (r: CheckerResult)
        requires
            self.wf(),
            var.0 < self.vars.vars@.len(),
        ensures
            r is Ok <==> implementation::usable(self.vars.vars@[var.0 as int]),
            !self.vars.vars@[var.0 as int].valid ==> (r matches Err(CheckerError::Invalid(n, i))
                && n@ == self.vars.vars@[var.0 as int].identifier@ && i
                == self.vars.vars@[var.0 as int].id),
            self.vars.vars@[var.0 as int].valid
                && self.vars.vars@[var.0 as int].status is Uninitialized ==> (r matches Err(
                CheckerError::Uninitialized(n, i),
            ) && n@ == self.vars.vars@[var.0 as int].identifier@ && i
                == self.vars.vars@[var.0 as int].id),
            self.vars.vars@[var.0 as int].valid && self.vars.vars@[var.0 as int].status is Moved
                ==> (r matches Err(CheckerError::Moved(n, i)) && n@
                == self.vars.vars@[var.0 as int].identifier@ && i
                == self.vars.vars@[var.0 as int].id),
    {
        self.vars.resolve_var(var).assert_usable()
    }

    /// The static whole-program origin of this checker.
    pub fn static_origin(&self) -> (r: OriginId)
        ensures
            r == self.static_origin,
    {
        self.static_origin
    }

    /// A full human-readable dump of every variable's current status and
    /// borrow edges.
    pub fn dump(&self) -> (r: String)
        ensures
            r@ == implementation::dump_str(self.vars.vars@, self.vars.vars@.len() as int),
    {
        self.vars.dump()
    }
}

} // verus!
