//! The variable store, the variable state machine with its cascading
//! invalidation, and the origin tree used for scope-escape checking.

use vstd::prelude::*;

use super::CheckerError;
use super::CheckerResult;

verus! {

/// Dense, stable handle of a variable in a [`Vars`] store.
///
/// Ids are issued by the store, never reused, and never removed.
#[derive(Clone, Copy, PartialEq, Eq, Structural, Debug)]
pub struct VarId(pub usize);

/// Dense handle of an origin in an [`Origins`] tree.
#[derive(Clone, Copy, PartialEq, Eq, Structural, Debug)]
pub struct OriginId(pub usize);

/// One borrow edge held by a variable: what it borrows, and how.
#[derive(Clone, Copy, PartialEq, Eq, Structural, Debug)]
pub enum Borrow {
    Mutable(VarId),
    Immutable(VarId),
}

/// The status of a variable: exactly one variant is active.
///
/// `Borrowed` and `MutBorrowed` record *who currently borrows me*; the
/// borrow-edge list of a [`Var`] records *what I currently borrow*.
#[derive(Debug)]
pub enum VarStatus {
    Borrowed(Vec<VarId>),
    MutBorrowed(VarId),
    Uninitialized,
    Initialized,
    Moved,
}

/// The variable the edge points at.
pub open spec fn borrow_target(b: Borrow) -> VarId {
    match b {
        Borrow::Mutable(t) => t,
        Borrow::Immutable(t) => t,
    }
}

/// The borrowers a status records, as a sequence.
pub open spec fn status_borrowers(s: VarStatus) -> Seq<VarId> {
    match s {
        VarStatus::Borrowed(l) => l@,
        VarStatus::MutBorrowed(b) => seq![b],
        _ => Seq::<VarId>::empty(),
    }
}

/// One variable record of the store.
///
/// `status` records who currently borrows this variable; `borrows` records
/// what this variable currently borrows. The two sides are established
/// together whenever a borrow is recorded.
pub struct Var {
    pub status: VarStatus,
    pub valid: bool,
    pub identifier: String,
    pub is_mut: bool,
    pub is_copy: bool,
    pub id: VarId,
    pub deref_var: Option<VarId>,
    pub parent: Option<VarId>,
    pub borrows: Vec<Borrow>,
    pub origin: OriginId,
}

/// Whether `v` currently holds a live borrow edge targeting `t`.
pub open spec fn borrows_var(v: Var, t: VarId) -> bool {
    exists|k: int| 0 <= k < v.borrows@.len() && borrow_target(v.borrows@[k]) == t
}

/// All fields of `a` and `b` agree except possibly the validity flag.
pub open spec fn eq_except_valid(a: Var, b: Var) -> bool {
    &&& a.status == b.status
    &&& a.identifier == b.identifier
    &&& a.is_mut == b.is_mut
    &&& a.is_copy == b.is_copy
    &&& a.id == b.id
    &&& a.deref_var == b.deref_var
    &&& a.parent == b.parent
    &&& a.borrows == b.borrows
    &&& a.origin == b.origin
}

/// The fields of `a` and `b` that no checker operation ever rewrites agree:
/// everything except status, validity and the borrow-edge list, and except
/// the memoized dereference child.
pub open spec fn eq_frozen_fields(a: Var, b: Var) -> bool {
    &&& a.identifier == b.identifier
    &&& a.is_mut == b.is_mut
    &&& a.is_copy == b.is_copy
    &&& a.id == b.id
    &&& a.parent == b.parent
    &&& a.origin == b.origin
}

/// No variable outside `{exc}` holds a live borrow edge targeting an
/// invalidated variable while itself remaining valid.
///
/// With `exc` out of range (for example `-1`) this is the dangling-alias
/// invariant itself: a variable whose validity flag is false has every
/// live borrower recursively invalidated. The exception index is used while
/// an operation is part-way through wiring a new borrower in.
pub open spec fn no_dangling_alias_except(vs: Seq<Var>, exc: int) -> bool {
    forall|b: int, t: int|
        0 <= b < vs.len() && 0 <= t < vs.len() && b != exc
            && #[trigger] borrows_var(vs[b], VarId(t as usize)) && !vs[t].valid ==> !vs[b].valid
}

/// The dangling-alias invariant: an invalidated variable has no valid
/// variable still holding a live borrow edge to it.
pub open spec fn no_dangling_alias(vs: Seq<Var>) -> bool {
    no_dangling_alias_except(vs, -1)
}

/// Every valid variable outside `{exc}` that holds a live borrow edge to a
/// target is recorded in that target's status as a borrower.
pub open spec fn borrowers_registered_except(vs: Seq<Var>, exc: int) -> bool {
    forall|b: int, t: int|
        0 <= b < vs.len() && 0 <= t < vs.len() && b != exc && vs[b].valid
            && #[trigger] borrows_var(vs[b], VarId(t as usize))
            ==> status_borrowers(vs[t].status).contains(VarId(b as usize))
}

/// Reciprocal bookkeeping for valid borrowers.
pub open spec fn borrowers_registered(vs: Seq<Var>) -> bool {
    borrowers_registered_except(vs, -1)
}

/// The aliasing-graph invariant of the store: reciprocal bookkeeping plus
/// the dangling-alias invariant.
pub open spec fn alias_inv(vs: Seq<Var>) -> bool {
    no_dangling_alias(vs) && borrowers_registered(vs)
}

/// An append-only arena of variable records, addressed by dense ids.
///
/// Owns creation of bindings, temporaries, literals and memoized dereference
/// pseudo-variables; record `0` is the distinguished void literal.
pub struct Vars {
    pub void_literal: VarId,
    pub vars: Vec<Var>,
}

impl Vars {
    /// Every id held inside `v` resolves in this store, and `v` does not
    /// borrow itself.
    pub open spec fn var_ok(self, v: Var) -> bool {
        &&& forall|k: int|
            0 <= k < v.borrows@.len() ==> (borrow_target(#[trigger] v.borrows@[k])).0
                < self.vars@.len()
        &&& forall|k: int|
            0 <= k < status_borrowers(v.status).len() ==> (#[trigger] status_borrowers(
                v.status,
            )[k]).0 < self.vars@.len()
        &&& (v.deref_var matches Some(d) ==> d.0 < self.vars@.len())
        &&& (v.parent matches Some(p) ==> p.0 < self.vars@.len())
        &&& !borrows_var(v, v.id)
    }

    /// Well-formedness of the store: the void literal resolves, ids are the
    /// dense indices of the arena, and every record only mentions issued ids.
    pub open spec fn wf(self) -> bool {
        &&& self.void_literal.0 < self.vars@.len()
        &&& forall|i: int|
            0 <= i < self.vars@.len() ==> (#[trigger] self.vars@[i]).id == VarId(i as usize)
        &&& forall|i: int|
            0 <= i < self.vars@.len() ==> self.var_ok(#[trigger] self.vars@[i])
        &&& forall|i: int|
            0 <= i < self.vars@.len() ==> ((#[trigger] self.vars@[i]).deref_var matches Some(d)
                ==> self.vars@[d.0 as int].parent == Some(VarId(i as usize)))
    }

    /// The aliasing-graph invariant, over this store's records.
    pub open spec fn alias_ok(self) -> bool {
        alias_inv(self.vars@)
    }

    /// A fresh store holding only the void literal `()`, owned by the given
    /// static origin: initialized, immutable, with copy semantics.
    pub fn new(static_origin: OriginId) -> (r: Vars)
        ensures
            r.wf(),
            r.alias_ok(),
            r.vars@.len() == 1,
            r.void_literal == VarId(0usize),
            r.vars@[0].status is Initialized,
            r.vars@[0].valid,
            !r.vars@[0].is_mut,
            r.vars@[0].is_copy,
            r.vars@[0].identifier@ == "()"@,
            r.vars@[0].borrows@.len() == 0,
            r.vars@[0].deref_var is None,
            r.vars@[0].parent is None,
            r.vars@[0].origin == static_origin,
    {
        let void = Var {
            status: VarStatus::Initialized,
            valid: true,
            identifier: String::from_str("()"),
            is_mut: false,
            is_copy: true,
            id: VarId(0usize),
            deref_var: None,
            parent: None,
            borrows: Vec::new(),
            origin: static_origin,
        };
        let mut vars: Vec<Var> = Vec::new();
        vars.push(void);
        let r = Vars { void_literal: VarId(0usize), vars };
        proof {
            assert forall|b: int, t: int|
                0 <= b < r.vars@.len() && 0 <= t < r.vars@.len() && #[trigger] borrows_var(
                    r.vars@[b],
                    VarId(t as usize),
                ) implies false by {
                let k = choose|k: int|
                    0 <= k < r.vars@[b].borrows@.len() && borrow_target(r.vars@[b].borrows@[k])
                        == VarId(t as usize);
            }
        }
        r
    }

    /// The distinguished void-literal variable shared by the whole store.
    pub fn void_literal(&self) -> (r: VarId)
        ensures
            r == self.void_literal,
    {
        self.void_literal
    }

    /// Resolves a store-issued id to its record. Ids are assumed
    /// store-issued; an unknown id is a contract violation of the caller.
    pub fn resolve_var(&self, id: VarId) -> (r: &Var)
        requires
            id.0 < self.vars@.len(),
        ensures
            *r == self.vars@[id.0 as int],
    {
        &self.vars[id.0]
    }

    /// Appends a fresh record, issuing it the next dense id.
    fn add_var(&mut self, var: Var) -> (id: VarId)
        requires
            old(self).wf(),
            var.borrows@.len() == 0,
            status_borrowers(var.status).len() == 0,
            var.deref_var is None,
            (var.parent matches Some(p) ==> p.0 < old(self).vars@.len()),
        ensures
            final(self).wf(),
            id == VarId(old(self).vars@.len() as usize),
            final(self).void_literal == old(self).void_literal,
            final(self).vars@.len() == old(self).vars@.len() + 1,
            forall|i: int|
                0 <= i < old(self).vars@.len() ==> final(self).vars@[i] == old(self).vars@[i],
            ({
                let v = final(self).vars@[old(self).vars@.len() as int];
                &&& v.status == var.status
                &&& v.valid == var.valid
                &&& v.identifier == var.identifier
                &&& v.is_mut == var.is_mut
                &&& v.is_copy == var.is_copy
                &&& v.id == id
                &&& v.deref_var == var.deref_var
                &&& v.parent == var.parent
                &&& v.borrows == var.borrows
                &&& v.origin == var.origin
            }),
            old(self).alias_ok() ==> final(self).alias_ok(),
    {
        let id = VarId(self.vars.len());
        let mut var = var;
        var.id = id;
        self.vars.push(var);
        proof {
            let vs0 = old(self).vars@;
            let vs = self.vars@;
            let n = vs0.len() as int;
            assert forall|b: int, k: int|
                0 <= b < vs.len() && 0 <= k < vs[b].borrows@.len() implies (borrow_target(
                #[trigger] vs[b].borrows@[k],
            )).0 < vs.len() by {
                if b < n {
                    assert(old(self).var_ok(vs0[b]));
                }
            }
            assert forall|b: int, t: int|
                0 <= b < vs.len() && 0 <= t < vs.len() && #[trigger] borrows_var(
                    vs[b],
                    VarId(t as usize),
                ) implies borrows_var(vs0[b], VarId(t as usize)) && b < n && t < n by {
                let k = choose|k: int|
                    0 <= k < vs[b].borrows@.len() && borrow_target(vs[b].borrows@[k]) == VarId(
                        t as usize,
                    );
                assert(b < n);
                assert(old(self).var_ok(vs0[b]));
            }
            if old(self).alias_ok() {
                assert forall|b: int, t: int|
                    0 <= b < vs.len() && 0 <= t < vs.len() && b != -1 && #[trigger] borrows_var(
                        vs[b],
                        VarId(t as usize),
                    ) && !vs[t].valid implies !vs[b].valid by {}
                assert forall|b: int, t: int|
                    0 <= b < vs.len() && 0 <= t < vs.len() && b != -1 && vs[b].valid
                        && #[trigger] borrows_var(vs[b], VarId(t as usize)) implies status_borrowers(
                    vs[t].status,
                ).contains(VarId(b as usize)) by {}
            }
        }
        id
    }

    /// A new uninitialized binding in the given origin.
    pub fn create_var(
        &mut self,
        origin: OriginId,
        is_mut: bool,
        is_copy: bool,
        identifier: String,
    ) -> (id: VarId)
        requires
            old(self).wf(),
        ensures
            final(self).wf(),
            id == VarId(old(self).vars@.len() as usize),
            final(self).void_literal == old(self).void_literal,
            final(self).vars@.len() == old(self).vars@.len() + 1,
            forall|i: int|
                0 <= i < old(self).vars@.len() ==> final(self).vars@[i] == old(self).vars@[i],
            ({
                let v = final(self).vars@[old(self).vars@.len() as int];
                &&& v.status is Uninitialized
                &&& v.valid
                &&& v.identifier@ == identifier@
                &&& v.is_mut == is_mut
                &&& v.is_copy == is_copy
                &&& v.deref_var is None
                &&& v.parent is None
                &&& v.borrows@.len() == 0
                &&& v.origin == origin
            }),
            old(self).alias_ok() ==> final(self).alias_ok(),
    {
        self.add_var(
            Var {
                status: VarStatus::Uninitialized,
                valid: true,
                is_mut,
                is_copy,
                identifier,
                id: VarId(0usize),
                deref_var: None,
                parent: None,
                borrows: Vec::new(),
                origin,
            },
        )
    }

    /// A new uninitialized temporary for a reference expression; temporaries
    /// model an implicit reference slot and therefore have copy semantics.
    pub fn create_tmp(&mut self, origin: OriginId, is_mut: bool, text: String) -> (id: VarId)
        requires
            old(self).wf(),
        ensures
            final(self).wf(),
            id == VarId(old(self).vars@.len() as usize),
            final(self).void_literal == old(self).void_literal,
            final(self).vars@.len() == old(self).vars@.len() + 1,
            forall|i: int|
                0 <= i < old(self).vars@.len() ==> final(self).vars@[i] == old(self).vars@[i],
            ({
                let v = final(self).vars@[old(self).vars@.len() as int];
                &&& v.status is Uninitialized
                &&& v.valid
                &&& v.identifier@ == "<tmp> "@ + text@
                &&& v.is_mut == is_mut
                &&& v.is_copy
                &&& v.deref_var is None
                &&& v.parent is None
                &&& v.borrows@.len() == 0
                &&& v.origin == origin
            }),
            old(self).alias_ok() ==> final(self).alias_ok(),
    {
        let mut identifier = String::from_str("<tmp> ");
        identifier.append(text.as_str());
        self.add_var(
            Var {
                status: VarStatus::Uninitialized,
                valid: true,
                identifier,
                is_mut,
                is_copy: true,
                id: VarId(0usize),
                deref_var: None,
                parent: None,
                borrows: Vec::new(),
                origin,
            },
        )
    }

    /// A new literal: initialized immediately, immutable, with copy
    /// semantics.
    pub fn create_literal(&mut self, origin: OriginId, literal: String) -> (id: VarId)
        requires
            old(self).wf(),
        ensures
            final(self).wf(),
            id == VarId(old(self).vars@.len() as usize),
            final(self).void_literal == old(self).void_literal,
            final(self).vars@.len() == old(self).vars@.len() + 1,
            forall|i: int|
                0 <= i < old(self).vars@.len() ==> final(self).vars@[i] == old(self).vars@[i],
            ({
                let v = final(self).vars@[old(self).vars@.len() as int];
                &&& v.status is Initialized
                &&& v.valid
                &&& v.identifier@ == "<lit> "@ + literal@
                &&& !v.is_mut
                &&& v.is_copy
                &&& v.deref_var is None
                &&& v.parent is None
                &&& v.borrows@.len() == 0
                &&& v.origin == origin
            }),
            old(self).alias_ok() ==> final(self).alias_ok(),
    {
        let mut identifier = String::from_str("<lit> ");
        identifier.append(literal.as_str());
        self.add_var(
            Var {
                status: VarStatus::Initialized,
                valid: true,
                identifier,
                is_mut: false,
                is_copy: true,
                id: VarId(0usize),
                deref_var: None,
                parent: None,
                borrows: Vec::new(),
                origin,
            },
        )
    }

    /// The memoized dereference pseudo-variable of `derefed_var`, created on
    /// first use with the base's mutability and origin, without copy
    /// semantics, and cached on the base thereafter.
    pub fn get_deref_var(&mut self, derefed_var: VarId) -> (r: VarId)
        requires
            old(self).wf(),
            derefed_var.0 < old(self).vars@.len(),
        ensures
            final(self).wf(),
            final(self).void_literal == old(self).void_literal,
            r.0 < final(self).vars@.len(),
            old(self).vars@[derefed_var.0 as int].deref_var matches Some(d) ==> r == d && *final(self)
                == *old(self),
            old(self).vars@[derefed_var.0 as int].deref_var is None ==> {
                let n = old(self).vars@.len() as int;
                let base = old(self).vars@[derefed_var.0 as int];
                &&& r == VarId(n as usize)
                &&& final(self).vars@.len() == n + 1
                &&& forall|i: int|
                    0 <= i < n && i != derefed_var.0 ==> final(self).vars@[i] == old(self).vars@[i]
                &&& ({
                    let b = final(self).vars@[derefed_var.0 as int];
                    &&& b.deref_var == Some(r)
                    &&& b.status == base.status
                    &&& b.valid == base.valid
                    &&& b.borrows == base.borrows
                    &&& eq_frozen_fields(b, base)
                })
                &&& ({
                    let v = final(self).vars@[n];
                    &&& v.status is Uninitialized
                    &&& v.valid
                    &&& v.identifier@ == "*"@ + base.identifier@
                    &&& v.is_mut == base.is_mut
                    &&& !v.is_copy
                    &&& v.deref_var is None
                    &&& v.parent == Some(derefed_var)
                    &&& v.borrows@.len() == 0
                    &&& v.origin == base.origin
                })
            },
            final(self).vars@[r.0 as int].parent == Some(derefed_var),
            old(self).alias_ok() ==> final(self).alias_ok(),
    {
        let cached = self.vars[derefed_var.0].deref_var;
        if let Some(deref_var) = cached {
            proof {
                assert(self.var_ok(self.vars@[derefed_var.0 as int]));
                assert(self.vars@[derefed_var.0 as int].deref_var matches Some(d)
                    ==> self.vars@[d.0 as int].parent == Some(VarId(derefed_var.0)));
            }
            deref_var
        } else {
            let is_mut = self.vars[derefed_var.0].is_mut;
            let mut identifier = String::from_str("*");
            identifier.append(self.vars[derefed_var.0].identifier.as_str());
            let origin = self.vars[derefed_var.0].origin;
            let n0 = self.vars.len();
            let deref_var = self.add_var(
                Var {
                    status: VarStatus::Uninitialized,
                    valid: true,
                    identifier,
                    is_mut,
                    is_copy: false,
                    id: VarId(0usize),
                    deref_var: None,
                    parent: Some(derefed_var),
                    borrows: Vec::new(),
                    origin,
                },
            );
            let ghost mid = *self;
            self.vars[derefed_var.0].deref_var = Some(deref_var);
            proof {
                let vs = self.vars@;
                let vsm = mid.vars@;
                assert(vs.len() == vsm.len());
                assert(forall|i: int|
                    0 <= i < vs.len() && i != derefed_var.0 ==> vs[i] == vsm[i]);
                assert(vs[derefed_var.0 as int].deref_var == Some(deref_var));
                assert(vs[derefed_var.0 as int].parent == vsm[derefed_var.0 as int].parent);
                assert(deref_var == VarId(n0));
                assert(vsm.len() == n0 + 1);
                assert(vsm[deref_var.0 as int].parent == Some(derefed_var));
                assert(vs[deref_var.0 as int] == vsm[deref_var.0 as int]);
                assert forall|i: int| 0 <= i < vs.len() implies self.var_ok(#[trigger] vs[i]) by {
                    assert(mid.var_ok(vsm[i]));
                    assert(vs[i].borrows == vsm[i].borrows);
                    assert(vs[i].status == vsm[i].status);
                }
                assert forall|i: int| 0 <= i < vs.len() implies (#[trigger] vs[i]).id == VarId(
                    i as usize,
                ) by {
                    assert(vsm[i].id == VarId(i as usize));
                }
                assert forall|i: int|
                    0 <= i < vs.len() implies ((#[trigger] vs[i]).deref_var matches Some(d)
                    ==> vs[d.0 as int].parent == Some(VarId(i as usize))) by {
                    if i == derefed_var.0 {
                        assert(vs[i].deref_var == Some(deref_var));
                        assert(vs[deref_var.0 as int].parent == Some(derefed_var));
                    } else {
                        assert(vs[i].deref_var == vsm[i].deref_var);
                        if vsm[i].deref_var is Some {
                            let d = vsm[i].deref_var->Some_0;
                            assert(vsm[d.0 as int].parent == Some(VarId(i as usize)));
                            assert(vs[d.0 as int].parent == vsm[d.0 as int].parent);
                        }
                    }
                }
                if old(self).alias_ok() {
                    assert forall|b: int, t: int|
                        0 <= b < vs.len() && 0 <= t < vs.len() && b != -1 && #[trigger] borrows_var(
                            vs[b],
                            VarId(t as usize),
                        ) && !vs[t].valid implies !vs[b].valid by {
                        assert(vs[b].borrows == vsm[b].borrows);
                        assert(borrows_var(vsm[b], VarId(t as usize)));
                    }
                    assert forall|b: int, t: int|
                        0 <= b < vs.len() && 0 <= t < vs.len() && b != -1 && vs[b].valid
                            && #[trigger] borrows_var(vs[b], VarId(t as usize)) implies
                        status_borrowers(vs[t].status).contains(VarId(b as usize)) by {
                        assert(vs[b].borrows == vsm[b].borrows);
                        assert(borrows_var(vsm[b], VarId(t as usize)));
                        assert(vs[t].status == vsm[t].status);
                    }
                }
            }
            deref_var
        }
    }
}

/// The number of unset marks in a visited table; the measure of the
/// invalidation worklist loop.
pub open spec fn num_unmarked(s: Seq<bool>) -> nat
    decreases s.len(),
{
    if s.len() == 0 {
        0
    } else {
        num_unmarked(s.drop_last()) + if s.last() {
            0nat
        } else {
            1nat
        }
    }
}

proof fn lemma_num_unmarked_update(s: Seq<bool>, i: int)
    requires
        0 <= i < s.len(),
        !s[i],
    ensures
        num_unmarked(s.update(i, true)) < num_unmarked(s),
    decreases s.len(),
{
    let u = s.update(i, true);
    if i == s.len() - 1 {
        assert(u.drop_last() =~= s.drop_last());
    } else {
        assert(u.drop_last() =~= s.drop_last().update(i, true));
        lemma_num_unmarked_update(s.drop_last(), i);
    }
}

/// Invalidation propagates from `a` to `b`: `b` is recorded as a borrower of
/// `a` or is the base pointer of the dereference pseudo-variable `a`, and
/// `b`'s own borrow-edge list actually depends on `a`.
pub open spec fn inval_edge(vs: Seq<Var>, a: int, b: int) -> bool {
    &&& 0 <= a < vs.len()
    &&& 0 <= b < vs.len()
    &&& (status_borrowers(vs[a].status).contains(VarId(b as usize)) || vs[a].parent == Some(
        VarId(b as usize),
    ))
    &&& borrows_var(vs[b], VarId(a as usize))
}

/// Entry `k` of an invalidation derivation is justified: it is a seeded
/// target whose dependency check passes, or it is reached by an invalidation
/// edge from an entry derived before it.
pub open spec fn derivation_step_ok(
    vs: Seq<Var>,
    wl: Seq<(VarId, VarId)>,
    ord: Seq<int>,
    k: int,
) -> bool {
    &&& 0 <= ord[k] < vs.len()
    &&& ((exists|e: int|
        0 <= e < wl.len() && (#[trigger] wl[e]).0.0 == ord[k] && borrows_var(
            vs[ord[k]],
            wl[e].1,
        )) || (exists|j: int| 0 <= j < k && inval_edge(vs, #[trigger] ord[j], ord[k])))
}

/// `ord` lists, in order, variables whose invalidation is derivable from the
/// seed entries `wl` over the state `vs`: nothing is invalidated without a
/// reason.
pub open spec fn is_invalidation_derivation(
    vs: Seq<Var>,
    wl: Seq<(VarId, VarId)>,
    ord: Seq<int>,
) -> bool {
    forall|k: int| 0 <= k < ord.len() ==> #[trigger] derivation_step_ok(vs, wl, ord, k)
}

/// Whether the edge list holds an edge targeting `t`.
fn has_edge_to(borrows: &Vec<Borrow>, t: VarId) -> (r: bool)
    ensures
        r == exists|k: int| 0 <= k < borrows@.len() && borrow_target(#[trigger] borrows@[k]) == t,
{
    let mut k: usize = 0;
    while k < borrows.len()
        invariant
            k <= borrows@.len(),
            forall|j: int| 0 <= j < k ==> borrow_target(#[trigger] borrows@[j]) != t,
        decreases borrows@.len() - k,
    {
        let hit = match borrows[k] {
            Borrow::Mutable(b) => b.0 == t.0,
            Borrow::Immutable(b) => b.0 == t.0,
        };
        if hit {
            return true;
        }
        k += 1;
    }
    false
}

proof fn lemma_push_contains<A>(s: Seq<A>, x: A, y: A)
    ensures
        s.push(x).contains(y) <==> (s.contains(y) || y == x),
{
    if s.contains(y) {
        let i = choose|i: int| 0 <= i < s.len() && s[i] == y;
        assert(s.push(x)[i] == y);
    }
    assert(s.push(x)[s.len() as int] == x);
    if s.push(x).contains(y) {
        let i = choose|i: int| 0 <= i < s.push(x).len() && s.push(x)[i] == y;
        if i < s.len() {
            assert(s[i] == y);
        }
    }
}

proof fn lemma_drop_last_contains<A>(s: Seq<A>, y: A)
    requires
        s.len() > 0,
    ensures
        s.drop_last().contains(y) ==> s.contains(y),
        s.contains(y) && s.last() != y ==> s.drop_last().contains(y),
{
    if s.drop_last().contains(y) {
        let i = choose|i: int| 0 <= i < s.drop_last().len() && s.drop_last()[i] == y;
        assert(s[i] == y);
    }
    if s.contains(y) && s.last() != y {
        let i = choose|i: int| 0 <= i < s.len() && s[i] == y;
        assert(i < s.len() - 1);
        assert(s.drop_last()[i] == y);
    }
}

/// Appends to the worklist one entry `(b, t)` for every borrower `b` that
/// the status of `v` records, and one for the base pointer if `v` is a
/// dereference pseudo-variable.
fn push_successor_entries(wl: &mut Vec<(VarId, VarId)>, v: &Var, t: VarId)
    ensures
        forall|e: (VarId, VarId)| old(wl)@.contains(e) ==> #[trigger] final(wl)@.contains(e),
        forall|e: (VarId, VarId)|
            #[trigger] final(wl)@.contains(e) ==> old(wl)@.contains(e) || (e.1 == t && (
            status_borrowers(v.status).contains(e.0) || v.parent == Some(e.0))),
        forall|b: VarId|
            #[trigger] status_borrowers(v.status).contains(b) ==> final(wl)@.contains((b, t)),
        (v.parent matches Some(p) ==> final(wl)@.contains((p, t))),
{
    proof {
        assert(wl@ == old(wl)@);
    }
    match &v.status {
        VarStatus::Borrowed(l) => {
            let ghost wl_start = wl@;
            let mut k: usize = 0;
            while k < l.len()
                invariant
                    k <= l@.len(),
                    v.status is Borrowed,
                    l@ == status_borrowers(v.status),
                    forall|e: (VarId, VarId)| wl_start.contains(e) ==> #[trigger] wl@.contains(e),
                    forall|e: (VarId, VarId)|
                        #[trigger] wl@.contains(e) ==> wl_start.contains(e) || (e.1 == t
                            && l@.contains(e.0)),
                    forall|j: int| 0 <= j < k ==> wl@.contains(((#[trigger] l@[j]), t)),
                decreases l@.len() - k,
            {
                let ghost wlp = wl@;
                let b = l[k];
                wl.push((b, t));
                proof {
                    assert(wl@ == wlp.push((b, t)));
                    assert(l@.contains(b));
                    assert forall|e: (VarId, VarId)| #[trigger] wl@.contains(e) implies
                        wlp.contains(e) || e == (b, t) by {
                        lemma_push_contains(wlp, (b, t), e);
                    }
                    assert forall|e: (VarId, VarId)| wlp.contains(e) implies #[trigger] wl@
                        .contains(e) by {
                        lemma_push_contains(wlp, (b, t), e);
                    }
                    assert(wl@.contains((b, t))) by {
                        lemma_push_contains(wlp, (b, t), (b, t));
                    }
                }
                k += 1;
            }
            proof {
                assert(wl_start == old(wl)@);
                assert forall|e: (VarId, VarId)| #[trigger] wl@.contains(e) implies old(wl)@
                    .contains(e) || (e.1 == t && status_borrowers(v.status).contains(e.0)) by {}
            }
        },
        VarStatus::MutBorrowed(b) => {
            let ghost wlp = wl@;
            wl.push((*b, t));
            proof {
                assert(wl@ == wlp.push((*b, t)));
                assert(status_borrowers(v.status) =~= seq![*b]);
                assert forall|e: (VarId, VarId)| #[trigger] wl@.contains(e) implies wlp.contains(e)
                    || e == (*b, t) by {
                    lemma_push_contains(wlp, (*b, t), e);
                }
                assert forall|e: (VarId, VarId)| wlp.contains(e) implies #[trigger] wl@.contains(
                    e,
                ) by {
                    lemma_push_contains(wlp, (*b, t), e);
                }
                assert(wl@.contains((*b, t))) by {
                    lemma_push_contains(wlp, (*b, t), (*b, t));
                }
                assert(status_borrowers(v.status)[0] == *b);
                assert(status_borrowers(v.status).contains(*b));
                assert forall|bb: VarId| #[trigger] status_borrowers(v.status).contains(
                    bb,
                ) implies wl@.contains((bb, t)) by {
                    assert(bb == *b);
                }
            }
        },
        _ => {},
    }
    if let Some(p) = v.parent {
        let ghost wlm = wl@;
        wl.push((p, t));
        proof {
            assert(wl@ == wlm.push((p, t)));
            assert forall|e: (VarId, VarId)| #[trigger] wl@.contains(e) implies wlm.contains(e)
                || e == (p, t) by {
                lemma_push_contains(wlm, (p, t), e);
            }
            assert forall|e: (VarId, VarId)| wlm.contains(e) implies #[trigger] wl@.contains(
                e,
            ) by {
                lemma_push_contains(wlm, (p, t), e);
            }
            assert(wl@.contains((p, t))) by {
                lemma_push_contains(wlm, (p, t), (p, t));
            }
        }
    }
    proof {
        assert forall|e: (VarId, VarId)| #[trigger] wl@.contains(e) implies old(wl)@.contains(e)
            || (e.1 == t && (status_borrowers(v.status).contains(e.0) || v.parent == Some(
            e.0,
        ))) by {}
    }
}

/// Runs the cascading invalidation worklist to completion.
///
/// Each entry `(t, by)` asks to invalidate `t` because `by` became
/// unusable; it fires only if `t`'s own borrow-edge list actually holds an
/// edge targeting `by` (the load-bearing dependency check). Firing marks
/// `t` invalid and enqueues every borrower its status records, and its base
/// pointer if `t` is a dereference pseudo-variable.
///
/// The contract states, besides frame and monotonicity conditions: every
/// seeded entry whose dependency check passes is invalidated; everything
/// that is invalidated has an invalidation derivation from the seeds; and
/// the cascade restores the dangling-alias invariant, up to the one
/// borrower `exc` that the running operation has not yet registered.
fn run_invalidation(vars: &mut Vars, worklist: Vec<(VarId, VarId)>, Ghost(exc): Ghost<int>)
    requires
        old(vars).wf(),
        forall|e: (VarId, VarId)| #[trigger] worklist@.contains(e) ==> e.0.0
            < old(vars).vars@.len() && e.1.0 < old(vars).vars@.len(),
    ensures
        final(vars).wf(),
        final(vars).void_literal == old(vars).void_literal,
        final(vars).vars@.len() == old(vars).vars@.len(),
        forall|i: int|
            0 <= i < old(vars).vars@.len() ==> eq_except_valid(
                #[trigger] final(vars).vars@[i],
                old(vars).vars@[i],
            ),
        forall|i: int|
            0 <= i < old(vars).vars@.len() ==> ((#[trigger] final(vars).vars@[i]).valid
                ==> old(vars).vars@[i].valid),
        forall|e: (VarId, VarId)|
            #[trigger] worklist@.contains(e) && borrows_var(old(vars).vars@[e.0.0 as int], e.1)
                ==> !final(vars).vars@[e.0.0 as int].valid,
        exists|ord: Seq<int>|
            #[trigger] is_invalidation_derivation(old(vars).vars@, worklist@, ord) && (forall|
                i: int,
            |
                0 <= i < old(vars).vars@.len() ==> (!final(vars).vars@[i].valid <==> (!old(vars).vars@[i].valid || ord.contains(i)))),
        (no_dangling_alias_except(old(vars).vars@, exc) && borrowers_registered_except(
            old(vars).vars@,
            exc,
        )) ==> (no_dangling_alias_except(final(vars).vars@, exc) && borrowers_registered_except(
            final(vars).vars@,
            exc,
        )),
        forall|j: int, p: VarId|
            0 <= j < old(vars).vars@.len() && !final(vars).vars@[j].valid && old(vars).vars@[j].valid
                && (#[trigger] old(vars).vars@[j].parent) == Some(p) && #[trigger] borrows_var(
                old(vars).vars@[p.0 as int],
                VarId(j as usize),
            ) ==> !final(vars).vars@[p.0 as int].valid,
        worklist@.len() == 0 ==> (forall|i: int|
            0 <= i < old(vars).vars@.len() ==> (#[trigger] final(vars).vars@[i]).valid == old(vars).vars@[i].valid),
{
    let ghost vs0 = old(vars).vars@;
    let ghost wl0 = worklist@;
    let ghost pre_reg = no_dangling_alias_except(vs0, exc) && borrowers_registered_except(
        vs0,
        exc,
    );
    let n = vars.vars.len();
    let mut visited: Vec<bool> = Vec::new();
    while visited.len() < n
        invariant
            visited@.len() <= n,
            forall|i: int| 0 <= i < visited@.len() ==> !(#[trigger] visited@[i]),
        decreases n - visited@.len(),
    {
        visited.push(false);
    }
    let mut wl = worklist;
    let ghost mut ord: Seq<int> = Seq::empty();
    loop
        invariant
            vars.wf(),
            vars.vars@.len() == n,
            n == vs0.len(),
            vars.void_literal == old(vars).void_literal,
            forall|i: int|
                0 <= i < n ==> eq_except_valid(#[trigger] vars.vars@[i], vs0[i]),
            forall|i: int| 0 <= i < n ==> ((#[trigger] vars.vars@[i]).valid ==> vs0[i].valid),
            visited@.len() == n,
            forall|i: int| 0 <= i < n ==> ((#[trigger] visited@[i]) <==> ord.contains(i)),
            forall|i: int|
                0 <= i < n ==> (!(#[trigger] vars.vars@[i]).valid <==> (!vs0[i].valid
                    || ord.contains(i))),
            is_invalidation_derivation(vs0, wl0, ord),
            wl0.len() == 0 ==> ord =~= Seq::<int>::empty(),
            forall|e: (VarId, VarId)| #[trigger] wl0.contains(e) ==> e.0.0 < n && e.1.0 < n,
            forall|e: (VarId, VarId)| #[trigger] wl@.contains(e) ==> e.0.0 < n && e.1.0 < n,
            forall|e: (VarId, VarId)|
                #[trigger] wl@.contains(e) ==> wl0.contains(e) || (ord.contains(e.1.0 as int) && (
                status_borrowers(vs0[e.1.0 as int].status).contains(e.0)
                    || vs0[e.1.0 as int].parent == Some(e.0))),
            forall|e: (VarId, VarId)|
                #[trigger] wl0.contains(e) && borrows_var(vs0[e.0.0 as int], e.1) ==> (!vars
                    .vars@[e.0.0 as int].valid || wl@.contains(e)),
            pre_reg ==> (forall|j: int, x: int|
                0 <= j < n && 0 <= x < n && x != exc && !vars.vars@[j].valid
                    && #[trigger] status_borrowers(vs0[j].status).contains(VarId(x as usize))
                    && #[trigger] borrows_var(vs0[x], VarId(j as usize)) && vars.vars@[x].valid
                    ==> wl@.contains((VarId(x as usize), VarId(j as usize)))),
            forall|j: int, p: VarId|
                0 <= j < n && !vars.vars@[j].valid && vs0[j].valid && (#[trigger] vs0[j].parent)
                    == Some(p) && #[trigger] borrows_var(vs0[p.0 as int], VarId(j as usize))
                    && vars.vars@[p.0 as int].valid ==> wl@.contains((p, VarId(j as usize))),
        ensures
            wl@.len() == 0,
        decreases num_unmarked(visited@), wl@.len(),
    {
        if wl.len() == 0 {
            break;
        }
        let ghost wl_pre = wl@;
        let ghost head_vars = vars.vars@;
        let e = wl.pop().unwrap();
        let t = e.0;
        let by = e.1;
        proof {
            assert(wl@ == wl_pre.drop_last());
            assert(wl_pre[wl_pre.len() - 1] == e);
            assert(wl_pre.contains(e));
            if wl0.len() == 0 {
                assert(false);
            }
            assert forall|x: (VarId, VarId)| #[trigger] wl@.contains(x) implies wl_pre.contains(
                x,
            ) by {
                lemma_drop_last_contains(wl_pre, x);
            }
        }
        if !visited[t.0] {
            proof {
                assert(vars.vars@[t.0 as int].borrows == vs0[t.0 as int].borrows);
            }
            let fired = has_edge_to(&vars.vars[t.0].borrows, by);
            proof {
                assert(fired == borrows_var(vs0[t.0 as int], by));
            }
            if fired {
                let ghost visited_pre = visited@;
                let ghost ord_pre = ord;
                visited[t.0] = true;
                vars.vars[t.0].valid = false;
                proof {
                    ord = ord.push(t.0 as int);
                    lemma_num_unmarked_update(visited_pre, t.0 as int);
                    assert(visited@ == visited_pre.update(t.0 as int, true));
                    assert(vars.vars@ == head_vars.update(t.0 as int, vars.vars@[t.0 as int]));
                    assert(forall|i: int|
                        0 <= i < n && i != t.0 ==> head_vars.update(
                            t.0 as int,
                            vars.vars@[t.0 as int],
                        )[i] == head_vars[i]);
                    lemma_push_contains_int(ord_pre, t.0 as int);
                    // the fired entry is justified, so the new derivation step holds
                    assert forall|k: int| 0 <= k < ord.len() implies #[trigger] derivation_step_ok(
                        vs0,
                        wl0,
                        ord,
                        k,
                    ) by {
                        if k < ord_pre.len() {
                            assert(derivation_step_ok(vs0, wl0, ord_pre, k));
                            assert(ord[k] == ord_pre[k]);
                            if exists|j: int| 0 <= j < k && inval_edge(vs0, ord_pre[j], ord_pre[k]) {
                                let j = choose|j: int|
                                    0 <= j < k && inval_edge(vs0, ord_pre[j], ord_pre[k]);
                                assert(ord[j] == ord_pre[j]);
                                assert(inval_edge(vs0, ord[j], ord[k]));
                            }
                        } else {
                            assert(ord[k] == t.0 as int);
                            if wl0.contains(e) {
                                let i = choose|i: int| 0 <= i < wl0.len() && wl0[i] == e;
                                assert(wl0[i].0.0 == t.0 && borrows_var(vs0[t.0 as int], wl0[i].1));
                            } else {
                                assert(ord_pre.contains(by.0 as int));
                                let j = choose|j: int|
                                    0 <= j < ord_pre.len() && ord_pre[j] == by.0 as int;
                                assert(ord[j] == by.0 as int);
                                assert(status_borrowers(vs0[by.0 as int].status).contains(t)
                                    || vs0[by.0 as int].parent == Some(t));
                                assert(VarId(t.0 as usize) == t);
                                assert(VarId(by.0 as usize) == by);
                                assert(inval_edge(vs0, by.0 as int, t.0 as int));
                                assert(j < k);
                            }
                        }
                    }
                }
                let v = &vars.vars[t.0];
                let ghost wl_mid = wl@;
                push_successor_entries(&mut wl, v, t);
                proof {
                    assert(v.status == vs0[t.0 as int].status);
                    assert(v.parent == vs0[t.0 as int].parent);
                    assert(VarId(t.0 as usize) == t);
                    if pre_reg {
                        assert forall|j: int, x: int|
                            0 <= j < n && 0 <= x < n && x != exc && !vars.vars@[j].valid
                                && #[trigger] status_borrowers(vs0[j].status).contains(
                                VarId(x as usize),
                            ) && #[trigger] borrows_var(vs0[x], VarId(j as usize))
                                && vars.vars@[x].valid implies wl@.contains(
                            (VarId(x as usize), VarId(j as usize)),
                        ) by {
                            if j == t.0 as int {
                                assert(status_borrowers(v.status).contains(VarId(x as usize)));
                                assert(wl@.contains((VarId(x as usize), t)));
                            } else {
                                if x == t.0 as int {
                                    assert(!vars.vars@[x].valid);
                                } else {
                                    assert(wl_pre.contains(
                                        (VarId(x as usize), VarId(j as usize)),
                                    ));
                                    if (VarId(x as usize), VarId(j as usize)) == e {
                                        assert(!vars.vars@[x].valid);
                                    } else {
                                        lemma_drop_last_contains(
                                            wl_pre,
                                            (VarId(x as usize), VarId(j as usize)),
                                        );
                                        assert(wl_mid.contains(
                                            (VarId(x as usize), VarId(j as usize)),
                                        ));
                                    }
                                }
                            }
                        }
                    }
                    assert forall|j: int, p: VarId|
                        0 <= j < n && !vars.vars@[j].valid && vs0[j].valid
                            && (#[trigger] vs0[j].parent) == Some(p) && #[trigger] borrows_var(
                            vs0[p.0 as int],
                            VarId(j as usize),
                        ) && vars.vars@[p.0 as int].valid implies wl@.contains(
                        (p, VarId(j as usize)),
                    ) by {
                        if j == t.0 as int {
                            assert(v.parent == Some(p));
                            assert(VarId(j as usize) == t);
                            assert(wl@.contains((p, t)));
                        } else {
                            assert(wl_pre.contains((p, VarId(j as usize))));
                            if (p, VarId(j as usize)) == e {
                                assert(!vars.vars@[p.0 as int].valid);
                            } else {
                                lemma_drop_last_contains(wl_pre, (p, VarId(j as usize)));
                                assert(wl_mid.contains((p, VarId(j as usize))));
                            }
                        }
                    }
                    assert forall|se: (VarId, VarId)|
                        #[trigger] wl0.contains(se) && borrows_var(
                            vs0[se.0.0 as int],
                            se.1,
                        ) implies (!vars.vars@[se.0.0 as int].valid || wl@.contains(se)) by {
                        if se.0.0 == t.0 {
                            assert(!vars.vars@[t.0 as int].valid);
                        } else {
                            assert(vars.vars@[se.0.0 as int] == head_vars[se.0.0 as int]);
                            if head_vars[se.0.0 as int].valid {
                                assert(wl_pre.contains(se));
                                assert(se != e);
                                lemma_drop_last_contains(wl_pre, se);
                                assert(wl_mid.contains(se));
                                assert(wl@.contains(se));
                            }
                        }
                    }
                }
            } else {
                proof {
                    assert(!borrows_var(vs0[t.0 as int], by));
                    assert forall|j: int, p: VarId|
                        0 <= j < n && !vars.vars@[j].valid && vs0[j].valid
                            && (#[trigger] vs0[j].parent) == Some(p) && #[trigger] borrows_var(
                            vs0[p.0 as int],
                            VarId(j as usize),
                        ) && vars.vars@[p.0 as int].valid implies wl@.contains(
                        (p, VarId(j as usize)),
                    ) by {
                        assert(wl_pre.contains((p, VarId(j as usize))));
                        if (p, VarId(j as usize)) == e {
                            assert(borrows_var(vs0[t.0 as int], by));
                        } else {
                            lemma_drop_last_contains(wl_pre, (p, VarId(j as usize)));
                        }
                    }
                    if pre_reg {
                        assert forall|j: int, x: int|
                            0 <= j < n && 0 <= x < n && x != exc && !vars.vars@[j].valid
                                && #[trigger] status_borrowers(vs0[j].status).contains(
                                VarId(x as usize),
                            ) && #[trigger] borrows_var(vs0[x], VarId(j as usize))
                                && vars.vars@[x].valid implies wl@.contains(
                            (VarId(x as usize), VarId(j as usize)),
                        ) by {
                            assert(wl_pre.contains((VarId(x as usize), VarId(j as usize))));
                            if (VarId(x as usize), VarId(j as usize)) == e {
                                assert(borrows_var(vs0[t.0 as int], by));
                            } else {
                                lemma_drop_last_contains(
                                    wl_pre,
                                    (VarId(x as usize), VarId(j as usize)),
                                );
                            }
                        }
                    }
                    assert forall|se: (VarId, VarId)|
                        #[trigger] wl0.contains(se) && borrows_var(
                            vs0[se.0.0 as int],
                            se.1,
                        ) implies (!vars.vars@[se.0.0 as int].valid || wl@.contains(se)) by {
                        if vars.vars@[se.0.0 as int].valid && wl_pre.contains(se) {
                            if se == e {
                                assert(borrows_var(vs0[t.0 as int], by));
                            } else {
                                lemma_drop_last_contains(wl_pre, se);
                            }
                        }
                    }
                }
            }
        } else {
            proof {
                assert(ord.contains(t.0 as int));
                assert(!vars.vars@[t.0 as int].valid);
                assert forall|j: int, p: VarId|
                    0 <= j < n && !vars.vars@[j].valid && vs0[j].valid
                        && (#[trigger] vs0[j].parent) == Some(p) && #[trigger] borrows_var(
                        vs0[p.0 as int],
                        VarId(j as usize),
                    ) && vars.vars@[p.0 as int].valid implies wl@.contains(
                    (p, VarId(j as usize)),
                ) by {
                    assert(wl_pre.contains((p, VarId(j as usize))));
                    if (p, VarId(j as usize)) == e {
                        assert(p == t);
                        assert(!vars.vars@[p.0 as int].valid);
                    } else {
                        lemma_drop_last_contains(wl_pre, (p, VarId(j as usize)));
                    }
                }
                if pre_reg {
                    assert forall|j: int, x: int|
                        0 <= j < n && 0 <= x < n && x != exc && !vars.vars@[j].valid
                            && #[trigger] status_borrowers(vs0[j].status).contains(
                            VarId(x as usize),
                        ) && #[trigger] borrows_var(vs0[x], VarId(j as usize))
                            && vars.vars@[x].valid implies wl@.contains(
                        (VarId(x as usize), VarId(j as usize)),
                    ) by {
                        assert(wl_pre.contains((VarId(x as usize), VarId(j as usize))));
                        if (VarId(x as usize), VarId(j as usize)) == e {
                            assert(x == t.0 as int);
                            assert(!vars.vars@[x].valid);
                        } else {
                            lemma_drop_last_contains(
                                wl_pre,
                                (VarId(x as usize), VarId(j as usize)),
                            );
                        }
                    }
                }
                assert forall|se: (VarId, VarId)|
                    #[trigger] wl0.contains(se) && borrows_var(
                        vs0[se.0.0 as int],
                        se.1,
                    ) implies (!vars.vars@[se.0.0 as int].valid || wl@.contains(se)) by {
                    if vars.vars@[se.0.0 as int].valid && wl_pre.contains(se) {
                        if se == e {
                            assert(se.0.0 == t.0);
                            assert(false);
                        } else {
                            lemma_drop_last_contains(wl_pre, se);
                        }
                    }
                }
            }
        }
    }
    proof {
        assert(is_invalidation_derivation(vs0, wl0, ord) && (forall|i: int|
            0 <= i < vs0.len() ==> (!vars.vars@[i].valid <==> (!vs0[i].valid || ord.contains(
                i,
            )))));
        if pre_reg {
            assert forall|b: int, t: int|
                0 <= b < vs0.len() && 0 <= t < vs0.len() && b != exc && #[trigger] borrows_var(
                    vars.vars@[b],
                    VarId(t as usize),
                ) && !vars.vars@[t].valid implies !vars.vars@[b].valid by {
                assert(vars.vars@[b].borrows == vs0[b].borrows);
                assert(borrows_var(vs0[b], VarId(t as usize)));
                if vars.vars@[b].valid {
                    assert(vs0[b].valid);
                    assert(status_borrowers(vs0[t].status).contains(VarId(b as usize)));
                    assert(wl@.contains((VarId(b as usize), VarId(t as usize))));
                    assert(false);
                }
            }
            assert forall|b: int, t: int|
                0 <= b < vs0.len() && 0 <= t < vs0.len() && b != exc && vars.vars@[b].valid
                    && #[trigger] borrows_var(vars.vars@[b], VarId(t as usize)) implies
                status_borrowers(vars.vars@[t].status).contains(VarId(b as usize)) by {
                assert(vars.vars@[b].borrows == vs0[b].borrows);
                assert(borrows_var(vs0[b], VarId(t as usize)));
                assert(vs0[b].valid);
                assert(vars.vars@[t].status == vs0[t].status);
            }
        }
    }
}

proof fn lemma_push_contains_int(s: Seq<int>, x: int)
    ensures
        forall|y: int| #[trigger] s.push(x).contains(y) <==> (s.contains(y) || y == x),
{
    assert forall|y: int| #[trigger] s.push(x).contains(y) <==> (s.contains(y) || y == x) by {
        lemma_push_contains(s, x, y);
    }
}

/// A variable is usable when it is valid, initialized and not moved away.
pub open spec fn usable(v: Var) -> bool {
    v.valid && !(v.status is Uninitialized) && !(v.status is Moved)
}

/// A variable may be (re-)assigned when it was never initialized or is
/// mutable.
pub open spec fn assignable(v: Var) -> bool {
    v.status is Uninitialized || v.is_mut
}

/// The failure kinds the variable state machine itself surfaces: every
/// error of an initialize operation is one of these, never a scope error.
pub open spec fn is_state_machine_error(e: CheckerError) -> bool {
    ||| e matches CheckerError::ImmutableAssigned(_, _)
    ||| e matches CheckerError::Invalid(_, _)
    ||| e matches CheckerError::Uninitialized(_, _)
    ||| e matches CheckerError::Moved(_, _)
    ||| e matches CheckerError::ImmutableBorrowedMutable(_, _)
}

/// The error that `assert_usable` reports for an unusable variable.
pub open spec fn matches_usable_error(e: CheckerError, v: Var) -> bool {
    if !v.valid {
        e matches CheckerError::Invalid(n, i) && n@ == v.identifier@ && i == v.id
    } else if v.status is Uninitialized {
        e matches CheckerError::Uninitialized(n, i) && n@ == v.identifier@ && i == v.id
    } else if v.status is Moved {
        e matches CheckerError::Moved(n, i) && n@ == v.identifier@ && i == v.id
    } else {
        false
    }
}

/// A target admits the requested borrow: it is usable, and mutable where
/// the borrow is exclusive.
pub open spec fn borrow_admissible(v: Var, is_mut: bool) -> bool {
    usable(v) && (is_mut ==> v.is_mut)
}

/// The side conditions under which initializing a borrow triggers no
/// invalidation cascade at all: the receiver has no recorded borrowers, no
/// target of an exclusive borrow has any, no target of a shared borrow is
/// exclusively borrowed, and the targets of an exclusive borrow are
/// pairwise distinct.
pub open spec fn cascade_free_borrows(
    vs: Seq<Var>,
    var: VarId,
    targets: Seq<VarId>,
    is_mut: bool,
) -> bool {
    &&& status_borrowers(vs[var.0 as int].status).len() == 0
    &&& forall|j: int|
        0 <= j < targets.len() ==> (if is_mut {
            status_borrowers(vs[(#[trigger] targets[j]).0 as int].status).len() == 0
        } else {
            !(vs[targets[j].0 as int].status is MutBorrowed)
        })
    &&& (is_mut ==> (forall|j1: int, j2: int|
        0 <= j1 < j2 < targets.len() ==> (#[trigger] targets[j1]).0 != (
        #[trigger] targets[j2]).0))
}

/// A source is an admissible operand of a move assignment into `var`: it
/// is distinct from the receiver, and if it currently borrows the receiver
/// it is either already invalid or recorded in the receiver's status. Such
/// a source is invalidated by the receiver's re-initialization cascade and
/// its move transition then fails before any edge is transferred, exactly
/// as the behaviour is specified. The one corner left out - a valid
/// borrower of the receiver that the receiver's status does not record -
/// arises only in states degraded by an earlier failure, where the
/// operation would give the receiver an edge to itself.
pub open spec fn value_source_admissible(vs: Seq<Var>, var: VarId, s: VarId) -> bool {
    &&& s.0 != var.0
    &&& (borrows_var(vs[s.0 as int], var) ==> (!vs[s.0 as int].valid || status_borrowers(
        vs[var.0 as int].status,
    ).contains(s)))
}

/// The side conditions under which a move assignment triggers no
/// invalidation cascade and no borrower notification: the receiver and the
/// sources have no recorded borrowers, the sources hold no borrow edges,
/// and the sources are pairwise distinct.
pub open spec fn cascade_free_values(vs: Seq<Var>, var: VarId, sources: Seq<VarId>) -> bool {
    &&& status_borrowers(vs[var.0 as int].status).len() == 0
    &&& forall|j: int|
        0 <= j < sources.len() ==> (status_borrowers(
            vs[(#[trigger] sources[j]).0 as int].status,
        ).len() == 0 && vs[sources[j].0 as int].borrows@.len() == 0)
    &&& forall|j1: int, j2: int|
        0 <= j1 < j2 < sources.len() ==> (#[trigger] sources[j1]).0 != (#[trigger] sources[j2]).0
}

/// The error that a borrow of an inadmissible target reports: the
/// mutability check comes first, then usability.
pub open spec fn matches_borrow_error(e: CheckerError, v: Var, is_mut: bool) -> bool {
    if is_mut && !v.is_mut {
        e matches CheckerError::ImmutableBorrowedMutable(n, i) && n@ == v.identifier@ && i == v.id
    } else {
        matches_usable_error(e, v)
    }
}

/// The seed entries that invalidate every borrower recorded by `v`.
pub open spec fn borrower_seeds(v: Var, t: VarId) -> Seq<(VarId, VarId)> {
    status_borrowers(v.status).map_values(|b: VarId| (b, t))
}

impl Var {
    /// Fails `Invalid` on an invalidated variable, `Uninitialized` before
    /// the first assignment, `Moved` after ownership has been transferred
    /// away; otherwise the variable may be read.
    pub fn assert_usable(&self) -> (r: CheckerResult)
        ensures
            r is Ok <==> usable(*self),
            !self.valid ==> (r matches Err(CheckerError::Invalid(n, i)) && n@ == self.identifier@
                && i == self.id),
            self.valid && self.status is Uninitialized ==> (r matches Err(
                CheckerError::Uninitialized(n, i),
            ) && n@ == self.identifier@ && i == self.id),
            self.valid && self.status is Moved ==> (r matches Err(CheckerError::Moved(n, i))
                && n@ == self.identifier@ && i == self.id),
            r matches Err(e) ==> matches_usable_error(e, *self),
    {
        if !self.valid {
            Err(CheckerError::Invalid(self.identifier.clone(), self.id))
        } else {
            match &self.status {
                VarStatus::Uninitialized => Err(
                    CheckerError::Uninitialized(self.identifier.clone(), self.id),
                ),
                VarStatus::Moved => Err(CheckerError::Moved(self.identifier.clone(), self.id)),
                _ => Ok(()),
            }
        }
    }

    /// Fails `ImmutableAssigned` on a second write to a non-mutable binding.
    fn assert_assignable(&self) -> (r: CheckerResult)
        ensures
            r is Ok <==> assignable(*self),
            !assignable(*self) ==> (r matches Err(CheckerError::ImmutableAssigned(n, i)) && n@
                == self.identifier@ && i == self.id),
    {
        let uninit = match &self.status {
            VarStatus::Uninitialized => true,
            _ => false,
        };
        if !uninit && !self.is_mut {
            Err(CheckerError::ImmutableAssigned(self.identifier.clone(), self.id))
        } else {
            Ok(())
        }
    }
}

/// Cascade-invalidates every borrower that the status of `v` records,
/// because the value they alias is about to be replaced or revoked.
fn invalidate_borrowers(vars: &mut Vars, v: VarId, Ghost(exc): Ghost<int>)
    requires
        old(vars).wf(),
        v.0 < old(vars).vars@.len(),
    ensures
        final(vars).wf(),
        final(vars).void_literal == old(vars).void_literal,
        final(vars).vars@.len() == old(vars).vars@.len(),
        forall|i: int|
            0 <= i < old(vars).vars@.len() ==> eq_except_valid(
                #[trigger] final(vars).vars@[i],
                old(vars).vars@[i],
            ),
        forall|i: int|
            0 <= i < old(vars).vars@.len() ==> ((#[trigger] final(vars).vars@[i]).valid
                ==> old(vars).vars@[i].valid),
        forall|b: VarId|
            #[trigger] status_borrowers(old(vars).vars@[v.0 as int].status).contains(b)
                && borrows_var(old(vars).vars@[b.0 as int], v) ==> !final(vars).vars@[b.0 as int].valid,
        exists|ord: Seq<int>|
            #[trigger] is_invalidation_derivation(
                old(vars).vars@,
                borrower_seeds(old(vars).vars@[v.0 as int], v),
                ord,
            ) && (forall|i: int|
                0 <= i < old(vars).vars@.len() ==> (!final(vars).vars@[i].valid <==> (!old(vars).vars@[i].valid || ord.contains(i)))),
        (no_dangling_alias_except(old(vars).vars@, exc) && borrowers_registered_except(
            old(vars).vars@,
            exc,
        )) ==> (no_dangling_alias_except(final(vars).vars@, exc) && borrowers_registered_except(
            final(vars).vars@,
            exc,
        )),
        forall|j: int, p: VarId|
            0 <= j < old(vars).vars@.len() && !final(vars).vars@[j].valid && old(vars).vars@[j].valid
                && (#[trigger] old(vars).vars@[j].parent) == Some(p) && #[trigger] borrows_var(
                old(vars).vars@[p.0 as int],
                VarId(j as usize),
            ) ==> !final(vars).vars@[p.0 as int].valid,
        status_borrowers(old(vars).vars@[v.0 as int].status).len() == 0 ==> (forall|i: int|
            0 <= i < old(vars).vars@.len() ==> (#[trigger] final(vars).vars@[i]).valid == old(vars).vars@[i].valid),
{
    let mut seeds: Vec<(VarId, VarId)> = Vec::new();
    match &vars.vars[v.0].status {
        VarStatus::Borrowed(l) => {
            let mut k: usize = 0;
            while k < l.len()
                invariant
                    k <= l@.len(),
                    seeds@.len() == k,
                    forall|j: int| 0 <= j < k ==> seeds@[j] == ((#[trigger] l@[j]), v),
                decreases l@.len() - k,
            {
                seeds.push((l[k], v));
                k += 1;
            }
        },
        VarStatus::MutBorrowed(b) => {
            seeds.push((*b, v));
        },
        _ => {},
    }
    proof {
        assert(seeds@ =~= borrower_seeds(vars.vars@[v.0 as int], v));
        assert(vars.var_ok(vars.vars@[v.0 as int]));
        assert forall|e: (VarId, VarId)| #[trigger] seeds@.contains(e) implies e.0.0
            < vars.vars@.len() && e.1.0 < vars.vars@.len() by {
            let i = choose|i: int| 0 <= i < seeds@.len() && seeds@[i] == e;
            assert(e.0 == status_borrowers(vars.vars@[v.0 as int].status)[i]);
        }
    }
    let ghost seeds0 = seeds@;
    run_invalidation(vars, seeds, Ghost(exc));
    proof {
        let vs0 = old(vars).vars@;
        assert forall|b: VarId|
            #[trigger] status_borrowers(vs0[v.0 as int].status).contains(b) && borrows_var(
                vs0[b.0 as int],
                v,
            ) implies !vars.vars@[b.0 as int].valid by {
            let i = choose|i: int|
                0 <= i < status_borrowers(vs0[v.0 as int].status).len() && status_borrowers(
                    vs0[v.0 as int].status,
                )[i] == b;
            assert(seeds0[i] == (b, v));
            assert(seeds0.contains((b, v)));
        }
    }
}

impl Var {
    /// The target of an exclusive borrow: fails `ImmutableBorrowedMutable`
    /// on a non-mutable target whatever its status, then requires the
    /// target to be usable; an exclusive borrow revokes every existing
    /// alias, so all recorded borrowers are cascade-invalidated before the
    /// status becomes `MutBorrowed(borrower)`.
    fn transition_mut_borrowed(
        vars: &mut Vars,
        t: VarId,
        borrower: VarId,
        Ghost(exc): Ghost<int>,
    ) -> (r: CheckerResult)
        requires
            old(vars).wf(),
            t.0 < old(vars).vars@.len(),
            borrower.0 < old(vars).vars@.len(),
        ensures
            final(vars).wf(),
            final(vars).void_literal == old(vars).void_literal,
            final(vars).vars@.len() == old(vars).vars@.len(),
            forall|i: int|
                0 <= i < old(vars).vars@.len() ==> ((#[trigger] final(vars).vars@[i]).borrows
                    == old(vars).vars@[i].borrows && eq_frozen_fields(
                    final(vars).vars@[i],
                    old(vars).vars@[i],
                ) && final(vars).vars@[i].deref_var == old(vars).vars@[i].deref_var),
            forall|i: int|
                0 <= i < old(vars).vars@.len() && i != t.0 ==> (#[trigger] final(vars).vars@[i]).status == old(vars).vars@[i].status,
            forall|i: int|
                0 <= i < old(vars).vars@.len() ==> ((#[trigger] final(vars).vars@[i]).valid
                    ==> old(vars).vars@[i].valid),
            r is Ok <==> (old(vars).vars@[t.0 as int].is_mut && usable(
                old(vars).vars@[t.0 as int],
            )),
            r is Err ==> *final(vars) == *old(vars),
            r matches Err(e) ==> matches_borrow_error(e, old(vars).vars@[t.0 as int], true),
            !old(vars).vars@[t.0 as int].is_mut ==> (r matches Err(
                CheckerError::ImmutableBorrowedMutable(n, i),
            ) && n@ == old(vars).vars@[t.0 as int].identifier@ && i == old(vars).vars@[t.0 as int].id),
            old(vars).vars@[t.0 as int].is_mut && !old(vars).vars@[t.0 as int].valid ==> (
            r matches Err(CheckerError::Invalid(n, i)) && n@ == old(vars).vars@[t.0 as int].identifier@ && i == old(vars).vars@[t.0 as int].id),
            old(vars).vars@[t.0 as int].is_mut && old(vars).vars@[t.0 as int].valid && old(vars).vars@[t.0 as int].status is Uninitialized ==> (r matches Err(
                CheckerError::Uninitialized(n, i),
            ) && n@ == old(vars).vars@[t.0 as int].identifier@ && i == old(vars).vars@[t.0 as int].id),
            old(vars).vars@[t.0 as int].is_mut && old(vars).vars@[t.0 as int].valid && old(vars).vars@[t.0 as int].status is Moved ==> (r matches Err(CheckerError::Moved(n, i))
                && n@ == old(vars).vars@[t.0 as int].identifier@ && i == old(vars).vars@[t.0 as int].id),
            status_borrowers(old(vars).vars@[t.0 as int].status).len() == 0 ==> (forall|i: int|
                0 <= i < old(vars).vars@.len() ==> (#[trigger] final(vars).vars@[i]).valid == old(
                    vars,
                ).vars@[i].valid),
            r is Ok ==> ({
                &&& final(vars).vars@[t.0 as int].status matches VarStatus::MutBorrowed(b) && b
                    == borrower
                &&& status_borrowers(final(vars).vars@[t.0 as int].status) =~= seq![borrower]
                &&& forall|b: VarId|
                    #[trigger] status_borrowers(old(vars).vars@[t.0 as int].status).contains(b)
                        && borrows_var(old(vars).vars@[b.0 as int], t) ==> !final(vars).vars@[b.0 as int].valid
            }),
            (r is Ok && exc == borrower.0 as int && no_dangling_alias_except(old(vars).vars@, exc)
                && borrowers_registered_except(old(vars).vars@, exc)) ==> (
            no_dangling_alias_except(final(vars).vars@, exc) && borrowers_registered_except(
                final(vars).vars@,
                exc,
            )),
    {
        let nlen = vars.vars.len();
        if !vars.vars[t.0].is_mut {
            return Err(
                CheckerError::ImmutableBorrowedMutable(
                    vars.vars[t.0].identifier.clone(),
                    vars.vars[t.0].id,
                ),
            );
        }
        match vars.vars[t.0].assert_usable() {
            Err(e) => {
                return Err(e);
            },
            Ok(()) => {},
        }
        invalidate_borrowers(vars, t, Ghost(exc));
        let ghost mid = *vars;
        vars.vars[t.0].status = VarStatus::MutBorrowed(borrower);
        proof {
            let vs = vars.vars@;
            let vsm = mid.vars@;
            assert(vars.var_ok(vs[t.0 as int])) by {
                assert(mid.var_ok(vsm[t.0 as int]));
                assert(status_borrowers(vs[t.0 as int].status) =~= seq![borrower]);
            }
            lemma_wf_one_record_update(mid, *vars, t.0 as int);
            let vs0 = old(vars).vars@;
            if exc == borrower.0 as int && no_dangling_alias_except(vs0, exc)
                && borrowers_registered_except(vs0, exc) {
                assert forall|b: int, tt: int|
                    0 <= b < vs.len() && 0 <= tt < vs.len() && b != exc && #[trigger] borrows_var(
                        vs[b],
                        VarId(tt as usize),
                    ) && !vs[tt].valid implies !vs[b].valid by {
                    assert(vs[b].borrows == vsm[b].borrows);
                    assert(borrows_var(vsm[b], VarId(tt as usize)));
                    assert(vs[tt].valid == vsm[tt].valid);
                    assert(vs[b].valid == vsm[b].valid);
                }
                assert forall|b: int, tt: int|
                    0 <= b < vs.len() && 0 <= tt < vs.len() && b != exc && vs[b].valid
                        && #[trigger] borrows_var(vs[b], VarId(tt as usize)) implies
                    status_borrowers(vs[tt].status).contains(VarId(b as usize)) by {
                    assert(vs[b].borrows == vsm[b].borrows && vsm[b].borrows == vs0[b].borrows);
                    assert(borrows_var(vs0[b], VarId(tt as usize)));
                    assert(vs0[b].valid);
                    if tt != t.0 {
                        assert(vs[tt].status == vs0[tt].status);
                        assert(status_borrowers(vs0[tt].status).contains(VarId(b as usize)));
                    } else {
                        // a valid borrower of t distinct from the new one was
                        // registered before and therefore cascade-invalidated
                        assert(b < nlen);
                        assert((VarId(b as usize)).0 as int == b);
                        assert(status_borrowers(vs0[t.0 as int].status).contains(
                            VarId(b as usize),
                        ));
                        assert(borrows_var(vs0[(VarId(b as usize)).0 as int], t)) by {
                            assert(VarId(tt as usize) == t);
                            assert(vs0[(VarId(b as usize)).0 as int] == vs0[b]);
                        }
                        assert(!vsm[(VarId(b as usize)).0 as int].valid);
                        assert(!vsm[b].valid);
                        assert(false);
                    }
                }
            }
        }
        Ok(())
    }

    /// The target of a shared borrow: requires the target to be usable;
    /// shared borrowers accumulate without bound, and a new shared borrow
    /// revokes (cascade-invalidates) a prior exclusive borrower.
    fn transition_borrowed(
        vars: &mut Vars,
        t: VarId,
        borrower: VarId,
        Ghost(exc): Ghost<int>,
    ) -> (r: CheckerResult)
        requires
            old(vars).wf(),
            t.0 < old(vars).vars@.len(),
            borrower.0 < old(vars).vars@.len(),
        ensures
            final(vars).wf(),
            final(vars).void_literal == old(vars).void_literal,
            final(vars).vars@.len() == old(vars).vars@.len(),
            forall|i: int|
                0 <= i < old(vars).vars@.len() ==> ((#[trigger] final(vars).vars@[i]).borrows
                    == old(vars).vars@[i].borrows && eq_frozen_fields(
                    final(vars).vars@[i],
                    old(vars).vars@[i],
                ) && final(vars).vars@[i].deref_var == old(vars).vars@[i].deref_var),
            forall|i: int|
                0 <= i < old(vars).vars@.len() && i != t.0 ==> (#[trigger] final(vars).vars@[i]).status == old(vars).vars@[i].status,
            forall|i: int|
                0 <= i < old(vars).vars@.len() ==> ((#[trigger] final(vars).vars@[i]).valid
                    ==> old(vars).vars@[i].valid),
            r is Ok <==> usable(old(vars).vars@[t.0 as int]),
            r is Err ==> *final(vars) == *old(vars),
            r matches Err(e) ==> matches_usable_error(e, old(vars).vars@[t.0 as int]),
            !old(vars).vars@[t.0 as int].valid ==> (r matches Err(CheckerError::Invalid(n, i))
                && n@ == old(vars).vars@[t.0 as int].identifier@ && i == old(vars).vars@[t.0 as int].id),
            old(vars).vars@[t.0 as int].valid && old(vars).vars@[t.0 as int].status is Uninitialized ==> (r matches Err(
                CheckerError::Uninitialized(n, i),
            ) && n@ == old(vars).vars@[t.0 as int].identifier@ && i == old(vars).vars@[t.0 as int].id),
            old(vars).vars@[t.0 as int].valid && old(vars).vars@[t.0 as int].status is Moved ==> (
            r matches Err(CheckerError::Moved(n, i)) && n@ == old(vars).vars@[t.0 as int].identifier@ && i == old(vars).vars@[t.0 as int].id),
            !(old(vars).vars@[t.0 as int].status is MutBorrowed) ==> (forall|i: int|
                0 <= i < old(vars).vars@.len() ==> (#[trigger] final(vars).vars@[i]).valid == old(
                    vars,
                ).vars@[i].valid),
            r is Ok ==> ({
                &&& final(vars).vars@[t.0 as int].status is Borrowed
                &&& old(vars).vars@[t.0 as int].status is Initialized ==> status_borrowers(
                    final(vars).vars@[t.0 as int].status,
                ) =~= seq![borrower]
                &&& (old(vars).vars@[t.0 as int].status matches VarStatus::Borrowed(l)
                    ==> status_borrowers(final(vars).vars@[t.0 as int].status) =~= l@.push(
                    borrower,
                ))
                &&& (old(vars).vars@[t.0 as int].status matches VarStatus::MutBorrowed(p) ==> (
                status_borrowers(final(vars).vars@[t.0 as int].status) =~= seq![borrower] && (
                borrows_var(old(vars).vars@[p.0 as int], t) ==> !final(vars).vars@[p.0 as int].valid)))
            }),
            (r is Ok && exc == borrower.0 as int && no_dangling_alias_except(old(vars).vars@, exc)
                && borrowers_registered_except(old(vars).vars@, exc)) ==> (
            no_dangling_alias_except(final(vars).vars@, exc) && borrowers_registered_except(
                final(vars).vars@,
                exc,
            )),
    {
        let nlen = vars.vars.len();
        match vars.vars[t.0].assert_usable() {
            Err(e) => {
                return Err(e);
            },
            Ok(()) => {},
        }
        let is_mut_borrowed = match &vars.vars[t.0].status {
            VarStatus::MutBorrowed(_) => true,
            _ => false,
        };
        if is_mut_borrowed {
            invalidate_borrowers(vars, t, Ghost(exc));
        }
        let ghost mid = *vars;
        match &mut vars.vars[t.0].status {
            VarStatus::Borrowed(l) => {
                l.push(borrower);
            },
            other => {
                *other = VarStatus::Borrowed(vec![borrower]);
            },
        }
        proof {
            let vs = vars.vars@;
            let vsm = mid.vars@;
            assert(status_borrowers(old(vars).vars@[t.0 as int].status) == status_borrowers(
                vsm[t.0 as int].status,
            ));
            assert(vars.var_ok(vs[t.0 as int])) by {
                assert(mid.var_ok(vsm[t.0 as int]));
                if vsm[t.0 as int].status is Borrowed {
                    assert(status_borrowers(vs[t.0 as int].status) =~= status_borrowers(
                        vsm[t.0 as int].status,
                    ).push(borrower));
                    assert forall|k: int|
                        0 <= k < status_borrowers(vs[t.0 as int].status).len() implies (
                    #[trigger] status_borrowers(vs[t.0 as int].status)[k]).0 < vs.len() by {
                        if k < status_borrowers(vsm[t.0 as int].status).len() {
                            assert(status_borrowers(vs[t.0 as int].status)[k]
                                == status_borrowers(vsm[t.0 as int].status)[k]);
                        } else {
                            assert(status_borrowers(vs[t.0 as int].status)[k] == borrower);
                        }
                    }
                } else {
                    assert(status_borrowers(vs[t.0 as int].status) =~= seq![borrower]);
                }
            }
            lemma_wf_one_record_update(mid, *vars, t.0 as int);
            let vs0 = old(vars).vars@;
            assert(vsm[t.0 as int].status == vs0[t.0 as int].status);
            if !(vs0[t.0 as int].status is Borrowed) {
                assert(status_borrowers(vs[t.0 as int].status) =~= seq![borrower]);
            } else {
                assert(status_borrowers(vs[t.0 as int].status) =~= status_borrowers(
                    vs0[t.0 as int].status,
                ).push(borrower));
            }
            match vs0[t.0 as int].status {
                VarStatus::MutBorrowed(p) => {
                    assert(status_borrowers(vs0[t.0 as int].status)[0] == p);
                    assert(status_borrowers(vs0[t.0 as int].status).contains(p));
                },
                _ => {},
            }
            if exc == borrower.0 as int && no_dangling_alias_except(vs0, exc)
                && borrowers_registered_except(vs0, exc) {
                assert forall|b: int, tt: int|
                    0 <= b < vs.len() && 0 <= tt < vs.len() && b != exc && #[trigger] borrows_var(
                        vs[b],
                        VarId(tt as usize),
                    ) && !vs[tt].valid implies !vs[b].valid by {
                    assert(vs[b].borrows == vsm[b].borrows);
                    assert(borrows_var(vsm[b], VarId(tt as usize)));
                    assert(vs[tt].valid == vsm[tt].valid);
                    assert(vs[b].valid == vsm[b].valid);
                    assert(vsm[b].borrows == vs0[b].borrows);
                    assert(borrows_var(vs0[b], VarId(tt as usize)));
                }
                assert forall|b: int, tt: int|
                    0 <= b < vs.len() && 0 <= tt < vs.len() && b != exc && vs[b].valid
                        && #[trigger] borrows_var(vs[b], VarId(tt as usize)) implies
                    status_borrowers(vs[tt].status).contains(VarId(b as usize)) by {
                    assert(vs[b].borrows == vsm[b].borrows && vsm[b].borrows == vs0[b].borrows);
                    assert(borrows_var(vs0[b], VarId(tt as usize)));
                    assert(vs0[b].valid);
                    assert(status_borrowers(vs0[tt].status).contains(VarId(b as usize)));
                    if tt == t.0 {
                        assert(b < nlen);
                        match vs0[t.0 as int].status {
                            VarStatus::Initialized => {
                                assert(status_borrowers(vs0[tt].status).len() == 0);
                                assert(false);
                            },
                            VarStatus::Borrowed(l) => {
                                assert(status_borrowers(vs[tt].status) =~= l@.push(borrower));
                                lemma_push_contains(l@, borrower, VarId(b as usize));
                            },
                            VarStatus::MutBorrowed(p) => {
                                assert(VarId(b as usize) == p);
                                assert((VarId(b as usize)).0 as int == b);
                                assert(borrows_var(vs0[(VarId(b as usize)).0 as int], t)) by {
                                    assert(VarId(tt as usize) == t);
                                    assert(vs0[(VarId(b as usize)).0 as int] == vs0[b]);
                                }
                                assert(!vsm[(VarId(b as usize)).0 as int].valid);
                                assert(false);
                            },
                            _ => {
                                assert(usable(vs0[t.0 as int]));
                                assert(false);
                            },
                        }
                    } else {
                        assert(vs[tt].status == vs0[tt].status);
                    }
                }
            }
        }
        Ok(())
    }

    /// The source of a move or copy assignment: requires the source to be
    /// usable. A copy-marked source is left entirely unchanged and its
    /// borrow-edge list is duplicated; a non-copy source has its recorded
    /// borrowers cascade-invalidated, becomes `Moved`, and surrenders its
    /// borrow-edge list to the new owner.
    fn transition_moved(vars: &mut Vars, s: VarId, Ghost(exc): Ghost<int>) -> (r: Result<
        Vec<Borrow>,
        CheckerError,
    >)
        requires
            old(vars).wf(),
            s.0 < old(vars).vars@.len(),
        ensures
            final(vars).wf(),
            final(vars).void_literal == old(vars).void_literal,
            final(vars).vars@.len() == old(vars).vars@.len(),
            forall|i: int|
                0 <= i < old(vars).vars@.len() ==> (eq_frozen_fields(
                    #[trigger] final(vars).vars@[i],
                    old(vars).vars@[i],
                ) && final(vars).vars@[i].deref_var == old(vars).vars@[i].deref_var),
            forall|i: int|
                0 <= i < old(vars).vars@.len() && i != s.0 ==> ((#[trigger] final(vars).vars@[i]).status == old(vars).vars@[i].status && final(vars).vars@[i].borrows
                    == old(vars).vars@[i].borrows),
            forall|i: int|
                0 <= i < old(vars).vars@.len() ==> ((#[trigger] final(vars).vars@[i]).valid
                    ==> old(vars).vars@[i].valid),
            r is Ok <==> usable(old(vars).vars@[s.0 as int]),
            r is Err ==> *final(vars) == *old(vars),
            r matches Err(e) ==> matches_usable_error(e, old(vars).vars@[s.0 as int]),
            !old(vars).vars@[s.0 as int].valid ==> (r matches Err(CheckerError::Invalid(n, i))
                && n@ == old(vars).vars@[s.0 as int].identifier@ && i == old(vars).vars@[s.0 as int].id),
            old(vars).vars@[s.0 as int].valid && old(vars).vars@[s.0 as int].status is Uninitialized ==> (r matches Err(
                CheckerError::Uninitialized(n, i),
            ) && n@ == old(vars).vars@[s.0 as int].identifier@ && i == old(vars).vars@[s.0 as int].id),
            old(vars).vars@[s.0 as int].valid && old(vars).vars@[s.0 as int].status is Moved ==> (
            r matches Err(CheckerError::Moved(n, i)) && n@ == old(vars).vars@[s.0 as int].identifier@ && i == old(vars).vars@[s.0 as int].id),
            r matches Ok(bs) ==> bs@ == old(vars).vars@[s.0 as int].borrows@,
            r is Ok && old(vars).vars@[s.0 as int].is_copy ==> *final(vars) == *old(vars),
            status_borrowers(old(vars).vars@[s.0 as int].status).len() == 0 ==> (forall|i: int|
                0 <= i < old(vars).vars@.len() ==> (#[trigger] final(vars).vars@[i]).valid == old(
                    vars,
                ).vars@[i].valid),
            (no_dangling_alias_except(old(vars).vars@, exc) && borrowers_registered_except(
                old(vars).vars@,
                exc,
            )) ==> (no_dangling_alias_except(final(vars).vars@, exc)
                && borrowers_registered_except(final(vars).vars@, exc)),
            r is Ok && !old(vars).vars@[s.0 as int].is_copy ==> ({
                &&& final(vars).vars@[s.0 as int].status is Moved
                &&& final(vars).vars@[s.0 as int].borrows@.len() == 0
                &&& forall|b: VarId|
                    #[trigger] status_borrowers(old(vars).vars@[s.0 as int].status).contains(b)
                        && borrows_var(old(vars).vars@[b.0 as int], s) ==> !final(vars).vars@[b.0 as int].valid
            }),
    {
        let nlen = vars.vars.len();
        match vars.vars[s.0].assert_usable() {
            Err(e) => {
                return Err(e);
            },
            Ok(()) => {},
        }
        if vars.vars[s.0].is_copy {
            let copied = copy_borrows(&vars.vars[s.0].borrows);
            return Ok(copied);
        }
        invalidate_borrowers(vars, s, Ghost(exc));
        let ghost mid = *vars;
        vars.vars[s.0].status = VarStatus::Moved;
        let mut surrendered: Vec<Borrow> = Vec::new();
        core::mem::swap(&mut surrendered, &mut vars.vars[s.0].borrows);
        proof {
            let vs = vars.vars@;
            let vsm = mid.vars@;
            assert(surrendered@ == vsm[s.0 as int].borrows@);
            assert(vsm[s.0 as int].borrows == old(vars).vars@[s.0 as int].borrows);
            assert(vs[s.0 as int].borrows@.len() == 0);
            assert(vars.var_ok(vs[s.0 as int])) by {
                assert(mid.var_ok(vsm[s.0 as int]));
                assert(vs[s.0 as int].borrows@.len() == 0);
                assert(status_borrowers(vs[s.0 as int].status) =~= Seq::<VarId>::empty());
                assert(!borrows_var(vs[s.0 as int], vs[s.0 as int].id));
            }
            lemma_wf_one_record_update(mid, *vars, s.0 as int);
            let vs0 = old(vars).vars@;
            if no_dangling_alias_except(vs0, exc) && borrowers_registered_except(vs0, exc) {
                assert forall|b: int, tt: int|
                    0 <= b < vs.len() && 0 <= tt < vs.len() && b != exc && #[trigger] borrows_var(
                        vs[b],
                        VarId(tt as usize),
                    ) && !vs[tt].valid implies !vs[b].valid by {
                    if b == s.0 as int {
                        assert(vs[b].borrows@.len() == 0);
                        assert(false);
                    } else {
                        assert(vs[b].borrows == vsm[b].borrows);
                        assert(borrows_var(vsm[b], VarId(tt as usize)));
                        assert(vs[tt].valid == vsm[tt].valid);
                        assert(vs[b].valid == vsm[b].valid);
                    }
                }
                assert forall|b: int, tt: int|
                    0 <= b < vs.len() && 0 <= tt < vs.len() && b != exc && vs[b].valid
                        && #[trigger] borrows_var(vs[b], VarId(tt as usize)) implies
                    status_borrowers(vs[tt].status).contains(VarId(b as usize)) by {
                    if b == s.0 as int {
                        assert(vs[b].borrows@.len() == 0);
                        assert(false);
                    } else {
                        assert(vs[b].borrows == vsm[b].borrows && vsm[b].borrows
                            == vs0[b].borrows);
                        assert(borrows_var(vs0[b], VarId(tt as usize)));
                        assert(vs0[b].valid);
                        assert(status_borrowers(vs0[tt].status).contains(VarId(b as usize)));
                        if tt == s.0 as int {
                            assert(b < nlen);
                            assert((VarId(b as usize)).0 as int == b);
                            assert(borrows_var(vs0[(VarId(b as usize)).0 as int], s)) by {
                                assert(VarId(tt as usize) == s);
                                assert(vs0[(VarId(b as usize)).0 as int] == vs0[b]);
                            }
                            assert(!vsm[(VarId(b as usize)).0 as int].valid);
                            assert(false);
                        } else {
                            assert(vs[tt].status == vs0[tt].status);
                        }
                    }
                }
            }
        }
        Ok(surrendered)
    }
}

/// The aliasing-graph invariant implies each of its exception-weakened
/// forms, for any exception index.
pub proof fn lemma_alias_inv_weaken(vs: Seq<Var>, e: int)
    requires
        alias_inv(vs),
    ensures
        no_dangling_alias_except(vs, e),
        borrowers_registered_except(vs, e),
{
    assert forall|b: int, t: int|
        0 <= b < vs.len() && 0 <= t < vs.len() && b != e && #[trigger] borrows_var(
            vs[b],
            VarId(t as usize),
        ) && !vs[t].valid implies !vs[b].valid by {
        assert(no_dangling_alias_except(vs, -1));
    }
    assert forall|b: int, t: int|
        0 <= b < vs.len() && 0 <= t < vs.len() && b != e && vs[b].valid && #[trigger] borrows_var(
            vs[b],
            VarId(t as usize),
        ) implies status_borrowers(vs[t].status).contains(VarId(b as usize)) by {
        assert(borrowers_registered_except(vs, -1));
    }
}

/// Well-formedness survives rewriting a single record's status, validity
/// and borrow edges, provided the record keeps its id and its dereference
/// and parent links, and is itself well-formed in the new store.
pub proof fn lemma_wf_one_record_update(pre: Vars, post: Vars, i: int)
    requires
        pre.wf(),
        post.void_literal == pre.void_literal,
        post.vars@.len() == pre.vars@.len(),
        0 <= i < pre.vars@.len(),
        forall|j: int| 0 <= j < pre.vars@.len() && j != i ==> post.vars@[j] == pre.vars@[j],
        post.vars@[i].id == pre.vars@[i].id,
        post.vars@[i].deref_var == pre.vars@[i].deref_var,
        post.vars@[i].parent == pre.vars@[i].parent,
        post.var_ok(post.vars@[i]),
    ensures
        post.wf(),
{
    let n = pre.vars@.len() as int;
    assert forall|j: int| 0 <= j < n implies post.var_ok(#[trigger] post.vars@[j]) by {
        if j != i {
            assert(pre.var_ok(pre.vars@[j]));
            assert(post.vars@[j] == pre.vars@[j]);
        }
    }
    assert forall|j: int| 0 <= j < n implies (#[trigger] post.vars@[j]).id == VarId(
        j as usize,
    ) by {
        assert(pre.vars@[j].id == VarId(j as usize));
    }
    assert forall|j: int|
        0 <= j < n implies ((#[trigger] post.vars@[j]).deref_var matches Some(d)
        ==> post.vars@[d.0 as int].parent == Some(VarId(j as usize))) by {
        assert(post.vars@[j].deref_var == pre.vars@[j].deref_var);
        if pre.vars@[j].deref_var is Some {
            let d = pre.vars@[j].deref_var->Some_0;
            assert(pre.vars@[d.0 as int].parent == Some(VarId(j as usize)));
            assert(post.vars@[d.0 as int].parent == pre.vars@[d.0 as int].parent);
        }
    }
}

/// The borrow edge that `initialize_with_borrows` records for one target.
pub open spec fn borrow_edge(is_mut: bool, t: VarId) -> Borrow {
    if is_mut {
        Borrow::Mutable(t)
    } else {
        Borrow::Immutable(t)
    }
}

impl Var {
    /// Initializes `var` as a single borrow of `borrowed_var`.
    ///
    /// The receiver must be assignable; its previous borrowers are
    /// cascade-invalidated, it becomes `Initialized` holding exactly one
    /// borrow edge, and the target records it as borrower: exclusively when
    /// `is_mut`, revoking every prior alias of the target, or shared
    /// otherwise, accumulating beside prior shared borrowers.
    #[verifier::rlimit(60)]
    pub fn initialize_with_borrow(
        vars: &mut Vars,
        var: VarId,
        is_mut: bool,
        borrowed_var: VarId,
    ) -> (r: CheckerResult)
        requires
            old(vars).wf(),
            var.0 < old(vars).vars@.len(),
            borrowed_var.0 < old(vars).vars@.len(),
            borrowed_var.0 != var.0,
        ensures
            final(vars).wf(),
            final(vars).void_literal == old(vars).void_literal,
            final(vars).vars@.len() == old(vars).vars@.len(),
            forall|i: int|
                0 <= i < old(vars).vars@.len() ==> (eq_frozen_fields(
                    #[trigger] final(vars).vars@[i],
                    old(vars).vars@[i],
                ) && final(vars).vars@[i].deref_var == old(vars).vars@[i].deref_var),
            forall|i: int|
                0 <= i < old(vars).vars@.len() && i != var.0 && i != borrowed_var.0 ==> (
                #[trigger] final(vars).vars@[i]).status == old(vars).vars@[i].status,
            forall|i: int|
                0 <= i < old(vars).vars@.len() && i != var.0 ==> ((#[trigger] final(vars).vars@[i]).valid ==> old(vars).vars@[i].valid),
            (r matches Err(CheckerError::ImmutableAssigned(n, i))) <==> !assignable(
                old(vars).vars@[var.0 as int],
            ),
            r matches Err(e) ==> is_state_machine_error(e),
            !assignable(old(vars).vars@[var.0 as int]) ==> (*final(vars) == *old(vars) && (
            r matches Err(CheckerError::ImmutableAssigned(n, i)) && n@ == old(vars).vars@[var.0 as int].identifier@ && i == old(vars).vars@[var.0 as int].id)),
            r is Ok ==> ({
                let t0 = old(vars).vars@[borrowed_var.0 as int];
                &&& final(vars).vars@[var.0 as int].status is Initialized
                &&& final(vars).vars@[var.0 as int].borrows@ =~= seq![
                    borrow_edge(is_mut, borrowed_var),
                ]
                &&& is_mut ==> ({
                    &&& final(vars).vars@[borrowed_var.0 as int].status matches
                        VarStatus::MutBorrowed(b) && b == var
                    &&& t0.is_mut
                    &&& forall|b: VarId|
                        #[trigger] status_borrowers(t0.status).contains(b) && borrows_var(
                            old(vars).vars@[b.0 as int],
                            borrowed_var,
                        ) ==> !final(vars).vars@[b.0 as int].valid
                })
                &&& !is_mut ==> ({
                    &&& final(vars).vars@[borrowed_var.0 as int].status is Borrowed
                    &&& t0.status is Initialized ==> status_borrowers(
                        final(vars).vars@[borrowed_var.0 as int].status,
                    ) =~= seq![var]
                    &&& (t0.status matches VarStatus::Borrowed(l) ==> status_borrowers(
                        final(vars).vars@[borrowed_var.0 as int].status,
                    ) =~= l@.push(var))
                    &&& (t0.status matches VarStatus::MutBorrowed(p) ==> (status_borrowers(
                        final(vars).vars@[borrowed_var.0 as int].status,
                    ) =~= seq![var] && (borrows_var(old(vars).vars@[p.0 as int], borrowed_var)
                        ==> !final(vars).vars@[p.0 as int].valid)))
                })
            }),
            (old(vars).alias_ok() && r is Ok) ==> ({
                &&& borrowers_registered(final(vars).vars@)
                &&& no_dangling_alias_except(final(vars).vars@, var.0 as int)
                &&& (final(vars).vars@[borrowed_var.0 as int].valid ==> no_dangling_alias(
                    final(vars).vars@,
                ))
            }),
            (status_borrowers(old(vars).vars@[var.0 as int].status).len() == 0 && (if is_mut {
                status_borrowers(old(vars).vars@[borrowed_var.0 as int].status).len() == 0
            } else {
                !(old(vars).vars@[borrowed_var.0 as int].status is MutBorrowed)
            }) && r is Ok) ==> (final(vars).vars@[var.0 as int].valid && (forall|i: int|
                0 <= i < old(vars).vars@.len() && i != var.0 ==> (#[trigger] final(vars).vars@[i]).valid
                    == old(vars).vars@[i].valid)),
            status_borrowers(old(vars).vars@[var.0 as int].status).len() == 0 ==> ({
                let t0 = old(vars).vars@[borrowed_var.0 as int];
                &&& (r is Ok <==> (assignable(old(vars).vars@[var.0 as int]) && usable(t0) && (
                is_mut ==> t0.is_mut)))
                &&& (assignable(old(vars).vars@[var.0 as int]) && is_mut && !t0.is_mut) ==> (
                r matches Err(CheckerError::ImmutableBorrowedMutable(n, i)) && n@
                    == t0.identifier@ && i == t0.id)
                &&& (assignable(old(vars).vars@[var.0 as int]) && (is_mut ==> t0.is_mut)
                    && !t0.valid) ==> (r matches Err(CheckerError::Invalid(n, i)) && n@
                    == t0.identifier@ && i == t0.id)
                &&& (assignable(old(vars).vars@[var.0 as int]) && (is_mut ==> t0.is_mut)
                    && t0.valid && t0.status is Uninitialized) ==> (r matches Err(
                    CheckerError::Uninitialized(n, i),
                ) && n@ == t0.identifier@ && i == t0.id)
                &&& (assignable(old(vars).vars@[var.0 as int]) && (is_mut ==> t0.is_mut)
                    && t0.valid && t0.status is Moved) ==> (r matches Err(CheckerError::Moved(n, i))
                    && n@ == t0.identifier@ && i == t0.id)
            }),
    {
        let nlen = vars.vars.len();
        match vars.vars[var.0].assert_assignable() {
            Err(e) => {
                return Err(e);
            },
            Ok(()) => {},
        }
        invalidate_borrowers(vars, var, Ghost(var.0 as int));
        let ghost mid = *vars;
        vars.vars[var.0].status = VarStatus::Initialized;
        vars.vars[var.0].valid = true;
        let mut edges: Vec<Borrow> = Vec::new();
        if is_mut {
            edges.push(Borrow::Mutable(borrowed_var));
        } else {
            edges.push(Borrow::Immutable(borrowed_var));
        }
        vars.vars[var.0].borrows = edges;
        proof {
            let vs = vars.vars@;
            let vsm = mid.vars@;
            assert(vs[var.0 as int].borrows@ =~= seq![borrow_edge(is_mut, borrowed_var)]);
            assert(vars.var_ok(vs[var.0 as int])) by {
                assert(mid.var_ok(vsm[var.0 as int]));
                let vi = var.0 as int;
                assert(status_borrowers(vs[vi].status) =~= Seq::<VarId>::empty());
                assert forall|k: int|
                    0 <= k < vs[vi].borrows@.len() implies (borrow_target(
                    #[trigger] vs[vi].borrows@[k],
                )).0 < vs.len() && borrow_target(vs[vi].borrows@[k]) != vs[vi].id by {
                    assert(vs[vi].borrows@[k] == borrow_edge(is_mut, borrowed_var));
                    assert(vs[vi].id == VarId(var.0));
                }
                assert(!borrows_var(vs[vi], vs[vi].id));
            }
            lemma_wf_one_record_update(mid, *vars, var.0 as int);
        }
        let ghost pre_t = *vars;
        let r = if is_mut {
            Var::transition_mut_borrowed(vars, borrowed_var, var, Ghost(var.0 as int))
        } else {
            Var::transition_borrowed(vars, borrowed_var, var, Ghost(var.0 as int))
        };
        proof {
            let vs0 = old(vars).vars@;
            let vsp = pre_t.vars@;
            let vsf = vars.vars@;
            let ti = borrowed_var.0 as int;
            let vi = var.0 as int;
            assert(vsp[ti].status == vs0[ti].status);
            assert(vsp[ti].borrows == vs0[ti].borrows);
            assert(vsp[ti].is_mut == vs0[ti].is_mut);
            assert(vsf[vi].status == vsp[vi].status);
            assert(vsf[vi].borrows == vsp[vi].borrows);
            if r is Ok {
                assert(vsf[vi].status is Initialized);
                assert(vsf[vi].borrows@ =~= seq![borrow_edge(is_mut, borrowed_var)]);
                if is_mut {
                    assert forall|b: VarId|
                        #[trigger] status_borrowers(vs0[ti].status).contains(b) && borrows_var(
                            vs0[b.0 as int],
                            borrowed_var,
                        ) implies !vsf[b.0 as int].valid by {
                        assert(status_borrowers(vsp[ti].status).contains(b));
                        assert(b.0 < vs0.len());
                        if b.0 != var.0 {
                            assert(vsp[b.0 as int].borrows == vs0[b.0 as int].borrows);
                            assert(borrows_var(vsp[b.0 as int], borrowed_var));
                        } else {
                            assert(vsp[vi].borrows@[0] == borrow_edge(is_mut, borrowed_var));
                            assert(borrow_target(vsp[vi].borrows@[0]) == borrowed_var);
                            assert(borrows_var(vsp[vi], borrowed_var));
                        }
                    }
                } else {
                    match vs0[ti].status {
                        VarStatus::MutBorrowed(p) => {
                            assert(p.0 < vs0.len()) by {
                                assert(old(vars).var_ok(vs0[ti]));
                                assert(status_borrowers(vs0[ti].status)[0] == p);
                            }
                            if borrows_var(vs0[p.0 as int], borrowed_var) {
                                if p.0 != var.0 {
                                    assert(vsp[p.0 as int].borrows == vs0[p.0 as int].borrows);
                                    assert(borrows_var(vsp[p.0 as int], borrowed_var));
                                } else {
                                    assert(vsp[vi].borrows@[0] == borrow_edge(
                                        is_mut,
                                        borrowed_var,
                                    ));
                                    assert(borrows_var(vsp[vi], borrowed_var));
                                }
                                assert(!vsf[p.0 as int].valid);
                            }
                        },
                        _ => {},
                    }
                }
            }
            if status_borrowers(vs0[vi].status).len() == 0 {
                assert(vsp[ti].valid == vs0[ti].valid);
                assert(forall|i: int|
                    0 <= i < vs0.len() && i != vi ==> (#[trigger] vsp[i]).valid == vs0[i].valid);
                assert(vsp[vi].valid);
                let cascade_free = if is_mut {
                    status_borrowers(vs0[ti].status).len() == 0
                } else {
                    !(vs0[ti].status is MutBorrowed)
                };
                if cascade_free && r is Ok {
                    assert(vsp[ti].status == vs0[ti].status);
                    assert(forall|i: int|
                        0 <= i < vs0.len() ==> (#[trigger] vsf[i]).valid == vsp[i].valid);
                    assert(vsf[vi].valid);
                }
            }
            if alias_inv(vs0) && r is Ok {
                let vsm = mid.vars@;
                lemma_alias_inv_weaken(vs0, vi);
                assert(no_dangling_alias_except(vsm, vi) && borrowers_registered_except(
                    vsm,
                    vi,
                ));
                // after the receiver update: its old borrowers were
                // invalidated, its own edge list holds only the new edge
                assert forall|b: int, tt: int|
                    0 <= b < vsp.len() && 0 <= tt < vsp.len() && b != vi && vsp[b].valid
                        && #[trigger] borrows_var(vsp[b], VarId(tt as usize)) implies
                    status_borrowers(vsp[tt].status).contains(VarId(b as usize)) by {
                    assert(vsp[b].borrows == vsm[b].borrows);
                    assert(borrows_var(vsm[b], VarId(tt as usize)));
                    assert(vsm[b].valid);
                    assert(status_borrowers(vsm[tt].status).contains(VarId(b as usize)));
                    if tt == vi {
                        assert(vsm[tt].status == vs0[tt].status);
                        assert(status_borrowers(vs0[vi].status).contains(VarId(b as usize)));
                        assert(vsm[b].borrows == vs0[b].borrows);
                        assert(b < nlen);
                        assert((VarId(b as usize)).0 as int == b);
                        assert(borrows_var(vs0[(VarId(b as usize)).0 as int], var)) by {
                            assert(VarId(tt as usize) == var);
                            assert(vs0[(VarId(b as usize)).0 as int] == vs0[b]);
                        }
                        assert(!vsm[(VarId(b as usize)).0 as int].valid);
                        assert(false);
                    } else {
                        assert(vsp[tt].status == vsm[tt].status);
                    }
                }
                assert forall|b: int, tt: int|
                    0 <= b < vsp.len() && 0 <= tt < vsp.len() && b != vi && #[trigger] borrows_var(
                        vsp[b],
                        VarId(tt as usize),
                    ) && !vsp[tt].valid implies !vsp[b].valid by {
                    assert(vsp[b].borrows == vsm[b].borrows);
                    assert(borrows_var(vsm[b], VarId(tt as usize)));
                    assert(tt != vi ==> vsp[tt].valid == vsm[tt].valid);
                    assert(vsp[vi].valid);
                    assert(vsp[b].valid == vsm[b].valid);
                }
                assert(usable(vsp[ti]));
                assert(no_dangling_alias_except(vsf, vi) && borrowers_registered_except(vsf, vi));
                // the receiver's one edge is now registered on its target
                assert(status_borrowers(vsf[ti].status).contains(var)) by {
                    if is_mut {
                        assert(status_borrowers(vsf[ti].status) =~= seq![var]);
                        assert(status_borrowers(vsf[ti].status)[0] == var);
                    } else {
                        match vs0[ti].status {
                            VarStatus::Initialized => {
                                assert(status_borrowers(vsf[ti].status)[0] == var);
                            },
                            VarStatus::Borrowed(l) => {
                                assert(status_borrowers(vsf[ti].status) =~= l@.push(var));
                                assert(status_borrowers(vsf[ti].status)[l@.len() as int] == var);
                            },
                            VarStatus::MutBorrowed(_) => {
                                assert(status_borrowers(vsf[ti].status)[0] == var);
                            },
                            _ => {
                                assert(usable(vsp[ti]));
                                assert(vsp[ti].status == vs0[ti].status);
                                assert(false);
                            },
                        }
                    }
                }
                assert forall|b: int, tt: int|
                    0 <= b < vsf.len() && 0 <= tt < vsf.len() && b != -1 && vsf[b].valid
                        && #[trigger] borrows_var(vsf[b], VarId(tt as usize)) implies
                    status_borrowers(vsf[tt].status).contains(VarId(b as usize)) by {
                    if b == vi {
                        assert(vsf[vi].borrows == vsp[vi].borrows);
                        let kk = choose|kk: int|
                            0 <= kk < vsf[vi].borrows@.len() && borrow_target(
                                vsf[vi].borrows@[kk],
                            ) == VarId(tt as usize);
                        assert(vsf[vi].borrows@[kk] == borrow_edge(is_mut, borrowed_var));
                        assert(VarId(tt as usize) == borrowed_var);
                        assert(tt < nlen);
                        assert(tt == ti);
                        assert(VarId(b as usize) == var);
                    }
                }
                if vsf[ti].valid {
                    assert forall|b: int, tt: int|
                        0 <= b < vsf.len() && 0 <= tt < vsf.len() && b != -1
                            && #[trigger] borrows_var(vsf[b], VarId(tt as usize))
                            && !vsf[tt].valid implies !vsf[b].valid by {
                        if b == vi {
                            let kk = choose|kk: int|
                                0 <= kk < vsf[vi].borrows@.len() && borrow_target(
                                    vsf[vi].borrows@[kk],
                                ) == VarId(tt as usize);
                            assert(vsf[vi].borrows == vsp[vi].borrows);
                            assert(vsf[vi].borrows@[kk] == borrow_edge(is_mut, borrowed_var));
                            assert(VarId(tt as usize) == borrowed_var);
                            assert(tt < nlen);
                            assert(tt == ti);
                            assert(false);
                        }
                    }
                }
            }
        }
        match r {
            Err(e) => Err(e),
            Ok(()) => Ok(()),
        }
    }

    /// Initializes `var` as a borrow of every variable in `borrowed_vars`.
    ///
    /// The receiver must be assignable; its previous borrowers are
    /// cascade-invalidated; it becomes `Initialized`, holding one borrow
    /// edge per target, and each target records it as borrower, exclusively
    /// when `is_mut` or shared otherwise.
    pub fn initialize_with_borrows(
        vars: &mut Vars,
        var: VarId,
        is_mut: bool,
        borrowed_vars: &Vec<VarId>,
    ) -> (r: CheckerResult)
        requires
            old(vars).wf(),
            var.0 < old(vars).vars@.len(),
            forall|j: int|
                0 <= j < borrowed_vars@.len() ==> (#[trigger] borrowed_vars@[j]).0 < old(vars).vars@.len() && borrowed_vars@[j].0 != var.0,
        ensures
            final(vars).wf(),
            final(vars).void_literal == old(vars).void_literal,
            final(vars).vars@.len() == old(vars).vars@.len(),
            forall|i: int|
                0 <= i < old(vars).vars@.len() ==> (eq_frozen_fields(
                    #[trigger] final(vars).vars@[i],
                    old(vars).vars@[i],
                ) && final(vars).vars@[i].deref_var == old(vars).vars@[i].deref_var),
            forall|i: int|
                0 <= i < old(vars).vars@.len() && i != var.0 ==> (#[trigger] final(vars).vars@[i]).borrows == old(vars).vars@[i].borrows,
            forall|i: int|
                0 <= i < old(vars).vars@.len() && i != var.0 ==> ((#[trigger] final(vars).vars@[i]).valid ==> old(vars).vars@[i].valid),
            forall|i: int|
                0 <= i < old(vars).vars@.len() && i != var.0 && !borrowed_vars@.contains(
                    VarId(i as usize),
                ) ==> (#[trigger] final(vars).vars@[i]).status == old(vars).vars@[i].status,
            (r matches Err(CheckerError::ImmutableAssigned(n, i))) <==> !assignable(
                old(vars).vars@[var.0 as int],
            ),
            r matches Err(e) ==> is_state_machine_error(e),
            !assignable(old(vars).vars@[var.0 as int]) ==> (*final(vars) == *old(vars) && (
            r matches Err(CheckerError::ImmutableAssigned(n, i)) && n@ == old(vars).vars@[var.0 as int].identifier@ && i == old(vars).vars@[var.0 as int].id)),
            r is Ok ==> ({
                &&& final(vars).vars@[var.0 as int].status is Initialized
                &&& final(vars).vars@[var.0 as int].borrows@ =~= borrowed_vars@.map_values(
                    |t: VarId| borrow_edge(is_mut, t),
                )
                &&& forall|j: int|
                    0 <= j < borrowed_vars@.len() ==> status_borrowers(
                        final(vars).vars@[(#[trigger] borrowed_vars@[j]).0 as int].status,
                    ).contains(var)
                &&& forall|j: int|
                    0 <= j < borrowed_vars@.len() ==> (if is_mut {
                        final(vars).vars@[(#[trigger] borrowed_vars@[j]).0 as int].status is MutBorrowed
                    } else {
                        final(vars).vars@[(#[trigger] borrowed_vars@[j]).0 as int].status is Borrowed
                    })
            }),
            (old(vars).alias_ok() && r is Ok) ==> ({
                &&& borrowers_registered(final(vars).vars@)
                &&& no_dangling_alias_except(final(vars).vars@, var.0 as int)
                &&& ((forall|j: int|
                    0 <= j < borrowed_vars@.len() ==> final(vars).vars@[(
                    #[trigger] borrowed_vars@[j]).0 as int].valid) ==> no_dangling_alias(
                    final(vars).vars@,
                ))
            }),
            cascade_free_borrows(old(vars).vars@, var, borrowed_vars@, is_mut) ==> ({
                let vs0 = old(vars).vars@;
                &&& (r is Ok <==> (assignable(vs0[var.0 as int]) && (forall|j: int|
                    0 <= j < borrowed_vars@.len() ==> borrow_admissible(
                        vs0[(#[trigger] borrowed_vars@[j]).0 as int],
                        is_mut,
                    ))))
                &&& (r is Ok ==> (final(vars).vars@[var.0 as int].valid && (forall|i: int|
                    0 <= i < vs0.len() && i != var.0 ==> (#[trigger] final(vars).vars@[i]).valid
                        == vs0[i].valid)))
                &&& ((assignable(vs0[var.0 as int]) && !(forall|j: int|
                    0 <= j < borrowed_vars@.len() ==> borrow_admissible(
                        vs0[(#[trigger] borrowed_vars@[j]).0 as int],
                        is_mut,
                    ))) ==> (r matches Err(e) && exists|k: int|
                    0 <= k < borrowed_vars@.len() && (forall|j: int|
                        0 <= j < k ==> borrow_admissible(
                            vs0[(#[trigger] borrowed_vars@[j]).0 as int],
                            is_mut,
                        )) && !borrow_admissible(
                        vs0[(#[trigger] borrowed_vars@[k]).0 as int],
                        is_mut,
                    ) && matches_borrow_error(e, vs0[borrowed_vars@[k].0 as int], is_mut)))
            }),
    {
        let nlen = vars.vars.len();
        match vars.vars[var.0].assert_assignable() {
            Err(e) => {
                return Err(e);
            },
            Ok(()) => {},
        }
        let ghost alias0 = old(vars).alias_ok();
        let ghost hb = cascade_free_borrows(old(vars).vars@, var, borrowed_vars@, is_mut);
        proof {
            if alias0 {
                lemma_alias_inv_weaken(old(vars).vars@, var.0 as int);
            }
        }
        invalidate_borrowers(vars, var, Ghost(var.0 as int));
        let ghost mid = *vars;
        vars.vars[var.0].status = VarStatus::Initialized;
        vars.vars[var.0].valid = true;
        vars.vars[var.0].borrows = Vec::new();
        proof {
            let vs = vars.vars@;
            let vsm = mid.vars@;
            let vs0 = old(vars).vars@;
            let vi = var.0 as int;
            assert(vars.var_ok(vs[var.0 as int])) by {
                assert(mid.var_ok(vsm[var.0 as int]));
                assert(status_borrowers(vs[var.0 as int].status) =~= Seq::<VarId>::empty());
                assert(vs[var.0 as int].borrows@.len() == 0);
                assert(!borrows_var(vs[var.0 as int], vs[var.0 as int].id));
            }
            lemma_wf_one_record_update(mid, *vars, var.0 as int);
            if alias0 {
                assert forall|b: int, tt: int|
                    0 <= b < vs.len() && 0 <= tt < vs.len() && b != vi && vs[b].valid
                        && #[trigger] borrows_var(vs[b], VarId(tt as usize)) implies
                    status_borrowers(vs[tt].status).contains(VarId(b as usize)) by {
                    assert(vs[b].borrows == vsm[b].borrows);
                    assert(borrows_var(vsm[b], VarId(tt as usize)));
                    assert(vsm[b].valid);
                    assert(status_borrowers(vsm[tt].status).contains(VarId(b as usize)));
                    if tt == vi {
                        assert(vsm[tt].status == vs0[tt].status);
                        assert(status_borrowers(vs0[vi].status).contains(VarId(b as usize)));
                        assert(vsm[b].borrows == vs0[b].borrows);
                        assert(b < nlen);
                        assert((VarId(b as usize)).0 as int == b);
                        assert(borrows_var(vs0[(VarId(b as usize)).0 as int], var)) by {
                            assert(VarId(tt as usize) == var);
                            assert(vs0[(VarId(b as usize)).0 as int] == vs0[b]);
                        }
                        assert(!vsm[(VarId(b as usize)).0 as int].valid);
                        assert(false);
                    } else {
                        assert(vs[tt].status == vsm[tt].status);
                    }
                }
                assert forall|b: int, tt: int|
                    0 <= b < vs.len() && 0 <= tt < vs.len() && b != vi && #[trigger] borrows_var(
                        vs[b],
                        VarId(tt as usize),
                    ) && !vs[tt].valid implies !vs[b].valid by {
                    assert(vs[b].borrows == vsm[b].borrows);
                    assert(borrows_var(vsm[b], VarId(tt as usize)));
                    assert(tt != vi ==> vs[tt].valid == vsm[tt].valid);
                    assert(vs[vi].valid);
                    assert(vs[b].valid == vsm[b].valid);
                }
            }
            if hb {
                assert(forall|i: int|
                    0 <= i < vs0.len() && i != vi ==> (#[trigger] vsm[i]).valid == vs0[i].valid);
                assert forall|i: int| 0 <= i < vs0.len() && i != vi implies #[trigger] vs[i]
                    == vs0[i] by {
                    assert(eq_except_valid(vsm[i], vs0[i]));
                    assert(vsm[i].valid == vs0[i].valid);
                    assert(vsm[i] == vs0[i]);
                    assert(vs[i] == vsm[i]);
                }
                assert(vs[vi].valid);
            }
        }
        let mut k: usize = 0;
        while k < borrowed_vars.len()
            invariant
                vars.wf(),
                k <= borrowed_vars@.len(),
                vars.vars@.len() == old(vars).vars@.len(),
                vars.void_literal == old(vars).void_literal,
                var.0 < vars.vars@.len(),
                assignable(old(vars).vars@[var.0 as int]),
                forall|j: int|
                    0 <= j < borrowed_vars@.len() ==> (#[trigger] borrowed_vars@[j]).0
                        < vars.vars@.len() && borrowed_vars@[j].0 != var.0,
                forall|i: int|
                    0 <= i < old(vars).vars@.len() ==> (eq_frozen_fields(
                        #[trigger] vars.vars@[i],
                        old(vars).vars@[i],
                    ) && vars.vars@[i].deref_var == old(vars).vars@[i].deref_var),
                forall|i: int|
                    0 <= i < old(vars).vars@.len() && i != var.0 ==> (#[trigger] vars.vars@[i]).borrows
                        == old(vars).vars@[i].borrows,
                forall|i: int|
                    0 <= i < old(vars).vars@.len() && i != var.0 ==> ((#[trigger] vars.vars@[i]).valid
                        ==> old(vars).vars@[i].valid),
                vars.vars@[var.0 as int].status is Initialized,
                alias0 == old(vars).alias_ok(),
                nlen == old(vars).vars@.len(),
                alias0 ==> (no_dangling_alias_except(vars.vars@, var.0 as int)
                    && borrowers_registered_except(vars.vars@, var.0 as int)),
                hb == cascade_free_borrows(old(vars).vars@, var, borrowed_vars@, is_mut),
                hb ==> (vars.vars@[var.0 as int].valid && (forall|i: int|
                    0 <= i < old(vars).vars@.len() && i != var.0 ==> (#[trigger] vars.vars@[i]).valid
                        == old(vars).vars@[i].valid)),
                hb ==> (forall|j: int|
                    0 <= j < k ==> borrow_admissible(
                        old(vars).vars@[(#[trigger] borrowed_vars@[j]).0 as int],
                        is_mut,
                    )),
                hb ==> (forall|i: int|
                    0 <= i < old(vars).vars@.len() && i != var.0 && (forall|j: int|
                        0 <= j < k ==> (#[trigger] borrowed_vars@[j]).0 != i) ==> #[trigger] vars.vars@[i]
                        == old(vars).vars@[i]),
                forall|j: int|
                    0 <= j < k ==> (if is_mut {
                        vars.vars@[(#[trigger] borrowed_vars@[j]).0 as int].status is MutBorrowed
                    } else {
                        vars.vars@[(#[trigger] borrowed_vars@[j]).0 as int].status is Borrowed
                    }),
                forall|i: int|
                    0 <= i < old(vars).vars@.len() && i != var.0 && !borrowed_vars@.contains(
                        VarId(i as usize),
                    ) ==> (#[trigger] vars.vars@[i]).status == old(vars).vars@[i].status,
                vars.vars@[var.0 as int].borrows@ =~= borrowed_vars@.subrange(
                    0,
                    k as int,
                ).map_values(|t: VarId| borrow_edge(is_mut, t)),
                forall|j: int|
                    0 <= j < k ==> status_borrowers(
                        vars.vars@[(#[trigger] borrowed_vars@[j]).0 as int].status,
                    ).contains(var),
            decreases borrowed_vars@.len() - k,
        {
            let t = borrowed_vars[k];
            let ghost va = *vars;
            let ghost vs_a = vars.vars@;
            if is_mut {
                vars.vars[var.0].borrows.push(Borrow::Mutable(t));
            } else {
                vars.vars[var.0].borrows.push(Borrow::Immutable(t));
            }
            proof {
                let vs = vars.vars@;
                let vi = var.0 as int;
                assert(vs[vi].borrows@ =~= vs_a[vi].borrows@.push(borrow_edge(is_mut, t)));
                assert(vs[vi].borrows@ =~= borrowed_vars@.subrange(0, k + 1 as int).map_values(
                    |tt: VarId| borrow_edge(is_mut, tt),
                ));
                assert(vars.var_ok(vs[vi])) by {
                    assert(va.var_ok(vs_a[vi]));
                    assert forall|kk: int|
                        0 <= kk < vs[vi].borrows@.len() implies (borrow_target(
                        #[trigger] vs[vi].borrows@[kk],
                    )).0 < vs.len() && borrow_target(vs[vi].borrows@[kk]) != vs[vi].id by {
                        if kk < vs_a[vi].borrows@.len() {
                            assert(vs[vi].borrows@[kk] == vs_a[vi].borrows@[kk]);
                            assert(!borrows_var(vs_a[vi], vs_a[vi].id));
                        } else {
                            assert(vs[vi].borrows@[kk] == borrow_edge(is_mut, t));
                        }
                    }
                    assert(!borrows_var(vs[vi], vs[vi].id));
                    assert(vs[vi].status == vs_a[vi].status);
                }
                lemma_wf_one_record_update(va, *vars, vi);
                if alias0 {
                    assert forall|b: int, tt: int|
                        0 <= b < vs.len() && 0 <= tt < vs.len() && b != vi && vs[b].valid
                            && #[trigger] borrows_var(vs[b], VarId(tt as usize)) implies
                        status_borrowers(vs[tt].status).contains(VarId(b as usize)) by {
                        assert(vs[b].borrows == vs_a[b].borrows);
                        assert(borrows_var(vs_a[b], VarId(tt as usize)));
                        assert(vs[tt].status == vs_a[tt].status);
                    }
                    assert forall|b: int, tt: int|
                        0 <= b < vs.len() && 0 <= tt < vs.len() && b != vi
                            && #[trigger] borrows_var(vs[b], VarId(tt as usize))
                            && !vs[tt].valid implies !vs[b].valid by {
                        assert(vs[b].borrows == vs_a[b].borrows);
                        assert(borrows_var(vs_a[b], VarId(tt as usize)));
                        assert(vs[tt].valid == vs_a[tt].valid);
                        assert(vs[b].valid == vs_a[b].valid);
                    }
                }
                if hb {
                    let vs0 = old(vars).vars@;
                    if is_mut {
                        // exclusive targets are pairwise distinct, so this
                        // target is still untouched
                        assert(forall|j: int|
                            0 <= j < k ==> (#[trigger] borrowed_vars@[j]).0 != t.0);
                        assert(vs_a[t.0 as int] == vs0[t.0 as int]);
                        assert(vs[t.0 as int] == vs0[t.0 as int]);
                        assert(status_borrowers(vs[t.0 as int].status).len() == 0);
                    } else {
                        if exists|j: int| 0 <= j < k && (#[trigger] borrowed_vars@[j]).0 == t.0 {
                            let j = choose|j: int|
                                0 <= j < k && (#[trigger] borrowed_vars@[j]).0 == t.0;
                            assert(vs_a[t.0 as int].status is Borrowed);
                            assert(vs[t.0 as int].status is Borrowed);
                        } else {
                            assert(forall|j: int|
                                0 <= j < k ==> (#[trigger] borrowed_vars@[j]).0 != t.0);
                            assert(vs[t.0 as int] == vs0[t.0 as int]);
                        }
                        assert(!(vs[t.0 as int].status is MutBorrowed));
                    }
                }
            }
            let ghost vb = *vars;
            let tr = if is_mut {
                Var::transition_mut_borrowed(vars, t, var, Ghost(var.0 as int))
            } else {
                Var::transition_borrowed(vars, t, var, Ghost(var.0 as int))
            };
            match tr {
                Err(e) => {
                    proof {
                        if hb {
                            let vs0 = old(vars).vars@;
                            // a target processed earlier was admissible and
                            // stays usable, so the failing one is untouched
                            if exists|j: int|
                                0 <= j < k && (#[trigger] borrowed_vars@[j]).0 == t.0 {
                                let j = choose|j: int|
                                    0 <= j < k && (#[trigger] borrowed_vars@[j]).0 == t.0;
                                assert(!is_mut);
                                assert(borrow_admissible(vs0[t.0 as int], is_mut));
                                assert(vb.vars@[t.0 as int].valid == vs0[t.0 as int].valid);
                                assert(vb.vars@[t.0 as int].status is Borrowed);
                                assert(usable(vb.vars@[t.0 as int]));
                                assert(false);
                            }
                            assert(forall|j: int|
                                0 <= j < k ==> (#[trigger] borrowed_vars@[j]).0 != t.0);
                            assert(vb.vars@[t.0 as int] == vs0[t.0 as int]);
                            assert(!borrow_admissible(vs0[t.0 as int], is_mut));
                            assert(matches_borrow_error(e, vs0[t.0 as int], is_mut));
                            assert(borrowed_vars@[k as int] == t);
                            assert(0 <= k < borrowed_vars@.len() && (forall|j: int|
                                0 <= j < k ==> borrow_admissible(
                                    vs0[(#[trigger] borrowed_vars@[j]).0 as int],
                                    is_mut,
                                )) && !borrow_admissible(
                                vs0[(borrowed_vars@[k as int]).0 as int],
                                is_mut,
                            ) && matches_borrow_error(
                                e,
                                vs0[(borrowed_vars@[k as int]).0 as int],
                                is_mut,
                            ));
                        }
                    }
                    return Err(e);
                },
                Ok(()) => {},
            }
            proof {
                let sbf = status_borrowers(vars.vars@[t.0 as int].status);
                if is_mut {
                    assert(sbf =~= seq![var]);
                    assert(sbf[0] == var);
                } else {
                    match vb.vars@[t.0 as int].status {
                        VarStatus::Initialized => {
                            assert(sbf =~= seq![var]);
                            assert(sbf[0] == var);
                        },
                        VarStatus::Borrowed(l) => {
                            assert(sbf =~= l@.push(var));
                            assert(sbf[sbf.len() - 1] == var);
                        },
                        VarStatus::MutBorrowed(_) => {
                            assert(sbf =~= seq![var]);
                            assert(sbf[0] == var);
                        },
                        _ => {
                            assert(usable(vb.vars@[t.0 as int]));
                            assert(false);
                        },
                    }
                }
                assert(sbf.contains(var));
                assert forall|j: int|
                    0 <= j < k + 1 implies status_borrowers(
                        vars.vars@[(#[trigger] borrowed_vars@[j]).0 as int].status,
                    ).contains(var) by {
                    let tj = borrowed_vars@[j];
                    if j < k && tj.0 != t.0 {
                        assert(vars.vars@[tj.0 as int].status == vs_a[tj.0 as int].status);
                    }
                }
                if alias0 {
                    assert(no_dangling_alias_except(vars.vars@, var.0 as int)
                        && borrowers_registered_except(vars.vars@, var.0 as int));
                }
                if hb {
                    let vs0 = old(vars).vars@;
                    let vsf = vars.vars@;
                    assert(forall|i: int|
                        0 <= i < vs0.len() ==> (#[trigger] vsf[i]).valid == vb.vars@[i].valid);
                    assert(vsf[var.0 as int].valid);
                    assert(borrow_admissible(vs0[t.0 as int], is_mut)) by {
                        if is_mut {
                            assert(vb.vars@[t.0 as int] == vs0[t.0 as int]);
                            assert(vb.vars@[t.0 as int].is_mut && usable(vb.vars@[t.0 as int]));
                        } else {
                            if exists|j: int|
                                0 <= j < k && (#[trigger] borrowed_vars@[j]).0 == t.0 {
                                let j = choose|j: int|
                                    0 <= j < k && (#[trigger] borrowed_vars@[j]).0 == t.0;
                                assert(borrow_admissible(vs0[t.0 as int], is_mut));
                            } else {
                                assert(forall|j: int|
                                    0 <= j < k ==> (#[trigger] borrowed_vars@[j]).0 != t.0);
                                assert(vb.vars@[t.0 as int] == vs0[t.0 as int]);
                                assert(usable(vb.vars@[t.0 as int]));
                            }
                        }
                    }
                    assert forall|j: int|
                        0 <= j < k + 1 implies borrow_admissible(
                        vs0[(#[trigger] borrowed_vars@[j]).0 as int],
                        is_mut,
                    ) by {}
                    assert forall|i: int|
                        0 <= i < vs0.len() && i != var.0 && (forall|j: int|
                            0 <= j < k + 1 ==> (#[trigger] borrowed_vars@[j]).0 != i) implies
                        #[trigger] vsf[i] == vs0[i] by {
                        assert(borrowed_vars@[k as int].0 != i);
                        assert(t.0 != i);
                        assert(vb.vars@[i] == vs0[i]);
                        assert(vsf[i].status == vb.vars@[i].status);
                        assert(vsf[i].borrows == vb.vars@[i].borrows);
                        assert(eq_frozen_fields(vsf[i], vb.vars@[i]));
                        assert(vsf[i].deref_var == vb.vars@[i].deref_var);
                        assert(vsf[i].valid == vb.vars@[i].valid);
                        assert(vsf[i] == vb.vars@[i]);
                    }
                }
                assert forall|j: int|
                    0 <= j < k + 1 implies (if is_mut {
                    vars.vars@[(#[trigger] borrowed_vars@[j]).0 as int].status is MutBorrowed
                } else {
                    vars.vars@[(#[trigger] borrowed_vars@[j]).0 as int].status is Borrowed
                }) by {
                    if borrowed_vars@[j].0 == t.0 {
                        if is_mut {
                            assert(vars.vars@[t.0 as int].status is MutBorrowed);
                        } else {
                            assert(vars.vars@[t.0 as int].status is Borrowed);
                        }
                    } else if j < k {
                        assert(vars.vars@[borrowed_vars@[j].0 as int].status == vb.vars@[borrowed_vars@[j].0 as int].status);
                    }
                }
            }
            k += 1;
        }
        proof {
            assert(vars.vars@[var.0 as int].borrows@ =~= borrowed_vars@.map_values(
                |t: VarId| borrow_edge(is_mut, t),
            )) by {
                assert(borrowed_vars@.subrange(0, borrowed_vars@.len() as int) =~= borrowed_vars@);
            }
            if alias0 {
                let vsf = vars.vars@;
                let vi = var.0 as int;
                let edges = borrowed_vars@.map_values(|t: VarId| borrow_edge(is_mut, t));
                assert forall|b: int, tt: int|
                    0 <= b < vsf.len() && 0 <= tt < vsf.len() && b != -1 && vsf[b].valid
                        && #[trigger] borrows_var(vsf[b], VarId(tt as usize)) implies
                    status_borrowers(vsf[tt].status).contains(VarId(b as usize)) by {
                    if b == vi {
                        let kk = choose|kk: int|
                            0 <= kk < vsf[vi].borrows@.len() && borrow_target(
                                vsf[vi].borrows@[kk],
                            ) == VarId(tt as usize);
                        assert(vsf[vi].borrows@[kk] == edges[kk]);
                        assert(edges[kk] == borrow_edge(is_mut, borrowed_vars@[kk]));
                        assert(VarId(tt as usize) == borrowed_vars@[kk]);
                        assert(status_borrowers(
                            vsf[borrowed_vars@[kk].0 as int].status,
                        ).contains(var));
                        assert(tt < nlen);
                        assert(tt == borrowed_vars@[kk].0 as int);
                        assert(VarId(b as usize) == var);
                    }
                }
                if forall|j: int|
                    0 <= j < borrowed_vars@.len() ==> vsf[(
                #[trigger] borrowed_vars@[j]).0 as int].valid {
                    assert forall|b: int, tt: int|
                        0 <= b < vsf.len() && 0 <= tt < vsf.len() && b != -1
                            && #[trigger] borrows_var(vsf[b], VarId(tt as usize))
                            && !vsf[tt].valid implies !vsf[b].valid by {
                        if b == vi {
                            let kk = choose|kk: int|
                                0 <= kk < vsf[vi].borrows@.len() && borrow_target(
                                    vsf[vi].borrows@[kk],
                                ) == VarId(tt as usize);
                            assert(vsf[vi].borrows@[kk] == edges[kk]);
                            assert(edges[kk] == borrow_edge(is_mut, borrowed_vars@[kk]));
                            assert(VarId(tt as usize) == borrowed_vars@[kk]);
                            assert(tt < nlen);
                            assert(tt == borrowed_vars@[kk].0 as int);
                            assert(vsf[borrowed_vars@[kk].0 as int].valid);
                            assert(false);
                        }
                    }
                }
            }
        }
        Ok(())
    }
}

impl Var {
    /// Initializes `var` by moving (or copying) the value of
    /// `value_source` into it.
    ///
    /// The receiver must be assignable; its previous borrowers are
    /// cascade-invalidated; it becomes `Initialized` and takes over the
    /// source's borrow edges, and every variable those edges target is told
    /// that `var` now borrows it. A copy-marked source is left unchanged; a
    /// non-copy source becomes `Moved` and surrenders its edges.
    pub fn initialize_with_value(vars: &mut Vars, var: VarId, value_source: VarId) -> (r:
        CheckerResult)
        requires
            old(vars).wf(),
            var.0 < old(vars).vars@.len(),
            value_source.0 < old(vars).vars@.len(),
            value_source_admissible(old(vars).vars@, var, value_source),
        ensures
            final(vars).wf(),
            final(vars).void_literal == old(vars).void_literal,
            final(vars).vars@.len() == old(vars).vars@.len(),
            forall|i: int|
                0 <= i < old(vars).vars@.len() ==> (eq_frozen_fields(
                    #[trigger] final(vars).vars@[i],
                    old(vars).vars@[i],
                ) && final(vars).vars@[i].deref_var == old(vars).vars@[i].deref_var),
            forall|i: int|
                0 <= i < old(vars).vars@.len() && i != var.0 && i != value_source.0 ==> (
                #[trigger] final(vars).vars@[i]).borrows == old(vars).vars@[i].borrows,
            forall|i: int|
                0 <= i < old(vars).vars@.len() && i != var.0 ==> ((#[trigger] final(vars).vars@[i]).valid
                    ==> old(vars).vars@[i].valid),
            forall|i: int|
                0 <= i < old(vars).vars@.len() && i != var.0 && i != value_source.0
                    && !borrows_var(old(vars).vars@[value_source.0 as int], VarId(i as usize))
                    ==> (#[trigger] final(vars).vars@[i]).status == old(vars).vars@[i].status,
            (r matches Err(CheckerError::ImmutableAssigned(n, i))) <==> !assignable(
                old(vars).vars@[var.0 as int],
            ),
            r matches Err(e) ==> is_state_machine_error(e),
            !assignable(old(vars).vars@[var.0 as int]) ==> (*final(vars) == *old(vars) && (
            r matches Err(CheckerError::ImmutableAssigned(n, i)) && n@ == old(vars).vars@[var.0 as int].identifier@
                && i == old(vars).vars@[var.0 as int].id)),
            r is Ok ==> ({
                let s0 = old(vars).vars@[value_source.0 as int];
                &&& final(vars).vars@[var.0 as int].status is Initialized
                &&& final(vars).vars@[var.0 as int].borrows@ == s0.borrows@
                &&& usable(s0)
                &&& (s0.is_copy ==> final(vars).vars@[value_source.0 as int].status == s0.status)
                &&& (!s0.is_copy ==> (final(vars).vars@[value_source.0 as int].status is Moved
                    && final(vars).vars@[value_source.0 as int].borrows@.len() == 0 && (forall|
                    b: VarId,
                |
                    #[trigger] status_borrowers(s0.status).contains(b) && b.0 != var.0
                        && borrows_var(old(vars).vars@[b.0 as int], value_source) ==> !final(vars).vars@[b.0 as int].valid)))
                &&& forall|k: int|
                    0 <= k < s0.borrows@.len() ==> status_borrowers(
                        final(vars).vars@[(borrow_target(#[trigger] s0.borrows@[k])).0 as int].status,
                    ).contains(var)
            }),
            (old(vars).alias_ok() && r is Ok) ==> ({
                let s0 = old(vars).vars@[value_source.0 as int];
                &&& borrowers_registered(final(vars).vars@)
                &&& no_dangling_alias_except(final(vars).vars@, var.0 as int)
                &&& ((forall|k: int|
                    0 <= k < s0.borrows@.len() ==> final(vars).vars@[(borrow_target(
                        #[trigger] s0.borrows@[k],
                    )).0 as int].valid) ==> no_dangling_alias(final(vars).vars@))
            }),
            (status_borrowers(old(vars).vars@[var.0 as int].status).len() == 0 && old(vars).vars@[value_source.0 as int].borrows@.len()
                == 0 && status_borrowers(old(vars).vars@[value_source.0 as int].status).len() == 0
                && r is Ok) ==> (final(vars).vars@[var.0 as int].valid && (forall|i: int|
                0 <= i < old(vars).vars@.len() && i != var.0 ==> (#[trigger] final(vars).vars@[i]).valid
                    == old(vars).vars@[i].valid) && (forall|i: int|
                0 <= i < old(vars).vars@.len() && i != var.0 && i != value_source.0
                    ==> #[trigger] final(vars).vars@[i] == old(vars).vars@[i])),
            (status_borrowers(old(vars).vars@[var.0 as int].status).len() == 0 && old(vars).vars@[value_source.0 as int].borrows@.len()
                == 0) ==> ({
                let s0 = old(vars).vars@[value_source.0 as int];
                &&& (r is Ok <==> (assignable(old(vars).vars@[var.0 as int]) && usable(s0)))
                &&& (assignable(old(vars).vars@[var.0 as int]) && !s0.valid) ==> (r matches Err(
                    CheckerError::Invalid(n, i),
                ) && n@ == s0.identifier@ && i == s0.id)
                &&& (assignable(old(vars).vars@[var.0 as int]) && s0.valid
                    && s0.status is Uninitialized) ==> (r matches Err(
                    CheckerError::Uninitialized(n, i),
                ) && n@ == s0.identifier@ && i == s0.id)
                &&& (assignable(old(vars).vars@[var.0 as int]) && s0.valid && s0.status is Moved)
                    ==> (r matches Err(CheckerError::Moved(n, i)) && n@ == s0.identifier@ && i
                    == s0.id)
                &&& (r is Ok && s0.is_copy ==> (forall|i: int|
                    0 <= i < old(vars).vars@.len() && i != var.0 ==> #[trigger] final(vars).vars@[i]
                        == old(vars).vars@[i]))
            }),
    {
        let nlen = vars.vars.len();
        match vars.vars[var.0].assert_assignable() {
            Err(e) => {
                return Err(e);
            },
            Ok(()) => {},
        }
        let ghost alias0 = old(vars).alias_ok();
        proof {
            if alias0 {
                lemma_alias_inv_weaken(old(vars).vars@, var.0 as int);
            }
        }
        invalidate_borrowers(vars, var, Ghost(var.0 as int));
        let ghost mid = *vars;
        vars.vars[var.0].status = VarStatus::Initialized;
        vars.vars[var.0].valid = true;
        vars.vars[var.0].borrows = Vec::new();
        proof {
            let vs = vars.vars@;
            let vsm = mid.vars@;
            let vs0 = old(vars).vars@;
            let vi = var.0 as int;
            assert(vars.var_ok(vs[var.0 as int])) by {
                assert(mid.var_ok(vsm[var.0 as int]));
                assert(status_borrowers(vs[var.0 as int].status) =~= Seq::<VarId>::empty());
                assert(vs[var.0 as int].borrows@.len() == 0);
                assert(!borrows_var(vs[var.0 as int], vs[var.0 as int].id));
            }
            lemma_wf_one_record_update(mid, *vars, var.0 as int);
            if alias0 {
                assert forall|b: int, tt: int|
                    0 <= b < vs.len() && 0 <= tt < vs.len() && b != vi && vs[b].valid
                        && #[trigger] borrows_var(vs[b], VarId(tt as usize)) implies
                    status_borrowers(vs[tt].status).contains(VarId(b as usize)) by {
                    assert(vs[b].borrows == vsm[b].borrows);
                    assert(borrows_var(vsm[b], VarId(tt as usize)));
                    assert(vsm[b].valid);
                    assert(status_borrowers(vsm[tt].status).contains(VarId(b as usize)));
                    if tt == vi {
                        assert(vsm[tt].status == vs0[tt].status);
                        assert(status_borrowers(vs0[vi].status).contains(VarId(b as usize)));
                        assert(vsm[b].borrows == vs0[b].borrows);
                        assert(b < nlen);
                        assert((VarId(b as usize)).0 as int == b);
                        assert(borrows_var(vs0[(VarId(b as usize)).0 as int], var)) by {
                            assert(VarId(tt as usize) == var);
                            assert(vs0[(VarId(b as usize)).0 as int] == vs0[b]);
                        }
                        assert(!vsm[(VarId(b as usize)).0 as int].valid);
                        assert(false);
                    } else {
                        assert(vs[tt].status == vsm[tt].status);
                    }
                }
                assert forall|b: int, tt: int|
                    0 <= b < vs.len() && 0 <= tt < vs.len() && b != vi && #[trigger] borrows_var(
                        vs[b],
                        VarId(tt as usize),
                    ) && !vs[tt].valid implies !vs[b].valid by {
                    assert(vs[b].borrows == vsm[b].borrows);
                    assert(borrows_var(vsm[b], VarId(tt as usize)));
                    assert(tt != vi ==> vs[tt].valid == vsm[tt].valid);
                    assert(vs[vi].valid);
                    assert(vs[b].valid == vsm[b].valid);
                }
            }
        }
        let ghost pre_m = *vars;
        let moved = match Var::transition_moved(vars, value_source, Ghost(var.0 as int)) {
            Err(e) => {
                proof {
                    if status_borrowers(old(vars).vars@[var.0 as int].status).len() == 0 {
                        let si = value_source.0 as int;
                        assert(mid.vars@[si].valid == old(vars).vars@[si].valid);
                        assert(pre_m.vars@[si].valid == mid.vars@[si].valid);
                        assert(pre_m.vars@[si].status == old(vars).vars@[si].status);
                        assert(pre_m.vars@[si].identifier == old(vars).vars@[si].identifier);
                        assert(pre_m.vars@[si].id == old(vars).vars@[si].id);
                        assert(!usable(old(vars).vars@[si]));
                    }
                }
                return Err(e);
            },
            Ok(bs) => bs,
        };
        let ghost pre_set = *vars;
        vars.vars[var.0].borrows = moved;
        proof {
            let vs = vars.vars@;
            let vsp = pre_set.vars@;
            let vs0 = old(vars).vars@;
            assert(vs[var.0 as int].borrows@ == vs0[value_source.0 as int].borrows@);
            assert(usable(vs0[value_source.0 as int])) by {
                assert(pre_m.vars@[value_source.0 as int].status == vs0[value_source.0 as int].status);
                assert(usable(pre_m.vars@[value_source.0 as int]));
            }
            // an admissible source that survived its move transition cannot
            // have borrowed the receiver: a recorded borrower was just
            // cascade-invalidated, an invalid one stayed invalid
            assert(!borrows_var(vs0[value_source.0 as int], var)) by {
                if borrows_var(vs0[value_source.0 as int], var) {
                    assert(usable(pre_m.vars@[value_source.0 as int]));
                    assert(pre_m.vars@[value_source.0 as int].valid == mid.vars@[value_source.0 as int].valid);
                    assert(mid.vars@[value_source.0 as int].valid);
                    if !vs0[value_source.0 as int].valid {
                        assert(false);
                    } else {
                        assert(status_borrowers(vs0[var.0 as int].status).contains(value_source));
                        assert(!mid.vars@[value_source.0 as int].valid);
                        assert(false);
                    }
                }
            }
            if status_borrowers(vs0[var.0 as int].status).len() == 0 && vs0[value_source.0 as int].borrows@.len()
                == 0 && status_borrowers(vs0[value_source.0 as int].status).len() == 0 {
                assert(forall|i: int|
                    0 <= i < vs0.len() && i != var.0 ==> (#[trigger] mid.vars@[i]).valid
                        == vs0[i].valid);
                assert(status_borrowers(pre_m.vars@[value_source.0 as int].status).len() == 0);
                assert(forall|i: int|
                    0 <= i < vs0.len() ==> (#[trigger] vsp[i]).valid == pre_m.vars@[i].valid);
                assert(vs[var.0 as int].valid);
                assert(forall|i: int|
                    0 <= i < vs0.len() && i != var.0 ==> (#[trigger] vs[i]).valid
                        == vs0[i].valid);
                assert forall|i: int|
                    0 <= i < vs0.len() && i != var.0 && i != value_source.0 implies #[trigger] vs[i]
                    == vs0[i] by {
                    assert(eq_except_valid(mid.vars@[i], vs0[i]));
                    assert(mid.vars@[i].valid == vs0[i].valid);
                    assert(mid.vars@[i] == vs0[i]);
                    assert(pre_m.vars@[i] == mid.vars@[i]);
                    assert(vsp[i].status == pre_m.vars@[i].status);
                    assert(vsp[i].borrows == pre_m.vars@[i].borrows);
                    assert(eq_frozen_fields(vsp[i], pre_m.vars@[i]));
                    assert(vsp[i].deref_var == pre_m.vars@[i].deref_var);
                    assert(vsp[i].valid == pre_m.vars@[i].valid);
                    assert(vsp[i] == pre_m.vars@[i]);
                    assert(vs[i] == vsp[i]);
                }
            }
            if alias0 {
                assert forall|b: int, tt: int|
                    0 <= b < vs.len() && 0 <= tt < vs.len() && b != var.0 && vs[b].valid
                        && #[trigger] borrows_var(vs[b], VarId(tt as usize)) implies
                    status_borrowers(vs[tt].status).contains(VarId(b as usize)) by {
                    assert(vs[b].borrows == vsp[b].borrows);
                    assert(borrows_var(vsp[b], VarId(tt as usize)));
                    assert(vs[tt].status == vsp[tt].status);
                }
                assert forall|b: int, tt: int|
                    0 <= b < vs.len() && 0 <= tt < vs.len() && b != var.0
                        && #[trigger] borrows_var(vs[b], VarId(tt as usize))
                        && !vs[tt].valid implies !vs[b].valid by {
                    assert(vs[b].borrows == vsp[b].borrows);
                    assert(borrows_var(vsp[b], VarId(tt as usize)));
                    assert(vs[tt].valid == vsp[tt].valid);
                    assert(vs[b].valid == vsp[b].valid);
                }
            }
            if !vs0[value_source.0 as int].is_copy {
                assert forall|b: VarId|
                    #[trigger] status_borrowers(vs0[value_source.0 as int].status).contains(b)
                        && b.0 != var.0 && borrows_var(
                        vs0[b.0 as int],
                        value_source,
                    ) implies !vs[b.0 as int].valid by {
                    assert(b.0 < vs0.len()) by {
                        let kk = choose|kk: int|
                            0 <= kk < status_borrowers(vs0[value_source.0 as int].status).len()
                                && status_borrowers(vs0[value_source.0 as int].status)[kk] == b;
                        assert(old(vars).var_ok(vs0[value_source.0 as int]));
                    }
                    assert(pre_m.vars@[value_source.0 as int].status == vs0[value_source.0 as int].status);
                    assert(pre_m.vars@[b.0 as int].borrows == vs0[b.0 as int].borrows);
                    assert(borrows_var(pre_m.vars@[b.0 as int], value_source));
                    assert(!vsp[b.0 as int].valid);
                }
            }
            assert(vars.var_ok(vs[var.0 as int])) by {
                assert(pre_set.var_ok(vsp[var.0 as int]));
                assert(old(vars).var_ok(vs0[value_source.0 as int]));
                let vi = var.0 as int;
                assert forall|kk: int|
                    0 <= kk < vs[vi].borrows@.len() implies (borrow_target(
                    #[trigger] vs[vi].borrows@[kk],
                )).0 < vs.len() && borrow_target(vs[vi].borrows@[kk]) != vs[vi].id by {
                    assert(vs[vi].borrows@[kk] == vs0[value_source.0 as int].borrows@[kk]);
                    assert((borrow_target(vs0[value_source.0 as int].borrows@[kk])).0
                        < vs.len());
                    if borrow_target(vs[vi].borrows@[kk]) == vs[vi].id {
                        assert(borrows_var(vs0[value_source.0 as int], var));
                    }
                }
                assert(!borrows_var(vs[vi], vs[vi].id));
                assert(vs[vi].status == vsp[vi].status);
            }
            lemma_wf_one_record_update(pre_set, *vars, var.0 as int);
        }
        let m = vars.vars[var.0].borrows.len();
        let mut k: usize = 0;
        while k < m
            invariant
                vars.wf(),
                k <= m,
                vars.vars@.len() == old(vars).vars@.len(),
                vars.void_literal == old(vars).void_literal,
                var.0 < vars.vars@.len(),
                value_source.0 < vars.vars@.len(),
                value_source.0 != var.0,
                old(vars).wf(),
                !borrows_var(old(vars).vars@[value_source.0 as int], var),
                assignable(old(vars).vars@[var.0 as int]),
                usable(old(vars).vars@[value_source.0 as int]),
                vars.vars@[var.0 as int].borrows@ == old(vars).vars@[value_source.0 as int].borrows@,
                m == vars.vars@[var.0 as int].borrows@.len(),
                vars.vars@[var.0 as int].status is Initialized,
                !old(vars).vars@[value_source.0 as int].is_copy ==> (forall|b: VarId|
                    #[trigger] status_borrowers(
                        old(vars).vars@[value_source.0 as int].status,
                    ).contains(b) && b.0 != var.0 && borrows_var(
                        old(vars).vars@[b.0 as int],
                        value_source,
                    ) ==> !vars.vars@[b.0 as int].valid),
                (status_borrowers(old(vars).vars@[var.0 as int].status).len() == 0 && old(vars).vars@[value_source.0 as int].borrows@.len()
                    == 0 && old(vars).vars@[value_source.0 as int].is_copy) ==> (forall|i: int|
                    0 <= i < old(vars).vars@.len() && i != var.0 ==> #[trigger] vars.vars@[i]
                        == old(vars).vars@[i]),
                forall|i: int|
                    0 <= i < old(vars).vars@.len() ==> (eq_frozen_fields(
                        #[trigger] vars.vars@[i],
                        old(vars).vars@[i],
                    ) && vars.vars@[i].deref_var == old(vars).vars@[i].deref_var),
                forall|i: int|
                    0 <= i < old(vars).vars@.len() && i != var.0 && i != value_source.0 ==> (
                    #[trigger] vars.vars@[i]).borrows == old(vars).vars@[i].borrows,
                forall|i: int|
                    0 <= i < old(vars).vars@.len() && i != var.0 ==> ((#[trigger] vars.vars@[i]).valid
                        ==> old(vars).vars@[i].valid),
                forall|i: int|
                    0 <= i < old(vars).vars@.len() && i != var.0 && i != value_source.0
                        && !borrows_var(old(vars).vars@[value_source.0 as int], VarId(i as usize))
                        ==> (#[trigger] vars.vars@[i]).status == old(vars).vars@[i].status,
                alias0 == old(vars).alias_ok(),
                nlen == old(vars).vars@.len(),
                alias0 ==> (no_dangling_alias_except(vars.vars@, var.0 as int)
                    && borrowers_registered_except(vars.vars@, var.0 as int)),
                (status_borrowers(old(vars).vars@[var.0 as int].status).len() == 0 && old(vars).vars@[value_source.0 as int].borrows@.len()
                    == 0 && status_borrowers(old(vars).vars@[value_source.0 as int].status).len()
                    == 0) ==> (vars.vars@[var.0 as int].valid && (forall|i: int|
                    0 <= i < old(vars).vars@.len() && i != var.0 ==> (#[trigger] vars.vars@[i]).valid
                        == old(vars).vars@[i].valid) && (forall|i: int|
                    0 <= i < old(vars).vars@.len() && i != var.0 && i != value_source.0
                        ==> #[trigger] vars.vars@[i] == old(vars).vars@[i])),
                old(vars).vars@[value_source.0 as int].is_copy ==> vars.vars@[value_source.0 as int].status
                    == old(vars).vars@[value_source.0 as int].status,
                !old(vars).vars@[value_source.0 as int].is_copy ==> (
                vars.vars@[value_source.0 as int].status is Moved
                    && vars.vars@[value_source.0 as int].borrows@.len() == 0),
                forall|j: int|
                    0 <= j < k ==> status_borrowers(
                        vars.vars@[(borrow_target(
                            #[trigger] old(vars).vars@[value_source.0 as int].borrows@[j],
                        )).0 as int].status,
                    ).contains(var),
            decreases m - k,
        {
            let edge = vars.vars[var.0].borrows[k];
            proof {
                assert(old(vars).var_ok(old(vars).vars@[value_source.0 as int]));
                assert(edge == old(vars).vars@[value_source.0 as int].borrows@[k as int]);
                if (borrow_target(edge)).0 == var.0 {
                    assert(borrows_var(old(vars).vars@[value_source.0 as int], var));
                }
                if (borrow_target(edge)).0 == value_source.0 {
                    assert(borrows_var(old(vars).vars@[value_source.0 as int], value_source));
                    assert(old(vars).vars@[value_source.0 as int].id == value_source);
                }
            }
            let ghost vb = *vars;
            let tr = match edge {
                Borrow::Mutable(tg) => Var::transition_mut_borrowed(
                    vars,
                    tg,
                    var,
                    Ghost(var.0 as int),
                ),
                Borrow::Immutable(tg) => Var::transition_borrowed(
                    vars,
                    tg,
                    var,
                    Ghost(var.0 as int),
                ),
            };
            match tr {
                Err(e) => {
                    return Err(e);
                },
                Ok(()) => {},
            }
            proof {
                let tg = borrow_target(edge);
                let sbf = status_borrowers(vars.vars@[tg.0 as int].status);
                match edge {
                    Borrow::Mutable(_) => {
                        assert(sbf =~= seq![var]);
                        assert(sbf[0] == var);
                    },
                    Borrow::Immutable(_) => {
                        match vb.vars@[tg.0 as int].status {
                            VarStatus::Initialized => {
                                assert(sbf =~= seq![var]);
                                assert(sbf[0] == var);
                            },
                            VarStatus::Borrowed(l) => {
                                assert(sbf =~= l@.push(var));
                                assert(sbf[sbf.len() - 1] == var);
                            },
                            VarStatus::MutBorrowed(_) => {
                                assert(sbf =~= seq![var]);
                                assert(sbf[0] == var);
                            },
                            _ => {
                                assert(usable(vb.vars@[tg.0 as int]));
                                assert(false);
                            },
                        }
                    },
                }
                assert(sbf.contains(var));
                assert forall|j: int|
                    0 <= j < k + 1 implies status_borrowers(
                        vars.vars@[(borrow_target(
                            #[trigger] old(vars).vars@[value_source.0 as int].borrows@[j],
                        )).0 as int].status,
                    ).contains(var) by {
                    let tj = borrow_target(old(vars).vars@[value_source.0 as int].borrows@[j]);
                    if j < k && tj.0 != tg.0 {
                        assert(vars.vars@[tj.0 as int].status == vb.vars@[tj.0 as int].status);
                    }
                }
                if old(vars).vars@[value_source.0 as int].is_copy {
                    if tg.0 == value_source.0 {
                        assert(borrows_var(old(vars).vars@[value_source.0 as int], value_source));
                    }
                    assert(vars.vars@[value_source.0 as int].status == vb.vars@[value_source.0 as int].status);
                }
                if alias0 {
                    assert(no_dangling_alias_except(vars.vars@, var.0 as int)
                        && borrowers_registered_except(vars.vars@, var.0 as int));
                }
            }
            k += 1;
        }
        proof {
            if alias0 {
                let vsf = vars.vars@;
                let vi = var.0 as int;
                let vs0 = old(vars).vars@;
                let s0edges = vs0[value_source.0 as int].borrows@;
                assert(vsf[vi].borrows@ == s0edges);
                assert forall|b: int, tt: int|
                    0 <= b < vsf.len() && 0 <= tt < vsf.len() && b != -1 && vsf[b].valid
                        && #[trigger] borrows_var(vsf[b], VarId(tt as usize)) implies
                    status_borrowers(vsf[tt].status).contains(VarId(b as usize)) by {
                    if b == vi {
                        let kk = choose|kk: int|
                            0 <= kk < vsf[vi].borrows@.len() && borrow_target(
                                vsf[vi].borrows@[kk],
                            ) == VarId(tt as usize);
                        assert(vsf[vi].borrows@[kk] == s0edges[kk]);
                        assert(borrow_target(s0edges[kk]) == VarId(tt as usize));
                        assert(status_borrowers(
                            vsf[(borrow_target(s0edges[kk])).0 as int].status,
                        ).contains(var));
                        assert(tt < nlen);
                        assert((borrow_target(s0edges[kk])).0 as int == tt);
                        assert(VarId(b as usize) == var);
                    }
                }
                if forall|k2: int|
                    0 <= k2 < s0edges.len() ==> vsf[(borrow_target(
                        #[trigger] s0edges[k2],
                    )).0 as int].valid {
                    assert forall|b: int, tt: int|
                        0 <= b < vsf.len() && 0 <= tt < vsf.len() && b != -1
                            && #[trigger] borrows_var(vsf[b], VarId(tt as usize))
                            && !vsf[tt].valid implies !vsf[b].valid by {
                        if b == vi {
                            let kk = choose|kk: int|
                                0 <= kk < vsf[vi].borrows@.len() && borrow_target(
                                    vsf[vi].borrows@[kk],
                                ) == VarId(tt as usize);
                            assert(vsf[vi].borrows@[kk] == s0edges[kk]);
                            assert(borrow_target(s0edges[kk]) == VarId(tt as usize));
                            assert(tt < nlen);
                            assert((borrow_target(s0edges[kk])).0 as int == tt);
                            assert(vsf[(borrow_target(s0edges[kk])).0 as int].valid);
                            assert(false);
                        }
                    }
                }
            }
        }
        Ok(())
    }
}

/// The concatenation of the borrow-edge lists of the first `k` sources, in
/// order: the edges a receiver takes over when initialized from them.
pub open spec fn moved_edges(vs: Seq<Var>, sources: Seq<VarId>, k: int) -> Seq<Borrow>
    decreases k,
{
    if k <= 0 {
        Seq::<Borrow>::empty()
    } else {
        moved_edges(vs, sources, k - 1) + vs[sources[k - 1].0 as int].borrows@
    }
}

impl Var {
    /// Initializes `var` from one or more sources: an ordinary move or copy
    /// assignment, or the merge of a value out of several mutually
    /// exclusive control-flow branches.
    ///
    /// The receiver must be assignable; its previous borrowers are
    /// cascade-invalidated; it becomes `Initialized`; every source goes
    /// through its move transition, the surrendered borrow edges are
    /// collected into the receiver's own edge list, and every variable those
    /// edges target is told that `var` now borrows it. A failure in any step
    /// aborts the operation without rollback.
    pub fn initialize_with_values(vars: &mut Vars, var: VarId, value_sources: &Vec<VarId>) -> (r:
        CheckerResult)
        requires
            old(vars).wf(),
            var.0 < old(vars).vars@.len(),
            value_sources@.len() > 0,
            forall|j: int|
                0 <= j < value_sources@.len() ==> (#[trigger] value_sources@[j]).0 < old(vars).vars@.len() && value_source_admissible(
                    old(vars).vars@,
                    var,
                    value_sources@[j],
                ),
        ensures
            final(vars).wf(),
            final(vars).void_literal == old(vars).void_literal,
            final(vars).vars@.len() == old(vars).vars@.len(),
            forall|i: int|
                0 <= i < old(vars).vars@.len() ==> (eq_frozen_fields(
                    #[trigger] final(vars).vars@[i],
                    old(vars).vars@[i],
                ) && final(vars).vars@[i].deref_var == old(vars).vars@[i].deref_var),
            forall|i: int|
                0 <= i < old(vars).vars@.len() && i != var.0 ==> ((#[trigger] final(vars).vars@[i]).valid
                    ==> old(vars).vars@[i].valid),
            forall|i: int|
                0 <= i < old(vars).vars@.len() && i != var.0 && !value_sources@.contains(
                    VarId(i as usize),
                ) ==> (#[trigger] final(vars).vars@[i]).borrows == old(vars).vars@[i].borrows,
            (r matches Err(CheckerError::ImmutableAssigned(n, i))) <==> !assignable(
                old(vars).vars@[var.0 as int],
            ),
            r matches Err(e) ==> is_state_machine_error(e),
            !assignable(old(vars).vars@[var.0 as int]) ==> (*final(vars) == *old(vars) && (
            r matches Err(CheckerError::ImmutableAssigned(n, i)) && n@ == old(vars).vars@[var.0 as int].identifier@
                && i == old(vars).vars@[var.0 as int].id)),
            (old(vars).alias_ok() && r is Ok) ==> ({
                &&& borrowers_registered(final(vars).vars@)
                &&& no_dangling_alias_except(final(vars).vars@, var.0 as int)
                &&& ((forall|k: int|
                    0 <= k < final(vars).vars@[var.0 as int].borrows@.len() ==> final(vars).vars@[(borrow_target(
                        #[trigger] final(vars).vars@[var.0 as int].borrows@[k],
                    )).0 as int].valid) ==> no_dangling_alias(final(vars).vars@))
            }),
            cascade_free_values(old(vars).vars@, var, value_sources@) ==> ({
                let vs0 = old(vars).vars@;
                &&& (r is Ok <==> (assignable(vs0[var.0 as int]) && (forall|j: int|
                    0 <= j < value_sources@.len() ==> usable(
                        vs0[(#[trigger] value_sources@[j]).0 as int],
                    ))))
                &&& (r is Ok ==> (final(vars).vars@[var.0 as int].valid && final(vars).vars@[var.0 as int].borrows@.len()
                    == 0 && (forall|i: int|
                    0 <= i < vs0.len() && i != var.0 ==> (#[trigger] final(vars).vars@[i]).valid
                        == vs0[i].valid)))
                &&& ((assignable(vs0[var.0 as int]) && !(forall|j: int|
                    0 <= j < value_sources@.len() ==> usable(
                        vs0[(#[trigger] value_sources@[j]).0 as int],
                    ))) ==> (r matches Err(e) && exists|k: int|
                    0 <= k < value_sources@.len() && (forall|j: int|
                        0 <= j < k ==> usable(vs0[(#[trigger] value_sources@[j]).0 as int]))
                        && !usable(vs0[(#[trigger] value_sources@[k]).0 as int])
                        && matches_usable_error(e, vs0[value_sources@[k].0 as int])))
            }),
            r is Ok ==> ({
                &&& final(vars).vars@[var.0 as int].status is Initialized
                &&& final(vars).vars@[var.0 as int].borrows@ == moved_edges(
                    old(vars).vars@,
                    value_sources@,
                    value_sources@.len() as int,
                )
                &&& forall|j: int|
                    0 <= j < value_sources@.len() && !old(vars).vars@[(#[trigger] value_sources@[j]).0 as int].is_copy
                        ==> (final(vars).vars@[value_sources@[j].0 as int].status is Moved && final(vars).vars@[value_sources@[j].0 as int].borrows@.len() == 0)
                &&& forall|j: int|
                    0 <= j < value_sources@.len() && old(vars).vars@[(#[trigger] value_sources@[j]).0 as int].is_copy
                        ==> !(final(vars).vars@[value_sources@[j].0 as int].status is Moved)
                &&& forall|k: int|
                    0 <= k < final(vars).vars@[var.0 as int].borrows@.len()
                        ==> status_borrowers(
                        final(vars).vars@[(borrow_target(
                            #[trigger] final(vars).vars@[var.0 as int].borrows@[k],
                        )).0 as int].status,
                    ).contains(var)
            }),
    {
        let nlen = vars.vars.len();
        match vars.vars[var.0].assert_assignable() {
            Err(e) => {
                return Err(e);
            },
            Ok(()) => {},
        }
        let ghost alias0 = old(vars).alias_ok();
        let ghost hv = cascade_free_values(old(vars).vars@, var, value_sources@);
        proof {
            if alias0 {
                lemma_alias_inv_weaken(old(vars).vars@, var.0 as int);
            }
        }
        invalidate_borrowers(vars, var, Ghost(var.0 as int));
        let ghost mid = *vars;
        vars.vars[var.0].status = VarStatus::Initialized;
        vars.vars[var.0].valid = true;
        vars.vars[var.0].borrows = Vec::new();
        proof {
            let vs = vars.vars@;
            let vsm = mid.vars@;
            let vs0 = old(vars).vars@;
            let vi = var.0 as int;
            assert(vars.var_ok(vs[var.0 as int])) by {
                assert(mid.var_ok(vsm[var.0 as int]));
                assert(status_borrowers(vs[var.0 as int].status) =~= Seq::<VarId>::empty());
                assert(vs[var.0 as int].borrows@.len() == 0);
                assert(!borrows_var(vs[var.0 as int], vs[var.0 as int].id));
            }
            lemma_wf_one_record_update(mid, *vars, var.0 as int);
            assert(vars.vars@[var.0 as int].borrows@ =~= moved_edges(
                old(vars).vars@,
                value_sources@,
                0,
            ));
            if hv {
                assert(forall|i: int|
                    0 <= i < vs0.len() && i != vi ==> (#[trigger] vsm[i]).valid == vs0[i].valid);
                assert forall|i: int| 0 <= i < vs0.len() && i != vi implies #[trigger] vs[i]
                    == vs0[i] by {
                    assert(eq_except_valid(vsm[i], vs0[i]));
                    assert(vsm[i].valid == vs0[i].valid);
                    assert(vsm[i] == vs0[i]);
                    assert(vs[i] == vsm[i]);
                }
                assert(vs[vi].valid);
            }
            if alias0 {
                assert forall|b: int, tt: int|
                    0 <= b < vs.len() && 0 <= tt < vs.len() && b != vi && vs[b].valid
                        && #[trigger] borrows_var(vs[b], VarId(tt as usize)) implies
                    status_borrowers(vs[tt].status).contains(VarId(b as usize)) by {
                    assert(vs[b].borrows == vsm[b].borrows);
                    assert(borrows_var(vsm[b], VarId(tt as usize)));
                    assert(vsm[b].valid);
                    assert(status_borrowers(vsm[tt].status).contains(VarId(b as usize)));
                    if tt == vi {
                        assert(vsm[tt].status == vs0[tt].status);
                        assert(status_borrowers(vs0[vi].status).contains(VarId(b as usize)));
                        assert(vsm[b].borrows == vs0[b].borrows);
                        assert(b < nlen);
                        assert((VarId(b as usize)).0 as int == b);
                        assert(borrows_var(vs0[(VarId(b as usize)).0 as int], var)) by {
                            assert(VarId(tt as usize) == var);
                            assert(vs0[(VarId(b as usize)).0 as int] == vs0[b]);
                        }
                        assert(!vsm[(VarId(b as usize)).0 as int].valid);
                        assert(false);
                    } else {
                        assert(vs[tt].status == vsm[tt].status);
                    }
                }
                assert forall|b: int, tt: int|
                    0 <= b < vs.len() && 0 <= tt < vs.len() && b != vi && #[trigger] borrows_var(
                        vs[b],
                        VarId(tt as usize),
                    ) && !vs[tt].valid implies !vs[b].valid by {
                    assert(vs[b].borrows == vsm[b].borrows);
                    assert(borrows_var(vsm[b], VarId(tt as usize)));
                    assert(tt != vi ==> vs[tt].valid == vsm[tt].valid);
                    assert(vs[vi].valid);
                    assert(vs[b].valid == vsm[b].valid);
                }
            }
        }
        let mut j: usize = 0;
        while j < value_sources.len()
            invariant
                vars.wf(),
                old(vars).wf(),
                j <= value_sources@.len(),
                vars.vars@.len() == old(vars).vars@.len(),
                vars.void_literal == old(vars).void_literal,
                var.0 < vars.vars@.len(),
                assignable(old(vars).vars@[var.0 as int]),
                forall|jj: int|
                    0 <= jj < value_sources@.len() ==> (#[trigger] value_sources@[jj]).0 < old(vars).vars@.len() && value_source_admissible(
                        old(vars).vars@,
                        var,
                        value_sources@[jj],
                    ),
                forall|i: int|
                    0 <= i < old(vars).vars@.len() && i != var.0 ==> ((#[trigger] vars.vars@[i]).valid
                        ==> mid.vars@[i].valid),
                forall|b: VarId|
                    #[trigger] status_borrowers(old(vars).vars@[var.0 as int].status).contains(b)
                        && borrows_var(old(vars).vars@[b.0 as int], var) ==> !mid.vars@[b.0 as int].valid,
                forall|i: int|
                    0 <= i < old(vars).vars@.len() ==> (eq_frozen_fields(
                        #[trigger] vars.vars@[i],
                        old(vars).vars@[i],
                    ) && vars.vars@[i].deref_var == old(vars).vars@[i].deref_var),
                forall|i: int|
                    0 <= i < old(vars).vars@.len() && i != var.0 ==> ((#[trigger] vars.vars@[i]).valid
                        ==> old(vars).vars@[i].valid),
                forall|i: int|
                    0 <= i < old(vars).vars@.len() && i != var.0 ==> ((#[trigger] vars.vars@[i]).borrows
                        == old(vars).vars@[i].borrows || vars.vars@[i].status is Moved),
                forall|i: int|
                    0 <= i < old(vars).vars@.len() && i != var.0 && !value_sources@.contains(
                        VarId(i as usize),
                    ) ==> (#[trigger] vars.vars@[i]).borrows == old(vars).vars@[i].borrows,
                forall|i: int|
                    0 <= i < old(vars).vars@.len() && i != var.0 && (#[trigger] vars.vars@[i]).status is Moved
                        ==> (!old(vars).vars@[i].is_copy || old(vars).vars@[i].status is Moved),
                forall|i: int|
                    0 <= i < old(vars).vars@.len() && i != var.0 ==> ((#[trigger] vars.vars@[i]).status
                        == old(vars).vars@[i].status || vars.vars@[i].status is Moved),
                forall|jj: int|
                    0 <= jj < j ==> !(old(vars).vars@[(#[trigger] value_sources@[jj]).0 as int].status is Moved),
                vars.vars@[var.0 as int].status is Initialized,
                alias0 == old(vars).alias_ok(),
                nlen == old(vars).vars@.len(),
                alias0 ==> (no_dangling_alias_except(vars.vars@, var.0 as int)
                    && borrowers_registered_except(vars.vars@, var.0 as int)),
                hv == cascade_free_values(old(vars).vars@, var, value_sources@),
                hv ==> (vars.vars@[var.0 as int].valid && vars.vars@[var.0 as int].borrows@.len()
                    == 0 && (forall|i: int|
                    0 <= i < old(vars).vars@.len() && i != var.0 ==> (#[trigger] vars.vars@[i]).valid
                        == old(vars).vars@[i].valid) && (forall|jj: int|
                    0 <= jj < j ==> usable(
                        old(vars).vars@[(#[trigger] value_sources@[jj]).0 as int],
                    )) && (forall|i: int|
                    0 <= i < old(vars).vars@.len() && i != var.0 && (forall|jj: int|
                        0 <= jj < j ==> (#[trigger] value_sources@[jj]).0 != i)
                        ==> #[trigger] vars.vars@[i] == old(vars).vars@[i])),
                vars.vars@[var.0 as int].borrows@ == moved_edges(
                    old(vars).vars@,
                    value_sources@,
                    j as int,
                ),
                forall|jj: int|
                    0 <= jj < j && !old(vars).vars@[(#[trigger] value_sources@[jj]).0 as int].is_copy
                        ==> (vars.vars@[value_sources@[jj].0 as int].status is Moved
                        && vars.vars@[value_sources@[jj].0 as int].borrows@.len() == 0),
            decreases value_sources@.len() - j,
        {
            let s = value_sources[j];
            let ghost va = *vars;
            let moved = match Var::transition_moved(vars, s, Ghost(var.0 as int)) {
                Err(e) => {
                    proof {
                        if hv {
                            let vs0 = old(vars).vars@;
                            assert(forall|jj: int|
                                0 <= jj < j ==> (#[trigger] value_sources@[jj]).0 != s.0);
                            assert(va.vars@[s.0 as int] == vs0[s.0 as int]);
                            assert(!usable(vs0[s.0 as int]));
                            assert(matches_usable_error(e, vs0[s.0 as int]));
                            assert(value_sources@[j as int] == s);
                            assert(0 <= j < value_sources@.len() && (forall|jj: int|
                                0 <= jj < j ==> usable(
                                    vs0[(#[trigger] value_sources@[jj]).0 as int],
                                )) && !usable(vs0[(value_sources@[j as int]).0 as int])
                                && matches_usable_error(
                                e,
                                vs0[(value_sources@[j as int]).0 as int],
                            ));
                        }
                    }
                    return Err(e);
                },
                Ok(bs) => bs,
            };
            proof {
                assert(usable(va.vars@[s.0 as int]));
                assert(!(va.vars@[s.0 as int].status is Moved));
                assert(va.vars@[s.0 as int].status == old(vars).vars@[s.0 as int].status);
                assert(!(old(vars).vars@[s.0 as int].status is Moved));
                assert(va.vars@[s.0 as int].borrows == old(vars).vars@[s.0 as int].borrows);
                assert(moved@ == old(vars).vars@[s.0 as int].borrows@);
                // an admissible source that survived its move transition
                // cannot have borrowed the receiver: a recorded borrower
                // was cascade-invalidated, an invalid one stayed invalid
                assert(!borrows_var(old(vars).vars@[s.0 as int], var)) by {
                    let vs0 = old(vars).vars@;
                    if borrows_var(vs0[s.0 as int], var) {
                        assert(va.vars@[s.0 as int].valid);
                        assert(mid.vars@[s.0 as int].valid);
                        if !vs0[s.0 as int].valid {
                            assert(vs0[s.0 as int].valid);
                            assert(false);
                        } else {
                            assert(value_source_admissible(vs0, var, s));
                            assert(status_borrowers(vs0[var.0 as int].status).contains(s));
                            assert(!mid.vars@[s.0 as int].valid);
                            assert(false);
                        }
                    }
                }
            }
            let ghost vb = *vars;
            let mut moved = moved;
            let mut receiver_edges: Vec<Borrow> = Vec::new();
            core::mem::swap(&mut receiver_edges, &mut vars.vars[var.0].borrows);
            receiver_edges.append(&mut moved);
            let ghost vc = *vars;
            vars.vars[var.0].borrows = receiver_edges;
            proof {
                let vs = vars.vars@;
                let vs0 = old(vars).vars@;
                assert(vs[var.0 as int].borrows@ == vb.vars@[var.0 as int].borrows@ + vs0[s.0 as int].borrows@);
                assert(vs[var.0 as int].borrows@ == moved_edges(vs0, value_sources@, j + 1));
                assert forall|i: int| 0 <= i < vs.len() implies vars.var_ok(#[trigger] vs[i]) by {
                    assert(vc.var_ok(vc.vars@[i]));
                    if i != var.0 {
                        assert(vs[i] == vc.vars@[i]);
                    } else {
                        assert forall|kk: int|
                            0 <= kk < vs[i].borrows@.len() implies (borrow_target(
                            #[trigger] vs[i].borrows@[kk],
                        )).0 < vs.len() && borrow_target(vs[i].borrows@[kk]) != vs[i].id by {
                            if kk < vb.vars@[var.0 as int].borrows@.len() {
                                assert(vs[i].borrows@[kk] == vb.vars@[var.0 as int].borrows@[kk]);
                                assert(vb.var_ok(vb.vars@[var.0 as int]));
                                assert(!borrows_var(vb.vars@[var.0 as int], vb.vars@[var.0 as int].id));
                            } else {
                                let kx = kk - vb.vars@[var.0 as int].borrows@.len();
                                assert(vs[i].borrows@[kk] == vs0[s.0 as int].borrows@[kx]);
                                assert(old(vars).var_ok(vs0[s.0 as int]));
                                if borrow_target(vs[i].borrows@[kk]) == vs[i].id {
                                    assert(borrows_var(vs0[s.0 as int], var));
                                }
                            }
                        }
                        assert(!borrows_var(vs[i], vs[i].id));
                        assert(vs[i].status == vc.vars@[i].status);
                    }
                }
                assert forall|i: int| 0 <= i < vs.len() implies (#[trigger] vs[i]).id == VarId(
                    i as usize,
                ) && ((vs[i]).deref_var matches Some(d) ==> vs[d.0 as int].parent == Some(
                    VarId(i as usize),
                )) by {
                    assert(vc.vars@[i].id == VarId(i as usize));
                    assert(vs[i].deref_var == vc.vars@[i].deref_var);
                    if vc.vars@[i].deref_var is Some {
                        let d = vc.vars@[i].deref_var->Some_0;
                        assert(vc.var_ok(vc.vars@[i]));
                        assert(vc.vars@[d.0 as int].parent == Some(VarId(i as usize)));
                        assert(vs[d.0 as int].parent == vc.vars@[d.0 as int].parent);
                    }
                }
                assert forall|jj: int|
                    0 <= jj < j + 1 && !vs0[(#[trigger] value_sources@[jj]).0 as int].is_copy implies (
                    vs[value_sources@[jj].0 as int].status is Moved
                        && vs[value_sources@[jj].0 as int].borrows@.len() == 0) by {
                    if jj < j {
                        assert(vb.vars@[value_sources@[jj].0 as int].status is Moved);
                        if value_sources@[jj].0 == s.0 {
                            assert(false);
                        }
                    }
                }
                if alias0 {
                    assert(no_dangling_alias_except(vb.vars@, var.0 as int)
                        && borrowers_registered_except(vb.vars@, var.0 as int));
                    assert forall|b: int, tt: int|
                        0 <= b < vs.len() && 0 <= tt < vs.len() && b != var.0 && vs[b].valid
                            && #[trigger] borrows_var(vs[b], VarId(tt as usize)) implies
                        status_borrowers(vs[tt].status).contains(VarId(b as usize)) by {
                        assert(vs[b].borrows == vb.vars@[b].borrows);
                        assert(borrows_var(vb.vars@[b], VarId(tt as usize)));
                        assert(vs[tt].status == vb.vars@[tt].status);
                    }
                    assert forall|b: int, tt: int|
                        0 <= b < vs.len() && 0 <= tt < vs.len() && b != var.0
                            && #[trigger] borrows_var(vs[b], VarId(tt as usize))
                            && !vs[tt].valid implies !vs[b].valid by {
                        assert(vs[b].borrows == vb.vars@[b].borrows);
                        assert(borrows_var(vb.vars@[b], VarId(tt as usize)));
                        assert(vs[tt].valid == vb.vars@[tt].valid);
                        assert(vs[b].valid == vb.vars@[b].valid);
                    }
                }
                if hv {
                    assert(forall|jj: int|
                        0 <= jj < j ==> (#[trigger] value_sources@[jj]).0 != s.0);
                    assert(va.vars@[s.0 as int] == vs0[s.0 as int]);
                    assert(status_borrowers(va.vars@[s.0 as int].status).len() == 0);
                    assert(forall|i: int|
                        0 <= i < vs0.len() ==> (#[trigger] vb.vars@[i]).valid
                            == va.vars@[i].valid);
                    assert(forall|i: int|
                        0 <= i < vs0.len() && i != var.0 ==> (#[trigger] vs[i]).valid
                            == vs0[i].valid);
                    assert(vs[var.0 as int].valid);
                    assert(usable(vs0[s.0 as int]));
                    assert(vs[var.0 as int].borrows@.len() == 0);
                    assert forall|i: int|
                        0 <= i < vs0.len() && i != var.0 && (forall|jj: int|
                            0 <= jj < j + 1 ==> (#[trigger] value_sources@[jj]).0 != i) implies
                        #[trigger] vs[i] == vs0[i] by {
                        assert(value_sources@[j as int].0 != i);
                        assert(s.0 != i);
                        assert(va.vars@[i] == vs0[i]);
                        assert(vb.vars@[i].status == va.vars@[i].status);
                        assert(vb.vars@[i].borrows == va.vars@[i].borrows);
                        assert(eq_frozen_fields(vb.vars@[i], va.vars@[i]));
                        assert(vb.vars@[i].deref_var == va.vars@[i].deref_var);
                        assert(vb.vars@[i].valid == va.vars@[i].valid);
                        assert(vb.vars@[i] == va.vars@[i]);
                        assert(vs[i] == vb.vars@[i]);
                    }
                }
            }
            j += 1;
        }
        let m = vars.vars[var.0].borrows.len();
        let mut k: usize = 0;
        while k < m
            invariant
                vars.wf(),
                old(vars).wf(),
                k <= m,
                vars.vars@.len() == old(vars).vars@.len(),
                vars.void_literal == old(vars).void_literal,
                var.0 < vars.vars@.len(),
                assignable(old(vars).vars@[var.0 as int]),
                m == vars.vars@[var.0 as int].borrows@.len(),
                vars.vars@[var.0 as int].status is Initialized,
                forall|jj: int|
                    0 <= jj < value_sources@.len() ==> (#[trigger] value_sources@[jj]).0 < old(
                        vars,
                    ).vars@.len() && value_sources@[jj].0 != var.0 && !(old(vars).vars@[value_sources@[jj].0 as int].status is Moved),
                vars.vars@[var.0 as int].borrows@ == moved_edges(
                    old(vars).vars@,
                    value_sources@,
                    value_sources@.len() as int,
                ),
                forall|i: int|
                    0 <= i < old(vars).vars@.len() ==> (eq_frozen_fields(
                        #[trigger] vars.vars@[i],
                        old(vars).vars@[i],
                    ) && vars.vars@[i].deref_var == old(vars).vars@[i].deref_var),
                forall|i: int|
                    0 <= i < old(vars).vars@.len() && i != var.0 ==> ((#[trigger] vars.vars@[i]).valid
                        ==> old(vars).vars@[i].valid),
                forall|i: int|
                    0 <= i < old(vars).vars@.len() && i != var.0 && (#[trigger] vars.vars@[i]).status is Moved
                        ==> (!old(vars).vars@[i].is_copy || old(vars).vars@[i].status is Moved),
                forall|jj: int|
                    0 <= jj < value_sources@.len() && !old(vars).vars@[(#[trigger] value_sources@[jj]).0 as int].is_copy
                        ==> (vars.vars@[value_sources@[jj].0 as int].status is Moved
                        && vars.vars@[value_sources@[jj].0 as int].borrows@.len() == 0),
                alias0 == old(vars).alias_ok(),
                nlen == old(vars).vars@.len(),
                alias0 ==> (no_dangling_alias_except(vars.vars@, var.0 as int)
                    && borrowers_registered_except(vars.vars@, var.0 as int)),
                forall|i: int|
                    0 <= i < old(vars).vars@.len() && i != var.0 && !value_sources@.contains(
                        VarId(i as usize),
                    ) ==> (#[trigger] vars.vars@[i]).borrows == old(vars).vars@[i].borrows,
                hv == cascade_free_values(old(vars).vars@, var, value_sources@),
                hv ==> (m == 0 && vars.vars@[var.0 as int].valid && (forall|i: int|
                    0 <= i < old(vars).vars@.len() && i != var.0 ==> (#[trigger] vars.vars@[i]).valid
                        == old(vars).vars@[i].valid) && (forall|jj: int|
                    0 <= jj < value_sources@.len() ==> usable(
                        old(vars).vars@[(#[trigger] value_sources@[jj]).0 as int],
                    ))),
                forall|kk: int|
                    0 <= kk < k ==> status_borrowers(
                        vars.vars@[(borrow_target(
                            #[trigger] vars.vars@[var.0 as int].borrows@[kk],
                        )).0 as int].status,
                    ).contains(var),
            decreases m - k,
        {
            let edge = vars.vars[var.0].borrows[k];
            proof {
                assert(vars.var_ok(vars.vars@[var.0 as int]));
                if (borrow_target(edge)).0 == var.0 {
                    assert(borrows_var(vars.vars@[var.0 as int], vars.vars@[var.0 as int].id));
                }
            }
            let ghost vb = *vars;
            let tr = match edge {
                Borrow::Mutable(tg) => Var::transition_mut_borrowed(
                    vars,
                    tg,
                    var,
                    Ghost(var.0 as int),
                ),
                Borrow::Immutable(tg) => Var::transition_borrowed(
                    vars,
                    tg,
                    var,
                    Ghost(var.0 as int),
                ),
            };
            match tr {
                Err(e) => {
                    return Err(e);
                },
                Ok(()) => {},
            }
            proof {
                let tg = borrow_target(edge);
                assert(usable(vb.vars@[tg.0 as int]));
                let sbf = status_borrowers(vars.vars@[tg.0 as int].status);
                match edge {
                    Borrow::Mutable(_) => {
                        assert(sbf =~= seq![var]);
                        assert(sbf[0] == var);
                    },
                    Borrow::Immutable(_) => {
                        match vb.vars@[tg.0 as int].status {
                            VarStatus::Initialized => {
                                assert(sbf =~= seq![var]);
                                assert(sbf[0] == var);
                            },
                            VarStatus::Borrowed(l) => {
                                assert(sbf =~= l@.push(var));
                                assert(sbf[sbf.len() - 1] == var);
                            },
                            VarStatus::MutBorrowed(_) => {
                                assert(sbf =~= seq![var]);
                                assert(sbf[0] == var);
                            },
                            _ => {
                                assert(false);
                            },
                        }
                    },
                }
                assert(sbf.contains(var));
                assert forall|kk: int|
                    0 <= kk < k + 1 implies status_borrowers(
                        vars.vars@[(borrow_target(
                            #[trigger] vars.vars@[var.0 as int].borrows@[kk],
                        )).0 as int].status,
                    ).contains(var) by {
                    assert(vars.vars@[var.0 as int].borrows@ == vb.vars@[var.0 as int].borrows@);
                    let tj = borrow_target(vb.vars@[var.0 as int].borrows@[kk]);
                    if kk < k && tj.0 != tg.0 {
                        assert(vars.vars@[tj.0 as int].status == vb.vars@[tj.0 as int].status);
                    }
                }
                assert forall|jj: int|
                    0 <= jj < value_sources@.len() && !old(vars).vars@[(#[trigger] value_sources@[jj]).0 as int].is_copy implies (
                    vars.vars@[value_sources@[jj].0 as int].status is Moved
                        && vars.vars@[value_sources@[jj].0 as int].borrows@.len() == 0) by {
                    if value_sources@[jj].0 == tg.0 {
                        assert(vb.vars@[tg.0 as int].status is Moved);
                        assert(false);
                    } else {
                        assert(vars.vars@[value_sources@[jj].0 as int].status == vb.vars@[value_sources@[jj].0 as int].status);
                    }
                }
                if alias0 {
                    assert(no_dangling_alias_except(vars.vars@, var.0 as int)
                        && borrowers_registered_except(vars.vars@, var.0 as int));
                }
            }
            k += 1;
        }
        proof {
            if alias0 {
                let vsf = vars.vars@;
                let vi = var.0 as int;
                let redges = vsf[vi].borrows@;
                assert forall|b: int, tt: int|
                    0 <= b < vsf.len() && 0 <= tt < vsf.len() && b != -1 && vsf[b].valid
                        && #[trigger] borrows_var(vsf[b], VarId(tt as usize)) implies
                    status_borrowers(vsf[tt].status).contains(VarId(b as usize)) by {
                    if b == vi {
                        let kk = choose|kk: int|
                            0 <= kk < redges.len() && borrow_target(redges[kk]) == VarId(
                                tt as usize,
                            );
                        assert(status_borrowers(
                            vsf[(borrow_target(vsf[vi].borrows@[kk])).0 as int].status,
                        ).contains(var));
                        assert(tt < nlen);
                        assert((borrow_target(vsf[vi].borrows@[kk])).0 as int == tt);
                        assert(VarId(b as usize) == var);
                    }
                }
                if forall|k2: int|
                    0 <= k2 < vsf[vi].borrows@.len() ==> vsf[(borrow_target(
                        #[trigger] vsf[vi].borrows@[k2],
                    )).0 as int].valid {
                    assert forall|b: int, tt: int|
                        0 <= b < vsf.len() && 0 <= tt < vsf.len() && b != -1
                            && #[trigger] borrows_var(vsf[b], VarId(tt as usize))
                            && !vsf[tt].valid implies !vsf[b].valid by {
                        if b == vi {
                            let kk = choose|kk: int|
                                0 <= kk < redges.len() && borrow_target(redges[kk]) == VarId(
                                    tt as usize,
                                );
                            assert(tt < nlen);
                            assert((borrow_target(vsf[vi].borrows@[kk])).0 as int == tt);
                            assert(vsf[(borrow_target(vsf[vi].borrows@[kk])).0 as int].valid);
                            assert(false);
                        }
                    }
                }
            }
        }
        Ok(())
    }
}

/// An element-wise copy of a borrow-edge list.
fn copy_borrows(borrows: &Vec<Borrow>) -> (r: Vec<Borrow>)
    ensures
        r@ == borrows@,
{
    let mut r: Vec<Borrow> = Vec::new();
    let mut k: usize = 0;
    while k < borrows.len()
        invariant
            k <= borrows@.len(),
            r@ == borrows@.subrange(0, k as int),
        decreases borrows@.len() - k,
    {
        let ghost rp = r@;
        r.push(borrows[k]);
        proof {
            assert(r@ =~= borrows@.subrange(0, k + 1 as int));
        }
        k += 1;
    }
    proof {
        assert(r@ =~= borrows@);
    }
    r
}

/// The decimal digit character of `d`.
pub open spec fn dec_digit_char(d: int) -> char {
    if d == 0 {
        '0'
    } else if d == 1 {
        '1'
    } else if d == 2 {
        '2'
    } else if d == 3 {
        '3'
    } else if d == 4 {
        '4'
    } else if d == 5 {
        '5'
    } else if d == 6 {
        '6'
    } else if d == 7 {
        '7'
    } else if d == 8 {
        '8'
    } else {
        '9'
    }
}

/// The decimal rendering of `n`, most significant digit first.
pub open spec fn dec_str(n: nat) -> Seq<char>
    decreases n,
{
    if n < 10 {
        seq![dec_digit_char(n as int)]
    } else {
        dec_str(n / 10).push(dec_digit_char((n % 10) as int))
    }
}

/// The rendering of a variable id, as the store prints it.
pub open spec fn var_id_str(id: VarId) -> Seq<char> {
    "$"@ + dec_str(id.0 as nat)
}

/// The rendering of an origin id.
pub open spec fn origin_id_str(o: OriginId) -> Seq<char> {
    "#"@ + dec_str(o.0 as nat)
}

/// The single-character string of a decimal digit.
fn digit_char_str(d: usize) -> (r: &'static str)
    requires
        d < 10,
    ensures
        r@ == seq![dec_digit_char(d as int)],
{
    match d {
        0 => {
            proof {
                reveal_strlit("0");
            }
            "0"
        },
        1 => {
            proof {
                reveal_strlit("1");
            }
            "1"
        },
        2 => {
            proof {
                reveal_strlit("2");
            }
            "2"
        },
        3 => {
            proof {
                reveal_strlit("3");
            }
            "3"
        },
        4 => {
            proof {
                reveal_strlit("4");
            }
            "4"
        },
        5 => {
            proof {
                reveal_strlit("5");
            }
            "5"
        },
        6 => {
            proof {
                reveal_strlit("6");
            }
            "6"
        },
        7 => {
            proof {
                reveal_strlit("7");
            }
            "7"
        },
        8 => {
            proof {
                reveal_strlit("8");
            }
            "8"
        },
        _ => {
            proof {
                reveal_strlit("9");
            }
            "9"
        },
    }
}

/// The decimal rendering of `n`.
pub fn usize_to_string(n: usize) -> (r: String)
    ensures
        r@ == dec_str(n as nat),
    decreases n,
{
    if n < 10 {
        String::from_str(digit_char_str(n))
    } else {
        let mut s = usize_to_string(n / 10);
        s.append(digit_char_str(n % 10));
        proof {
            assert(s@ =~= dec_str(n as nat));
        }
        s
    }
}

impl VarId {
    /// The printed form of this id, `$` followed by its decimal index.
    pub fn render(&self) -> (r: String)
        ensures
            r@ == var_id_str(*self),
    {
        let mut s = String::from_str("$");
        s.append(usize_to_string(self.0).as_str());
        proof {
            assert(s@ =~= var_id_str(*self));
        }
        s
    }
}

impl OriginId {
    /// The printed form of this id, `#` followed by its decimal index.
    pub fn render(&self) -> (r: String)
        ensures
            r@ == origin_id_str(*self),
    {
        let mut s = String::from_str("#");
        s.append(usize_to_string(self.0).as_str());
        proof {
            assert(s@ =~= origin_id_str(*self));
        }
        s
    }
}

/// The rendering of a list of variable ids, comma separated.
pub open spec fn id_list_str(l: Seq<VarId>) -> Seq<char>
    decreases l.len(),
{
    if l.len() == 0 {
        Seq::<char>::empty()
    } else if l.len() == 1 {
        var_id_str(l[0])
    } else {
        id_list_str(l.drop_last()) + ", "@ + var_id_str(l.last())
    }
}

/// The rendering of one borrow edge.
pub open spec fn edge_str(b: Borrow) -> Seq<char> {
    match b {
        Borrow::Mutable(t) => "&mut "@ + var_id_str(t),
        Borrow::Immutable(t) => "&"@ + var_id_str(t),
    }
}

/// The rendering of a borrow-edge list, comma separated.
pub open spec fn edge_list_str(l: Seq<Borrow>) -> Seq<char>
    decreases l.len(),
{
    if l.len() == 0 {
        Seq::<char>::empty()
    } else if l.len() == 1 {
        edge_str(l[0])
    } else {
        edge_list_str(l.drop_last()) + ", "@ + edge_str(l.last())
    }
}

/// The rendering of a status.
pub open spec fn status_str(s: VarStatus) -> Seq<char> {
    match s {
        VarStatus::Uninitialized => "Uninitialized"@,
        VarStatus::Initialized => "Initialized"@,
        VarStatus::Moved => "Moved"@,
        VarStatus::Borrowed(l) => "Borrowed["@ + id_list_str(l@) + "]"@,
        VarStatus::MutBorrowed(b) => "MutBorrowed["@ + var_id_str(b) + "]"@,
    }
}

/// One line of the store dump, describing a single variable.
pub open spec fn var_line_str(v: Var) -> Seq<char> {
    if !v.valid {
        "Local '"@ + v.identifier@ + "' "@ + var_id_str(v.id) + " (invalid)\n"@
    } else {
        "Local '"@ + v.identifier@ + "' "@ + var_id_str(v.id) + " "@ + status_str(v.status)
            + " (borrows ["@ + edge_list_str(v.borrows@) + "])\n"@
    }
}

/// The dump of the first `k` records, one line each.
pub open spec fn dump_str(vs: Seq<Var>, k: int) -> Seq<char>
    decreases k,
{
    if k <= 0 {
        Seq::<char>::empty()
    } else {
        dump_str(vs, k - 1) + var_line_str(vs[k - 1])
    }
}

fn render_id_list(l: &Vec<VarId>) -> (r: String)
    ensures
        r@ == id_list_str(l@),
{
    let mut s = String::new();
    let mut k: usize = 0;
    while k < l.len()
        invariant
            k <= l@.len(),
            s@ == id_list_str(l@.subrange(0, k as int)),
        decreases l@.len() - k,
    {
        if k > 0 {
            s.append(", ");
        }
        s.append(l[k].render().as_str());
        proof {
            assert(l@.subrange(0, k + 1 as int).drop_last() =~= l@.subrange(0, k as int));
            assert(l@.subrange(0, k + 1 as int).last() == l@[k as int]);
            assert(s@ =~= id_list_str(l@.subrange(0, k + 1 as int)));
        }
        k += 1;
    }
    proof {
        assert(l@.subrange(0, l@.len() as int) =~= l@);
    }
    s
}

fn render_edge_list(l: &Vec<Borrow>) -> (r: String)
    ensures
        r@ == edge_list_str(l@),
{
    let mut s = String::new();
    let mut k: usize = 0;
    while k < l.len()
        invariant
            k <= l@.len(),
            s@ == edge_list_str(l@.subrange(0, k as int)),
        decreases l@.len() - k,
    {
        if k > 0 {
            s.append(", ");
        }
        match l[k] {
            Borrow::Mutable(t) => {
                s.append("&mut ");
                s.append(t.render().as_str());
            },
            Borrow::Immutable(t) => {
                s.append("&");
                s.append(t.render().as_str());
            },
        }
        proof {
            assert(l@.subrange(0, k + 1 as int).drop_last() =~= l@.subrange(0, k as int));
            assert(l@.subrange(0, k + 1 as int).last() == l@[k as int]);
            assert(s@ =~= edge_list_str(l@.subrange(0, k + 1 as int)));
        }
        k += 1;
    }
    proof {
        assert(l@.subrange(0, l@.len() as int) =~= l@);
    }
    s
}

impl Var {
    /// One human-readable line describing this variable: its name, id and
    /// validity, its status with the borrowers it records, and the borrow
    /// edges it holds.
    pub fn render_line(&self) -> (r: String)
        ensures
            r@ == var_line_str(*self),
    {
        let mut s = String::from_str("Local '");
        s.append(self.identifier.as_str());
        s.append("' ");
        s.append(self.id.render().as_str());
        if !self.valid {
            s.append(" (invalid)\n");
            proof {
                assert(s@ =~= var_line_str(*self));
            }
            return s;
        }
        s.append(" ");
        match &self.status {
            VarStatus::Uninitialized => {
                s.append("Uninitialized");
            },
            VarStatus::Initialized => {
                s.append("Initialized");
            },
            VarStatus::Moved => {
                s.append("Moved");
            },
            VarStatus::Borrowed(l) => {
                s.append("Borrowed[");
                s.append(render_id_list(l).as_str());
                s.append("]");
                proof {
                    assert(s@ =~= "Local '"@ + self.identifier@ + "' "@ + var_id_str(self.id)
                        + " "@ + status_str(self.status));
                }
            },
            VarStatus::MutBorrowed(b) => {
                s.append("MutBorrowed[");
                s.append(b.render().as_str());
                s.append("]");
                proof {
                    assert(s@ =~= "Local '"@ + self.identifier@ + "' "@ + var_id_str(self.id)
                        + " "@ + status_str(self.status));
                }
            },
        }
        s.append(" (borrows [");
        s.append(render_edge_list(&self.borrows).as_str());
        s.append("])\n");
        proof {
            assert(s@ =~= var_line_str(*self));
        }
        s
    }
}

impl Vars {
    /// A full human-readable dump of every variable's current status and
    /// borrow edges, one line per record.
    pub fn dump(&self) -> (r: String)
        ensures
            r@ == dump_str(self.vars@, self.vars@.len() as int),
    {
        let mut s = String::new();
        let mut k: usize = 0;
        while k < self.vars.len()
            invariant
                k <= self.vars@.len(),
                s@ == dump_str(self.vars@, k as int),
            decreases self.vars@.len() - k,
        {
            s.append(self.vars[k].render_line().as_str());
            k += 1;
        }
        s
    }
}

/// The dangling-alias invariant is transitive along chains of live borrow
/// edges.
///
/// Under the invariant, if a chain of variables each holding a live borrow
/// edge to the next ends at an invalidated variable, then every variable on
/// the chain has been invalidated: no alias of an unusable value survives,
/// however indirect.
pub proof fn lemma_no_dangling_alias_transitive(vs: Seq<Var>, path: Seq<int>)
    requires
        no_dangling_alias(vs),
        borrow_path(vs, path),
        !vs[path.last()].valid,
    ensures
        forall|i: int| 0 <= i < path.len() ==> !vs[#[trigger] path[i]].valid,
    decreases path.len(),
{
    if path.len() > 1 {
        let m = path[path.len() - 2];
        let t = path.last();
        assert(borrows_var(vs[m], VarId(t as usize)));
        assert(!vs[m].valid);
        let prefix = path.drop_last();
        assert(borrow_path(vs, prefix)) by {
            assert forall|i: int| 0 <= i < prefix.len() implies 0 <= #[trigger] prefix[i]
                < vs.len() by {
                assert(prefix[i] == path[i]);
            }
            assert forall|i: int| 0 <= i < prefix.len() - 1 implies borrows_var(
                vs[#[trigger] prefix[i]],
                VarId(prefix[i + 1] as usize),
            ) by {
                assert(prefix[i] == path[i]);
                assert(prefix[i + 1] == path[i + 1]);
            }
        }
        assert(prefix.last() == m);
        lemma_no_dangling_alias_transitive(vs, prefix);
        assert forall|i: int| 0 <= i < path.len() implies !vs[#[trigger] path[i]].valid by {
            if i < prefix.len() {
                assert(path[i] == prefix[i]);
            }
        }
    }
}

/// A chain of live borrow edges: each element borrows the next.
pub open spec fn borrow_path(vs: Seq<Var>, path: Seq<int>) -> bool {
    &&& path.len() >= 1
    &&& forall|i: int| 0 <= i < path.len() ==> 0 <= #[trigger] path[i] < vs.len()
    &&& forall|i: int|
        0 <= i < path.len() - 1 ==> borrows_var(
            vs[#[trigger] path[i]],
            VarId(path[i + 1] as usize),
        )
}

/// Whether a chain of borrow edges starting at `start` reaches a variable
/// whose origin is a strict descendant of `dest`: a view that would escape
/// the scope being left.
pub open spec fn escapes_origin(
    vs: Seq<Var>,
    parents: Seq<Option<OriginId>>,
    start: int,
    dest: int,
) -> bool {
    exists|path: Seq<int>|
        #[trigger] borrow_path(vs, path) && path.len() >= 2 && path[0] == start
            && is_strict_ancestor(parents, vs[path.last()].origin.0 as int, dest)
}

/// A forest of scope/region identifiers. Each non-root origin has exactly
/// one parent, issued before it, so every ancestor chain is finite and
/// acyclic.
pub struct Origins {
    pub parent_origins: Vec<Option<OriginId>>,
}

/// Whether origin `anc` appears in the strict ancestor chain of origin `o`
/// under the given parent table.
///
/// The recursion is guarded by `p.0 < o`, which every well-formed table
/// satisfies, so on a well-formed table this is exactly the ancestor walk.
pub open spec fn is_strict_ancestor(parents: Seq<Option<OriginId>>, o: int, anc: int) -> bool
    decreases o,
{
    if 0 <= o < parents.len() {
        match parents[o] {
            None => false,
            Some(p) => p.0 == anc || (p.0 < o && is_strict_ancestor(parents, p.0 as int, anc)),
        }
    } else {
        false
    }
}

impl Origins {
    /// Well-formedness: every parent was issued before its child.
    pub open spec fn wf(self) -> bool {
        forall|i: int|
            0 <= i < self.parent_origins@.len() ==> (#[trigger] self.parent_origins@[i] matches Some(
                p,
            ) ==> p.0 < i)
    }

    /// An empty origin forest.
    pub fn new() -> (r: Origins)
        ensures
            r.wf(),
            r.parent_origins@.len() == 0,
    {
        Origins { parent_origins: Vec::new() }
    }

    /// A new root origin without a parent.
    pub fn create_unbound_origin(&mut self) -> (id: OriginId)
        requires
            old(self).wf(),
        ensures
            final(self).wf(),
            id == OriginId(old(self).parent_origins@.len() as usize),
            final(self).parent_origins@ == old(self).parent_origins@.push(None),
    {
        let id = self.parent_origins.len();
        self.parent_origins.push(None);
        OriginId(id)
    }

    /// A new origin bound to `parent`. The parent must be an origin this
    /// tree has issued.
    pub fn create_bound_origin(&mut self, parent: OriginId) -> (id: OriginId)
        requires
            old(self).wf(),
            parent.0 < old(self).parent_origins@.len(),
        ensures
            final(self).wf(),
            id == OriginId(old(self).parent_origins@.len() as usize),
            final(self).parent_origins@ == old(self).parent_origins@.push(Some(parent)),
    {
        let id = self.parent_origins.len();
        self.parent_origins.push(Some(parent));
        OriginId(id)
    }

    /// The parent of an issued origin, or `None` on a root.
    pub fn resolve_parent(&self, origin: OriginId) -> (r: Option<OriginId>)
        requires
            origin.0 < self.parent_origins@.len(),
        ensures
            r == self.parent_origins@[origin.0 as int],
    {
        self.parent_origins[origin.0]
    }
}

proof fn lemma_path_endpoint_covered(
    vs: Seq<Var>,
    parents: Seq<Option<OriginId>>,
    visited: Seq<bool>,
    path: Seq<int>,
    dest: int,
)
    requires
        visited.len() == vs.len(),
        borrow_path(vs, path),
        visited[path[0]],
        forall|m: int, t: int|
            0 <= m < vs.len() && 0 <= t < vs.len() && visited[m] && #[trigger] borrows_var(
                vs[m],
                VarId(t as usize),
            ) ==> (visited[t] && !is_strict_ancestor(parents, vs[t].origin.0 as int, dest)),
    ensures
        visited[path.last()],
        path.len() >= 2 ==> !is_strict_ancestor(parents, vs[path.last()].origin.0 as int, dest),
    decreases path.len(),
{
    if path.len() == 1 {
    } else {
        let prefix = path.drop_last();
        assert(borrow_path(vs, prefix)) by {
            assert forall|i: int| 0 <= i < prefix.len() implies 0 <= #[trigger] prefix[i]
                < vs.len() by {
                assert(prefix[i] == path[i]);
            }
            assert forall|i: int| 0 <= i < prefix.len() - 1 implies borrows_var(
                vs[#[trigger] prefix[i]],
                VarId(prefix[i + 1] as usize),
            ) by {
                assert(prefix[i] == path[i]);
                assert(prefix[i + 1] == path[i + 1]);
            }
        }
        lemma_path_endpoint_covered(vs, parents, visited, prefix, dest);
        let m = prefix.last();
        let t = path.last();
        assert(m == path[path.len() - 2]);
        assert(borrows_var(vs[m], VarId(t as usize)));
    }
}

impl Var {
    /// Whether the variable `b` currently holds a live borrow edge
    /// targeting `t`.
    pub fn holds_borrow_edge(vars: &Vars, b: VarId, t: VarId) -> (r: bool)
        requires
            b.0 < vars.vars@.len(),
        ensures
            r == borrows_var(vars.vars@[b.0 as int], t),
    {
        has_edge_to(&vars.vars[b.0].borrows, t)
    }

    /// Whether the status of `v` records `b` as a borrower.
    pub fn status_records_borrower(vars: &Vars, v: VarId, b: VarId) -> (r: bool)
        requires
            v.0 < vars.vars@.len(),
        ensures
            r == status_borrowers(vars.vars@[v.0 as int].status).contains(b),
    {
        match &vars.vars[v.0].status {
            VarStatus::Borrowed(l) => {
                let mut k: usize = 0;
                while k < l.len()
                    invariant
                        k <= l@.len(),
                        vars.vars@[v.0 as int].status matches VarStatus::Borrowed(ll) && ll@
                            == l@,
                        forall|i: int| 0 <= i < k ==> #[trigger] l@[i] != b,
                    decreases l@.len() - k,
                {
                    if l[k].0 == b.0 {
                        proof {
                            assert(status_borrowers(vars.vars@[v.0 as int].status)[k as int]
                                == b);
                        }
                        return true;
                    }
                    k += 1;
                }
                proof {
                    if status_borrowers(vars.vars@[v.0 as int].status).contains(b) {
                        let i = choose|i: int|
                            0 <= i < l@.len() && #[trigger] l@[i] == b;
                        assert(false);
                    }
                }
                false
            },
            VarStatus::MutBorrowed(p) => {
                proof {
                    assert(status_borrowers(vars.vars@[v.0 as int].status)[0] == *p);
                    if status_borrowers(vars.vars@[v.0 as int].status).contains(b) {
                        let i = choose|i: int|
                            0 <= i < status_borrowers(vars.vars@[v.0 as int].status).len()
                                && status_borrowers(vars.vars@[v.0 as int].status)[i] == b;
                        assert(b == *p);
                    }
                }
                p.0 == b.0
            },
            _ => false,
        }
    }

    /// Rejects returning a view of something local to the scope being left:
    /// fails `InvalidOrigin` when a chain of borrow edges starting at `v`
    /// reaches a variable whose origin is a strict descendant of the
    /// destination origin `origin`.
    pub fn validate_for_origin(
        vars: &Vars,
        v: VarId,
        origin: OriginId,
        origins: &Origins,
    ) -> (r: CheckerResult)
        requires
            vars.wf(),
            origins.wf(),
            v.0 < vars.vars@.len(),
            forall|i: int|
                0 <= i < vars.vars@.len() ==> (#[trigger] vars.vars@[i]).origin.0
                    < origins.parent_origins@.len(),
        ensures
            r is Ok <==> !escapes_origin(
                vars.vars@,
                origins.parent_origins@,
                v.0 as int,
                origin.0 as int,
            ),
            r matches Err(e) ==> (e matches CheckerError::InvalidOrigin(n, i, o) && exists|
                path: Seq<int>,
            |
                #[trigger] borrow_path(vars.vars@, path) && path.len() >= 2 && path[0]
                    == v.0 as int && i == vars.vars@[path.last()].id && n@
                    == vars.vars@[path.last()].identifier@ && o == vars.vars@[path.last()].origin
                    && is_strict_ancestor(
                    origins.parent_origins@,
                    vars.vars@[path.last()].origin.0 as int,
                    origin.0 as int,
                )),
    {
        let n = vars.vars.len();
        let ghost vsg = vars.vars@;
        let ghost parents = origins.parent_origins@;
        let ghost dest = origin.0 as int;
        let mut visited: Vec<bool> = Vec::new();
        while visited.len() < n
            invariant
                visited@.len() <= n,
                forall|i: int| 0 <= i < visited@.len() ==> !(#[trigger] visited@[i]),
            decreases n - visited@.len(),
        {
            visited.push(false);
        }
        visited[v.0] = true;
        let mut wl: Vec<VarId> = Vec::new();
        wl.push(v);
        proof {
            assert(wl@.contains(v)) by {
                assert(wl@[0] == v);
            }
            assert(borrow_path(vsg, seq![v.0 as int]));
        }
        loop
            invariant
                vars.wf(),
                origins.wf(),
                vsg == vars.vars@,
                parents == origins.parent_origins@,
                n == vsg.len(),
                v.0 < n,
                dest == origin.0 as int,
                forall|i: int|
                    0 <= i < n ==> (#[trigger] vsg[i]).origin.0 < parents.len(),
                visited@.len() == n,
                visited@[v.0 as int],
                forall|e: VarId| #[trigger] wl@.contains(e) ==> e.0 < n && visited@[e.0 as int],
                forall|m: int|
                    0 <= m < n && #[trigger] visited@[m] ==> exists|path: Seq<int>|
                        #[trigger] borrow_path(vsg, path) && path[0] == v.0 as int
                            && path.last() == m,
                forall|m: int, t: int|
                    0 <= m < n && 0 <= t < n && visited@[m] && !wl@.contains(VarId(m as usize))
                        && #[trigger] borrows_var(vsg[m], VarId(t as usize)) ==> (visited@[t]
                        && !is_strict_ancestor(parents, vsg[t].origin.0 as int, dest)),
            ensures
                wl@.len() == 0,
            decreases num_unmarked(visited@), wl@.len(),
        {
            if wl.len() == 0 {
                break;
            }
            let ghost wl_pre = wl@;
            let ghost visited_outer = visited@;
            let w = wl.pop().unwrap();
            proof {
                assert(wl@ == wl_pre.drop_last());
                assert(wl_pre[wl_pre.len() - 1] == w);
                assert(wl_pre.contains(w));
                assert forall|x: VarId| #[trigger] wl@.contains(x) implies wl_pre.contains(
                    x,
                ) by {
                    lemma_drop_last_contains(wl_pre, x);
                }
                assert forall|m: int|
                    0 <= m < n && !wl@.contains(VarId(m as usize)) && m != w.0 implies !(
                #[trigger] wl_pre.contains(VarId(m as usize))) by {
                    if wl_pre.contains(VarId(m as usize)) {
                        lemma_drop_last_contains(wl_pre, VarId(m as usize));
                    }
                }
            }
            let edge_count = vars.vars[w.0].borrows.len();
            let mut k: usize = 0;
            while k < edge_count
                invariant
                    vars.wf(),
                    origins.wf(),
                    vsg == vars.vars@,
                    parents == origins.parent_origins@,
                    n == vsg.len(),
                    v.0 < n,
                    w.0 < n,
                    dest == origin.0 as int,
                    forall|i: int|
                        0 <= i < n ==> (#[trigger] vsg[i]).origin.0 < parents.len(),
                    edge_count == vsg[w.0 as int].borrows@.len(),
                    k <= edge_count,
                    visited_outer.len() == n,
                    num_unmarked(visited@) < num_unmarked(visited_outer) || (visited@
                        == visited_outer && wl@ == wl_pre.drop_last()),
                    visited@.len() == n,
                    visited@[v.0 as int],
                    visited@[w.0 as int],
                    forall|i: int|
                        0 <= i < n && #[trigger] visited_outer[i] ==> visited@[i],
                    forall|e: VarId|
                        #[trigger] wl@.contains(e) ==> e.0 < n && visited@[e.0 as int],
                    forall|m: int|
                        0 <= m < n && #[trigger] visited@[m] ==> exists|path: Seq<int>|
                            #[trigger] borrow_path(vsg, path) && path[0] == v.0 as int
                                && path.last() == m,
                    forall|m: int, t: int|
                        0 <= m < n && 0 <= t < n && visited@[m] && !wl@.contains(
                            VarId(m as usize),
                        ) && m != w.0 && #[trigger] borrows_var(vsg[m], VarId(t as usize)) ==> (
                        visited@[t] && !is_strict_ancestor(parents, vsg[t].origin.0 as int, dest)),
                    forall|kk: int|
                        0 <= kk < k ==> ({
                            let t = (borrow_target(#[trigger] vsg[w.0 as int].borrows@[kk])).0 as int;
                            visited@[t] && !is_strict_ancestor(
                                parents,
                                vsg[t].origin.0 as int,
                                dest,
                            )
                        }),
                decreases edge_count - k,
            {
                let edge = vars.vars[w.0].borrows[k];
                let tg = match edge {
                    Borrow::Mutable(t) => t,
                    Borrow::Immutable(t) => t,
                };
                proof {
                    assert(vars.var_ok(vsg[w.0 as int]));
                    assert(tg == borrow_target(vsg[w.0 as int].borrows@[k as int]));
                    assert(tg.0 < n);
                }
                if vars.vars[tg.0].origin.has_parent(origin, origins) {
                    proof {
                        let wpath = choose|path: Seq<int>|
                            #[trigger] borrow_path(vsg, path) && path[0] == v.0 as int
                                && path.last() == w.0 as int;
                        let full = wpath.push(tg.0 as int);
                        assert(borrow_path(vsg, full)) by {
                            assert forall|i: int| 0 <= i < full.len() implies 0 <= #[trigger] full[i]
                                < vsg.len() by {
                                if i < wpath.len() {
                                    assert(full[i] == wpath[i]);
                                }
                            }
                            assert forall|i: int| 0 <= i < full.len() - 1 implies borrows_var(
                                vsg[#[trigger] full[i]],
                                VarId(full[i + 1] as usize),
                            ) by {
                                if i < wpath.len() - 1 {
                                    assert(full[i] == wpath[i]);
                                    assert(full[i + 1] == wpath[i + 1]);
                                } else {
                                    assert(full[i] == wpath.last());
                                    assert(full[i + 1] == tg.0 as int);
                                    assert(borrows_var(vsg[w.0 as int], VarId(tg.0)));
                                }
                            }
                        }
                        assert(full.len() >= 2 && full[0] == v.0 as int && full.last()
                            == tg.0 as int);
                        assert(is_strict_ancestor(parents, vsg[tg.0 as int].origin.0 as int, dest));
                        assert(vsg[full.last()] == vsg[tg.0 as int]);
                        assert(escapes_origin(vsg, parents, v.0 as int, dest));
                    }
                    return Err(
                        CheckerError::InvalidOrigin(
                            vars.vars[tg.0].identifier.clone(),
                            vars.vars[tg.0].id,
                            vars.vars[tg.0].origin,
                        ),
                    );
                }
                if !visited[tg.0] {
                    let ghost visited_before = visited@;
                    let ghost wl_before = wl@;
                    visited[tg.0] = true;
                    wl.push(tg);
                    proof {
                        assert(wl@ == wl_before.push(tg));
                        assert(visited@ == visited_before.update(tg.0 as int, true));
                        assert forall|e: VarId| #[trigger] wl@.contains(e) implies e.0 < n
                            && visited@[e.0 as int] by {
                            lemma_push_contains(wl_before, tg, e);
                        }
                        let wpath = choose|path: Seq<int>|
                            #[trigger] borrow_path(vsg, path) && path[0] == v.0 as int
                                && path.last() == w.0 as int;
                        let full = wpath.push(tg.0 as int);
                        assert(borrow_path(vsg, full) && full[0] == v.0 as int && full.last()
                            == tg.0 as int) by {
                            assert forall|i: int| 0 <= i < full.len() implies 0 <= #[trigger] full[i]
                                < vsg.len() by {
                                if i < wpath.len() {
                                    assert(full[i] == wpath[i]);
                                }
                            }
                            assert forall|i: int| 0 <= i < full.len() - 1 implies borrows_var(
                                vsg[#[trigger] full[i]],
                                VarId(full[i + 1] as usize),
                            ) by {
                                if i < wpath.len() - 1 {
                                    assert(full[i] == wpath[i]);
                                    assert(full[i + 1] == wpath[i + 1]);
                                } else {
                                    assert(full[i] == wpath.last());
                                    assert(full[i + 1] == tg.0 as int);
                                    assert(borrows_var(vsg[w.0 as int], VarId(tg.0)));
                                }
                            }
                        }
                        assert forall|m: int|
                            0 <= m < n && #[trigger] visited@[m] implies exists|path: Seq<int>|
                                #[trigger] borrow_path(vsg, path) && path[0] == v.0 as int
                                    && path.last() == m by {
                            if m != tg.0 {
                                assert(visited_before[m]);
                            } else {
                                assert(borrow_path(vsg, full) && full[0] == v.0 as int
                                    && full.last() == m);
                            }
                        }
                        assert forall|m: int, t: int|
                            0 <= m < n && 0 <= t < n && visited@[m] && !wl@.contains(
                                VarId(m as usize),
                            ) && m != w.0 && #[trigger] borrows_var(
                                vsg[m],
                                VarId(t as usize),
                            ) implies (visited@[t] && !is_strict_ancestor(
                            parents,
                            vsg[t].origin.0 as int,
                            dest,
                        )) by {
                            if m == tg.0 {
                                assert(wl@.contains(tg)) by {
                                    assert(wl@[wl@.len() - 1] == tg);
                                }
                                assert(false);
                            } else {
                                assert(visited_before[m]);
                                assert(!wl_before.contains(VarId(m as usize))) by {
                                    lemma_push_contains(wl_before, tg, VarId(m as usize));
                                }
                                assert(visited_before[t] || t == tg.0);
                            }
                        }
                        lemma_num_unmarked_update(visited_before, tg.0 as int);
                        if visited_before == visited_outer {
                        } else {
                            lemma_num_unmarked_le_forall(visited_outer, visited_before);
                        }
                    }
                }
                k += 1;
            }
            proof {
                assert forall|m: int, t: int|
                    0 <= m < n && 0 <= t < n && visited@[m] && !wl@.contains(VarId(m as usize))
                        && #[trigger] borrows_var(vsg[m], VarId(t as usize)) implies (visited@[t]
                    && !is_strict_ancestor(parents, vsg[t].origin.0 as int, dest)) by {
                    if m == w.0 {
                        let kk = choose|kk: int|
                            0 <= kk < vsg[m].borrows@.len() && borrow_target(vsg[m].borrows@[kk])
                                == VarId(t as usize);
                        assert((borrow_target(vsg[w.0 as int].borrows@[kk])).0 as int == t);
                    }
                }
                if num_unmarked(visited@) == num_unmarked(visited_outer) {
                    assert forall|i: int|
                        0 <= i < n && #[trigger] visited@[i] implies visited_outer[i] by {
                        if !visited_outer[i] {
                            lemma_num_unmarked_mono(visited_outer, visited@, i);
                        }
                    }
                }
            }
        }
        proof {
            if escapes_origin(vsg, parents, v.0 as int, dest) {
                let path = choose|path: Seq<int>|
                    #[trigger] borrow_path(vsg, path) && path.len() >= 2 && path[0] == v.0 as int
                        && is_strict_ancestor(parents, vsg[path.last()].origin.0 as int, dest);
                lemma_path_endpoint_covered(vsg, parents, visited@, path, dest);
                assert(false);
            }
        }
        Ok(())
    }
}

proof fn lemma_num_unmarked_mono(a: Seq<bool>, b: Seq<bool>, i: int)
    requires
        a.len() == b.len(),
        forall|j: int| 0 <= j < a.len() && #[trigger] a[j] ==> b[j],
        0 <= i < a.len(),
        !a[i],
        b[i],
    ensures
        num_unmarked(b) < num_unmarked(a),
    decreases a.len(),
{
    if i == a.len() - 1 {
        lemma_num_unmarked_le(a.drop_last(), b.drop_last());
    } else {
        assert(forall|j: int|
            0 <= j < a.drop_last().len() && #[trigger] a.drop_last()[j] ==> b.drop_last()[j]);
        lemma_num_unmarked_mono(a.drop_last(), b.drop_last(), i);
    }
}

proof fn lemma_num_unmarked_le_forall(a: Seq<bool>, b: Seq<bool>)
    requires
        a.len() == b.len(),
        forall|j: int| 0 <= j < a.len() && #[trigger] a[j] ==> b[j],
    ensures
        num_unmarked(b) <= num_unmarked(a),
{
    lemma_num_unmarked_le(a, b);
}

proof fn lemma_num_unmarked_le(a: Seq<bool>, b: Seq<bool>)
    requires
        a.len() == b.len(),
        forall|j: int| 0 <= j < a.len() && #[trigger] a[j] ==> b[j],
    ensures
        num_unmarked(b) <= num_unmarked(a),
    decreases a.len(),
{
    if a.len() > 0 {
        assert(forall|j: int|
            0 <= j < a.drop_last().len() && #[trigger] a.drop_last()[j] ==> b.drop_last()[j]);
        lemma_num_unmarked_le(a.drop_last(), b.drop_last());
    }
}

impl OriginId {
    /// Whether `parent` appears in the strict ancestor chain of `self`.
    fn has_parent(self, parent: OriginId, origins: &Origins) -> (r: bool)
        requires
            origins.wf(),
            self.0 < origins.parent_origins@.len(),
        ensures
            r == is_strict_ancestor(origins.parent_origins@, self.0 as int, parent.0 as int),
    {
        let mut origin = self;
        loop
            invariant
                origins.wf(),
                origin.0 < origins.parent_origins@.len(),
                is_strict_ancestor(origins.parent_origins@, self.0 as int, parent.0 as int)
                    == is_strict_ancestor(origins.parent_origins@, origin.0 as int, parent.0 as int),
            decreases origin.0,
        {
            match origins.resolve_parent(origin) {
                Some(p) => {
                    if p.0 == parent.0 {
                        return true;
                    }
                    origin = p;
                },
                None => {
                    return false;
                },
            }
        }
    }
}

} // verus!
