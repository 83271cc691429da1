//! The environment: a persistent global scope plus a stack of block
//! scopes, and the full scoping and overload-resolution protocol.

use crate::ast::{FuncSignature, Function, Name, SigV, Type, ValueConstructor};
use crate::scope::{empty_scope_view, scope_cloned, Scope, ScopeView};
use vstd::pervasive::cloned;
use vstd::prelude::*;

verus! {

/// The recoverable failures of the declaration and assignment protocol.
/// Each carries the offending name; where the current function matters for
/// diagnostics it is carried too.
pub enum EnvError {
    /// `create_variable` found the name already declared in the current
    /// scope.
    DuplicateDeclaration(Name, FuncSignature),
    /// `change_variable_value` found the binding, but it was declared
    /// immutable.
    ImmutableAssignment(Name),
    /// `change_variable_value` found no block scope binding the name.
    UndeclaredVariable(Name, FuncSignature),
}

/// Either a variable binding or a function, as `lookup_var_or_func`
/// returns it.
pub enum FuncOrVar<A> {
    Func(Function),
    Var((bool, A)),
}

/// The lexical environment: one global scope that lives as long as the
/// environment, and a stack of block scopes, innermost last. The `id` and
/// `current_func` fields are diagnostic bookkeeping only; `output`
/// collects lines the interpreted program prints.
pub struct Environment<A> {
    pub id: usize,
    pub stack_len: usize,
    pub current_func: FuncSignature,
    pub output: Vec<String>,
    pub globals: Scope<A>,
    pub stack: Vec<Scope<A>>,
}

/// The binding of `name` in the innermost stack scope that declares it,
/// searched from the innermost (last) scope outward; `None` if no stack
/// scope declares it.
pub open spec fn stack_lookup_var<A>(stack: Seq<ScopeView<A>>, name: Seq<char>) -> Option<
    (bool, A),
>
    decreases stack.len(),
{
    if stack.len() == 0 {
        None
    } else if stack.last().vars.contains_key(name) {
        Some(stack.last().vars[name])
    } else {
        stack_lookup_var(stack.drop_last(), name)
    }
}

/// The binding `lookup` observes: the stack searched innermost-first,
/// then the global scope.
pub open spec fn env_lookup_var<A>(
    stack: Seq<ScopeView<A>>,
    globals: ScopeView<A>,
    name: Seq<char>,
) -> Option<(bool, A)> {
    match stack_lookup_var(stack, name) {
        Some(b) => Some(b),
        None => if globals.vars.contains_key(name) {
            Some(globals.vars[name])
        } else {
            None
        },
    }
}

/// The index of the innermost stack scope that declares `name`, the
/// scope assignment resolves to; `None` if no stack scope declares it.
pub open spec fn innermost_with_var<A>(stack: Seq<ScopeView<A>>, name: Seq<char>) -> Option<int>
    decreases stack.len(),
{
    if stack.len() == 0 {
        None
    } else if stack.last().vars.contains_key(name) {
        Some(stack.len() - 1)
    } else {
        innermost_with_var(stack.drop_last(), name)
    }
}

/// The function the exact signature resolves to, the stack searched
/// innermost-first; `None` if no stack scope declares it.
pub open spec fn stack_lookup_func<A>(stack: Seq<ScopeView<A>>, sig: SigV) -> Option<
    crate::ast::FunctionV,
>
    decreases stack.len(),
{
    if stack.len() == 0 {
        None
    } else if stack.last().funcs.contains_key(sig) {
        Some(stack.last().funcs[sig])
    } else {
        stack_lookup_func(stack.drop_last(), sig)
    }
}

/// The function `lookup_function` observes: the stack searched
/// innermost-first, then the global scope.
pub open spec fn env_lookup_func<A>(
    stack: Seq<ScopeView<A>>,
    globals: ScopeView<A>,
    sig: SigV,
) -> Option<crate::ast::FunctionV> {
    match stack_lookup_func(stack, sig) {
        Some(f) => Some(f),
        None => if globals.funcs.contains_key(sig) {
            Some(globals.funcs[sig])
        } else {
            None
        },
    }
}

/// The constructor list of the innermost scope that declares the ADT,
/// searched innermost-first; `None` if no stack scope declares it.
pub open spec fn stack_lookup_adt<A>(stack: Seq<ScopeView<A>>, name: Seq<char>) -> Option<
    Seq<crate::ast::ConstructorV>,
>
    decreases stack.len(),
{
    if stack.len() == 0 {
        None
    } else if stack.last().adts.contains_key(name) {
        Some(stack.last().adts[name])
    } else {
        stack_lookup_adt(stack.drop_last(), name)
    }
}

/// The constructor list `lookup_adt` observes: the stack searched
/// innermost-first, then the global scope.
pub open spec fn env_lookup_adt<A>(
    stack: Seq<ScopeView<A>>,
    globals: ScopeView<A>,
    name: Seq<char>,
) -> Option<Seq<crate::ast::ConstructorV>> {
    match stack_lookup_adt(stack, name) {
        Some(cs) => Some(cs),
        None => if globals.adts.contains_key(name) {
            Some(globals.adts[name])
        } else {
            None
        },
    }
}

/// A scope declares `name` as a variable or as the name of some function
/// overload.
pub open spec fn scope_has_var_or_func<A>(s: ScopeView<A>, name: Seq<char>) -> bool {
    s.vars.contains_key(name) || exists|sv: SigV| #[trigger] s.funcs.contains_key(sv) && sv.0 == name
}

/// The innermost stack scope that declares `name` as a variable or a
/// function, the level `lookup_var_or_func` stops at.
pub open spec fn innermost_with_var_or_func<A>(stack: Seq<ScopeView<A>>, name: Seq<char>) -> Option<
    int,
>
    decreases stack.len(),
{
    if stack.len() == 0 {
        None
    } else if scope_has_var_or_func(stack.last(), name) {
        Some(stack.len() - 1)
    } else {
        innermost_with_var_or_func(stack.drop_last(), name)
    }
}

/// All functions visible from the innermost scope: the global table,
/// overlaid by each stack scope from the outermost to the innermost, so
/// an inner redefinition of a signature shadows an outer one.
pub open spec fn funcs_overlay<A>(
    stack: Seq<ScopeView<A>>,
    base: Map<SigV, crate::ast::FunctionV>,
) -> Map<SigV, crate::ast::FunctionV>
    decreases stack.len(),
{
    if stack.len() == 0 {
        base
    } else {
        funcs_overlay(stack.drop_last(), base).union_prefer_right(stack.last().funcs)
    }
}

/// The scope with the binding `name` inserted; its other tables are
/// untouched.
pub open spec fn with_var_inserted<A>(s: ScopeView<A>, name: Seq<char>, b: (bool, A)) -> ScopeView<
    A,
> {
    ScopeView { vars: s.vars.insert(name, b), ..s }
}

/// If scope `i` declares `name` and no scope inside it does, then `i` is
/// the scope both lookup and assignment resolve to.
pub proof fn lemma_stack_var_found<A>(stack: Seq<ScopeView<A>>, name: Seq<char>, i: int)
    requires
        0 <= i < stack.len(),
        stack[i].vars.contains_key(name),
        forall|j: int| i < j < stack.len() ==> !(#[trigger] stack[j]).vars.contains_key(name),
    ensures
        innermost_with_var(stack, name) == Some(i),
        stack_lookup_var(stack, name) == Some(stack[i].vars[name]),
    decreases stack.len(),
{
    if i < stack.len() - 1 {
        assert(!stack[stack.len() - 1].vars.contains_key(name));
        assert forall|j: int|
            i < j < stack.drop_last().len() implies !(#[trigger] stack.drop_last()[j]).vars.contains_key(
            name,
        ) by {
            assert(stack.drop_last()[j] == stack[j]);
        }
        assert(stack.drop_last()[i] == stack[i]);
        lemma_stack_var_found(stack.drop_last(), name, i);
    }
}

/// If no stack scope declares `name`, neither lookup nor assignment finds
/// it in the stack.
pub proof fn lemma_stack_var_none<A>(stack: Seq<ScopeView<A>>, name: Seq<char>)
    requires
        forall|j: int| 0 <= j < stack.len() ==> !(#[trigger] stack[j]).vars.contains_key(name),
    ensures
        innermost_with_var(stack, name) is None,
        stack_lookup_var(stack, name) is None,
    decreases stack.len(),
{
    if stack.len() > 0 {
        assert(!stack[stack.len() - 1].vars.contains_key(name));
        assert forall|j: int|
            0 <= j < stack.drop_last().len() implies !(#[trigger] stack.drop_last()[j]).vars.contains_key(
            name,
        ) by {
            assert(stack.drop_last()[j] == stack[j]);
        }
        lemma_stack_var_none(stack.drop_last(), name);
    }
}

/// If scope `i` declares the signature and no scope inside it does, scope
/// `i` resolves the exact-signature lookup.
pub proof fn lemma_stack_func_found<A>(stack: Seq<ScopeView<A>>, sig: SigV, i: int)
    requires
        0 <= i < stack.len(),
        stack[i].funcs.contains_key(sig),
        forall|j: int| i < j < stack.len() ==> !(#[trigger] stack[j]).funcs.contains_key(sig),
    ensures
        stack_lookup_func(stack, sig) == Some(stack[i].funcs[sig]),
    decreases stack.len(),
{
    if i < stack.len() - 1 {
        assert(!stack[stack.len() - 1].funcs.contains_key(sig));
        assert forall|j: int|
            i < j < stack.drop_last().len() implies !(#[trigger] stack.drop_last()[j]).funcs.contains_key(
            sig,
        ) by {
            assert(stack.drop_last()[j] == stack[j]);
        }
        assert(stack.drop_last()[i] == stack[i]);
        lemma_stack_func_found(stack.drop_last(), sig, i);
    }
}

/// If no stack scope declares the signature, the stack does not resolve
/// it.
pub proof fn lemma_stack_func_none<A>(stack: Seq<ScopeView<A>>, sig: SigV)
    requires
        forall|j: int| 0 <= j < stack.len() ==> !(#[trigger] stack[j]).funcs.contains_key(sig),
    ensures
        stack_lookup_func(stack, sig) is None,
    decreases stack.len(),
{
    if stack.len() > 0 {
        assert(!stack[stack.len() - 1].funcs.contains_key(sig));
        assert forall|j: int|
            0 <= j < stack.drop_last().len() implies !(#[trigger] stack.drop_last()[j]).funcs.contains_key(
            sig,
        ) by {
            assert(stack.drop_last()[j] == stack[j]);
        }
        lemma_stack_func_none(stack.drop_last(), sig);
    }
}

/// If scope `i` declares the ADT and no scope inside it does, scope `i`
/// resolves the lookup.
pub proof fn lemma_stack_adt_found<A>(stack: Seq<ScopeView<A>>, name: Seq<char>, i: int)
    requires
        0 <= i < stack.len(),
        stack[i].adts.contains_key(name),
        forall|j: int| i < j < stack.len() ==> !(#[trigger] stack[j]).adts.contains_key(name),
    ensures
        stack_lookup_adt(stack, name) == Some(stack[i].adts[name]),
    decreases stack.len(),
{
    if i < stack.len() - 1 {
        assert(!stack[stack.len() - 1].adts.contains_key(name));
        assert forall|j: int|
            i < j < stack.drop_last().len() implies !(#[trigger] stack.drop_last()[j]).adts.contains_key(
            name,
        ) by {
            assert(stack.drop_last()[j] == stack[j]);
        }
        assert(stack.drop_last()[i] == stack[i]);
        lemma_stack_adt_found(stack.drop_last(), name, i);
    }
}

/// If no stack scope declares the ADT, the stack does not resolve it.
pub proof fn lemma_stack_adt_none<A>(stack: Seq<ScopeView<A>>, name: Seq<char>)
    requires
        forall|j: int| 0 <= j < stack.len() ==> !(#[trigger] stack[j]).adts.contains_key(name),
    ensures
        stack_lookup_adt(stack, name) is None,
    decreases stack.len(),
{
    if stack.len() > 0 {
        assert(!stack[stack.len() - 1].adts.contains_key(name));
        assert forall|j: int|
            0 <= j < stack.drop_last().len() implies !(#[trigger] stack.drop_last()[j]).adts.contains_key(
            name,
        ) by {
            assert(stack.drop_last()[j] == stack[j]);
        }
        lemma_stack_adt_none(stack.drop_last(), name);
    }
}

/// If scope `i` declares `name` as a variable or function and no scope
/// inside it does, scope `i` is the level `lookup_var_or_func` stops at.
pub proof fn lemma_stack_vof_found<A>(stack: Seq<ScopeView<A>>, name: Seq<char>, i: int)
    requires
        0 <= i < stack.len(),
        scope_has_var_or_func(stack[i], name),
        forall|j: int| i < j < stack.len() ==> !scope_has_var_or_func(#[trigger] stack[j], name),
    ensures
        innermost_with_var_or_func(stack, name) == Some(i),
    decreases stack.len(),
{
    if i < stack.len() - 1 {
        assert(!scope_has_var_or_func(stack[stack.len() - 1], name));
        assert forall|j: int|
            i < j < stack.drop_last().len() implies !scope_has_var_or_func(
            #[trigger] stack.drop_last()[j],
            name,
        ) by {
            assert(stack.drop_last()[j] == stack[j]);
        }
        assert(stack.drop_last()[i] == stack[i]);
        lemma_stack_vof_found(stack.drop_last(), name, i);
    }
}

/// If no stack scope declares `name` as a variable or a function,
/// `lookup_var_or_func` falls through to the global scope.
pub proof fn lemma_stack_vof_none<A>(stack: Seq<ScopeView<A>>, name: Seq<char>)
    requires
        forall|j: int| 0 <= j < stack.len() ==> !scope_has_var_or_func(#[trigger] stack[j], name),
    ensures
        innermost_with_var_or_func(stack, name) is None,
    decreases stack.len(),
{
    if stack.len() > 0 {
        assert(!scope_has_var_or_func(stack[stack.len() - 1], name));
        assert forall|j: int|
            0 <= j < stack.drop_last().len() implies !scope_has_var_or_func(
            #[trigger] stack.drop_last()[j],
            name,
        ) by {
            assert(stack.drop_last()[j] == stack[j]);
        }
        lemma_stack_vof_none(stack.drop_last(), name);
    }
}

impl<A: Clone> Environment<A> {
    /// The models of the stack's scopes, innermost last.
    pub open spec fn stack_views(&self) -> Seq<ScopeView<A>> {
        self.stack@.map_values(|s: Scope<A>| s@)
    }

    /// The lines inserted into the output so far.
    pub open spec fn output_view(&self) -> Seq<Seq<char>> {
        self.output@.map_values(|s: String| s@)
    }

    /// Every scope's tables have distinct keys, and the recorded stack
    /// length matches the stack.
    pub open spec fn wf(&self) -> bool {
        &&& self.stack_len == self.stack@.len()
        &&& self.globals.wf()
        &&& forall|i: int| 0 <= i < self.stack@.len() ==> (#[trigger] self.stack@[i]).wf()
    }

    /// An environment with an empty global scope, an empty scope stack,
    /// the null context signature and no output.
    pub fn new() -> (r: Environment<A>)
        ensures
            r.wf(),
            r.stack_views() == Seq::<ScopeView<A>>::empty(),
            r.globals@ == empty_scope_view::<A>(),
            r.current_func@ == (Seq::<char>::empty(), Seq::<Type>::empty()),
            r.output_view() == Seq::<Seq<char>>::empty(),
            r.stack_len == 0,
    {
        let r = Environment {
            id: 0,
            stack_len: 0,
            current_func: FuncSignature::new(),
            output: Vec::new(),
            globals: Scope::new(),
            stack: Vec::new(),
        };
        proof {
            assert(r.stack_views() =~= Seq::<ScopeView<A>>::empty());
            assert(r.output_view() =~= Seq::<Seq<char>>::empty());
        }
        r
    }

    /// Whether declarations currently go to a block scope rather than to
    /// the global scope.
    pub fn scoped_function(&self) -> (r: bool)
        ensures
            r == (self.stack@.len() > 0),
    {
        !self.stack.is_empty()
    }

    /// Enters a block: appends an empty scope as the new innermost one.
    /// Nothing else changes.
    pub fn push(&mut self)
        requires
            old(self).wf(),
            old(self).stack_len < usize::MAX,
        ensures
            final(self).wf(),
            final(self).stack_views() == old(self).stack_views().push(empty_scope_view::<A>()),
            final(self).globals@ == old(self).globals@,
            final(self).current_func@ == old(self).current_func@,
            final(self).output_view() == old(self).output_view(),
            final(self).id == old(self).id,
    {
        self.stack.push(Scope::new());
        self.stack_len += 1;
        proof {
            assert(self.stack_views() =~= old(self).stack_views().push(empty_scope_view::<A>()));
        }
    }

    /// Leaves a block: removes the innermost scope, discarding all of its
    /// bindings. The global scope can never be popped; calling `pop` with
    /// no block scope open is a caller-contract violation, kept out by
    /// `requires`.
    pub fn pop(&mut self)
        requires
            old(self).wf(),
            old(self).stack@.len() > 0,
        ensures
            final(self).wf(),
            final(self).stack_views() == old(self).stack_views().drop_last(),
            final(self).globals@ == old(self).globals@,
            final(self).current_func@ == old(self).current_func@,
            final(self).output_view() == old(self).output_view(),
            final(self).id == old(self).id,
    {
        self.stack.pop();
        self.stack_len -= 1;
        proof {
            assert(self.stack_views() =~= old(self).stack_views().drop_last());
        }
    }

    /// The diagnostic bookkeeping (id, context signature, output lines) is
    /// the same as in `pre`.
    pub open spec fn same_diagnostics(&self, pre: &Environment<A>) -> bool {
        &&& self.id == pre.id
        &&& self.current_func@ == pre.current_func@
        &&& self.output_view() == pre.output_view()
    }

    /// The model of the current scope: the innermost block scope if one is
    /// open, else the global scope.
    pub open spec fn current_scope_view(&self) -> ScopeView<A> {
        if self.stack@.len() > 0 {
            self.stack_views().last()
        } else {
            self.globals@
        }
    }

    /// Unconditional insert or overwrite of a binding in the current
    /// scope (the innermost block scope if one is open, else the global
    /// scope). Never fails; used for bulk loading without duplicate
    /// checks.
    pub fn map_variable(&mut self, var: Name, mutable: bool, value: A)
        requires
            old(self).wf(),
        ensures
            final(self).wf(),
            final(self).same_diagnostics(old(self)),
            final(self).stack_len == old(self).stack_len,
            old(self).stack@.len() > 0 ==> final(self).globals@ == old(self).globals@ && final(self).stack_views() == old(self).stack_views().update(
                old(self).stack@.len() - 1,
                with_var_inserted(old(self).stack_views().last(), var@, (mutable, value)),
            ),
            old(self).stack@.len() == 0 ==> final(self).stack_views() == old(self).stack_views()
                && final(self).globals@ == with_var_inserted(
                old(self).globals@,
                var@,
                (mutable, value),
            ),
    {
        let n = self.stack.len();
        if n > 0 {
            let top = &mut self.stack[n - 1];
            top.map_variable(var, mutable, value);
            proof {
                assert(self.stack_views() =~= old(self).stack_views().update(
                    n - 1 as int,
                    with_var_inserted(old(self).stack_views().last(), var@, (mutable, value)),
                ));
            }
        } else {
            self.globals.map_variable(var, mutable, value);
            proof {
                assert(self.stack_views() =~= old(self).stack_views());
            }
        }
    }

    /// Declares a variable in the current scope. This is the only
    /// operation that enforces variable-name uniqueness: it fails with
    /// `DuplicateDeclaration` exactly when the current scope (and only the
    /// current scope) already binds the name, and then changes nothing;
    /// otherwise it inserts the binding and succeeds.
    pub fn create_variable(&mut self, var: Name, mutable: bool, value: A) -> (r: Result<
        (),
        EnvError,
    >)
        requires
            old(self).wf(),
        ensures
            final(self).wf(),
            final(self).same_diagnostics(old(self)),
            final(self).stack_len == old(self).stack_len,
            ({
                let cur = old(self).current_scope_view();
                if cur.vars.contains_key(var@) {
                    &&& r matches Err(e) && e matches EnvError::DuplicateDeclaration(n, c) && n@
                        == var@ && c@ == old(self).current_func@
                    &&& final(self).stack_views() == old(self).stack_views()
                    &&& final(self).globals@ == old(self).globals@
                } else {
                    &&& r is Ok
                    &&& old(self).stack@.len() > 0 ==> final(self).globals@ == old(self).globals@
                        && final(self).stack_views() == old(self).stack_views().update(
                        old(self).stack@.len() - 1,
                        with_var_inserted(cur, var@, (mutable, value)),
                    )
                    &&& old(self).stack@.len() == 0 ==> final(self).stack_views() == old(self).stack_views() && final(self).globals@ == with_var_inserted(
                        cur,
                        var@,
                        (mutable, value),
                    )
                }
            }),
    {
        let n = self.stack.len();
        let declared_here = if n > 0 {
            let top = &self.stack[n - 1];
            top.lookup_var(&var).is_some()
        } else {
            self.globals.lookup_var(&var).is_some()
        };
        if declared_here {
            return Err(EnvError::DuplicateDeclaration(var, self.current_func.clone()));
        }
        self.map_variable(var, mutable, value);
        Ok(())
    }

    /// Assigns a new value to the nearest block-scope binding of `var`,
    /// searched from the innermost scope outward; the global scope is
    /// deliberately excluded from this search. Fails with
    /// `ImmutableAssignment` when the binding found is immutable, and with
    /// `UndeclaredVariable` when no block scope binds the name; on failure
    /// nothing changes. On success only the resolved scope changes, and
    /// the binding is mutable afterwards.
    pub fn change_variable_value(&mut self, var: Name, value: A) -> (r: Result<(), EnvError>)
        requires
            old(self).wf(),
        ensures
            final(self).wf(),
            final(self).same_diagnostics(old(self)),
            final(self).stack_len == old(self).stack_len,
            final(self).globals@ == old(self).globals@,
            ({
                let stv = old(self).stack_views();
                match innermost_with_var(stv, var@) {
                    None => {
                        &&& r matches Err(e) && e matches EnvError::UndeclaredVariable(n, c) && n@
                            == var@ && c@ == old(self).current_func@
                        &&& final(self).stack_views() == stv
                    },
                    Some(i) => {
                        if stv[i].vars[var@].0 {
                            &&& r is Ok
                            &&& final(self).stack_views() == stv.update(
                                i,
                                with_var_inserted(stv[i], var@, (true, value)),
                            )
                        } else {
                            &&& r matches Err(e) && e matches EnvError::ImmutableAssignment(n)
                                && n@ == var@
                            &&& final(self).stack_views() == stv
                        }
                    },
                }
            }),
    {
        let ghost stv = old(self).stack_views();
        let mut k = self.stack.len();
        while k > 0
            invariant
                self == old(self),
                self.wf(),
                stv == self.stack_views(),
                k <= self.stack@.len(),
                forall|j: int| k <= j < stv.len() ==> !(#[trigger] stv[j]).vars.contains_key(var@),
            decreases k,
        {
            k -= 1;
            let found = {
                let sc = &self.stack[k];
                sc.lookup_var(&var)
            };
            match found {
                Some(b) => {
                    proof {
                        lemma_stack_var_found(stv, var@, k as int);
                    }
                    if !b.0 {
                        return Err(EnvError::ImmutableAssignment(var));
                    }
                    let sc = &mut self.stack[k];
                    sc.map_variable(var, true, value);
                    proof {
                        assert(self.stack_views() =~= stv.update(
                            k as int,
                            with_var_inserted(stv[k as int], var@, (true, value)),
                        ));
                    }
                    return Ok(());
                },
                None => {},
            }
        }
        proof {
            lemma_stack_var_none(stv, var@);
        }
        Err(EnvError::UndeclaredVariable(var, self.current_func.clone()))
    }

    /// Unconditional insert or overwrite of a function definition in the
    /// current scope, keyed by the signature it declares.
    pub fn map_function(&mut self, function: Function)
        requires
            old(self).wf(),
        ensures
            final(self).wf(),
            final(self).same_diagnostics(old(self)),
            final(self).stack_len == old(self).stack_len,
            old(self).stack@.len() > 0 ==> final(self).globals@ == old(self).globals@ && final(self).stack_views() == old(self).stack_views().update(
                old(self).stack@.len() - 1,
                (ScopeView {
                    funcs: old(self).stack_views().last().funcs.insert(
                        crate::ast::sig_of(function@),
                        function@,
                    ),
                    ..old(self).stack_views().last()
                }),
            ),
            old(self).stack@.len() == 0 ==> final(self).stack_views() == old(self).stack_views()
                && final(self).globals@ == (ScopeView {
                funcs: old(self).globals@.funcs.insert(crate::ast::sig_of(function@), function@),
                ..old(self).globals@
            }),
    {
        let n = self.stack.len();
        if n > 0 {
            let top = &mut self.stack[n - 1];
            top.map_function(function);
            proof {
                assert(self.stack_views() =~= old(self).stack_views().update(
                    n - 1 as int,
                    self.stack@[n - 1 as int]@,
                ));
            }
        } else {
            self.globals.map_function(function);
            proof {
                assert(self.stack_views() =~= old(self).stack_views());
            }
        }
    }

    /// Unconditional insert or overwrite of an ADT's constructor list in
    /// the current scope.
    pub fn map_adt(&mut self, name: Name, cons: Vec<ValueConstructor>)
        requires
            old(self).wf(),
        ensures
            final(self).wf(),
            final(self).same_diagnostics(old(self)),
            final(self).stack_len == old(self).stack_len,
            old(self).stack@.len() > 0 ==> final(self).globals@ == old(self).globals@ && final(self).stack_views() == old(self).stack_views().update(
                old(self).stack@.len() - 1,
                (ScopeView {
                    adts: old(self).stack_views().last().adts.insert(
                        name@,
                        crate::scope::constructors_view(cons@),
                    ),
                    ..old(self).stack_views().last()
                }),
            ),
            old(self).stack@.len() == 0 ==> final(self).stack_views() == old(self).stack_views()
                && final(self).globals@ == (ScopeView {
                adts: old(self).globals@.adts.insert(
                    name@,
                    crate::scope::constructors_view(cons@),
                ),
                ..old(self).globals@
            }),
    {
        let n = self.stack.len();
        if n > 0 {
            let top = &mut self.stack[n - 1];
            top.map_adt(name, cons);
            proof {
                assert(self.stack_views() =~= old(self).stack_views().update(
                    n - 1 as int,
                    self.stack@[n - 1 as int]@,
                ));
            }
        } else {
            self.globals.map_adt(name, cons);
            proof {
                assert(self.stack_views() =~= old(self).stack_views());
            }
        }
    }

    /// The binding `var` resolves to: the innermost block scope that binds
    /// it, the stack searched innermost-first, then the global scope.
    /// Returns the mutability and a clone of the value.
    pub fn lookup(&self, var: &Name) -> (r: Option<(bool, A)>)
        requires
            self.wf(),
        ensures
            ({
                let res = env_lookup_var(self.stack_views(), self.globals@, var@);
                match r {
                    Some(b) => res matches Some(b0) && b.0 == b0.0 && cloned::<A>(b0.1, b.1),
                    None => res is None,
                }
            }),
    {
        let ghost stv = self.stack_views();
        let mut k = self.stack.len();
        while k > 0
            invariant
                self.wf(),
                stv == self.stack_views(),
                k <= self.stack@.len(),
                forall|j: int| k <= j < stv.len() ==> !(#[trigger] stv[j]).vars.contains_key(var@),
            decreases k,
        {
            k -= 1;
            let sc = &self.stack[k];
            match sc.lookup_var(var) {
                Some(b) => {
                    proof {
                        lemma_stack_var_found(stv, var@, k as int);
                    }
                    return Some(b);
                },
                None => {},
            }
        }
        proof {
            lemma_stack_var_none(stv, var@);
        }
        self.globals.lookup_var(var)
    }

    /// The function the exact signature resolves to: the stack searched
    /// innermost-first, then the global scope.
    pub fn lookup_function(&self, func_signature: &FuncSignature) -> (r: Option<Function>)
        requires
            self.wf(),
        ensures
            ({
                let res = env_lookup_func(self.stack_views(), self.globals@, func_signature@);
                match r {
                    Some(f) => res == Some(f@),
                    None => res is None,
                }
            }),
    {
        let ghost stv = self.stack_views();
        let mut k = self.stack.len();
        while k > 0
            invariant
                self.wf(),
                stv == self.stack_views(),
                k <= self.stack@.len(),
                forall|j: int|
                    k <= j < stv.len() ==> !(#[trigger] stv[j]).funcs.contains_key(
                        func_signature@,
                    ),
            decreases k,
        {
            k -= 1;
            let sc = &self.stack[k];
            match sc.lookup_function(func_signature) {
                Some(f) => {
                    proof {
                        lemma_stack_func_found(stv, func_signature@, k as int);
                    }
                    return Some(f);
                },
                None => {},
            }
        }
        proof {
            lemma_stack_func_none(stv, func_signature@);
        }
        self.globals.lookup_function(func_signature)
    }

    /// What `name` denotes at the innermost level that declares it at
    /// all: block scopes searched innermost-first, then the global scope;
    /// at each level the variable table is checked before the function
    /// table, so a variable takes precedence over a same-named function of
    /// the same level. Which overload comes back for a function name
    /// shared by several signatures of one scope is unspecified.
    pub fn lookup_var_or_func(&self, name: &Name) -> (r: Option<FuncOrVar<A>>)
        requires
            self.wf(),
        ensures
            ({
                let stv = self.stack_views();
                match innermost_with_var_or_func(stv, name@) {
                    Some(i) => vof_matches(stv[i], name@, r),
                    None => if scope_has_var_or_func(self.globals@, name@) {
                        vof_matches(self.globals@, name@, r)
                    } else {
                        r is None
                    },
                }
            }),
    {
        let ghost stv = self.stack_views();
        let mut k = self.stack.len();
        while k > 0
            invariant
                self.wf(),
                stv == self.stack_views(),
                k <= self.stack@.len(),
                forall|j: int|
                    k <= j < stv.len() ==> !scope_has_var_or_func(#[trigger] stv[j], name@),
            decreases k,
        {
            k -= 1;
            let sc = &self.stack[k];
            match sc.lookup_var(name) {
                Some(b) => {
                    proof {
                        lemma_stack_vof_found(stv, name@, k as int);
                    }
                    return Some(FuncOrVar::Var(b));
                },
                None => {},
            }
            match sc.lookup_function_by_name(name) {
                Some(f) => {
                    proof {
                        lemma_stack_vof_found(stv, name@, k as int);
                    }
                    return Some(FuncOrVar::Func(f));
                },
                None => {},
            }
        }
        proof {
            lemma_stack_vof_none(stv, name@);
        }
        match self.globals.lookup_var(name) {
            Some(b) => {
                return Some(FuncOrVar::Var(b));
            },
            None => {},
        }
        match self.globals.lookup_function_by_name(name) {
            Some(f) => {
                return Some(FuncOrVar::Func(f));
            },
            None => {},
        }
        None
    }

    /// The constructor list `name` resolves to: the stack searched
    /// innermost-first, then the global scope.
    pub fn lookup_adt(&self, name: &Name) -> (r: Option<Vec<ValueConstructor>>)
        requires
            self.wf(),
        ensures
            ({
                let res = env_lookup_adt(self.stack_views(), self.globals@, name@);
                match r {
                    Some(cs) => res == Some(crate::scope::constructors_view(cs@)),
                    None => res is None,
                }
            }),
    {
        let ghost stv = self.stack_views();
        let mut k = self.stack.len();
        while k > 0
            invariant
                self.wf(),
                stv == self.stack_views(),
                k <= self.stack@.len(),
                forall|j: int| k <= j < stv.len() ==> !(#[trigger] stv[j]).adts.contains_key(name@),
            decreases k,
        {
            k -= 1;
            let sc = &self.stack[k];
            match sc.lookup_adt(name) {
                Some(cs) => {
                    proof {
                        lemma_stack_adt_found(stv, name@, k as int);
                    }
                    return Some(cs);
                },
                None => {},
            }
        }
        proof {
            lemma_stack_adt_none(stv, name@);
        }
        self.globals.lookup_adt(name)
    }

    /// A clone of the global scope.
    pub fn get_globals(&self) -> (r: Scope<A>)
        requires
            self.wf(),
        ensures
            r.wf(),
            scope_cloned(self.globals@, r@),
    {
        self.globals.clone()
    }

    /// A clone of the block-scope stack, innermost scope last.
    pub fn get_stack(&self) -> (r: Vec<Scope<A>>)
        requires
            self.wf(),
        ensures
            r@.len() == self.stack@.len(),
            forall|i: int|
                0 <= i < r@.len() ==> (#[trigger] r@[i]).wf() && scope_cloned(
                    self.stack_views()[i],
                    r@[i]@,
                ),
    {
        let mut r: Vec<Scope<A>> = Vec::new();
        let mut i: usize = 0;
        while i < self.stack.len()
            invariant
                self.wf(),
                i <= self.stack@.len(),
                r@.len() == i,
                forall|j: int|
                    0 <= j < i ==> (#[trigger] r@[j]).wf() && scope_cloned(
                        self.stack_views()[j],
                        r@[j]@,
                    ),
            decreases self.stack@.len() - i,
        {
            let sc = &self.stack[i];
            r.push(sc.clone());
            i += 1;
        }
        r
    }

    /// The current scope: the innermost block scope if one is open, else
    /// the global scope.
    pub fn get_current_scope(&self) -> (r: &Scope<A>)
        ensures
            r@ == self.current_scope_view(),
            self.wf() ==> r.wf(),
    {
        let n = self.stack.len();
        if n > 0 {
            let r = &self.stack[n - 1];
            proof {
                assert(r@ == self.current_scope_view());
            }
            r
        } else {
            &self.globals
        }
    }

    /// Replaces the whole block-scope stack; the recorded stack length
    /// follows it. The global scope and the diagnostics stay.
    pub fn set_stack(&mut self, stack: Vec<Scope<A>>)
        requires
            old(self).wf(),
            forall|i: int| 0 <= i < stack@.len() ==> (#[trigger] stack@[i]).wf(),
        ensures
            final(self).wf(),
            final(self).same_diagnostics(old(self)),
            final(self).globals@ == old(self).globals@,
            final(self).stack_len == stack@.len(),
            final(self).stack_views() == stack@.map_values(|s: Scope<A>| s@),
    {
        self.stack_len = stack.len();
        self.stack = stack;
    }

    /// Replaces the global function table. The entries' signatures must be
    /// pairwise distinct, as a table's keys are.
    pub fn set_global_functions(&mut self, global_functions: Vec<(FuncSignature, Function)>)
        requires
            old(self).wf(),
            crate::assoc::al_unique(crate::scope::funcs_entries(global_functions@)),
        ensures
            final(self).wf(),
            final(self).same_diagnostics(old(self)),
            final(self).stack_views() == old(self).stack_views(),
            final(self).stack_len == old(self).stack_len,
            final(self).globals@ == (ScopeView {
                funcs: crate::assoc::al_map(crate::scope::funcs_entries(global_functions@)),
                ..old(self).globals@
            }),
    {
        self.globals.functions = global_functions;
        proof {
            assert(self.stack_views() =~= old(self).stack_views());
            assert(self.globals@ =~= (ScopeView {
                funcs: crate::assoc::al_map(crate::scope::funcs_entries(self.globals.functions@)),
                ..old(self).globals@
            }));
        }
    }

    /// Records the signature of the function being processed, read only
    /// when errors are constructed.
    pub fn set_current_func(&mut self, func_signature: &FuncSignature)
        requires
            old(self).wf(),
        ensures
            final(self).wf(),
            final(self).id == old(self).id,
            final(self).output_view() == old(self).output_view(),
            final(self).current_func@ == func_signature@,
            final(self).stack_views() == old(self).stack_views(),
            final(self).globals@ == old(self).globals@,
            final(self).stack_len == old(self).stack_len,
    {
        self.current_func = func_signature.clone();
        proof {
            assert(self.stack_views() =~= old(self).stack_views());
            assert(self.output_view() =~= old(self).output_view());
        }
    }

    /// Appends one line to the collected output.
    pub fn insert_output_line(&mut self, line: &str)
        requires
            old(self).wf(),
        ensures
            final(self).wf(),
            final(self).id == old(self).id,
            final(self).current_func@ == old(self).current_func@,
            final(self).output_view() == old(self).output_view().push(line@),
            final(self).stack_views() == old(self).stack_views(),
            final(self).globals@ == old(self).globals@,
            final(self).stack_len == old(self).stack_len,
    {
        self.output.push(line.to_owned());
        proof {
            assert(self.stack_views() =~= old(self).stack_views());
            assert(self.output_view() =~= old(self).output_view().push(line@));
        }
    }

    /// A copy of the collected output lines, in insertion order.
    pub fn get_output(&mut self) -> (r: Vec<String>)
        requires
            old(self).wf(),
        ensures
            *final(self) == *old(self),
            r@.map_values(|s: String| s@) == old(self).output_view(),
    {
        let mut r: Vec<String> = Vec::new();
        let mut i: usize = 0;
        while i < self.output.len()
            invariant
                self == old(self),
                i <= self.output@.len(),
                r@.map_values(|s: String| s@) == self.output_view().subrange(0, i as int),
            decreases self.output@.len() - i,
        {
            proof {
                assert(r@.map_values(|s: String| s@).len() == r@.len());
                assert(r@.map_values(|s: String| s@).len() == self.output_view().subrange(
                    0,
                    i as int,
                ).len());
                assert(r@.len() == i as int);
            }
            r.push(self.output[i].clone());
            proof {
                assert(r@.map_values(|s: String| s@) =~= self.output_view().subrange(
                    0,
                    i + 1 as int,
                ));
            }
            i += 1;
        }
        proof {
            assert(r@.map_values(|s: String| s@) =~= self.output_view());
        }
        r
    }

    /// A snapshot of every visible binding, each name once, the innermost
    /// binding winning: an entry's value is exactly what `lookup` returns
    /// for its name, and a name appears exactly when `lookup` finds it.
    pub fn get_all_variables(&self) -> (r: Vec<(Name, (bool, A))>)
        requires
            self.wf(),
        ensures
            crate::assoc::al_unique(crate::scope::vars_entries(r@)),
            forall|t: int|
                0 <= t < r@.len() ==> ({
                    let e = #[trigger] r@[t];
                    env_lookup_var(self.stack_views(), self.globals@, e.0@) matches Some(b) && e.1.0
                        == b.0 && cloned::<A>(b.1, e.1.1)
                }),
            forall|nm: Seq<char>|
                #[trigger] names_include(r@, nm) <==> env_lookup_var(
                    self.stack_views(),
                    self.globals@,
                    nm,
                ) is Some,
    {
        let ghost stv = self.stack_views();
        let mut acc: Vec<(Name, (bool, A))> = Vec::new();
        let n = self.stack.len();
        let mut k: usize = n;
        proof {
            assert(stv.subrange(n as int, n as int) =~= Seq::<ScopeView<A>>::empty());
            assert(crate::scope::vars_entries(acc@) =~= Seq::<(Seq<char>, (bool, A))>::empty());
        }
        while k > 0
            invariant
                self.wf(),
                stv == self.stack_views(),
                k <= stv.len(),
                n == stv.len(),
                crate::assoc::al_unique(crate::scope::vars_entries(acc@)),
                forall|t: int|
                    0 <= t < acc@.len() ==> ({
                        let e = #[trigger] acc@[t];
                        stack_lookup_var(stv.subrange(k as int, n as int), e.0@) matches Some(b)
                            && e.1.0 == b.0 && cloned::<A>(b.1, e.1.1)
                    }),
                forall|nm: Seq<char>|
                    #[trigger] names_include(acc@, nm) <==> stack_lookup_var(
                        stv.subrange(k as int, n as int),
                        nm,
                    ) is Some,
            decreases k,
        {
            k -= 1;
            let ghost pre = acc@;
            let sc = &self.stack[k];
            proof {
                assert(sc@ == stv[k as int]);
            }
            merge_scope_vars(&mut acc, sc);
            proof {
                assert forall|nm: Seq<char>|
                    #[trigger] names_include(acc@, nm) <==> stack_lookup_var(
                    stv.subrange(k as int, n as int),
                    nm,
                ) is Some by {
                    lemma_stack_lookup_extend(stv, k as int, nm);
                }
                assert forall|t: int| 0 <= t < acc@.len() implies ({
                    let e = #[trigger] acc@[t];
                    stack_lookup_var(stv.subrange(k as int, n as int), e.0@) matches Some(b)
                        && e.1.0 == b.0 && cloned::<A>(b.1, e.1.1)
                }) by {
                    let e = acc@[t];
                    lemma_stack_lookup_extend(stv, k as int, e.0@);
                    if t < pre.len() {
                        assert(e == pre[t]);
                        assert(names_include(pre, e.0@));
                    } else {
                        assert(!names_include(pre, e.0@));
                    }
                }
            }
        }
        proof {
            assert(stv.subrange(0, n as int) =~= stv);
        }
        let ghost pre = acc@;
        merge_scope_vars(&mut acc, &self.globals);
        proof {
            assert forall|nm: Seq<char>|
                #[trigger] names_include(acc@, nm) <==> env_lookup_var(stv, self.globals@, nm)
                    is Some by {}
            assert forall|t: int| 0 <= t < acc@.len() implies ({
                let e = #[trigger] acc@[t];
                env_lookup_var(stv, self.globals@, e.0@) matches Some(b) && e.1.0 == b.0
                    && cloned::<A>(b.1, e.1.1)
            }) by {
                let e = acc@[t];
                if t < pre.len() {
                    assert(e == pre[t]);
                    assert(names_include(pre, e.0@));
                } else {
                    assert(!names_include(pre, e.0@));
                }
            }
        }
        acc
    }

    /// Every visible function definition, keyed by signature: the global
    /// table overlaid by each block scope from the outermost to the
    /// innermost, so an inner redefinition of a signature shadows an outer
    /// one.
    pub fn get_all_functions(&self) -> (r: Vec<(FuncSignature, Function)>)
        requires
            self.wf(),
        ensures
            crate::assoc::al_unique(crate::scope::funcs_entries(r@)),
            crate::assoc::al_map(crate::scope::funcs_entries(r@)) == funcs_overlay(
                self.stack_views(),
                self.globals@.funcs,
            ),
    {
        let ghost stv = self.stack_views();
        let mut acc: Vec<(FuncSignature, Function)> = Vec::new();
        let mut t: usize = 0;
        while t < self.globals.functions.len()
            invariant
                self.wf(),
                t <= self.globals.functions@.len(),
                crate::scope::funcs_entries(acc@) == crate::scope::funcs_entries(
                    self.globals.functions@,
                ).subrange(0, t as int),
            decreases self.globals.functions@.len() - t,
        {
            let e = &self.globals.functions[t];
            proof {
                assert(crate::scope::funcs_entries(acc@).len() == acc@.len());
                assert(crate::scope::funcs_entries(acc@).len() == crate::scope::funcs_entries(
                    self.globals.functions@,
                ).subrange(0, t as int).len());
                assert(acc@.len() == t as int);
            }
            acc.push((e.0.clone(), e.1.clone()));
            proof {
                assert(crate::scope::funcs_entries(acc@) =~~= crate::scope::funcs_entries(
                    self.globals.functions@,
                ).subrange(0, t + 1 as int));
            }
            t += 1;
        }
        proof {
            assert(crate::scope::funcs_entries(acc@) =~~= crate::scope::funcs_entries(
                self.globals.functions@,
            ));
            assert(stv.subrange(0, 0) =~= Seq::<ScopeView<A>>::empty());
        }
        let mut k: usize = 0;
        while k < self.stack.len()
            invariant
                self.wf(),
                stv == self.stack_views(),
                k <= stv.len(),
                crate::assoc::al_unique(crate::scope::funcs_entries(acc@)),
                crate::assoc::al_map(crate::scope::funcs_entries(acc@)) == funcs_overlay(
                    stv.subrange(0, k as int),
                    self.globals@.funcs,
                ),
            decreases stv.len() - k,
        {
            let ghost base = funcs_overlay(stv.subrange(0, k as int), self.globals@.funcs);
            let sc = &self.stack[k];
            let ghost entries = crate::scope::funcs_entries(sc.functions@);
            proof {
                assert(sc@ == stv[k as int]);
                assert(entries.subrange(0, 0) =~= Seq::<(SigV, crate::ast::FunctionV)>::empty());
                assert(crate::assoc::al_map(entries.subrange(0, 0))
                    == Map::<SigV, crate::ast::FunctionV>::empty());
                assert(base.union_prefer_right(
                    Map::<SigV, crate::ast::FunctionV>::empty(),
                ) =~= base);
            }
            let mut t: usize = 0;
            while t < sc.functions.len()
                invariant
                    self.wf(),
                    sc.wf(),
                    entries == crate::scope::funcs_entries(sc.functions@),
                    t <= sc.functions@.len(),
                    crate::assoc::al_unique(crate::scope::funcs_entries(acc@)),
                    crate::assoc::al_map(crate::scope::funcs_entries(acc@))
                        == base.union_prefer_right(
                        crate::assoc::al_map(entries.subrange(0, t as int)),
                    ),
                decreases sc.functions@.len() - t,
            {
                let e = &sc.functions[t];
                crate::scope::insert_function_entry(&mut acc, e.0.clone(), e.1.clone());
                proof {
                    crate::assoc::lemma_al_overlay_step(base, entries, t as int);
                }
                t += 1;
            }
            proof {
                assert(entries.subrange(0, sc.functions@.len() as int) =~= entries);
                assert(stv.subrange(0, k + 1 as int).drop_last() =~= stv.subrange(0, k as int));
                assert(stv.subrange(0, k + 1 as int).last() == stv[k as int]);
            }
            k += 1;
        }
        proof {
            assert(stv.subrange(0, stv.len() as int) =~= stv);
        }
        acc
    }
}

/// Some entry of the snapshot carries the name `n`.
pub open spec fn names_include<A>(s: Seq<(Name, (bool, A))>, n: Seq<char>) -> bool {
    exists|j: int| 0 <= j < s.len() && (#[trigger] s[j]).0@ == n
}

/// Whether some entry of the snapshot built so far carries the name.
fn contains_name<A>(v: &Vec<(Name, (bool, A))>, name: &Name) -> (r: bool)
    ensures
        r == names_include(v@, name@),
{
    let mut i: usize = 0;
    while i < v.len()
        invariant
            i <= v@.len(),
            forall|j: int| 0 <= j < i ==> (#[trigger] v@[j]).0@ != name@,
        decreases v@.len() - i,
    {
        if v[i].0 == *name {
            return true;
        }
        i += 1;
    }
    false
}

/// Extends a variable snapshot with one scope: every binding of the scope
/// whose name is not in the snapshot yet is appended (mutability kept,
/// value cloned); entries already present are kept untouched, so an
/// earlier (inner) binding wins over a later (outer) one.
fn merge_scope_vars<A: Clone>(acc: &mut Vec<(Name, (bool, A))>, sc: &Scope<A>)
    requires
        sc.wf(),
    ensures
        final(acc)@.len() >= old(acc)@.len(),
        forall|j: int| 0 <= j < old(acc)@.len() ==> final(acc)@[j] == old(acc)@[j],
        forall|n: Seq<char>|
            #[trigger] names_include(final(acc)@, n) <==> names_include(old(acc)@, n)
                || sc@.vars.contains_key(n),
        forall|j: int|
            old(acc)@.len() <= j < final(acc)@.len() ==> ({
                let e = #[trigger] final(acc)@[j];
                &&& !names_include(old(acc)@, e.0@)
                &&& sc@.vars.contains_key(e.0@)
                &&& e.1.0 == sc@.vars[e.0@].0
                &&& cloned::<A>(sc@.vars[e.0@].1, e.1.1)
            }),
        crate::assoc::al_unique(crate::scope::vars_entries(old(acc)@))
            ==> crate::assoc::al_unique(crate::scope::vars_entries(final(acc)@)),
{
    let ghost entries = crate::scope::vars_entries(sc.variables@);
    let mut t: usize = 0;
    while t < sc.variables.len()
        invariant
            sc.wf(),
            entries == crate::scope::vars_entries(sc.variables@),
            t <= sc.variables@.len(),
            acc@.len() >= old(acc)@.len(),
            forall|j: int| 0 <= j < old(acc)@.len() ==> acc@[j] == old(acc)@[j],
            forall|n: Seq<char>|
                #[trigger] names_include(acc@, n) <==> names_include(old(acc)@, n) || exists|u: int|
                    0 <= u < t && (#[trigger] entries[u]).0 == n,
            forall|j: int|
                old(acc)@.len() <= j < acc@.len() ==> ({
                    let e = #[trigger] acc@[j];
                    &&& !names_include(old(acc)@, e.0@)
                    &&& sc@.vars.contains_key(e.0@)
                    &&& e.1.0 == sc@.vars[e.0@].0
                    &&& cloned::<A>(sc@.vars[e.0@].1, e.1.1)
                }),
            crate::assoc::al_unique(crate::scope::vars_entries(old(acc)@))
                ==> crate::assoc::al_unique(crate::scope::vars_entries(acc@)),
        decreases sc.variables@.len() - t,
    {
        let e = &sc.variables[t];
        if !contains_name(acc, &e.0) {
            proof {
                crate::assoc::lemma_al_index(entries, t as int);
                assert forall|j: int|
                    0 <= j < crate::scope::vars_entries(acc@).len() implies (
                #[trigger] crate::scope::vars_entries(acc@)[j]).0 != e.0@ by {
                    assert(acc@[j].0@ != e.0@);
                }
            }
            let ghost pre = acc@;
            acc.push((e.0.clone(), (e.1.0, e.1.1.clone())));
            proof {
                assert(crate::scope::vars_entries(acc@) =~= crate::scope::vars_entries(pre).push(
                    (e.0@, acc@.last().1),
                ));
                if crate::assoc::al_unique(crate::scope::vars_entries(old(acc)@)) {
                    crate::assoc::lemma_al_push(
                        crate::scope::vars_entries(pre),
                        e.0@,
                        acc@.last().1,
                    );
                }
                assert forall|n: Seq<char>| #[trigger] names_include(acc@, n) implies
                    names_include(old(acc)@, n) || exists|u: int|
                    0 <= u < t + 1 && (#[trigger] entries[u]).0 == n by {
                    let j = choose|j: int| 0 <= j < acc@.len() && (#[trigger] acc@[j]).0@ == n;
                    if j < pre.len() {
                        assert(names_include(pre, n));
                    } else {
                        assert(entries[t as int].0 == n);
                    }
                }
                assert forall|n: Seq<char>|
                    names_include(old(acc)@, n) || (exists|u: int|
                        0 <= u < t + 1 && (#[trigger] entries[u]).0 == n) implies #[trigger] names_include(
                    acc@,
                    n,
                ) by {
                    if names_include(old(acc)@, n) || (exists|u: int|
                        0 <= u < t && (#[trigger] entries[u]).0 == n) {
                        assert(names_include(pre, n));
                        let j = choose|j: int| 0 <= j < pre.len() && (#[trigger] pre[j]).0@ == n;
                        assert(acc@[j].0@ == n);
                    } else {
                        assert(acc@[pre.len() as int].0@ == n);
                    }
                }
            }
        } else {
            proof {
                crate::assoc::lemma_al_index(entries, t as int);
                assert forall|n: Seq<char>|
                    names_include(old(acc)@, n) || (exists|u: int|
                        0 <= u < t + 1 && (#[trigger] entries[u]).0 == n) implies #[trigger] names_include(
                    acc@,
                    n,
                ) by {
                    if !(names_include(old(acc)@, n) || (exists|u: int|
                        0 <= u < t && (#[trigger] entries[u]).0 == n)) {
                        assert(entries[t as int].0 == n);
                        assert(names_include(acc@, e.0@));
                    }
                }
            }
        }
        t += 1;
    }
    proof {
        assert forall|n: Seq<char>|
            #[trigger] names_include(acc@, n) <==> names_include(old(acc)@, n)
                || sc@.vars.contains_key(n) by {
            crate::assoc::lemma_al_contains(entries, n);
        }
    }
}

/// Adding one outer scope to the searched range changes a lookup only for
/// names the inner range does not resolve.
pub proof fn lemma_stack_lookup_extend<A>(stack: Seq<ScopeView<A>>, k: int, name: Seq<char>)
    requires
        0 <= k < stack.len(),
    ensures
        ({
            let outer = stack.subrange(k, stack.len() as int);
            let inner = stack.subrange(k + 1, stack.len() as int);
            stack_lookup_var(outer, name) == (if stack_lookup_var(inner, name) is Some {
                stack_lookup_var(inner, name)
            } else if stack[k].vars.contains_key(name) {
                Some(stack[k].vars[name])
            } else {
                None
            })
        }),
    decreases stack.len(),
{
    let outer = stack.subrange(k, stack.len() as int);
    let inner = stack.subrange(k + 1, stack.len() as int);
    if k == stack.len() - 1 {
        assert(inner =~= Seq::<ScopeView<A>>::empty());
        assert(outer.len() == 1);
        assert(outer.last() == stack[k]);
        assert(outer.drop_last() =~= Seq::<ScopeView<A>>::empty());
    } else {
        assert(outer.last() == stack[stack.len() - 1]);
        assert(inner.last() == stack[stack.len() - 1]);
        assert(outer.drop_last() =~= stack.drop_last().subrange(k, stack.len() - 1));
        assert(inner.drop_last() =~= stack.drop_last().subrange(k + 1, stack.len() - 1));
        assert(stack.drop_last()[k] == stack[k]);
        lemma_stack_lookup_extend(stack.drop_last(), k, name);
    }
}

/// What `lookup_var_or_func` may return when `d` is the scope that
/// decides `name`: the variable binding if `d` binds the name as a
/// variable, else some overload of `d` whose signature carries the name.
pub open spec fn vof_matches<A: Clone>(
    d: ScopeView<A>,
    name: Seq<char>,
    r: Option<FuncOrVar<A>>,
) -> bool {
    match r {
        Some(FuncOrVar::Var(b)) => d.vars.contains_key(name) && b.0 == d.vars[name].0 && cloned::<
            A,
        >(d.vars[name].1, b.1),
        Some(FuncOrVar::Func(f)) => !d.vars.contains_key(name) && exists|sv: SigV|
            #[trigger] d.funcs.contains_key(sv) && sv.0 == name && d.funcs[sv] == f@,
        None => false,
    }
}

} // verus!
