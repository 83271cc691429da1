//! The laws of the scoping protocol, stated over the environment's model
//! and proved once and for all: scope round-trips, shadowing, duplicate
//! detection, immutability, assignment resolution and overload
//! independence.

use crate::ast::{FunctionV, SigV};
use crate::environment::{env_lookup_adt, env_lookup_func, env_lookup_var, funcs_overlay,
    innermost_with_var, stack_lookup_var, with_var_inserted};
use crate::scope::{empty_scope_view, ScopeView};
use vstd::prelude::*;

verus! {

/// Round-trip: whatever an inner scope came to hold, popping it restores
/// every observable — variable lookup, the visible function table,
/// function and ADT lookup — to what it was before the push.
pub proof fn lemma_scope_round_trip<A>(
    stack: Seq<ScopeView<A>>,
    globals: ScopeView<A>,
    inner: ScopeView<A>,
    name: Seq<char>,
    sig: SigV,
)
    ensures
        stack.push(inner).drop_last() == stack,
        env_lookup_var(stack.push(inner).drop_last(), globals, name) == env_lookup_var(
            stack,
            globals,
            name,
        ),
        funcs_overlay(stack.push(inner).drop_last(), globals.funcs) == funcs_overlay(
            stack,
            globals.funcs,
        ),
        env_lookup_func(stack.push(inner).drop_last(), globals, sig) == env_lookup_func(
            stack,
            globals,
            sig,
        ),
        env_lookup_adt(stack.push(inner).drop_last(), globals, name) == env_lookup_adt(
            stack,
            globals,
            name,
        ),
{
    assert(stack.push(inner).drop_last() =~= stack);
}

/// Shadowing: while an inner scope that binds `name` is active, lookup
/// returns the inner binding, whatever outer scopes and the global scope
/// hold; once that scope is popped, lookup returns exactly what it
/// returned before the push.
pub proof fn lemma_shadowing<A>(
    stack: Seq<ScopeView<A>>,
    globals: ScopeView<A>,
    inner: ScopeView<A>,
    name: Seq<char>,
)
    requires
        inner.vars.contains_key(name),
    ensures
        env_lookup_var(stack.push(inner), globals, name) == Some(inner.vars[name]),
        env_lookup_var(stack.push(inner).drop_last(), globals, name) == env_lookup_var(
            stack,
            globals,
            name,
        ),
{
    assert(stack.push(inner).last() == inner);
    assert(stack.push(inner).drop_last() =~= stack);
}

/// Duplicate detection: a successful declaration leaves the name bound in
/// the current scope, so declaring it again there hits the duplicate
/// check of `create_variable`; a freshly pushed scope binds nothing, so
/// the same declaration in a new child scope passes it.
pub proof fn lemma_duplicate_detection<A>(s: ScopeView<A>, name: Seq<char>, b: (bool, A))
    ensures
        with_var_inserted(s, name, b).vars.contains_key(name),
        !empty_scope_view::<A>().vars.contains_key(name),
{
}

/// Where `innermost_with_var` points: at the innermost stack scope that
/// binds the name, with no scope inside it binding it; or nowhere, and
/// then no stack scope binds it.
pub proof fn lemma_innermost_props<A>(stack: Seq<ScopeView<A>>, name: Seq<char>)
    ensures
        match innermost_with_var(stack, name) {
            Some(i) => 0 <= i < stack.len() && stack[i].vars.contains_key(name) && forall|j: int|
                i < j < stack.len() ==> !(#[trigger] stack[j]).vars.contains_key(name),
            None => forall|j: int|
                0 <= j < stack.len() ==> !(#[trigger] stack[j]).vars.contains_key(name),
        },
    decreases stack.len(),
{
    if stack.len() > 0 && !stack.last().vars.contains_key(name) {
        lemma_innermost_props(stack.drop_last(), name);
        match innermost_with_var(stack.drop_last(), name) {
            Some(i) => {
                assert(stack.drop_last()[i] == stack[i]);
                assert forall|j: int|
                    i < j < stack.len() implies !(#[trigger] stack[j]).vars.contains_key(name) by {
                    if j < stack.len() - 1 {
                        assert(stack.drop_last()[j] == stack[j]);
                    }
                }
            },
            None => {
                assert forall|j: int|
                    0 <= j < stack.len() implies !(#[trigger] stack[j]).vars.contains_key(name) by {
                    if j < stack.len() - 1 {
                        assert(stack.drop_last()[j] == stack[j]);
                    }
                }
            },
        }
    }
}

/// Immutability: when every block-scope binding of `name` is immutable,
/// the binding assignment resolves to — at whatever nesting depth — is
/// immutable, so `change_variable_value` fails for the name, however many
/// scopes enclose it.
pub proof fn lemma_immutability<A>(stack: Seq<ScopeView<A>>, name: Seq<char>)
    requires
        forall|j: int|
            0 <= j < stack.len() && (#[trigger] stack[j]).vars.contains_key(name)
                ==> !stack[j].vars[name].0,
    ensures
        match innermost_with_var(stack, name) {
            Some(i) => 0 <= i < stack.len() && !stack[i].vars[name].0,
            None => true,
        },
{
    lemma_innermost_props(stack, name);
}

/// Two stacks whose scopes agree on one name, level by level, resolve a
/// lookup of that name alike.
proof fn lemma_stack_lookup_congruent<A>(
    s1: Seq<ScopeView<A>>,
    s2: Seq<ScopeView<A>>,
    name: Seq<char>,
)
    requires
        s1.len() == s2.len(),
        forall|j: int|
            0 <= j < s1.len() ==> ((#[trigger] s1[j]).vars.contains_key(name) <==> (
            #[trigger] s2[j]).vars.contains_key(name)) && (s1[j].vars.contains_key(name)
                ==> s1[j].vars[name] == s2[j].vars[name]),
    ensures
        stack_lookup_var(s1, name) == stack_lookup_var(s2, name),
    decreases s1.len(),
{
    if s1.len() > 0 {
        assert(s1.last() == s1[s1.len() - 1]);
        assert(s2.last() == s2[s2.len() - 1]);
        if !s1.last().vars.contains_key(name) {
            assert forall|j: int|
                0 <= j < s1.drop_last().len() implies ((#[trigger] s1.drop_last()[j]).vars.contains_key(
                name,
            ) <==> (#[trigger] s2.drop_last()[j]).vars.contains_key(name)) && (
            s1.drop_last()[j].vars.contains_key(name) ==> s1.drop_last()[j].vars[name]
                == s2.drop_last()[j].vars[name]) by {
                assert(s1.drop_last()[j] == s1[j]);
                assert(s2.drop_last()[j] == s2[j]);
            }
            lemma_stack_lookup_congruent(s1.drop_last(), s2.drop_last(), name);
        }
    }
}

/// Assignment resolution: a successful assignment rewrites only the
/// nearest enclosing block-scope binding. Afterwards the assigned name
/// resolves to the new value and is mutable; every other name resolves as
/// before; every scope but the resolved one is untouched; and the global
/// scope, excluded from the search, is never written.
pub proof fn lemma_assignment_resolution<A>(
    stack: Seq<ScopeView<A>>,
    globals: ScopeView<A>,
    name: Seq<char>,
    v: A,
    i: int,
    other: Seq<char>,
)
    requires
        innermost_with_var(stack, name) == Some(i),
    ensures
        0 <= i < stack.len(),
        ({
            let updated = stack.update(i, with_var_inserted(stack[i], name, (true, v)));
            &&& env_lookup_var(updated, globals, name) == Some((true, v))
            &&& name != other ==> env_lookup_var(updated, globals, other) == env_lookup_var(
                stack,
                globals,
                other,
            )
            &&& forall|j: int| 0 <= j < stack.len() && j != i ==> (#[trigger] updated[j])
                == stack[j]
        }),
{
    lemma_innermost_props(stack, name);
    let updated = stack.update(i, with_var_inserted(stack[i], name, (true, v)));
    assert forall|j: int|
        i < j < updated.len() implies !(#[trigger] updated[j]).vars.contains_key(name) by {
        assert(updated[j] == stack[j]);
    }
    assert(updated[i].vars.contains_key(name) && updated[i].vars[name] == (true, v));
    crate::environment::lemma_stack_var_found(updated, name, i);
    if name != other {
        assert forall|j: int|
            0 <= j < updated.len() implies ((#[trigger] updated[j]).vars.contains_key(other) <==> (
        #[trigger] stack[j]).vars.contains_key(other)) && (updated[j].vars.contains_key(other)
            ==> updated[j].vars[other] == stack[j].vars[other]) by {
            if j != i {
                assert(updated[j] == stack[j]);
            }
        }
        lemma_stack_lookup_congruent(updated, stack, other);
    }
}

/// Overload independence: two functions that share a name but differ in
/// their parameter-type sequences have different signatures, so both can
/// stand in one scope's table, and the exact-signature lookup retrieves
/// each one.
pub proof fn lemma_overload_independence(
    m: Map<SigV, FunctionV>,
    sig1: SigV,
    sig2: SigV,
    f1: FunctionV,
    f2: FunctionV,
)
    requires
        sig1 != sig2,
    ensures
        m.insert(sig1, f1).insert(sig2, f2).contains_key(sig1),
        m.insert(sig1, f1).insert(sig2, f2).contains_key(sig2),
        m.insert(sig1, f1).insert(sig2, f2)[sig1] == f1,
        m.insert(sig1, f1).insert(sig2, f2)[sig2] == f2,
{
}

} // verus!
