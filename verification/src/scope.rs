//! One lexical binding level: its variable, function and ADT tables.

use crate::assoc::{al_map, al_unique, lemma_al_contains, lemma_al_index, lemma_al_push,
    lemma_al_update};
use crate::ast::{ConstructorV, FuncSignature, Function, FunctionV, Name, SigV, ValueConstructor};
use vstd::prelude::*;

verus! {

/// One lexical binding level, holding three independent tables: variable
/// bindings, function overloads keyed by full signature, and ADT
/// constructor lists keyed by type name.
///
/// Every table operation here is an unconditional insert or overwrite;
/// duplicate detection for variables is the environment's responsibility.
pub struct Scope<A> {
    pub variables: Vec<(Name, (bool, A))>,
    pub functions: Vec<(FuncSignature, Function)>,
    pub adts: Vec<(Name, Vec<ValueConstructor>)>,
}

/// Mathematical model of a [`Scope`]: its three tables as finite maps.
#[verifier::ext_equal]
pub ghost struct ScopeView<A> {
    pub vars: Map<Seq<char>, (bool, A)>,
    pub funcs: Map<SigV, FunctionV>,
    pub adts: Map<Seq<char>, Seq<ConstructorV>>,
}

/// The variable table's entries, keyed by name.
pub open spec fn vars_entries<A>(s: Seq<(Name, (bool, A))>) -> Seq<(Seq<char>, (bool, A))> {
    s.map_values(|p: (Name, (bool, A))| (p.0@, p.1))
}

/// The function table's entries, keyed by signature.
pub open spec fn funcs_entries(s: Seq<(FuncSignature, Function)>) -> Seq<(SigV, FunctionV)> {
    s.map_values(|p: (FuncSignature, Function)| (p.0@, p.1@))
}

/// The constructor sequence an ADT table entry holds.
pub open spec fn constructors_view(cs: Seq<ValueConstructor>) -> Seq<ConstructorV> {
    cs.map_values(|c: ValueConstructor| c@)
}

/// The ADT table's entries, keyed by type name.
pub open spec fn adts_entries(s: Seq<(Name, Vec<ValueConstructor>)>) -> Seq<
    (Seq<char>, Seq<ConstructorV>),
> {
    s.map_values(|p: (Name, Vec<ValueConstructor>)| (p.0@, constructors_view(p.1@)))
}

impl<A> View for Scope<A> {
    type V = ScopeView<A>;

    open spec fn view(&self) -> ScopeView<A> {
        ScopeView {
            vars: al_map(vars_entries(self.variables@)),
            funcs: al_map(funcs_entries(self.functions@)),
            adts: al_map(adts_entries(self.adts@)),
        }
    }
}

/// The empty scope model.
pub open spec fn empty_scope_view<A>() -> ScopeView<A> {
    ScopeView { vars: Map::empty(), funcs: Map::empty(), adts: Map::empty() }
}

/// Both tables of `b` hold clones of the bindings of `a`: the same names,
/// the same mutability, and for each name a value that `A::clone` could
/// have produced from the one in `a`.
pub open spec fn vars_cloned<A: Clone>(
    a: Map<Seq<char>, (bool, A)>,
    b: Map<Seq<char>, (bool, A)>,
) -> bool {
    &&& a.dom() == b.dom()
    &&& forall|k: Seq<char>|
        #[trigger] a.contains_key(k) ==> b[k].0 == a[k].0 && vstd::pervasive::cloned::<A>(
            a[k].1,
            b[k].1,
        )
}

/// `b` is a clone of scope `a`: its variable bindings are clones, and its
/// function and ADT tables are equal.
pub open spec fn scope_cloned<A: Clone>(a: ScopeView<A>, b: ScopeView<A>) -> bool {
    &&& vars_cloned(a.vars, b.vars)
    &&& b.funcs == a.funcs
    &&& b.adts == a.adts
}

/// The index of the entry that binds `name`, if any.
fn find_var_index<A>(v: &Vec<(Name, (bool, A))>, name: &Name) -> (r: Option<usize>)
    ensures
        match r {
            Some(i) => i < v@.len() && v@[i as int].0@ == name@,
            None => forall|j: int| 0 <= j < v@.len() ==> (#[trigger] v@[j]).0@ != name@,
        },
{
    let mut i: usize = 0;
    while i < v.len()
        invariant
            i <= v@.len(),
            forall|j: int| 0 <= j < i ==> (#[trigger] v@[j]).0@ != name@,
        decreases v@.len() - i,
    {
        if v[i].0 == *name {
            return Some(i);
        }
        i += 1;
    }
    None
}

/// The index of the entry keyed by the exact signature, if any.
fn find_func_index(v: &Vec<(FuncSignature, Function)>, sig: &FuncSignature) -> (r: Option<usize>)
    ensures
        match r {
            Some(i) => i < v@.len() && v@[i as int].0@ == sig@,
            None => forall|j: int| 0 <= j < v@.len() ==> (#[trigger] v@[j]).0@ != sig@,
        },
{
    let mut i: usize = 0;
    while i < v.len()
        invariant
            i <= v@.len(),
            forall|j: int| 0 <= j < i ==> (#[trigger] v@[j]).0@ != sig@,
        decreases v@.len() - i,
    {
        if v[i].0.same_as(sig) {
            return Some(i);
        }
        i += 1;
    }
    None
}

/// The index of the entry for `name`, if any.
fn find_adt_index(v: &Vec<(Name, Vec<ValueConstructor>)>, name: &Name) -> (r: Option<usize>)
    ensures
        match r {
            Some(i) => i < v@.len() && v@[i as int].0@ == name@,
            None => forall|j: int| 0 <= j < v@.len() ==> (#[trigger] v@[j]).0@ != name@,
        },
{
    let mut i: usize = 0;
    while i < v.len()
        invariant
            i <= v@.len(),
            forall|j: int| 0 <= j < i ==> (#[trigger] v@[j]).0@ != name@,
        decreases v@.len() - i,
    {
        if v[i].0 == *name {
            return Some(i);
        }
        i += 1;
    }
    None
}

/// Clones a constructor list element by element.
fn clone_constructors(v: &Vec<ValueConstructor>) -> (r: Vec<ValueConstructor>)
    ensures
        constructors_view(r@) == constructors_view(v@),
{
    let mut r: Vec<ValueConstructor> = Vec::new();
    let mut i: usize = 0;
    while i < v.len()
        invariant
            i <= v@.len(),
            constructors_view(r@) == constructors_view(v@).subrange(0, i as int),
        decreases v@.len() - i,
    {
        proof {
            assert(constructors_view(r@).len() == r@.len());
            assert(constructors_view(r@).len() == constructors_view(v@).subrange(0, i as int).len());
            assert(r@.len() == i as int);
        }
        r.push(v[i].clone());
        proof {
            assert(constructors_view(r@) =~= constructors_view(v@).subrange(0, i + 1 as int));
        }
        i += 1;
    }
    proof {
        assert(constructors_view(r@) =~~= constructors_view(v@));
    }
    r
}

/// Inserts or overwrites one entry of a function table held as a vector
/// with distinct keys.
pub(crate) fn insert_function_entry(
    acc: &mut Vec<(FuncSignature, Function)>,
    sig: FuncSignature,
    f: Function,
)
    requires
        al_unique(funcs_entries(old(acc)@)),
    ensures
        al_unique(funcs_entries(final(acc)@)),
        al_map(funcs_entries(final(acc)@)) == al_map(funcs_entries(old(acc)@)).insert(sig@, f@),
{
    let ghost entries = funcs_entries(acc@);
    match find_func_index(acc, &sig) {
        Some(i) => {
            acc[i] = (sig, f);
            proof {
                assert(funcs_entries(acc@) =~= entries.update(i as int, (entries[i as int].0, f@)));
                lemma_al_update(entries, i as int, f@);
            }
        },
        None => {
            proof {
                assert(forall|j: int| 0 <= j < entries.len() ==> (#[trigger] entries[j]).0 != sig@);
                lemma_al_push(entries, sig@, f@);
            }
            let ghost sv = sig@;
            acc.push((sig, f));
            proof {
                assert(funcs_entries(acc@) =~= entries.push((sv, f@)));
            }
        },
    }
}

impl<A> Scope<A> {
    /// The keys of each table are pairwise distinct.
    pub open spec fn wf(&self) -> bool {
        &&& al_unique(vars_entries(self.variables@))
        &&& al_unique(funcs_entries(self.functions@))
        &&& al_unique(adts_entries(self.adts@))
    }

    /// A scope with all three tables empty.
    pub fn new() -> (r: Scope<A>)
        ensures
            r@ == empty_scope_view::<A>(),
            r.wf(),
    {
        let r = Scope { variables: Vec::new(), functions: Vec::new(), adts: Vec::new() };
        proof {
            assert(vars_entries(r.variables@) =~= Seq::<(Seq<char>, (bool, A))>::empty());
            assert(funcs_entries(r.functions@) =~= Seq::<(SigV, FunctionV)>::empty());
            assert(adts_entries(r.adts@) =~= Seq::<(Seq<char>, Seq<ConstructorV>)>::empty());
            assert(r@ =~= empty_scope_view::<A>());
        }
        r
    }

    /// Unconditional insert or overwrite of a variable binding; never
    /// fails. Duplicate detection is the environment's responsibility.
    pub fn map_variable(&mut self, var: Name, mutable: bool, value: A)
        requires
            old(self).wf(),
        ensures
            final(self).wf(),
            final(self)@ == (ScopeView { vars: old(self)@.vars.insert(var@, (mutable, value)), ..old(self)@ }),
    {
        let ghost entries = vars_entries(self.variables@);
        match find_var_index(&self.variables, &var) {
            Some(i) => {
                self.variables[i] = (var, (mutable, value));
                proof {
                    assert(vars_entries(self.variables@) =~= entries.update(
                        i as int,
                        (entries[i as int].0, (mutable, value)),
                    ));
                    lemma_al_update(entries, i as int, (mutable, value));
                    assert(self@ =~= (ScopeView {
                        vars: old(self)@.vars.insert(var@, (mutable, value)),
                        ..old(self)@
                    }));
                }
            },
            None => {
                proof {
                    assert(forall|j: int|
                        0 <= j < entries.len() ==> (#[trigger] entries[j]).0 != var@);
                    lemma_al_push(entries, var@, (mutable, value));
                }
                self.variables.push((var, (mutable, value)));
                proof {
                    assert(vars_entries(self.variables@) =~= entries.push(
                        (var@, (mutable, value)),
                    ));
                    assert(self@ =~= (ScopeView {
                        vars: old(self)@.vars.insert(var@, (mutable, value)),
                        ..old(self)@
                    }));
                }
            },
        }
    }

    /// Unconditional insert or overwrite of a function definition, keyed
    /// by the full signature the definition declares.
    pub fn map_function(&mut self, function: Function)
        requires
            old(self).wf(),
        ensures
            final(self).wf(),
            final(self)@ == (ScopeView {
                funcs: old(self)@.funcs.insert(crate::ast::sig_of(function@), function@),
                ..old(self)@
            }),
    {
        let func_signature = FuncSignature::from_func(&function);
        let ghost entries = funcs_entries(self.functions@);
        match find_func_index(&self.functions, &func_signature) {
            Some(i) => {
                self.functions[i] = (func_signature, function);
                proof {
                    assert(funcs_entries(self.functions@) =~= entries.update(
                        i as int,
                        (entries[i as int].0, function@),
                    ));
                    lemma_al_update(entries, i as int, function@);
                    assert(self@ =~= (ScopeView {
                        funcs: old(self)@.funcs.insert(crate::ast::sig_of(function@), function@),
                        ..old(self)@
                    }));
                }
            },
            None => {
                proof {
                    assert(forall|j: int|
                        0 <= j < entries.len() ==> (#[trigger] entries[j]).0 != func_signature@);
                    lemma_al_push(entries, func_signature@, function@);
                }
                self.functions.push((func_signature, function));
                proof {
                    assert(funcs_entries(self.functions@) =~= entries.push(
                        (crate::ast::sig_of(function@), function@),
                    ));
                    assert(self@ =~= (ScopeView {
                        funcs: old(self)@.funcs.insert(crate::ast::sig_of(function@), function@),
                        ..old(self)@
                    }));
                }
            },
        }
    }

    /// Unconditional insert or overwrite of an ADT's constructor list.
    pub fn map_adt(&mut self, name: Name, adt: Vec<ValueConstructor>)
        requires
            old(self).wf(),
        ensures
            final(self).wf(),
            final(self)@ == (ScopeView {
                adts: old(self)@.adts.insert(name@, constructors_view(adt@)),
                ..old(self)@
            }),
    {
        let ghost entries = adts_entries(self.adts@);
        match find_adt_index(&self.adts, &name) {
            Some(i) => {
                self.adts[i] = (name, adt);
                proof {
                    assert(adts_entries(self.adts@) =~= entries.update(
                        i as int,
                        (entries[i as int].0, constructors_view(adt@)),
                    ));
                    lemma_al_update(entries, i as int, constructors_view(adt@));
                    assert(self@ =~= (ScopeView {
                        adts: old(self)@.adts.insert(name@, constructors_view(adt@)),
                        ..old(self)@
                    }));
                }
            },
            None => {
                proof {
                    assert(forall|j: int|
                        0 <= j < entries.len() ==> (#[trigger] entries[j]).0 != name@);
                    lemma_al_push(entries, name@, constructors_view(adt@));
                }
                self.adts.push((name, adt));
                proof {
                    assert(adts_entries(self.adts@) =~= entries.push(
                        (name@, constructors_view(adt@)),
                    ));
                    assert(self@ =~= (ScopeView {
                        adts: old(self)@.adts.insert(name@, constructors_view(adt@)),
                        ..old(self)@
                    }));
                }
            },
        }
    }

    /// The function keyed by the exact signature in this scope, if any.
    pub fn lookup_function(&self, func_signature: &FuncSignature) -> (r: Option<Function>)
        requires
            self.wf(),
        ensures
            match r {
                Some(f) => self@.funcs.contains_key(func_signature@) && f@ == self@.funcs[
                    func_signature@
                ],
                None => !self@.funcs.contains_key(func_signature@),
            },
    {
        let ghost entries = funcs_entries(self.functions@);
        match find_func_index(&self.functions, func_signature) {
            Some(i) => {
                proof {
                    lemma_al_index(entries, i as int);
                }
                Some(self.functions[i].1.clone())
            },
            None => {
                proof {
                    lemma_al_contains(entries, func_signature@);
                }
                None
            },
        }
    }
}

impl<A: Clone> Scope<A> {
    /// The binding of `name` in this scope, if any: its mutability and a
    /// clone of its value.
    pub fn lookup_var(&self, var: &Name) -> (r: Option<(bool, A)>)
        requires
            self.wf(),
        ensures
            match r {
                Some(b) => self@.vars.contains_key(var@) && b.0 == self@.vars[var@].0
                    && vstd::pervasive::cloned::<A>(self@.vars[var@].1, b.1),
                None => !self@.vars.contains_key(var@),
            },
    {
        let ghost entries = vars_entries(self.variables@);
        match find_var_index(&self.variables, var) {
            Some(i) => {
                proof {
                    lemma_al_index(entries, i as int);
                }
                let e = &self.variables[i];
                Some((e.1.0, e.1.1.clone()))
            },
            None => {
                proof {
                    lemma_al_contains(entries, var@);
                }
                None
            },
        }
    }

    /// Some function whose signature carries `name`, if any. When several
    /// overloads share the name within this scope, which one is returned
    /// is unspecified.
    pub fn lookup_function_by_name(&self, name: &Name) -> (r: Option<Function>)
        requires
            self.wf(),
        ensures
            match r {
                Some(f) => exists|sv: SigV|
                    #[trigger] self@.funcs.contains_key(sv) && sv.0 == name@ && self@.funcs[sv]
                        == f@,
                None => forall|sv: SigV| #[trigger] self@.funcs.contains_key(sv) ==> sv.0 != name@,
            },
    {
        let ghost entries = funcs_entries(self.functions@);
        let mut i: usize = 0;
        while i < self.functions.len()
            invariant
                self.wf(),
                i <= self.functions@.len(),
                entries == funcs_entries(self.functions@),
                forall|j: int| 0 <= j < i ==> (#[trigger] entries[j]).0.0 != name@,
            decreases self.functions@.len() - i,
        {
            if self.functions[i].0.name == *name {
                let f = self.functions[i].1.clone();
                proof {
                    lemma_al_index(entries, i as int);
                    let sv = entries[i as int].0;
                    assert(self@.funcs.contains_key(sv) && sv.0 == name@ && self@.funcs[sv] == f@);
                }
                return Some(f);
            }
            i += 1;
        }
        proof {
            assert forall|sv: SigV| #[trigger] self@.funcs.contains_key(sv) implies sv.0 != name@
            by {
                lemma_al_contains(entries, sv);
                let j = choose|j: int| 0 <= j < entries.len() && (#[trigger] entries[j]).0 == sv;
                assert(entries[j].0.0 != name@);
            }
        }
        None
    }

    /// The constructor list of the ADT named `name` in this scope, if any.
    pub fn lookup_adt(&self, name: &Name) -> (r: Option<Vec<ValueConstructor>>)
        requires
            self.wf(),
        ensures
            match r {
                Some(cs) => self@.adts.contains_key(name@) && constructors_view(cs@) == self@.adts[
                    name@
                ],
                None => !self@.adts.contains_key(name@),
            },
    {
        let ghost entries = adts_entries(self.adts@);
        match find_adt_index(&self.adts, name) {
            Some(i) => {
                proof {
                    lemma_al_index(entries, i as int);
                }
                Some(clone_constructors(&self.adts[i].1))
            },
            None => {
                proof {
                    lemma_al_contains(entries, name@);
                }
                None
            },
        }
    }
}

impl<A: Clone> Clone for Scope<A> {
    /// Cloning keeps both key sets, the function and ADT tables exactly,
    /// and clones each variable's value.
    fn clone(&self) -> (r: Self)
        ensures
            self.wf() ==> r.wf() && scope_cloned(self@, r@),
    {
        let mut variables: Vec<(Name, (bool, A))> = Vec::new();
        let mut i: usize = 0;
        while i < self.variables.len()
            invariant
                i <= self.variables@.len(),
                variables@.len() == i,
                forall|j: int|
                    0 <= j < i ==> (#[trigger] variables@[j]).0@ == self.variables@[j].0@
                        && variables@[j].1.0 == self.variables@[j].1.0
                        && vstd::pervasive::cloned::<A>(
                        self.variables@[j].1.1,
                        variables@[j].1.1,
                    ),
            decreases self.variables@.len() - i,
        {
            let e = &self.variables[i];
            variables.push((e.0.clone(), (e.1.0, e.1.1.clone())));
            i += 1;
        }
        let mut functions: Vec<(FuncSignature, Function)> = Vec::new();
        let mut i: usize = 0;
        while i < self.functions.len()
            invariant
                i <= self.functions@.len(),
                funcs_entries(functions@) == funcs_entries(self.functions@).subrange(0, i as int),
            decreases self.functions@.len() - i,
        {
            let e = &self.functions[i];
            proof {
                assert(funcs_entries(functions@).len() == functions@.len());
                assert(funcs_entries(functions@).len() == funcs_entries(
                    self.functions@,
                ).subrange(0, i as int).len());
                assert(functions@.len() == i as int);
            }
            functions.push((e.0.clone(), e.1.clone()));
            proof {
                assert(funcs_entries(functions@) =~~= funcs_entries(self.functions@).subrange(
                    0,
                    i + 1 as int,
                ));
            }
            i += 1;
        }
        let mut adts: Vec<(Name, Vec<ValueConstructor>)> = Vec::new();
        let mut i: usize = 0;
        while i < self.adts.len()
            invariant
                i <= self.adts@.len(),
                adts_entries(adts@) == adts_entries(self.adts@).subrange(0, i as int),
            decreases self.adts@.len() - i,
        {
            let e = &self.adts[i];
            proof {
                assert(adts_entries(adts@).len() == adts@.len());
                assert(adts_entries(adts@).len() == adts_entries(self.adts@).subrange(
                    0,
                    i as int,
                ).len());
                assert(adts@.len() == i as int);
            }
            adts.push((e.0.clone(), clone_constructors(&e.1)));
            proof {
                assert(adts_entries(adts@) =~~= adts_entries(self.adts@).subrange(0, i + 1 as int));
            }
            i += 1;
        }
        let r = Scope { variables, functions, adts };
        proof {
            assert(funcs_entries(r.functions@) =~~= funcs_entries(self.functions@));
            assert(adts_entries(r.adts@) =~~= adts_entries(self.adts@));
            if self.wf() {
                lemma_vars_entries_cloned(self.variables@, r.variables@);
            }
        }
        r
    }
}

/// Bindings copied entry by entry denote clones of the same map: the key
/// sets agree, mutability agrees, and each value is a clone.
proof fn lemma_vars_entries_cloned<A: Clone>(
    a: Seq<(Name, (bool, A))>,
    b: Seq<(Name, (bool, A))>,
)
    requires
        al_unique(vars_entries(a)),
        a.len() == b.len(),
        forall|j: int|
            0 <= j < a.len() ==> (#[trigger] b[j]).0@ == a[j].0@ && b[j].1.0 == a[j].1.0
                && vstd::pervasive::cloned::<A>(a[j].1.1, b[j].1.1),
    ensures
        al_unique(vars_entries(b)),
        vars_cloned(al_map(vars_entries(a)), al_map(vars_entries(b))),
{
    let ea = vars_entries(a);
    let eb = vars_entries(b);
    assert forall|i: int, j: int| 0 <= i < j < eb.len() implies (#[trigger] eb[i]).0 != (
    #[trigger] eb[j]).0 by {
        assert(ea[i].0 != ea[j].0);
    }
    let ma = al_map(ea);
    let mb = al_map(eb);
    assert forall|k: Seq<char>| ma.contains_key(k) <==> mb.contains_key(k) by {
        lemma_al_contains(ea, k);
        lemma_al_contains(eb, k);
        if ma.contains_key(k) {
            let i = choose|i: int| 0 <= i < ea.len() && (#[trigger] ea[i]).0 == k;
            assert(eb[i].0 == k);
        }
        if mb.contains_key(k) {
            let i = choose|i: int| 0 <= i < eb.len() && (#[trigger] eb[i]).0 == k;
            assert(ea[i].0 == k);
        }
    }
    assert(ma.dom() =~= mb.dom());
    assert forall|k: Seq<char>| #[trigger] ma.contains_key(k) implies mb[k].0 == ma[k].0
        && vstd::pervasive::cloned::<A>(ma[k].1, mb[k].1) by {
        lemma_al_contains(ea, k);
        let i = choose|i: int| 0 <= i < ea.len() && (#[trigger] ea[i]).0 == k;
        lemma_al_index(ea, i);
        lemma_al_index(eb, i);
        assert(eb[i].0 == k);
    }
}

} // verus!
