//! Value types tracked by the environment: names, types, function
//! definitions and their signatures, and ADT value constructors.

use vstd::prelude::*;

verus! {

/// An identifier; equality is case-sensitive string equality.
pub type Name = String;

/// A type of the object language, as the front-end sees it.
#[derive(Clone, Copy, Debug, PartialEq, Eq, Structural)]
pub enum Type {
    TInteger,
    TBool,
    TString,
    TVoid,
}

/// A function definition: its name, result type and named parameters.
pub struct Function {
    pub name: Name,
    pub kind: Type,
    pub params: Vec<(Name, Type)>,
}

/// Mathematical model of a [`Function`].
#[verifier::ext_equal]
pub ghost struct FunctionV {
    pub name: Seq<char>,
    pub kind: Type,
    pub params: Seq<(Seq<char>, Type)>,
}

impl View for Function {
    type V = FunctionV;

    open spec fn view(&self) -> FunctionV {
        FunctionV {
            name: self.name@,
            kind: self.kind,
            params: self.params@.map_values(|p: (Name, Type)| (p.0@, p.1)),
        }
    }
}

/// The identity of a function for overload resolution: its name together
/// with its ordered parameter types. Two signatures are equal iff the names
/// are equal and the parameter-type sequences are equal element-wise.
pub struct FuncSignature {
    pub name: Name,
    pub params: Vec<Type>,
}

/// Mathematical model of a [`FuncSignature`]: the name paired with the
/// parameter-type sequence.
pub type SigV = (Seq<char>, Seq<Type>);

impl View for FuncSignature {
    type V = SigV;

    open spec fn view(&self) -> SigV {
        (self.name@, self.params@)
    }
}

/// The signature a [`Function`] declares: its name and its parameter types
/// in order, the parameter names forgotten.
pub open spec fn sig_of(f: FunctionV) -> SigV {
    (f.name, f.params.map_values(|p: (Seq<char>, Type)| p.1))
}

/// One value constructor of an algebraic data type: a tag name and the
/// types of its fields.
pub struct ValueConstructor {
    pub name: Name,
    pub types: Vec<Type>,
}

/// Mathematical model of a [`ValueConstructor`].
#[verifier::ext_equal]
pub ghost struct ConstructorV {
    pub name: Seq<char>,
    pub types: Seq<Type>,
}

impl View for ValueConstructor {
    type V = ConstructorV;

    open spec fn view(&self) -> ConstructorV {
        ConstructorV { name: self.name@, types: self.types@ }
    }
}

/// Copies a vector of object-language types element by element.
fn copy_types(v: &Vec<Type>) -> (r: Vec<Type>)
    ensures
        r@ == v@,
{
    let mut r: Vec<Type> = Vec::new();
    let mut i: usize = 0;
    while i < v.len()
        invariant
            i <= v.len(),
            r@ == v@.subrange(0, i as int),
        decreases v.len() - i,
    {
        r.push(v[i]);
        proof {
            assert(r@ =~= v@.subrange(0, i + 1 as int));
        }
        i += 1;
    }
    proof {
        assert(r@ =~= v@);
    }
    r
}

impl FuncSignature {
    /// The null signature: the empty name with no parameters. Used as the
    /// context marker of an environment before any function is entered.
    pub fn new() -> (r: FuncSignature)
        ensures
            r@ == (Seq::<char>::empty(), Seq::<Type>::empty()),
    {
        FuncSignature { name: String::new(), params: Vec::new() }
    }

    /// The signature a function definition declares.
    pub fn from_func(f: &Function) -> (r: FuncSignature)
        ensures
            r@ == sig_of(f@),
    {
        let mut params: Vec<Type> = Vec::new();
        let mut i: usize = 0;
        while i < f.params.len()
            invariant
                i <= f.params.len(),
                params@ == f@.params.map_values(|p: (Seq<char>, Type)| p.1).subrange(0, i as int),
            decreases f.params.len() - i,
        {
            params.push(f.params[i].1);
            proof {
                assert(params@ =~= f@.params.map_values(|p: (Seq<char>, Type)| p.1).subrange(
                    0,
                    i + 1 as int,
                ));
            }
            i += 1;
        }
        proof {
            assert(params@ =~= f@.params.map_values(|p: (Seq<char>, Type)| p.1));
        }
        FuncSignature { name: f.name.clone(), params }
    }

    /// Element-wise signature equality: equal names and equal
    /// parameter-type sequences.
    pub fn same_as(&self, other: &FuncSignature) -> (r: bool)
        ensures
            r == (self@ == other@),
    {
        if !(self.name == other.name) {
            return false;
        }
        if self.params.len() != other.params.len() {
            proof {
                assert(self@.1.len() != other@.1.len());
            }
            return false;
        }
        let mut i: usize = 0;
        while i < self.params.len()
            invariant
                i <= self.params.len(),
                self.params.len() == other.params.len(),
                self.name@ == other.name@,
                forall|j: int| 0 <= j < i ==> self.params@[j] == other.params@[j],
            decreases self.params.len() - i,
        {
            if self.params[i] != other.params[i] {
                return false;
            }
            i += 1;
        }
        proof {
            assert(self@.1 =~= other@.1);
        }
        true
    }
}

impl Clone for FuncSignature {
    /// Cloning keeps the name and the parameter types.
    fn clone(&self) -> (r: Self)
        ensures
            r@ == self@,
    {
        FuncSignature { name: self.name.clone(), params: copy_types(&self.params) }
    }
}

impl Clone for Function {
    /// Cloning keeps the name, the result type and the parameters.
    fn clone(&self) -> (r: Self)
        ensures
            r@ == self@,
    {
        let mut params: Vec<(Name, Type)> = Vec::new();
        let mut i: usize = 0;
        while i < self.params.len()
            invariant
                i <= self.params.len(),
                params@.map_values(|p: (Name, Type)| (p.0@, p.1)) == self@.params.subrange(
                    0,
                    i as int,
                ),
            decreases self.params.len() - i,
        {
            let p = &self.params[i];
            proof {
                assert(params@.map_values(|q: (Name, Type)| (q.0@, q.1)).len() == params@.len());
                assert(params@.map_values(|q: (Name, Type)| (q.0@, q.1)).len()
                    == self@.params.subrange(0, i as int).len());
                assert(params@.len() == i as int);
            }
            params.push((p.0.clone(), p.1));
            proof {
                assert(params@.map_values(|q: (Name, Type)| (q.0@, q.1)) =~~= self@.params.subrange(
                    0,
                    i + 1 as int,
                ));
            }
            i += 1;
        }
        proof {
            assert(params@.map_values(|q: (Name, Type)| (q.0@, q.1)) =~~= self@.params);
        }
        let r = Function { name: self.name.clone(), kind: self.kind, params };
        proof {
            assert(r@ =~= self@);
        }
        r
    }
}

impl Clone for ValueConstructor {
    /// Cloning keeps the tag name and the field types.
    fn clone(&self) -> (r: Self)
        ensures
            r@ == self@,
    {
        let r = ValueConstructor { name: self.name.clone(), types: copy_types(&self.types) };
        proof {
            assert(r@ =~= self@);
        }
        r
    }
}

} // verus!
