use lexenv::ast::{FuncSignature, Function, Type, ValueConstructor};
use lexenv::environment::{EnvError, Environment, FuncOrVar};

fn func(name: &str, kind: Type, param_types: &[Type]) -> Function {
    Function {
        name: name.to_string(),
        kind,
        params: param_types
            .iter()
            .enumerate()
            .map(|(i, t)| (format!("p{}", i), *t))
            .collect(),
    }
}

fn sig(name: &str, param_types: &[Type]) -> FuncSignature {
    FuncSignature { name: name.to_string(), params: param_types.to_vec() }
}

#[test]
fn variable_scoping_and_shadowing() {
    let mut env: Environment<i32> = Environment::new();

    assert!(env.create_variable("x".to_string(), true, 32).is_ok());
    assert_eq!(Some((true, 32)), env.lookup(&"x".to_string()));

    env.push();
    assert!(env.create_variable("y".to_string(), true, 23).is_ok());
    assert!(env.create_variable("x".to_string(), true, 55).is_ok());
    assert_eq!(Some((true, 55)), env.lookup(&"x".to_string()));
    assert_eq!(Some((true, 23)), env.lookup(&"y".to_string()));

    env.pop();
    assert_eq!(Some((true, 32)), env.lookup(&"x".to_string()));
    assert_eq!(None, env.lookup(&"y".to_string()));
}

#[test]
fn immutable_assignment_fails() {
    let mut env: Environment<i32> = Environment::new();
    env.push();
    assert!(env.create_variable("c".to_string(), false, 10).is_ok());
    let r = env.change_variable_value("c".to_string(), 20);
    assert!(matches!(r, Err(EnvError::ImmutableAssignment(n)) if n == "c"));
    assert_eq!(Some((false, 10)), env.lookup(&"c".to_string()));
}

#[test]
fn immutable_assignment_fails_at_any_depth() {
    let mut env: Environment<i32> = Environment::new();
    env.push();
    assert!(env.create_variable("c".to_string(), false, 10).is_ok());
    env.push();
    env.push();
    let r = env.change_variable_value("c".to_string(), 20);
    assert!(matches!(r, Err(EnvError::ImmutableAssignment(n)) if n == "c"));
}

#[test]
fn duplicate_declaration_fails_in_same_scope_only() {
    let mut env: Environment<i32> = Environment::new();
    assert!(env.create_variable("x".to_string(), true, 1).is_ok());
    let r = env.create_variable("x".to_string(), true, 2);
    assert!(matches!(r, Err(EnvError::DuplicateDeclaration(n, _)) if n == "x"));
    // the failed declaration changed nothing
    assert_eq!(Some((true, 1)), env.lookup(&"x".to_string()));
    // a freshly pushed child scope accepts the same name
    env.push();
    assert!(env.create_variable("x".to_string(), true, 2).is_ok());
    assert_eq!(Some((true, 2)), env.lookup(&"x".to_string()));
}

#[test]
fn assignment_skips_global_scope() {
    let mut env: Environment<i32> = Environment::new();
    assert!(env.create_variable("g".to_string(), true, 1).is_ok());
    env.push();
    let r = env.change_variable_value("g".to_string(), 5);
    assert!(matches!(r, Err(EnvError::UndeclaredVariable(n, _)) if n == "g"));
    // the global binding is untouched
    assert_eq!(Some((true, 1)), env.lookup(&"g".to_string()));
}

#[test]
fn assignment_updates_nearest_mutable_binding() {
    let mut env: Environment<i32> = Environment::new();
    env.push();
    assert!(env.create_variable("v".to_string(), true, 1).is_ok());
    env.push();
    assert!(env.create_variable("v".to_string(), true, 2).is_ok());
    assert!(env.change_variable_value("v".to_string(), 9).is_ok());
    assert_eq!(Some((true, 9)), env.lookup(&"v".to_string()));
    env.pop();
    // the outer binding was left untouched
    assert_eq!(Some((true, 1)), env.lookup(&"v".to_string()));
}

#[test]
fn undeclared_assignment_carries_current_function() {
    let mut env: Environment<i32> = Environment::new();
    env.set_current_func(&sig("main", &[Type::TVoid]));
    env.push();
    let r = env.change_variable_value("nope".to_string(), 1);
    match r {
        Err(EnvError::UndeclaredVariable(n, ctx)) => {
            assert_eq!(n, "nope");
            assert_eq!(ctx.name, "main");
        }
        _ => panic!("expected an undeclared-variable error"),
    }
}

#[test]
fn overload_independence() {
    let mut env: Environment<i32> = Environment::new();
    let f_int = func("f", Type::TInteger, &[Type::TInteger]);
    let f_str = func("f", Type::TString, &[Type::TString]);
    env.map_function(f_int);
    env.map_function(f_str);

    let got_int = env.lookup_function(&sig("f", &[Type::TInteger]));
    assert!(matches!(got_int, Some(f) if f.kind == Type::TInteger));
    let got_str = env.lookup_function(&sig("f", &[Type::TString]));
    assert!(matches!(got_str, Some(f) if f.kind == Type::TString));
    assert!(env.lookup_function(&sig("f", &[Type::TBool])).is_none());

    // by name, one of the two overloads comes back (which one is unspecified)
    let by_name = env.lookup_var_or_func(&"f".to_string());
    assert!(matches!(by_name, Some(FuncOrVar::Func(f)) if f.name == "f"));
    let in_scope = env.get_current_scope().lookup_function_by_name(&"f".to_string());
    assert!(matches!(
        in_scope,
        Some(f) if f.name == "f" && (f.kind == Type::TInteger || f.kind == Type::TString)
    ));
    assert!(env
        .get_current_scope()
        .lookup_function_by_name(&"absent".to_string())
        .is_none());
}

#[test]
fn exact_signature_replaces_silently() {
    let mut env: Environment<i32> = Environment::new();
    env.map_function(func("f", Type::TInteger, &[Type::TInteger]));
    env.map_function(func("f", Type::TVoid, &[Type::TInteger]));
    let got = env.lookup_function(&sig("f", &[Type::TInteger]));
    assert!(matches!(got, Some(f) if f.kind == Type::TVoid));
    assert_eq!(env.get_all_functions().len(), 1);
}

#[test]
fn function_scoping() {
    let mut env: Environment<i32> = Environment::new();
    env.map_function(func("global", Type::TVoid, &[]));
    assert!(env.lookup_function(&sig("global", &[])).is_some());

    env.push();
    env.map_function(func("local", Type::TVoid, &[]));
    assert!(env.lookup_function(&sig("global", &[])).is_some());
    assert!(env.lookup_function(&sig("local", &[])).is_some());

    env.pop();
    assert!(env.lookup_function(&sig("global", &[])).is_some());
    assert!(env.lookup_function(&sig("local", &[])).is_none());
}

#[test]
fn variable_takes_precedence_over_function() {
    let mut env: Environment<i32> = Environment::new();
    env.push();
    env.map_function(func("n", Type::TVoid, &[]));
    assert!(env.create_variable("n".to_string(), true, 7).is_ok());
    let got = env.lookup_var_or_func(&"n".to_string());
    assert!(matches!(got, Some(FuncOrVar::Var((true, 7)))));
    // an inner variable hides an outer function of the same name
    env.push();
    assert!(env.create_variable("m".to_string(), false, 1).is_ok());
    env.map_function(func("m", Type::TVoid, &[]));
    let got = env.lookup_var_or_func(&"m".to_string());
    assert!(matches!(got, Some(FuncOrVar::Var((false, 1)))));
}

#[test]
fn map_variable_overwrites_without_error() {
    let mut env: Environment<i32> = Environment::new();
    env.map_variable("x".to_string(), true, 1);
    env.map_variable("x".to_string(), false, 2);
    assert_eq!(Some((false, 2)), env.lookup(&"x".to_string()));
    assert_eq!(env.get_all_variables().len(), 1);
}

#[test]
fn adt_scoping() {
    let mut env: Environment<i32> = Environment::new();
    let cons = vec![
        ValueConstructor { name: "Circle".to_string(), types: vec![Type::TInteger] },
        ValueConstructor { name: "Point".to_string(), types: vec![] },
    ];
    env.map_adt("Shape".to_string(), cons);
    let got = env.lookup_adt(&"Shape".to_string()).expect("adt declared");
    assert_eq!(got.len(), 2);
    assert_eq!(got[0].name, "Circle");
    assert_eq!(got[0].types, vec![Type::TInteger]);
    assert_eq!(got[1].name, "Point");
    assert!(env.lookup_adt(&"Colour".to_string()).is_none());

    env.push();
    env.map_adt("Shape".to_string(), vec![ValueConstructor {
        name: "Square".to_string(),
        types: vec![Type::TInteger],
    }]);
    let inner = env.lookup_adt(&"Shape".to_string()).expect("inner adt");
    assert_eq!(inner.len(), 1);
    env.pop();
    assert_eq!(env.lookup_adt(&"Shape".to_string()).expect("outer adt").len(), 2);
}

#[test]
fn round_trip_restores_observables() {
    let mut env: Environment<i32> = Environment::new();
    assert!(env.create_variable("a".to_string(), true, 1).is_ok());
    env.map_function(func("f", Type::TVoid, &[]));
    env.map_adt("T".to_string(), vec![ValueConstructor {
        name: "C".to_string(),
        types: vec![],
    }]);

    let vars_before = env.get_all_variables();
    let funcs_before = env.get_all_functions();
    let adt_before = env.lookup_adt(&"T".to_string());

    env.push();
    assert!(env.create_variable("tmp".to_string(), true, 9).is_ok());
    env.map_function(func("g", Type::TVoid, &[]));
    env.map_adt("U".to_string(), vec![]);
    env.pop();

    let vars_after = env.get_all_variables();
    let funcs_after = env.get_all_functions();
    let adt_after = env.lookup_adt(&"T".to_string());

    assert_eq!(vars_before.len(), vars_after.len());
    for (name, binding) in &vars_before {
        assert!(vars_after.iter().any(|(n, b)| n == name && b == binding));
    }
    assert_eq!(funcs_before.len(), funcs_after.len());
    for (s, f) in &funcs_before {
        assert!(funcs_after.iter().any(|(s2, f2)| s2.same_as(s) && f2.name == f.name));
    }
    let before = adt_before.expect("adt before");
    let after = adt_after.expect("adt after");
    assert_eq!(before.len(), after.len());
    assert_eq!(before[0].name, after[0].name);
    assert!(env.lookup_adt(&"U".to_string()).is_none());
    assert_eq!(None, env.lookup(&"tmp".to_string()));
    assert!(env.lookup_function(&sig("g", &[])).is_none());
}

#[test]
fn get_all_variables_respects_shadowing() {
    let mut env: Environment<i32> = Environment::new();
    assert!(env.create_variable("x".to_string(), true, 1).is_ok());
    assert!(env.create_variable("y".to_string(), false, 2).is_ok());
    env.push();
    assert!(env.create_variable("x".to_string(), true, 10).is_ok());
    let all = env.get_all_variables();
    assert_eq!(all.len(), 2);
    let x = all.iter().find(|(n, _)| n == "x").expect("x visible");
    assert_eq!(x.1, (true, 10));
    let y = all.iter().find(|(n, _)| n == "y").expect("y visible");
    assert_eq!(y.1, (false, 2));
}

#[test]
fn get_all_functions_inner_definition_wins() {
    let mut env: Environment<i32> = Environment::new();
    env.map_function(func("f", Type::TInteger, &[Type::TInteger]));
    env.push();
    env.map_function(func("f", Type::TVoid, &[Type::TInteger]));
    env.map_function(func("h", Type::TVoid, &[]));
    let all = env.get_all_functions();
    assert_eq!(all.len(), 2);
    let f = all
        .iter()
        .find(|(s, _)| s.same_as(&sig("f", &[Type::TInteger])))
        .expect("f visible");
    assert_eq!(f.1.kind, Type::TVoid);
}

#[test]
fn current_scope_and_stack_accessors() {
    let mut env: Environment<i32> = Environment::new();
    assert!(!env.scoped_function());
    env.map_variable("g".to_string(), true, 1);
    assert!(env.get_current_scope().lookup_var(&"g".to_string()).is_some());

    env.push();
    assert!(env.scoped_function());
    env.map_variable("l".to_string(), true, 2);
    let current = env.get_current_scope();
    assert!(current.lookup_var(&"l".to_string()).is_some());
    assert!(current.lookup_var(&"g".to_string()).is_none());

    let globals = env.get_globals();
    assert_eq!(Some((true, 1)), globals.lookup_var(&"g".to_string()));

    let stack = env.get_stack();
    assert_eq!(stack.len(), 1);
    assert_eq!(Some((true, 2)), stack[0].lookup_var(&"l".to_string()));

    // a cleared stack drops every block binding
    env.set_stack(Vec::new());
    assert!(!env.scoped_function());
    assert_eq!(None, env.lookup(&"l".to_string()));
    assert_eq!(Some((true, 1)), env.lookup(&"g".to_string()));
}

#[test]
fn set_global_functions_replaces_table() {
    let mut env: Environment<i32> = Environment::new();
    env.map_function(func("old", Type::TVoid, &[]));
    let table = vec![
        (sig("a", &[]), func("a", Type::TVoid, &[])),
        (sig("b", &[Type::TBool]), func("b", Type::TBool, &[Type::TBool])),
    ];
    env.set_global_functions(table);
    assert!(env.lookup_function(&sig("old", &[])).is_none());
    assert!(env.lookup_function(&sig("a", &[])).is_some());
    assert!(env.lookup_function(&sig("b", &[Type::TBool])).is_some());
}

#[test]
fn output_lines_are_collected_in_order() {
    let mut env: Environment<i32> = Environment::new();
    env.insert_output_line("first");
    env.insert_output_line("second");
    assert_eq!(env.get_output(), vec!["first".to_string(), "second".to_string()]);
    // reading the output does not consume it
    assert_eq!(env.get_output().len(), 2);
}

#[test]
fn signature_equality_is_name_and_parameter_types() {
    let a = sig("f", &[Type::TInteger, Type::TBool]);
    let b = sig("f", &[Type::TInteger, Type::TBool]);
    let c = sig("f", &[Type::TBool, Type::TInteger]);
    let d = sig("g", &[Type::TInteger, Type::TBool]);
    assert!(a.same_as(&b));
    assert!(!a.same_as(&c));
    assert!(!a.same_as(&d));
    let from = FuncSignature::from_func(&func("f", Type::TVoid, &[Type::TInteger, Type::TBool]));
    assert!(from.same_as(&a));
    let null = FuncSignature::new();
    assert_eq!(null.name, "");
    assert!(null.params.is_empty());
}

#[test]
fn lookup_var_or_func_falls_back_to_globals() {
    let mut env: Environment<i32> = Environment::new();
    env.map_function(func("gf", Type::TVoid, &[]));
    env.map_variable("gv".to_string(), true, 3);
    env.push();
    assert!(matches!(
        env.lookup_var_or_func(&"gv".to_string()),
        Some(FuncOrVar::Var((true, 3)))
    ));
    assert!(matches!(
        env.lookup_var_or_func(&"gf".to_string()),
        Some(FuncOrVar::Func(f)) if f.name == "gf"
    ));
    assert!(env.lookup_var_or_func(&"absent".to_string()).is_none());
}
