use engine::builder::Builder;
use engine::errors::{Error, ErrorCode, ErrorVariant, StrictModeViolation};
use engine::flags::{CompileFlags, LOOP, STRCT_NO_FUNC, STRCT_NO_MACRO, WHILE};
use engine::fs::{Directory, Path};
use engine::modctx::FuncContext;
use engine::modmap::ModuleMap;
use engine::names::{FuncName, ModuleName};
use engine::uint::UInt;
use engine::vars::Variables;

fn file(contents: &str) -> Path {
    Path::File(contents.to_string())
}

fn codes(errors: &[Error]) -> Vec<&ErrorCode> {
    errors
        .iter()
        .filter_map(|e| match &e.variant {
            ErrorVariant::ErrorCode(c) => Some(c),
            _ => None,
        })
        .collect()
}

fn run_to_end(snip: &str, locals: Variables, fs: Option<Directory>) -> Variables {
    let mut rt = Builder::ext_all(snip, None, Some(locals), fs).expect("compiles");
    let mut steps = 0;
    while rt.is_running() && steps < 10_000 {
        rt.step();
        steps += 1;
    }
    assert!(!rt.is_running());
    rt.context()
}

fn get(vars: &Variables, name: &str) -> String {
    vars.get(&name.to_string()).map(|v| v.to_decimal()).unwrap_or_else(|| "0".to_string())
}

#[test]
fn test_imports_fs() {
    let snip = "FROM fs::example IMPORT a\nFROM fs::.::example IMPORT b\nFROM fs::.::.::.::example IMPORT c\nFROM fs::dir::child IMPORT d\n";
    let example = "FN a(_) -> c DECL\n    ...\nEND\n\nFN b(_) -> c DECL\n    ...\nEND\n\nFN c(_) -> c DECL\n    ...\nEND\n";
    let child = "FROM fs::..::example IMPORT a\nFROM fs::..::.::example IMPORT b\n\nFN d(_) -> c DECL\n    ...\nEND\n";

    let mut dir_child = Directory::new();
    dir_child.insert("child".to_string(), file(child));
    let mut dir = Directory::new();
    dir.insert("example".to_string(), file(example));
    dir.insert("dir".to_string(), Path::Directory(Box::new(dir_child)));

    let ast = Builder::parse(snip, None).unwrap();
    let err = ModuleMap::from(ast, dir, Directory::new()).expect_err("relative paths are not resolved");
    assert!(codes(&err).iter().any(|c| matches!(c, ErrorCode::CouldNotFindModule { module } if module == "fs::.::example")));
}

#[test]
fn test_imports_alias() {
    let snip = "FROM fs::example IMPORT (a, a AS b, a AS c)\n";
    let example = "FN a(_) -> c DECL\n    ...\nEND\n";

    let mut dir = Directory::new();
    dir.insert("example".to_string(), file(example));

    let ast = Builder::parse(snip, None).unwrap();
    let map = ModuleMap::from(ast, dir, Directory::new()).unwrap();
    let main = map.get(&ModuleName(vec!["fs".to_string(), "main".to_string()])).unwrap();
    for name in ["a", "b", "c"] {
        match main.get(&FuncName(name.to_string())) {
            Some(FuncContext::Import(i)) => {
                assert_eq!(i.ident.0, "a");
                assert_eq!(i.module.0, vec!["fs".to_string(), "example".to_string()]);
            }
            _ => panic!("Expected an import of a"),
        }
    }
}

#[test]
fn test_call_param_error() {
    let snip = "FN a(b, c) -> d DECL\n    ...\nEND\n\na := a(1, 2)\na := a(1)\na := a(1, 2, 3)\n";
    let err = Builder::parse_and_compile(snip, None, None).expect_err("wrong numbers of arguments");
    let counts: Vec<(usize, usize)> = codes(&err)
        .iter()
        .filter_map(|c| match c {
            ErrorCode::FunctionUnexpectedNumberOfArguments { expected, got, .. } => Some((*expected, *got)),
            _ => None,
        })
        .collect();
    assert_eq!(counts, vec![(2, 1), (2, 3)]);
}

#[test]
fn test_imports_collision() {
    let snip = "FROM fs::example1 IMPORT a\nFROM fs::example2 IMPORT a\n";
    let example = "FN a(_) -> c DECL\n    ...\nEND\n";

    let mut dir = Directory::new();
    dir.insert("example1".to_string(), file(example));
    dir.insert("example2".to_string(), file(example));

    let ast = Builder::parse(snip, None).unwrap();
    let err = ModuleMap::from(ast, dir, Directory::new()).expect_err("a is imported twice");
    assert!(codes(&err).iter().any(|c| matches!(c, ErrorCode::FunctionNameCollision { func, count: Some(2), .. } if func == "a")));
}

#[test]
fn test_simple_recursion() {
    let snip = "FN a(b) -> c DECL\n    _ := a(b)\nEND\n";
    assert!(Builder::parse_and_compile(snip, None, None).is_ok());

    let called = "FN a(b) -> c DECL\n    _ := a(b)\nEND\n\nx := a(1)\n";
    let err = Builder::parse_and_compile(called, None, None).expect_err("a calls itself");
    assert!(codes(&err).iter().any(|c| matches!(c, ErrorCode::FunctionRecursionDetected { .. })));
}

#[test]
fn test_nested_recursion() {
    let snip = "FN a(b) -> c DECL\n    _ := b(b)\nEND\nFN b(b) -> c DECL\n    _ := c(b)\nEND\nFN c(b) -> c DECL\n    _ := a(b)\nEND\n\nx := a(2)\n";
    let err = Builder::parse_and_compile(snip, None, None).expect_err("a, b and c call each other");
    assert!(codes(&err).iter().any(|c| matches!(c, ErrorCode::FunctionRecursionDetected { .. })));
}

#[test]
fn test_nested_import() {
    let snip = "FROM fs::prelude IMPORT (a, b)\n";
    let prelude = "FROM fs::.::funcs IMPORT *\n";
    let funcs = "FN a(_) -> c DECL\n    ...\nEND\nFN b(_) -> c DECL\n    ...\nEND\n";

    let mut dir = Directory::new();
    dir.insert("prelude".to_string(), file(prelude));
    dir.insert("funcs".to_string(), file(funcs));

    let ast = Builder::parse(snip, None).unwrap();
    let err = ModuleMap::from(ast, dir, Directory::new()).expect_err("relative paths are not resolved");
    assert!(codes(&err).iter().any(|c| matches!(c, ErrorCode::CouldNotFindModule { module } if module == "fs::.::funcs")));
}

#[test]
fn function_call_runs_body() {
    let snip = "FN add(a, b) -> c DECL\n    c := a + b\nEND\n\nx := add(y, 4)\n";
    let mut locals = Variables::new();
    locals.insert("y".to_string(), UInt::from_u64(3));
    let vars = run_to_end(snip, locals, None);
    assert_eq!(get(&vars, "x"), "7");
}

#[test]
fn imported_function_runs_body() {
    let snip = "FROM fs::math IMPORT double AS twice\n\nx := twice(y)\n";
    let math = "FN double(a) -> b DECL\n    b := a + a\nEND\n";
    let mut dir = Directory::new();
    dir.insert("math".to_string(), file(math));
    let mut locals = Variables::new();
    locals.insert("y".to_string(), UInt::from_u64(21));
    let vars = run_to_end(snip, locals, Some(dir));
    assert_eq!(get(&vars, "x"), "42");
}

#[test]
fn strict_mode_refuses_functions() {
    let snip = "FN id(a) -> a DECL\n    ...\nEND\n\nx := id(y)\n";
    let err = Builder::parse_and_compile(snip, Some(CompileFlags { bits: LOOP | WHILE | STRCT_NO_FUNC }), None)
        .expect_err("functions are forbidden");
    assert!(codes(&err).iter().any(|c| matches!(c, ErrorCode::StrictModeViolation { violation: StrictModeViolation::FuncForbidden })));
    assert_eq!(err[0].lno, (5, 5));
}

#[test]
fn strict_mode_refuses_macros() {
    let snip = "x := 5\ny := y + 1\n";
    let err = Builder::parse_and_compile(snip, Some(CompileFlags { bits: LOOP | WHILE | STRCT_NO_MACRO }), None)
        .expect_err("macros are forbidden");
    assert_eq!(err.len(), 1);
    assert!(matches!(
        &err[0].variant,
        ErrorVariant::ErrorCode(ErrorCode::StrictModeViolation { violation: StrictModeViolation::MacroForbidden })
    ));
    assert_eq!(err[0].lno, (1, 1));
}
