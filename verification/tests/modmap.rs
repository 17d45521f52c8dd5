use engine::builder::Builder;
use engine::errors::{Error, ErrorCode, ErrorVariant};
use engine::fs::{Directory, Path};
use engine::hir::Hir;
use engine::expr::{Control, Expr};
use engine::modctx::{FuncContext, ModuleContext};
use engine::modmap::ModuleMap;
use engine::names::{FuncName, ModuleName};

fn module_name(parts: &[&str]) -> ModuleName {
    ModuleName(parts.iter().map(|p| p.to_string()).collect())
}

fn context<'a>(map: &'a ModuleMap, parts: &[&str]) -> &'a ModuleContext {
    map.get(&module_name(parts)).expect("Expected module context, got None.")
}

fn func<'a>(ctx: &'a ModuleContext, name: &str) -> &'a FuncContext {
    ctx.get(&FuncName(name.to_string())).expect("Expected function context, got None")
}

fn assert_import(ctx: &FuncContext, module: &[&str], ident: &str) {
    match ctx {
        FuncContext::Import(import) => {
            assert_eq!(import.ident.0, ident.to_string());
            let expected: Vec<String> = module.iter().map(|p| p.to_string()).collect();
            assert_eq!(import.module.0, expected);
        }
        _ => panic!("Expected it to be Import."),
    }
}

fn ident(e: &Expr) -> String {
    match e {
        Expr::Ident(s) => s.clone(),
        _ => panic!("Expected an identifier."),
    }
}

fn assert_decl(ctx: &FuncContext, name: &str, param: &str, ret: &str) {
    match ctx {
        FuncContext::Func(decl) => {
            assert_eq!(decl.lno, (1, 3));
            assert_eq!(ident(&decl.ident), name.to_string());
            assert_eq!(decl.params.len(), 1);
            assert_eq!(ident(&decl.params[0]), param.to_string());
            assert_eq!(ident(&decl.ret), ret.to_string());
            match &*decl.terms {
                Hir::Control(Control::Terms(ts)) => {
                    assert_eq!(ts.len(), 1);
                    assert!(matches!(ts[0], Hir::NoOp));
                }
                _ => panic!("Expected a statement list."),
            }
        }
        _ => panic!("Expected it to be Func."),
    }
}

fn file(contents: &str) -> Path {
    Path::File(contents.to_string())
}

fn from(snip: &str, dir: Directory) -> Result<ModuleMap, Vec<Error>> {
    let ast = Builder::parse(snip, None).map_err(|err| vec![err])?;
    ModuleMap::from(ast, dir, Directory::new())
}

#[test]
fn test_fs_import() {
    let snip = "FROM fs::a IMPORT b\n";
    let sibling = "FN b(b) -> c DECL\n    ...\nEND\n";

    let mut dir = Directory::new();
    dir.insert("a".to_string(), file(sibling));

    let map = from(snip, dir).unwrap();
    assert_eq!(map.0.len(), 2);

    let main = context(&map, &["fs", "main"]);
    assert_eq!(main.0.len(), 1);
    assert_import(func(main, "b"), &["fs", "a"], "b");

    let a = context(&map, &["fs", "a"]);
    assert_eq!(a.0.len(), 1);
    assert_decl(func(a, "b"), "b", "b", "c");
}

#[test]
fn test_fs_nested_import_with_alias() {
    let snip = "FROM fs::a IMPORT b\n";
    let module_a = "FROM fs::b IMPORT c as b\n";
    let module_b = "FN c(d) -> e DECL\n    ...\nEND\n";

    let mut dir = Directory::new();
    dir.insert("a".to_string(), file(module_a));
    dir.insert("b".to_string(), file(module_b));

    let map = from(snip, dir).unwrap();
    assert_eq!(map.0.len(), 3);

    let main = context(&map, &["fs", "main"]);
    assert_eq!(main.0.len(), 1);
    assert_import(func(main, "b"), &["fs", "b"], "c");

    let a = context(&map, &["fs", "a"]);
    assert_eq!(a.0.len(), 1);
    assert_import(func(a, "b"), &["fs", "b"], "c");

    let b = context(&map, &["fs", "b"]);
    assert_eq!(b.0.len(), 1);
    assert_decl(func(b, "c"), "c", "d", "e");
}

#[test]
fn test_fs_wildcard() {
    let snip = "FROM fs::a IMPORT d as c\n";
    let module_a = "FROM fs::b IMPORT *\n";
    let module_b = "FN c(d) -> e DECL\n    ...\nEND\nFN d(d) -> e DECL\n    ...\nEND\n";

    let mut dir = Directory::new();
    dir.insert("a".to_string(), file(module_a));
    dir.insert("b".to_string(), file(module_b));

    let map = from(snip, dir).unwrap();
    let main = context(&map, &["fs", "main"]);
    assert_eq!(main.0.len(), 1);
    assert_import(func(main, "c"), &["fs", "b"], "d");
}

#[test]
fn test_circular_import() {
    let snip = "FROM fs::a IMPORT d\n";
    let module_a = "# fully imports b, which imports a, which then fully imports b\nFROM fs::b IMPORT *\n\nFN c(d) -> e DECL\n    ...\nEND\n";
    let module_b = "FROM fs::a IMPORT *\n\nFN d(d) -> e DECL\n    ...\nEND\n";

    let mut dir = Directory::new();
    dir.insert("a".to_string(), file(module_a));
    dir.insert("b".to_string(), file(module_b));

    let map = from(snip, dir);

    let err = map.expect_err("Expected error, but got Ok.");
    assert_eq!(err.len(), 2);

    let err = match err.first() {
        Some(err) => err.clone(),
        _ => unreachable!(),
    };

    let (_, history, origin, module) = match err.variant {
        ErrorVariant::ErrorCode(ErrorCode::CircularImport { message, history, origin, module }) => {
            (message, history, origin, module)
        }
        _ => panic!("Variant was not CircularImport!"),
    };

    assert_eq!(history, vec!["fs::main".to_string(), "fs::a".to_string(), "fs::b".to_string()]);
    assert_eq!(origin, "fs::main".to_string());
    assert_eq!(module, "fs::a".to_string());
}

#[test]
fn test_import_name_clash() {
    let snip = "FROM fs::a IMPORT d\nFROM fs::b IMPORT d\nFROM fs::a IMPORT d\nFROM fs::b IMPORT d\n";
    let module_a = "FN d(d) -> e DECL\n    ...\nEND\n";
    let module_b = "FN d(d) -> e DECL\n    ...\nEND\n";

    let mut dir = Directory::new();
    dir.insert("a".to_string(), file(module_a));
    dir.insert("b".to_string(), file(module_b));

    let map = from(snip, dir);

    let err = map.expect_err("Expected error, but got Ok.");
    assert_eq!(err.len(), 1);

    let err = match err.first() {
        Some(err) => err.clone(),
        _ => unreachable!(),
    };

    let (module, func, count) = match err.variant {
        ErrorVariant::ErrorCode(ErrorCode::FunctionNameCollision { module, func, count }) => (module, func, count),
        _ => panic!("Variant was not FunctionNameCollision!"),
    };

    let count = count.expect("Expected count, but have None.");
    assert_eq!(module, "fs::main".to_string());
    assert_eq!(func, "d".to_string());
    assert_eq!(count, 4);
}

#[test]
fn test_fn_name_clash() {
    let snip = "FN d(d) -> e DECL\n    ...\nEND\n\nFN d(d) -> e DECL\n    ...\nEND\n\nFN d(d) -> e DECL\n    ...\nEND\n";

    let map = from(snip, Directory::new());

    let err = map.expect_err("Expected error, but somehow test passed?");
    assert_eq!(err.len(), 1);
    let err = err.first().cloned().expect("Expected single error, but got None?");

    let (module, func, count) = match err.variant {
        ErrorVariant::ErrorCode(ErrorCode::FunctionNameCollision { module, func, count }) => (module, func, count),
        _ => panic!("Variant was not FunctionNameCollision!"),
    };

    let count = count.expect("Expected count, but have None.");
    assert_eq!(module, "fs::main".to_string());
    assert_eq!(func, "d".to_string());
    assert_eq!(count, 3);
}

#[test]
fn test_wildcard_name_clash() {
    let snip = "FROM fs::a IMPORT *\nFROM fs::b IMPORT *\n";
    let module_a = "FN d(d) -> e DECL\n    ...\nEND\n";
    let module_b = "FN d(d) -> e DECL\n    ...\nEND\n";

    let mut dir = Directory::new();
    dir.insert("a".to_string(), file(module_a));
    dir.insert("b".to_string(), file(module_b));

    let map = from(snip, dir);

    let err = map.expect_err("Expected error, but somehow test passed?");
    assert_eq!(err.len(), 1);
    let err = err.first().cloned().expect("Expected single error, but got None?");

    let (module, func, count) = match err.variant {
        ErrorVariant::ErrorCode(ErrorCode::FunctionNameCollision { module, func, count }) => (module, func, count),
        _ => panic!("Variant was not FunctionNameCollision!"),
    };

    assert_eq!(module, "fs::main".to_string());
    assert_eq!(func, "d".to_string());
    assert_eq!(count, None);
}

#[test]
fn test_wildcard_fn_name_clash() {
    let snip = "FROM fs::a IMPORT *\n\nFN d(d) -> e DECL\n    ...\nEND\n";
    let module_a = "FN d(d) -> e DECL\n    ...\nEND\n";

    let mut dir = Directory::new();
    dir.insert("a".to_string(), file(module_a));

    let map = from(snip, dir);

    let err = map.expect_err("Expected error, but somehow test passed?");
    assert_eq!(err.len(), 1);
    let err = err.first().cloned().expect("Expected single error, but got None?");

    let (module, func, count) = match err.variant {
        ErrorVariant::ErrorCode(ErrorCode::FunctionNameCollision { module, func, count }) => (module, func, count),
        _ => panic!("Variant was not FunctionNameCollision!"),
    };

    assert_eq!(module, "fs::main".to_string());
    assert_eq!(func, "d".to_string());
    assert_eq!(count, None);
}

#[test]
fn test_wildcard_impfunc() {
    let snip = "FROM fs::a IMPORT *\n";
    let module_a = "FROM fs::b IMPORT d AS c\n";
    let module_b = "FN d(d) -> e DECL\n    ...\nEND\n";

    let mut dir = Directory::new();
    dir.insert("a".to_string(), file(module_a));
    dir.insert("b".to_string(), file(module_b));

    let map = from(snip, dir).expect("Expect successful import.");
    let main = context(&map, &["fs", "main"]);
    let c_ctx = func(main, "c");

    match c_ctx {
        FuncContext::Import(import) => {
            assert_eq!(import.ident.0, "d".to_string());
            assert_eq!(import.module.0, vec!["fs".to_string(), "b".to_string()]);
        }
        _ => panic!("Expected it to be Import, but didn't get anything."),
    }
}

#[test]
fn test_no_std_module() {
    let snip = "FROM std::oof::ono IMPORT c\n";

    let map = from(snip, Directory::new());

    let err = map.expect_err("Expected error, but somehow oof module exists?");
    assert_eq!(err.len(), 1);
    let err = err.first().cloned().expect("Expected at lease one error");

    match err.variant {
        ErrorVariant::ErrorCode(ErrorCode::CouldNotFindModule { module }) => {
            assert_eq!(module, "std::oof::ono".to_string());
        }
        _ => panic!("Expected ErrorCode::CouldNotFindModule"),
    }
}

#[test]
fn test_no_fs_module() {
    let snip = "FROM fs::a IMPORT b\n";

    let map = from(snip, Directory::new());

    let err = map.expect_err("Expected error, but somehow oof module exists?");
    assert_eq!(err.len(), 1);
    let err = err.first().cloned().expect("Expected at lease one error");

    match err.variant {
        ErrorVariant::ErrorCode(ErrorCode::CouldNotFindModule { module }) => {
            assert_eq!(module, "fs::a".to_string());
        }
        _ => panic!("Expected ErrorCode::CouldNotFindModule"),
    }
}

/// The library modules of the standard-library tests, as a directory.
fn std_lib() -> Directory {
    let math = "FN max(a, b) -> c DECL\n    c := a\n    IF b > a THEN\n        c := b\n    END\nEND\n";
    let prelude = "FROM std::math IMPORT *\n";
    let mut std = Directory::new();
    std.insert("math.lp".to_string(), file(math));
    std.insert("prelude.lp".to_string(), file(prelude));
    let mut lib = Directory::new();
    lib.insert("std".to_string(), Path::Directory(Box::new(std)));
    lib
}

#[test]
fn test_std_import() {
    let snip = "FROM std::math IMPORT max\n";
    let ast = Builder::parse(snip, None).unwrap();
    let map = ModuleMap::from(ast, Directory::new(), std_lib()).unwrap();

    let main = context(&map, &["fs", "main"]);
    assert_eq!(main.0.len(), 1);
    assert_import(func(main, "max"), &["std", "math"], "max");
    assert!(map.contains_key(&module_name(&["std", "math"])));
}

#[test]
fn test_std_wildcard() {
    let snip = "FROM std::prelude IMPORT *\n";
    let ast = Builder::parse(snip, None).unwrap();
    let map = ModuleMap::from(ast, Directory::new(), std_lib()).unwrap();

    let main = context(&map, &["fs", "main"]);
    assert_import(func(main, "max"), &["std", "math"], "max");
    assert!(map.contains_key(&module_name(&["std", "math"])));
}

#[test]
fn test_library_two_candidates() {
    let mut std = Directory::new();
    std.insert("math.lp".to_string(), file("FN max(a) -> a DECL\n    ...\nEND\n"));
    std.insert("math.wh".to_string(), file("FN max(a) -> a DECL\n    ...\nEND\n"));
    let mut lib = Directory::new();
    lib.insert("std".to_string(), Path::Directory(Box::new(std)));

    let ast = Builder::parse("FROM std::math IMPORT max\n", None).unwrap();
    let err = ModuleMap::from(ast, Directory::new(), lib).expect_err("Expected two candidates.");
    match &err[0].variant {
        ErrorVariant::ErrorCode(ErrorCode::MultipleModuleCandidates { module, count }) => {
            assert_eq!(module, "std::math");
            assert_eq!(*count, 2);
        }
        _ => panic!("Expected ErrorCode::MultipleModuleCandidates"),
    }
}

#[test]
fn test_directory_flattening() {
    let mut child3 = Directory::new();
    child3.insert("_1".to_string(), file("<contents>"));
    let mut child2 = Directory::new();
    child2.insert("D".to_string(), Path::Directory(Box::new(child3)));
    let mut child = Directory::new();
    child.insert("C".to_string(), Path::Directory(Box::new(child2)));
    for idx in 0..10 {
        child.insert(format!("_{}", idx), file("<contents>"));
    }
    let mut root = Directory::new();
    root.insert("X".to_string(), Path::Directory(Box::new(child)));

    let mut it = root.walk();
    let mut flat = Vec::new();
    while let Some(item) = it.next() {
        flat.push(item.0);
    }

    let key = |parts: &[&str]| parts.iter().map(|p| p.to_string()).collect::<Vec<String>>();
    assert!(flat.contains(&key(&["X", "_7"])));
    assert!(flat.contains(&key(&["X", "_0"])));
    assert!(flat.contains(&key(&["X", "C", "D", "_1"])));
    assert_eq!(flat.len(), 11);
}

#[test]
fn reexported_function_keeps_the_alias() {
    let snip = "FROM fs::a IMPORT b AS x\n";
    let module_a = "FROM fs::b IMPORT c as b\n";
    let module_b = "FN c(d) -> e DECL\n    ...\nEND\n";

    let mut dir = Directory::new();
    dir.insert("a".to_string(), file(module_a));
    dir.insert("b".to_string(), file(module_b));

    let map = from(snip, dir).unwrap();
    let main = context(&map, &["fs", "main"]);
    assert_eq!(main.0.len(), 1);
    assert_import(func(main, "x"), &["fs", "b"], "c");
}

#[test]
fn parsed_modules_link_imports_and_declarations() {
    let main = Builder::parse("FROM fs::a IMPORT b AS x\nFROM fs::a IMPORT c\nFN d(p) -> q DECL\n    ...\nEND\n", None).unwrap();
    let a = Builder::parse("FN b(b) -> c DECL\n    ...\nEND\nFN c(u) -> v DECL\n    ...\nEND\n", None).unwrap();
    let modules = vec![(vec!["fs".to_string(), "a".to_string()], a)];
    let map = ModuleMap::from_parsed(main, modules, Directory::new()).unwrap();
    let main_ctx = context(&map, &["fs", "main"]);
    assert_eq!(main_ctx.0.len(), 3);
    assert_eq!(main_ctx.0[0].0 .0, "x".to_string());
    assert_import(func(main_ctx, "x"), &["fs", "a"], "b");
    assert_eq!(main_ctx.0[1].0 .0, "c".to_string());
    assert_import(func(main_ctx, "c"), &["fs", "a"], "c");
    assert!(matches!(func(main_ctx, "d"), FuncContext::Func(_)));
    let a_ctx = context(&map, &["fs", "a"]);
    assert_eq!(a_ctx.0.len(), 2);
    assert!(matches!(func(a_ctx, "b"), FuncContext::Func(_)));
    assert!(matches!(func(a_ctx, "c"), FuncContext::Func(_)));
}
