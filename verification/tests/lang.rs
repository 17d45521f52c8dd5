use engine::builder::Builder;
use engine::flags::{CompileFlags, CNF_CONST, CNF_RETAIN_LNO, LOOP, WHILE};
use engine::uint::UInt;
use engine::vars::Variables;

#[derive(Debug, Clone)]
enum ErrorCode {
    StepLimitExceeded,
}

fn run(
    snip: &str,
    limit: Option<usize>,
    locals: Option<Variables>,
    flags: Option<CompileFlags>,
) -> Result<Variables, ErrorCode> {
    let maybe_exec = Builder::ext_all(snip, flags, locals, None);
    assert!(
        maybe_exec.is_ok(),
        "While creating the parser errors occurred: {:?}",
        maybe_exec.err().unwrap()
    );
    let mut exec = maybe_exec.ok().unwrap();

    let mut steps: usize = 0;
    while exec.is_running() && (limit.map(|l| steps < l).unwrap_or(true)) {
        exec.step();

        steps += 1;
    }

    if limit.is_some() && steps >= limit.unwrap() {
        Err(ErrorCode::StepLimitExceeded)
    } else {
        Ok(exec.context())
    }
}

fn value(locals: &Variables, name: &str) -> Option<String> {
    locals.get(&name.to_string()).map(|v| v.to_decimal())
}

fn assert_is_int(value: Option<String>, expect: u64) {
    assert!(value.is_some());
    assert_eq!(value.unwrap(), expect.to_string());
}

fn assert_result_ok(result: &Result<Variables, ErrorCode>) {
    assert!(
        result.is_ok(),
        "run() helper returned ErrorCode {:?}",
        result.clone().err().unwrap()
    )
}

fn locals_of(pairs: &[(&str, u64)]) -> Variables {
    let mut locals = Variables::new();
    for (k, v) in pairs {
        locals.insert(k.to_string(), UInt::from_u64(*v));
    }
    locals
}

#[test]
fn test_simple_assign() {
    let snip = "x := x + 1\n";

    let result = run(snip, Some(50), None, None);
    assert_result_ok(&result);

    let locals = result.ok().unwrap();
    assert_is_int(value(&locals, "x"), 1);
}

#[test]
fn test_macro_assign() {
    let snip = "x := 5\n";

    let result = run(snip, Some(50), None, None);
    assert_result_ok(&result);

    let locals = result.ok().unwrap();
    assert_is_int(value(&locals, "x"), 5);
}

#[test]
fn test_initial_values() {
    let snip = "x := x + 1\n";
    let locals = locals_of(&[("x", 5)]);

    let result = run(snip, Some(50), Some(locals), None);
    assert_result_ok(&result);

    let locals = result.ok().unwrap();
    assert_is_int(value(&locals, "x"), 6);
}

#[test]
fn test_while() {
    let snip = "WHILE x != 0 DO\n    x := x - 1\nEND\n";
    let locals = locals_of(&[("x", 5)]);

    let result = run(snip, Some(50), Some(locals), None);
    assert_result_ok(&result);

    let locals = result.ok().unwrap();
    assert_is_int(value(&locals, "x"), 0);
}

#[test]
fn test_loop() {
    let snip = "LOOP y DO\n    x := x + 1\nEND\n";
    let locals = locals_of(&[("y", 5)]);

    let result = run(snip, Some(50), Some(locals), None);
    assert_result_ok(&result);

    let locals = result.ok().unwrap();
    assert_is_int(value(&locals, "x"), 5);
}

#[test]
fn test_compressed_compressed() {
    let snip = "LOOP y DO;x:=x+1;END";
    let locals = locals_of(&[("y", 5)]);

    let result = run(snip, Some(50), Some(locals), None);
    assert_result_ok(&result);

    let locals = result.ok().unwrap();
    assert_is_int(value(&locals, "x"), 5);
}

#[test]
fn test_decompile() {
    let snip = "LOOP x DO\n    x := x + 1\nEND\n";
    let locals = locals_of(&[("x", 5)]);

    let result = run(snip, Some(50), Some(locals), None);
    assert_result_ok(&result);

    let locals = result.ok().unwrap();
    assert_is_int(value(&locals, "x"), 10);

    let ast = Builder::parse_and_compile(
        snip,
        Some(CompileFlags { bits: WHILE | CNF_RETAIN_LNO }),
        None,
    )
    .unwrap();

    assert_eq!(
        ast.display(4, None),
        "_0 := x + 0\n\nWHILE _0 != 0 DO\n    x := x + 1\n    _0 := _0 - 1\nEND"
    )
}

#[test]
fn test_cond_not_zero_skip() {
    let snip = "IF x != 0 THEN\n    y := y + 1\nEND\n";

    let result = run(snip, Some(50), None, None);
    assert_result_ok(&result);

    let locals = result.ok().unwrap();
    let y = value(&locals, "y").or(Some("0".to_string()));
    assert_is_int(y, 0);
}

#[test]
fn test_cond_not_zero() {
    let snip = "IF x != 0 THEN\n    y := y + 1\nEND\n";
    let locals = locals_of(&[("x", 8)]);

    let result = run(snip, Some(50), Some(locals), None);
    assert_result_ok(&result);

    let locals = result.ok().unwrap();
    assert_is_int(value(&locals, "y"), 1)
}

#[test]
fn test_cond_not_zero_else() {
    let snip = "IF x != 0 THEN\n    ...\nELSE\n    y := y + 1\nEND\n";

    let result = run(snip, Some(50), None, None);
    assert_result_ok(&result);

    let locals = result.ok().unwrap();
    assert_is_int(value(&locals, "y"), 1)
}

#[test]
fn test_cond_not_zero_val() {
    let snip = "IF 1 != 0 THEN\n    y := y + 1\nEND\n";

    let result = run(snip, Some(50), None, None);
    assert_result_ok(&result);

    let locals = result.ok().unwrap();
    assert_is_int(value(&locals, "y"), 1)
}

#[test]
fn test_cond_gt_if() {
    let snip = "IF x > y THEN\n    z := 1\nELSE\n    z := 2\nEND\n";
    let locals = locals_of(&[("x", 32), ("y", 16)]);

    let result = run(snip, Some(150), Some(locals), None);
    assert_result_ok(&result);

    let locals = result.ok().unwrap();
    assert_is_int(value(&locals, "z"), 1)
}

#[test]
fn test_cond_gt_else() {
    let snip = "IF x > y THEN\n    z := 1\nELSE\n    z := 2\nEND\n";
    let locals = locals_of(&[("x", 16), ("y", 32)]);

    let result = run(snip, Some(150), Some(locals), None);
    assert_result_ok(&result);

    let locals = result.ok().unwrap();
    assert_is_int(value(&locals, "z"), 2)
}

#[test]
fn test_cond_gte_val() {
    let snip = "IF x > 2 THEN\n    a := 1\nEND\n\nIF 3 > 2 THEN\n    b := 1\nEND\n\nIF 1 > 2 THEN\n    c := 1\nEND\n\nIF 4 > x THEN\n    d := 1\nEND\n";
    let locals = locals_of(&[("x", 3)]);

    let result = run(snip, Some(150), Some(locals), None);
    assert_result_ok(&result);

    let locals = result.ok().unwrap();
    assert_is_int(value(&locals, "a"), 1);
    assert_is_int(value(&locals, "b"), 1);
    assert_is_int(value(&locals, "c").or(Some("0".to_string())), 0);
    assert_is_int(value(&locals, "d").or(Some("0".to_string())), 1);
}

#[test]
fn test_cond_gte_if() {
    let snip = "IF x >= y THEN\n    a := 1\nEND\n\nIF x >= z THEN\n    b := 1\nEND\n";
    let locals = locals_of(&[("x", 2), ("y", 2), ("z", 1)]);

    let result = run(snip, Some(150), Some(locals), None);
    assert_result_ok(&result);

    let locals = result.ok().unwrap();
    assert_is_int(value(&locals, "a"), 1);
    assert_is_int(value(&locals, "b"), 1);
}

#[test]
fn test_conf_lt_if() {
    let snip = "IF x < y THEN\n    a := 1\nELSE\n    b := 1\nEND\n";
    let locals = locals_of(&[("x", 1), ("y", 2)]);

    let result = run(snip, Some(150), Some(locals), None);
    assert_result_ok(&result);

    let locals = result.ok().unwrap();
    assert_is_int(value(&locals, "a"), 1);
    assert_is_int(value(&locals, "b").or(Some("0".to_string())), 0);
}

#[test]
fn test_conf_lte_if() {
    let snip = "IF x <= y THEN\n    a := 1\nEND\n\nIF x <= z THEN\n    b := 1\nEND\n";
    let locals = locals_of(&[("x", 1), ("y", 2), ("z", 1)]);

    let result = run(snip, Some(150), Some(locals), None);
    assert_result_ok(&result);

    let locals = result.ok().unwrap();
    assert_is_int(value(&locals, "a"), 1);
    assert_is_int(value(&locals, "b"), 1);
}

#[test]
fn test_cond_simulated_eq() {
    let snip = "IF x <= y THEN\n    IF x >= y THEN\n       a := 1\n    END\nEND\n";
    let locals = locals_of(&[("x", 1), ("y", 1)]);

    let result = run(snip, Some(150), Some(locals), None);
    assert_result_ok(&result);

    let locals = result.ok().unwrap();
    assert_is_int(value(&locals, "a"), 1);
}

#[test]
fn test_cond_eq() {
    let snip = "IF x == y THEN\n    a := 1\nELSE\n    a := 2\nEND\n";

    let result = run(snip, Some(150), Some(locals_of(&[("x", 1), ("y", 1)])), None);
    assert_result_ok(&result);
    let locals = result.ok().unwrap();
    assert_is_int(value(&locals, "a"), 1);

    let result = run(snip, Some(150), Some(locals_of(&[("x", 2), ("y", 1)])), None);
    assert_result_ok(&result);
    let locals = result.ok().unwrap();
    assert_is_int(value(&locals, "a"), 2);
}

#[test]
fn test_cond_neq() {
    let snip = "IF x != y THEN\n    a := 1\nELSE\n    a := 2\nEND\n";

    let result = run(snip, Some(150), Some(locals_of(&[("x", 1), ("y", 1)])), None);
    assert_result_ok(&result);
    let locals = result.ok().unwrap();
    assert_is_int(value(&locals, "a"), 2);

    let result = run(snip, Some(150), Some(locals_of(&[("x", 2), ("y", 1)])), None);
    assert_result_ok(&result);
    let locals = result.ok().unwrap();
    assert_is_int(value(&locals, "a"), 1);
}

#[test]
fn test_macro_ident_mul_ident() {
    let snip = "x := y * z\n";
    let locals = locals_of(&[("y", 2), ("z", 3)]);

    let result = run(snip, Some(50), Some(locals), None);
    assert_result_ok(&result);

    let locals = result.ok().unwrap();
    assert_is_int(value(&locals, "x"), 6);
}

#[test]
fn test_macro_ident_add_ident() {
    let snip = "x := y + z\n";
    let locals = locals_of(&[("y", 2), ("z", 3)]);

    let result = run(snip, Some(50), Some(locals), None);
    assert_result_ok(&result);

    let locals = result.ok().unwrap();
    assert_is_int(value(&locals, "x"), 5);
}

#[test]
fn test_macro_ident_mul_val() {
    let snip = "x := y * 3\n";
    let locals = locals_of(&[("y", 2)]);

    let result = run(snip, Some(50), Some(locals), None);
    assert_result_ok(&result);

    let locals = result.ok().unwrap();
    assert_is_int(value(&locals, "x"), 6);
}

#[test]
fn test_const() {
    let snip = "_zero := 1\n";

    let result = Builder::parse(snip, None);
    assert!(result.is_ok());
    let mut result = result.ok().unwrap();

    let result = Builder::compile(
        &mut result,
        Some(CompileFlags { bits: CNF_CONST | LOOP | WHILE }),
        None,
    );
    assert!(result.is_err());
}

#[test]
fn test_inline_simple() {}

#[test]
fn test_inline_nested() {}

#[test]
fn value_assignment_with_while_only() {
    let snip = "x := 3\n";
    let result = run(snip, Some(100), Some(locals_of(&[("x", 7)])), Some(CompileFlags { bits: WHILE }));
    assert_result_ok(&result);
    assert_is_int(value(&result.ok().unwrap(), "x"), 3);

    let ast = Builder::parse_and_compile(snip, Some(CompileFlags { bits: WHILE }), None).unwrap();
    let shown = ast.display(4, None);
    assert!(shown.contains("WHILE _0 != 0 DO"));
    assert!(shown.contains("x := x - 1"));
    assert!(shown.ends_with("x := x + 3"));
}

#[test]
fn sum_with_while_only() {
    let snip = "x := y + z\n";
    let result = run(snip, Some(100), Some(locals_of(&[("x", 1), ("y", 4), ("z", 3)])), Some(CompileFlags { bits: WHILE }));
    assert_result_ok(&result);
    let locals = result.ok().unwrap();
    assert_is_int(value(&locals, "x"), 7);
    assert_is_int(value(&locals, "z"), 3);

    let ast = Builder::parse_and_compile(snip, Some(CompileFlags { bits: WHILE }), None).unwrap();
    let shown = ast.display(4, None);
    assert!(shown.starts_with("x := y + 0"));
    assert!(shown.contains("_0 := z + 0"));
    assert!(shown.contains("WHILE _0 != 0 DO"));
    assert!(shown.contains("x := x + 1"));
}
