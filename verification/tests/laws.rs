use engine::context::prefix_ident;
use engine::names::{FuncName, FuncQualName, ModuleName};
use engine::builder::Builder;
use engine::expr::Control;
use engine::hir::{Hir, Macro};
use engine::flags::{CompileFlags, CNF_CONST, LOOP, OPT_ZERO, STRCT_NO_MACRO, WHILE};
use engine::runtime::Runtime;
use engine::uint::UInt;
use engine::vars::Variables;

fn locals_of(pairs: &[(&str, u64)]) -> Variables {
    let mut locals = Variables::new();
    for (k, v) in pairs {
        locals.insert(k.to_string(), UInt::from_u64(*v));
    }
    locals
}

fn value(locals: &Variables, name: &str) -> Option<String> {
    locals.get(&name.to_string()).map(|v| v.to_decimal())
}

fn run_out(rt: &mut Runtime) -> usize {
    let mut steps = 0;
    while rt.is_running() && steps < 10_000 {
        rt.step();
        steps += 1;
    }
    steps
}

#[test]
fn uint_add_carries_past_u64() {
    let a = UInt::from_decimal("18446744073709551615");
    let b = a.add(&UInt::one());
    assert_eq!(b.to_decimal(), "18446744073709551616");
    assert!(a.is_less(&b));
    assert!(!b.is_less(&a));
    assert!(!a.is_equal(&b));
}

#[test]
fn uint_checked_sub_refuses_below_zero() {
    let five = UInt::from_u64(5);
    let seven = UInt::from_u64(7);
    assert!(five.checked_sub(&seven).is_none());
    assert_eq!(seven.checked_sub(&five).unwrap().to_decimal(), "2");
    assert!(five.checked_sub(&five).unwrap().is_zero());
}

#[test]
fn uint_decimal_round_trip() {
    let n = UInt::from_decimal("340282366920938463463374607431768211456");
    assert_eq!(n.to_decimal(), "340282366920938463463374607431768211456");
    assert!(n.is_equal(&UInt::from_decimal("340282366920938463463374607431768211456")));
}

#[test]
fn subtraction_saturates_at_zero() {
    let mut rt = Builder::ext_all("x := x - 3\n", None, Some(locals_of(&[("x", 2)])), None).unwrap();
    run_out(&mut rt);
    assert_eq!(value(&rt.context(), "x").unwrap(), "0");
}

#[test]
fn finished_runtime_stays_finished() {
    let mut rt = Builder::ext_all("x := x + 1\n", None, Some(locals_of(&[("x", 1)])), None).unwrap();
    run_out(&mut rt);
    assert!(!rt.is_running());
    let before = value(&rt.context(), "x");
    assert!(rt.step().is_none());
    assert!(rt.step().is_none());
    assert!(!rt.is_running());
    assert_eq!(value(&rt.context(), "x"), before);
    assert_eq!(before.unwrap(), "2");
}

#[test]
fn reset_restarts_the_program() {
    let snip = "LOOP x DO\n    y := y + 2\nEND\n";
    let mut rt = Builder::ext_all(snip, None, Some(locals_of(&[("x", 3), ("y", 1)])), None).unwrap();
    let first = run_out(&mut rt);
    assert_eq!(value(&rt.context(), "y").unwrap(), "7");
    rt.reset();
    assert!(rt.is_running());
    assert_eq!(value(&rt.context(), "y").unwrap(), "1");
    let second = run_out(&mut rt);
    assert_eq!(first, second);
    assert_eq!(value(&rt.context(), "y").unwrap(), "7");
}

#[test]
fn reset_midway_restarts_the_program() {
    let snip = "LOOP x DO\n    y := y + 2\nEND\n";
    let mut rt = Builder::ext_all(snip, None, Some(locals_of(&[("x", 3), ("y", 1)])), None).unwrap();
    rt.step();
    rt.step();
    rt.reset();
    run_out(&mut rt);
    assert_eq!(value(&rt.context(), "y").unwrap(), "7");
}

#[test]
fn compiled_program_is_flat() {
    let snip = "IF x <= y THEN\n    z := 1\nEND\n";
    let ast = Builder::parse_and_compile(snip, None, None).unwrap();
    assert_eq!(ast.flatten().display(4, None), ast.display(4, None));
}

#[test]
fn empty_sources_compile() {
    assert!(Builder::parse_and_compile("", None, None).is_ok());
    assert!(Builder::parse_and_compile("\n  ;\n\t\n", None, None).is_ok());
    let mut rt = Builder::all(";;\n", None, None).unwrap();
    assert!(rt.is_running());
    run_out(&mut rt);
    assert!(!rt.is_running());
}

#[test]
fn strict_mode_refuses_loop_rewrite() {
    let snip = "LOOP x DO\n    y := y + 1\nEND\n";
    let strict_while = CompileFlags { bits: WHILE | STRCT_NO_MACRO };
    assert!(Builder::parse_and_compile(snip, Some(strict_while), None).is_err());
    let while_only = CompileFlags { bits: WHILE };
    assert!(Builder::parse_and_compile(snip, Some(while_only), None).is_ok());
}

#[test]
fn while_needs_while() {
    let snip = "WHILE x != 0 DO\n    x := x - 1\nEND\n";
    assert!(Builder::parse_and_compile(snip, Some(CompileFlags { bits: LOOP }), None).is_err());
    assert!(Builder::parse_and_compile(snip, Some(CompileFlags { bits: WHILE }), None).is_ok());
}

#[test]
fn const_variable_is_refused_only_with_const_flag() {
    let snip = "_zero := 1\n";
    assert!(Builder::parse_and_compile(snip, Some(CompileFlags { bits: LOOP | WHILE }), None).is_ok());
    assert!(Builder::parse_and_compile(snip, Some(CompileFlags { bits: LOOP | WHILE | CNF_CONST }), None).is_err());
}

#[test]
fn readme_conditional_example() {
    let snip = "IF x <= y THEN\n    z := 1\nEND\n";
    let mut rt = Builder::ext_all(snip, None, Some(locals_of(&[("x", 2), ("y", 5)])), None).unwrap();
    run_out(&mut rt);
    assert_eq!(value(&rt.context(), "z").unwrap(), "1");

    let mut rt = Builder::ext_all(snip, None, Some(locals_of(&[("x", 6), ("y", 5), ("z", 0)])), None).unwrap();
    run_out(&mut rt);
    assert_eq!(value(&rt.context(), "z").unwrap(), "0");
}

#[test]
fn assignment_macros_compute_their_meaning() {
    let snip = "a := b\nc := 0\nd := 7\nLOOP b DO\n    a := a + 1\nEND\n";
    let flags = CompileFlags { bits: LOOP };
    let mut rt = Builder::ext_all(snip, Some(flags), Some(locals_of(&[("b", 3), ("c", 9)])), None).unwrap();
    run_out(&mut rt);
    let ctx = rt.context();
    assert_eq!(value(&ctx, "a").unwrap(), "6");
    assert_eq!(value(&ctx, "b").unwrap(), "3");
    assert_eq!(value(&ctx, "c").unwrap(), "0");
    assert_eq!(value(&ctx, "d").unwrap(), "7");
}

#[test]
fn zero_variable_macros_use_zero() {
    let snip = "c := 0\nd := 7\n";
    let flags = CompileFlags { bits: LOOP | OPT_ZERO };
    let ast = Builder::parse_and_compile(snip, Some(flags), None).unwrap();
    assert_eq!(ast.display(4, None), "c := _zero + 0\nd := _zero + 7");
    let mut rt = Builder::ext_all(snip, Some(flags), Some(locals_of(&[("c", 9)])), None).unwrap();
    run_out(&mut rt);
    assert_eq!(value(&rt.context(), "c").unwrap(), "0");
    assert_eq!(value(&rt.context(), "d").unwrap(), "7");
}

#[test]
fn arithmetic_macros_compute_their_meaning() {
    let snip = "s := a + b\nd := a - b\ne := b - a\np := a * b\n";
    let flags = CompileFlags { bits: LOOP };
    let mut rt = Builder::ext_all(snip, Some(flags), Some(locals_of(&[("a", 7), ("b", 3)])), None).unwrap();
    run_out(&mut rt);
    let ctx = rt.context();
    assert_eq!(value(&ctx, "s").unwrap(), "10");
    assert_eq!(value(&ctx, "d").unwrap(), "4");
    assert_eq!(value(&ctx, "e").unwrap(), "0");
    assert_eq!(value(&ctx, "p").unwrap(), "21");
    assert_eq!(value(&ctx, "a").unwrap(), "7");
    assert_eq!(value(&ctx, "b").unwrap(), "3");
}

#[test]
fn addition_into_its_right_operand_reads_it_after_writing() {
    let snip = "a := b + a\n";
    let flags = CompileFlags { bits: LOOP };
    let mut rt = Builder::ext_all(snip, Some(flags), Some(locals_of(&[("a", 1), ("b", 4)])), None).unwrap();
    run_out(&mut rt);
    assert_eq!(value(&rt.context(), "a").unwrap(), "8");
}

#[test]
fn multiplication_from_zero_variable() {
    let snip = "p := a * b\n";
    let flags = CompileFlags { bits: LOOP | OPT_ZERO };
    let ast = Builder::parse_and_compile(snip, Some(flags), None).unwrap();
    assert!(ast.display(4, None).starts_with("p := _zero + 0\n"));
    let mut rt = Builder::ext_all(snip, Some(flags), Some(locals_of(&[("a", 6), ("b", 7), ("p", 1)])), None).unwrap();
    run_out(&mut rt);
    assert_eq!(value(&rt.context(), "p").unwrap(), "42");
}

#[test]
fn a_name_given_twice_is_refused() {
    let snip = "FN d(a) -> b DECL\n    b := a\nEND\nFN d(a) -> b DECL\n    b := a\nEND\nx := 1\n";
    assert!(Builder::parse_and_compile(snip, None, None).is_err());
    let snip = "FN d(a) -> b DECL\n    b := a\nEND\nFN e(a) -> b DECL\n    b := a\nEND\nx := 1\n";
    assert!(Builder::parse_and_compile(snip, None, None).is_ok());
}

#[test]
fn directory_listing() {
    let mut sub = engine::fs::Directory::new();
    sub.insert("c".to_string(), engine::fs::Path::File("x := 1\n".to_string()));
    let mut dir = engine::fs::Directory::new();
    dir.insert("a".to_string(), engine::fs::Path::File("y := 2\n".to_string()));
    dir.insert("b".to_string(), engine::fs::Path::Directory(Box::new(sub)));
    assert_eq!(dir.format(4, None), "a: File\nb: Directory\n    c: File\n");
    assert_eq!(dir.format(2, Some(1)), "  a: File\n  b: Directory\n    c: File\n");
}

#[test]
fn loop_mode_programs_halt() {
    let snip = "IF x > y THEN\n    LOOP x DO\n        z := z + 1\n    END\nELSE\n    z := y * x\nEND\n";
    let flags = CompileFlags { bits: LOOP };
    for (x, y) in [(5u64, 2u64), (2, 5), (3, 3)] {
        let mut rt = Builder::ext_all(snip, Some(flags), Some(locals_of(&[("x", x), ("y", y)])), None).unwrap();
        let steps = run_out(&mut rt);
        assert!(steps < 10_000);
        assert!(!rt.is_running());
        let z = if x > y { x } else { x * y };
        assert_eq!(value(&rt.context(), "z").unwrap(), z.to_string());
    }
}

#[test]
fn overwritten_line_numbers() {
    let snip = "x := 1\nLOOP x DO\n    y := y + 1\nEND\n";
    let m = Builder::parse(snip, Some((7, 7))).unwrap();
    let ts = match &m.code {
        Hir::Control(Control::Terms(ts)) => ts,
        _ => panic!("expected a statement list"),
    };
    assert_eq!(ts.len(), 2);
    match &ts[0] {
        Hir::Macro(Macro::AssignToValue { lno, .. }) => assert_eq!(*lno, (7, 7)),
        _ => panic!("expected x := 1"),
    }
    match &ts[1] {
        Hir::Control(Control::Loop { lno, .. }) => assert_eq!(*lno, (7, 7)),
        _ => panic!("expected a LOOP"),
    }
    let m = Builder::parse(snip, None).unwrap();
    match &m.code {
        Hir::Control(Control::Terms(ts)) => match &ts[1] {
            Hir::Control(Control::Loop { lno, .. }) => assert_eq!(*lno, (2, 4)),
            _ => panic!("expected a LOOP"),
        },
        _ => panic!("expected a statement list"),
    }
}

fn ident_of(e: &engine::expr::Expr) -> String {
    match e {
        engine::expr::Expr::Ident(s) => s.clone(),
        other => panic!("not an identifier: {:?}", other),
    }
}

fn number_of(e: &engine::expr::Expr) -> String {
    match e {
        engine::expr::Expr::NaturalNumber(n) => n.to_decimal(),
        other => panic!("not a number: {:?}", other),
    }
}

#[test]
fn straight_line_text_reads_back_statement_by_statement() {
    let snip = "a := b\nc := 0\nd := 42\ne := f + g\nh := i * 7\nj := k - 3\n";
    let m = Builder::parse(snip, None).unwrap();
    assert!(m.imp.is_empty());
    assert!(m.decl.is_empty());
    let terms = match &m.code {
        Hir::Control(Control::Terms(ts)) => ts,
        other => panic!("not a statement list: {:?}", other),
    };
    assert_eq!(terms.len(), 6);
    match &terms[0] {
        Hir::Macro(Macro::AssignToIdent { lhs, rhs, .. }) => {
            assert_eq!(ident_of(lhs), "a");
            assert_eq!(ident_of(rhs), "b");
        },
        other => panic!("{:?}", other),
    }
    match &terms[1] {
        Hir::Macro(Macro::AssignToZero { lhs, .. }) => assert_eq!(ident_of(lhs), "c"),
        other => panic!("{:?}", other),
    }
    match &terms[2] {
        Hir::Macro(Macro::AssignToValue { lhs, rhs, .. }) => {
            assert_eq!(ident_of(lhs), "d");
            assert_eq!(number_of(rhs), "42");
        },
        other => panic!("{:?}", other),
    }
    match &terms[3] {
        Hir::Macro(Macro::AssignToIdentBinOpIdent { lhs, rhs, .. }) => {
            assert_eq!(ident_of(lhs), "e");
            assert_eq!(ident_of(&rhs.lhs), "f");
            assert_eq!(rhs.verb, engine::verbs::OperatorVerb::Plus);
            assert_eq!(ident_of(&rhs.rhs), "g");
        },
        other => panic!("{:?}", other),
    }
    match &terms[4] {
        Hir::Macro(Macro::AssignToIdentExtBinOpValue { lhs, rhs, .. }) => {
            assert_eq!(ident_of(lhs), "h");
            assert_eq!(ident_of(&rhs.lhs), "i");
            assert_eq!(rhs.verb, engine::verbs::OperatorVerb::Multiply);
            assert_eq!(number_of(&rhs.rhs), "7");
        },
        other => panic!("{:?}", other),
    }
    match &terms[5] {
        Hir::Expr(engine::expr::Expr::Assign { lhs, rhs, .. }) => {
            assert_eq!(ident_of(lhs), "j");
            match &**rhs {
                engine::expr::Expr::BinaryOp { lhs: y, verb, rhs: n } => {
                    assert_eq!(ident_of(y), "k");
                    assert_eq!(*verb, engine::verbs::OperatorVerb::Minus);
                    assert_eq!(number_of(n), "3");
                },
                other => panic!("{:?}", other),
            }
        },
        other => panic!("{:?}", other),
    }
}

#[test]
fn straight_line_program_runs_its_statements_in_turn() {
    let snip = "a := b\nc := 7\nd := a + c\ne := d - 2\nf := e * c\ng := c - 9\n";
    let mut rt = Builder::ext_all(snip, None, Some(locals_of(&[("b", 5)])), None).unwrap();
    run_out(&mut rt);
    assert!(!rt.is_running());
    let ctx = rt.context();
    assert_eq!(value(&ctx, "a").unwrap(), "5");
    assert_eq!(value(&ctx, "c").unwrap(), "7");
    assert_eq!(value(&ctx, "d").unwrap(), "12");
    assert_eq!(value(&ctx, "e").unwrap(), "10");
    assert_eq!(value(&ctx, "f").unwrap(), "70");
    assert_eq!(value(&ctx, "g").unwrap(), "0");
}

#[test]
fn loop_text_reads_back_with_its_body() {
    let snip = "s := 0\nLOOP n DO\nLOOP m DO\ns := s + 1\nEND\nEND\n";
    let m = Builder::parse(snip, None).unwrap();
    assert!(m.imp.is_empty());
    assert!(m.decl.is_empty());
    let terms = match &m.code {
        Hir::Control(Control::Terms(ts)) => ts,
        other => panic!("not a statement list: {:?}", other),
    };
    assert_eq!(terms.len(), 2);
    match &terms[1] {
        Hir::Control(Control::Loop { ident, terms: body, .. }) => {
            match &**ident {
                Hir::Expr(e) => assert_eq!(ident_of(e), "n"),
                other => panic!("{:?}", other),
            }
            match &**body {
                Hir::Control(Control::Terms(inner)) => {
                    assert_eq!(inner.len(), 1);
                    match &inner[0] {
                        Hir::Control(Control::Loop { ident, terms: b2, .. }) => {
                            match &**ident {
                                Hir::Expr(e) => assert_eq!(ident_of(e), "m"),
                                other => panic!("{:?}", other),
                            }
                            match &**b2 {
                                Hir::Control(Control::Terms(ts)) => assert_eq!(ts.len(), 1),
                                other => panic!("{:?}", other),
                            }
                        },
                        other => panic!("{:?}", other),
                    }
                },
                other => panic!("{:?}", other),
            }
        },
        other => panic!("{:?}", other),
    }
}

#[test]
fn loop_program_runs_its_body_as_often_as_its_variable_says() {
    let snip = "s := 0\nLOOP n DO\nLOOP m DO\ns := s + 1\nEND\nEND\n";
    let mut rt = Builder::ext_all(snip, None, Some(locals_of(&[("n", 3), ("m", 4)])), None).unwrap();
    run_out(&mut rt);
    assert!(!rt.is_running());
    assert_eq!(value(&rt.context(), "s").unwrap(), "12");
}

#[test]
fn while_text_reads_back_with_its_condition() {
    let snip = "WHILE n != 0 DO\nn := n - 1\nEND\n";
    let m = Builder::parse(snip, None).unwrap();
    let terms = match &m.code {
        Hir::Control(Control::Terms(ts)) => ts,
        other => panic!("not a statement list: {:?}", other),
    };
    assert_eq!(terms.len(), 1);
    match &terms[0] {
        Hir::Control(Control::While { comp, terms: body, .. }) => {
            match &**comp {
                Hir::Expr(engine::expr::Expr::Comparison { lhs, verb, rhs }) => {
                    assert_eq!(ident_of(lhs), "n");
                    assert_eq!(*verb, engine::verbs::ComparisonVerb::NotEqual);
                    assert_eq!(number_of(rhs), "0");
                },
                other => panic!("{:?}", other),
            }
            match &**body {
                Hir::Control(Control::Terms(ts)) => assert_eq!(ts.len(), 1),
                other => panic!("{:?}", other),
            }
        },
        other => panic!("{:?}", other),
    }
}

#[test]
fn while_program_runs_its_body_while_the_condition_holds() {
    let snip = "x := 0\nWHILE n != 0 DO\nx := x + 2\nn := n - 1\nEND\n";
    let mut rt = Builder::ext_all(snip, None, Some(locals_of(&[("n", 5)])), None).unwrap();
    run_out(&mut rt);
    assert!(!rt.is_running());
    assert_eq!(value(&rt.context(), "x").unwrap(), "10");
    assert_eq!(value(&rt.context(), "n").unwrap(), "0");
}

#[test]
fn if_text_reads_back_with_both_branches() {
    let snip = "IF x > 3 THEN\ny := 1\nELSE\ny := 2\nz := 0\nEND\n";
    let m = Builder::parse(snip, None).unwrap();
    let terms = match &m.code {
        Hir::Control(Control::Terms(ts)) => ts,
        other => panic!("not a statement list: {:?}", other),
    };
    assert_eq!(terms.len(), 1);
    match &terms[0] {
        Hir::Macro(Macro::Conditional { comp, if_terms, else_terms, .. }) => {
            match &**comp {
                engine::expr::Expr::Comparison { lhs, verb, rhs } => {
                    assert_eq!(ident_of(lhs), "x");
                    assert_eq!(*verb, engine::verbs::ComparisonVerb::GreaterThan);
                    assert_eq!(number_of(rhs), "3");
                },
                other => panic!("{:?}", other),
            }
            match &**if_terms {
                Hir::Control(Control::Terms(ts)) => assert_eq!(ts.len(), 1),
                other => panic!("{:?}", other),
            }
            match &**else_terms {
                Some(Hir::Control(Control::Terms(ts))) => assert_eq!(ts.len(), 2),
                other => panic!("{:?}", other),
            }
        },
        other => panic!("{:?}", other),
    }
}

#[test]
fn if_without_else_reads_back_without_else() {
    let snip = "IF x == 0 THEN\ny := 1\nEND\n";
    let m = Builder::parse(snip, None).unwrap();
    match &m.code {
        Hir::Control(Control::Terms(ts)) => match &ts[0] {
            Hir::Macro(Macro::Conditional { else_terms, .. }) => assert!(else_terms.is_none()),
            other => panic!("{:?}", other),
        },
        other => panic!("{:?}", other),
    }
}

#[test]
fn call_text_reads_back_with_its_arguments() {
    let snip = "x := f(a, 3, b)\ny := g()\n";
    let m = Builder::parse(snip, None).unwrap();
    let terms = match &m.code {
        Hir::Control(Control::Terms(ts)) => ts,
        other => panic!("not a statement list: {:?}", other),
    };
    assert_eq!(terms.len(), 2);
    match &terms[0] {
        Hir::Function(engine::hir::Func::Call { lhs, rhs, .. }) => {
            assert_eq!(ident_of(lhs), "x");
            assert_eq!(ident_of(&rhs.ident), "f");
            assert_eq!(rhs.args.len(), 3);
            assert_eq!(ident_of(&rhs.args[0]), "a");
            assert_eq!(number_of(&rhs.args[1]), "3");
            assert_eq!(ident_of(&rhs.args[2]), "b");
        },
        other => panic!("{:?}", other),
    }
    match &terms[1] {
        Hir::Function(engine::hir::Func::Call { lhs, rhs, .. }) => {
            assert_eq!(ident_of(lhs), "y");
            assert_eq!(ident_of(&rhs.ident), "g");
            assert!(rhs.args.is_empty());
        },
        other => panic!("{:?}", other),
    }
}

#[test]
fn while_less_equal_compares_both_sides() {
    let snip = "WHILE x <= y DO\n    x := x + 1\nEND\n";
    let mut rt = Builder::ext_all(snip, None, Some(locals_of(&[("x", 0), ("y", 3)])), None).unwrap();
    run_out(&mut rt);
    assert_eq!(value(&rt.context(), "x").unwrap(), "4");
    let mut rt = Builder::ext_all(snip, None, Some(locals_of(&[("x", 5), ("y", 3)])), None).unwrap();
    run_out(&mut rt);
    assert_eq!(value(&rt.context(), "x").unwrap(), "5");
}

#[test]
fn loop_without_loop_flag_counts_down_a_copy() {
    let snip = "LOOP x DO\n    y := y + 1\nEND\n";
    let flags = CompileFlags { bits: WHILE };
    let mut rt = Builder::ext_all(snip, Some(flags), Some(locals_of(&[("x", 3), ("y", 0)])), None).unwrap();
    let steps = run_out(&mut rt);
    assert!(steps < 10_000);
    assert_eq!(value(&rt.context(), "y").unwrap(), "3");
    assert_eq!(value(&rt.context(), "x").unwrap(), "3");
}

#[test]
fn inlined_names_differ_by_inlining_and_variable() {
    let qual = FuncQualName::from(
        ModuleName::from(vec!["fs".to_string(), "main".to_string()]),
        FuncName::from("add".to_string()),
    );
    let a = prefix_ident(&qual, &1, &"x".to_string());
    let b = prefix_ident(&qual, &2, &"x".to_string());
    let c = prefix_ident(&qual, &1, &"y".to_string());
    let d = prefix_ident(&qual, &11, &"x".to_string());
    let e = prefix_ident(&qual, &1, &"1_x".to_string());
    assert_ne!(a, b);
    assert_ne!(a, c);
    assert_ne!(d, e);
    assert_eq!(a, prefix_ident(&qual, &1, &"x".to_string()));
}
