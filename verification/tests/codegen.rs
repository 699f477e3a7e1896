use powdr::codegen::{
    map_type, try_generate_builtin, Analyzed, CodeGenerator, Expression, Reference,
    TypedExpression,
};
use powdr::display::{ArrayType, BinaryOperator, FunctionType, Type, TypeBounds, TypeScheme};

fn int_to_int() -> Option<TypeScheme> {
    Some(TypeScheme {
        vars: TypeBounds { bounds: vec![] },
        ty: Type::Function(FunctionType {
            params: vec![Type::Int],
            value: Box::new(Type::Int),
        }),
    })
}

fn plain(ty: Type) -> Option<TypeScheme> {
    Some(TypeScheme {
        vars: TypeBounds { bounds: vec![] },
        ty,
    })
}

fn local(name: &str) -> Box<Expression> {
    Box::new(Expression::Reference(Reference::LocalVar(0, name.to_string())))
}

fn symbol(name: &str) -> Box<Expression> {
    Box::new(Expression::Reference(Reference::Poly(
        name.to_string(),
        Some(vec![]),
    )))
}

fn int_lit(v: u64) -> Box<Expression> {
    Box::new(Expression::Number(v, Some(Type::Int)))
}

fn lambda(param: &str, body: Box<Expression>) -> Expression {
    Expression::LambdaExpression(vec![param.to_string()], body)
}

fn definition(name: &str, e: Expression, ts: Option<TypeScheme>) -> (String, Option<TypedExpression>) {
    (
        name.to_string(),
        Some(TypedExpression {
            e,
            type_scheme: ts,
        }),
    )
}

fn compile(analyzed: &Analyzed, syms: &[&str]) -> String {
    let mut compiler = CodeGenerator::new(analyzed);
    for s in syms {
        compiler.request_symbol(s).unwrap();
    }
    compiler.compiled_symbols()
}

#[test]
fn empty_code() {
    let analyzed = Analyzed {
        definitions: vec![],
    };
    let result = compile(&analyzed, &[]);
    assert_eq!(result, "");
}

#[test]
fn simple_fun() {
    // let c: int -> int = |i| i;
    let analyzed = Analyzed {
        definitions: vec![definition("c", lambda("i", local("i")), int_to_int())],
    };
    let result = compile(&analyzed, &["c"]);
    assert_eq!(result, "fn c(i: ibig::IBig) -> ibig::IBig { i }\n");
}

#[test]
fn fun_calls() {
    // let c: int -> int = |i| i + 20; let d = |k| c(k * 20);
    let c = lambda(
        "i",
        Box::new(Expression::BinaryOperation(
            local("i"),
            BinaryOperator::Add,
            int_lit(20),
        )),
    );
    let d = lambda(
        "k",
        Box::new(Expression::FunctionCall(
            symbol("c"),
            vec![Expression::BinaryOperation(
                local("k"),
                BinaryOperator::Mul,
                int_lit(20),
            )],
        )),
    );
    let analyzed = Analyzed {
        definitions: vec![
            definition("c", c, int_to_int()),
            definition("d", d, int_to_int()),
        ],
    };
    let result = compile(&analyzed, &["c", "d"]);
    assert_eq!(
        result,
        "fn c(i: ibig::IBig) -> ibig::IBig { ((i).clone() + (ibig::IBig::from(20_u64)).clone()) }\n\
        \n\
        fn d(k: ibig::IBig) -> ibig::IBig { (c)(((k).clone() * (ibig::IBig::from(20_u64)).clone()).clone()) }\n\
        "
    );
}

#[test]
fn referenced_symbols_are_compiled_and_sorted() {
    let analyzed = Analyzed {
        definitions: vec![
            definition(
                "b",
                lambda("x", Box::new(Expression::FunctionCall(symbol("a"), vec![*local("x")]))),
                int_to_int(),
            ),
            definition("a", lambda("y", local("y")), int_to_int()),
        ],
    };
    let mut compiler = CodeGenerator::new(&analyzed);
    assert_eq!(compiler.request_symbol("b"), Ok("b".to_string()));
    assert_eq!(
        compiler.compiled_symbols(),
        "fn a(y: ibig::IBig) -> ibig::IBig { y }\n\nfn b(x: ibig::IBig) -> ibig::IBig { (a)(x.clone()) }\n"
    );
}

#[test]
fn values_become_lazy_statics() {
    let analyzed = Analyzed {
        definitions: vec![definition(
            "main::v",
            Expression::ArrayLiteral(vec![*int_lit(1), *int_lit(2)]),
            plain(Type::Array(ArrayType {
                base: Box::new(Type::Int),
                length: None,
            })),
        )],
    };
    let mut compiler = CodeGenerator::new(&analyzed);
    assert_eq!(compiler.request_symbol("main::v"), Ok("(*main_v)".to_string()));
    assert_eq!(
        compiler.compiled_symbols(),
        "lazy_static::lazy_static! {\nstatic ref main_v: Vec<ibig::IBig> = vec![ibig::IBig::from(1_u64), ibig::IBig::from(2_u64)];\n}\n"
    );
}

#[test]
fn builtins_defined_by_values_are_referred_to_as_functions() {
    // The program defines `std::array::len` by a value that is not a lambda; the
    // generator still provides it as a function.
    let analyzed = Analyzed {
        definitions: vec![definition("std::array::len", *int_lit(0), plain(Type::Int))],
    };
    let mut compiler = CodeGenerator::new(&analyzed);
    assert_eq!(
        compiler.request_symbol("std::array::len"),
        Ok("std_array_len".to_string())
    );
    assert_eq!(
        compiler.compiled_symbols(),
        "fn std_array_len<T>(a: Vec<T>) -> ibig::IBig { ibig::IBig::from(a.len()) }"
    );
}

#[test]
fn missing_definitions_fail_every_time() {
    let analyzed = Analyzed {
        definitions: vec![definition("f", lambda("x", symbol("g")), int_to_int())],
    };
    let mut compiler = CodeGenerator::new(&analyzed);
    let err = "No definition for g, or not a generic symbol".to_string();
    assert_eq!(compiler.request_symbol("f"), Err(err.clone()));
    assert_eq!(compiler.request_symbol("f"), Err(err.clone()));
    assert_eq!(compiler.request_symbol("g"), Err(err));
    assert_eq!(compiler.compiled_symbols(), "");
}

#[test]
fn builtins_are_provided() {
    let analyzed = Analyzed {
        definitions: vec![],
    };
    let mut compiler = CodeGenerator::new(&analyzed);
    assert_eq!(
        compiler.request_symbol("std::field::modulus"),
        Ok("std_field_modulus".to_string())
    );
    assert_eq!(
        compiler.compiled_symbols(),
        "fn std_field_modulus() -> ibig::IBig { ibig::IBig::from(\"18446744069414584321\") }"
    );
    assert_eq!(try_generate_builtin("std::array::x"), None);
    assert_eq!(
        try_generate_builtin("std::array::len"),
        Some("fn std_array_len<T>(a: Vec<T>) -> ibig::IBig { ibig::IBig::from(a.len()) }".to_string())
    );
}

#[test]
fn generated_expressions_are_formatted() {
    let body = Expression::IfExpression(
        Box::new(Expression::BinaryOperation(
            local("x"),
            BinaryOperator::ShiftLeft,
            int_lit(3),
        )),
        Box::new(Expression::IndexAccess(symbol("t"), local("x"))),
        Box::new(Expression::Tuple(vec![
            Expression::String("a\"b".to_string()),
            Expression::Number(5, Some(Type::Fe)),
        ])),
    );
    let analyzed = Analyzed {
        definitions: vec![
            definition("f", lambda("x", Box::new(body)), int_to_int()),
            definition(
                "t",
                Expression::ArrayLiteral(vec![]),
                plain(Type::Array(ArrayType {
                    base: Box::new(Type::Int),
                    length: None,
                })),
            ),
        ],
    };
    let mut compiler = CodeGenerator::new(&analyzed);
    assert_eq!(compiler.request_symbol("f"), Ok("f".to_string()));
    assert_eq!(
        compiler.compiled_symbols(),
        "fn f(x: ibig::IBig) -> ibig::IBig { if ((x).clone() << u32::try_from((ibig::IBig::from(3_u64)).clone()).unwrap()) { (*t)[usize::try_from(x).unwrap()].clone() } else { (\"a\\\"b\", FieldElement::from(5_u64)) } }\n\
        \n\
        lazy_static::lazy_static! {\nstatic ref t: Vec<ibig::IBig> = vec![];\n}\n"
    );
}

#[test]
fn unsupported_expressions_are_errors() {
    let analyzed = Analyzed {
        definitions: vec![
            definition(
                "a",
                lambda("x", Box::new(Expression::Number(7, None))),
                int_to_int(),
            ),
            definition(
                "b",
                lambda(
                    "x",
                    Box::new(Expression::BlockExpression(
                        vec!["let y = 1;".to_string()],
                        Some(local("x")),
                    )),
                ),
                int_to_int(),
            ),
            definition("c", Expression::Other("x'".to_string()), plain(Type::Int)),
        ],
    };
    let mut compiler = CodeGenerator::new(&analyzed);
    assert_eq!(compiler.request_symbol("a"), Err("Implement 7".to_string()));
    assert_eq!(
        compiler.request_symbol("b"),
        Err("Compiling statements inside blocks is not yet implemented: let y = 1;".to_string())
    );
    assert_eq!(compiler.request_symbol("c"), Err("Implement x'".to_string()));
}

#[test]
fn column_lambdas_map_int_to_int() {
    let analyzed = Analyzed {
        definitions: vec![definition("main::c", lambda("i", local("i")), plain(Type::Col))],
    };
    let result = compile(&analyzed, &["main::c"]);
    assert_eq!(result, "fn main_c(i: ibig::IBig) -> ibig::IBig { i }\n");
}

#[test]
fn types_are_mapped() {
    let t = Type::Function(FunctionType {
        params: vec![Type::Fe, Type::Expr],
        value: Box::new(Type::Array(ArrayType {
            base: Box::new(Type::String),
            length: Some(3),
        })),
    });
    assert_eq!(map_type(&t), "fn(FieldElement, Expr) -> Vec<String>");
    assert_eq!(map_type(&Type::Bool), "bool");
    assert_eq!(map_type(&Type::TypeVar("T".to_string())), "T");
}

#[test]
fn a_failed_request_keeps_what_was_compiled() {
    let analyzed = Analyzed {
        definitions: vec![
            definition("c", lambda("i", local("i")), int_to_int()),
            definition("f", lambda("x", symbol("g")), int_to_int()),
        ],
    };
    let mut compiler = CodeGenerator::new(&analyzed);
    assert_eq!(compiler.request_symbol("c"), Ok("c".to_string()));
    assert!(compiler.request_symbol("f").is_err());
    assert_eq!(compiler.request_symbol("c"), Ok("c".to_string()));
    assert_eq!(compiler.compiled_symbols(), "fn c(i: ibig::IBig) -> ibig::IBig { i }\n");
}
