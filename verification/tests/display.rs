use powdr::display::{
    format_list_of_types, format_type_scheme_around_name, format_type_with_parentheses,
    parse_absolute_path, quote, ArrayType, FunctionType, Param, Params, Part, SymbolPath,
    TupleType, Type, TypeBounds, TypeScheme,
};

fn param(name: &str, index: Option<u64>, ty: &str) -> Param {
    Param {
        name: name.to_string(),
        index,
        ty: Some(ty.to_string()),
    }
}

#[test]
fn params() {
    let p = param("abc", None, "ty");
    assert_eq!(p.to_string(), "abc: ty");
    let empty = Params::default();
    assert_eq!(empty.to_string(), "");
    assert_eq!(empty.prepend_space_if_non_empty(), "");
    let in_out = Params {
        inputs: vec![param("abc", Some(7), "ty0"), param("def", None, "ty1")],
        outputs: vec![param("abc", None, "ty0"), param("def", Some(2), "ty1")],
    };
    assert_eq!(
        in_out.to_string(),
        "abc[7]: ty0, def: ty1 -> abc: ty0, def[2]: ty1"
    );
    assert_eq!(
        in_out.prepend_space_if_non_empty(),
        " abc[7]: ty0, def: ty1 -> abc: ty0, def[2]: ty1"
    );
    let out = Params {
        inputs: vec![],
        outputs: vec![param("abc", None, "ty")],
    };
    assert_eq!(out.to_string(), "-> abc: ty");
    assert_eq!(out.prepend_space_if_non_empty(), " -> abc: ty");
    let _in = Params {
        inputs: vec![param("abc", None, "ty")],
        outputs: vec![],
    };
    assert_eq!(_in.to_string(), "abc: ty");
    assert_eq!(_in.prepend_space_if_non_empty(), " abc: ty");
}

#[test]
fn symbol_paths() {
    let s = SymbolPath::from_parts(vec![
        Part::Named("x".to_string()),
        Part::Super,
        Part::Named("y".to_string()),
    ]);
    assert_eq!(s.to_string(), "x::super::y");
    let p = parse_absolute_path("::abc");
    assert_eq!(p.to_string(), "::abc");

    assert_eq!(p.with_part("t").to_string(), "::abc::t");

    assert_eq!(p.clone().join(s.clone()).to_string(), "::abc::y");
    assert_eq!(SymbolPath::from_absolute(p.join(s)).to_string(), "::abc::y");
}

#[test]
fn quote_escapes_special_characters() {
    assert_eq!(quote("abc"), "\"abc\"");
    assert_eq!(quote("a\"b\\c\n\t\r'"), "\"a\\\"b\\\\c\\n\\t\\r\\'\"");
    assert_eq!(quote("\u{7f}é"), "\"\\u{7f}\\u{e9}\"");
    assert_eq!(quote(""), "\"\"");
}

#[test]
fn parse_root_and_nested_paths() {
    assert_eq!(parse_absolute_path("::").to_string(), "::");
    assert_eq!(parse_absolute_path("::a::b::c").parts, vec!["a", "b", "c"]);
    assert_eq!(parse_absolute_path("::a::::b").parts, vec!["a", "", "b"]);
}

#[test]
fn join_with_super_goes_to_parent() {
    let p = parse_absolute_path("::a::b");
    let rel = SymbolPath::from_parts(vec![Part::Super, Part::Super, Part::Named("c".into())]);
    assert_eq!(p.join(rel).to_string(), "::c");
}

fn int_ty() -> Type {
    Type::Int
}

#[test]
fn types_and_type_schemes() {
    let f = Type::Function(FunctionType {
        params: vec![int_ty(), Type::Fe],
        value: Box::new(Type::Bool),
    });
    assert_eq!(f.to_string(), "int, fe -> bool");
    assert_eq!(format_type_with_parentheses(&f), "(int, fe -> bool)");
    let no_params = Type::Function(FunctionType {
        params: vec![],
        value: Box::new(Type::Expr),
    });
    assert_eq!(no_params.to_string(), "-> expr");
    let arr = Type::Array(ArrayType {
        base: Box::new(f),
        length: Some(4),
    });
    assert_eq!(arr.to_string(), "(int, fe -> bool)[4]");
    let tuple = Type::Tuple(TupleType {
        items: vec![Type::Col, Type::Array(ArrayType { base: Box::new(Type::String), length: None })],
    });
    assert_eq!(tuple.to_string(), "(col, string[])");
    assert_eq!(format_list_of_types(&vec![Type::Bottom, Type::Constr]), "!, constr");
    let scheme = TypeScheme {
        vars: TypeBounds {
            bounds: vec![
                ("T".to_string(), vec!["Add".to_string(), "Sub".to_string()]),
                ("U".to_string(), vec![]),
            ],
        },
        ty: Type::TypeVar("T".to_string()),
    };
    assert_eq!(
        format_type_scheme_around_name("f", &Some(scheme)),
        "<T: Add + Sub, U> f: T"
    );
    assert_eq!(format_type_scheme_around_name("f", &None), " f");
    let named = Type::NamedType(SymbolPath::from_parts(vec![Part::Named("std".into()), Part::Named("X".into())]));
    let plain = TypeScheme {
        vars: TypeBounds { bounds: vec![] },
        ty: named,
    };
    assert_eq!(format_type_scheme_around_name("x", &Some(plain)), " x: std::X");
}

use powdr::display::{format_expressions, BinaryOperator, Expression, UnaryOperator};

fn num(v: u64) -> Expression {
    Expression::Number(v)
}

fn var(n: &str) -> Expression {
    Expression::Reference(n.to_string())
}

#[test]
fn expressions_are_formatted() {
    let sum = Expression::BinaryOperation(Box::new(var("x")), BinaryOperator::Add, Box::new(num(2)));
    assert_eq!(format_expressions(&vec![num(1), sum]), "1, (x + 2)");
    assert_eq!(format_expressions(&vec![]), "");
    let next = Expression::UnaryOperation(UnaryOperator::Next, Box::new(var("x")));
    let neg = Expression::UnaryOperation(UnaryOperator::Minus, Box::new(var("y")));
    assert_eq!(format_expressions(&vec![next, neg]), "x', -y");
    let call = Expression::FunctionCall(Box::new(var("f")), vec![num(1), num(2)]);
    assert_eq!(call.to_string(), "f(1, 2)");
    let index = Expression::IndexAccess(Box::new(var("a")), Box::new(num(3)));
    assert_eq!(index.to_string(), "a[3]");
    let tuple = Expression::Tuple(vec![num(1), Expression::String("a\"b".to_string())]);
    assert_eq!(tuple.to_string(), "(1, \"a\\\"b\")");
    let array = Expression::ArrayLiteral(vec![num(1), Expression::PublicReference("p".to_string())]);
    assert_eq!(array.to_string(), "[1, :p]");
    let input = Expression::FreeInput(Box::new(var("x")));
    assert_eq!(input.to_string(), "${ x }");
    let cond = Expression::IfExpression(Box::new(var("c")), Box::new(num(1)), Box::new(num(2)));
    assert_eq!(cond.to_string(), "if c 1 else 2");
    let pow = Expression::BinaryOperation(Box::new(num(2)), BinaryOperator::Pow, Box::new(num(3)));
    assert_eq!(pow.to_string(), "(2 ** 3)");
    assert_eq!(BinaryOperator::Identity.to_string(), "=");
    assert!(!UnaryOperator::Next.is_prefix());
}
