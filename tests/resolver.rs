use l_robot::namespace::NamespaceElement;
use l_robot::node::{ASTNode, ASTNodeType};
use l_robot::number::{Arithmetic, Num};
use l_robot::parsers::parse;
use l_robot::resolve_message::{ResolveMessage, ResolveMessageType};
use l_robot::resolver::{self, Resolver};
use l_robot::tokenizer::{parse_token, tokenize, Operation, Token};
use l_robot::resolve_lines;

struct F64;

fn f(n: Num) -> f64 {
    f64::from_bits(n.bits)
}

fn num(x: f64) -> Num {
    // Every NaN is stored with one bit pattern, so that equal arguments give
    // equal results.
    if x.is_nan() {
        Num::from_bits(f64::NAN.to_bits())
    } else {
        Num::from_bits(x.to_bits())
    }
}

impl Arithmetic for F64 {
    fn add_spec(&self, a: Num, b: Num) -> Num {
        self.add(a, b)
    }

    fn sub_spec(&self, a: Num, b: Num) -> Num {
        self.sub(a, b)
    }

    fn mul_spec(&self, a: Num, b: Num) -> Num {
        self.mul(a, b)
    }

    fn div_spec(&self, a: Num, b: Num) -> Num {
        self.div(a, b)
    }

    fn pow_spec(&self, a: Num, b: Num) -> Num {
        self.pow(a, b)
    }

    fn render_spec(&self, a: Num) -> String {
        self.render(a)
    }

    fn parse_number(&self, text: &str) -> Result<Num, String> {
        text.parse::<f64>().map(num).map_err(|e| e.to_string())
    }

    fn add(&self, a: Num, b: Num) -> Num {
        num(f(a) + f(b))
    }

    fn sub(&self, a: Num, b: Num) -> Num {
        num(f(a) - f(b))
    }

    fn mul(&self, a: Num, b: Num) -> Num {
        num(f(a) * f(b))
    }

    fn div(&self, a: Num, b: Num) -> Num {
        num(f(a) / f(b))
    }

    fn pow(&self, a: Num, b: Num) -> Num {
        num(f(a).powf(f(b)))
    }

    fn render(&self, a: Num) -> String {
        format!("{}", f(a))
    }
}

fn name(s: &str) -> ASTNode {
    ASTNode::delimeter(Token::Name(s.into()))
}

fn line(resolver: &mut Resolver<F64>, text: &str) -> Vec<ResolveMessage> {
    let tokens = tokenize(text, &F64).unwrap();
    resolver.resolve_line(parse(&tokens).unwrap())
}

#[test]
fn resolve_numbers() {
    let mut node = ASTNode::new(ASTNodeType::Sum, vec![ASTNode::number(num(10.)), ASTNode::number(num(2.))]);
    let output = resolver::resolve_numbers(&F64, &mut node, Operation::Add);
    assert!(output.is_none());
    assert_eq!(node, ASTNode::number(num(12.)));
}

#[test]
fn resolve_numbers_divide_by_zero() {
    let mut node = ASTNode::new(ASTNodeType::Quotient, vec![ASTNode::number(num(10.)), ASTNode::number(num(0.))]);
    let output = resolver::resolve_numbers(&F64, &mut node, Operation::Div);
    assert_eq!(output, Some(ResolveMessage::error("Divide by zero")));
    assert_eq!(
        node,
        ASTNode::new(ASTNodeType::Quotient, vec![ASTNode::number(num(10.)), ASTNode::number(num(0.))])
    );
}

#[test]
fn resolve_line_sum_2_2() {
    let node = ASTNode::new(ASTNodeType::Sum, vec![ASTNode::number(num(10.)), ASTNode::number(num(2.))]);
    let mut resolver = Resolver::new(F64);
    let output = resolver.resolve_line(node);
    assert_eq!(output.len(), 1);
    assert_eq!(output.first().unwrap().content, "? = 12");
}

fn solve_one(op: ASTNodeType, left: ASTNode, right: ASTNode) -> Vec<ResolveMessage> {
    let node = ASTNode::new(
        ASTNodeType::Equality,
        vec![ASTNode::new(op, vec![left, right]), ASTNode::number(num(100.))],
    );
    let mut resolver = Resolver::new(F64);
    resolver.resolve_line(node)
}

#[test]
fn resolve_unknowns_sum() {
    let output = solve_one(ASTNodeType::Sum, name("y"), ASTNode::number(num(2.)));
    assert_eq!(output.len(), 1);
    assert_eq!(output.first().unwrap().content, "y = 98");
}

#[test]
fn resolve_unknowns_diff() {
    let output = solve_one(ASTNodeType::Difference, name("y"), ASTNode::number(num(2.)));
    assert_eq!(output.len(), 1);
    assert_eq!(output.first().unwrap().content, "y = 102");
}

#[test]
fn resolve_unknowns_diff_known_on_left() {
    let output = solve_one(ASTNodeType::Difference, ASTNode::number(num(2.)), name("y"));
    assert_eq!(output.len(), 1);
    assert_eq!(output.first().unwrap().content, "y = -98");
}

#[test]
fn resolve_unknowns_product() {
    let output = solve_one(ASTNodeType::Product, name("y"), ASTNode::number(num(2.)));
    assert_eq!(output.len(), 1);
    assert_eq!(output.first().unwrap().content, "y = 50");
}

#[test]
fn resolve_unknowns_quotient_left() {
    let output = solve_one(ASTNodeType::Quotient, name("y"), ASTNode::number(num(2.)));
    assert_eq!(output.len(), 1);
    assert_eq!(output.first().unwrap().content, "y = 200");
}

#[test]
fn resolve_unknowns_quotient_right() {
    let output = solve_one(ASTNodeType::Quotient, ASTNode::number(num(2.)), name("y"));
    assert_eq!(output.len(), 1);
    assert_eq!(output.first().unwrap().content, "y = 0.02");
}

#[test]
fn resolve_unknowns_power_is_reported() {
    let output = solve_one(ASTNodeType::Power, name("y"), ASTNode::number(num(2.)));
    assert_eq!(output, vec![ResolveMessage::error("Cannot evaluate powers of unknowns")]);
}

#[test]
fn resolve_inserts_into_namespace() {
    let node = ASTNode::new(ASTNodeType::Equality, vec![name("guacamole"), ASTNode::number(num(100.))]);
    let mut resolver = Resolver::new(F64);
    let output = resolver.resolve_line(node);
    assert_eq!(output.len(), 1);
    assert_eq!(output.first().unwrap().content, "guacamole = 100");
    assert_eq!(resolver.namespace.get("guacamole".into()), Some(&NamespaceElement::Number(num(100.))));
}

#[test]
fn resolve_assignment_inserts_into_namespace() {
    let node = ASTNode::new(
        ASTNodeType::Assignment,
        vec![ASTNode::new(
            ASTNodeType::Equality,
            vec![
                ASTNode::new(ASTNodeType::Function("fn".into()), vec![name("x")]),
                ASTNode::new(ASTNodeType::Sum, vec![name("x"), ASTNode::number(num(10.))]),
            ],
        )],
    );
    let mut resolver = Resolver::new(F64);
    let output = resolver.resolve_line(node);
    assert_eq!(output.len(), 1);
    assert_eq!(output.first().unwrap().content, "fn(x) = [...]");
    assert_eq!(
        resolver.namespace.get("fn".into()),
        Some(&NamespaceElement::Function(ASTNode::new(
            ASTNodeType::Sum,
            vec![ASTNode::new(ASTNodeType::FnArgument(0), vec![]), ASTNode::number(num(10.))]
        )))
    );
}

fn with_f_and_g() -> Resolver<F64> {
    let mut resolver = Resolver::new(F64);
    resolver.namespace.insert(
        String::from("f"),
        NamespaceElement::Function(ASTNode::new(
            ASTNodeType::Sum,
            vec![ASTNode::new(ASTNodeType::FnArgument(0), vec![]), ASTNode::number(num(4.))],
        )),
    );
    resolver.namespace.insert(
        String::from("g"),
        NamespaceElement::Function(ASTNode::new(
            ASTNodeType::Power,
            vec![ASTNode::new(ASTNodeType::FnArgument(0), vec![]), ASTNode::number(num(2.))],
        )),
    );
    resolver
}

#[test]
fn resolve_fn_works_with_one_arg() {
    let mut resolver = with_f_and_g();
    let node = ASTNode::new(ASTNodeType::Function("f".into()), vec![ASTNode::number(num(10.))]);
    let output = resolver.resolve_line(node);
    assert_eq!(output.len(), 1);
    assert_eq!(output.first().unwrap().content, "? = 14");
}

#[test]
fn resolve_fn_works_with_composition() {
    let mut resolver = with_f_and_g();
    let node = ASTNode::new(
        ASTNodeType::Function("f".into()),
        vec![ASTNode::new(ASTNodeType::Function("g".into()), vec![ASTNode::number(num(10.))])],
    );
    let output = resolver.resolve_line(node);
    assert_eq!(output.len(), 1);
    assert_eq!(output.first().unwrap().content, "? = 104");
}

#[test]
fn parse_token_works() {
    assert_eq!(parse_token("guacamole", false, &F64).unwrap(), Token::Name("guacamole".into()));
    assert_eq!(parse_token("guacamole33", false, &F64).unwrap(), Token::Name("guacamole33".into()));
    assert_eq!(parse_token("33", true, &F64).unwrap(), Token::Number(num(33.0)));
    assert!(parse_token("thisisdefinetelynotanumber", true, &F64).is_err());
}

#[test]
fn tokenize_creates_works() {
    assert_eq!(
        tokenize("(x+10)/3", &F64).unwrap(),
        vec![
            Token::OpeningParen,
            Token::Name("x".into()),
            Token::Operation(Operation::Add),
            Token::Number(num(10.0)),
            Token::ClosingParen,
            Token::Operation(Operation::Div),
            Token::Number(num(3.0))
        ]
    );
    assert_eq!(
        tokenize("v_t=10 [m/s^2]", &F64).unwrap(),
        vec![
            Token::Name("v_t".into()),
            Token::Equals,
            Token::Number(num(10.0)),
            Token::OpeningBracket,
            Token::Name("m".into()),
            Token::Operation(Operation::Div),
            Token::Name("s".into()),
            Token::Operation(Operation::Exp),
            Token::Number(num(2.0)),
            Token::ClosingBracket,
        ]
    );
}

#[test]
fn tokenize_let_and_comma() {
    assert_eq!(
        tokenize("let f(a,b)", &F64).unwrap(),
        vec![
            Token::Let,
            Token::Name("f".into()),
            Token::OpeningParen,
            Token::Name("a".into()),
            Token::Comma,
            Token::Name("b".into()),
            Token::ClosingParen,
        ]
    );
}

#[test]
fn tokenize_bad_number_fails() {
    assert!(tokenize("1.2.3 + 4", &F64).is_err());
}

#[test]
fn tokenize_parse_x_squared() {
    let x = parse(&tokenize("x^2", &F64).unwrap()).unwrap();
    assert_eq!(x, ASTNode::new(ASTNodeType::Power, vec![name("x"), ASTNode::number(num(2.0))]));
}

#[test]
fn tokenize_parse_gravitational_force() {
    let x = parse(&tokenize("F_g=G*(m_1*m_2)/r^2", &F64).unwrap()).unwrap();
    assert_eq!(
        x,
        ASTNode::new(
            ASTNodeType::Equality,
            vec![
                name("F_g"),
                ASTNode::new(
                    ASTNodeType::Product,
                    vec![
                        name("G"),
                        ASTNode::new(
                            ASTNodeType::Quotient,
                            vec![
                                ASTNode::new(ASTNodeType::Product, vec![name("m_1"), name("m_2")]),
                                ASTNode::new(ASTNodeType::Power, vec![name("r"), ASTNode::number(num(2.))])
                            ]
                        )
                    ]
                ),
            ]
        )
    );
}

#[test]
fn tokenize_parse_implied_mult_div_literal() {
    let x = parse(&tokenize("100(10 + 3)^3/4", &F64).unwrap()).unwrap();
    assert_eq!(
        x,
        ASTNode::new(
            ASTNodeType::Product,
            vec![
                ASTNode::number(num(100.)),
                ASTNode::new(
                    ASTNodeType::Power,
                    vec![
                        ASTNode::new(ASTNodeType::Sum, vec![ASTNode::number(num(10.)), ASTNode::number(num(3.))]),
                        ASTNode::new(ASTNodeType::Quotient, vec![ASTNode::number(num(3.)), ASTNode::number(num(4.))])
                    ]
                ),
            ]
        )
    );
}

#[test]
fn tokenize_parse_many_sums() {
    let x = parse(&tokenize("1 + 2 + 3 + 4 + 5 + 6 + 7 + 8 + 9 + 10", &F64).unwrap()).unwrap();
    let mut expected = ASTNode::new(ASTNodeType::Sum, vec![ASTNode::number(num(1.)), ASTNode::number(num(2.))]);
    for k in 3..=10 {
        expected = ASTNode::new(ASTNodeType::Sum, vec![expected, ASTNode::number(num(k as f64))]);
    }
    assert_eq!(x, expected);
    let mut depth = 0;
    let mut node = &x;
    while node.node_type == ASTNodeType::Sum {
        depth += 1;
        node = &node.children[0];
    }
    assert_eq!(depth, 9);
}

#[test]
fn full_egyptian_triangle() {
    let x = vec!["x = 3", "y = 4", "z = (x^2 + y^2)^1/2"];
    let x = x.iter().map(|a| tokenize(a, &F64).unwrap()).map(|a| parse(&a).unwrap()).enumerate();
    let mut resolver = Resolver::new(F64);
    let output = resolver.resolve(x.collect());
    assert_eq!(output.last().unwrap(), &(2usize, ResolveMessage::output("z = 5")));
}

#[test]
fn full_fraction_subtraction() {
    let x = vec!["x = 0.0002", "y = 0.0001", "x - y"];
    let x = x.iter().map(|a| tokenize(a, &F64).unwrap()).map(|a| parse(&a).unwrap()).enumerate();
    let mut resolver = Resolver::new(F64);
    let output = resolver.resolve(x.collect());
    assert_eq!(output.last().unwrap(), &(2usize, ResolveMessage::output("? = 0.0001")));
}

#[test]
fn resolve_with_partial_fn_declaration_throws_error() {
    let mut resolver = Resolver::new(F64);
    let output = line(&mut resolver, "let f()");
    assert_eq!(output.len(), 1);
    assert!(matches!(output.first().unwrap().msg_type, ResolveMessageType::Error));
}

#[test]
fn resolve_with_missing_side_of_equation_throws_error() {
    let mut resolver = Resolver::new(F64);
    let output = line(&mut resolver, "10 =");
    assert_eq!(output.len(), 2);
    assert!(matches!(output.first().unwrap().msg_type, ResolveMessageType::Error));
    assert!(matches!(output[1].msg_type, ResolveMessageType::Error));
    let again = line(&mut resolver, "10 =");
    assert_eq!(output, again);
}

#[test]
fn resolve_fn_assignment_with_missing_parts_does_not_panic() {
    let x = "let f(x, y) = x^(y + 1)";
    for i in 0..x.len() {
        let mut resolver = Resolver::new(F64);
        let line = &x[0..=i];
        if let Ok(tokenized) = tokenize(line, &F64) {
            if let Ok(parsed) = parse(&tokenized) {
                resolver.resolve_line(parsed);
            }
        }
    }
}

#[test]
fn resolve_fn_assignment_with_another_line_does_not_panic() {
    let mut resolver = Resolver::new(F64);
    for x in vec!["let f(x) = 10", "f", "f()", "f(10)"] {
        line(&mut resolver, x);
    }
}

#[test]
fn declared_functions_compose() {
    let mut resolver = Resolver::new(F64);
    assert_eq!(line(&mut resolver, "let f(x) = x + 4"), vec![ResolveMessage::output("f(x) = [...]")]);
    assert_eq!(line(&mut resolver, "let g(x) = x^2"), vec![ResolveMessage::output("g(x) = [...]")]);
    assert_eq!(line(&mut resolver, "f(g(10))"), vec![ResolveMessage::output("? = 104")]);
}

#[test]
fn divide_by_zero_is_reported() {
    let mut resolver = Resolver::new(F64);
    assert_eq!(line(&mut resolver, "10/0"), vec![ResolveMessage::error("Divide by zero")]);
}

#[test]
fn equality_without_unknown_compares() {
    let mut resolver = Resolver::new(F64);
    assert_eq!(line(&mut resolver, "2 + 2 = 4"), vec![ResolveMessage::output("true")]);
    assert_eq!(line(&mut resolver, "2 = 3"), vec![ResolveMessage::output("false")]);
}

#[test]
fn two_unknowns_are_rejected() {
    let mut resolver = Resolver::new(F64);
    assert_eq!(
        line(&mut resolver, "x + y = 3"),
        vec![ResolveMessage::error("Could not resolve an equation with more than one unknown")]
    );
    assert!(resolver.namespace.get("x").is_none());
}

#[test]
fn expression_with_unknown_gives_hint() {
    let mut resolver = Resolver::new(F64);
    assert_eq!(
        line(&mut resolver, "x + 1"),
        vec![
            ResolveMessage::error("Could not resolve expression with unknown"),
            ResolveMessage::info("Hint: To solve for an unknown, make this into an equation"),
        ]
    );
}

#[test]
fn body_with_free_name_is_rejected() {
    let mut resolver = Resolver::new(F64);
    assert_eq!(line(&mut resolver, "let f(x) = x + z"), vec![ResolveMessage::error("Unknown name: z")]);
    assert!(resolver.namespace.get("f").is_none());
}

#[test]
fn invalid_parameters_are_rejected() {
    let mut resolver = Resolver::new(F64);
    assert_eq!(line(&mut resolver, "let f(1) = 2"), vec![ResolveMessage::error("Invalid function arguments")]);
}

#[test]
fn missing_argument_is_reported() {
    let mut resolver = Resolver::new(F64);
    line(&mut resolver, "let f(x, y) = x + y");
    assert_eq!(
        line(&mut resolver, "f(1)"),
        vec![ResolveMessage::error("Provided 1 args, while this function expects 2")]
    );
    assert_eq!(line(&mut resolver, "f(1, 2)"), vec![ResolveMessage::output("? = 3")]);
}

#[test]
fn self_calling_function_stops() {
    let mut resolver = Resolver::new(F64);
    line(&mut resolver, "let f(x) = f(x)");
    assert_eq!(line(&mut resolver, "f(1)"), vec![ResolveMessage::error("Function calls nest too deeply")]);
}

#[test]
fn solving_a_difference_with_known_on_left() {
    let mut resolver = Resolver::new(F64);
    assert_eq!(line(&mut resolver, "10 - y = 3"), vec![ResolveMessage::output("y = 7")]);
}

#[test]
fn assignment_needs_function_on_left() {
    let mut resolver = Resolver::new(F64);
    assert_eq!(
        line(&mut resolver, "let x = 2"),
        vec![ResolveMessage::error("Assignment requires function on left side")]
    );
}

#[test]
fn resolve_lines_numbers_each_message() {
    let out = resolve_lines(vec!["x = 2".into(), "x * 3".into(), "(1".into(), "1.2.3".into()], F64);
    assert_eq!(out[0], (1, ResolveMessage::output("x = 2")));
    assert_eq!(out[1], (2, ResolveMessage::output("? = 6")));
    assert_eq!(out[2], (3, ResolveMessage::error("Unmatched opening paren")));
    assert_eq!(out[3].0, 4);
    assert_eq!(out[3].1.msg_type, ResolveMessageType::Error);
    assert_eq!(out.len(), 4);
}

#[test]
fn decimal_string_writes_digits() {
    assert_eq!(resolver::decimal_string(0), "0");
    assert_eq!(resolver::decimal_string(407), "407");
}

fn latex_of(text: &str) -> String {
    parse(&tokenize(text, &F64).unwrap()).unwrap().to_latex(&F64)
}

#[test]
fn latex_of_gravitational_force() {
    assert_eq!(latex_of("F_g=G*(m_1*m_2)/r^2"), "F_g=G \\frac{m_1 m_2}{r^2}");
}

#[test]
fn latex_parenthesises_and_braces() {
    assert_eq!(latex_of("(x+1)^(y-2)"), "(x+1)^{y-2}");
    assert_eq!(latex_of("10(x + 3)"), "10 (x+3)");
    assert_eq!(latex_of("f(a, b)"), "ab");
    assert_eq!(latex_of("x = 2.5"), "x=2.5");
}

#[test]
fn bound_number_before_group_multiplies() {
    let mut resolver = Resolver::new(F64);
    line(&mut resolver, "x = 2");
    assert_eq!(line(&mut resolver, "x(3)"), vec![ResolveMessage::output("? = 6")]);
    assert_eq!(line(&mut resolver, "x(1 + 4)"), vec![ResolveMessage::output("? = 10")]);
}

#[test]
fn parameters_shadow_bound_names() {
    let mut resolver = Resolver::new(F64);
    line(&mut resolver, "x = 2");
    assert_eq!(line(&mut resolver, "let f(x) = x + 1"), vec![ResolveMessage::output("f(x) = [...]")]);
    assert_eq!(line(&mut resolver, "f(5)"), vec![ResolveMessage::output("? = 6")]);
}

#[test]
fn bodies_do_not_close_over_bound_names() {
    let mut resolver = Resolver::new(F64);
    line(&mut resolver, "x = 2");
    assert_eq!(line(&mut resolver, "let f(y) = x + y"), vec![ResolveMessage::error("Unknown name: x")]);
}

#[test]
fn session_results_through_resolve_lines() {
    let out = resolve_lines(
        vec!["x = 3".into(), "y = 4".into(), "z = (x^2 + y^2)^1/2".into()],
        F64,
    );
    assert_eq!(
        out,
        vec![
            (1, ResolveMessage::output("x = 3")),
            (2, ResolveMessage::output("y = 4")),
            (3, ResolveMessage::output("z = 5")),
        ]
    );
}
