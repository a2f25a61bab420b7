use l_robot::node::{ASTNode, ASTNodeType};
use l_robot::number::Num;
use l_robot::parsers;
use l_robot::parsers::ParseError;
use l_robot::tokenizer::{Operation, Token};
use l_robot::walkers;

fn num(x: f64) -> Num {
    Num::from_bits(x.to_bits())
}

fn number(x: f64) -> Token {
    Token::Number(num(x))
}

#[test]
fn parse_parens() {
    let x = parsers::parse_parens(parsers::wrap_tokens(&vec![
        Token::OpeningParen,
        Token::OpeningParen,
        Token::OpeningParen,
        Token::ClosingParen,
        Token::ClosingParen,
        Token::ClosingParen,
        Token::OpeningParen,
        Token::ClosingParen,
    ]))
    .unwrap();
    assert_eq!(
        x,
        ASTNode {
            children: vec![
                ASTNode {
                    children: vec![ASTNode {
                        children: vec![ASTNode { children: vec![], node_type: ASTNodeType::Empty }],
                        node_type: ASTNodeType::Empty,
                    }],
                    node_type: ASTNodeType::Empty,
                },
                ASTNode { children: vec![], node_type: ASTNodeType::Empty },
            ],
            node_type: ASTNodeType::Empty,
        }
    );
}

#[test]
fn parse_parens_and_other() {
    let x = parsers::parse_parens(parsers::wrap_tokens(&vec![
        Token::OpeningParen,
        Token::Name("x".into()),
        Token::Operation(Operation::Add),
        number(10.0),
        Token::ClosingParen,
        Token::Operation(Operation::Div),
        number(3.0),
    ]))
    .unwrap();
    assert_eq!(
        x,
        ASTNode {
            children: vec![
                ASTNode {
                    children: vec![
                        ASTNode::delimeter(Token::Name("x".into())),
                        ASTNode::delimeter(Token::Operation(Operation::Add)),
                        ASTNode::delimeter(number(10.0)),
                    ],
                    node_type: ASTNodeType::Empty,
                },
                ASTNode::delimeter(Token::Operation(Operation::Div)),
                ASTNode::delimeter(number(3.0)),
            ],
            node_type: ASTNodeType::Empty,
        }
    );
}

#[test]
fn parse_parens_errors() {
    let x = parsers::parse_parens(parsers::wrap_tokens(&vec![
        Token::OpeningParen,
        Token::ClosingParen,
        Token::OpeningParen,
    ]))
    .unwrap_err();
    assert_eq!(x, ParseError::UnmatchedOpeningParen);

    let x = parsers::parse_parens(parsers::wrap_tokens(&vec![
        Token::OpeningParen,
        Token::ClosingParen,
        Token::OpeningParen,
        Token::ClosingParen,
        Token::ClosingParen,
    ]))
    .unwrap_err();
    assert_eq!(x, ParseError::UnmatchedClosingParen);
}

#[test]
fn parse_negatives() {
    let mut x = parsers::parse_parens(parsers::wrap_tokens(&vec![
        Token::OpeningParen,
        Token::Operation(Operation::Sub),
        number(10.0),
        Token::Operation(Operation::Add),
        number(7.0),
        Token::ClosingParen,
        Token::Operation(Operation::Sub),
        number(3.0),
        Token::Operation(Operation::Exp),
        Token::Operation(Operation::Sub),
        number(10.0),
    ]))
    .unwrap();

    parsers::parse_negatives(&mut x);

    assert_eq!(
        x,
        ASTNode {
            children: vec![
                ASTNode {
                    children: vec![
                        ASTNode::delimeter(number(-10.0)),
                        ASTNode::delimeter(Token::Operation(Operation::Add)),
                        ASTNode::delimeter(number(7.0)),
                    ],
                    node_type: ASTNodeType::Empty,
                },
                ASTNode::delimeter(Token::Operation(Operation::Sub)),
                ASTNode::delimeter(number(3.0)),
                ASTNode::delimeter(Token::Operation(Operation::Exp)),
                ASTNode::delimeter(number(-10.0)),
            ],
            node_type: ASTNodeType::Empty,
        }
    );
}

#[test]
fn parse_full_square() {
    let x = parsers::parse(&vec![number(10.), Token::Operation(Operation::Exp), number(2.)]).unwrap();
    assert_eq!(
        x,
        ASTNode::new(
            ASTNodeType::Power,
            vec![ASTNode::delimeter(number(10.)), ASTNode::delimeter(number(2.))]
        )
    );
}

#[test]
fn parse_full_number() {
    let x = parsers::parse(&vec![number(10.)]).unwrap();
    assert_eq!(x, ASTNode::delimeter(number(10.)));
}

#[test]
fn parse_full_div() {
    let x = parsers::parse(&vec![number(10.), Token::Operation(Operation::Div), number(0.)]).unwrap();
    assert_eq!(
        x,
        ASTNode::new(
            ASTNodeType::Quotient,
            vec![ASTNode::delimeter(number(10.)), ASTNode::delimeter(number(0.))]
        )
    );
}

#[test]
fn parse_full_sub() {
    let x = parsers::parse(&vec![number(0.005), Token::Operation(Operation::Sub), number(0.002)]).unwrap();
    assert_eq!(
        x,
        ASTNode::new(
            ASTNodeType::Difference,
            vec![ASTNode::delimeter(number(0.005)), ASTNode::delimeter(number(0.002))]
        )
    );
}

#[test]
fn parse_full_negative() {
    let x = parsers::parse(&vec![Token::Operation(Operation::Sub), number(0.002)]).unwrap();
    assert_eq!(x, ASTNode::number(num(-0.002)));
}

#[test]
fn parse_full_fn() {
    let x = parsers::parse(&vec![
        Token::Name("my_fun".into()),
        Token::OpeningParen,
        Token::ClosingParen,
    ])
    .unwrap();
    assert_eq!(x, ASTNode::new(ASTNodeType::Function("my_fun".into()), vec![]));
}

#[test]
fn parse_full_fn_args() {
    let x = parsers::parse(&vec![
        Token::Name("my_fun".into()),
        Token::OpeningParen,
        number(10.),
        Token::Operation(Operation::Sub),
        number(3.),
        Token::ClosingParen,
    ])
    .unwrap();
    assert_eq!(
        x,
        ASTNode::new(
            ASTNodeType::Function("my_fun".into()),
            vec![ASTNode::new(
                ASTNodeType::Difference,
                vec![ASTNode::number(num(10.)), ASTNode::number(num(3.))]
            )]
        ),
    );
}

#[test]
fn parse_full_fn_args_nesting() {
    let x = parsers::parse(&vec![
        Token::Name("my_fun".into()),
        Token::OpeningParen,
        number(10.),
        Token::Operation(Operation::Mul),
        Token::OpeningParen,
        Token::Operation(Operation::Sub),
        number(3.),
        Token::Operation(Operation::Add),
        number(5.),
        Token::ClosingParen,
        Token::ClosingParen,
    ])
    .unwrap();
    assert_eq!(
        x,
        ASTNode::new(
            ASTNodeType::Function("my_fun".into()),
            vec![ASTNode::new(
                ASTNodeType::Product,
                vec![
                    ASTNode::number(num(10.)),
                    ASTNode::new(
                        ASTNodeType::Sum,
                        vec![ASTNode::number(num(-3.)), ASTNode::number(num(5.))]
                    )
                ]
            )]
        ),
    );
}

#[test]
fn is_implied_multiplication() {
    let x = parsers::parse(&vec![
        number(10.),
        Token::OpeningParen,
        number(2.),
        Token::Operation(Operation::Add),
        number(4.),
        Token::ClosingParen,
    ])
    .unwrap();
    assert_eq!(
        x,
        ASTNode::new(
            ASTNodeType::Product,
            vec![
                ASTNode::delimeter(number(10.)),
                ASTNode::new(
                    ASTNodeType::Sum,
                    vec![ASTNode::delimeter(number(2.)), ASTNode::delimeter(number(4.))]
                )
            ]
        )
    );
}

#[test]
fn is_implied_multiplication_number() {
    let x = parsers::parse(&vec![number(10.), Token::OpeningParen, number(2.), Token::ClosingParen]).unwrap();
    assert_eq!(
        x,
        ASTNode::new(
            ASTNodeType::Product,
            vec![ASTNode::delimeter(number(10.)), ASTNode::delimeter(number(2.))]
        )
    );
}

#[test]
fn is_implied_multiplication_quotient() {
    let x = parsers::parse(&vec![
        number(1.),
        Token::Operation(Operation::Div),
        number(2.),
        Token::OpeningParen,
        number(2.),
        Token::Operation(Operation::Add),
        number(4.),
        Token::ClosingParen,
    ])
    .unwrap();
    assert_eq!(
        x,
        ASTNode::new(
            ASTNodeType::Product,
            vec![
                ASTNode::new(
                    ASTNodeType::Quotient,
                    vec![ASTNode::delimeter(number(1.)), ASTNode::delimeter(number(2.))]
                ),
                ASTNode::new(
                    ASTNodeType::Sum,
                    vec![ASTNode::delimeter(number(2.)), ASTNode::delimeter(number(4.))]
                )
            ]
        )
    );
}

#[test]
fn is_implied_multiplication_num_name() {
    let x = parsers::parse(&vec![number(10.), Token::Name("x".into())]).unwrap();
    assert_eq!(
        x,
        ASTNode::new(
            ASTNodeType::Product,
            vec![ASTNode::delimeter(number(10.)), ASTNode::delimeter(Token::Name("x".into()))]
        )
    );
}

#[test]
fn interfix_walker_div_sum() {
    let mut x = ASTNode {
        children: parsers::wrap_tokens(&vec![
            number(10.),
            Token::Operation(Operation::Div),
            number(2.),
            Token::Operation(Operation::Add),
            number(7.),
        ]),
        ..Default::default()
    };

    walkers::interfix_walker(&mut x, Token::Operation(Operation::Div), ASTNodeType::Quotient);

    assert_eq!(
        x.children,
        vec![
            ASTNode {
                node_type: ASTNodeType::Quotient,
                children: parsers::wrap_tokens(&vec![number(10.), number(2.)])
            },
            ASTNode::delimeter(Token::Operation(Operation::Add)),
            ASTNode::delimeter(number(7.))
        ]
    )
}

#[test]
fn interfix_walker_recursion() {
    let mut x = ASTNode {
        children: vec![
            ASTNode::delimeter(number(7.)),
            ASTNode::delimeter(Token::Operation(Operation::Div)),
            ASTNode::empty(vec![
                ASTNode::delimeter(number(13.)),
                ASTNode::delimeter(Token::Operation(Operation::Div)),
                ASTNode::delimeter(number(9.)),
            ]),
        ],
        ..Default::default()
    };

    walkers::interfix_walker(&mut x, Token::Operation(Operation::Div), ASTNodeType::Quotient);

    assert_eq!(
        x.children,
        vec![ASTNode::new(
            ASTNodeType::Quotient,
            vec![
                ASTNode::delimeter(number(7.)),
                ASTNode::empty(vec![ASTNode::new(
                    ASTNodeType::Quotient,
                    vec![ASTNode::delimeter(number(13.)), ASTNode::delimeter(number(9.))]
                )])
            ]
        )]
    )
}

#[test]
fn literal_quotient_only_folds_numbers() {
    let mut x = ASTNode::empty(parsers::wrap_tokens(&vec![
        Token::Name("x".into()),
        Token::Operation(Operation::Div),
        number(2.),
        Token::Operation(Operation::Div),
        number(4.),
    ]));
    walkers::failing_interfix_walker(&mut x, Token::Operation(Operation::Div));
    assert_eq!(
        x.children,
        vec![
            ASTNode::delimeter(Token::Name("x".into())),
            ASTNode::delimeter(Token::Operation(Operation::Div)),
            ASTNode::new(
                ASTNodeType::Quotient,
                vec![ASTNode::delimeter(number(2.)), ASTNode::delimeter(number(4.))]
            ),
        ]
    );
}

#[test]
fn prefix_walker_wraps_operand() {
    let mut x = ASTNode::empty(parsers::wrap_tokens(&vec![Token::Let, Token::Name("f".into())]));
    walkers::prefix_walker(&mut x, Token::Let, ASTNodeType::Assignment);
    assert_eq!(
        x.children,
        vec![ASTNode::new(ASTNodeType::Assignment, vec![ASTNode::delimeter(Token::Name("f".into()))])]
    );
}

#[test]
fn minus_after_operand_is_not_negative() {
    let x = parsers::parse(&vec![number(5.), Token::Operation(Operation::Sub), number(3.)]).unwrap();
    assert_eq!(
        x,
        ASTNode::new(
            ASTNodeType::Difference,
            vec![ASTNode::delimeter(number(5.)), ASTNode::delimeter(number(3.))]
        )
    );
}

#[test]
fn name_then_name_is_product() {
    let x = parsers::parse(&vec![Token::Name("x".into()), Token::Name("y".into())]).unwrap();
    assert_eq!(
        x,
        ASTNode::new(
            ASTNodeType::Product,
            vec![
                ASTNode::delimeter(Token::Name("x".into())),
                ASTNode::delimeter(Token::Name("y".into()))
            ]
        )
    );
}

#[test]
fn power_then_group_is_not_product() {
    let a = ASTNode::new(
        ASTNodeType::Power,
        vec![ASTNode::delimeter(Token::Name("x".into())), ASTNode::delimeter(number(2.))],
    );
    let b = ASTNode::empty(vec![]);
    assert!(!walkers::is_implied_multiplication(&a, &b));
    let c = ASTNode::delimeter(number(3.));
    assert!(!walkers::is_implied_multiplication(&c, &a));
    let q = ASTNode::new(
        ASTNodeType::Quotient,
        vec![ASTNode::delimeter(number(1.)), ASTNode::delimeter(number(2.))],
    );
    assert!(!walkers::is_implied_multiplication(&q, &q));
}

#[test]
fn comma_and_let_fold() {
    let x = parsers::parse(&vec![
        Token::Let,
        Token::Name("f".into()),
        Token::OpeningParen,
        Token::Name("x".into()),
        Token::Comma,
        Token::Name("y".into()),
        Token::ClosingParen,
        Token::Equals,
        Token::Name("x".into()),
    ])
    .unwrap();
    assert_eq!(
        x,
        ASTNode::new(
            ASTNodeType::Assignment,
            vec![ASTNode::new(
                ASTNodeType::Equality,
                vec![
                    ASTNode::new(
                        ASTNodeType::Function("f".into()),
                        vec![ASTNode::new(
                            ASTNodeType::List,
                            vec![
                                ASTNode::delimeter(Token::Name("x".into())),
                                ASTNode::delimeter(Token::Name("y".into()))
                            ]
                        )]
                    ),
                    ASTNode::delimeter(Token::Name("x".into())),
                ]
            )]
        )
    );
}

#[test]
fn empty_row_parses_to_empty_root() {
    let x = parsers::parse(&vec![]).unwrap();
    assert_eq!(x, ASTNode::empty(vec![]));
}

#[test]
fn negate_flips_sign_only() {
    assert_eq!(num(2.5).negate(), num(-2.5));
    assert_eq!(num(-2.5).negate().negate(), num(-2.5));
    assert!(num(0.0).float_eq(num(-0.0)));
    assert!(!num(f64::NAN).float_eq(num(f64::NAN)));
    assert!(num(-0.0).is_zero());
}

#[test]
fn prefix_pass_leaves_folded_operands_alone() {
    let x = parsers::parse(&vec![Token::Let, Token::Operation(Operation::Add), Token::Name("x".into())]).unwrap();
    assert_eq!(
        x,
        ASTNode::new(
            ASTNodeType::Sum,
            vec![ASTNode::delimeter(Token::Let), ASTNode::delimeter(Token::Name("x".into()))]
        )
    );
    let y = parsers::parse(&vec![Token::Let, Token::Operation(Operation::Exp), number(2.)]).unwrap();
    assert_eq!(y.children.len(), 2);
}

#[test]
fn chained_equality_stays_binary() {
    let x = parsers::parse(&vec![
        Token::Name("a".into()),
        Token::Equals,
        Token::Name("b".into()),
        Token::Equals,
        Token::Name("c".into()),
    ])
    .unwrap();
    assert_eq!(x.node_type, ASTNodeType::Equality);
    assert_eq!(x.children.len(), 2);
    assert_eq!(x.children[0].node_type, ASTNodeType::Equality);
    assert_eq!(x.children[0].children.len(), 2);
}
