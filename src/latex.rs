use vstd::prelude::*;

use crate::node::{lemma_trees_of_index, lemma_trees_of_len, ASTNode, ASTNodeType, Tree};
use crate::number::Arithmetic;
use crate::functions::views;
use crate::tokenizer::{Operation, Token};
use crate::walkers::{implied, is_implied_multiplication};

verus! {

/// The parts in order, with `sep` between each two.
pub open spec fn joined(parts: Seq<Seq<char>>, sep: Seq<char>) -> Seq<char>
    decreases parts.len(),
{
    if parts.len() == 0 {
        Seq::empty()
    } else if parts.len() == 1 {
        parts[0]
    } else {
        joined(parts.subrange(0, parts.len() - 1), sep) + sep + parts[parts.len() - 1]
    }
}

/// Relies on itertools::join: the items written one after another, with
/// `sep` between each two; a `String` is written as it is.
#[verifier::external_body]
pub(crate) fn join_parts(parts: &Vec<String>, sep: &str) -> (r: String)
    ensures
        r@ == joined(views(parts@), sep@),
{
    itertools::join(parts, sep)
}

pub open spec fn token_text<A: Arithmetic>(arith: A, t: Token) -> Seq<char> {
    match t {
        Token::Name(name) => name@,
        Token::Number(n) => arith.render_spec(n)@,
        Token::Operation(Operation::Add) => "+"@,
        Token::Operation(Operation::Sub) => "-"@,
        Token::Operation(Operation::Mul) => "*"@,
        Token::Operation(Operation::Div) => "/"@,
        Token::Operation(Operation::Exp) => "^"@,
        Token::Equals => "="@,
        Token::OpeningBracket => "["@,
        Token::ClosingBracket => "]"@,
        _ => Seq::empty(),
    }
}

/// An operand stands without brackets where it is a leaf, an equality, a
/// function or a group, and, where `quotient_bare` holds, a quotient.
pub open spec fn is_bare(t: Tree, quotient_bare: bool) -> bool {
    match t.node_type {
        ASTNodeType::Delimeter(_) | ASTNodeType::Equality | ASTNodeType::Function(_) | ASTNodeType::Empty => true,
        ASTNodeType::Quotient => quotient_bare,
        _ => false,
    }
}

/// An operand's text, in parentheses (or braces, for an exponent) unless bare.
pub open spec fn operand_text(text: Seq<char>, t: Tree, quotient_bare: bool, braces: bool) -> Seq<char> {
    if is_bare(t, quotient_bare) {
        text
    } else if braces {
        "{"@ + text + "}"@
    } else {
        "("@ + text + ")"@
    }
}

/// The separator that joins the children of a node of this type.
pub open spec fn separator(node_type: ASTNodeType) -> Seq<char> {
    match node_type {
        ASTNodeType::Equality => "="@,
        ASTNodeType::Function(name) => name@,
        _ => Seq::empty(),
    }
}

/// The LaTeX text of a tree; numbers are written as `arith` writes them.
pub open spec fn latex<A: Arithmetic>(arith: A, t: Tree) -> Seq<char>
    decreases t,
{
    let n = t.children.len();
    match t.node_type {
        ASTNodeType::Delimeter(tok) => token_text(arith, tok),
        ASTNodeType::Empty => if n == 0 {
            Seq::empty()
        } else if n == 1 {
            latex(arith, t.children[0])
        } else {
            joined(latex_row(arith, t.children), " "@)
        },
        ASTNodeType::Quotient => if n != 2 {
            "Parsing error - quotient has wrong number of children"@
        } else {
            "\\frac{"@ + latex(arith, t.children[0]) + "}{"@ + latex(arith, t.children[1]) + "}"@
        },
        ASTNodeType::Power => if n != 2 {
            Seq::empty()
        } else {
            operand_text(latex(arith, t.children[0]), t.children[0], false, false) + "^"@
                + operand_text(latex(arith, t.children[1]), t.children[1], false, true)
        },
        ASTNodeType::Product => if n != 2 {
            Seq::empty()
        } else {
            operand_text(latex(arith, t.children[0]), t.children[0], true, false) + (if implied(
                t.children[0],
                t.children[1],
            ) {
                " "@
            } else {
                "*"@
            }) + operand_text(latex(arith, t.children[1]), t.children[1], true, false)
        },
        ASTNodeType::Sum => if n != 2 {
            Seq::empty()
        } else {
            operand_text(latex(arith, t.children[0]), t.children[0], false, false) + "+"@
                + operand_text(latex(arith, t.children[1]), t.children[1], false, false)
        },
        ASTNodeType::Difference => if n != 2 {
            Seq::empty()
        } else {
            operand_text(latex(arith, t.children[0]), t.children[0], false, false) + "-"@
                + operand_text(latex(arith, t.children[1]), t.children[1], false, false)
        },
        _ => joined(latex_row(arith, t.children), separator(t.node_type)),
    }
}

pub open spec fn latex_row<A: Arithmetic>(arith: A, s: Seq<Tree>) -> Seq<Seq<char>>
    decreases s,
{
    if s.len() == 0 {
        Seq::empty()
    } else {
        latex_row(arith, s.subrange(0, s.len() - 1)).push(latex(arith, s[s.len() - 1]))
    }
}

fn literal(s: &str) -> (r: String)
    ensures
        r@ == s@,
{
    String::from_str(s)
}

fn wrap_operand(text: String, t: &ASTNode, quotient_bare: bool, braces: bool) -> (r: String)
    ensures
        r@ == operand_text(text@, t@, quotient_bare, braces),
{
    let bare = match &t.node_type {
        ASTNodeType::Delimeter(_) | ASTNodeType::Equality | ASTNodeType::Function(_) | ASTNodeType::Empty => true,
        ASTNodeType::Quotient => quotient_bare,
        _ => false,
    };
    if bare {
        text
    } else {
        proof {
            reveal_strlit("{");
            reveal_strlit("}");
            reveal_strlit("(");
            reveal_strlit(")");
        }
        let mut r = if braces {
            literal("{")
        } else {
            literal("(")
        };
        r.append(text.as_str());
        if braces {
            r.append("}");
        } else {
            r.append(")");
        }
        r
    }
}

/// `a op b` from the texts of two operands.
fn infix_text(a: String, op: &str, b: String) -> (r: String)
    ensures
        r@ == a@ + op@ + b@,
{
    let mut r = a;
    r.append(op);
    r.append(b.as_str());
    r
}

fn render<A: Arithmetic>(n: &ASTNode, arith: &A) -> (r: String)
    ensures
        r@ == latex(*arith, n@),
    decreases n,
{
    proof {
        lemma_trees_of_len(n.children@);
        if n.children@.len() > 0 {
            lemma_trees_of_index(n.children@, 0);
        }
        if n.children@.len() > 1 {
            lemma_trees_of_index(n.children@, 1);
        }
        assert(decreases_to!(n => n.children));
        assert(decreases_to!(n.children => n.children@));
        if n.children@.len() > 0 {
            assert(decreases_to!(n.children@ => n.children@[0]));
        }
        if n.children@.len() > 1 {
            assert(decreases_to!(n.children@ => n.children@[1]));
        }
        reveal_strlit("+");
        reveal_strlit("-");
        reveal_strlit("*");
        reveal_strlit("/");
        reveal_strlit("^");
        reveal_strlit("=");
        reveal_strlit("[");
        reveal_strlit("]");
        reveal_strlit(" ");
        reveal_strlit("\\frac{");
        reveal_strlit("}{");
        reveal_strlit("}");
        reveal_strlit("Parsing error - quotient has wrong number of children");
    }
    let count = n.children.len();
    match &n.node_type {
        ASTNodeType::Delimeter(tok) => match tok {
            Token::Name(name) => name.clone(),
            Token::Number(v) => arith.render(*v),
            Token::Operation(Operation::Add) => literal("+"),
            Token::Operation(Operation::Sub) => literal("-"),
            Token::Operation(Operation::Mul) => literal("*"),
            Token::Operation(Operation::Div) => literal("/"),
            Token::Operation(Operation::Exp) => literal("^"),
            Token::Equals => literal("="),
            Token::OpeningBracket => literal("["),
            Token::ClosingBracket => literal("]"),
            _ => String::new(),
        },
        ASTNodeType::Empty => {
            if count == 0 {
                String::new()
            } else if count == 1 {
                render(&n.children[0], arith)
            } else {
                join_parts(&render_row(n, arith), " ")
            }
        },
        ASTNodeType::Quotient => {
            if count != 2 {
                literal("Parsing error - quotient has wrong number of children")
            } else {
                let mut r = literal("\\frac{");
                r.append(render(&n.children[0], arith).as_str());
                r.append("}{");
                r.append(render(&n.children[1], arith).as_str());
                r.append("}");
                r
            }
        },
        ASTNodeType::Power => {
            if count != 2 {
                String::new()
            } else {
                let a = wrap_operand(render(&n.children[0], arith), &n.children[0], false, false);
                let b = wrap_operand(render(&n.children[1], arith), &n.children[1], false, true);
                infix_text(a, "^", b)
            }
        },
        ASTNodeType::Product => {
            if count != 2 {
                String::new()
            } else {
                let a = wrap_operand(render(&n.children[0], arith), &n.children[0], true, false);
                let b = wrap_operand(render(&n.children[1], arith), &n.children[1], true, false);
                if is_implied_multiplication(&n.children[0], &n.children[1]) {
                    infix_text(a, " ", b)
                } else {
                    infix_text(a, "*", b)
                }
            }
        },
        ASTNodeType::Sum => {
            if count != 2 {
                String::new()
            } else {
                let a = wrap_operand(render(&n.children[0], arith), &n.children[0], false, false);
                let b = wrap_operand(render(&n.children[1], arith), &n.children[1], false, false);
                infix_text(a, "+", b)
            }
        },
        ASTNodeType::Difference => {
            if count != 2 {
                String::new()
            } else {
                let a = wrap_operand(render(&n.children[0], arith), &n.children[0], false, false);
                let b = wrap_operand(render(&n.children[1], arith), &n.children[1], false, false);
                infix_text(a, "-", b)
            }
        },
        other => {
            let sep = match other {
                ASTNodeType::Equality => literal("="),
                ASTNodeType::Function(name) => name.clone(),
                _ => String::new(),
            };
            join_parts(&render_row(n, arith), sep.as_str())
        },
    }
}

/// The texts of the children, in order.
fn render_row<A: Arithmetic>(n: &ASTNode, arith: &A) -> (r: Vec<String>)
    ensures
        views(r@) == latex_row(*arith, n@.children),
    decreases n, 0nat,
{
    let mut out: Vec<String> = Vec::new();
    let mut k: usize = 0;
    proof {
        lemma_trees_of_len(n.children@);
        assert(views(out@) =~= latex_row(*arith, n@.children.subrange(0, 0)));
    }
    while k < n.children.len()
        invariant
            k <= n.children@.len(),
            n@.children.len() == n.children@.len(),
            views(out@) == latex_row(*arith, n@.children.subrange(0, k as int)),
        decreases n.children@.len() - k,
    {
        proof {
            assert(decreases_to!(n => n.children));
            assert(decreases_to!(n.children => n.children@));
            assert(decreases_to!(n.children@ => n.children@[k as int]));
            lemma_trees_of_index(n.children@, k as int);
        }
        let text = render(&n.children[k], arith);
        let ghost before = out@;
        out.push(text);
        proof {
            let s = n@.children.subrange(0, k + 1);
            assert(s.subrange(0, s.len() - 1) =~= n@.children.subrange(0, k as int));
            assert(views(out@) =~= views(before).push(text@));
        }
        k += 1;
    }
    proof {
        assert(n@.children.subrange(0, k as int) =~= n@.children);
    }
    out
}

impl ASTNode {
    /// The tree as LaTeX, numbers written by `arith`.
    pub fn to_latex<A: Arithmetic>(&self, arith: &A) -> (r: String)
        ensures
            r@ == latex(*arith, self@),
    {
        render(self, arith)
    }
}

} // verus!
