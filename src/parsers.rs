use vstd::prelude::*;

use crate::node::{
    leaf, lemma_trees_of_index, lemma_trees_of_len, lemma_trees_of_push, lemma_trees_of_subrange,
    number_leaf, trees_of, ASTNode, ASTNodeType, Tree,
};
use crate::number::Num;
use crate::tokenizer::{Operation, Token};
use crate::walkers::{
    all_well_formed, binary, failing_interfix_walker, function_call_walker, interfix_walker,
    is_bare_leaf, is_frozen, is_leaf_of, is_number, lemma_walk_bare_row, lemma_walk_frozen,
    lemma_walk_leaf, lemma_walk_row_index, lemma_walk_row_len, lemma_walk_single_group,
    lemma_walk_well_formed, post_order, prefix_walker, row_fold, walk, walk_row, well_formed, Pass,
};

verus! {

#[derive(Debug, Clone, Copy, PartialEq, Eq, Structural)]
pub enum ParseError {
    UnmatchedOpeningParen,
    UnmatchedClosingParen,
    UnmatchedOpeningBracket,
    UnmatchedClosingBracket,
    WrongBracket,
}

/// The open groups while grouping: the outermost first, each as the row of its models.
pub open spec fn frames_of(stack: Seq<Vec<ASTNode>>) -> Seq<Seq<Tree>> {
    stack.map_values(|f: Vec<ASTNode>| trees_of(f@))
}

/// One node of the flat input applied to the open groups; `None` where a
/// closing parenthesis has no group to close.
pub open spec fn group_step(stack: Seq<Seq<Tree>>, t: Tree) -> Option<Seq<Seq<Tree>>> {
    if t.node_type == ASTNodeType::Delimeter(Token::OpeningParen) {
        Some(stack.push(Seq::empty()))
    } else if t.node_type == ASTNodeType::Delimeter(Token::ClosingParen) {
        if stack.len() <= 1 {
            None
        } else {
            let below = stack.drop_last();
            let closed = Tree { node_type: ASTNodeType::Empty, children: stack.last() };
            Some(below.drop_last().push(below.last().push(closed)))
        }
    } else {
        Some(stack.drop_last().push(stack.last().push(t)))
    }
}

pub open spec fn group_rows(stack: Seq<Seq<Tree>>, rest: Seq<Tree>) -> Option<Seq<Seq<Tree>>>
    decreases rest.len(),
{
    if rest.len() == 0 {
        Some(stack)
    } else {
        match group_step(stack, rest[0]) {
            None => None,
            Some(next) => group_rows(next, rest.subrange(1, rest.len() as int)),
        }
    }
}

/// The flat row nested by its parentheses, under one `Empty` root.
pub open spec fn grouped(row: Seq<Tree>) -> Result<Tree, ParseError> {
    match group_rows(seq![Seq::empty()], row) {
        None => Err(ParseError::UnmatchedClosingParen),
        Some(stack) => if stack.len() != 1 {
            Err(ParseError::UnmatchedOpeningParen)
        } else {
            Ok(Tree { node_type: ASTNodeType::Empty, children: stack[0] })
        },
    }
}

/// What a node does to the depth of open groups.
pub open spec fn depth_change(t: Tree) -> int {
    if t.node_type == ASTNodeType::Delimeter(Token::OpeningParen) {
        1
    } else if t.node_type == ASTNodeType::Delimeter(Token::ClosingParen) {
        -1
    } else {
        0
    }
}

/// Opening minus closing parentheses in the row.
pub open spec fn balance(s: Seq<Tree>) -> int
    decreases s.len(),
{
    if s.len() == 0 {
        0
    } else {
        depth_change(s[0]) + balance(s.subrange(1, s.len() as int))
    }
}

/// Starting at depth `d`, some closing parenthesis of the row has no group to close.
pub open spec fn dips(s: Seq<Tree>, d: int) -> bool
    decreases s.len(),
{
    s.len() > 0 && (d + depth_change(s[0]) < 0 || dips(s.subrange(1, s.len() as int), d + depth_change(s[0])))
}

proof fn lemma_group_rows_depth(stack: Seq<Seq<Tree>>, rest: Seq<Tree>)
    requires
        stack.len() >= 1,
    ensures
        group_rows(stack, rest) is None <==> dips(rest, stack.len() - 1),
        group_rows(stack, rest) is Some ==> group_rows(stack, rest)->Some_0.len() == stack.len()
            + balance(rest),
    decreases rest.len(),
{
    if rest.len() > 0 {
        let t = rest[0];
        let tail = rest.subrange(1, rest.len() as int);
        if t.node_type == ASTNodeType::Delimeter(Token::OpeningParen) {
            lemma_group_rows_depth(stack.push(Seq::empty()), tail);
        } else if t.node_type == ASTNodeType::Delimeter(Token::ClosingParen) {
            if stack.len() > 1 {
                let below = stack.drop_last();
                let closed = Tree { node_type: ASTNodeType::Empty, children: stack.last() };
                lemma_group_rows_depth(below.drop_last().push(below.last().push(closed)), tail);
            }
        } else {
            lemma_group_rows_depth(stack.drop_last().push(stack.last().push(t)), tail);
        }
    }
}

proof fn lemma_no_dip_balance(s: Seq<Tree>, d: int)
    requires
        d >= 0,
        !dips(s, d),
    ensures
        d + balance(s) >= 0,
    decreases s.len(),
{
    if s.len() > 0 {
        lemma_no_dip_balance(s.subrange(1, s.len() as int), d + depth_change(s[0]));
    }
}

/// Grouping fails on a closing parenthesis that has no group to close, else
/// on a group left open, and succeeds exactly when the parentheses balance.
pub proof fn lemma_grouping_balanced(row: Seq<Tree>)
    ensures
        grouped(row) == Err::<Tree, ParseError>(ParseError::UnmatchedClosingParen) <==> dips(row, 0),
        grouped(row) == Err::<Tree, ParseError>(ParseError::UnmatchedOpeningParen) <==> !dips(row, 0)
            && balance(row) > 0,
        grouped(row) is Ok <==> !dips(row, 0) && balance(row) == 0,
{
    let start: Seq<Seq<Tree>> = seq![Seq::empty()];
    lemma_group_rows_depth(start, row);
    if !dips(row, 0) {
        lemma_no_dip_balance(row, 0);
    }
}

pub open spec fn leaves(tokens: Seq<Token>) -> Seq<Tree> {
    tokens.map_values(|t: Token| leaf(t))
}

/// Wraps each token in a leaf.
pub fn wrap_tokens(tokens: &Vec<Token>) -> (r: Vec<ASTNode>)
    ensures
        trees_of(r@) == leaves(tokens@),
{
    let mut r: Vec<ASTNode> = Vec::new();
    let mut k: usize = 0;
    while k < tokens.len()
        invariant
            k <= tokens@.len(),
            trees_of(r@) == leaves(tokens@.subrange(0, k as int)),
        decreases tokens@.len() - k,
    {
        let ghost before = r@;
        let node = ASTNode::delimeter(tokens[k].copy());
        r.push(node);
        proof {
            lemma_trees_of_push(before, node);
            assert(leaves(tokens@.subrange(0, k + 1)) =~= leaves(tokens@.subrange(0, k as int)).push(
                leaf(tokens@[k as int]),
            ));
        }
        k += 1;
    }
    proof {
        assert(tokens@.subrange(0, k as int) =~= tokens@);
    }
    r
}

/// Nests a flat row of nodes by its parentheses. Each parenthesised part
/// becomes an `Empty` node; the result is an `Empty` root.
pub fn parse_parens(tokens: Vec<ASTNode>) -> (r: Result<ASTNode, ParseError>)
    ensures
        match grouped(trees_of(tokens@)) {
            Ok(t) => r is Ok && r->Ok_0@ == t,
            Err(e) => r == Err::<ASTNode, ParseError>(e),
        },
        r is Ok <==> !dips(trees_of(tokens@), 0) && balance(trees_of(tokens@)) == 0,
        r == Err::<ASTNode, ParseError>(ParseError::UnmatchedClosingParen) <==> dips(trees_of(tokens@), 0),
{
    let ghost all = trees_of(tokens@);
    proof {
        lemma_grouping_balanced(all);
    }
    let mut stack: Vec<Vec<ASTNode>> = Vec::new();
    stack.push(Vec::new());
    let mut rest = tokens;
    proof {
        assert(frames_of(stack@) =~= seq![Seq::<Tree>::empty()]) by {
            assert(trees_of(stack@[0]@) =~= Seq::<Tree>::empty());
        }
    }
    while rest.len() > 0
        invariant
            all == trees_of(tokens@),
            stack@.len() >= 1,
            group_rows(frames_of(stack@), trees_of(rest@)) == group_rows(
                seq![Seq::empty()],
                all,
            ),
        decreases rest@.len(),
    {
        let ghost rest0 = rest@;
        let ghost st0 = stack@;
        proof {
            lemma_trees_of_index(rest0, 0);
            lemma_trees_of_subrange(rest0, 1, rest0.len() as int);
        }
        let t = rest.remove(0);
        proof {
            assert(rest@ =~= rest0.subrange(1, rest0.len() as int));
        }
        match &t.node_type {
            ASTNodeType::Delimeter(Token::OpeningParen) => {
                stack.push(Vec::new());
                proof {
                    assert(trees_of(Seq::<ASTNode>::empty()) =~= Seq::<Tree>::empty());
                    assert(frames_of(stack@) =~= frames_of(st0).push(Seq::empty()));
                }
            },
            ASTNodeType::Delimeter(Token::ClosingParen) => {
                if stack.len() <= 1 {
                    proof {
                        assert(trees_of(rest0)[0] == t@);
                        assert(group_step(frames_of(st0), t@) is None);
                        assert(group_rows(frames_of(st0), trees_of(rest0)) is None);
                        assert(grouped(all) == Err::<Tree, ParseError>(ParseError::UnmatchedClosingParen));
                        lemma_grouping_balanced(all);
                    }
                    return Err(ParseError::UnmatchedClosingParen);
                }
                let top = stack.pop().unwrap();
                let mut below = stack.pop().unwrap();
                let ghost below0 = below@;
                let closed = ASTNode::empty(top);
                below.push(closed);
                stack.push(below);
                proof {
                    lemma_trees_of_push(below0, closed);
                    let f = frames_of(st0);
                    assert(f.last() == trees_of(top@));
                    assert(f.drop_last().last() == trees_of(below0));
                    assert(frames_of(stack@) =~= f.drop_last().drop_last().push(
                        f.drop_last().last().push(closed@),
                    ));
                }
            },
            _ => {
                let mut top = stack.pop().unwrap();
                let ghost top0 = top@;
                top.push(t);
                stack.push(top);
                proof {
                    lemma_trees_of_push(top0, t);
                    let f = frames_of(st0);
                    assert(f.last() == trees_of(top0));
                    assert(frames_of(stack@) =~= f.drop_last().push(f.last().push(t@)));
                }
            },
        }
    }
    proof {
        lemma_trees_of_len(rest@);
    }
    if stack.len() != 1 {
        return Err(ParseError::UnmatchedOpeningParen);
    }
    let root = stack.pop().unwrap();
    Ok(ASTNode::empty(root))
}

/// Brackets are kept as plain leaves: no pass groups them.
pub fn parse_brackets(tree: &mut ASTNode)
    ensures
        *final(tree) == *old(tree),
{
}

/// Folds a minus sign in prefix position (first in its row, or after another
/// operator) that is followed by a number into one negative number.
pub fn parse_negatives(tree: &mut ASTNode)
    ensures
        final(tree)@ == walk(Pass::Negatives, old(tree)@),
{
    post_order(tree, &Pass::Negatives);
}

/// Removes groups that hold a single node and joins operator-less
/// neighbours by implied multiplication.
pub fn collapse_empty(tree: &mut ASTNode)
    ensures
        final(tree)@ == walk(Pass::Collapse, old(tree)@),
{
    post_order(tree, &Pass::Collapse);
}

pub fn optimise_tree(tree: &mut ASTNode)
    ensures
        final(tree)@ == walk(Pass::Collapse, old(tree)@),
{
    collapse_empty(tree);
}

pub open spec fn op(o: Operation) -> Token {
    Token::Operation(o)
}

/// The precedence passes in order, tightest first, applied to a grouped tree.
pub open spec fn precedence(t: Tree) -> Tree {
    let t = walk(Pass::Negatives, t);
    let t = walk(Pass::Calls, t);
    let t = walk(Pass::LiteralQuotient(op(Operation::Div)), t);
    let t = walk(Pass::Interfix(op(Operation::Exp), ASTNodeType::Power), t);
    let t = walk(Pass::Interfix(op(Operation::Div), ASTNodeType::Quotient), t);
    let t = walk(Pass::Interfix(op(Operation::Mul), ASTNodeType::Product), t);
    let t = walk(Pass::Interfix(op(Operation::Add), ASTNodeType::Sum), t);
    let t = walk(Pass::Interfix(op(Operation::Sub), ASTNodeType::Difference), t);
    let t = walk(Pass::Interfix(Token::Comma, ASTNodeType::List), t);
    let t = walk(Pass::Interfix(Token::Equals, ASTNodeType::Equality), t);
    let t = walk(Pass::Prefix(Token::Let, ASTNodeType::Assignment), t);
    walk(Pass::Collapse, t)
}

/// The tree of a token row: grouped by parentheses, then folded by precedence.
pub open spec fn parsed(tokens: Seq<Token>) -> Result<Tree, ParseError> {
    match grouped(leaves(tokens)) {
        Ok(t) => Ok(precedence(t)),
        Err(e) => Err(e),
    }
}

proof fn lemma_group_rows_well_formed(stack: Seq<Seq<Tree>>, rest: Seq<Tree>)
    requires
        stack.len() >= 1,
        forall|j: int| 0 <= j < stack.len() ==> all_well_formed(#[trigger] stack[j]),
        all_well_formed(rest),
    ensures
        group_rows(stack, rest) is Some ==> forall|j: int|
            0 <= j < group_rows(stack, rest)->Some_0.len() ==> all_well_formed(
                #[trigger] group_rows(stack, rest)->Some_0[j],
            ),
    decreases rest.len(),
{
    if rest.len() > 0 {
        let t = rest[0];
        let tail = rest.subrange(1, rest.len() as int);
        assert(all_well_formed(tail)) by {
            assert forall|i: int| 0 <= i < tail.len() implies well_formed(#[trigger] tail[i]) by {
                assert(tail[i] == rest[i + 1]);
            }
        }
        assert(well_formed(t));
        match group_step(stack, t) {
            None => {},
            Some(next) => {
                assert forall|j: int| 0 <= j < next.len() implies all_well_formed(#[trigger] next[j]) by {
                    if t.node_type == ASTNodeType::Delimeter(Token::OpeningParen) {
                        if j < stack.len() {
                            assert(next[j] == stack[j]);
                        }
                    } else if t.node_type == ASTNodeType::Delimeter(Token::ClosingParen) {
                        let below = stack.drop_last();
                        let closed = Tree { node_type: ASTNodeType::Empty, children: stack.last() };
                        assert(all_well_formed(stack[stack.len() - 1]));
                        assert(well_formed(closed));
                        if j < next.len() - 1 {
                            assert(next[j] == stack[j]);
                        } else {
                            let row = below.last().push(closed);
                            assert(all_well_formed(stack[stack.len() - 2]));
                            assert forall|i: int| 0 <= i < row.len() implies well_formed(#[trigger] row[i]) by {
                                if i < row.len() - 1 {
                                    assert(row[i] == stack[stack.len() - 2][i]);
                                }
                            }
                        }
                    } else {
                        if j < next.len() - 1 {
                            assert(next[j] == stack[j]);
                        } else {
                            let row = stack.last().push(t);
                            assert(all_well_formed(stack[stack.len() - 1]));
                            assert forall|i: int| 0 <= i < row.len() implies well_formed(#[trigger] row[i]) by {
                                if i < row.len() - 1 {
                                    assert(row[i] == stack[stack.len() - 1][i]);
                                }
                            }
                        }
                    }
                }
                lemma_group_rows_depth(stack, rest);
                lemma_group_rows_well_formed(next, tail);
            },
        }
    }
}

/// A parsed tree is well formed: every binary node has two children, every
/// assignment one, every leaf none.
pub proof fn lemma_parsed_well_formed(tokens: Seq<Token>)
    ensures
        parsed(tokens) is Ok ==> well_formed(parsed(tokens)->Ok_0),
{
    let row = leaves(tokens);
    assert forall|i: int| 0 <= i < row.len() implies well_formed(#[trigger] row[i]) by {
        assert(row[i] == leaf(tokens[i]));
    }
    let start: Seq<Seq<Tree>> = seq![Seq::empty()];
    lemma_group_rows_well_formed(start, row);
    if let Ok(g) = grouped(row) {
        let stack = group_rows(start, row)->Some_0;
        assert(all_well_formed(stack[0]));
        assert(well_formed(g));
        let t1 = walk(Pass::Negatives, g);
        lemma_walk_well_formed(Pass::Negatives, g);
        let t2 = walk(Pass::Calls, t1);
        lemma_walk_well_formed(Pass::Calls, t1);
        let t3 = walk(Pass::LiteralQuotient(op(Operation::Div)), t2);
        lemma_walk_well_formed(Pass::LiteralQuotient(op(Operation::Div)), t2);
        let t4 = walk(Pass::Interfix(op(Operation::Exp), ASTNodeType::Power), t3);
        lemma_walk_well_formed(Pass::Interfix(op(Operation::Exp), ASTNodeType::Power), t3);
        let t5 = walk(Pass::Interfix(op(Operation::Div), ASTNodeType::Quotient), t4);
        lemma_walk_well_formed(Pass::Interfix(op(Operation::Div), ASTNodeType::Quotient), t4);
        let t6 = walk(Pass::Interfix(op(Operation::Mul), ASTNodeType::Product), t5);
        lemma_walk_well_formed(Pass::Interfix(op(Operation::Mul), ASTNodeType::Product), t5);
        let t7 = walk(Pass::Interfix(op(Operation::Add), ASTNodeType::Sum), t6);
        lemma_walk_well_formed(Pass::Interfix(op(Operation::Add), ASTNodeType::Sum), t6);
        let t8 = walk(Pass::Interfix(op(Operation::Sub), ASTNodeType::Difference), t7);
        lemma_walk_well_formed(Pass::Interfix(op(Operation::Sub), ASTNodeType::Difference), t7);
        let t9 = walk(Pass::Interfix(Token::Comma, ASTNodeType::List), t8);
        lemma_walk_well_formed(Pass::Interfix(Token::Comma, ASTNodeType::List), t8);
        let t10 = walk(Pass::Interfix(Token::Equals, ASTNodeType::Equality), t9);
        lemma_walk_well_formed(Pass::Interfix(Token::Equals, ASTNodeType::Equality), t9);
        let t11 = walk(Pass::Prefix(Token::Let, ASTNodeType::Assignment), t10);
        lemma_walk_well_formed(Pass::Prefix(Token::Let, ASTNodeType::Assignment), t10);
        lemma_walk_well_formed(Pass::Collapse, t11);
    }
}

/// Parses a token row into a syntax tree.
pub fn parse(tokens: &Vec<Token>) -> (r: Result<ASTNode, ParseError>)
    ensures
        match parsed(tokens@) {
            Ok(t) => r is Ok && r->Ok_0@ == t,
            Err(e) => r == Err::<ASTNode, ParseError>(e),
        },
        r is Ok ==> well_formed(r->Ok_0@),
        r is Ok <==> !dips(leaves(tokens@), 0) && balance(leaves(tokens@)) == 0,
        r == Err::<ASTNode, ParseError>(ParseError::UnmatchedClosingParen) <==> dips(leaves(tokens@), 0),
        r == Err::<ASTNode, ParseError>(ParseError::UnmatchedOpeningParen) <==> !dips(leaves(tokens@), 0)
            && balance(leaves(tokens@)) > 0,
{
    proof {
        lemma_parsed_well_formed(tokens@);
        lemma_grouping_balanced(leaves(tokens@));
    }
    let out = wrap_tokens(tokens);
    let mut tree = match parse_parens(out) {
        Ok(t) => t,
        Err(e) => return Err(e),
    };
    let ghost g = tree@;
    parse_brackets(&mut tree);
    assert(tree@ == g);
    parse_negatives(&mut tree);
    function_call_walker(&mut tree);
    failing_interfix_walker(&mut tree, Token::Operation(Operation::Div));
    interfix_walker(&mut tree, Token::Operation(Operation::Exp), ASTNodeType::Power);
    interfix_walker(&mut tree, Token::Operation(Operation::Div), ASTNodeType::Quotient);
    interfix_walker(&mut tree, Token::Operation(Operation::Mul), ASTNodeType::Product);
    interfix_walker(&mut tree, Token::Operation(Operation::Add), ASTNodeType::Sum);
    interfix_walker(&mut tree, Token::Operation(Operation::Sub), ASTNodeType::Difference);
    interfix_walker(&mut tree, Token::Comma, ASTNodeType::List);
    interfix_walker(&mut tree, Token::Equals, ASTNodeType::Equality);
    prefix_walker(&mut tree, Token::Let, ASTNodeType::Assignment);
    optimise_tree(&mut tree);
    Ok(tree)
}

/// `t ^ p / q` with number literals `p` and `q`: the literal fraction folds
/// before the exponent, so the tree is `t ^ (p / q)`, never `(t ^ p) / q`.
pub proof fn lemma_literal_fraction_exponent(t: Token, p: Num, q: Num)
    requires
        t is Name || t is Number,
    ensures
        parsed(seq![t, op(Operation::Exp), Token::Number(p), op(Operation::Div), Token::Number(q)])
            == Ok::<Tree, ParseError>(
            binary(ASTNodeType::Power, leaf(t), binary(ASTNodeType::Quotient, number_leaf(p), number_leaf(q))),
        ),
{
    let tokens = seq![t, op(Operation::Exp), Token::Number(p), op(Operation::Div), Token::Number(q)];
    let a = leaf(t);
    let e = leaf(op(Operation::Exp));
    let x = number_leaf(p);
    let d = leaf(op(Operation::Div));
    let y = number_leaf(q);
    let s = leaves(tokens);
    assert(s =~= seq![a, e, x, d, y]);
    let empty_row: Seq<Tree> = Seq::empty();
    let st0: Seq<Seq<Tree>> = seq![empty_row];
    reveal_with_fuel(group_rows, 6);
    let st1 = group_step(st0, a)->Some_0;
    assert(st1 =~= seq![seq![a]]);
    assert(seq![a].push(e) =~= seq![a, e]);
    assert(seq![a, e].push(x) =~= seq![a, e, x]);
    assert(seq![a, e, x].push(d) =~= seq![a, e, x, d]);
    assert(seq![a, e, x, d].push(y) =~= seq![a, e, x, d, y]);
    let st2 = group_step(st1, e)->Some_0;
    assert(st2 =~= seq![seq![a, e]]);
    let st3 = group_step(st2, x)->Some_0;
    assert(st3 =~= seq![seq![a, e, x]]);
    let st4 = group_step(st3, d)->Some_0;
    assert(st4 =~= seq![seq![a, e, x, d]]);
    let st5 = group_step(st4, y)->Some_0;
    assert(st5 =~= seq![seq![a, e, x, d, y]]);
    assert(s.subrange(1, 5) =~= seq![e, x, d, y]);
    assert(seq![e, x, d, y].subrange(1, 4) =~= seq![x, d, y]);
    assert(seq![x, d, y].subrange(1, 3) =~= seq![d, y]);
    assert(seq![d, y].subrange(1, 2) =~= seq![y]);
    assert(seq![y].subrange(1, 1) =~= empty_row);
    assert(group_rows(st0, s) == Some(st5));
    let g = Tree { node_type: ASTNodeType::Empty, children: s };
    assert(grouped(s) == Ok::<Tree, ParseError>(g));
    let leaves_ok = forall|i: int| 0 <= i < s.len() ==> is_bare_leaf(#[trigger] s[i]);
    assert(leaves_ok);
    assert(s[0] == a && s[1] == e && s[2] == x && s[3] == d && s[4] == y);
    // Negatives and calls leave the row as it is.
    lemma_walk_bare_row(Pass::Negatives, s);
    lemma_row_unchanged(Pass::Negatives, a, e, x, d, y);
    assert(walk(Pass::Negatives, g) == g);
    lemma_walk_bare_row(Pass::Calls, s);
    lemma_row_unchanged(Pass::Calls, a, e, x, d, y);
    assert(walk(Pass::Calls, g) == g);
    // The literal fraction folds.
    let lq = Pass::LiteralQuotient(op(Operation::Div));
    lemma_walk_bare_row(lq, s);
    let quot = binary(ASTNodeType::Quotient, x, y);
    lemma_fraction_row(a, e, x, d, y);
    let g2 = Tree { node_type: ASTNodeType::Empty, children: seq![a, e, quot] };
    assert(walk(lq, g) == g2);
    // The exponent folds over it.
    let pw = Pass::Interfix(op(Operation::Exp), ASTNodeType::Power);
    let power = binary(ASTNodeType::Power, a, quot);
    assert(is_frozen(x) && is_frozen(y) && is_frozen(a));
    assert(is_frozen(quot));
    assert(is_frozen(power));
    lemma_walk_frozen(pw, quot);
    lemma_walk_leaf(pw, a);
    lemma_walk_leaf(pw, e);
    lemma_walk_row_len(pw, g2.children);
    lemma_walk_row_index(pw, g2.children, 0);
    lemma_walk_row_index(pw, g2.children, 1);
    lemma_walk_row_index(pw, g2.children, 2);
    assert(walk_row(pw, g2.children) =~= g2.children);
    lemma_power_row(a, e, quot);
    let g3 = Tree { node_type: ASTNodeType::Empty, children: seq![power] };
    assert(walk(pw, g2) == g3);
    // Nothing else changes a group that holds one folded tree, and the last
    // pass removes the group.
    lemma_walk_single_group(Pass::Interfix(op(Operation::Div), ASTNodeType::Quotient), power);
    lemma_walk_single_group(Pass::Interfix(op(Operation::Mul), ASTNodeType::Product), power);
    lemma_walk_single_group(Pass::Interfix(op(Operation::Add), ASTNodeType::Sum), power);
    lemma_walk_single_group(Pass::Interfix(op(Operation::Sub), ASTNodeType::Difference), power);
    lemma_walk_single_group(Pass::Interfix(Token::Comma, ASTNodeType::List), power);
    lemma_walk_single_group(Pass::Interfix(Token::Equals, ASTNodeType::Equality), power);
    lemma_walk_single_group(Pass::Prefix(Token::Let, ASTNodeType::Assignment), power);
    lemma_walk_single_group(Pass::Collapse, power);
}

proof fn lemma_row_unchanged(pass: Pass, a: Tree, e: Tree, x: Tree, d: Tree, y: Tree)
    requires
        pass is Negatives || pass is Calls,
        a.node_type is Delimeter && (a.node_type->Delimeter_0 is Name || a.node_type->Delimeter_0 is Number),
        e == leaf(op(Operation::Exp)),
        d == leaf(op(Operation::Div)),
        is_number(x) && is_number(y),
    ensures
        row_fold(pass, Seq::empty(), seq![a, e, x, d, y]) == seq![a, e, x, d, y],
{
    let empty_row: Seq<Tree> = Seq::empty();
    let s = seq![a, e, x, d, y];
    assert(s.subrange(1, 5) =~= seq![e, x, d, y]);
    assert(seq![e, x, d, y].subrange(1, 4) =~= seq![x, d, y]);
    assert(seq![x, d, y].subrange(1, 3) =~= seq![d, y]);
    assert(seq![d, y].subrange(1, 2) =~= seq![y]);
    assert(seq![y].subrange(1, 1) =~= empty_row);
    assert(empty_row.push(a) =~= seq![a]);
    assert(seq![a].push(e) =~= seq![a, e]);
    assert(seq![a, e].push(x) =~= seq![a, e, x]);
    assert(seq![a, e, x].push(d) =~= seq![a, e, x, d]);
    assert(seq![a, e, x, d].push(y) =~= s);
    assert(row_fold(pass, s, empty_row) == s);
    assert(row_fold(pass, seq![a, e, x, d], seq![y]) == s);
    assert(row_fold(pass, seq![a, e, x], seq![d, y]) == s);
    assert(row_fold(pass, seq![a, e], seq![x, d, y]) == s);
    assert(row_fold(pass, seq![a], seq![e, x, d, y]) == s);
}

proof fn lemma_fraction_row(a: Tree, e: Tree, x: Tree, d: Tree, y: Tree)
    requires
        a.node_type is Delimeter && (a.node_type->Delimeter_0 is Name || a.node_type->Delimeter_0 is Number),
        e == leaf(op(Operation::Exp)),
        d == leaf(op(Operation::Div)),
        is_number(x) && is_number(y),
    ensures
        row_fold(Pass::LiteralQuotient(op(Operation::Div)), Seq::empty(), seq![a, e, x, d, y]) == seq![
            a,
            e,
            binary(ASTNodeType::Quotient, x, y),
        ],
{
    let pass = Pass::LiteralQuotient(op(Operation::Div));
    let empty_row: Seq<Tree> = Seq::empty();
    let s = seq![a, e, x, d, y];
    let quot = binary(ASTNodeType::Quotient, x, y);
    assert(s.subrange(1, 5) =~= seq![e, x, d, y]);
    assert(seq![e, x, d, y].subrange(1, 4) =~= seq![x, d, y]);
    assert(seq![x, d, y].subrange(1, 3) =~= seq![d, y]);
    assert(seq![d, y].subrange(2, 2) =~= empty_row);
    assert(empty_row.push(a) =~= seq![a]);
    assert(seq![a].push(e) =~= seq![a, e]);
    assert(seq![a, e].push(x) =~= seq![a, e, x]);
    assert(seq![a, e, x].drop_last().push(quot) =~= seq![a, e, quot]);
    assert(row_fold(pass, seq![a, e, quot], empty_row) == seq![a, e, quot]);
    assert(is_leaf_of(d, op(Operation::Div)));
    assert(row_fold(pass, seq![a, e, x], seq![d, y]) == seq![a, e, quot]);
    assert(!is_leaf_of(x, op(Operation::Div)));
    assert(row_fold(pass, seq![a, e], seq![x, d, y]) == seq![a, e, quot]);
    assert(!is_leaf_of(e, op(Operation::Div)));
    assert(row_fold(pass, seq![a], seq![e, x, d, y]) == seq![a, e, quot]);
}

proof fn lemma_power_row(a: Tree, e: Tree, quot: Tree)
    requires
        e == leaf(op(Operation::Exp)),
    ensures
        row_fold(Pass::Interfix(op(Operation::Exp), ASTNodeType::Power), Seq::empty(), seq![a, e, quot])
            == seq![binary(ASTNodeType::Power, a, quot)],
{
    let pass = Pass::Interfix(op(Operation::Exp), ASTNodeType::Power);
    let empty_row: Seq<Tree> = Seq::empty();
    let s = seq![a, e, quot];
    assert(s.subrange(1, 3) =~= seq![e, quot]);
    assert(seq![e, quot].subrange(2, 2) =~= empty_row);
    assert(empty_row.push(a) =~= seq![a]);
    assert(seq![a].drop_last().push(binary(ASTNodeType::Power, a, quot)) =~= seq![binary(ASTNodeType::Power, a, quot)]);
    assert(is_leaf_of(e, op(Operation::Exp)));
    assert(row_fold(pass, seq![binary(ASTNodeType::Power, a, quot)], empty_row) == seq![binary(ASTNodeType::Power, a, quot)]);
    assert(row_fold(pass, seq![a], seq![e, quot]) == seq![binary(ASTNodeType::Power, a, quot)]);
}

} // verus!
