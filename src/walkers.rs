use vstd::prelude::*;

use crate::node::{
    lemma_trees_of_index, lemma_trees_of_len, lemma_trees_of_push, lemma_trees_of_subrange,
    number_leaf, tree_of, trees_of, ASTNode, ASTNodeType, Tree,
};
use crate::number::{negated_bits, Num};
use crate::tokenizer::{same_token, Operation, Token};

verus! {

/// A rewriting pass over the tree. Every pass walks the tree post-order and,
/// at each node, scans its row of children left to right; the operands of a
/// folded node are not scanned again.
///
/// The passes form a closed set rather than taking caller-supplied matchers
/// and builders: each is described by data, so that what it does to a tree is
/// a spec function (`walk`) that the contracts of the parser state exactly.
pub enum Pass {
    /// Folds `left op right` into a node of the given type with two children,
    /// where `op` is the given token; chains fold to the left.
    Interfix(Token, ASTNodeType),
    /// As `Interfix` into a `Quotient`, but only where both operands are numbers.
    LiteralQuotient(Token),
    /// Folds `op operand` into a node of the given type with one child.
    Prefix(Token, ASTNodeType),
    /// Folds a name followed by a group into a function application.
    Calls,
    /// Folds a minus sign in prefix position followed by a number into a negative number.
    Negatives,
    /// Joins operator-less neighbours by implied multiplication and removes
    /// groups that hold a single node.
    Collapse,
}

pub open spec fn is_leaf_of(t: Tree, op: Token) -> bool {
    match t.node_type {
        ASTNodeType::Delimeter(tok) => same_token(tok, op),
        _ => false,
    }
}

pub open spec fn is_number(t: Tree) -> bool {
    t.node_type is Delimeter && t.node_type->Delimeter_0 is Number
}

pub open spec fn is_name(t: Tree) -> bool {
    t.node_type is Delimeter && t.node_type->Delimeter_0 is Name
}

pub open spec fn is_operation(t: Tree) -> bool {
    t.node_type is Delimeter && t.node_type->Delimeter_0 is Operation
}

pub open spec fn is_minus(t: Tree) -> bool {
    t.node_type == ASTNodeType::Delimeter(Token::Operation(Operation::Sub))
}

pub open spec fn binary(node_type: ASTNodeType, a: Tree, b: Tree) -> Tree {
    Tree { node_type, children: seq![a, b] }
}

/// Whether `a` directly followed by `b`, with no operator between them, is a product.
pub open spec fn implied(a: Tree, b: Tree) -> bool {
    if is_number(a) || a.node_type is Quotient {
        match b.node_type {
            ASTNodeType::Sum | ASTNodeType::Difference | ASTNodeType::Product | ASTNodeType::Empty => true,
            ASTNodeType::Power => b.children.len() > 0 && !(b.children[0].node_type is Delimeter)
                && !(b.children[0].node_type is Power),
            ASTNodeType::Delimeter(Token::Name(_)) | ASTNodeType::Delimeter(Token::Number(_)) => true,
            _ => false,
        }
    } else if is_name(a) {
        match b.node_type {
            ASTNodeType::Sum | ASTNodeType::Difference | ASTNodeType::Product | ASTNodeType::Quotient => true,
            ASTNodeType::Delimeter(Token::Name(_)) => true,
            _ => false,
        }
    } else {
        false
    }
}

/// The pass folds `left op right` at this place of the row.
pub open spec fn infix_binds(pass: Pass, left: Tree, op: Tree, right: Tree) -> bool {
    match pass {
        Pass::Interfix(tok, _) => is_leaf_of(op, tok),
        Pass::LiteralQuotient(tok) => is_leaf_of(op, tok) && is_number(left) && is_number(right),
        _ => false,
    }
}

pub open spec fn infix_node(pass: Pass, left: Tree, right: Tree) -> Tree {
    match pass {
        Pass::Interfix(_, t) => binary(t, left, right),
        _ => binary(ASTNodeType::Quotient, left, right),
    }
}

/// The pass folds the pair `a b` that follows the already scanned part `done`.
pub open spec fn pair_binds(pass: Pass, done: Seq<Tree>, a: Tree, b: Tree) -> bool {
    match pass {
        Pass::Prefix(tok, _) => is_leaf_of(a, tok),
        Pass::Calls => is_name(a) && b.node_type is Empty,
        Pass::Negatives => is_minus(a) && (done.len() == 0 || is_operation(done.last())) && is_number(b),
        Pass::Collapse => implied(a, b),
        _ => false,
    }
}

pub open spec fn pair_node(pass: Pass, a: Tree, b: Tree) -> Tree {
    match pass {
        Pass::Prefix(_, t) => Tree { node_type: t, children: seq![b] },
        Pass::Calls => Tree {
            node_type: ASTNodeType::Function(a.node_type->Delimeter_0->Name_0),
            children: b.children,
        },
        Pass::Negatives => number_leaf(Num { bits: negated_bits(b.node_type->Delimeter_0->Number_0.bits) }),
        _ => binary(ASTNodeType::Product, a, b),
    }
}

/// The row that a pass leaves: `done` is the part already scanned, `rest` the part to come.
pub open spec fn row_fold(pass: Pass, done: Seq<Tree>, rest: Seq<Tree>) -> Seq<Tree>
    decreases rest.len(),
{
    if rest.len() == 0 {
        done
    } else if done.len() > 0 && rest.len() >= 2 && infix_binds(pass, done.last(), rest[0], rest[1]) {
        row_fold(
            pass,
            done.drop_last().push(infix_node(pass, done.last(), rest[1])),
            rest.subrange(2, rest.len() as int),
        )
    } else if rest.len() >= 2 && pair_binds(pass, done, rest[0], rest[1]) {
        row_fold(pass, done.push(pair_node(pass, rest[0], rest[1])), rest.subrange(2, rest.len() as int))
    } else {
        row_fold(pass, done.push(rest[0]), rest.subrange(1, rest.len() as int))
    }
}

/// Node types whose children are operands already folded: a binary
/// operation, an equality, a list link, or an assignment.
pub open spec fn is_folded(node_type: ASTNodeType) -> bool {
    is_binary(node_type) || node_type is Assignment
}

/// Node types that always have exactly two children once built.
pub open spec fn is_binary(node_type: ASTNodeType) -> bool {
    match node_type {
        ASTNodeType::Sum | ASTNodeType::Difference | ASTNodeType::Product | ASTNodeType::Quotient
        | ASTNodeType::Power | ASTNodeType::Equality | ASTNodeType::List => true,
        _ => false,
    }
}

/// What a pass makes of one node whose children have been walked already.
/// The operands of a folded node are not scanned again.
pub open spec fn visit(pass: Pass, t: Tree) -> Tree {
    let row = row_fold(pass, Seq::empty(), t.children);
    if is_folded(t.node_type) {
        t
    } else {
        match pass {
        Pass::Collapse => if t.node_type is Empty {
            if row.len() == 1 {
                row[0]
            } else {
                Tree { node_type: ASTNodeType::Empty, children: row }
            }
        } else {
            t
        },
        _ => Tree { node_type: t.node_type, children: row },
        }
    }
}

/// The tree after a post-order walk of the pass; leaves are not entered.
pub open spec fn walk(pass: Pass, t: Tree) -> Tree
    decreases t,
{
    let kids = if t.node_type is Delimeter {
        t.children
    } else {
        walk_row(pass, t.children)
    };
    visit(pass, Tree { node_type: t.node_type, children: kids })
}

pub open spec fn walk_row(pass: Pass, s: Seq<Tree>) -> Seq<Tree>
    decreases s,
{
    if s.len() == 0 {
        Seq::empty()
    } else {
        walk_row(pass, s.subrange(0, s.len() - 1)).push(walk(pass, s[s.len() - 1]))
    }
}

pub proof fn lemma_walk_row_len(pass: Pass, s: Seq<Tree>)
    ensures
        walk_row(pass, s).len() == s.len(),
    decreases s.len(),
{
    if s.len() > 0 {
        lemma_walk_row_len(pass, s.subrange(0, s.len() - 1));
    }
}

pub proof fn lemma_walk_row_index(pass: Pass, s: Seq<Tree>, i: int)
    requires
        0 <= i < s.len(),
    ensures
        walk_row(pass, s).len() == s.len(),
        walk_row(pass, s)[i] == walk(pass, s[i]),
    decreases s.len(),
{
    lemma_walk_row_len(pass, s);
    if i < s.len() - 1 {
        lemma_walk_row_index(pass, s.subrange(0, s.len() - 1), i);
        assert(s.subrange(0, s.len() - 1)[i] == s[i]);
    }
}

fn leaf_of(n: &ASTNode, op: &Token) -> (r: bool)
    ensures
        r == is_leaf_of(n@, *op),
{
    match &n.node_type {
        ASTNodeType::Delimeter(t) => t.same_as(op),
        _ => false,
    }
}

fn number_node(n: &ASTNode) -> (r: bool)
    ensures
        r == is_number(n@),
{
    match &n.node_type {
        ASTNodeType::Delimeter(Token::Number(_)) => true,
        _ => false,
    }
}

fn name_node(n: &ASTNode) -> (r: bool)
    ensures
        r == is_name(n@),
{
    match &n.node_type {
        ASTNodeType::Delimeter(Token::Name(_)) => true,
        _ => false,
    }
}

/// Decides whether a and b can be multiplied implicitly, as in `10(x + 3)`.
pub fn is_implied_multiplication(a: &ASTNode, b: &ASTNode) -> (r: bool)
    ensures
        r == implied(a@, b@),
{
    proof {
        lemma_trees_of_len(b.children@);
        if b.children@.len() > 0 {
            lemma_trees_of_index(b.children@, 0);
        }
    }
    if number_node(a) || matches!(a.node_type, ASTNodeType::Quotient) {
        match &b.node_type {
            ASTNodeType::Sum | ASTNodeType::Difference | ASTNodeType::Product | ASTNodeType::Empty => true,
            ASTNodeType::Power => b.children.len() > 0 && !matches!(
                b.children[0].node_type,
                ASTNodeType::Delimeter(_)
            ) && !matches!(b.children[0].node_type, ASTNodeType::Power),
            ASTNodeType::Delimeter(Token::Name(_)) | ASTNodeType::Delimeter(Token::Number(_)) => true,
            _ => false,
        }
    } else if name_node(a) {
        match &b.node_type {
            ASTNodeType::Sum | ASTNodeType::Difference | ASTNodeType::Product | ASTNodeType::Quotient => true,
            ASTNodeType::Delimeter(Token::Name(_)) => true,
            _ => false,
        }
    } else {
        false
    }
}

fn infix_binds_at(pass: &Pass, left: &ASTNode, op: &ASTNode, right: &ASTNode) -> (r: bool)
    ensures
        r == infix_binds(*pass, left@, op@, right@),
{
    match pass {
        Pass::Interfix(tok, _) => leaf_of(op, tok),
        Pass::LiteralQuotient(tok) => leaf_of(op, tok) && number_node(left) && number_node(right),
        _ => false,
    }
}

fn pair_binds_at(pass: &Pass, done: &Vec<ASTNode>, a: &ASTNode, b: &ASTNode) -> (r: bool)
    ensures
        r == pair_binds(*pass, trees_of(done@), a@, b@),
{
    proof {
        lemma_trees_of_len(done@);
        if done@.len() > 0 {
            lemma_trees_of_index(done@, done@.len() - 1);
        }
    }
    match pass {
        Pass::Prefix(tok, _) => leaf_of(a, tok),
        Pass::Calls => name_node(a) && matches!(b.node_type, ASTNodeType::Empty),
        Pass::Negatives => {
            let after_operation = done.len() == 0 || matches!(
                done[done.len() - 1].node_type,
                ASTNodeType::Delimeter(Token::Operation(_))
            );
            matches!(a.node_type, ASTNodeType::Delimeter(Token::Operation(Operation::Sub)))
                && after_operation && number_node(b)
        },
        Pass::Collapse => is_implied_multiplication(a, b),
        _ => false,
    }
}

pub(crate) fn pair2(a: ASTNode, b: ASTNode) -> (r: Vec<ASTNode>)
    ensures
        trees_of(r@) == seq![a@, b@],
{
    let mut r = Vec::new();
    r.push(a);
    r.push(b);
    proof {
        lemma_trees_of_push(Seq::empty(), a);
        lemma_trees_of_push(seq![a], b);
        assert(Seq::<ASTNode>::empty().push(a) =~= seq![a]);
        assert(seq![a].push(b) =~= r@);
        assert(trees_of(Seq::<ASTNode>::empty()) =~= Seq::<Tree>::empty());
        assert(Seq::<Tree>::empty().push(a@).push(b@) =~= seq![a@, b@]);
    }
    r
}

fn infix_build(pass: &Pass, left: ASTNode, right: ASTNode) -> (r: ASTNode)
    ensures
        r@ == infix_node(*pass, left@, right@),
{
    let node_type = match pass {
        Pass::Interfix(_, t) => t.copy(),
        _ => ASTNodeType::Quotient,
    };
    ASTNode::new(node_type, pair2(left, right))
}

fn pair_build(pass: &Pass, a: ASTNode, b: ASTNode) -> (r: ASTNode)
    requires
        pair_binds(*pass, Seq::empty(), a@, b@) || pass is Negatives,
        pass is Negatives ==> is_number(b@),
    ensures
        r@ == pair_node(*pass, a@, b@),
{
    match pass {
        Pass::Prefix(_, t) => {
            let mut kids = Vec::new();
            kids.push(b);
            proof {
                lemma_trees_of_push(Seq::empty(), b);
                assert(trees_of(Seq::<ASTNode>::empty()) =~= Seq::<Tree>::empty());
                assert(Seq::<Tree>::empty().push(b@) =~= seq![b@]);
                assert(Seq::<ASTNode>::empty().push(b) =~= kids@);
            }
            ASTNode::new(t.copy(), kids)
        },
        Pass::Calls => {
            let ASTNode { children, node_type } = a;
            match node_type {
                ASTNodeType::Delimeter(Token::Name(name)) => ASTNode::new(
                    ASTNodeType::Function(name),
                    b.children,
                ),
                _ => {
                    proof {
                        assert(false);
                    }
                    ASTNode::new(ASTNodeType::Empty, children)
                },
            }
        },
        Pass::Negatives => match &b.node_type {
            ASTNodeType::Delimeter(Token::Number(n)) => ASTNode::number(n.negate()),
            _ => {
                proof {
                    assert(false);
                }
                a
            },
        },
        _ => ASTNode::new(ASTNodeType::Product, pair2(a, b)),
    }
}

/// Applies the pass to one row of siblings.
fn fold_row(pass: &Pass, row: Vec<ASTNode>) -> (r: Vec<ASTNode>)
    ensures
        trees_of(r@) == row_fold(*pass, Seq::empty(), trees_of(row@)),
{
    let ghost goal = row_fold(*pass, Seq::empty(), trees_of(row@));
    let mut done: Vec<ASTNode> = Vec::new();
    let mut rest = row;
    proof {
        assert(trees_of(done@) =~= Seq::<Tree>::empty());
    }
    while rest.len() > 0
        invariant
            row_fold(*pass, trees_of(done@), trees_of(rest@)) == goal,
        decreases rest@.len(),
    {
        proof {
            lemma_trees_of_len(rest@);
            lemma_trees_of_len(done@);
            lemma_trees_of_index(rest@, 0);
            if rest@.len() >= 2 {
                lemma_trees_of_index(rest@, 1);
            }
            if done@.len() > 0 {
                lemma_trees_of_index(done@, done@.len() - 1);
            }
        }
        let ghost d = trees_of(done@);
        let ghost s = trees_of(rest@);
        let n = done.len();
        if n > 0 && rest.len() >= 2 && infix_binds_at(pass, &done[n - 1], &rest[0], &rest[1]) {
            let ghost before_pop = done@;
            let left = done.pop().unwrap();
            let ghost rest0 = rest@;
            let _op = rest.remove(0);
            let right = rest.remove(0);
            let built = infix_build(pass, left, right);
            let ghost before = done@;
            done.push(built);
            proof {
                lemma_trees_of_push(before, built);
                assert(before_pop =~= before.push(left));
                lemma_trees_of_push(before, left);
                assert(d.drop_last() =~= trees_of(before));
                assert(rest@ =~= rest0.subrange(2, rest0.len() as int));
                lemma_trees_of_subrange(rest0, 2, rest0.len() as int);
            }
        } else if rest.len() >= 2 && pair_binds_at(pass, &done, &rest[0], &rest[1]) {
            let ghost rest0 = rest@;
            let a = rest.remove(0);
            let b = rest.remove(0);
            proof {
                assert(pair_binds(*pass, Seq::empty(), a@, b@) || *pass is Negatives);
            }
            let built = pair_build(pass, a, b);
            let ghost before = done@;
            done.push(built);
            proof {
                lemma_trees_of_push(before, built);
                assert(rest@ =~= rest0.subrange(2, rest0.len() as int));
                lemma_trees_of_subrange(rest0, 2, rest0.len() as int);
            }
        } else {
            let ghost rest0 = rest@;
            let a = rest.remove(0);
            let ghost before = done@;
            done.push(a);
            proof {
                lemma_trees_of_push(before, a);
                assert(rest@ =~= rest0.subrange(1, rest0.len() as int));
                lemma_trees_of_subrange(rest0, 1, rest0.len() as int);
            }
        }
    }
    proof {
        lemma_trees_of_len(rest@);
    }
    done
}

/// Applies the pass to one node whose children have been walked already.
fn visit_node(pass: &Pass, n: ASTNode) -> (r: ASTNode)
    ensures
        r@ == visit(*pass, n@),
{
    if matches!(pass, Pass::Collapse) && !matches!(n.node_type, ASTNodeType::Empty) {
        return n;
    }
    match n.node_type {
        ASTNodeType::Sum | ASTNodeType::Difference | ASTNodeType::Product | ASTNodeType::Quotient
        | ASTNodeType::Power | ASTNodeType::Equality | ASTNodeType::List | ASTNodeType::Assignment => {
            return n;
        },
        _ => {},
    }
    let ASTNode { children, node_type } = n;
    let mut row = fold_row(pass, children);
    proof {
        lemma_trees_of_len(row@);
    }
    if matches!(pass, Pass::Collapse) {
        if row.len() == 1 {
            proof {
                lemma_trees_of_index(row@, 0);
            }
            row.pop().unwrap()
        } else {
            ASTNode::new(ASTNodeType::Empty, row)
        }
    } else {
        ASTNode::new(node_type, row)
    }
}

/// Walks the tree post-order, applying the pass at every node; leaves are not entered.
pub fn walk_tree(pass: &Pass, n: ASTNode) -> (r: ASTNode)
    ensures
        r@ == walk(*pass, n@),
    decreases n,
{
    let ghost n0 = n;
    let ASTNode { children, node_type } = n;
    let is_leaf = matches!(node_type, ASTNodeType::Delimeter(_));
    let kids = if is_leaf {
        children
    } else {
        let mut out: Vec<ASTNode> = Vec::new();
        let mut rest = children;
        let ghost orig = rest@;
        while rest.len() > 0
            invariant
                orig == n0.children@,
                n0 == n,
                out@.len() <= orig.len(),
                rest@ == orig.subrange(out@.len() as int, orig.len() as int),
                forall|j: int| 0 <= j < out@.len() ==> out@[j]@ == walk(*pass, tree_of(orig[j])),
            decreases rest@.len(),
        {
            let ghost k = out@.len() as int;
            let c = rest.remove(0);
            proof {
                assert(c == orig[k]);
                assert(decreases_to!(n0 => n0.children));
                assert(decreases_to!(n0.children => n0.children@));
                assert(decreases_to!(n0.children@ => n0.children@[k]));
                assert(decreases_to!(n0 => c));
            }
            let w = walk_tree(pass, c);
            out.push(w);
        }
        proof {
            lemma_trees_of_len(out@);
            lemma_trees_of_len(orig);
            lemma_walk_row_len(*pass, trees_of(orig));
            assert forall|j: int| 0 <= j < out@.len() implies trees_of(out@)[j] == walk_row(
                *pass,
                trees_of(orig),
            )[j] by {
                lemma_trees_of_index(out@, j);
                lemma_trees_of_index(orig, j);
                lemma_walk_row_index(*pass, trees_of(orig), j);
            }
            assert(trees_of(out@) =~= walk_row(*pass, trees_of(orig)));
        }
        out
    };
    visit_node(pass, ASTNode { children: kids, node_type })
}

/// Walks the tree in place, post-order, applying the pass at every node.
pub fn post_order(tree: &mut ASTNode, pass: &Pass)
    ensures
        final(tree)@ == walk(*pass, old(tree)@),
{
    let mut n = ASTNode::default();
    std::mem::swap(tree, &mut n);
    *tree = walk_tree(pass, n);
}

/// Folds every `left op right` into a node of `node_type` with the two operands
/// as children; chains fold to the left.
pub fn interfix_walker(tree: &mut ASTNode, op: Token, node_type: ASTNodeType)
    ensures
        final(tree)@ == walk(Pass::Interfix(op, node_type), old(tree)@),
{
    post_order(tree, &Pass::Interfix(op, node_type));
}

/// Folds `left op right` into a `Quotient` only where both operands are
/// numbers; elsewhere the triple is left as it is.
pub fn failing_interfix_walker(tree: &mut ASTNode, op: Token)
    ensures
        final(tree)@ == walk(Pass::LiteralQuotient(op), old(tree)@),
{
    post_order(tree, &Pass::LiteralQuotient(op));
}

/// Folds every `op operand` into a node of `node_type` with the operand as its
/// one child.
pub fn prefix_walker(tree: &mut ASTNode, op: Token, node_type: ASTNodeType)
    ensures
        final(tree)@ == walk(Pass::Prefix(op, node_type), old(tree)@),
{
    post_order(tree, &Pass::Prefix(op, node_type));
}

/// Folds every name directly followed by a group into a `Function` of that
/// name whose children are the group's children.
pub fn function_call_walker(tree: &mut ASTNode)
    ensures
        final(tree)@ == walk(Pass::Calls, old(tree)@),
{
    post_order(tree, &Pass::Calls);
}

/// Every binary node has two children, every assignment one, every leaf
/// none, and so on down the tree.
pub open spec fn well_formed(t: Tree) -> bool
    decreases t,
{
    &&& is_binary(t.node_type) ==> t.children.len() == 2
    &&& t.node_type is Assignment ==> t.children.len() == 1
    &&& t.node_type is Delimeter ==> t.children.len() == 0
    &&& forall|i: int| 0 <= i < t.children.len() ==> well_formed(#[trigger] t.children[i])
}

pub open spec fn all_well_formed(s: Seq<Tree>) -> bool {
    forall|i: int| 0 <= i < s.len() ==> well_formed(#[trigger] s[i])
}

/// The nodes a pass builds are of a fitting type: an interfix pass builds a
/// node with two children, a prefix pass one with a single child.
pub open spec fn builds_well(pass: Pass) -> bool {
    match pass {
        Pass::Interfix(_, t) => !(t is Assignment) && !(t is Delimeter),
        Pass::Prefix(_, t) => !is_binary(t) && !(t is Delimeter),
        _ => true,
    }
}

proof fn lemma_row_fold_well_formed(pass: Pass, done: Seq<Tree>, rest: Seq<Tree>)
    requires
        builds_well(pass),
        all_well_formed(done),
        all_well_formed(rest),
    ensures
        all_well_formed(row_fold(pass, done, rest)),
    decreases rest.len(),
{
    if rest.len() > 0 {
        let tail1 = rest.subrange(1, rest.len() as int);
        assert(all_well_formed(tail1)) by {
            assert forall|i: int| 0 <= i < tail1.len() implies well_formed(#[trigger] tail1[i]) by {
                assert(tail1[i] == rest[i + 1]);
            }
        }
        assert(well_formed(rest[0]));
        if done.len() > 0 && rest.len() >= 2 && infix_binds(pass, done.last(), rest[0], rest[1]) {
            let tail2 = rest.subrange(2, rest.len() as int);
            assert forall|i: int| 0 <= i < tail2.len() implies well_formed(#[trigger] tail2[i]) by {
                assert(tail2[i] == rest[i + 2]);
            }
            let x = infix_node(pass, done.last(), rest[1]);
            assert(well_formed(rest[1]));
            assert(well_formed(done.last()));
            assert(well_formed(x)) by {
                assert(x.children.len() == 2);
                assert(x.children[0] == done.last());
                assert(x.children[1] == rest[1]);
            }
            let d2 = done.drop_last().push(x);
            assert forall|i: int| 0 <= i < d2.len() implies well_formed(#[trigger] d2[i]) by {
                if i < d2.len() - 1 {
                    assert(d2[i] == done[i]);
                }
            }
            lemma_row_fold_well_formed(pass, d2, tail2);
        } else if rest.len() >= 2 && pair_binds(pass, done, rest[0], rest[1]) {
            let tail2 = rest.subrange(2, rest.len() as int);
            assert forall|i: int| 0 <= i < tail2.len() implies well_formed(#[trigger] tail2[i]) by {
                assert(tail2[i] == rest[i + 2]);
            }
            let x = pair_node(pass, rest[0], rest[1]);
            assert(well_formed(rest[1]));
            assert(well_formed(x)) by {
                match pass {
                    Pass::Prefix(_, t) => {
                        assert(x.children.len() == 1);
                        assert(x.children[0] == rest[1]);
                    },
                    Pass::Calls => {
                        assert(x.children == rest[1].children);
                    },
                    Pass::Negatives => {
                        assert(x.children.len() == 0);
                    },
                    _ => {
                        assert(x.children.len() == 2);
                        assert(x.children[0] == rest[0]);
                        assert(x.children[1] == rest[1]);
                    },
                }
            }
            let d2 = done.push(x);
            assert forall|i: int| 0 <= i < d2.len() implies well_formed(#[trigger] d2[i]) by {
                if i < d2.len() - 1 {
                    assert(d2[i] == done[i]);
                }
            }
            lemma_row_fold_well_formed(pass, d2, tail2);
        } else {
            let d2 = done.push(rest[0]);
            assert forall|i: int| 0 <= i < d2.len() implies well_formed(#[trigger] d2[i]) by {
                if i < d2.len() - 1 {
                    assert(d2[i] == done[i]);
                }
            }
            lemma_row_fold_well_formed(pass, d2, tail1);
        }
    }
}

/// A pass keeps a tree well formed: it folds only rows of groups and calls,
/// and what it builds has the right number of children.
pub proof fn lemma_walk_well_formed(pass: Pass, t: Tree)
    requires
        builds_well(pass),
        well_formed(t),
    ensures
        well_formed(walk(pass, t)),
    decreases t,
{
    let kids = if t.node_type is Delimeter {
        t.children
    } else {
        walk_row(pass, t.children)
    };
    lemma_walk_row_len(pass, t.children);
    assert forall|i: int| 0 <= i < kids.len() implies well_formed(#[trigger] kids[i]) by {
        if !(t.node_type is Delimeter) {
            lemma_walk_row_index(pass, t.children, i);
            lemma_walk_well_formed(pass, t.children[i]);
        }
    }
    let u = Tree { node_type: t.node_type, children: kids };
    assert(well_formed(u));
    lemma_row_fold_well_formed(pass, Seq::empty(), kids);
    let row = row_fold(pass, Seq::empty(), kids);
    if !is_folded(t.node_type) {
        if t.node_type is Delimeter {
            assert(row == Seq::<Tree>::empty());
        }
        match pass {
            Pass::Collapse => {
                if t.node_type is Empty && row.len() == 1 {
                    assert(well_formed(row[0]));
                }
            },
            _ => {},
        }
    }
}

/// A row that alternates operand, `op`, operand, ..., `op`, operand.
pub open spec fn alternates(s: Seq<Tree>, op: Token) -> bool {
    s.len() % 2 == 1 && forall|i: int| 0 <= i < s.len() && i % 2 == 1 ==> is_leaf_of(#[trigger] s[i], op)
}

/// The operands of an alternating row joined from the left: `((a op b) op c) ...`.
pub open spec fn left_chain(s: Seq<Tree>, node_type: ASTNodeType) -> Tree
    decreases s.len(),
{
    if s.len() <= 1 {
        s[0]
    } else {
        binary(node_type, left_chain(s.subrange(0, s.len() - 2), node_type), s[s.len() - 1])
    }
}

/// How many nodes of `node_type` stand on the left spine of the tree.
pub open spec fn left_depth(t: Tree, node_type: ASTNodeType) -> nat
    decreases t,
{
    if t.node_type == node_type && t.children.len() == 2 {
        1 + left_depth(t.children[0], node_type)
    } else {
        0
    }
}

proof fn lemma_fold_left_from(s: Seq<Tree>, op: Token, node_type: ASTNodeType, j: int)
    requires
        alternates(s, op),
        0 < j <= s.len(),
        j % 2 == 1,
    ensures
        row_fold(
            Pass::Interfix(op, node_type),
            seq![left_chain(s.subrange(0, j), node_type)],
            s.subrange(j, s.len() as int),
        ) == seq![left_chain(s, node_type)],
    decreases s.len() - j,
{
    let pass = Pass::Interfix(op, node_type);
    let done = seq![left_chain(s.subrange(0, j), node_type)];
    let rest = s.subrange(j, s.len() as int);
    if j == s.len() {
        assert(s.subrange(0, j) =~= s);
    } else {
        assert(rest[0] == s[j]);
        assert(is_leaf_of(s[j], op));
        assert(rest[1] == s[j + 1]);
        let next = s.subrange(0, j + 2);
        assert(next.subrange(0, j) =~= s.subrange(0, j));
        assert(next[next.len() - 1] == s[j + 1]);
        assert(done.drop_last().push(infix_node(pass, done.last(), rest[1])) =~= seq![
            left_chain(next, node_type),
        ]);
        assert(rest.subrange(2, rest.len() as int) =~= s.subrange(j + 2, s.len() as int));
        lemma_fold_left_from(s, op, node_type, j + 2);
    }
}

/// An interfix pass folds an alternating row into one tree that leans to
/// the left: `a + b + c` becomes `(a + b) + c`.
pub proof fn lemma_interfix_folds_left(s: Seq<Tree>, op: Token, node_type: ASTNodeType)
    requires
        alternates(s, op),
    ensures
        row_fold(Pass::Interfix(op, node_type), Seq::empty(), s) == seq![left_chain(s, node_type)],
{
    let pass = Pass::Interfix(op, node_type);
    assert(Seq::<Tree>::empty().push(s[0]) =~= seq![left_chain(s.subrange(0, 1), node_type)]);
    lemma_fold_left_from(s, op, node_type, 1);
}

/// A chain of `n` operands has `n - 1` nodes on its left spine, where the
/// first operand is of another type.
pub proof fn lemma_left_chain_depth(s: Seq<Tree>, node_type: ASTNodeType)
    requires
        s.len() % 2 == 1,
        s[0].node_type != node_type,
    ensures
        left_depth(left_chain(s, node_type), node_type) == (s.len() - 1) / 2,
    decreases s.len(),
{
    if s.len() > 1 {
        let p = s.subrange(0, s.len() - 2);
        assert(p[0] == s[0]);
        lemma_left_chain_depth(p, node_type);
        assert(binary(node_type, left_chain(p, node_type), s[s.len() - 1]).children[0] == left_chain(
            p,
            node_type,
        ));
    }
}

/// No group holds a single node, anywhere in the tree.
pub open spec fn no_single_group(t: Tree) -> bool
    decreases t,
{
    &&& !(t.node_type is Empty && t.children.len() == 1)
    &&& forall|i: int| 0 <= i < t.children.len() ==> no_single_group(#[trigger] t.children[i])
}

proof fn lemma_collapse_row(done: Seq<Tree>, rest: Seq<Tree>)
    requires
        forall|i: int| 0 <= i < done.len() ==> no_single_group(#[trigger] done[i]),
        forall|i: int| 0 <= i < rest.len() ==> no_single_group(#[trigger] rest[i]),
    ensures
        forall|i: int|
            0 <= i < row_fold(Pass::Collapse, done, rest).len() ==> no_single_group(
                #[trigger] row_fold(Pass::Collapse, done, rest)[i],
            ),
    decreases rest.len(),
{
    if rest.len() > 0 {
        assert(no_single_group(rest[0]));
        if done.len() > 0 && rest.len() >= 2 {
            assert(!infix_binds(Pass::Collapse, done.last(), rest[0], rest[1]));
        }
        if rest.len() >= 2 && pair_binds(Pass::Collapse, done, rest[0], rest[1]) {
            let tail = rest.subrange(2, rest.len() as int);
            assert forall|i: int| 0 <= i < tail.len() implies no_single_group(#[trigger] tail[i]) by {
                assert(tail[i] == rest[i + 2]);
            }
            let x = pair_node(Pass::Collapse, rest[0], rest[1]);
            assert(no_single_group(rest[1]));
            assert(no_single_group(x)) by {
                assert(x.children[0] == rest[0]);
                assert(x.children[1] == rest[1]);
            }
            let d2 = done.push(x);
            assert forall|i: int| 0 <= i < d2.len() implies no_single_group(#[trigger] d2[i]) by {
                if i < d2.len() - 1 {
                    assert(d2[i] == done[i]);
                }
            }
            lemma_collapse_row(d2, tail);
            assert(row_fold(Pass::Collapse, done, rest) == row_fold(Pass::Collapse, d2, tail));
        } else {
            let tail = rest.subrange(1, rest.len() as int);
            assert forall|i: int| 0 <= i < tail.len() implies no_single_group(#[trigger] tail[i]) by {
                assert(tail[i] == rest[i + 1]);
            }
            let d2 = done.push(rest[0]);
            assert forall|i: int| 0 <= i < d2.len() implies no_single_group(#[trigger] d2[i]) by {
                if i < d2.len() - 1 {
                    assert(d2[i] == done[i]);
                }
            }
            lemma_collapse_row(d2, tail);
            assert(row_fold(Pass::Collapse, done, rest) == row_fold(Pass::Collapse, d2, tail));
        }
    }
}

/// After the collapsing pass no group holds a single node: each such group
/// has given way to its node.
pub proof fn lemma_collapse_leaves_no_single_group(t: Tree)
    requires
        well_formed(t),
    ensures
        no_single_group(walk(Pass::Collapse, t)),
    decreases t,
{
    let pass = Pass::Collapse;
    let kids = if t.node_type is Delimeter {
        t.children
    } else {
        walk_row(pass, t.children)
    };
    lemma_walk_row_len(pass, t.children);
    assert forall|i: int| 0 <= i < kids.len() implies no_single_group(#[trigger] kids[i]) by {
        if !(t.node_type is Delimeter) {
            lemma_walk_row_index(pass, t.children, i);
            lemma_collapse_leaves_no_single_group(t.children[i]);
        }
    }
    lemma_collapse_row(Seq::empty(), kids);
    let row = row_fold(pass, Seq::empty(), kids);
    if t.node_type is Empty && row.len() == 1 {
        assert(no_single_group(row[0]));
    }
}

/// A leaf that was never given children.
pub open spec fn is_bare_leaf(t: Tree) -> bool {
    t.node_type is Delimeter && t.children.len() == 0
}

pub proof fn lemma_walk_leaf(pass: Pass, t: Tree)
    requires
        is_bare_leaf(t),
    ensures
        walk(pass, t) == t,
{
    assert(row_fold(pass, Seq::empty(), t.children) =~= t.children);
}

/// Within a walked tree: a group (or call) whose children are leaves that
/// alternate operand, `op`, operand, ... becomes that group with one child,
/// the operands joined from the left.
pub proof fn lemma_interfix_walk_folds_left(op: Token, node_type: ASTNodeType, group: ASTNodeType, s: Seq<Tree>)
    requires
        alternates(s, op),
        forall|i: int| 0 <= i < s.len() ==> is_bare_leaf(#[trigger] s[i]),
        !is_folded(group),
        !(group is Delimeter),
    ensures
        walk(Pass::Interfix(op, node_type), (Tree { node_type: group, children: s })) == (Tree {
            node_type: group,
            children: seq![left_chain(s, node_type)],
        }),
{
    let pass = Pass::Interfix(op, node_type);
    lemma_walk_row_len(pass, s);
    assert forall|i: int| 0 <= i < s.len() implies walk_row(pass, s)[i] == s[i] by {
        lemma_walk_row_index(pass, s, i);
        lemma_walk_leaf(pass, s[i]);
    }
    assert(walk_row(pass, s) =~= s);
    lemma_interfix_folds_left(s, op, node_type);
}

/// A tree no pass changes: a bare leaf, or a folded node over such trees.
pub open spec fn is_frozen(t: Tree) -> bool
    decreases t,
{
    is_bare_leaf(t) || (is_folded(t.node_type) && forall|i: int|
        0 <= i < t.children.len() ==> is_frozen(#[trigger] t.children[i]))
}

pub proof fn lemma_walk_frozen(pass: Pass, t: Tree)
    requires
        is_frozen(t),
    ensures
        walk(pass, t) == t,
    decreases t,
{
    if is_bare_leaf(t) {
        lemma_walk_leaf(pass, t);
    } else {
        lemma_walk_row_len(pass, t.children);
        assert forall|i: int| 0 <= i < t.children.len() implies walk_row(pass, t.children)[i]
            == t.children[i] by {
            lemma_walk_row_index(pass, t.children, i);
            lemma_walk_frozen(pass, t.children[i]);
        }
        assert(walk_row(pass, t.children) =~= t.children);
    }
}

/// Walking a row of bare leaves leaves it as it is.
pub proof fn lemma_walk_bare_row(pass: Pass, s: Seq<Tree>)
    requires
        forall|i: int| 0 <= i < s.len() ==> is_bare_leaf(#[trigger] s[i]),
    ensures
        walk_row(pass, s) == s,
{
    lemma_walk_row_len(pass, s);
    assert forall|i: int| 0 <= i < s.len() implies walk_row(pass, s)[i] == s[i] by {
        lemma_walk_row_index(pass, s, i);
        lemma_walk_leaf(pass, s[i]);
    }
    assert(walk_row(pass, s) =~= s);
}

/// A group that holds one frozen tree: every pass but the collapsing one
/// leaves it, and the collapsing one gives the tree.
pub proof fn lemma_walk_single_group(pass: Pass, x: Tree)
    requires
        is_frozen(x),
    ensures
        walk(pass, (Tree { node_type: ASTNodeType::Empty, children: seq![x] })) == if pass is Collapse {
            x
        } else {
            Tree { node_type: ASTNodeType::Empty, children: seq![x] }
        },
{
    let g = Tree { node_type: ASTNodeType::Empty, children: seq![x] };
    lemma_walk_row_len(pass, g.children);
    lemma_walk_row_index(pass, g.children, 0);
    lemma_walk_frozen(pass, x);
    assert(walk_row(pass, g.children) =~= g.children);
    assert(row_fold(pass, Seq::empty(), seq![x]) == row_fold(pass, seq![x], Seq::<Tree>::empty())) by {
        assert(Seq::<Tree>::empty().push(x) =~= seq![x]);
        assert(seq![x].subrange(1, 1) =~= Seq::<Tree>::empty());
    }
}

} // verus!
