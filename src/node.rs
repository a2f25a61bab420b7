use vstd::prelude::*;

use crate::number::Num;
use crate::tokenizer::Token;

verus! {

/// A node of the syntax tree. Each node owns its children.
#[derive(Debug, PartialEq)]
pub struct ASTNode {
    pub children: Vec<ASTNode>,
    pub node_type: ASTNodeType,
}

#[derive(Debug, PartialEq)]
pub enum ASTNodeType {
    Sum,
    Difference,
    Product,
    Quotient,
    Power,
    Equality,
    /// A leaf that wraps one token.
    Delimeter(Token),
    /// A named application; the children are its argument tree.
    Function(String),
    /// A placeholder for the parameter at this position in a stored function body.
    FnArgument(usize),
    List,
    Assignment,
    /// A group of siblings not yet joined by an operator.
    Empty,
}

/// The mathematical model of a node: its type and the models of its children.
pub struct Tree {
    pub node_type: ASTNodeType,
    pub children: Seq<Tree>,
}

pub open spec fn tree_of(n: ASTNode) -> Tree
    decreases n,
{
    Tree { node_type: n.node_type, children: trees_of(n.children@) }
}

pub open spec fn trees_of(s: Seq<ASTNode>) -> Seq<Tree>
    decreases s,
{
    if s.len() == 0 {
        Seq::empty()
    } else {
        trees_of(s.subrange(0, s.len() - 1)).push(tree_of(s[s.len() - 1]))
    }
}

impl View for ASTNode {
    type V = Tree;

    open spec fn view(&self) -> Tree {
        tree_of(*self)
    }
}

pub proof fn lemma_trees_of_len(s: Seq<ASTNode>)
    ensures
        trees_of(s).len() == s.len(),
    decreases s.len(),
{
    if s.len() > 0 {
        lemma_trees_of_len(s.subrange(0, s.len() - 1));
    }
}

pub proof fn lemma_trees_of_index(s: Seq<ASTNode>, i: int)
    requires
        0 <= i < s.len(),
    ensures
        trees_of(s).len() == s.len(),
        trees_of(s)[i] == tree_of(s[i]),
    decreases s.len(),
{
    lemma_trees_of_len(s);
    if i < s.len() - 1 {
        lemma_trees_of_index(s.subrange(0, s.len() - 1), i);
    }
}

/// The model of a row of nodes is the row of their models.
pub proof fn lemma_trees_of_map(s: Seq<ASTNode>)
    ensures
        trees_of(s) == s.map_values(|n: ASTNode| tree_of(n)),
{
    lemma_trees_of_len(s);
    assert forall|i: int| 0 <= i < s.len() implies trees_of(s)[i] == tree_of(s[i]) by {
        lemma_trees_of_index(s, i);
    }
    assert(trees_of(s) =~= s.map_values(|n: ASTNode| tree_of(n)));
}

/// The model of a row with one more node at its end.
pub proof fn lemma_trees_of_push(s: Seq<ASTNode>, x: ASTNode)
    ensures
        trees_of(s.push(x)) == trees_of(s).push(tree_of(x)),
{
    assert(s.push(x).subrange(0, s.len() as int) =~= s);
}

/// The model of a part of a row is that part of the row's model.
pub proof fn lemma_trees_of_subrange(s: Seq<ASTNode>, i: int, j: int)
    requires
        0 <= i <= j <= s.len(),
    ensures
        trees_of(s.subrange(i, j)) == trees_of(s).subrange(i, j),
{
    lemma_trees_of_map(s);
    lemma_trees_of_map(s.subrange(i, j));
    assert(s.subrange(i, j).map_values(|n: ASTNode| tree_of(n)) =~= s.map_values(
        |n: ASTNode| tree_of(n),
    ).subrange(i, j));
}

pub open spec fn leaf(t: Token) -> Tree {
    Tree { node_type: ASTNodeType::Delimeter(t), children: Seq::empty() }
}

pub open spec fn number_leaf(n: Num) -> Tree {
    leaf(Token::Number(n))
}

impl ASTNode {
    pub fn delimeter(token: Token) -> (r: Self)
        ensures
            r@ == leaf(token),
    {
        let r = ASTNode { children: Vec::new(), node_type: ASTNodeType::Delimeter(token) };
        proof {
            assert(r@.children =~= Seq::<Tree>::empty());
        }
        r
    }

    pub fn number(num: Num) -> (r: Self)
        ensures
            r@ == number_leaf(num),
    {
        Self::delimeter(Token::Number(num))
    }

    pub fn empty(children: Vec<ASTNode>) -> (r: Self)
        ensures
            r@ == (Tree { node_type: ASTNodeType::Empty, children: trees_of(children@) }),
    {
        ASTNode { children, node_type: ASTNodeType::Empty }
    }

    pub fn new(node_type: ASTNodeType, children: Vec<ASTNode>) -> (r: Self)
        ensures
            r@ == (Tree { node_type: node_type, children: trees_of(children@) }),
    {
        ASTNode { children, node_type }
    }
}

impl ASTNodeType {
    pub fn copy(&self) -> (r: ASTNodeType)
        ensures
            r == *self,
    {
        match self {
            ASTNodeType::Sum => ASTNodeType::Sum,
            ASTNodeType::Difference => ASTNodeType::Difference,
            ASTNodeType::Product => ASTNodeType::Product,
            ASTNodeType::Quotient => ASTNodeType::Quotient,
            ASTNodeType::Power => ASTNodeType::Power,
            ASTNodeType::Equality => ASTNodeType::Equality,
            ASTNodeType::Delimeter(t) => ASTNodeType::Delimeter(t.copy()),
            ASTNodeType::Function(name) => ASTNodeType::Function(name.clone()),
            ASTNodeType::FnArgument(i) => ASTNodeType::FnArgument(*i),
            ASTNodeType::List => ASTNodeType::List,
            ASTNodeType::Assignment => ASTNodeType::Assignment,
            ASTNodeType::Empty => ASTNodeType::Empty,
        }
    }
}

impl Default for ASTNode {
    fn default() -> (r: Self)
        ensures
            r@ == (Tree { node_type: ASTNodeType::Empty, children: Seq::empty() }),
    {
        let r = ASTNode { children: Vec::new(), node_type: ASTNodeType::Empty };
        proof {
            assert(r@.children =~= Seq::<Tree>::empty());
        }
        r
    }
}

} // verus!
