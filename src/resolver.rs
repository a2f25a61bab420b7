use vstd::prelude::*;

use crate::functions::{
    arg_names, bind_node, bind_notes, bind_tree, flatten_list, lemma_row_step, list_node_to_vec,
    name_of, process_fn_args, substitute_node, substitute_notes, substitute_tree, views,
};
use crate::namespace::{Binding, Namespace, NamespaceElement};
use crate::node::{
    leaf, lemma_trees_of_index, lemma_trees_of_len, lemma_trees_of_push, number_leaf, tree_of,
    trees_of, ASTNode, ASTNodeType, Tree,
};
use crate::number::{float_eq_bits, is_zero_bits, Arithmetic, Num};
use crate::resolve_message::{is_error, ResolveMessage, ResolveMessageType};
use crate::tokenizer::{same_token, Operation, Token};
use crate::latex::{join_parts, joined};
use crate::walkers::{binary, is_name, is_number, pair2};

verus! {

/// How deeply calls of stored functions may nest while one line is resolved.
pub const MAX_CALL_DEPTH: usize = 64;

pub open spec fn digit_char(d: nat) -> char {
    if d == 0 {
        '0'
    } else if d == 1 {
        '1'
    } else if d == 2 {
        '2'
    } else if d == 3 {
        '3'
    } else if d == 4 {
        '4'
    } else if d == 5 {
        '5'
    } else if d == 6 {
        '6'
    } else if d == 7 {
        '7'
    } else if d == 8 {
        '8'
    } else {
        '9'
    }
}

/// The decimal digits of `n`, most significant first.
pub open spec fn decimal(n: nat) -> Seq<char>
    decreases n,
{
    if n < 10 {
        seq![digit_char(n)]
    } else {
        decimal(n / 10).push(digit_char(n % 10))
    }
}

fn digit_str(d: usize) -> (r: &'static str)
    requires
        d < 10,
    ensures
        r@ == seq![digit_char(d as nat)],
{
    proof {
        reveal_strlit("0");
        reveal_strlit("1");
        reveal_strlit("2");
        reveal_strlit("3");
        reveal_strlit("4");
        reveal_strlit("5");
        reveal_strlit("6");
        reveal_strlit("7");
        reveal_strlit("8");
        reveal_strlit("9");
    }
    if d == 0 {
        "0"
    } else if d == 1 {
        "1"
    } else if d == 2 {
        "2"
    } else if d == 3 {
        "3"
    } else if d == 4 {
        "4"
    } else if d == 5 {
        "5"
    } else if d == 6 {
        "6"
    } else if d == 7 {
        "7"
    } else if d == 8 {
        "8"
    } else {
        "9"
    }
}

/// Writes `n` in decimal.
pub fn decimal_string(n: usize) -> (r: String)
    ensures
        r@ == decimal(n as nat),
    decreases n,
{
    if n < 10 {
        String::from_str(digit_str(n))
    } else {
        let mut s = decimal_string(n / 10);
        s.append(digit_str(n % 10));
        s
    }
}

/// The result of one of the five operations on `a` and `b`, in that order.
pub open spec fn apply_spec<A: Arithmetic>(arith: A, op: Operation, a: Num, b: Num) -> Num {
    match op {
        Operation::Add => arith.add_spec(a, b),
        Operation::Sub => arith.sub_spec(a, b),
        Operation::Mul => arith.mul_spec(a, b),
        Operation::Div => arith.div_spec(a, b),
        Operation::Exp => arith.pow_spec(a, b),
    }
}

/// Applies one of the five operations.
pub fn apply<A: Arithmetic>(arith: &A, op: Operation, a: Num, b: Num) -> (r: Num)
    ensures
        r == apply_spec(*arith, op, a, b),
{
    match op {
        Operation::Add => arith.add(a, b),
        Operation::Sub => arith.sub(a, b),
        Operation::Mul => arith.mul(a, b),
        Operation::Div => arith.div(a, b),
        Operation::Exp => arith.pow(a, b),
    }
}

pub open spec fn number_of(t: Tree) -> Num {
    t.node_type->Delimeter_0->Number_0
}

/// Both children are numbers and the operation can be applied to them.
pub open spec fn foldable(op: Operation, t: Tree) -> bool {
    t.children.len() == 2 && is_number(t.children[0]) && is_number(t.children[1]) && !(op
        == Operation::Div && is_zero_bits(number_of(t.children[1]).bits))
}

/// A node with two number children folded into the number the operation
/// gives; any other node as it is.
pub open spec fn folded<A: Arithmetic>(arith: A, op: Operation, t: Tree) -> Tree {
    if foldable(op, t) {
        number_leaf(apply_spec(arith, op, number_of(t.children[0]), number_of(t.children[1])))
    } else {
        t
    }
}

/// What folding reports: a node without exactly two children, or a division by zero.
pub open spec fn fold_error(op: Operation, t: Tree) -> Option<Seq<char>> {
    if t.children.len() != 2 {
        Some("Too many children"@)
    } else if is_number(t.children[0]) && is_number(t.children[1]) && op == Operation::Div
        && is_zero_bits(number_of(t.children[1]).bits) {
        Some("Divide by zero"@)
    } else {
        None
    }
}

/// Folds a node with two number children into the number the operation gives
/// on them, left operand first. A node without exactly two children is
/// reported; a division by zero is reported and the node is left as it was.
pub fn resolve_numbers<A: Arithmetic>(arith: &A, node: &mut ASTNode, op: Operation) -> (r: Option<
    ResolveMessage,
>)
    ensures
        final(node)@ == folded(*arith, op, old(node)@),
        match fold_error(op, old(node)@) {
            Some(text) => r is Some && is_error(r->Some_0, text),
            None => r is None,
        },
{
    proof {
        lemma_trees_of_len(node.children@);
    }
    if node.children.len() != 2 {
        return Some(ResolveMessage::error("Too many children"));
    }
    proof {
        lemma_trees_of_index(node.children@, 0);
        lemma_trees_of_index(node.children@, 1);
    }
    let (a, b) = match (&node.children[0].node_type, &node.children[1].node_type) {
        (ASTNodeType::Delimeter(Token::Number(a)), ASTNodeType::Delimeter(Token::Number(b))) => (
            *a,
            *b,
        ),
        _ => return None,
    };
    if matches!(op, Operation::Div) && b.is_zero() {
        return Some(ResolveMessage::error("Divide by zero"));
    }
    *node = ASTNode::number(apply(arith, op, a, b));
    None
}

impl ASTNode {
    /// A copy of the whole tree.
    pub fn duplicate(&self) -> (r: ASTNode)
        ensures
            r@ == self@,
        decreases self,
    {
        let mut kids: Vec<ASTNode> = Vec::new();
        let mut k: usize = 0;
        while k < self.children.len()
            invariant
                k <= self.children@.len(),
                kids@.len() == k,
                forall|j: int| 0 <= j < k ==> kids@[j]@ == self.children@[j]@,
            decreases self.children@.len() - k,
        {
            proof {
                assert(decreases_to!(self => self.children));
                assert(decreases_to!(self.children => self.children@));
                assert(decreases_to!(self.children@ => self.children@[k as int]));
            }
            let c = self.children[k].duplicate();
            kids.push(c);
            k += 1;
        }
        proof {
            lemma_trees_of_len(kids@);
            lemma_trees_of_len(self.children@);
            assert forall|j: int| 0 <= j < kids@.len() implies trees_of(kids@)[j] == trees_of(
                self.children@,
            )[j] by {
                lemma_trees_of_index(kids@, j);
                lemma_trees_of_index(self.children@, j);
            }
            assert(trees_of(kids@) =~= trees_of(self.children@));
        }
        ASTNode::new(self.node_type.copy(), kids)
    }
}

/// No name occurs twice.
pub open spec fn distinct(v: Seq<Seq<char>>) -> bool {
    forall|i: int, j: int| 0 <= i < j < v.len() ==> v[i] != v[j]
}

/// `prefix` is where `v` starts.
pub open spec fn extends<T>(v: Seq<T>, prefix: Seq<T>) -> bool {
    prefix.len() <= v.len() && v.subrange(0, prefix.len() as int) == prefix
}

/// Adds `name` to the set of unknowns unless it is there already.
fn note_unknown(unknowns: &mut Vec<String>, name: &String)
    requires
        distinct(views(old(unknowns)@)),
    ensures
        distinct(views(final(unknowns)@)),
        extends(final(unknowns)@, old(unknowns)@),
        views(final(unknowns)@).contains(name@),
        views(old(unknowns)@).contains(name@) ==> final(unknowns)@ == old(unknowns)@,
        !views(old(unknowns)@).contains(name@) ==> views(final(unknowns)@) == views(
            old(unknowns)@,
        ).push(name@),
{
    let mut k: usize = 0;
    while k < unknowns.len()
        invariant
            k <= unknowns@.len(),
            distinct(views(unknowns@)),
            forall|j: int| 0 <= j < k ==> unknowns@[j]@ != name@,
        decreases unknowns@.len() - k,
    {
        if unknowns[k].eq(name) {
            proof {
                assert(views(unknowns@)[k as int] == name@);
                assert(unknowns@.subrange(0, unknowns@.len() as int) =~= unknowns@);
            }
            return;
        }
        k += 1;
    }
    let ghost before = unknowns@;
    proof {
        assert forall|j: int| 0 <= j < views(before).len() implies views(before)[j] != name@ by {
            assert(views(before)[j] == before[j]@);
        }
    }
    unknowns.push(name.clone());
    proof {
        assert(views(unknowns@) =~= views(before).push(name@));
        assert(unknowns@.subrange(0, before.len() as int) =~= before);
        assert(views(unknowns@)[before.len() as int] == name@);
    }
}

/// The texts of a list of messages.
pub open spec fn texts(m: Seq<ResolveMessage>) -> Seq<Seq<char>> {
    m.map_values(|x: ResolveMessage| x.content@)
}

/// Every message is an error.
pub open spec fn all_errors(m: Seq<ResolveMessage>) -> bool {
    forall|i: int| 0 <= i < m.len() ==> (#[trigger] m[i]).msg_type == ResolveMessageType::Error
}

/// The report of a call that gave `given` arguments where the body uses the
/// one at position `index`.
pub open spec fn arity_text(given: nat, index: nat) -> Seq<char> {
    "Provided "@ + decimal(given) + " args, while this function expects "@ + if index < usize::MAX {
        decimal(index + 1)
    } else {
        "more"@
    }
}

/// Where resolving a tree ends: the resolved tree, the unbound names met so
/// far (each once, in order), and the error texts so far. Post-order: the
/// children first (leaves are not entered), then the node. Numbers fold by
/// the arithmetic; a name bound to a number becomes it; a call of a stored
/// function becomes its body with the arguments put in, resolved again with
/// one less level of `fuel`.
pub open spec fn res<A: Arithmetic>(
    arith: A,
    ns: Map<Seq<char>, Binding>,
    fuel: nat,
    t: Tree,
    u: Seq<Seq<char>>,
    e: Seq<Seq<char>>,
) -> (Tree, Seq<Seq<char>>, Seq<Seq<char>>)
    decreases fuel, t,
{
    let below = if t.node_type is Delimeter {
        (t.children, u, e)
    } else {
        res_row(arith, ns, fuel, t.children, u, e)
    };
    let kids = below.0;
    let u1 = below.1;
    let e1 = below.2;
    let n = Tree { node_type: t.node_type, children: kids };
    match t.node_type {
        ASTNodeType::Sum => (folded(arith, Operation::Add, n), u1, e1),
        ASTNodeType::Difference => (folded(arith, Operation::Sub, n), u1, e1),
        ASTNodeType::Product => (folded(arith, Operation::Mul, n), u1, e1),
        ASTNodeType::Power => (folded(arith, Operation::Exp, n), u1, e1),
        ASTNodeType::Quotient => (
            folded(arith, Operation::Div, n),
            u1,
            match fold_error(Operation::Div, n) {
                Some(x) => e1.push(x),
                None => e1,
            },
        ),
        ASTNodeType::Function(name) => if !ns.contains_key(name@) {
            (n, u1, e1)
        } else {
            match ns[name@] {
                Binding::Number(v) => if kids.len() != 1 {
                    (n, u1, e1)
                } else {
                    (folded(arith, Operation::Mul, binary(ASTNodeType::Product, number_leaf(v), kids[0])), u1, e1)
                },
                Binding::Function(body) => if fuel == 0 {
                    (n, u1, e1.push("Function calls nest too deeply"@))
                } else {
                    let args = if kids.len() > 0 {
                        flatten_list(kids[0])
                    } else {
                        Seq::empty()
                    };
                    let missing = substitute_notes(body, args);
                    let inner = res(arith, ns, (fuel - 1) as nat, substitute_tree(body, args), u1, Seq::empty());
                    (
                        inner.0,
                        inner.1,
                        if inner.2.len() > 0 {
                            e1 + inner.2
                        } else if missing.len() > 0 {
                            e1.push(arity_text(args.len(), missing.last() as nat))
                        } else {
                            e1
                        },
                    )
                },
            }
        },
        ASTNodeType::Delimeter(Token::Name(name)) => if !ns.contains_key(name@) {
            (n, if u1.contains(name@) { u1 } else { u1.push(name@) }, e1)
        } else {
            match ns[name@] {
                Binding::Number(v) => (number_leaf(v), u1, e1),
                Binding::Function(_) => (n, u1, e1),
            }
        },
        _ => (n, u1, e1),
    }
}

pub open spec fn res_row<A: Arithmetic>(
    arith: A,
    ns: Map<Seq<char>, Binding>,
    fuel: nat,
    s: Seq<Tree>,
    u: Seq<Seq<char>>,
    e: Seq<Seq<char>>,
) -> (Seq<Tree>, Seq<Seq<char>>, Seq<Seq<char>>)
    decreases fuel, s,
{
    if s.len() == 0 {
        (Seq::empty(), u, e)
    } else {
        let p = res_row(arith, ns, fuel, s.subrange(0, s.len() - 1), u, e);
        let x = res(arith, ns, fuel, s[s.len() - 1], p.1, p.2);
        (p.0.push(x.0), x.1, x.2)
    }
}

proof fn lemma_res_row_step<A: Arithmetic>(
    arith: A,
    ns: Map<Seq<char>, Binding>,
    fuel: nat,
    s: Seq<Tree>,
    x: Tree,
    u: Seq<Seq<char>>,
    e: Seq<Seq<char>>,
)
    ensures
        ({
            let p = res_row(arith, ns, fuel, s, u, e);
            let y = res(arith, ns, fuel, x, p.1, p.2);
            res_row(arith, ns, fuel, s.push(x), u, e) == (p.0.push(y.0), y.1, y.2)
        }),
{
    assert(s.push(x).subrange(0, s.len() as int) =~= s);
}

/// Keeps the bindings of one session and resolves lines against them.
pub struct Resolver<A: Arithmetic> {
    pub namespace: Namespace,
    pub arith: A,
}

impl<A: Arithmetic> Resolver<A> {
    pub fn new(arith: A) -> (r: Self)
        ensures
            r.namespace@ == Map::<Seq<char>, Binding>::empty(),
            r.arith == arith,
    {
        Resolver { namespace: Namespace::new(), arith }
    }

    /// Resolves a tree post-order: numbers are folded, bound names replaced,
    /// stored functions applied; unbound names are noted, failures reported.
    fn resolve_node(
        &self,
        x: ASTNode,
        fuel: usize,
        unknowns: &mut Vec<String>,
        errors: &mut Vec<ResolveMessage>,
    ) -> (r: ASTNode)
        requires
            distinct(views(old(unknowns)@)),
            all_errors(old(errors)@),
        ensures
            distinct(views(final(unknowns)@)),
            all_errors(final(errors)@),
            (r@, views(final(unknowns)@), texts(final(errors)@)) == res(
                self.arith,
                self.namespace@,
                fuel as nat,
                x@,
                views(old(unknowns)@),
                texts(old(errors)@),
            ),
        decreases fuel, x,
    {
        let ghost x0 = x;
        let ghost ns = self.namespace@;
        let ghost ar = self.arith;
        let ghost u0 = views(unknowns@);
        let ghost e0 = texts(errors@);
        let ASTNode { children, node_type } = x;
        let is_leaf = matches!(node_type, ASTNodeType::Delimeter(_));
        let kids = if is_leaf {
            children
        } else {
            let mut out: Vec<ASTNode> = Vec::new();
            let mut rest = children;
            let ghost orig = rest@;
            proof {
                assert(trees_of(orig.subrange(0, 0)) =~= Seq::<Tree>::empty());
                assert(trees_of(out@) =~= Seq::<Tree>::empty());
            }
            while rest.len() > 0
                invariant
                    orig == x0.children@,
                    x0 == x,
                    ns == self.namespace@,
                    ar == self.arith,
                    out@.len() <= orig.len(),
                    rest@ == orig.subrange(out@.len() as int, orig.len() as int),
                    distinct(views(unknowns@)),
                    all_errors(errors@),
                    (trees_of(out@), views(unknowns@), texts(errors@)) == res_row(
                        ar,
                        ns,
                        fuel as nat,
                        trees_of(orig.subrange(0, out@.len() as int)),
                        u0,
                        e0,
                    ),
                decreases rest@.len(),
            {
                let ghost k = out@.len() as int;
                let c = rest.remove(0);
                proof {
                    assert(c == orig[k]);
                    assert(decreases_to!(x0 => x0.children));
                    assert(decreases_to!(x0.children => x0.children@));
                    assert(decreases_to!(x0.children@ => x0.children@[k]));
                    lemma_row_step(orig, k);
                    lemma_res_row_step(
                        ar,
                        ns,
                        fuel as nat,
                        trees_of(orig.subrange(0, k)),
                        tree_of(orig[k]),
                        u0,
                        e0,
                    );
                }
                let w = self.resolve_node(c, fuel, unknowns, errors);
                let ghost before = out@;
                out.push(w);
                proof {
                    lemma_trees_of_push(before, w);
                    assert(rest@ =~= orig.subrange(out@.len() as int, orig.len() as int));
                }
            }
            proof {
                assert(orig.subrange(0, out@.len() as int) =~= orig);
            }
            out
        };
        let ghost u1 = views(unknowns@);
        let ghost e1 = texts(errors@);
        let ghost n = Tree { node_type: node_type, children: trees_of(kids@) };
        proof {
            assert(n == Tree { node_type: x0@.node_type, children: trees_of(kids@) });
        }
        match node_type {
            ASTNodeType::Sum => {
                let mut n = ASTNode { children: kids, node_type: ASTNodeType::Sum };
                resolve_numbers(&self.arith, &mut n, Operation::Add);
                n
            },
            ASTNodeType::Difference => {
                let mut n = ASTNode { children: kids, node_type: ASTNodeType::Difference };
                resolve_numbers(&self.arith, &mut n, Operation::Sub);
                n
            },
            ASTNodeType::Product => {
                let mut n = ASTNode { children: kids, node_type: ASTNodeType::Product };
                resolve_numbers(&self.arith, &mut n, Operation::Mul);
                n
            },
            ASTNodeType::Power => {
                let mut n = ASTNode { children: kids, node_type: ASTNodeType::Power };
                resolve_numbers(&self.arith, &mut n, Operation::Exp);
                n
            },
            ASTNodeType::Quotient => {
                let mut n = ASTNode { children: kids, node_type: ASTNodeType::Quotient };
                let ghost e2 = errors@;
                if let Some(e) = resolve_numbers(&self.arith, &mut n, Operation::Div) {
                    errors.push(e);
                    proof {
                        assert(texts(errors@) =~= texts(e2).push(e.content@));
                    }
                }
                n
            },
            ASTNodeType::Function(name) => {
                match self.namespace.get(name.as_str()) {
                    Some(NamespaceElement::Number(v)) => {
                        proof {
                            lemma_trees_of_len(kids@);
                        }
                        if kids.len() != 1 {
                            return ASTNode { children: kids, node_type: ASTNodeType::Function(name) };
                        }
                        // A number applied to one argument multiplies it.
                        let mut kids = kids;
                        let ghost k0 = kids@;
                        proof {
                            lemma_trees_of_index(k0, 0);
                        }
                        let argument = kids.pop().unwrap();
                        let factors = pair2(ASTNode::number(*v), argument);
                        let mut n = ASTNode { children: factors, node_type: ASTNodeType::Product };
                        resolve_numbers(&self.arith, &mut n, Operation::Mul);
                        n
                    },
                    Some(NamespaceElement::Function(body)) => {
                        proof {
                            lemma_trees_of_len(kids@);
                            if kids@.len() > 0 {
                                lemma_trees_of_index(kids@, 0);
                            }
                        }
                        let args = if kids.len() > 0 {
                            list_node_to_vec(&kids[0])
                        } else {
                            let v: Vec<ASTNode> = Vec::new();
                            proof {
                                assert(trees_of(v@) =~= Seq::<Tree>::empty());
                            }
                            v
                        };
                        if fuel == 0 {
                            let ghost e2 = errors@;
                            let m = ResolveMessage::error("Function calls nest too deeply");
                            errors.push(m);
                            let r = ASTNode { children: kids, node_type: ASTNodeType::Function(name) };
                            proof {
                                assert(texts(errors@) =~= texts(e2).push(m.content@));
                            }
                            return r;
                        }
                        let mut missing: Vec<usize> = Vec::new();
                        let expanded = substitute_node(body.duplicate(), &args, &mut missing);
                        proof {
                            assert(missing@ =~= substitute_notes(body@, trees_of(args@)));
                        }
                        let mut inner: Vec<ResolveMessage> = Vec::new();
                        proof {
                            assert(texts(inner@) =~= Seq::<Seq<char>>::empty());
                        }
                        let r = self.resolve_node(expanded, fuel - 1, unknowns, &mut inner);
                        let ghost e2 = errors@;
                        let ghost i2 = inner@;
                        proof {
                            lemma_trees_of_len(args@);
                        }
                        if inner.len() > 0 {
                            errors.append(&mut inner);
                            proof {
                                assert(texts(errors@) =~= texts(e2) + texts(i2));
                            }
                        } else if missing.len() > 0 {
                            let m = arity_error(args.len(), missing[missing.len() - 1]);
                            errors.push(m);
                            proof {
                                assert(texts(errors@) =~= texts(e2).push(m.content@));
                            }
                        }
                        r
                    },
                    None => ASTNode { children: kids, node_type: ASTNodeType::Function(name) },
                }
            },
            ASTNodeType::Delimeter(Token::Name(name)) => {
                match self.namespace.get(name.as_str()) {
                    Some(NamespaceElement::Number(v)) => ASTNode::number(*v),
                    Some(NamespaceElement::Function(_)) => ASTNode {
                        children: kids,
                        node_type: ASTNodeType::Delimeter(Token::Name(name)),
                    },
                    None => {
                        note_unknown(unknowns, &name);
                        ASTNode { children: kids, node_type: ASTNodeType::Delimeter(Token::Name(name)) }
                    },
                }
            },
            other => ASTNode { children: kids, node_type: other },
        }
    }
}

/// The report of a call that gave fewer arguments than its body uses.
fn arity_error(given: usize, index: usize) -> (r: ResolveMessage)
    ensures
        is_error(r, arity_text(given as nat, index as nat)),
{
    proof {
        reveal_strlit("Provided ");
        reveal_strlit(" args, while this function expects ");
        reveal_strlit("more");
    }
    let mut text = String::from_str("Provided ");
    text.append(decimal_string(given).as_str());
    text.append(" args, while this function expects ");
    if index < usize::MAX {
        text.append(decimal_string(index + 1).as_str());
    } else {
        text.append("more");
    }
    ResolveMessage { msg_type: ResolveMessageType::Error, content: text }
}

/// Two node types agree; numbers are compared as floating-point values.
pub open spec fn same_type(a: ASTNodeType, b: ASTNodeType) -> bool {
    match (a, b) {
        (ASTNodeType::Delimeter(Token::Number(x)), ASTNodeType::Delimeter(Token::Number(y))) => float_eq_bits(
            x.bits,
            y.bits,
        ),
        (ASTNodeType::Delimeter(x), ASTNodeType::Delimeter(y)) => same_token(x, y),
        (ASTNodeType::Function(x), ASTNodeType::Function(y)) => x@ == y@,
        (ASTNodeType::FnArgument(i), ASTNodeType::FnArgument(j)) => i == j,
        (ASTNodeType::Sum, ASTNodeType::Sum) => true,
        (ASTNodeType::Difference, ASTNodeType::Difference) => true,
        (ASTNodeType::Product, ASTNodeType::Product) => true,
        (ASTNodeType::Quotient, ASTNodeType::Quotient) => true,
        (ASTNodeType::Power, ASTNodeType::Power) => true,
        (ASTNodeType::Equality, ASTNodeType::Equality) => true,
        (ASTNodeType::List, ASTNodeType::List) => true,
        (ASTNodeType::Assignment, ASTNodeType::Assignment) => true,
        (ASTNodeType::Empty, ASTNodeType::Empty) => true,
        _ => false,
    }
}

/// Two trees agree node for node.
pub open spec fn same_tree(a: Tree, b: Tree) -> bool
    decreases a,
{
    same_type(a.node_type, b.node_type) && a.children.len() == b.children.len() && forall|i: int|
        0 <= i < a.children.len() ==> same_tree(#[trigger] a.children[i], b.children[i])
}

fn same_node_type(a: &ASTNodeType, b: &ASTNodeType) -> (r: bool)
    ensures
        r == same_type(*a, *b),
{
    match (a, b) {
        (ASTNodeType::Delimeter(Token::Number(x)), ASTNodeType::Delimeter(Token::Number(y))) => x.float_eq(*y),
        (ASTNodeType::Delimeter(x), ASTNodeType::Delimeter(y)) => x.same_as(y),
        (ASTNodeType::Function(x), ASTNodeType::Function(y)) => x.eq(y),
        (ASTNodeType::FnArgument(i), ASTNodeType::FnArgument(j)) => *i == *j,
        (ASTNodeType::Sum, ASTNodeType::Sum) => true,
        (ASTNodeType::Difference, ASTNodeType::Difference) => true,
        (ASTNodeType::Product, ASTNodeType::Product) => true,
        (ASTNodeType::Quotient, ASTNodeType::Quotient) => true,
        (ASTNodeType::Power, ASTNodeType::Power) => true,
        (ASTNodeType::Equality, ASTNodeType::Equality) => true,
        (ASTNodeType::List, ASTNodeType::List) => true,
        (ASTNodeType::Assignment, ASTNodeType::Assignment) => true,
        (ASTNodeType::Empty, ASTNodeType::Empty) => true,
        _ => false,
    }
}

/// Whether two trees agree node for node, numbers compared as values.
pub fn trees_equal(a: &ASTNode, b: &ASTNode) -> (r: bool)
    ensures
        r == same_tree(a@, b@),
    decreases a,
{
    proof {
        lemma_trees_of_len(a.children@);
        lemma_trees_of_len(b.children@);
    }
    if !same_node_type(&a.node_type, &b.node_type) || a.children.len() != b.children.len() {
        return false;
    }
    let mut k: usize = 0;
    while k < a.children.len()
        invariant
            k <= a.children@.len(),
            a.children@.len() == b.children@.len(),
            forall|i: int| 0 <= i < k ==> same_tree(a@.children[i], b@.children[i]),
        decreases a.children@.len() - k,
    {
        proof {
            assert(decreases_to!(a => a.children));
            assert(decreases_to!(a.children => a.children@));
            assert(decreases_to!(a.children@ => a.children@[k as int]));
            lemma_trees_of_index(a.children@, k as int);
            lemma_trees_of_index(b.children@, k as int);
        }
        if !trees_equal(&a.children[k], &b.children[k]) {
            return false;
        }
        k += 1;
    }
    true
}

/// Where inverting an equation ends.
pub enum Solved {
    /// The unknown is isolated: this name gets the value.
    Bind(Seq<char>),
    /// The equation cannot be inverted; the error says why.
    Fail(Seq<char>),
}

/// Follows the side that holds the unknown down to the unknown itself. At
/// each step one operand must be a number; the other is followed.
pub open spec fn solve_steps(u: Tree) -> Solved
    decreases u,
{
    if u.children.len() == 2 {
        let l = u.children[0];
        let r = u.children[1];
        if !is_number(l) && !is_number(r) {
            Solved::Fail("Side other to unknown is not a number"@)
        } else {
            match u.node_type {
                ASTNodeType::Sum | ASTNodeType::Difference | ASTNodeType::Product
                | ASTNodeType::Quotient => solve_steps(
                    if is_number(l) {
                        r
                    } else {
                        l
                    },
                ),
                ASTNodeType::Power => Solved::Fail("Cannot evaluate powers of unknowns"@),
                _ => Solved::Fail("Could not resolve equation"@),
            }
        }
    } else if is_name(u) {
        Solved::Bind(name_of(u))
    } else {
        Solved::Fail("Could not resolve equation"@)
    }
}

/// The value the unknown gets: the other side's value carried down the
/// unknown's side, each step applying the inverse of that step's operation.
pub open spec fn solve_value<A: Arithmetic>(arith: A, u: Tree, other: Num) -> Num
    decreases u,
{
    if u.children.len() == 2 && (is_number(u.children[0]) || is_number(u.children[1])) {
        let l = u.children[0];
        let r = u.children[1];
        let unknown_on_left = !is_number(l);
        let known = if is_number(l) {
            number_of(l)
        } else {
            number_of(r)
        };
        let next = if is_number(l) {
            r
        } else {
            l
        };
        match u.node_type {
            ASTNodeType::Sum => solve_value(arith, next, arith.sub_spec(other, known)),
            ASTNodeType::Difference => if unknown_on_left {
                solve_value(arith, next, arith.add_spec(other, known))
            } else {
                solve_value(arith, next, arith.sub_spec(known, other))
            },
            ASTNodeType::Product => solve_value(arith, next, arith.div_spec(other, known)),
            ASTNodeType::Quotient => if unknown_on_left {
                solve_value(arith, next, arith.mul_spec(other, known))
            } else {
                solve_value(arith, next, arith.div_spec(known, other))
            },
            _ => other,
        }
    } else {
        other
    }
}

/// The value an equality with one unknown binds it to.
pub open spec fn equation_value<A: Arithmetic>(arith: A, root: Tree) -> Num {
    if is_number(root.children[1]) {
        solve_value(arith, root.children[0], number_of(root.children[1]))
    } else {
        solve_value(arith, root.children[1], number_of(root.children[0]))
    }
}

/// How an equality with one unknown ends: one side must be a number, the
/// other is inverted.
pub open spec fn equation_outcome(root: Tree) -> Solved {
    if root.children.len() != 2 {
        Solved::Fail("Equation could not be solved"@)
    } else if is_number(root.children[1]) {
        solve_steps(root.children[0])
    } else if is_number(root.children[0]) {
        solve_steps(root.children[1])
    } else {
        Solved::Fail("Equation could not be solved"@)
    }
}

/// An equality whose one side is a number and whose other side joins a name
/// and a number by `+`, `-`, `*` or `/`, in either order, is solved for that
/// name; by `^` it is refused.
pub proof fn lemma_one_step_equations(op: ASTNodeType, y: Token, k: Num, c: Num, name_first: bool)
    requires
        y is Name,
    ensures
        ({
            let name = leaf(y);
            let known = number_leaf(k);
            let side = Tree {
                node_type: op,
                children: if name_first {
                    seq![name, known]
                } else {
                    seq![known, name]
                },
            };
            let root = Tree { node_type: ASTNodeType::Equality, children: seq![side, number_leaf(c)] };
            &&& (op is Sum || op is Difference || op is Product || op is Quotient) ==> equation_outcome(root)
                == Solved::Bind(y->Name_0@)
            &&& op is Power ==> equation_outcome(root) == Solved::Fail("Cannot evaluate powers of unknowns"@)
        }),
{
    let name = leaf(y);
    assert(solve_steps(name) == Solved::Bind(y->Name_0@));
}

/// The value an equality `side = c` binds, where `side` joins a name and the
/// number `k`: `y + k = c` gives `c - k`, `y - k = c` gives `c + k`,
/// `k - y = c` gives `k - c`, `y * k = c` gives `c / k`, `y / k = c` gives
/// `c * k`, and `k / y = c` gives `k / c`.
pub proof fn lemma_one_step_values<A: Arithmetic>(arith: A, op: ASTNodeType, y: Token, k: Num, c: Num, name_first: bool)
    requires
        y is Name,
    ensures
        ({
            let name = leaf(y);
            let known = number_leaf(k);
            let side = Tree {
                node_type: op,
                children: if name_first {
                    seq![name, known]
                } else {
                    seq![known, name]
                },
            };
            let root = Tree { node_type: ASTNodeType::Equality, children: seq![side, number_leaf(c)] };
            let v = equation_value(arith, root);
            &&& op is Sum && name_first ==> v == arith.sub_spec(c, k)
            &&& op is Difference && name_first ==> v == arith.add_spec(c, k)
            &&& op is Difference && !name_first ==> v == arith.sub_spec(k, c)
            &&& op is Product && name_first ==> v == arith.div_spec(c, k)
            &&& op is Quotient && name_first ==> v == arith.mul_spec(c, k)
            &&& op is Quotient && !name_first ==> v == arith.div_spec(k, c)
        }),
{
    let name = leaf(y);
    let known = number_leaf(k);
    assert forall|x: Num| solve_value(arith, name, x) == x by {
        assert(name.children.len() == 0);
    }
    let side = Tree {
        node_type: op,
        children: if name_first {
            seq![name, known]
        } else {
            seq![known, name]
        },
    };
    assert(is_number(known) && !is_number(name));
    assert(side.children[0] == if name_first { name } else { known });
    assert(side.children[1] == if name_first { known } else { name });
    let root = Tree { node_type: ASTNodeType::Equality, children: seq![side, number_leaf(c)] };
    assert(root.children[1] == number_leaf(c));
    assert(number_of(number_leaf(c)) == c);
    assert(number_of(known) == k);
    assert(equation_value(arith, root) == solve_value(arith, side, c));
    reveal_with_fuel(solve_value, 2);
}

impl<A: Arithmetic> Resolver<A> {
    /// Inverts the side that holds the unknown step by step, carrying the
    /// value of the other side, until the unknown stands alone.
    fn solve(&self, u: ASTNode, other: Num) -> (r: Result<(String, Num), ResolveMessage>)
        ensures
            match solve_steps(u@) {
                Solved::Bind(n) => r is Ok && r->Ok_0.0@ == n && r->Ok_0.1 == solve_value(
                    self.arith,
                    u@,
                    other,
                ),
                Solved::Fail(t) => r is Err && is_error(r->Err_0, t),
            },
        decreases u,
    {
        proof {
            lemma_trees_of_len(u.children@);
        }
        if u.children.len() == 2 {
            let ghost u0 = u;
            proof {
                lemma_trees_of_index(u.children@, 0);
                lemma_trees_of_index(u.children@, 1);
            }
            let ASTNode { mut children, node_type } = u;
            let right = children.pop().unwrap();
            let left = children.pop().unwrap();
            proof {
                assert(right == u0.children@[1]);
                assert(left == u0.children@[0]);
            }
            let (unknown_on_left, known) = match (&left.node_type, &right.node_type) {
                (ASTNodeType::Delimeter(Token::Number(a)), _) => (false, *a),
                (_, ASTNodeType::Delimeter(Token::Number(a))) => (true, *a),
                _ => return Err(ResolveMessage::error("Side other to unknown is not a number")),
            };
            let next = if unknown_on_left {
                left
            } else {
                right
            };
            proof {
                assert(decreases_to!(u0 => u0.children));
                assert(decreases_to!(u0.children => u0.children@));
                assert(decreases_to!(u0.children@ => u0.children@[0]));
                assert(decreases_to!(u0.children@ => u0.children@[1]));
            }
            match node_type {
                ASTNodeType::Sum => self.solve(next, self.arith.sub(other, known)),
                ASTNodeType::Difference => {
                    if unknown_on_left {
                        self.solve(next, self.arith.add(other, known))
                    } else {
                        self.solve(next, self.arith.sub(known, other))
                    }
                },
                ASTNodeType::Product => self.solve(next, self.arith.div(other, known)),
                ASTNodeType::Quotient => {
                    if unknown_on_left {
                        self.solve(next, self.arith.mul(other, known))
                    } else {
                        self.solve(next, self.arith.div(known, other))
                    }
                },
                ASTNodeType::Power => Err(ResolveMessage::error("Cannot evaluate powers of unknowns")),
                _ => Err(ResolveMessage::error("Could not resolve equation")),
            }
        } else {
            match u.node_type {
                ASTNodeType::Delimeter(Token::Name(name)) => Ok((name, other)),
                _ => Err(ResolveMessage::error("Could not resolve equation")),
            }
        }
    }

    /// Solves an equality with one unknown and binds the unknown to its value.
    pub fn resolve_equation(&mut self, root: ASTNode) -> (r: ResolveMessage)
        ensures
            match equation_outcome(root@) {
                Solved::Fail(t) => is_error(r, t) && final(self).namespace@ == old(self).namespace@,
                Solved::Bind(n) => r.msg_type == ResolveMessageType::Output
                    && r.content@ == n + " = "@ + old(self).arith.render_spec(
                        equation_value(old(self).arith, root@),
                    )@ && final(self).namespace@ == old(self).namespace@.insert(
                        n,
                        Binding::Number(equation_value(old(self).arith, root@)),
                    ),
            },
            final(self).arith == old(self).arith,
    {
        proof {
            lemma_trees_of_len(root.children@);
        }
        if root.children.len() != 2 {
            return ResolveMessage::error("Equation could not be solved");
        }
        proof {
            lemma_trees_of_index(root.children@, 0);
            lemma_trees_of_index(root.children@, 1);
        }
        let ghost r0 = root;
        let ASTNode { mut children, node_type: _ } = root;
        let c1 = children.pop().unwrap();
        let c0 = children.pop().unwrap();
        proof {
            assert(c1 == r0.children@[1]);
            assert(c0 == r0.children@[0]);
        }
        let (unknown_side, other) = match (&c0.node_type, &c1.node_type) {
            (_, ASTNodeType::Delimeter(Token::Number(b))) => {
                let b = *b;
                (c0, b)
            },
            (ASTNodeType::Delimeter(Token::Number(a)), _) => {
                let a = *a;
                (c1, a)
            },
            _ => return ResolveMessage::error("Equation could not be solved"),
        };
        match self.solve(unknown_side, other) {
            Ok((name, value)) => {
                let mut text = name.clone();
                text.append(" = ");
                let ghost prefix = text@;
                let shown = self.arith.render(value);
                text.append(shown.as_str());
                proof {
                    reveal_strlit(" = ");
                }
                self.namespace.insert(name, NamespaceElement::Number(value));
                ResolveMessage { msg_type: ResolveMessageType::Output, content: text }
            },
            Err(e) => e,
        }
    }
}

/// The number of `Empty` nodes, leaves not entered.
pub open spec fn empty_count(t: Tree) -> nat
    decreases t,
{
    (if t.node_type is Empty {
        1nat
    } else {
        0nat
    }) + if t.node_type is Delimeter {
        0nat
    } else {
        empty_count_row(t.children)
    }
}

pub open spec fn empty_count_row(s: Seq<Tree>) -> nat
    decreases s,
{
    if s.len() == 0 {
        0
    } else {
        empty_count_row(s.subrange(0, s.len() - 1)) + empty_count(s[s.len() - 1])
    }
}

/// The two errors that report a group no operator joined.
pub open spec fn is_empty_report(m: Seq<ResolveMessage>) -> bool {
    forall|i: int|
        0 <= i < m.len() ==> if i % 2 == 0 {
            is_error(#[trigger] m[i], "Wrong usage of operation"@)
        } else {
            is_error(m[i], "Note: This usually means you forgot a +, -, /, etc."@)
        }
}

fn report_empty(n: &ASTNode, out: &mut Vec<ResolveMessage>)
    requires
        is_empty_report(old(out)@),
        old(out)@.len() % 2 == 0,
    ensures
        is_empty_report(final(out)@),
        final(out)@.len() == old(out)@.len() + 2 * empty_count(n@),
    decreases n,
{
    let ghost start = out@.len();
    if !matches!(n.node_type, ASTNodeType::Delimeter(_)) {
        let mut k: usize = 0;
        proof {
            assert(trees_of(n.children@.subrange(0, 0)) =~= Seq::<Tree>::empty());
        }
        while k < n.children.len()
            invariant
                k <= n.children@.len(),
                !(n.node_type is Delimeter),
                is_empty_report(out@),
                out@.len() == start + 2 * empty_count_row(trees_of(n.children@.subrange(0, k as int))),
                start % 2 == 0,
            decreases n.children@.len() - k,
        {
            proof {
                assert(decreases_to!(n => n.children));
                assert(decreases_to!(n.children => n.children@));
                assert(decreases_to!(n.children@ => n.children@[k as int]));
                lemma_row_step(n.children@, k as int);
                let s = trees_of(n.children@.subrange(0, k as int));
                let x = tree_of(n.children@[k as int]);
                assert(s.push(x).subrange(0, s.len() as int) =~= s);
            }
            report_empty(&n.children[k], out);
            k += 1;
        }
        proof {
            assert(n.children@.subrange(0, k as int) =~= n.children@);
        }
    }
    if matches!(n.node_type, ASTNodeType::Empty) {
        let ghost before = out@;
        proof {
            assert(before.len() % 2 == 0) by (nonlinear_arith)
                requires
                    before.len() == start + 2 * empty_count_row(n@.children) || before.len() == start,
                    start % 2 == 0,
            ;
        }
        out.push(ResolveMessage::error("Wrong usage of operation"));
        out.push(ResolveMessage::error("Note: This usually means you forgot a +, -, /, etc."));
        proof {
            assert forall|i: int| 0 <= i < out@.len() implies if i % 2 == 0 {
                is_error(#[trigger] out@[i], "Wrong usage of operation"@)
            } else {
                is_error(out@[i], "Note: This usually means you forgot a +, -, /, etc."@)
            } by {
                if i < before.len() {
                    assert(out@[i] == before[i]);
                }
            }
        }
    }
}

/// One message as a kind and a text.
pub struct Note {
    pub kind: ResolveMessageType,
    pub text: Seq<char>,
}

pub open spec fn note(kind: ResolveMessageType, text: Seq<char>) -> Note {
    Note { kind, text }
}

pub open spec fn error_note(text: Seq<char>) -> Note {
    note(ResolveMessageType::Error, text)
}

pub open spec fn notes(m: Seq<ResolveMessage>) -> Seq<Note> {
    m.map_values(|x: ResolveMessage| note(x.msg_type, x.content@))
}

/// The two errors for each group that no operator joined.
pub open spec fn empty_report(count: nat) -> Seq<Note>
    decreases count,
{
    if count == 0 {
        Seq::empty()
    } else {
        empty_report((count - 1) as nat) + seq![
            error_note("Wrong usage of operation"@),
            error_note("Note: This usually means you forgot a +, -, /, etc."@),
        ]
    }
}

proof fn lemma_empty_report(m: Seq<ResolveMessage>, count: nat)
    requires
        is_empty_report(m),
        m.len() == 2 * count,
    ensures
        notes(m) == empty_report(count),
    decreases count,
{
    if count > 0 {
        let p = m.subrange(0, m.len() - 2);
        assert forall|i: int| 0 <= i < p.len() implies if i % 2 == 0 {
            is_error(#[trigger] p[i], "Wrong usage of operation"@)
        } else {
            is_error(p[i], "Note: This usually means you forgot a +, -, /, etc."@)
        } by {
            assert(p[i] == m[i]);
        }
        lemma_empty_report(p, (count - 1) as nat);
        assert(is_error(m[m.len() - 2], "Wrong usage of operation"@)) by {
            assert((m.len() - 2) % 2 == 0);
        }
        assert(is_error(m[m.len() - 1], "Note: This usually means you forgot a +, -, /, etc."@)) by {
            assert((m.len() - 1) % 2 == 1);
        }
        assert(notes(m) =~= notes(p) + seq![
            error_note("Wrong usage of operation"@),
            error_note("Note: This usually means you forgot a +, -, /, etc."@),
        ]);
    } else {
        assert(notes(m) =~= Seq::<Note>::empty());
    }
}

/// What a `let` line says and binds: `name(params) = body` stores the body
/// with its parameters as placeholders.
pub open spec fn assignment_outcome(ns: Map<Seq<char>, Binding>, root: Tree) -> (Seq<Note>, Map<Seq<char>, Binding>) {
    let bad = (seq![error_note("Let assignments must be followed by a valid equality"@)], ns);
    if root.children.len() != 1 {
        bad
    } else if !(root.children[0].node_type is Equality) || root.children[0].children.len() != 2 {
        bad
    } else {
        let decl = root.children[0].children[0];
        let body = root.children[0].children[1];
        if !(decl.node_type is Function) {
            (seq![error_note("Assignment requires function on left side"@)], ns)
        } else {
            let name = decl.node_type->Function_0@;
            let args = if decl.children.len() > 0 {
                decl.children[0]
            } else {
                Tree { node_type: ASTNodeType::List, children: Seq::empty() }
            };
            match arg_names(args) {
                None => (seq![error_note("Invalid function arguments"@)], ns),
                Some(params) => if bind_notes(body, params).len() > 0 {
                    (seq![error_note("Unknown name: "@ + bind_notes(body, params).last())], ns)
                } else {
                    (
                        seq![note(ResolveMessageType::Output, name + "("@ + joined(params, ", "@) + ") = [...]"@)],
                        ns.insert(name, Binding::Function(bind_tree(body, params))),
                    )
                },
            }
        }
    }
}

/// What a line without ungrouped siblings says and binds.
pub open spec fn line_outcome<A: Arithmetic>(arith: A, ns: Map<Seq<char>, Binding>, root: Tree) -> (Seq<Note>, Map<Seq<char>, Binding>) {
    if root.node_type is Assignment {
        assignment_outcome(ns, root)
    } else {
        let out = res(arith, ns, MAX_CALL_DEPTH as nat, root, Seq::empty(), Seq::empty());
        let t = out.0;
        let unknowns = out.1;
        if out.2.len() > 0 {
            (out.2.map_values(|x: Seq<char>| error_note(x)), ns)
        } else if root.node_type is Equality {
            if unknowns.len() == 1 {
                match equation_outcome(t) {
                    Solved::Fail(x) => (seq![error_note(x)], ns),
                    Solved::Bind(n) => (
                        seq![note(ResolveMessageType::Output, n + " = "@ + arith.render_spec(equation_value(arith, t))@)],
                        ns.insert(n, Binding::Number(equation_value(arith, t))),
                    ),
                }
            } else if unknowns.len() == 0 {
                if t.children.len() == 2 {
                    (seq![note(ResolveMessageType::Output, if same_tree(t.children[0], t.children[1]) {
                        "true"@
                    } else {
                        "false"@
                    })], ns)
                } else {
                    (seq![error_note("Could not resolve"@)], ns)
                }
            } else {
                (seq![error_note("Could not resolve an equation with more than one unknown"@)], ns)
            }
        } else if unknowns.len() == 0 {
            if is_number(t) {
                (seq![note(ResolveMessageType::Output, "? = "@ + arith.render_spec(number_of(t))@)], ns)
            } else {
                (seq![error_note("Could not resolve expression"@)], ns)
            }
        } else {
            (
                seq![
                    error_note("Could not resolve expression with unknown"@),
                    note(ResolveMessageType::Info, "Hint: To solve for an unknown, make this into an equation"@),
                ],
                ns,
            )
        }
    }
}

/// What a line says and binds, in a session whose bindings are `ns`.
pub open spec fn line_result<A: Arithmetic>(arith: A, ns: Map<Seq<char>, Binding>, root: Tree) -> (Seq<Note>, Map<Seq<char>, Binding>) {
    if empty_count(root) > 0 {
        (empty_report(empty_count(root)), ns)
    } else {
        line_outcome(arith, ns, root)
    }
}

/// A `let` line that does not hold one equality of two sides, such as a
/// cut-off `let f(x, y)`, gives one error and binds nothing.
pub proof fn lemma_malformed_let_reports<A: Arithmetic>(arith: A, ns: Map<Seq<char>, Binding>, root: Tree)
    requires
        root.node_type is Assignment,
        empty_count(root) == 0,
        root.children.len() != 1 || !(root.children[0].node_type is Equality) || root.children[0].children.len() != 2,
    ensures
        line_result(arith, ns, root) == (
            seq![error_note("Let assignments must be followed by a valid equality"@)],
            ns,
        ),
{
}

/// Writes `name(a, b, ...) = [...]`.
fn declaration_text(name: &String, params: &Vec<String>) -> (r: String)
    ensures
        r@ == name@ + "("@ + joined(views(params@), ", "@) + ") = [...]"@,
{
    proof {
        reveal_strlit("(");
        reveal_strlit(", ");
        reveal_strlit(") = [...]");
    }
    let mut text = name.clone();
    text.append("(");
    text.append(join_parts(params, ", ").as_str());
    text.append(") = [...]");
    text
}

impl<A: Arithmetic> Resolver<A> {
    /// Resolves a tree against the namespace, in place. Gives the names that
    /// are bound to nothing, each once in the order met, or the errors met on
    /// the way, in order.
    pub fn resolve_expression(&self, expr: &mut ASTNode) -> (r: Result<Vec<String>, Vec<ResolveMessage>>)
        ensures
            ({
                let out = res(self.arith, self.namespace@, MAX_CALL_DEPTH as nat, old(expr)@, Seq::empty(), Seq::empty());
                &&& final(expr)@ == out.0
                &&& match r {
                    Ok(u) => out.2.len() == 0 && views(u@) == out.1 && distinct(views(u@)),
                    Err(e) => out.2.len() > 0 && texts(e@) == out.2 && all_errors(e@),
                }
            }),
    {
        let mut unknowns: Vec<String> = Vec::new();
        let mut errors: Vec<ResolveMessage> = Vec::new();
        let mut n = ASTNode::default();
        std::mem::swap(expr, &mut n);
        proof {
            assert(views(unknowns@) =~= Seq::<Seq<char>>::empty());
            assert(texts(errors@) =~= Seq::<Seq<char>>::empty());
        }
        *expr = self.resolve_node(n, MAX_CALL_DEPTH, &mut unknowns, &mut errors);
        if errors.len() > 0 {
            Err(errors)
        } else {
            Ok(unknowns)
        }
    }

    /// Turns a declared body into a stored one: the parameters become
    /// placeholders by position; any other name is an error.
    pub fn process_fn(&self, args: &ASTNode, body: ASTNode) -> (r: Result<(ASTNode, Vec<String>), ResolveMessage>)
        ensures
            match arg_names(args@) {
                None => r is Err && is_error(r->Err_0, "Invalid function arguments"@),
                Some(names) => if bind_notes(body@, names).len() == 0 {
                    r is Ok && views(r->Ok_0.1@) == names && r->Ok_0.0@ == bind_tree(body@, names)
                } else {
                    r is Err && is_error(
                        r->Err_0,
                        "Unknown name: "@ + bind_notes(body@, names).last(),
                    )
                },
            },
    {
        let params = match process_fn_args(args) {
            Ok(p) => p,
            Err(e) => return Err(e),
        };
        let mut stray: Vec<String> = Vec::new();
        proof {
            assert(views(stray@) =~= Seq::<Seq<char>>::empty());
        }
        let bound = bind_node(body, &params, &mut stray);
        proof {
            assert(views(stray@) =~= bind_notes(body@, views(params@)));
        }
        if stray.len() > 0 {
            let mut text = String::from_str("Unknown name: ");
            proof {
                reveal_strlit("Unknown name: ");
            }
            text.append(stray[stray.len() - 1].as_str());
            return Err(ResolveMessage { msg_type: ResolveMessageType::Error, content: text });
        }
        Ok((bound, params))
    }

    /// Binds a function from `let name(params) = body`.
    fn resolve_assignment(&mut self, root: ASTNode) -> (r: Vec<ResolveMessage>)
        ensures
            (notes(r@), final(self).namespace@) == assignment_outcome(old(self).namespace@, root@),
            final(self).arith == old(self).arith,
    {
        proof {
            lemma_trees_of_len(root.children@);
            reveal_strlit("Let assignments must be followed by a valid equality");
        }
        let ghost r0 = root@;
        let ASTNode { mut children, node_type: _ } = root;
        let mut out: Vec<ResolveMessage> = Vec::new();
        if children.len() != 1 {
            out.push(ResolveMessage::error("Let assignments must be followed by a valid equality"));
            proof {
                assert(notes(out@) =~= seq![error_note("Let assignments must be followed by a valid equality"@)]);
            }
            return out;
        }
        proof {
            lemma_trees_of_index(children@, 0);
        }
        let equality = children.pop().unwrap();
        proof {
            lemma_trees_of_len(equality.children@);
        }
        let ASTNode { children: mut sides, node_type } = equality;
        if !matches!(node_type, ASTNodeType::Equality) || sides.len() != 2 {
            out.push(ResolveMessage::error("Let assignments must be followed by a valid equality"));
            proof {
                assert(notes(out@) =~= seq![error_note("Let assignments must be followed by a valid equality"@)]);
            }
            return out;
        }
        proof {
            lemma_trees_of_index(sides@, 0);
            lemma_trees_of_index(sides@, 1);
        }
        let body = sides.pop().unwrap();
        let declaration = sides.pop().unwrap();
        proof {
            lemma_trees_of_len(declaration.children@);
            if declaration.children@.len() > 0 {
                lemma_trees_of_index(declaration.children@, 0);
            }
        }
        let ASTNode { children: mut params, node_type: decl_type } = declaration;
        match decl_type {
            ASTNodeType::Function(name) => {
                let arg_list = if params.len() > 0 {
                    params.remove(0)
                } else {
                    let l = ASTNode::new(ASTNodeType::List, Vec::new());
                    proof {
                        assert(trees_of(Seq::<ASTNode>::empty()) =~= Seq::<Tree>::empty());
                    }
                    l
                };
                match self.process_fn(&arg_list, body) {
                    Err(e) => {
                        out.push(e);
                        proof {
                            assert(notes(out@) =~= seq![note(e.msg_type, e.content@)]);
                        }
                    },
                    Ok((processed, arguments)) => {
                        let text = declaration_text(&name, &arguments);
                        let ghost body_view = processed@;
                        self.namespace.insert(name, NamespaceElement::Function(processed));
                        let m = ResolveMessage { msg_type: ResolveMessageType::Output, content: text };
                        out.push(m);
                        proof {
                            assert(notes(out@) =~= seq![note(m.msg_type, m.content@)]);
                        }
                    },
                }
            },
            _ => {
                out.push(ResolveMessage::error("Assignment requires function on left side"));
                proof {
                    reveal_strlit("Assignment requires function on left side");
                    assert(notes(out@) =~= seq![error_note("Assignment requires function on left side"@)]);
                }
            },
        }
        out
    }

    /// Resolves one parsed line: reports groups no operator joined; else
    /// binds the function a `let` declares, or evaluates the line and then
    /// solves it for its one unknown, compares its sides, or shows its value.
    /// Calls of stored functions nest at most `MAX_CALL_DEPTH` deep; a deeper
    /// call is reported as an error, so that a function calling itself ends.
    pub fn resolve_line(&mut self, root: ASTNode) -> (r: Vec<ResolveMessage>)
        ensures
            (notes(r@), final(self).namespace@) == line_result(old(self).arith, old(self).namespace@, root@),
            final(self).arith == old(self).arith,
            r@.len() > 0,
    {
        let ghost root0 = root@;
        let mut out: Vec<ResolveMessage> = Vec::new();
        report_empty(&root, &mut out);
        if out.len() > 0 {
            proof {
                lemma_empty_report(out@, empty_count(root0));
            }
            return out;
        }
        if matches!(root.node_type, ASTNodeType::Assignment) {
            let r = self.resolve_assignment(root);
            proof {
                assert(r@.len() > 0) by {
                    assert(notes(r@).len() > 0);
                }
            }
            return r;
        }
        let is_equality = matches!(root.node_type, ASTNodeType::Equality);
        let mut root = root;
        let ghost ar = self.arith;
        let ghost ns = self.namespace@;
        let ghost outcome = res(ar, ns, MAX_CALL_DEPTH as nat, root0, Seq::empty(), Seq::empty());
        let unknowns = match self.resolve_expression(&mut root) {
            Ok(u) => u,
            Err(errors) => {
                proof {
                    assert(notes(errors@) =~= outcome.2.map_values(|x: Seq<char>| error_note(x)));
                }
                return errors;
            },
        };
        proof {
            lemma_trees_of_len(root.children@);
            if root.children@.len() == 2 {
                lemma_trees_of_index(root.children@, 0);
                lemma_trees_of_index(root.children@, 1);
            }
            reveal_strlit("true");
            reveal_strlit("false");
            reveal_strlit("? = ");
        }
        if is_equality {
            if unknowns.len() == 1 {
                let m = self.resolve_equation(root);
                out.push(m);
            } else if unknowns.len() == 0 {
                if root.children.len() == 2 {
                    if trees_equal(&root.children[0], &root.children[1]) {
                        out.push(ResolveMessage::output("true"));
                    } else {
                        out.push(ResolveMessage::output("false"));
                    }
                } else {
                    out.push(ResolveMessage::error("Could not resolve"));
                }
            } else {
                out.push(ResolveMessage::error("Could not resolve an equation with more than one unknown"));
            }
        } else if unknowns.len() == 0 {
            match &root.node_type {
                ASTNodeType::Delimeter(Token::Number(num)) => {
                    let mut text = String::from_str("? = ");
                    text.append(self.arith.render(*num).as_str());
                    out.push(ResolveMessage { msg_type: ResolveMessageType::Output, content: text });
                },
                _ => out.push(ResolveMessage::error("Could not resolve expression")),
            }
        } else {
            out.push(ResolveMessage::error("Could not resolve expression with unknown"));
            out.push(ResolveMessage::info("Hint: To solve for an unknown, make this into an equation"));
        }
        proof {
            let expected = line_outcome(ar, ns, root0);
            assert(notes(out@) =~= expected.0);
        }
        out
    }

    /// Resolves numbered lines in order, in one session: each line sees the
    /// bindings the lines before it made, and each of its messages carries
    /// its number.
    pub fn resolve(&mut self, nodes: Vec<(usize, ASTNode)>) -> (r: Vec<(usize, ResolveMessage)>)
        ensures
            (numbered_notes(r@), final(self).namespace@) == session(
                old(self).arith,
                old(self).namespace@,
                numbered_trees(nodes@),
            ),
            final(self).arith == old(self).arith,
    {
        let ghost all = numbered_trees(nodes@);
        let ghost ar = self.arith;
        let ghost goal = session(ar, self.namespace@, all);
        let mut out: Vec<(usize, ResolveMessage)> = Vec::new();
        let mut rest = nodes;
        proof {
            assert(numbered_notes(out@) =~= Seq::<(usize, Note)>::empty());
            assert(Seq::<(usize, Note)>::empty() + goal.0 =~= goal.0);
        }
        while rest.len() > 0
            invariant
                ar == self.arith,
                numbered_notes(out@) + session(ar, self.namespace@, numbered_trees(rest@)).0 == goal.0,
                session(ar, self.namespace@, numbered_trees(rest@)).1 == goal.1,
            decreases rest@.len(),
        {
            let ghost rest0 = rest@;
            let ghost ns0 = self.namespace@;
            let (line_num, node) = rest.remove(0);
            proof {
                assert(numbered_trees(rest@) =~= numbered_trees(rest0).subrange(1, rest0.len() as int));
                assert(numbered_trees(rest0)[0] == (line_num, node@));
            }
            let mut messages = self.resolve_line(node);
            let ghost tagged = notes(messages@).map_values(|n: Note| (line_num, n));
            let ghost base = numbered_notes(out@);
            proof {
                assert(base + tagged + session(ar, self.namespace@, numbered_trees(rest@)).0 =~= goal.0);
                assert(numbered_notes(out@) + notes(messages@).map_values(|n: Note| (line_num, n)) =~= base
                    + tagged);
            }
            while messages.len() > 0
                invariant
                    numbered_notes(out@) + notes(messages@).map_values(|n: Note| (line_num, n)) == base
                        + tagged,
                decreases messages@.len(),
            {
                let ghost m0 = messages@;
                let ghost o0 = out@;
                let m = messages.remove(0);
                out.push((line_num, m));
                proof {
                    assert(numbered_notes(out@) =~= numbered_notes(o0).push((line_num, note(m.msg_type, m.content@))));
                    assert(notes(m0).map_values(|n: Note| (line_num, n)) =~= seq![(line_num, note(m.msg_type, m.content@))]
                        + notes(messages@).map_values(|n: Note| (line_num, n)));
                    assert(numbered_notes(out@) + notes(messages@).map_values(|n: Note| (line_num, n))
                        =~= numbered_notes(o0) + notes(m0).map_values(|n: Note| (line_num, n)));
                }
            }
            proof {
                assert(notes(messages@).map_values(|n: Note| (line_num, n)) =~= Seq::<(usize, Note)>::empty());
                assert(numbered_notes(out@) =~= base + tagged);
                assert(numbered_notes(out@) + session(ar, self.namespace@, numbered_trees(rest@)).0 =~= goal.0);
            }
        }
        out
    }
}

/// Numbered messages as numbered notes.
pub open spec fn numbered_notes(m: Seq<(usize, ResolveMessage)>) -> Seq<(usize, Note)> {
    m.map_values(|p: (usize, ResolveMessage)| (p.0, note(p.1.msg_type, p.1.content@)))
}

pub open spec fn numbered_trees(nodes: Seq<(usize, ASTNode)>) -> Seq<(usize, Tree)> {
    nodes.map_values(|p: (usize, ASTNode)| (p.0, p.1@))
}

/// What a session of numbered lines says, each message with its line's
/// number, and the bindings it leaves.
pub open spec fn session<A: Arithmetic>(
    arith: A,
    ns: Map<Seq<char>, Binding>,
    lines: Seq<(usize, Tree)>,
) -> (Seq<(usize, Note)>, Map<Seq<char>, Binding>)
    decreases lines.len(),
{
    if lines.len() == 0 {
        (Seq::empty(), ns)
    } else {
        let first = line_result(arith, ns, lines[0].1);
        let rest = session(arith, first.1, lines.subrange(1, lines.len() as int));
        (first.0.map_values(|n: Note| (lines[0].0, n)) + rest.0, rest.1)
    }
}

} // verus!
