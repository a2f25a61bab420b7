//! Function declarations and calls: parameter lists, the placeholders a
//! stored body holds, and the substitution of arguments at a call.
use vstd::prelude::*;

use crate::node::{
    lemma_trees_of_index, lemma_trees_of_len, lemma_trees_of_push, tree_of, trees_of, ASTNode,
    ASTNodeType, Tree,
};
use crate::resolve_message::{is_error, ResolveMessage};
use crate::tokenizer::Token;
use crate::walkers::is_name;

verus! {

pub open spec fn name_of(t: Tree) -> Seq<char> {
    t.node_type->Delimeter_0->Name_0@
}

/// The items of an argument list: a chain of `List` nodes is flattened in
/// order; any other node is one item.
pub open spec fn flatten_list(t: Tree) -> Seq<Tree>
    decreases t,
{
    if t.node_type is List {
        flatten_row(t.children)
    } else {
        seq![t]
    }
}

pub open spec fn flatten_row(s: Seq<Tree>) -> Seq<Tree>
    decreases s,
{
    if s.len() == 0 {
        Seq::empty()
    } else {
        flatten_row(s.subrange(0, s.len() - 1)) + flatten_list(s[s.len() - 1])
    }
}

pub(crate) proof fn lemma_row_step(s: Seq<ASTNode>, k: int)
    requires
        0 <= k < s.len(),
    ensures
        trees_of(s.subrange(0, k + 1)) == trees_of(s.subrange(0, k)).push(tree_of(s[k])),
        trees_of(s.subrange(0, k + 1)).len() == k + 1,
        trees_of(s.subrange(0, k + 1))[k] == tree_of(s[k]),
{
    assert(s.subrange(0, k).push(s[k]) =~= s.subrange(0, k + 1));
    lemma_trees_of_push(s.subrange(0, k), s[k]);
    lemma_trees_of_len(s.subrange(0, k));
}

proof fn lemma_flatten_step(s: Seq<Tree>, x: Tree)
    ensures
        flatten_row(s.push(x)) == flatten_row(s) + flatten_list(x),
{
    assert(s.push(x).subrange(0, s.len() as int) =~= s);
}

fn flatten_into(n: &ASTNode, out: &mut Vec<ASTNode>)
    ensures
        trees_of(final(out)@) == trees_of(old(out)@) + flatten_list(n@),
    decreases n,
{
    if !matches!(n.node_type, ASTNodeType::List) {
        let ghost before = out@;
        let c = n.duplicate();
        out.push(c);
        proof {
            lemma_trees_of_push(before, c);
            assert(trees_of(before).push(c@) =~= trees_of(before) + seq![n@]);
        }
        return;
    }
    let ghost start = trees_of(out@);
    let mut k: usize = 0;
    proof {
        assert(trees_of(n.children@.subrange(0, 0)) =~= Seq::<Tree>::empty());
        assert(start + flatten_row(Seq::empty()) =~= start);
    }
    while k < n.children.len()
        invariant
            k <= n.children@.len(),
            trees_of(out@) == start + flatten_row(trees_of(n.children@.subrange(0, k as int))),
        decreases n.children@.len() - k,
    {
        proof {
            assert(decreases_to!(n => n.children));
            assert(decreases_to!(n.children => n.children@));
            assert(decreases_to!(n.children@ => n.children@[k as int]));
            lemma_row_step(n.children@, k as int);
            lemma_flatten_step(
                trees_of(n.children@.subrange(0, k as int)),
                tree_of(n.children@[k as int]),
            );
        }
        flatten_into(&n.children[k], out);
        k += 1;
        proof {
            assert(trees_of(out@) =~= start + flatten_row(
                trees_of(n.children@.subrange(0, k as int)),
            ));
        }
    }
    proof {
        assert(n.children@.subrange(0, k as int) =~= n.children@);
    }
}

/// The items of an argument list, in order.
pub fn list_node_to_vec(node: &ASTNode) -> (r: Vec<ASTNode>)
    ensures
        trees_of(r@) == flatten_list(node@),
{
    let mut out: Vec<ASTNode> = Vec::new();
    proof {
        assert(trees_of(out@) =~= Seq::<Tree>::empty());
    }
    flatten_into(node, &mut out);
    proof {
        assert(Seq::<Tree>::empty() + flatten_list(node@) =~= flatten_list(node@));
    }
    out
}

/// The parameter names of a declaration: names joined by `List` nodes, in
/// order; `None` where anything else stands among them.
pub open spec fn arg_names(t: Tree) -> Option<Seq<Seq<char>>>
    decreases t,
{
    if is_name(t) {
        Some(seq![name_of(t)])
    } else if t.node_type is List {
        arg_names_row(t.children)
    } else {
        None
    }
}

pub open spec fn arg_names_row(s: Seq<Tree>) -> Option<Seq<Seq<char>>>
    decreases s,
{
    if s.len() == 0 {
        Some(Seq::empty())
    } else {
        match (arg_names_row(s.subrange(0, s.len() - 1)), arg_names(s[s.len() - 1])) {
            (Some(a), Some(b)) => Some(a + b),
            _ => None,
        }
    }
}

pub open spec fn views(v: Seq<String>) -> Seq<Seq<char>> {
    v.map_values(|s: String| s@)
}

proof fn lemma_names_step(s: Seq<Tree>, x: Tree)
    ensures
        arg_names_row(s.push(x)) == match (arg_names_row(s), arg_names(x)) {
            (Some(a), Some(b)) => Some(a + b),
            _ => None::<Seq<Seq<char>>>,
        },
{
    assert(s.push(x).subrange(0, s.len() as int) =~= s);
}

fn collect_names(n: &ASTNode, out: &mut Vec<String>) -> (ok: bool)
    ensures
        ok == arg_names(n@) is Some,
        ok ==> views(final(out)@) == views(old(out)@) + arg_names(n@)->Some_0,
    decreases n,
{
    match &n.node_type {
        ASTNodeType::Delimeter(Token::Name(name)) => {
            let ghost before = out@;
            out.push(name.clone());
            proof {
                assert(views(out@) =~= views(before) + seq![name@]);
            }
            return true;
        },
        ASTNodeType::List => {},
        _ => {
            return false;
        },
    }
    let ghost start = views(out@);
    let mut k: usize = 0;
    proof {
        assert(trees_of(n.children@.subrange(0, 0)) =~= Seq::<Tree>::empty());
        assert(start + Seq::<Seq<char>>::empty() =~= start);
    }
    while k < n.children.len()
        invariant
            k <= n.children@.len(),
            n.node_type is List,
            arg_names_row(trees_of(n.children@.subrange(0, k as int))) is Some,
            views(out@) == start + arg_names_row(trees_of(n.children@.subrange(0, k as int)))->Some_0,
        decreases n.children@.len() - k,
    {
        proof {
            assert(decreases_to!(n => n.children));
            assert(decreases_to!(n.children => n.children@));
            assert(decreases_to!(n.children@ => n.children@[k as int]));
            lemma_row_step(n.children@, k as int);
            lemma_names_step(
                trees_of(n.children@.subrange(0, k as int)),
                tree_of(n.children@[k as int]),
            );
        }
        if !collect_names(&n.children[k], out) {
            proof {
                lemma_names_none(n.children@, k as int);
                assert(n@.children == trees_of(n.children@));
                assert(arg_names(n@) == arg_names_row(n@.children));
            }
            return false;
        }
        k += 1;
        proof {
            assert(views(out@) =~= start + arg_names_row(
                trees_of(n.children@.subrange(0, k as int)),
            )->Some_0);
        }
    }
    proof {
        assert(n.children@.subrange(0, k as int) =~= n.children@);
    }
    true
}

/// A row with an item that is not a parameter list has none.
proof fn lemma_names_none(s: Seq<ASTNode>, k: int)
    requires
        0 <= k < s.len(),
        arg_names(tree_of(s[k])) is None,
    ensures
        arg_names_row(trees_of(s)) is None,
    decreases s.len(),
{
    lemma_trees_of_len(s);
    assert(s.subrange(0, s.len() - 1).push(s[s.len() - 1]) =~= s);
    lemma_trees_of_push(s.subrange(0, s.len() - 1), s[s.len() - 1]);
    lemma_names_step(trees_of(s.subrange(0, s.len() - 1)), tree_of(s[s.len() - 1]));
    if k < s.len() - 1 {
        lemma_names_none(s.subrange(0, s.len() - 1), k);
    }
}

/// Reads the parameter names of a function declaration.
pub fn process_fn_args(args: &ASTNode) -> (r: Result<Vec<String>, ResolveMessage>)
    ensures
        match arg_names(args@) {
            Some(names) => r is Ok && views(r->Ok_0@) == names,
            None => r is Err && is_error(r->Err_0, "Invalid function arguments"@),
        },
{
    let mut out: Vec<String> = Vec::new();
    if collect_names(args, &mut out) {
        proof {
            assert(views(Seq::<String>::empty()) + arg_names(args@)->Some_0 =~= arg_names(
                args@,
            )->Some_0);
        }
        Ok(out)
    } else {
        Err(ResolveMessage::error("Invalid function arguments"))
    }
}

/// The first position of `n` among `params`, or -1.
pub open spec fn param_index(params: Seq<Seq<char>>, n: Seq<char>) -> int
    decreases params.len(),
{
    if params.len() == 0 {
        -1
    } else if params[0] == n {
        0
    } else {
        let r = param_index(params.subrange(1, params.len() as int), n);
        if r < 0 {
            -1
        } else {
            r + 1
        }
    }
}

proof fn lemma_param_index(params: Seq<Seq<char>>, n: Seq<char>, i: int)
    requires
        0 <= i <= params.len(),
        forall|j: int| 0 <= j < i ==> params[j] != n,
    ensures
        i < params.len() && params[i] == n ==> param_index(params, n) == i,
        i == params.len() ==> param_index(params, n) == -1,
    decreases params.len(),
{
    if params.len() > 0 && i > 0 {
        let tail = params.subrange(1, params.len() as int);
        assert forall|j: int| 0 <= j < i - 1 implies tail[j] != n by {
            assert(tail[j] == params[j + 1]);
        }
        lemma_param_index(tail, n, i - 1);
        if i < params.len() {
            assert(tail[i - 1] == params[i]);
        }
    }
}

fn position_of(params: &Vec<String>, name: &String) -> (r: Option<usize>)
    ensures
        match r {
            Some(i) => param_index(views(params@), name@) == i as int,
            None => param_index(views(params@), name@) < 0,
        },
{
    let ghost v = views(params@);
    let mut k: usize = 0;
    while k < params.len()
        invariant
            k <= params@.len(),
            v == views(params@),
            forall|j: int| 0 <= j < k ==> v[j] != name@,
        decreases params@.len() - k,
    {
        if params[k].eq(name) {
            proof {
                lemma_param_index(v, name@, k as int);
            }
            return Some(k);
        }
        k += 1;
    }
    proof {
        lemma_param_index(v, name@, k as int);
    }
    None
}

/// A declared body with each parameter name replaced by the placeholder of
/// its first position.
pub open spec fn bind_tree(t: Tree, params: Seq<Seq<char>>) -> Tree
    decreases t,
{
    let kids = if t.node_type is Delimeter {
        t.children
    } else {
        bind_row(t.children, params)
    };
    if is_name(t) && param_index(params, name_of(t)) >= 0 {
        Tree {
            node_type: ASTNodeType::FnArgument(param_index(params, name_of(t)) as usize),
            children: Seq::empty(),
        }
    } else {
        Tree { node_type: t.node_type, children: kids }
    }
}

pub open spec fn bind_row(s: Seq<Tree>, params: Seq<Seq<char>>) -> Seq<Tree>
    decreases s,
{
    if s.len() == 0 {
        Seq::empty()
    } else {
        bind_row(s.subrange(0, s.len() - 1), params).push(bind_tree(s[s.len() - 1], params))
    }
}

/// The names in a body that are no parameter, post-order.
pub open spec fn bind_notes(t: Tree, params: Seq<Seq<char>>) -> Seq<Seq<char>>
    decreases t,
{
    let below = if t.node_type is Delimeter {
        Seq::empty()
    } else {
        bind_notes_row(t.children, params)
    };
    if is_name(t) && param_index(params, name_of(t)) < 0 {
        below.push(name_of(t))
    } else {
        below
    }
}

pub open spec fn bind_notes_row(s: Seq<Tree>, params: Seq<Seq<char>>) -> Seq<Seq<char>>
    decreases s,
{
    if s.len() == 0 {
        Seq::empty()
    } else {
        bind_notes_row(s.subrange(0, s.len() - 1), params) + bind_notes(s[s.len() - 1], params)
    }
}

proof fn lemma_bind_step(s: Seq<Tree>, x: Tree, params: Seq<Seq<char>>)
    ensures
        bind_row(s.push(x), params) == bind_row(s, params).push(bind_tree(x, params)),
        bind_notes_row(s.push(x), params) == bind_notes_row(s, params) + bind_notes(x, params),
{
    assert(s.push(x).subrange(0, s.len() as int) =~= s);
}

pub(crate) fn bind_node(t: ASTNode, params: &Vec<String>, notes: &mut Vec<String>) -> (r: ASTNode)
    ensures
        r@ == bind_tree(t@, views(params@)),
        views(final(notes)@) == views(old(notes)@) + bind_notes(t@, views(params@)),
    decreases t,
{
    let ghost t0 = t;
    let ghost start = views(notes@);
    let ASTNode { children, node_type } = t;
    let is_leaf = matches!(node_type, ASTNodeType::Delimeter(_));
    let kids = if is_leaf {
        children
    } else {
        let mut out: Vec<ASTNode> = Vec::new();
        let mut rest = children;
        let ghost orig = rest@;
        proof {
            assert(trees_of(out@) =~= bind_row(trees_of(orig.subrange(0, 0)), views(params@)));
            assert(views(notes@) =~= start + bind_notes_row(trees_of(orig.subrange(0, 0)), views(params@)));
        }
        while rest.len() > 0
            invariant
                orig == t0.children@,
                t0 == t,
                out@.len() <= orig.len(),
                rest@ == orig.subrange(out@.len() as int, orig.len() as int),
                trees_of(out@) == bind_row(trees_of(orig.subrange(0, out@.len() as int)), views(params@)),
                views(notes@) == start + bind_notes_row(trees_of(orig.subrange(0, out@.len() as int)), views(params@)),
            decreases rest@.len(),
        {
            let ghost k = out@.len() as int;
            let ghost before = out@;
            let c = rest.remove(0);
            proof {
                assert(c == orig[k]);
                assert(decreases_to!(t0 => t0.children));
                assert(decreases_to!(t0.children => t0.children@));
                assert(decreases_to!(t0.children@ => t0.children@[k]));
                lemma_row_step(orig, k);
                lemma_bind_step(trees_of(orig.subrange(0, k)), tree_of(orig[k]), views(params@));
            }
            let w = bind_node(c, params, notes);
            out.push(w);
            proof {
                lemma_trees_of_push(before, w);
                assert(rest@ =~= orig.subrange(out@.len() as int, orig.len() as int));
                assert(views(notes@) =~= start + bind_notes_row(trees_of(orig.subrange(0, out@.len() as int)), views(params@)));
            }
        }
        proof {
            assert(orig.subrange(0, out@.len() as int) =~= orig);
        }
        out
    };
    let ghost kids_t = trees_of(kids@);
        let ghost before = notes@;
    if let ASTNodeType::Delimeter(Token::Name(name)) = &node_type {
        match position_of(params, name) {
            Some(i) => {
                let r = ASTNode::new(ASTNodeType::FnArgument(i), Vec::new());
                proof {
                    assert(trees_of(Seq::<ASTNode>::empty()) =~= Seq::<Tree>::empty());
                    assert(views(notes@) =~= start + Seq::empty());
                }
                return r;
            },
            None => {
                notes.push(name.clone());
                proof {
                    assert(views(notes@) =~= views(before).push(name@));
                }
            },
        }
    } else {
        proof {
            assert(views(notes@) =~= views(before));
        }
    }
    ASTNode::new(node_type, kids)
}

/// A stored body with each placeholder replaced by the argument at its position.
pub open spec fn substitute_tree(t: Tree, args: Seq<Tree>) -> Tree
    decreases t,
{
    let kids = if t.node_type is Delimeter {
        t.children
    } else {
        substitute_row(t.children, args)
    };
    if t.node_type is FnArgument && (t.node_type->FnArgument_0 as int) < args.len() {
        args[t.node_type->FnArgument_0 as int]
    } else {
        Tree { node_type: t.node_type, children: kids }
    }
}

pub open spec fn substitute_row(s: Seq<Tree>, args: Seq<Tree>) -> Seq<Tree>
    decreases s,
{
    if s.len() == 0 {
        Seq::empty()
    } else {
        substitute_row(s.subrange(0, s.len() - 1), args).push(substitute_tree(s[s.len() - 1], args))
    }
}

/// The placeholders of a body whose position has no argument, post-order.
pub open spec fn substitute_notes(t: Tree, args: Seq<Tree>) -> Seq<usize>
    decreases t,
{
    let below = if t.node_type is Delimeter {
        Seq::empty()
    } else {
        substitute_notes_row(t.children, args)
    };
    if t.node_type is FnArgument && (t.node_type->FnArgument_0 as int) >= args.len() {
        below.push(t.node_type->FnArgument_0)
    } else {
        below
    }
}

pub open spec fn substitute_notes_row(s: Seq<Tree>, args: Seq<Tree>) -> Seq<usize>
    decreases s,
{
    if s.len() == 0 {
        Seq::empty()
    } else {
        substitute_notes_row(s.subrange(0, s.len() - 1), args) + substitute_notes(s[s.len() - 1], args)
    }
}

proof fn lemma_substitute_step(s: Seq<Tree>, x: Tree, args: Seq<Tree>)
    ensures
        substitute_row(s.push(x), args) == substitute_row(s, args).push(substitute_tree(x, args)),
        substitute_notes_row(s.push(x), args) == substitute_notes_row(s, args) + substitute_notes(x, args),
{
    assert(s.push(x).subrange(0, s.len() as int) =~= s);
}

pub(crate) fn substitute_node(t: ASTNode, args: &Vec<ASTNode>, notes: &mut Vec<usize>) -> (r: ASTNode)
    ensures
        r@ == substitute_tree(t@, trees_of(args@)),
        final(notes)@ == old(notes)@ + substitute_notes(t@, trees_of(args@)),
    decreases t,
{
    let ghost t0 = t;
    let ghost start = notes@;
    let ASTNode { children, node_type } = t;
    let is_leaf = matches!(node_type, ASTNodeType::Delimeter(_));
    let kids = if is_leaf {
        children
    } else {
        let mut out: Vec<ASTNode> = Vec::new();
        let mut rest = children;
        let ghost orig = rest@;
        proof {
            assert(trees_of(out@) =~= substitute_row(trees_of(orig.subrange(0, 0)), trees_of(args@)));
            assert(notes@ =~= start + substitute_notes_row(trees_of(orig.subrange(0, 0)), trees_of(args@)));
        }
        while rest.len() > 0
            invariant
                orig == t0.children@,
                t0 == t,
                out@.len() <= orig.len(),
                rest@ == orig.subrange(out@.len() as int, orig.len() as int),
                trees_of(out@) == substitute_row(trees_of(orig.subrange(0, out@.len() as int)), trees_of(args@)),
                notes@ == start + substitute_notes_row(trees_of(orig.subrange(0, out@.len() as int)), trees_of(args@)),
            decreases rest@.len(),
        {
            let ghost k = out@.len() as int;
            let ghost before = out@;
            let c = rest.remove(0);
            proof {
                assert(c == orig[k]);
                assert(decreases_to!(t0 => t0.children));
                assert(decreases_to!(t0.children => t0.children@));
                assert(decreases_to!(t0.children@ => t0.children@[k]));
                lemma_row_step(orig, k);
                lemma_substitute_step(trees_of(orig.subrange(0, k)), tree_of(orig[k]), trees_of(args@));
            }
            let w = substitute_node(c, args, notes);
            out.push(w);
            proof {
                lemma_trees_of_push(before, w);
                assert(rest@ =~= orig.subrange(out@.len() as int, orig.len() as int));
                assert(notes@ =~= start + substitute_notes_row(trees_of(orig.subrange(0, out@.len() as int)), trees_of(args@)));
            }
        }
        proof {
            assert(orig.subrange(0, out@.len() as int) =~= orig);
        }
        out
    };
    let ghost kids_t = trees_of(kids@);
        let ghost before = notes@;
    if let ASTNodeType::FnArgument(i) = &node_type {
        let i = *i;
        if i < args.len() {
            let r = args[i].duplicate();
            proof {
                lemma_trees_of_index(args@, i as int);
            }
            return r;
        } else {
            notes.push(i);
            proof {
                lemma_trees_of_len(args@);
            }
        }
    } else {
        proof {
            assert(notes@ =~= before);
        }
    }
    proof {
        lemma_trees_of_len(args@);
    }
    ASTNode::new(node_type, kids)
}

} // verus!
