use vstd::prelude::*;

use crate::node::{number_leaf, ASTNode, Tree};
use crate::number::Num;

verus! {

/// What a name is bound to.
#[derive(Debug, PartialEq)]
pub enum NamespaceElement {
    Number(Num),
    /// A function body whose parameters are `FnArgument` placeholders.
    Function(ASTNode),
}

/// The model of a binding: a number, or the model of a stored body.
pub enum Binding {
    Number(Num),
    Function(Tree),
}

impl NamespaceElement {
    pub open spec fn binding(&self) -> Binding {
        match *self {
            NamespaceElement::Number(n) => Binding::Number(n),
            NamespaceElement::Function(body) => Binding::Function(body@),
        }
    }

    /// A bound number as a leaf; a function has no such form.
    pub fn as_astnode(&self) -> (r: Option<ASTNode>)
        ensures
            match *self {
                NamespaceElement::Number(n) => r is Some && r->Some_0@ == number_leaf(n),
                NamespaceElement::Function(_) => r is None,
            },
    {
        match self {
            NamespaceElement::Number(num) => Some(ASTNode::number(*num)),
            NamespaceElement::Function(_) => None,
        }
    }
}

/// The bindings of a session, in the order they were made.
pub struct Namespace {
    entries: Vec<(String, NamespaceElement)>,
}

/// The bindings in force after the given ones, in order: a later binding of a
/// name replaces an earlier one.
pub open spec fn bindings(entries: Seq<(String, NamespaceElement)>) -> Map<Seq<char>, Binding>
    decreases entries.len(),
{
    if entries.len() == 0 {
        Map::empty()
    } else {
        let last = entries[entries.len() - 1];
        bindings(entries.subrange(0, entries.len() - 1)).insert(last.0@, last.1.binding())
    }
}

impl View for Namespace {
    type V = Map<Seq<char>, Binding>;

    closed spec fn view(&self) -> Map<Seq<char>, Binding> {
        bindings(self.entries@)
    }
}

impl Namespace {
    pub fn new() -> (r: Namespace)
        ensures
            r@ == Map::<Seq<char>, Binding>::empty(),
    {
        Namespace { entries: Vec::new() }
    }

    /// Binds `name`, replacing what it was bound to.
    pub fn insert(&mut self, name: String, element: NamespaceElement)
        ensures
            final(self)@ == old(self)@.insert(name@, element.binding()),
    {
        let ghost before = self.entries@;
        self.entries.push((name, element));
        proof {
            assert(self.entries@.subrange(0, self.entries@.len() - 1) =~= before);
        }
    }

    /// What `name` is bound to.
    pub fn get(&self, name: &str) -> (r: Option<&NamespaceElement>)
        ensures
            match r {
                Some(e) => self@.contains_key(name@) && self@[name@] == e.binding(),
                None => !self@.contains_key(name@),
            },
    {
        let key = String::from_str(name);
        let mut k: usize = self.entries.len();
        proof {
            assert(self.entries@.subrange(0, k as int) =~= self.entries@);
        }
        while k > 0
            invariant
                k <= self.entries@.len(),
                key@ == name@,
                bindings(self.entries@).contains_key(name@) == bindings(
                    self.entries@.subrange(0, k as int),
                ).contains_key(name@),
                bindings(self.entries@).contains_key(name@) ==> bindings(self.entries@)[name@]
                    == bindings(self.entries@.subrange(0, k as int))[name@],
            decreases k,
        {
            let ghost s = self.entries@.subrange(0, k as int);
            proof {
                assert(s.subrange(0, s.len() - 1) =~= self.entries@.subrange(0, k - 1));
                assert(s[s.len() - 1] == self.entries@[k - 1]);
            }
            if self.entries[k - 1].0.eq(&key) {
                return Some(&self.entries[k - 1].1);
            }
            k -= 1;
        }
        None
    }
}

} // verus!
