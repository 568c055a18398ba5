use vstd::prelude::*;

verus! {

broadcast use {vstd::std_specs::vec::axiom_vec_index_decreases, vstd::std_specs::vec::axiom_vec_decreases_to_view, vstd::seq::axiom_seq_index_decreases, vstd::seq::axiom_seq_subrange_decreases};


/// A pattern: a small regular-expression algebra over characters.
pub enum Node {
    /// An exact run of characters.
    Literal(String),
    /// Ordered alternatives; earlier ones are preferred.
    Or(Vec<Node>),
    /// Parts that must match one after another.
    Concat(Vec<Node>),
    /// Zero or more repetitions of the inner pattern, greedy.
    Repeat(Box<Node>),
}

/// A deep copy of `n`.
fn copy_node(n: &Node) -> (r: Node)
    decreases n,
{
    match n {
        Node::Literal(t) => Node::Literal(t.clone()),
        Node::Repeat(b) => Node::Repeat(Box::new(copy_node(b))),
        Node::Or(v) => {
            let mut out: Vec<Node> = Vec::new();
            let mut i: usize = 0;
            assert(decreases_to!(*n => *v));
            while i < v.len()
                invariant
                    i <= v.len(),
                    *n == Node::Or(*v),
                    decreases_to!(*n => *v),
                decreases v.len() - i,
            {
                proof {
                    assert(decreases_to!(*v => v[i as int]));
                }
                out.push(copy_node(&v[i]));
                i += 1;
            }
            Node::Or(out)
        },
        Node::Concat(v) => {
            let mut out: Vec<Node> = Vec::new();
            let mut i: usize = 0;
            assert(decreases_to!(*n => *v));
            while i < v.len()
                invariant
                    i <= v.len(),
                    *n == Node::Concat(*v),
                    decreases_to!(*n => *v),
                decreases v.len() - i,
            {
                proof {
                    assert(decreases_to!(*v => v[i as int]));
                }
                out.push(copy_node(&v[i]));
                i += 1;
            }
            Node::Concat(out)
        },
    }
}

impl Clone for Node {
    fn clone(&self) -> Self {
        copy_node(self)
    }
}

/// A literal pattern matching exactly `s`.
pub fn literal(s: &str) -> (r: Node)
    ensures
        r is Literal,
        r->Literal_0@ == s@,
{
    Node::Literal(s.to_owned())
}

/// An alternation of `nodes`, tried in order.
pub fn or(nodes: Vec<Node>) -> (r: Node)
    ensures
        r == Node::Or(nodes),
{
    Node::Or(nodes)
}

/// A concatenation of `nodes`, in order.
pub fn concat(nodes: Vec<Node>) -> (r: Node)
    ensures
        r == Node::Concat(nodes),
{
    Node::Concat(nodes)
}

/// Zero or more repetitions of `node`.
pub fn repeat(node: Node) -> (r: Node)
    ensures
        r == Node::Repeat(Box::new(node)),
{
    Node::Repeat(Box::new(node))
}

/// `x` belongs to the language of pattern `n`.
pub open spec fn lang(n: Node, x: Seq<char>) -> bool
    decreases n, x.len(), 0nat,
{
    match n {
        Node::Literal(t) => x == t@,
        Node::Or(v) => any_lang(v@, x),
        Node::Concat(v) => seq_lang(v@, x),
        Node::Repeat(b) => star_lang(*b, x),
    }
}

/// `x` belongs to the language of one of `ns`.
pub open spec fn any_lang(ns: Seq<Node>, x: Seq<char>) -> bool
    decreases ns, x.len(), 0nat,
{
    if ns.len() == 0 {
        false
    } else {
        lang(ns[0], x) || any_lang(ns.skip(1), x)
    }
}

/// `x` splits into pieces that belong, in order, to the languages of `ns`.
pub open spec fn seq_lang(ns: Seq<Node>, x: Seq<char>) -> bool
    decreases ns, x.len(), 0nat,
{
    if ns.len() == 0 {
        x.len() == 0
    } else {
        exists|j: int| 0 <= j <= x.len() && lang(ns[0], #[trigger] x.take(j)) && seq_lang(ns.skip(1), x.skip(j))
    }
}

/// `x` splits into zero or more non-empty pieces, each in the language of `b`.
pub open spec fn star_lang(b: Node, x: Seq<char>) -> bool
    decreases b, x.len(), 1nat,
{
    x.len() == 0 || exists|j: int| 0 < j <= x.len() && lang(b, #[trigger] x.take(j)) && star_lang(b, x.skip(j))
}

} // verus!
