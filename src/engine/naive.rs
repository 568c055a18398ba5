use vstd::prelude::*;
use vstd::string::*;
use crate::ast::Node;

verus! {

broadcast use {vstd::std_specs::vec::axiom_vec_index_decreases, vstd::std_specs::vec::axiom_vec_decreases_to_view, vstd::seq::axiom_seq_index_decreases, vstd::seq::axiom_seq_subrange_decreases};

/// `p` is a prefix of `t`.
pub open spec fn is_prefix(p: Seq<char>, t: Seq<char>) -> bool {
    p.len() <= t.len() && t.subrange(0, p.len() as int) == p
}

/// What is left of `s` after the pattern matched a prefix of it, greedily and
/// without backtracking; `None` when it does not match.
pub open spec fn prefix_rest(n: Node, s: Seq<char>) -> Option<Seq<char>>
    decreases n, s.len(), 0nat,
{
    match n {
        Node::Literal(t) => if is_prefix(t@, s) {
            Some(s.skip(t@.len() as int))
        } else {
            None
        },
        Node::Or(v) => first_rest(v@, s),
        Node::Concat(v) => chain_rest(v@, s),
        Node::Repeat(b) => repeat_rest(*b, s),
    }
}

/// The rest left by the first alternative that matches.
pub open spec fn first_rest(ns: Seq<Node>, s: Seq<char>) -> Option<Seq<char>>
    decreases ns, s.len(), 0nat,
{
    if ns.len() == 0 {
        None
    } else {
        match prefix_rest(ns[0], s) {
            Some(r) => Some(r),
            None => first_rest(ns.skip(1), s),
        }
    }
}

/// The rest left by matching each part in turn on what the previous one left.
pub open spec fn chain_rest(ns: Seq<Node>, s: Seq<char>) -> Option<Seq<char>>
    decreases ns, s.len(), 0nat,
{
    if ns.len() == 0 {
        Some(s)
    } else {
        match prefix_rest(ns[0], s) {
            Some(r) => chain_rest(ns.skip(1), r),
            None => None,
        }
    }
}

/// The rest left by matching `b` as often as it matches; a match that consumes
/// nothing ends the repetition.
pub open spec fn repeat_rest(b: Node, s: Seq<char>) -> Option<Seq<char>>
    decreases b, s.len(), 1nat,
{
    match prefix_rest(b, s) {
        Some(r) => if r.len() < s.len() {
            repeat_rest(b, r)
        } else {
            Some(s)
        },
        None => Some(s),
    }
}

/// Whether `target` starts with `prefix`.
pub fn is_prefix_of(prefix: &str, target: &str) -> (r: bool)
    ensures
        r == is_prefix(prefix@, target@),
{
    let pl = prefix.unicode_len();
    let tl = target.unicode_len();
    if pl > tl {
        return false;
    }
    let mut i: usize = 0;
    while i < pl
        invariant
            pl == prefix@.len(),
            tl == target@.len(),
            pl <= tl,
            i <= pl,
            forall|j: int| 0 <= j < i ==> target@[j] == prefix@[j],
        decreases pl - i,
    {
        if prefix.get_char(i) != target.get_char(i) {
            assert(target@.subrange(0, pl as int)[i as int] != prefix@[i as int]);
            return false;
        }
        i += 1;
    }
    assert(target@.subrange(0, pl as int) =~= prefix@);
    true
}

/// Matches `node` against a prefix of `target`, greedily and without
/// backtracking. `Ok` holds what is left of `target`; `Err` holds `target`.
pub fn match_prefix<'a>(node: &Node, target: &'a str) -> (r: Result<&'a str, &'a str>)
    ensures
        match prefix_rest(*node, target@) {
            Some(x) => r is Ok && r->Ok_0@ == x,
            None => r is Err && r->Err_0@ == target@,
        },
    decreases node,
{
    match node {
        Node::Literal(prefix) => {
            if is_prefix_of(prefix.as_str(), target) {
                let pl = prefix.as_str().unicode_len();
                let tl = target.unicode_len();
                let left = target.substring_char(pl, tl);
                assert(left@ =~= target@.skip(pl as int));
                Ok(left)
            } else {
                Err(target)
            }
        },
        Node::Or(nodes) => {
            let mut i: usize = 0;
            assert(nodes@.subrange(0, nodes.len() as int) =~= nodes@);
            while i < nodes.len()
                invariant
                    i <= nodes.len(),
                    *node == Node::Or(*nodes),
                    first_rest(nodes@, target@) == first_rest(nodes@.subrange(i as int, nodes.len() as int), target@),
                decreases nodes.len() - i,
            {
                let ghost tail = nodes@.subrange(i as int, nodes.len() as int);
                proof {
                    assert(tail.skip(1) =~= nodes@.subrange(i as int + 1, nodes.len() as int));
                    assert(tail[0] == nodes@[i as int]);
                    assert(decreases_to!(*nodes => nodes[i as int]));
                    assert(decreases_to!(*node => *nodes));
                }
                match match_prefix(&nodes[i], target) {
                    Ok(left) => {
                        return Ok(left);
                    },
                    Err(_) => {},
                }
                i += 1;
            }
            Err(target)
        },
        Node::Concat(nodes) => {
            let mut left = target;
            let mut i: usize = 0;
            assert(nodes@.subrange(0, nodes.len() as int) =~= nodes@);
            while i < nodes.len()
                invariant
                    i <= nodes.len(),
                    *node == Node::Concat(*nodes),
                    chain_rest(nodes@, target@) == chain_rest(nodes@.subrange(i as int, nodes.len() as int), left@),
                decreases nodes.len() - i,
            {
                let ghost tail = nodes@.subrange(i as int, nodes.len() as int);
                proof {
                    assert(tail.skip(1) =~= nodes@.subrange(i as int + 1, nodes.len() as int));
                    assert(tail[0] == nodes@[i as int]);
                    assert(decreases_to!(*nodes => nodes[i as int]));
                    assert(decreases_to!(*node => *nodes));
                }
                match match_prefix(&nodes[i], left) {
                    Ok(new_left) => {
                        left = new_left;
                    },
                    Err(_) => {
                        return Err(target);
                    },
                }
                i += 1;
            }
            Ok(left)
        },
        Node::Repeat(inner) => {
            let mut left = target;
            let mut len = left.unicode_len();
            loop
                invariant
                    *node == Node::Repeat(*inner),
                    len == left@.len(),
                    prefix_rest(*node, target@) == repeat_rest(**inner, left@),
                decreases len,
            {
                match match_prefix(inner, left) {
                    Ok(new_left) => {
                        let new_len = new_left.unicode_len();
                        if new_len < len {
                            left = new_left;
                            len = new_len;
                        } else {
                            return Ok(left);
                        }
                    },
                    Err(_) => {
                        return Ok(left);
                    },
                }
            }
        },
    }
}

/// Whether `node` matches the whole of `target` by the greedy reference rules.
pub fn test(node: &Node, target: &str) -> (r: bool)
    ensures
        r == (prefix_rest(*node, target@) == Some(Seq::<char>::empty())),
{
    match match_prefix(node, target) {
        Ok(left) => {
            let r = left.is_empty();
            assert(r ==> left@ =~= Seq::<char>::empty());
            r
        },
        Err(_) => false,
    }
}

} // verus!
