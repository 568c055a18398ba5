use vstd::prelude::*;
use crate::ast::{Node, lang, any_lang, seq_lang, star_lang};
use crate::engine::naive::{prefix_rest, first_rest, chain_rest, repeat_rest, is_prefix};
use crate::engine::vm::{Op, Program, code_of, concat_code, or_code, step, reaches, accepts, lemma_closed};

verus! {

broadcast use {vstd::std_specs::vec::axiom_vec_index_decreases, vstd::std_specs::vec::axiom_vec_decreases_to_view, vstd::seq::axiom_seq_index_decreases, vstd::seq::axiom_seq_subrange_decreases};

/// Some run leads from state `c` to state `d`.
pub open spec fn leads(p: Seq<Op>, s: Seq<char>, c: (int, int), d: (int, int)) -> bool {
    exists|k: nat| reaches(p, s, c, d, k)
}

/// `code` stands in `p` from index `b` on.
pub open spec fn embedded(p: Seq<Op>, b: int, code: Seq<Op>) -> bool {
    &&& 0 <= b
    &&& b + code.len() <= p.len()
    &&& forall|q: int| 0 <= q < code.len() ==> p[b + q] == #[trigger] code[q]
}

proof fn lemma_leads_refl(p: Seq<Op>, s: Seq<char>, c: (int, int))
    ensures
        leads(p, s, c, c),
{
    assert(reaches(p, s, c, c, 0));
}

proof fn lemma_reaches_trans(p: Seq<Op>, s: Seq<char>, c: (int, int), d: (int, int), e: (int, int), k1: nat, k2: nat)
    requires
        reaches(p, s, c, d, k1),
        reaches(p, s, d, e, k2),
    ensures
        reaches(p, s, c, e, k1 + k2),
    decreases k2,
{
    if k2 > 0 {
        let f = choose|f: (int, int)| reaches(p, s, d, f, (k2 - 1) as nat) && #[trigger] step(p, s, f, e);
        lemma_reaches_trans(p, s, c, d, f, k1, (k2 - 1) as nat);
        assert(reaches(p, s, c, e, k1 + k2));
    }
}

proof fn lemma_leads_trans(p: Seq<Op>, s: Seq<char>, c: (int, int), d: (int, int), e: (int, int))
    requires
        leads(p, s, c, d),
        leads(p, s, d, e),
    ensures
        leads(p, s, c, e),
{
    let k1 = choose|k: nat| reaches(p, s, c, d, k);
    let k2 = choose|k: nat| reaches(p, s, d, e, k);
    lemma_reaches_trans(p, s, c, d, e, k1, k2);
}

/// A single step is a run.
proof fn lemma_leads_step(p: Seq<Op>, s: Seq<char>, c: (int, int), d: (int, int), e: (int, int))
    requires
        leads(p, s, c, d),
        step(p, s, d, e),
    ensures
        leads(p, s, c, e),
{
    let k = choose|k: nat| reaches(p, s, c, d, k);
    assert(reaches(p, s, c, e, k + 1));
}

proof fn lemma_concat_code_first(ns: Seq<Node>)
    requires
        ns.len() > 0,
    ensures
        concat_code(ns) == code_of(ns[0]) + concat_code(ns.skip(1)),
    decreases ns.len(),
{
    if ns.len() == 1 {
        assert(ns.drop_last() =~= Seq::<Node>::empty());
        assert(ns.skip(1) =~= Seq::<Node>::empty());
        assert(concat_code(ns) =~= code_of(ns[0]) + concat_code(ns.skip(1)));
    } else {
        lemma_concat_code_first(ns.drop_last());
        assert(ns.drop_last().skip(1) =~= ns.skip(1).drop_last());
        assert(ns.skip(1).last() == ns.last());
        assert(concat_code(ns) =~= code_of(ns[0]) + concat_code(ns.skip(1)));
    }
}

/// The code of a part stands inside the code of the whole.
proof fn lemma_embedded_part(p: Seq<Op>, b: int, whole: Seq<Op>, off: int, part: Seq<Op>)
    requires
        embedded(p, b, whole),
        0 <= off,
        off + part.len() <= whole.len(),
        forall|q: int| 0 <= q < part.len() ==> whole[off + q] == #[trigger] part[q],
    ensures
        embedded(p, b + off, part),
{
    assert forall|q: int| 0 <= q < part.len() implies p[b + off + q] == #[trigger] part[q] by {
        assert(whole[off + q] == part[q]);
    }
}

/// A greedy match of the reference matcher, from cursor `i` to the cursor where
/// its rest begins, is a run through the pattern's code.
proof fn lemma_naive_leads(n: Node, p: Seq<Op>, b: int, s: Seq<char>, i: int, r: Seq<char>)
    requires
        embedded(p, b, code_of(n)),
        0 <= i <= s.len(),
        prefix_rest(n, s.skip(i)) == Some(r),
    ensures
        r.len() <= s.len() - i,
        r == s.skip(s.len() - r.len()),
        leads(p, s, (b, i), (b + code_of(n).len(), s.len() - r.len())),
    decreases n, s.len() - i, 0nat,
{
    match n {
        Node::Literal(t) => {
            let tl = t@.len() as int;
            assert(is_prefix(t@, s.skip(i)));
            assert(s.subrange(i, i + tl) =~= s.skip(i).subrange(0, tl));
            assert(r =~= s.skip(i + tl));
            assert(p[b + 0] == code_of(n)[0]);
            assert(step(p, s, (b, i), (b + 1, i + tl)));
            lemma_leads_refl(p, s, (b, i));
            lemma_leads_step(p, s, (b, i), (b, i), (b + 1, i + tl));
        },
        Node::Or(v) => {
            lemma_first_leads(v@, p, b, s, i, r);
        },
        Node::Concat(v) => {
            lemma_chain_leads(v@, p, b, s, i, r);
        },
        Node::Repeat(body) => {
            lemma_repeat_leads(*body, p, b, s, i, r);
        },
    }
}

proof fn lemma_first_leads(ns: Seq<Node>, p: Seq<Op>, b: int, s: Seq<char>, i: int, r: Seq<char>)
    requires
        embedded(p, b, or_code(ns)),
        0 <= i <= s.len(),
        first_rest(ns, s.skip(i)) == Some(r),
    ensures
        r.len() <= s.len() - i,
        r == s.skip(s.len() - r.len()),
        leads(p, s, (b, i), (b + or_code(ns).len(), s.len() - r.len())),
    decreases ns, s.len() - i, 0nat,
{
    let code = or_code(ns);
    let body = code_of(ns[0]);
    let rest = or_code(ns.skip(1));
    let bl = body.len() as int;
    let rl = rest.len() as int;
    assert(code == seq![Op::Fork(bl + 2)] + body + seq![Op::Jump(rl + 1)] + rest);
    assert(p[b + 0] == code[0]);
    lemma_leads_refl(p, s, (b, i));
    match prefix_rest(ns[0], s.skip(i)) {
        Some(r0) => {
            assert(step(p, s, (b, i), (b + 1, i)));
            lemma_leads_step(p, s, (b, i), (b, i), (b + 1, i));
            lemma_embedded_part(p, b, code, 1, body);
            lemma_naive_leads(ns[0], p, b + 1, s, i, r0);
            let j = s.len() - r.len();
            lemma_leads_trans(p, s, (b, i), (b + 1, i), (b + 1 + bl, j));
            assert(p[b + (1 + bl)] == code[1 + bl]);
            assert(step(p, s, (b + 1 + bl, j), (b + code.len(), j)));
            lemma_leads_step(p, s, (b, i), (b + 1 + bl, j), (b + code.len(), j));
        },
        None => {
            assert(step(p, s, (b, i), (b + bl + 2, i)));
            lemma_leads_step(p, s, (b, i), (b, i), (b + bl + 2, i));
            lemma_embedded_part(p, b, code, bl + 2, rest);
            lemma_first_leads(ns.skip(1), p, b + bl + 2, s, i, r);
            lemma_leads_trans(p, s, (b, i), (b + bl + 2, i), (b + code.len(), s.len() - r.len()));
        },
    }
}

proof fn lemma_chain_leads(ns: Seq<Node>, p: Seq<Op>, b: int, s: Seq<char>, i: int, r: Seq<char>)
    requires
        embedded(p, b, concat_code(ns)),
        0 <= i <= s.len(),
        chain_rest(ns, s.skip(i)) == Some(r),
    ensures
        r.len() <= s.len() - i,
        r == s.skip(s.len() - r.len()),
        leads(p, s, (b, i), (b + concat_code(ns).len(), s.len() - r.len())),
    decreases ns, s.len() - i, 0nat,
{
    if ns.len() == 0 {
        lemma_leads_refl(p, s, (b, i));
    } else {
        let code = concat_code(ns);
        lemma_concat_code_first(ns);
        let first = code_of(ns[0]);
        let fl = first.len() as int;
        let r0 = prefix_rest(ns[0], s.skip(i))->Some_0;
        lemma_embedded_part(p, b, code, 0, first);
        lemma_naive_leads(ns[0], p, b, s, i, r0);
        let j = s.len() - r0.len();
        lemma_embedded_part(p, b, code, fl, concat_code(ns.skip(1)));
        lemma_chain_leads(ns.skip(1), p, b + fl, s, j, r);
        lemma_leads_trans(p, s, (b, i), (b + fl, j), (b + code.len(), s.len() - r.len()));
    }
}

proof fn lemma_repeat_leads(body: Node, p: Seq<Op>, b: int, s: Seq<char>, i: int, r: Seq<char>)
    requires
        embedded(p, b, code_of(Node::Repeat(Box::new(body)))),
        0 <= i <= s.len(),
        repeat_rest(body, s.skip(i)) == Some(r),
    ensures
        r.len() <= s.len() - i,
        r == s.skip(s.len() - r.len()),
        leads(p, s, (b, i), (b + code_of(Node::Repeat(Box::new(body))).len(), s.len() - r.len())),
    decreases body, s.len() - i, 1nat,
{
    let code = code_of(Node::Repeat(Box::new(body)));
    let inner = code_of(body);
    let bl = inner.len() as int;
    assert(p[b + 0] == code[0]);
    lemma_leads_refl(p, s, (b, i));
    match prefix_rest(body, s.skip(i)) {
        Some(r1) => {
            if r1.len() < s.skip(i).len() {
                assert(step(p, s, (b, i), (b + 1, i)));
                lemma_leads_step(p, s, (b, i), (b, i), (b + 1, i));
                lemma_embedded_part(p, b, code, 1, inner);
                lemma_naive_leads(body, p, b + 1, s, i, r1);
                let j = s.len() - r1.len();
                lemma_leads_trans(p, s, (b, i), (b + 1, i), (b + 1 + bl, j));
                assert(p[b + (1 + bl)] == code[1 + bl]);
                assert(step(p, s, (b + 1 + bl, j), (b, j)));
                lemma_leads_step(p, s, (b, i), (b + 1 + bl, j), (b, j));
                lemma_repeat_leads(body, p, b, s, j, r);
                lemma_leads_trans(p, s, (b, i), (b, j), (b + code.len(), s.len() - r.len()));
            } else {
                assert(r =~= s.skip(i));
                assert(step(p, s, (b, i), (b + bl + 2, i)));
                lemma_leads_step(p, s, (b, i), (b, i), (b + bl + 2, i));
            }
        },
        None => {
            assert(r =~= s.skip(i));
            assert(step(p, s, (b, i), (b + bl + 2, i)));
            lemma_leads_step(p, s, (b, i), (b, i), (b + bl + 2, i));
        },
    }
}

/// Whenever the greedy reference matcher matches a pattern against the whole of
/// a subject, the compiled program accepts that subject too.
pub proof fn naive_match_implies_vm_match(n: Node, s: Seq<char>)
    requires
        prefix_rest(n, s) == Some(Seq::<char>::empty()),
    ensures
        accepts(code_of(n), s),
{
    let p = code_of(n);
    assert(s.skip(0) =~= s);
    lemma_naive_leads(n, p, 0, s, 0, Seq::<char>::empty());
    let k = choose|k: nat| reaches(p, s, (0, 0), (p.len() as int, s.len() as int), k);
}

/// The state at index `q` of the code of `n`, with cursor `sp`, is one that a run
/// entering that code with cursor `i` can be in.
spec fn inside(n: Node, s: Seq<char>, q: int, i: int, sp: int) -> bool
    decreases n,
{
    match n {
        Node::Literal(_) => q == 0 && sp == i,
        Node::Or(v) => or_inside(v@, s, q, i, sp),
        Node::Concat(v) => seq_inside(v@, s, q, i, sp),
        Node::Repeat(b) => {
            let bl = code_of(*b).len() as int;
            if q == 0 || q == bl + 1 {
                star_lang(*b, s.subrange(i, sp))
            } else {
                exists|j: int| i <= j <= sp && star_lang(*b, #[trigger] s.subrange(i, j)) && inside(*b, s, q - 1, j, sp)
            }
        },
    }
}

spec fn or_inside(ns: Seq<Node>, s: Seq<char>, q: int, i: int, sp: int) -> bool
    decreases ns,
{
    if ns.len() == 0 {
        q == 0 && sp == i
    } else {
        let bl = code_of(ns[0]).len() as int;
        if q == 0 {
            sp == i
        } else if q <= bl {
            inside(ns[0], s, q - 1, i, sp)
        } else if q == bl + 1 {
            lang(ns[0], s.subrange(i, sp))
        } else {
            or_inside(ns.skip(1), s, q - bl - 2, i, sp)
        }
    }
}

spec fn seq_inside(ns: Seq<Node>, s: Seq<char>, q: int, i: int, sp: int) -> bool
    decreases ns,
{
    if ns.len() == 0 {
        false
    } else {
        let fl = code_of(ns[0]).len() as int;
        if q < fl {
            inside(ns[0], s, q, i, sp)
        } else {
            exists|j: int| i <= j <= sp && lang(ns[0], #[trigger] s.subrange(i, j)) && seq_inside(ns.skip(1), s, q - fl, j, sp)
        }
    }
}

proof fn lemma_entry(n: Node, s: Seq<char>, i: int)
    requires
        0 <= i <= s.len(),
    ensures
        code_of(n).len() == 0 ==> lang(n, Seq::<char>::empty()),
        code_of(n).len() > 0 ==> inside(n, s, 0, i, i),
    decreases n,
{
    match n {
        Node::Literal(t) => {
            assert(code_of(n).len() == 1);
            assert(inside(n, s, 0, i, i));
        },
        Node::Or(v) => {
            assert(code_of(n) == or_code(v@));
            assert(or_code(v@).len() > 0);
            assert(or_inside(v@, s, 0, i, i));
        },
        Node::Concat(v) => {
            lemma_seq_entry(v@, s, i);
        },
        Node::Repeat(b) => {
            assert(s.subrange(i, i).len() == 0);
        },
    }
}

proof fn lemma_seq_entry(ns: Seq<Node>, s: Seq<char>, i: int)
    requires
        0 <= i <= s.len(),
    ensures
        concat_code(ns).len() == 0 ==> seq_lang(ns, Seq::<char>::empty()),
        concat_code(ns).len() > 0 ==> seq_inside(ns, s, 0, i, i),
    decreases ns,
{
    if ns.len() > 0 {
        lemma_concat_code_first(ns);
        lemma_entry(ns[0], s, i);
        lemma_seq_entry(ns.skip(1), s, i);
        let e = Seq::<char>::empty();
        if code_of(ns[0]).len() == 0 {
            assert(s.subrange(i, i) =~= e);
            assert(e.take(0) =~= e);
            assert(e.skip(0) =~= e);
            assert(lang(ns[0], e.take(0)));
            if concat_code(ns.skip(1)).len() > 0 {
                assert(lang(ns[0], s.subrange(i, i)));
            }
        }
    }
}

proof fn lemma_star_append(b: Node, x: Seq<char>, y: Seq<char>)
    requires
        star_lang(b, x),
        lang(b, y),
    ensures
        star_lang(b, x + y),
    decreases x.len(),
{
    if y.len() == 0 {
        assert(x + y =~= x);
    } else if x.len() == 0 {
        assert(x + y =~= y);
        assert(y.take(y.len() as int) =~= y);
        assert(y.skip(y.len() as int).len() == 0);
        assert(lang(b, (x + y).take(y.len() as int)));
        assert(star_lang(b, (x + y).skip(y.len() as int)));
    } else {
        let j = choose|j: int| 0 < j <= x.len() && lang(b, #[trigger] x.take(j)) && star_lang(b, x.skip(j));
        lemma_star_append(b, x.skip(j), y);
        assert((x + y).take(j) =~= x.take(j));
        assert((x + y).skip(j) =~= x.skip(j) + y);
        assert(lang(b, (x + y).take(j)));
    }
}

/// One step from a state inside the code of `n` stays inside it, or leaves it at
/// its end with the consumed text in the language of `n`.
proof fn lemma_block_step(n: Node, p: Seq<Op>, b: int, s: Seq<char>, q: int, i: int, sp: int, d: (int, int))
    requires
        embedded(p, b, code_of(n)),
        0 <= q < code_of(n).len(),
        0 <= i <= sp <= s.len(),
        inside(n, s, q, i, sp),
        step(p, s, (b + q, sp), d),
    ensures
        sp <= d.1 <= s.len(),
        (b <= d.0 < b + code_of(n).len() && inside(n, s, d.0 - b, i, d.1)) || (d.0 == b + code_of(n).len()
            && lang(n, s.subrange(i, d.1))),
    decreases n,
{
    let code = code_of(n);
    assert(p[b + q] == code[q]);
    match n {
        Node::Literal(t) => {},
        Node::Or(v) => {
            lemma_or_step(v@, p, b, s, q, i, sp, d);
        },
        Node::Concat(v) => {
            lemma_seq_step(v@, p, b, s, q, i, sp, d);
        },
        Node::Repeat(body) => {
            let inner = code_of(*body);
            let bl = inner.len() as int;
            if q == 0 {
                if d == (b + 1, sp) && bl > 0 {
                    lemma_entry(*body, s, sp);
                    assert(star_lang(*body, s.subrange(i, sp)) && inside(*body, s, 0, sp, sp));
                }
            } else if q == bl + 1 {
            } else {
                let j = choose|j: int| i <= j <= sp && star_lang(*body, #[trigger] s.subrange(i, j)) && inside(*body, s, q - 1, j, sp);
                lemma_embedded_part(p, b, code, 1, inner);
                lemma_block_step(*body, p, b + 1, s, q - 1, j, sp, d);
                if d.0 == b + 1 + bl {
                    lemma_star_append(*body, s.subrange(i, j), s.subrange(j, d.1));
                    assert(s.subrange(i, j) + s.subrange(j, d.1) =~= s.subrange(i, d.1));
                } else {
                    assert(star_lang(*body, s.subrange(i, j)) && inside(*body, s, d.0 - b - 1, j, d.1));
                }
            }
        },
    }
}

proof fn lemma_or_step(ns: Seq<Node>, p: Seq<Op>, b: int, s: Seq<char>, q: int, i: int, sp: int, d: (int, int))
    requires
        embedded(p, b, or_code(ns)),
        0 <= q < or_code(ns).len(),
        0 <= i <= sp <= s.len(),
        or_inside(ns, s, q, i, sp),
        step(p, s, (b + q, sp), d),
    ensures
        sp <= d.1 <= s.len(),
        (b <= d.0 < b + or_code(ns).len() && or_inside(ns, s, d.0 - b, i, d.1)) || (d.0 == b + or_code(ns).len()
            && any_lang(ns, s.subrange(i, d.1))),
    decreases ns,
{
    let code = or_code(ns);
    assert(p[b + q] == code[q]);
    if ns.len() > 0 {
        let body = code_of(ns[0]);
        let rest = or_code(ns.skip(1));
        let bl = body.len() as int;
        let rl = rest.len() as int;
        assert(code == seq![Op::Fork(bl + 2)] + body + seq![Op::Jump(rl + 1)] + rest);
        assert(rl > 0);
        if q == 0 {
            lemma_entry(ns[0], s, i);
            assert(s.subrange(i, i) =~= Seq::<char>::empty());
            assert(or_inside(ns.skip(1), s, 0, i, i));
        } else if q <= bl {
            lemma_embedded_part(p, b, code, 1, body);
            lemma_block_step(ns[0], p, b + 1, s, q - 1, i, sp, d);
        } else if q == bl + 1 {
        } else {
            lemma_embedded_part(p, b, code, bl + 2, rest);
            lemma_or_step(ns.skip(1), p, b + bl + 2, s, q - bl - 2, i, sp, d);
        }
    }
}

proof fn lemma_seq_step(ns: Seq<Node>, p: Seq<Op>, b: int, s: Seq<char>, q: int, i: int, sp: int, d: (int, int))
    requires
        embedded(p, b, concat_code(ns)),
        0 <= q < concat_code(ns).len(),
        0 <= i <= sp <= s.len(),
        seq_inside(ns, s, q, i, sp),
        step(p, s, (b + q, sp), d),
    ensures
        sp <= d.1 <= s.len(),
        (b <= d.0 < b + concat_code(ns).len() && seq_inside(ns, s, d.0 - b, i, d.1)) || (d.0 == b
            + concat_code(ns).len() && seq_lang(ns, s.subrange(i, d.1))),
    decreases ns,
{
    let code = concat_code(ns);
    if ns.len() == 0 {
        assert(false);
    }
    lemma_concat_code_first(ns);
    let first = code_of(ns[0]);
    let tail = concat_code(ns.skip(1));
    let fl = first.len() as int;
    let tl = tail.len() as int;
    if q < fl {
        lemma_embedded_part(p, b, code, 0, first);
        lemma_block_step(ns[0], p, b, s, q, i, sp, d);
        if d.0 == b + fl {
            let d1 = d.1;
            lemma_seq_entry(ns.skip(1), s, d1);
            if tl > 0 {
                assert(lang(ns[0], s.subrange(i, d1)) && seq_inside(ns.skip(1), s, 0, d1, d1));
            } else {
                let x = s.subrange(i, d1);
                assert(x.take(d1 - i) =~= x);
                assert(x.skip(d1 - i) =~= Seq::<char>::empty());
                assert(lang(ns[0], x.take(d1 - i)));
            }
        }
    } else {
        let j = choose|j: int| i <= j <= sp && lang(ns[0], #[trigger] s.subrange(i, j)) && seq_inside(ns.skip(1), s, q - fl, j, sp);
        lemma_embedded_part(p, b, code, fl, tail);
        lemma_seq_step(ns.skip(1), p, b + fl, s, q - fl, j, sp, d);
        if d.0 == b + fl + tl {
            let x = s.subrange(i, d.1);
            assert(x.take(j - i) =~= s.subrange(i, j));
            assert(x.skip(j - i) =~= s.subrange(j, d.1));
            assert(lang(ns[0], x.take(j - i)));
        } else {
            assert(lang(ns[0], s.subrange(i, j)) && seq_inside(ns.skip(1), s, d.0 - b - fl, j, d.1));
        }
    }
}

/// The compiled program accepts only subjects in the pattern's language.
pub proof fn vm_match_implies_language(n: Node, s: Seq<char>)
    requires
        accepts(code_of(n), s),
    ensures
        lang(n, s),
{
    let p = code_of(n);
    let len = p.len() as int;
    let v = Set::new(|c: (int, int)| 0 <= c.1 <= s.len() && ((0 <= c.0 < len && inside(n, s, c.0, 0, c.1)) || (c.0 == len
        && lang(n, s.subrange(0, c.1)))));
    assert forall|q: int| 0 <= q < p.len() implies p[0 + q] == #[trigger] p[q] by {}
    assert forall|c: (int, int), e: (int, int)| v.contains(c) && #[trigger] step(p, s, c, e) implies v.contains(e) by {
        lemma_block_step(n, p, 0, s, c.0, 0, c.1, e);
    }
    lemma_entry(n, s, 0);
    assert(s.subrange(0, 0) =~= Seq::<char>::empty());
    assert(v.contains((0, 0)));
    let k = choose|k: nat| reaches(p, s, (0, 0), (len, s.len() as int), k);
    lemma_closed(p, s, v, (len, s.len() as int), k);
    assert(s.subrange(0, s.len() as int) =~= s);
}

/// A piece of the subject in the language of `n` is a run through the code of `n`.
proof fn lemma_lang_leads(n: Node, p: Seq<Op>, b: int, s: Seq<char>, i: int, j: int)
    requires
        embedded(p, b, code_of(n)),
        0 <= i <= j <= s.len(),
        lang(n, s.subrange(i, j)),
    ensures
        leads(p, s, (b, i), (b + code_of(n).len(), j)),
    decreases n, j - i, 0nat,
{
    lemma_leads_refl(p, s, (b, i));
    match n {
        Node::Literal(t) => {
            assert(p[b + 0] == code_of(n)[0]);
            assert(step(p, s, (b, i), (b + 1, j)));
            lemma_leads_step(p, s, (b, i), (b, i), (b + 1, j));
        },
        Node::Or(v) => {
            lemma_any_leads(v@, p, b, s, i, j);
        },
        Node::Concat(v) => {
            lemma_seq_lang_leads(v@, p, b, s, i, j);
        },
        Node::Repeat(body) => {
            lemma_star_leads(*body, p, b, s, i, j);
        },
    }
}

proof fn lemma_any_leads(ns: Seq<Node>, p: Seq<Op>, b: int, s: Seq<char>, i: int, j: int)
    requires
        embedded(p, b, or_code(ns)),
        0 <= i <= j <= s.len(),
        any_lang(ns, s.subrange(i, j)),
    ensures
        leads(p, s, (b, i), (b + or_code(ns).len(), j)),
    decreases ns, j - i, 0nat,
{
    let code = or_code(ns);
    let body = code_of(ns[0]);
    let rest = or_code(ns.skip(1));
    let bl = body.len() as int;
    let rl = rest.len() as int;
    assert(code == seq![Op::Fork(bl + 2)] + body + seq![Op::Jump(rl + 1)] + rest);
    assert(p[b + 0] == code[0]);
    lemma_leads_refl(p, s, (b, i));
    if lang(ns[0], s.subrange(i, j)) {
        assert(step(p, s, (b, i), (b + 1, i)));
        lemma_leads_step(p, s, (b, i), (b, i), (b + 1, i));
        lemma_embedded_part(p, b, code, 1, body);
        lemma_lang_leads(ns[0], p, b + 1, s, i, j);
        lemma_leads_trans(p, s, (b, i), (b + 1, i), (b + 1 + bl, j));
        assert(p[b + (1 + bl)] == code[1 + bl]);
        assert(step(p, s, (b + 1 + bl, j), (b + code.len(), j)));
        lemma_leads_step(p, s, (b, i), (b + 1 + bl, j), (b + code.len(), j));
    } else {
        assert(step(p, s, (b, i), (b + bl + 2, i)));
        lemma_leads_step(p, s, (b, i), (b, i), (b + bl + 2, i));
        lemma_embedded_part(p, b, code, bl + 2, rest);
        lemma_any_leads(ns.skip(1), p, b + bl + 2, s, i, j);
        lemma_leads_trans(p, s, (b, i), (b + bl + 2, i), (b + code.len(), j));
    }
}

proof fn lemma_seq_lang_leads(ns: Seq<Node>, p: Seq<Op>, b: int, s: Seq<char>, i: int, j: int)
    requires
        embedded(p, b, concat_code(ns)),
        0 <= i <= j <= s.len(),
        seq_lang(ns, s.subrange(i, j)),
    ensures
        leads(p, s, (b, i), (b + concat_code(ns).len(), j)),
    decreases ns, j - i, 0nat,
{
    if ns.len() == 0 {
        lemma_leads_refl(p, s, (b, i));
    } else {
        let code = concat_code(ns);
        lemma_concat_code_first(ns);
        let first = code_of(ns[0]);
        let fl = first.len() as int;
        let x = s.subrange(i, j);
        let k = choose|k: int| 0 <= k <= x.len() && lang(ns[0], #[trigger] x.take(k)) && seq_lang(ns.skip(1), x.skip(k));
        assert(x.take(k) =~= s.subrange(i, i + k));
        assert(x.skip(k) =~= s.subrange(i + k, j));
        lemma_embedded_part(p, b, code, 0, first);
        lemma_lang_leads(ns[0], p, b, s, i, i + k);
        lemma_embedded_part(p, b, code, fl, concat_code(ns.skip(1)));
        lemma_seq_lang_leads(ns.skip(1), p, b + fl, s, i + k, j);
        lemma_leads_trans(p, s, (b, i), (b + fl, i + k), (b + code.len(), j));
    }
}

proof fn lemma_star_leads(body: Node, p: Seq<Op>, b: int, s: Seq<char>, i: int, j: int)
    requires
        embedded(p, b, code_of(Node::Repeat(Box::new(body)))),
        0 <= i <= j <= s.len(),
        star_lang(body, s.subrange(i, j)),
    ensures
        leads(p, s, (b, i), (b + code_of(Node::Repeat(Box::new(body))).len(), j)),
    decreases body, j - i, 1nat,
{
    let code = code_of(Node::Repeat(Box::new(body)));
    let inner = code_of(body);
    let bl = inner.len() as int;
    assert(p[b + 0] == code[0]);
    lemma_leads_refl(p, s, (b, i));
    if i == j {
        assert(step(p, s, (b, i), (b + bl + 2, i)));
        lemma_leads_step(p, s, (b, i), (b, i), (b + bl + 2, i));
    } else {
        let x = s.subrange(i, j);
        let k = choose|k: int| 0 < k <= x.len() && lang(body, #[trigger] x.take(k)) && star_lang(body, x.skip(k));
        assert(x.take(k) =~= s.subrange(i, i + k));
        assert(x.skip(k) =~= s.subrange(i + k, j));
        assert(step(p, s, (b, i), (b + 1, i)));
        lemma_leads_step(p, s, (b, i), (b, i), (b + 1, i));
        lemma_embedded_part(p, b, code, 1, inner);
        lemma_lang_leads(body, p, b + 1, s, i, i + k);
        lemma_leads_trans(p, s, (b, i), (b + 1, i), (b + 1 + bl, i + k));
        assert(p[b + (1 + bl)] == code[1 + bl]);
        assert(step(p, s, (b + 1 + bl, i + k), (b, i + k)));
        lemma_leads_step(p, s, (b, i), (b + 1 + bl, i + k), (b, i + k));
        lemma_star_leads(body, p, b, s, i + k, j);
        lemma_leads_trans(p, s, (b, i), (b, i + k), (b + code.len(), j));
    }
}

/// The compiled program accepts a subject exactly when the subject belongs to the
/// pattern's language.
pub proof fn vm_match_is_language(n: Node, s: Seq<char>)
    ensures
        accepts(code_of(n), s) == lang(n, s),
{
    if accepts(code_of(n), s) {
        vm_match_implies_language(n, s);
    }
    if lang(n, s) {
        let p = code_of(n);
        assert(s.subrange(0, s.len() as int) =~= s);
        assert forall|q: int| 0 <= q < p.len() implies p[0 + q] == #[trigger] p[q] by {}
        lemma_lang_leads(n, p, 0, s, 0, s.len() as int);
        let k = choose|k: nat| reaches(p, s, (0, 0), (p.len() as int, s.len() as int), k);
    }
}

/// A compiled literal accepts exactly its own text.
pub proof fn literal_matches_exactly(n: Node, s: Seq<char>)
    requires
        n is Literal,
    ensures
        accepts(code_of(n), s) <==> s == n->Literal_0@,
{
    vm_match_is_language(n, s);
}

/// A compiled alternation of two literals accepts exactly the text of either one.
pub proof fn alternation_of_two_literals(n: Node, s: Seq<char>)
    requires
        n is Or,
        n->Or_0@.len() == 2,
        n->Or_0@[0] is Literal,
        n->Or_0@[1] is Literal,
    ensures
        accepts(code_of(n), s) <==> (s == n->Or_0@[0]->Literal_0@ || s == n->Or_0@[1]->Literal_0@),
{
    let v = n->Or_0@;
    vm_match_is_language(n, s);
    assert(v.skip(1)[0] == v[1]);
    assert(v.skip(1).skip(1).len() == 0);
    assert(any_lang(v.skip(1), s) == (lang(v[1], s) || any_lang(v.skip(1).skip(1), s)));
    assert(!any_lang(v.skip(1).skip(1), s));
    assert(lang(n, s) == any_lang(v, s));
    assert(any_lang(v, s) == (lang(v[0], s) || any_lang(v.skip(1), s)));
    assert(lang(v[0], s) == (s == v[0]->Literal_0@));
    assert(lang(v[1], s) == (s == v[1]->Literal_0@));
}

/// A compiled concatenation of two literals accepts exactly their texts joined.
pub proof fn concatenation_of_two_literals(n: Node, s: Seq<char>)
    requires
        n is Concat,
        n->Concat_0@.len() == 2,
        n->Concat_0@[0] is Literal,
        n->Concat_0@[1] is Literal,
    ensures
        accepts(code_of(n), s) <==> s == n->Concat_0@[0]->Literal_0@ + n->Concat_0@[1]->Literal_0@,
{
    let v = n->Concat_0@;
    let a = v[0]->Literal_0@;
    let b = v[1]->Literal_0@;
    let rest = v.skip(1);
    vm_match_is_language(n, s);
    assert(rest[0] == v[1]);
    assert(rest.skip(1).len() == 0);
    if lang(n, s) {
        let k = choose|k: int| 0 <= k <= s.len() && lang(v[0], #[trigger] s.take(k)) && seq_lang(rest, s.skip(k));
        let y = s.skip(k);
        let k2 = choose|k2: int| 0 <= k2 <= y.len() && lang(rest[0], #[trigger] y.take(k2)) && seq_lang(rest.skip(1), y.skip(k2));
        assert(y.skip(k2).len() == 0);
        assert(s =~= s.take(k) + y.take(k2));
    }
    if s == a + b {
        let k = a.len() as int;
        let y = s.skip(k);
        assert(s.take(k) =~= a);
        assert(y =~= b);
        assert(y.take(b.len() as int) =~= b);
        assert(y.skip(b.len() as int).len() == 0);
        assert(seq_lang(rest.skip(1), y.skip(b.len() as int)));
        assert(lang(rest[0], y.take(b.len() as int)));
        assert(seq_lang(rest, y));
        assert(lang(v[0], s.take(k)));
    }
}

proof fn lemma_star_of_char(b: Node, x: Seq<char>)
    requires
        b is Literal,
        b->Literal_0@.len() == 1,
    ensures
        star_lang(b, x) <==> forall|i: int| 0 <= i < x.len() ==> x[i] == b->Literal_0@[0],
    decreases x.len(),
{
    let t = b->Literal_0@;
    let c = t[0];
    if x.len() > 0 {
        lemma_star_of_char(b, x.skip(1));
        if star_lang(b, x) {
            let j = choose|j: int| 0 < j <= x.len() && lang(b, #[trigger] x.take(j)) && star_lang(b, x.skip(j));
            assert(j == 1);
            assert(x[0] == x.take(1)[0]);
            assert forall|i: int| 0 <= i < x.len() implies x[i] == c by {
                if i > 0 {
                    assert(x[i] == x.skip(1)[i - 1]);
                }
            }
        }
        if forall|i: int| 0 <= i < x.len() ==> x[i] == c {
            assert(x.take(1) =~= t);
            assert forall|i: int| 0 <= i < x.skip(1).len() implies x.skip(1)[i] == c by {
                assert(x.skip(1)[i] == x[i + 1]);
            }
            assert(lang(b, x.take(1)));
        }
    }
}

/// A compiled repetition of a one-character literal accepts exactly the strings
/// made only of that character, the empty string included.
pub proof fn star_of_one_character(n: Node, s: Seq<char>)
    requires
        n is Repeat,
        *n->Repeat_0 is Literal,
        n->Repeat_0->Literal_0@.len() == 1,
    ensures
        accepts(code_of(n), s) <==> forall|i: int| 0 <= i < s.len() ==> s[i] == n->Repeat_0->Literal_0@[0],
{
    vm_match_is_language(n, s);
    lemma_star_of_char(*n->Repeat_0, s);
}

/// Two programs compiled from the same pattern are the same program, and accept
/// the same subjects.
pub proof fn compilation_is_deterministic(n: Node, a: Program, b: Program, s: Seq<char>)
    requires
        a@ == code_of(n),
        b@ == code_of(n),
    ensures
        a@ == b@,
        accepts(a@, s) == accepts(b@, s),
{
}

} // verus!
