use vstd::prelude::*;
use vstd::string::*;
use crate::ast::Node;

verus! {

broadcast use {vstd::std_specs::vec::axiom_vec_index_decreases, vstd::std_specs::vec::axiom_vec_decreases_to_view, vstd::seq::axiom_seq_index_decreases, vstd::seq::axiom_seq_subrange_decreases};

/// One bytecode instruction. Offsets are relative to the instruction's own index.
#[derive(Debug)]
pub enum OpCode {
    /// Require the subject to continue with these characters, and step over them.
    Consume(Vec<char>),
    /// Keep the offset's target as an alternative, continue with the next instruction.
    Fork(isize),
    /// Continue at the offset's target.
    Jump(isize),
    /// End this execution state without a match.
    Fail,
}

/// The mathematical form of an instruction.
pub enum Op {
    Consume(Seq<char>),
    Fork(int),
    Jump(int),
    Fail,
}

impl View for OpCode {
    type V = Op;

    open spec fn view(&self) -> Op {
        match self {
            OpCode::Consume(t) => Op::Consume(t@),
            OpCode::Fork(d) => Op::Fork(*d as int),
            OpCode::Jump(d) => Op::Jump(*d as int),
            OpCode::Fail => Op::Fail,
        }
    }
}

/// The mathematical form of a sequence of instructions.
pub open spec fn ops(codes: Seq<OpCode>) -> Seq<Op> {
    codes.map_values(|c: OpCode| c@)
}

/// The code emitted for a pattern.
pub open spec fn code_of(n: Node) -> Seq<Op>
    decreases n,
{
    match n {
        Node::Literal(t) => seq![Op::Consume(t@)],
        Node::Concat(v) => concat_code(v@),
        Node::Or(v) => or_code(v@),
        Node::Repeat(b) => {
            let body = code_of(*b);
            let blen = body.len() as int;
            let back = -(blen + 1);
            seq![Op::Fork(blen + 2)] + body + seq![Op::Jump(back)]
        },
    }
}

/// The code of each part, one after another, with nothing between them.
pub open spec fn concat_code(ns: Seq<Node>) -> Seq<Op>
    decreases ns,
{
    if ns.len() == 0 {
        seq![]
    } else {
        concat_code(ns.drop_last()) + code_of(ns.last())
    }
}

/// For each branch a fork to the next branch, its code and a jump past the whole
/// block; after the last branch a `Fail`.
pub open spec fn or_code(ns: Seq<Node>) -> Seq<Op>
    decreases ns,
{
    if ns.len() == 0 {
        seq![Op::Fail]
    } else {
        let body = code_of(ns[0]);
        let rest = or_code(ns.skip(1));
        let blen = body.len() as int;
        let rlen = rest.len() as int;
        seq![Op::Fork(blen + 2)] + body + seq![Op::Jump(rlen + 1)] + rest
    }
}

/// The fork or jump at index `q`, if any, targets an index in `[0, p.len()]`.
pub open spec fn target_ok(p: Seq<Op>, q: int) -> bool {
    match p[q] {
        Op::Fork(o) => 0 <= q + o <= p.len(),
        Op::Jump(o) => 0 <= q + o <= p.len(),
        _ => true,
    }
}

/// Every fork and jump of `p` targets an index in `[0, p.len()]`.
pub open spec fn targets_in_range(p: Seq<Op>) -> bool {
    forall|q: int| 0 <= q < p.len() ==> #[trigger] target_ok(p, q)
}

proof fn lemma_part_in_range(whole: Seq<Op>, off: int, part: Seq<Op>, q: int)
    requires
        0 <= off,
        off + part.len() <= whole.len(),
        whole.subrange(off, off + part.len()) == part,
        targets_in_range(part),
        off <= q < off + part.len(),
    ensures
        target_ok(whole, q),
{
    assert(target_ok(part, q - off));
    assert(whole[q] == part[q - off]);
}

/// Compiled code never forks or jumps outside itself.
pub proof fn lemma_code_in_range(n: Node)
    ensures
        targets_in_range(code_of(n)),
    decreases n,
{
    let code = code_of(n);
    match n {
        Node::Literal(t) => {
            assert forall|q: int| 0 <= q < code.len() implies #[trigger] target_ok(code, q) by {
                assert(code[q] == Op::Consume(t@));
            }
        },
        Node::Concat(v) => {
            lemma_concat_in_range(v@);
        },
        Node::Or(v) => {
            lemma_or_in_range(v@);
        },
        Node::Repeat(b) => {
            lemma_code_in_range(*b);
            let body = code_of(*b);
            let bl = body.len() as int;
            assert(code.subrange(1, 1 + bl) =~= body);
            assert forall|q: int| 0 <= q < code.len() implies #[trigger] target_ok(code, q) by {
                if 1 <= q <= bl {
                    lemma_part_in_range(code, 1, body, q);
                }
            }
        },
    }
}

proof fn lemma_concat_in_range(ns: Seq<Node>)
    ensures
        targets_in_range(concat_code(ns)),
    decreases ns,
{
    if ns.len() > 0 {
        lemma_concat_in_range(ns.drop_last());
        lemma_code_in_range(ns.last());
        let a = concat_code(ns.drop_last());
        let b = code_of(ns.last());
        let code = concat_code(ns);
        assert(code.subrange(0, a.len() as int) =~= a);
        assert(code.subrange(a.len() as int, (a.len() + b.len()) as int) =~= b);
        assert forall|q: int| 0 <= q < code.len() implies #[trigger] target_ok(code, q) by {
            if q < a.len() {
                lemma_part_in_range(code, 0, a, q);
            } else {
                lemma_part_in_range(code, a.len() as int, b, q);
            }
        }
    }
}

proof fn lemma_or_in_range(ns: Seq<Node>)
    ensures
        targets_in_range(or_code(ns)),
    decreases ns,
{
    let code = or_code(ns);
    if ns.len() == 0 {
        assert forall|q: int| 0 <= q < code.len() implies #[trigger] target_ok(code, q) by {
            assert(code[q] == Op::Fail);
        }
    } else {
        lemma_code_in_range(ns[0]);
        lemma_or_in_range(ns.skip(1));
        let body = code_of(ns[0]);
        let rest = or_code(ns.skip(1));
        let bl = body.len() as int;
        let rl = rest.len() as int;
        assert(rl >= 1);
        assert(code.subrange(1, 1 + bl) =~= body);
        assert(code.subrange(bl + 2, bl + 2 + rl) =~= rest);
        assert forall|q: int| 0 <= q < code.len() implies #[trigger] target_ok(code, q) by {
            if 1 <= q <= bl {
                lemma_part_in_range(code, 1, body, q);
            } else if q >= bl + 2 {
                lemma_part_in_range(code, bl + 2, rest, q);
            }
        }
    }
}

proof fn lemma_ops_append(a: Seq<OpCode>, b: Seq<OpCode>)
    ensures
        ops(a + b) == ops(a) + ops(b),
{
    assert(ops(a + b) =~= ops(a) + ops(b));
}

/// Appends `b` to `a`, keeping the instruction view in step.
fn append_codes(a: &mut Vec<OpCode>, b: Vec<OpCode>)
    ensures
        ops(final(a)@) == ops(old(a)@) + ops(b@),
{
    let mut b = b;
    proof {
        lemma_ops_append(a@, b@);
    }
    a.append(&mut b);
}

/// Compiles a pattern to bytecode.
pub fn compile(node: &Node) -> (r: Vec<OpCode>)
    requires
        code_of(*node).len() <= isize::MAX,
    ensures
        ops(r@) == code_of(*node),
    decreases node,
{
    match node {
        Node::Literal(t) => {
            let s = t.as_str();
            let n = s.unicode_len();
            let mut chars: Vec<char> = Vec::new();
            let mut i: usize = 0;
            while i < n
                invariant
                    n == s@.len(),
                    i <= n,
                    chars@ == s@.subrange(0, i as int),
                decreases n - i,
            {
                chars.push(s.get_char(i));
                i += 1;
                assert(chars@ =~= s@.subrange(0, i as int));
            }
            assert(chars@ =~= t@);
            let r = vec![OpCode::Consume(chars)];
            assert(ops(r@) =~= code_of(*node));
            r
        },
        Node::Concat(v) => {
            let mut codes: Vec<OpCode> = Vec::new();
            let mut i: usize = 0;
            proof {
                assert(v@.subrange(0, 0) =~= Seq::<Node>::empty());
                assert(ops(codes@) =~= Seq::<Op>::empty());
            }
            while i < v.len()
                invariant
                    i <= v.len(),
                    ops(codes@) == concat_code(v@.subrange(0, i as int)),
                    concat_code(v@) == code_of(*node),
                    *node == Node::Concat(*v),
                    code_of(*node).len() <= isize::MAX,
                decreases v.len() - i,
            {
                proof {
                    let pre = v@.subrange(0, i as int + 1);
                    assert(pre.drop_last() =~= v@.subrange(0, i as int));
                    lemma_concat_code_prefix_len(v@, i as int + 1);
                }
                proof {
                    assert(decreases_to!(*v => v[i as int]));
                    assert(decreases_to!(*node => *v));
                    assert(decreases_to!(*node => v[i as int]));
                }
                let body = compile(&v[i]);
                append_codes(&mut codes, body);
                i += 1;
            }
            assert(v@.subrange(0, v.len() as int) =~= v@);
            codes
        },
        Node::Or(v) => {
            let mut rest: Vec<OpCode> = vec![OpCode::Fail];
            let mut i: usize = v.len();
            proof {
                assert(v@.subrange(i as int, i as int) =~= Seq::<Node>::empty());
                assert(ops(rest@) =~= seq![Op::Fail]);
            }
            while i > 0
                invariant
                    i <= v.len(),
                    ops(rest@) == or_code(v@.subrange(i as int, v.len() as int)),
                    or_code(v@) == code_of(*node),
                    *node == Node::Or(*v),
                    code_of(*node).len() <= isize::MAX,
                decreases i,
            {
                i -= 1;
                let ghost tail = v@.subrange(i as int, v.len() as int);
                proof {
                    assert(tail.skip(1) =~= v@.subrange(i as int + 1, v.len() as int));
                    assert(tail[0] == v@[i as int]);
                    lemma_or_code_suffix_len(v@, i as int);
                }
                proof {
                    assert(decreases_to!(*v => v[i as int]));
                    assert(decreases_to!(*node => *v));
                    assert(decreases_to!(*node => v[i as int]));
                }
                let body = compile(&v[i]);
                let blen = body.len();
                let rlen = rest.len();
                let mut codes: Vec<OpCode> = vec![OpCode::Fork((blen + 2) as isize)];
                proof {
                    assert(ops(codes@) =~= seq![Op::Fork(blen as int + 2)]);
                }
                append_codes(&mut codes, body);
                let jump: Vec<OpCode> = vec![OpCode::Jump((rlen + 1) as isize)];
                proof {
                    assert(ops(jump@) =~= seq![Op::Jump(rlen as int + 1)]);
                }
                append_codes(&mut codes, jump);
                append_codes(&mut codes, rest);
                rest = codes;
            }
            assert(v@.subrange(0, v.len() as int) =~= v@);
            rest
        },
        Node::Repeat(b) => {
            let body = compile(b);
            let blen = body.len();
            let mut codes: Vec<OpCode> = vec![OpCode::Fork((blen + 2) as isize)];
            proof {
                assert(ops(codes@) =~= seq![Op::Fork(blen as int + 2)]);
            }
            append_codes(&mut codes, body);
            let back: isize = -((blen + 1) as isize);
            let jump: Vec<OpCode> = vec![OpCode::Jump(back)];
            proof {
                assert(ops(jump@) =~= seq![Op::Jump(back as int)]);
            }
            append_codes(&mut codes, jump);
            codes
        },
    }
}

proof fn lemma_concat_code_prefix_len(ns: Seq<Node>, k: int)
    requires
        0 < k <= ns.len(),
    ensures
        code_of(ns[k - 1]).len() <= concat_code(ns.subrange(0, k)).len(),
        concat_code(ns.subrange(0, k - 1)).len() <= concat_code(ns.subrange(0, k)).len(),
        concat_code(ns.subrange(0, k)).len() <= concat_code(ns).len(),
    decreases ns.len() - k,
{
    assert(ns.subrange(0, k).drop_last() =~= ns.subrange(0, k - 1));
    if k < ns.len() {
        lemma_concat_code_prefix_len(ns, k + 1);
        assert(ns.subrange(0, k + 1).drop_last() =~= ns.subrange(0, k));
    } else {
        assert(ns.subrange(0, k) =~= ns);
    }
}

proof fn lemma_or_code_suffix_len(ns: Seq<Node>, i: int)
    requires
        0 <= i < ns.len(),
    ensures
        code_of(ns[i]).len() + 2 < or_code(ns.subrange(i, ns.len() as int)).len(),
        or_code(ns.subrange(i + 1, ns.len() as int)).len() < or_code(ns.subrange(i, ns.len() as int)).len(),
        or_code(ns.subrange(i, ns.len() as int)).len() <= or_code(ns).len(),
    decreases i,
{
    let tail = ns.subrange(i, ns.len() as int);
    assert(tail.skip(1) =~= ns.subrange(i + 1, ns.len() as int));
    assert(tail[0] == ns[i]);
    let rest = or_code(tail.skip(1));
    assert(rest.len() >= 1);
    if i > 0 {
        lemma_or_code_suffix_len(ns, i - 1);
    } else {
        assert(tail =~= ns);
    }
}


/// A compiled pattern: an immutable sequence of instructions.
#[derive(Debug)]
pub struct Program {
    codes: Vec<OpCode>,
}

impl View for Program {
    type V = Seq<Op>;

    closed spec fn view(&self) -> Seq<Op> {
        ops(self.codes@)
    }
}

impl Program {
    /// Compiles `node`.
    pub fn new(node: &Node) -> (r: Self)
        requires
            code_of(*node).len() <= isize::MAX,
        ensures
            r@ == code_of(*node),
            targets_in_range(r@),
    {
        proof {
            lemma_code_in_range(*node);
        }
        Self { codes: compile(node) }
    }

    /// The instructions, in order.
    pub fn codes(&self) -> (r: &Vec<OpCode>)
        ensures
            ops(r@) == self@,
    {
        &self.codes
    }
}

/// One step of execution from state `c` to state `d`; a state is an instruction
/// index and a cursor into the subject. Targets outside the program end the state.
pub open spec fn step(p: Seq<Op>, s: Seq<char>, c: (int, int), d: (int, int)) -> bool {
    &&& 0 <= c.0 < p.len()
    &&& 0 <= c.1 <= s.len()
    &&& match p[c.0] {
        Op::Consume(t) => {
            &&& c.1 + t.len() <= s.len()
            &&& s.subrange(c.1, c.1 + t.len()) == t
            &&& d == (c.0 + 1, c.1 + t.len())
        },
        Op::Fork(o) => d == (c.0 + 1, c.1) || (d == (c.0 + o, c.1) && 0 <= c.0 + o <= p.len()),
        Op::Jump(o) => d == (c.0 + o, c.1) && 0 <= c.0 + o <= p.len(),
        Op::Fail => false,
    }
}

/// State `d` follows from state `c` in exactly `n` steps.
pub open spec fn reaches(p: Seq<Op>, s: Seq<char>, c: (int, int), d: (int, int), n: nat) -> bool
    decreases n,
{
    if n == 0 {
        c == d
    } else {
        exists|e: (int, int)| reaches(p, s, c, e, (n - 1) as nat) && #[trigger] step(p, s, e, d)
    }
}

/// State `c` follows from the initial state.
pub open spec fn reachable(p: Seq<Op>, s: Seq<char>, c: (int, int)) -> bool {
    exists|n: nat| reaches(p, s, (0, 0), c, n)
}

/// Some run of `p` ends past its last instruction with all of `s` consumed.
pub open spec fn accepts(p: Seq<Op>, s: Seq<char>) -> bool {
    reachable(p, s, (p.len() as int, s.len() as int))
}

proof fn lemma_reachable_step(p: Seq<Op>, s: Seq<char>, c: (int, int), d: (int, int))
    requires
        reachable(p, s, c),
        step(p, s, c, d),
    ensures
        reachable(p, s, d),
{
    let n = choose|n: nat| reaches(p, s, (0, 0), c, n);
    assert(reaches(p, s, (0, 0), d, n + 1));
}

/// Every state reachable from the initial state lies in a set that holds it and
/// is closed under steps.
pub(crate) proof fn lemma_closed(p: Seq<Op>, s: Seq<char>, v: Set<(int, int)>, d: (int, int), n: nat)
    requires
        v.contains((0, 0)),
        forall|c: (int, int), e: (int, int)| v.contains(c) && #[trigger] step(p, s, c, e) ==> v.contains(e),
        reaches(p, s, (0, 0), d, n),
    ensures
        v.contains(d),
    decreases n,
{
    if n > 0 {
        let e = choose|e: (int, int)| reaches(p, s, (0, 0), e, (n - 1) as nat) && #[trigger] step(p, s, e, d);
        lemma_closed(p, s, v, e, (n - 1) as nat);
    }
}

/// The number of `false` entries.
spec fn unmarked(v: Seq<bool>) -> nat
    decreases v.len(),
{
    if v.len() == 0 {
        0
    } else {
        unmarked(v.drop_last()) + if v.last() { 0nat } else { 1nat }
    }
}

proof fn lemma_unmarked_set(v: Seq<bool>, k: int)
    requires
        0 <= k < v.len(),
        !v[k],
    ensures
        unmarked(v.update(k, true)) + 1 == unmarked(v),
    decreases v.len(),
{
    let u = v.update(k, true);
    if k == v.len() - 1 {
        assert(u.drop_last() =~= v.drop_last());
    } else {
        assert(u.drop_last() =~= v.drop_last().update(k, true));
        lemma_unmarked_set(v.drop_last(), k);
    }
}

spec fn slot(c: (int, int), w: int) -> int {
    c.0 * w + c.1
}

spec fn in_grid(c: (int, int), n: int, m: int) -> bool {
    0 <= c.0 <= n && 0 <= c.1 <= m
}

proof fn lemma_slot(c: (int, int), d: (int, int), n: int, m: int)
    requires
        in_grid(c, n, m),
        in_grid(d, n, m),
    ensures
        0 <= slot(c, m + 1) < (n + 1) * (m + 1),
        slot(c, m + 1) == slot(d, m + 1) ==> c == d,
{
    let w = m + 1;
    assert(0 <= c.0 * w) by (nonlinear_arith)
        requires 0 <= c.0, 0 < w;
    assert(c.0 * w + c.1 < (n + 1) * w) by (nonlinear_arith)
        requires c.0 <= n, c.1 < w, 0 < w;
    if c.0 < d.0 {
        assert(c.0 * w + w <= d.0 * w) by (nonlinear_arith)
            requires c.0 < d.0, 0 < w;
    } else if d.0 < c.0 {
        assert(d.0 * w + w <= c.0 * w) by (nonlinear_arith)
            requires d.0 < c.0, 0 < w;
    }
}

struct Thread {
    pc: usize,
    sp: usize,
}

spec fn state_of(t: Thread) -> (int, int) {
    (t.pc as int, t.sp as int)
}

spec fn on_stack(ts: Seq<Thread>, c: (int, int)) -> bool {
    exists|i: int| 0 <= i < ts.len() && state_of(#[trigger] ts[i]) == c
}

struct Machine<'a> {
    chars: Vec<char>,
    threads: Vec<Thread>,
    program: &'a Program,
    seen: Vec<bool>,
    visited: Ghost<Set<(int, int)>>,
}

impl<'a> Machine<'a> {
    spec fn prog(&self) -> Seq<Op> {
        self.program@
    }

    spec fn subject(&self) -> Seq<char> {
        self.chars@
    }

    spec fn inv(&self, cur: Option<(int, int)>) -> bool {
        &&& machine_inv(self.prog(), self.subject(), self.seen@, self.visited@, self.threads@, cur)
    }
}

/// The invariant of a run while `cur` (if any) is the running state: `seen`
/// marks exactly the states of `v`; every marked or pending state is reachable;
/// each step from a marked state leads to a marked, pending or running state;
/// the accepting state is unmarked; the initial state is marked, pending or running.
spec fn machine_inv(
    p: Seq<Op>,
    s: Seq<char>,
    seen: Seq<bool>,
    v: Set<(int, int)>,
    ts: Seq<Thread>,
    cur: Option<(int, int)>,
) -> bool {
    let n = p.len() as int;
    let m = s.len() as int;
    &&& seen.len() == (n + 1) * (m + 1)
    &&& forall|c: (int, int)| in_grid(c, n, m) ==> (seen[slot(c, m + 1)] <==> #[trigger] v.contains(c))
    &&& forall|c: (int, int)| #[trigger] v.contains(c) ==> in_grid(c, n, m) && reachable(p, s, c)
    &&& forall|i: int| 0 <= i < ts.len() ==> in_grid(state_of(#[trigger] ts[i]), n, m)
        && reachable(p, s, state_of(ts[i]))
    &&& forall|c: (int, int), d: (int, int)| v.contains(c) && #[trigger] step(p, s, c, d)
        ==> v.contains(d) || on_stack(ts, d) || cur == Some(d)
    &&& !v.contains((n, m))
    &&& v.contains((0, 0)) || on_stack(ts, (0, 0)) || cur == Some((0int, 0int))
}

/// Marking the running state `cur` keeps the invariant, with `next` running
/// after it and the states of `ts2` pending (those of `ts`, then new ones).
proof fn lemma_after_mark(
    p: Seq<Op>,
    s: Seq<char>,
    seen: Seq<bool>,
    v: Set<(int, int)>,
    ts: Seq<Thread>,
    cur: (int, int),
    ts2: Seq<Thread>,
    next: Option<(int, int)>,
)
    requires
        machine_inv(p, s, seen, v, ts, Some(cur)),
        !v.contains(cur),
        in_grid(cur, p.len() as int, s.len() as int),
        reachable(p, s, cur),
        cur != (p.len() as int, s.len() as int),
        ts2.len() >= ts.len(),
        forall|i: int| 0 <= i < ts.len() ==> ts2[i] == ts[i],
        forall|i: int| 0 <= i < ts2.len() ==> in_grid(state_of(#[trigger] ts2[i]), p.len() as int, s.len() as int)
            && reachable(p, s, state_of(ts2[i])),
        forall|d: (int, int)| #[trigger] step(p, s, cur, d) ==> on_stack(ts2, d) || next == Some(d),
    ensures
        machine_inv(p, s, seen.update(slot(cur, s.len() as int + 1), true), v.insert(cur), ts2, next),
{
    let n = p.len() as int;
    let m = s.len() as int;
    let seen2 = seen.update(slot(cur, m + 1), true);
    let v2 = v.insert(cur);
    lemma_slot(cur, cur, n, m);
    assert forall|c: (int, int)| in_grid(c, n, m) implies (seen2[slot(c, m + 1)] <==> #[trigger] v2.contains(c)) by {
        lemma_slot(c, cur, n, m);
    }
    assert forall|d: (int, int)| on_stack(ts, d) implies on_stack(ts2, d) by {
        let i = choose|i: int| 0 <= i < ts.len() && state_of(#[trigger] ts[i]) == d;
        assert(ts2[i] == ts[i]);
    }
    assert forall|c: (int, int), d: (int, int)| v2.contains(c) && #[trigger] step(p, s, c, d)
        implies v2.contains(d) || on_stack(ts2, d) || next == Some(d) by {
        if c != cur {
            assert(v.contains(c));
        }
    }
}


/// Whether `t` occurs in `chars` at position `sp`.
fn starts_at(chars: &Vec<char>, sp: usize, t: &Vec<char>) -> (r: bool)
    requires
        sp <= chars@.len(),
    ensures
        r == (sp + t@.len() <= chars@.len() && chars@.subrange(sp as int, sp + t@.len()) == t@),
{
    let tl = t.len();
    if tl > chars.len() - sp {
        return false;
    }
    let mut j: usize = 0;
    while j < tl
        invariant
            j <= tl,
            tl == t@.len(),
            sp + tl <= chars.len(),
            forall|i: int| 0 <= i < j ==> chars@[sp + i] == t@[i],
        decreases tl - j,
    {
        assert(sp + j < chars@.len());
        if chars[sp + j] != t[j] {
            assert(chars@.subrange(sp as int, sp + tl)[j as int] != t@[j as int]);
            return false;
        }
        j += 1;
    }
    assert(chars@.subrange(sp as int, sp + tl) =~= t@);
    true
}

/// The state after `c` on the run of a single execution state: a fork continues
/// with the next instruction. `None` where the run ends at `c`: past the last
/// instruction, at a `Fail`, or at a `Consume` that does not match.
spec fn fall(p: Seq<Op>, s: Seq<char>, c: (int, int)) -> Option<(int, int)> {
    if 0 <= c.0 < p.len() {
        match p[c.0] {
            Op::Consume(t) => if c.1 + t.len() <= s.len() && s.subrange(c.1, c.1 + t.len()) == t {
                Some((c.0 + 1, c.1 + t.len()))
            } else {
                None
            },
            Op::Fork(_) => Some((c.0 + 1, c.1)),
            Op::Jump(o) => Some((c.0 + o, c.1)),
            Op::Fail => None,
        }
    } else {
        None
    }
}

/// The alternative a state pushes: its fork target, if it is at a fork.
spec fn forked(p: Seq<Op>, c: (int, int)) -> Seq<(int, int)> {
    if 0 <= c.0 < p.len() && p[c.0] is Fork {
        seq![(c.0 + p[c.0]->Fork_0, c.1)]
    } else {
        seq![]
    }
}

/// The alternatives pushed by the states of `tr`, in order.
spec fn pushes(p: Seq<Op>, tr: Seq<(int, int)>) -> Seq<(int, int)>
    decreases tr.len(),
{
    if tr.len() == 0 {
        seq![]
    } else {
        pushes(p, tr.drop_last()) + forked(p, tr.last())
    }
}

spec fn states(ts: Seq<Thread>) -> Seq<(int, int)> {
    ts.map_values(|t: Thread| state_of(t))
}

/// `tr` is the run of one execution state, explored with `v` already explored:
/// each state follows the one before it; all but the last are new and distinct;
/// the last was explored before (`killed`) or is where the run ends.
spec fn is_run(p: Seq<Op>, s: Seq<char>, v: Set<(int, int)>, tr: Seq<(int, int)>, killed: bool) -> bool {
    &&& tr.len() > 0
    &&& forall|k: int| 0 <= k < tr.len() - 1 ==> fall(p, s, #[trigger] tr[k]) == Some(tr[k + 1])
    &&& forall|k: int| 0 <= k < tr.len() - 1 ==> !v.contains(#[trigger] tr[k])
    &&& forall|j: int, k: int| 0 <= j < k < tr.len() - 1 ==> #[trigger] tr[j] != #[trigger] tr[k]
    &&& killed == (v.contains(tr.last()) || tr.drop_last().contains(tr.last()))
    &&& !killed ==> fall(p, s, tr.last()) is None
}

/// What one call of `schedule_thread` did, with `tr` the run of the popped state:
/// the result is true exactly when that run reaches the end of the program with
/// the whole subject consumed before meeting an explored state; the run's states
/// are now explored; the stack is the old one without its top, followed by the
/// fork targets of the run, in order.
spec fn ran(
    p: Seq<Op>,
    s: Seq<char>,
    v0: Set<(int, int)>,
    ts0: Seq<Thread>,
    tr: Seq<(int, int)>,
    killed: bool,
    r: bool,
    v1: Set<(int, int)>,
    ts1: Seq<Thread>,
) -> bool {
    &&& tr[0] == state_of(ts0.last())
    &&& is_run(p, s, v0, tr, killed)
    &&& r == (!killed && tr.last() == (p.len() as int, s.len() as int))
    &&& v1 == v0.union(tr.to_set())
    &&& states(ts1) == states(ts0.drop_last()) + pushes(p, tr.drop_last())
}

impl<'a> Machine<'a> {
    /// Pops the most recently pushed state and runs it, pushing the target of each
    /// fork it passes, until the run ends or meets a state explored before; true
    /// when the run ends past the last instruction with the whole subject consumed.
    fn schedule_thread(&mut self) -> (r: bool)
        requires
            old(self).inv(None),
            old(self).threads@.len() > 0,
            targets_in_range(old(self).prog()),
        ensures
            final(self).prog() == old(self).prog(),
            final(self).subject() == old(self).subject(),
            exists|tr: Seq<(int, int)>, killed: bool|
                ran(old(self).prog(), old(self).subject(), old(self).visited@, old(self).threads@, tr, killed,
                    r, final(self).visited@, final(self).threads@),
            forall|i: int| 0 <= i < final(self).threads@.len() ==> in_grid(
                state_of(#[trigger] final(self).threads@[i]), final(self).prog().len() as int,
                final(self).subject().len() as int),
            r ==> accepts(final(self).prog(), final(self).subject()),
            !r ==> final(self).inv(None),
            unmarked(final(self).seen@) < unmarked(old(self).seen@) || (unmarked(final(self).seen@)
                == unmarked(old(self).seen@) && final(self).threads@.len() < old(self).threads@.len()),
    {
        let ghost p = self.prog();
        let ghost s = self.subject();
        let ghost v_start = self.visited@;
        let ghost ts_start = self.threads@;
        let ghost base = states(ts_start.drop_last());
        let prog: &'a Program = self.program;
        let codes = &prog.codes;
        let n = codes.len();
        let m = self.chars.len();
        let th = self.threads.pop().unwrap();
        let mut pc = th.pc;
        let mut sp = th.sp;
        let ghost mut tr: Seq<(int, int)> = Seq::empty();
        proof {
            assert(p.len() == n);
            let ts = self.threads@;
            let old_ts = old(self).threads@;
            assert(th == old_ts.last());
            assert(ts =~= old_ts.drop_last());
            assert forall|d: (int, int)| on_stack(old_ts, d) implies on_stack(ts, d) || d == (pc as int, sp as int) by {
                let i = choose|i: int| 0 <= i < old_ts.len() && state_of(#[trigger] old_ts[i]) == d;
                if i < ts.len() {
                    assert(ts[i] == old_ts[i]);
                }
            }
            assert(state_of(old_ts[old_ts.len() - 1]) == (pc as int, sp as int));
            assert((n as int + 1) * (m as int + 1) >= m as int + 1) by (nonlinear_arith)
                requires n >= 0, m >= 0;
            assert(v_start.union(tr.to_set()) =~= v_start);
            assert(states(ts) =~= base + pushes(p, tr));
        }
        let sl = self.seen.len();
        assert(m + 1 <= sl);
        let w = m + 1;
        loop
            invariant
                self.inv(Some((pc as int, sp as int))),
                self.prog() == p,
                self.subject() == s,
                p == old(self).prog(),
                s == old(self).subject(),
                v_start == old(self).visited@,
                ts_start == old(self).threads@,
                ts_start.len() > 0,
                base == states(ts_start.drop_last()),
                targets_in_range(p),
                self.program == prog,
                codes == &prog.codes,
                n == p.len(),
                m == s.len(),
                w == m + 1,
                in_grid((pc as int, sp as int), n as int, m as int),
                reachable(p, s, (pc as int, sp as int)),
                tr.push((pc as int, sp as int))[0] == state_of(ts_start.last()),
                forall|k: int| 0 <= k < tr.len() ==> fall(p, s, #[trigger] tr[k]) == Some(tr.push((pc as int, sp as int))[k + 1]),
                forall|k: int| 0 <= k < tr.len() ==> !v_start.contains(#[trigger] tr[k]),
                forall|j: int, k: int| 0 <= j < k < tr.len() ==> #[trigger] tr[j] != #[trigger] tr[k],
                self.visited@ == v_start.union(tr.to_set()),
                states(self.threads@) == base + pushes(p, tr),
                unmarked(self.seen@) < unmarked(old(self).seen@) || (unmarked(self.seen@) == unmarked(
                    old(self).seen@) && self.threads@.len() < old(self).threads@.len()),
            decreases unmarked(self.seen@),
        {
            let ghost cur = (pc as int, sp as int);
            let ghost full = tr.push(cur);
            proof {
                lemma_slot(cur, cur, n as int, m as int);
                assert(pc as int * w as int + sp as int == slot(cur, m as int + 1));
                assert(0 <= pc as int * w as int) by (nonlinear_arith)
                    requires pc >= 0, w >= 0;
                assert(full.drop_last() =~= tr);
                assert(full.last() == cur);
                assert(full.len() == tr.len() + 1);
                assert forall|k: int| 0 <= k < full.len() - 1 implies fall(p, s, #[trigger] full[k]) == Some(full[k + 1]) by {
                    assert(full[k] == tr[k]);
                }
                assert forall|k: int| 0 <= k < full.len() - 1 implies !v_start.contains(#[trigger] full[k]) by {
                    assert(full[k] == tr[k]);
                }
                assert forall|j: int, k: int| 0 <= j < k < full.len() - 1 implies #[trigger] full[j] != #[trigger] full[k] by {
                    assert(full[j] == tr[j]);
                    assert(full[k] == tr[k]);
                }
                tr.lemma_push_to_set_commute(cur);
                assert(self.visited@.contains(cur) == (v_start.contains(cur) || tr.contains(cur)));
            }
            let sl = self.seen.len();
            assert(pc as int * w as int + (sp as int) < sl as int);
            let k = pc * w + sp;
            if self.seen[k] {
                proof {
                    assert(v_start.union(tr.to_set()) =~= v_start.union(full.to_set()));
                    assert(ran(p, s, v_start, ts_start, full, true, false, self.visited@, self.threads@));
                }
                return false;
            }
            let ghost seen0 = self.seen@;
            let ghost v0 = self.visited@;
            let ghost ts0 = self.threads@;
            proof {
                lemma_unmarked_set(seen0, k as int);
                assert(v0.insert(cur) =~= v_start.union(full.to_set()));
                assert(!v_start.contains(cur) && !tr.contains(cur));
            }
            self.seen[k] = true;
            self.visited = Ghost(v0.insert(cur));
            if pc == n {
                proof {
                    assert(ran(p, s, v_start, ts_start, full, false, sp == m, self.visited@, self.threads@));
                }
                if sp == m {
                    return true;
                }
                proof {
                    lemma_after_mark(p, s, seen0, v0, ts0, cur, ts0, None);
                }
                return false;
            }
            proof {
                assert(target_ok(p, pc as int));
                assert(p[pc as int] == codes@[pc as int]@);
                assert(pushes(p, full) == pushes(p, tr) + forked(p, cur));
            }
            match &codes[pc] {
                OpCode::Consume(t) => {
                    if !starts_at(&self.chars, sp, t) {
                        proof {
                            lemma_after_mark(p, s, seen0, v0, ts0, cur, ts0, None);
                            assert(ran(p, s, v_start, ts_start, full, false, false, self.visited@, self.threads@));
                        }
                        return false;
                    }
                    let tl = t.len();
                    let ghost next = (pc as int + 1, sp + tl);
                    proof {
                        assert(step(p, s, cur, next));
                        lemma_reachable_step(p, s, cur, next);
                        lemma_after_mark(p, s, seen0, v0, ts0, cur, ts0, Some(next));
                        assert(forked(p, cur) =~= Seq::<(int, int)>::empty());
                        assert(pushes(p, full) =~= pushes(p, tr));
                    }
                    pc += 1;
                    sp += tl;
                    proof {
                        tr = full;
                    }
                },
                OpCode::Fork(o) => {
                    let target: i128 = pc as i128 + *o as i128;
                    let ghost next = (pc as int + 1, sp as int);
                    let ghost alt = (target as int, sp as int);
                    proof {
                        assert(step(p, s, cur, alt));
                        lemma_reachable_step(p, s, cur, alt);
                    }
                    self.threads.push(Thread { pc: target as usize, sp });
                    proof {
                        let ts2 = self.threads@;
                        assert(state_of(ts2[ts2.len() - 1]) == alt);
                        assert forall|d: (int, int)| #[trigger] step(p, s, cur, d) implies on_stack(ts2, d) || Some(next) == Some(d) by {
                            if d != next {
                                assert(state_of(ts2[ts2.len() - 1]) == d);
                            }
                        }
                        lemma_after_mark(p, s, seen0, v0, ts0, cur, ts2, Some(next));
                        assert(step(p, s, cur, next));
                        lemma_reachable_step(p, s, cur, next);
                        assert(forked(p, cur) =~= seq![alt]);
                        assert(states(ts2) =~= states(ts0) + seq![alt]);
                    }
                    pc += 1;
                    proof {
                        tr = full;
                    }
                },
                OpCode::Jump(o) => {
                    let target: i128 = pc as i128 + *o as i128;
                    let ghost next = (target as int, sp as int);
                    proof {
                        assert(step(p, s, cur, next));
                        lemma_reachable_step(p, s, cur, next);
                        lemma_after_mark(p, s, seen0, v0, ts0, cur, ts0, Some(next));
                        assert(forked(p, cur) =~= Seq::<(int, int)>::empty());
                        assert(pushes(p, full) =~= pushes(p, tr));
                    }
                    pc = target as usize;
                    proof {
                        tr = full;
                    }
                },
                OpCode::Fail => {
                    proof {
                        lemma_after_mark(p, s, seen0, v0, ts0, cur, ts0, None);
                        assert(ran(p, s, v_start, ts_start, full, false, false, self.visited@, self.threads@));
                    }
                    return false;
                },
            }
        }
    }
}

impl<'a> Machine<'a> {
    /// A machine for running `program` on `string`, with nothing explored yet.
    fn new(program: &'a Program, string: &'a str) -> (r: Self)
        requires
            (program@.len() + 1) * (string@.len() + 1) <= usize::MAX,
        ensures
            r.prog() == program@,
            r.subject() == string@,
            r.threads@.len() == 0,
            r.visited@ == Set::<(int, int)>::empty(),
            r.seen@.len() == (program@.len() + 1) * (string@.len() + 1),
            forall|i: int| 0 <= i < r.seen@.len() ==> !r.seen@[i],
    {
        let m = string.unicode_len();
        let mut chars: Vec<char> = Vec::new();
        let mut i: usize = 0;
        while i < m
            invariant
                m == string@.len(),
                i <= m,
                chars@ == string@.subrange(0, i as int),
            decreases m - i,
        {
            chars.push(string.get_char(i));
            i += 1;
            assert(chars@ =~= string@.subrange(0, i as int));
        }
        assert(chars@ =~= string@);
        let n = program.codes.len();
        assert(program@.len() == n);
        assert((n as int + 1) * (m as int + 1) >= n as int + 1) by (nonlinear_arith)
            requires n >= 0, m >= 0;
        assert((n as int + 1) * (m as int + 1) >= m as int + 1) by (nonlinear_arith)
            requires n >= 0, m >= 0;
        let size = (n + 1) * (m + 1);
        let mut seen: Vec<bool> = Vec::new();
        let mut j: usize = 0;
        while j < size
            invariant
                j <= size,
                seen@.len() == j,
                forall|i: int| 0 <= i < j ==> !seen@[i],
            decreases size - j,
        {
            seen.push(false);
            j += 1;
        }
        Self { chars, threads: Vec::new(), program, seen, visited: Ghost(Set::empty()) }
    }

    /// Explores states from the initial one, most recently pushed first, until one
    /// accepts or none is left.
    fn start(&mut self) -> (r: bool)
        requires
            old(self).threads@.len() == 0,
            old(self).visited@ == Set::<(int, int)>::empty(),
            old(self).seen@.len() == (old(self).prog().len() + 1) * (old(self).subject().len() + 1),
            forall|i: int| 0 <= i < old(self).seen@.len() ==> !old(self).seen@[i],
            targets_in_range(old(self).prog()),
        ensures
            r == accepts(old(self).prog(), old(self).subject()),
            final(self).prog() == old(self).prog(),
            final(self).subject() == old(self).subject(),
            !r ==> final(self).threads@.len() == 0,
    {
        let ghost p = self.prog();
        let ghost s = self.subject();
        let ghost n = p.len() as int;
        let ghost m = s.len() as int;
        self.threads.push(Thread { pc: 0, sp: 0 });
        proof {
            assert(reaches(p, s, (0, 0), (0, 0), 0));
            assert(state_of(self.threads@[0]) == (0int, 0int));
            assert forall|c: (int, int)| in_grid(c, n, m) implies (self.seen@[slot(c, m + 1)]
                <==> #[trigger] self.visited@.contains(c)) by {
                lemma_slot(c, c, n, m);
            }
        }
        while !self.threads.is_empty()
            invariant
                self.inv(None),
                self.prog() == p,
                self.subject() == s,
                p == old(self).prog(),
                s == old(self).subject(),
                targets_in_range(p),
            decreases unmarked(self.seen@), self.threads@.len(),
        {
            if self.schedule_thread() {
                return true;
            }
        }
        proof {
            let v = self.visited@;
            if accepts(p, s) {
                let k = choose|k: nat| reaches(p, s, (0, 0), (n, m), k);
                assert forall|c: (int, int), e: (int, int)| v.contains(c) && #[trigger] step(p, s, c, e)
                    implies v.contains(e) by {
                    if on_stack(self.threads@, e) {
                        let i = choose|i: int| 0 <= i < self.threads@.len() && state_of(#[trigger] self.threads@[i]) == e;
                    }
                }
                if !v.contains((0, 0)) {
                    if on_stack(self.threads@, (0, 0)) {
                        let i = choose|i: int| 0 <= i < self.threads@.len() && state_of(#[trigger] self.threads@[i]) == (0int, 0int);
                    }
                }
                lemma_closed(p, s, v, (n, m), k);
            }
        }
        false
    }
}

/// Runs `program` on `string`: true when the program matches the whole string.
/// States are explored depth first, most recently forked first; a state (an
/// instruction index and a cursor) already explored is not explored again, so
/// every run ends, also on code that loops without consuming anything.
pub fn test(program: &Program, string: &str) -> (r: bool)
    requires
        (program@.len() + 1) * (string@.len() + 1) <= usize::MAX,
        targets_in_range(program@),
    ensures
        r == accepts(program@, string@),
{
    let mut machine = Machine::new(program, string);
    machine.start()
}

} // verus!
