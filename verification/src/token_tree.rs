use vstd::prelude::*;
use crate::token_parse::{additive, tv, Numeral, Operator, Tok, Token};
use crate::validation::{
    lemma_val_err_sticky, spec_validate, v_run, val_at, val_step, GrammarError, Last, VSt,
};

verus! {

broadcast use vstd::set::group_set_axioms;

/// A mathematical expression: a numeral, or an operator applied to two
/// sub-expressions.
pub enum ExpTree {
    Num(Seq<u8>),
    Op(Operator, Box<ExpTree>, Box<ExpTree>),
}

/// An expression tree annotated with the arena index that holds each node.
pub enum ITree {
    Leaf(int, Seq<u8>),
    Node(int, Operator, Box<ITree>, Box<ITree>),
}

pub open spec fn it_idx(t: ITree) -> int {
    match t {
        ITree::Leaf(i, _) => i,
        ITree::Node(i, _, _, _) => i,
    }
}

/// The plain expression an indexed tree stands for.
pub open spec fn erase(t: ITree) -> ExpTree
    decreases t,
{
    match t {
        ITree::Leaf(_, d) => ExpTree::Num(d),
        ITree::Node(_, o, l, r) => ExpTree::Op(o, Box::new(erase(*l)), Box::new(erase(*r))),
    }
}

pub open spec fn it_indices(t: ITree) -> Set<int>
    decreases t,
{
    match t {
        ITree::Leaf(i, _) => set![i],
        ITree::Node(i, _, l, r) => it_indices(*l).union(it_indices(*r)).insert(i),
    }
}

/// Every node of the tree sits at its own arena index.
pub open spec fn it_uniq(t: ITree) -> bool
    decreases t,
{
    match t {
        ITree::Leaf(_, _) => true,
        ITree::Node(i, _, l, r) => {
            &&& it_uniq(*l)
            &&& it_uniq(*r)
            &&& !it_indices(*l).contains(i)
            &&& !it_indices(*r).contains(i)
            &&& it_indices(*l).disjoint(it_indices(*r))
        },
    }
}

/// Move a tree's root to another arena index, leaving its children alone.
pub open spec fn reroot(t: ITree, j: int) -> ITree {
    match t {
        ITree::Leaf(_, d) => ITree::Leaf(j, d),
        ITree::Node(_, o, l, r) => ITree::Node(j, o, l, r),
    }
}

/// One slot of the expression arena: a numeric leaf, or an operator node
/// holding the arena indices of its two operands.
#[derive(Clone, Copy, Debug, PartialEq, Eq, Structural)]
pub struct NodeOp {
    pub operator: Operator,
    pub left: usize,
    pub right: usize,
}

#[derive(Debug)]
pub enum Node {
    Number(Numeral),
    Operator(NodeOp),
}

/// Two arena slots carry the same node, compared by content.
pub open spec fn node_like(x: Node, y: Node) -> bool {
    match (x, y) {
        (Node::Number(a), Node::Number(b)) => a.bytes@ == b.bytes@,
        (Node::Operator(p), Node::Operator(q)) => p == q,
        _ => false,
    }
}

/// The indexed tree `t` is laid out in the arena `a`: each of its nodes is
/// stored at its index, with operator slots pointing at their children.
pub open spec fn wf_at(a: Seq<Node>, t: ITree) -> bool
    decreases t,
{
    match t {
        ITree::Leaf(i, d) => 0 <= i < a.len() && (a[i] matches Node::Number(n) && n.bytes@ == d),
        ITree::Node(i, o, l, r) => {
            &&& 0 <= i < a.len()
            &&& (a[i] matches Node::Operator(op) && op.operator == o && op.left == it_idx(*l)
                && op.right == it_idx(*r))
            &&& wf_at(a, *l)
            &&& wf_at(a, *r)
        },
    }
}

pub proof fn lemma_root_in_indices(t: ITree)
    ensures
        it_indices(t).contains(it_idx(t)),
{
    match t {
        ITree::Leaf(_, _) => {},
        ITree::Node(_, _, _, _) => {},
    }
}

/// Layout only looks at the arena slots the tree occupies, so any arena
/// that agrees on those slots (by content) lays the tree out as well.
pub proof fn lemma_wf_frame(a1: Seq<Node>, a2: Seq<Node>, t: ITree)
    requires
        wf_at(a1, t),
        forall|k: int|
            #[trigger] it_indices(t).contains(k) ==> 0 <= k < a2.len() && node_like(a2[k], a1[k]),
    ensures
        wf_at(a2, t),
    decreases t,
{
    lemma_root_in_indices(t);
    match t {
        ITree::Leaf(_, _) => {},
        ITree::Node(i, _, l, r) => {
            assert forall|k: int| #[trigger] it_indices(*l).contains(k) implies 0 <= k < a2.len()
                && node_like(a2[k], a1[k]) by {
                assert(it_indices(t).contains(k));
            }
            assert forall|k: int| #[trigger] it_indices(*r).contains(k) implies 0 <= k < a2.len()
                && node_like(a2[k], a1[k]) by {
                assert(it_indices(t).contains(k));
            }
            lemma_wf_frame(a1, a2, *l);
            lemma_wf_frame(a1, a2, *r);
        },
    }
}

/// A laid-out tree occupies only in-range arena slots.
pub proof fn lemma_wf_in_range(a: Seq<Node>, t: ITree)
    requires
        wf_at(a, t),
    ensures
        forall|k: int| it_indices(t).contains(k) ==> 0 <= k < a.len(),
    decreases t,
{
    match t {
        ITree::Leaf(i, _) => {
            assert forall|k: int| it_indices(t).contains(k) implies 0 <= k < a.len() by {
                assert(k == i);
            }
        },
        ITree::Node(i, _, l, r) => {
            lemma_wf_in_range(a, *l);
            lemma_wf_in_range(a, *r);
            assert forall|k: int| it_indices(t).contains(k) implies 0 <= k < a.len() by {
                assert(k == i || it_indices(*l).contains(k) || it_indices(*r).contains(k));
            }
        },
    }
}

/// The building state inside one bracket level: the part of the expression
/// already summed (everything left of the newest additive operator), and
/// the term currently being extended by multiplicative operators.
pub struct Parts {
    pub sum: Option<(ExpTree, Operator)>,
    pub term: ExpTree,
}

/// The whole expression a building state stands for.
pub open spec fn whole(p: Parts) -> ExpTree {
    match p.sum {
        None => p.term,
        Some((l, ao)) => ExpTree::Op(ao, Box::new(l), Box::new(p.term)),
    }
}

/// Attach the next value: the first value starts the level; an additive
/// operator folds everything so far into the sum and starts a new term; a
/// multiplicative operator extends the current term on its right.  Both
/// classes therefore associate left to right.
pub open spec fn attach(acc: Option<Parts>, o: Operator, v: ExpTree) -> Parts {
    match acc {
        None => Parts { sum: None, term: v },
        Some(p) => if additive(o) {
            Parts { sum: Some((whole(p), o)), term: v }
        } else {
            Parts { sum: p.sum, term: ExpTree::Op(o, Box::new(p.term), Box::new(v)) }
        },
    }
}

/// An additive operator always attaches at the root: everything built so
/// far becomes its left operand.  Additive chains therefore evaluate
/// strictly left to right.
pub proof fn lemma_additive_attaches_at_root(p: Parts, o: Operator, v: ExpTree)
    requires
        additive(o),
    ensures
        whole(attach(Some(p), o, v)) == ExpTree::Op(o, Box::new(whole(p)), Box::new(v)),
{
}

/// A multiplicative operator always attaches at the current term and never
/// touches the sum above it: it binds tighter than any enclosing additive
/// operator, and multiplicative chains evaluate strictly left to right.
pub proof fn lemma_multiplicative_attaches_at_term(p: Parts, o: Operator, v: ExpTree)
    requires
        !additive(o),
    ensures
        attach(Some(p), o, v).sum == p.sum,
        attach(Some(p), o, v).term == ExpTree::Op(o, Box::new(p.term), Box::new(v)),
{
}

/// One bracket level of the parser: the operator waiting to attach the next
/// value, and what has been built so far.
pub struct Frame {
    pub pending: Operator,
    pub acc: Option<Parts>,
}

pub open spec fn fresh_frame() -> Frame {
    Frame { pending: Operator::Plus, acc: None }
}

/// The parser's state: one frame per unclosed bracket, plus the current one.
pub struct PState {
    pub stack: Seq<Frame>,
    pub cur: Frame,
}

pub open spec fn junk_exp() -> ExpTree {
    ExpTree::Num(Seq::empty())
}

pub open spec fn acc_value(acc: Option<Parts>) -> ExpTree {
    match acc {
        Some(p) => whole(p),
        None => junk_exp(),
    }
}

/// One parser transition: numbers attach with the pending operator, an
/// operator becomes pending, an opening bracket pushes a fresh level, and a
/// closing bracket folds the level into a value attached in the parent.
pub open spec fn p_step(st: PState, t: Tok) -> PState {
    match t {
        Tok::Num(d) => PState {
            stack: st.stack,
            cur: Frame {
                pending: st.cur.pending,
                acc: Some(attach(st.cur.acc, st.cur.pending, ExpTree::Num(d))),
            },
        },
        Tok::Op(o) => PState { stack: st.stack, cur: Frame { pending: o, acc: st.cur.acc } },
        Tok::Open => PState { stack: st.stack.push(st.cur), cur: fresh_frame() },
        Tok::Close => if st.stack.len() > 0 {
            let parent = st.stack.last();
            PState {
                stack: st.stack.drop_last(),
                cur: Frame {
                    pending: parent.pending,
                    acc: Some(attach(parent.acc, parent.pending, acc_value(st.cur.acc))),
                },
            }
        } else {
            st
        },
    }
}

/// The parser's state after the first `i` tokens.
pub open spec fn p_at(s: Seq<Tok>, i: int) -> PState
    decreases i,
{
    if i <= 0 {
        PState { stack: Seq::empty(), cur: fresh_frame() }
    } else {
        p_step(p_at(s, i - 1), s[i - 1])
    }
}

/// The expression tree a token sequence parses to.
pub open spec fn spec_parse(s: Seq<Tok>) -> ExpTree {
    acc_value(p_at(s, s.len() as int).cur.acc)
}

/// Run the parser from a given state over a whole sequence.
pub open spec fn p_run(st: PState, u: Seq<Tok>) -> PState
    decreases u.len(),
{
    if u.len() == 0 {
        st
    } else {
        p_run(p_step(st, u[0]), u.drop_first())
    }
}

/// Parsing a suffix from the state its prefix reached gives the parse of
/// the whole sequence.
pub proof fn lemma_prun_p_at(s: Seq<Tok>, j: int)
    requires
        0 <= j <= s.len(),
    ensures
        p_run(p_at(s, j), s.skip(j)) == p_at(s, s.len() as int),
    decreases s.len() - j,
{
    if j == s.len() {
        assert(s.skip(j) =~= Seq::<Tok>::empty());
    } else {
        assert(s.skip(j)[0] == s[j]);
        assert(s.skip(j).drop_first() =~= s.skip(j + 1));
        assert(p_at(s, j + 1) == p_step(p_at(s, j), s[j]));
        lemma_prun_p_at(s, j + 1);
    }
}

pub proof fn lemma_prun_concat(st: PState, a: Seq<Tok>, b: Seq<Tok>)
    ensures
        p_run(st, a + b) == p_run(p_run(st, a), b),
    decreases a.len(),
{
    if a.len() == 0 {
        assert(a + b =~= b);
    } else {
        assert((a + b)[0] == a[0]);
        assert((a + b).drop_first() =~= a.drop_first() + b);
        lemma_prun_concat(p_step(st, a[0]), a.drop_first(), b);
    }
}

/// The parser never looks below the frames a balanced stretch of tokens
/// pushes itself: running it over such a stretch from two states that
/// agree on the current frame and on the top `e.len()` stack frames gives
/// the same current frame, leaves whatever lay beneath untouched on both
/// sides, and grows the shared top by exactly the validator's depth.
proof fn lemma_stack_irrelevance(
    u: Seq<Tok>,
    s1: Seq<Frame>,
    s2: Seq<Frame>,
    e: Seq<Frame>,
    f: Frame,
    w: VSt,
)
    requires
        v_run(w, u) is Ok,
        w.depth == e.len(),
    ensures
        ({
            let r1 = p_run(PState { stack: s1 + e, cur: f }, u);
            let r2 = p_run(PState { stack: s2 + e, cur: f }, u);
            &&& r1.cur == r2.cur
            &&& s1.len() <= r1.stack.len() && s2.len() <= r2.stack.len()
            &&& r1.stack.subrange(0, s1.len() as int) == s1
            &&& r2.stack.subrange(0, s2.len() as int) == s2
            &&& r1.stack.skip(s1.len() as int) == r2.stack.skip(s2.len() as int)
            &&& r1.stack.skip(s1.len() as int).len() == v_run(w, u)->Ok_0.depth
        }),
    decreases u.len(),
{
    if u.len() == 0 {
        assert((s1 + e).subrange(0, s1.len() as int) =~= s1);
        assert((s2 + e).subrange(0, s2.len() as int) =~= s2);
        assert((s1 + e).skip(s1.len() as int) =~= e);
        assert((s2 + e).skip(s2.len() as int) =~= e);
    } else {
        let t = u[0];
        assert(val_step(w, t) is Ok);
        let w2 = val_step(w, t)->Ok_0;
        assert(v_run(w2, u.drop_first()) == v_run(w, u));
        match t {
            Tok::Num(_) => {
                lemma_stack_irrelevance(u.drop_first(), s1, s2, e, p_step(PState { stack: s1 + e, cur: f }, t).cur, w2);
            },
            Tok::Op(_) => {
                lemma_stack_irrelevance(u.drop_first(), s1, s2, e, p_step(PState { stack: s1 + e, cur: f }, t).cur, w2);
            },
            Tok::Open => {
                assert((s1 + e).push(f) =~= s1 + e.push(f));
                assert((s2 + e).push(f) =~= s2 + e.push(f));
                lemma_stack_irrelevance(u.drop_first(), s1, s2, e.push(f), fresh_frame(), w2);
            },
            Tok::Close => {
                assert(w.depth > 0);
                assert(e.len() > 0);
                assert((s1 + e).len() > 0 && (s2 + e).len() > 0);
                assert((s1 + e).last() == e.last());
                assert((s2 + e).last() == e.last());
                assert((s1 + e).drop_last() =~= s1 + e.drop_last());
                assert((s2 + e).drop_last() =~= s2 + e.drop_last());
                lemma_stack_irrelevance(
                    u.drop_first(),
                    s1,
                    s2,
                    e.drop_last(),
                    p_step(PState { stack: s1 + e, cur: f }, t).cur,
                    w2,
                );
            },
        }
    }
}

/// Nesting is transparent: wrapping an accepted expression in one more
/// pair of brackets does not change what it parses to.
pub proof fn lemma_nesting(s: Seq<Tok>)
    requires
        spec_validate(s) is Ok,
    ensures
        spec_parse(seq![Tok::Open] + s + seq![Tok::Close]) == spec_parse(s),
{
    let s2 = seq![Tok::Open] + s + seq![Tok::Close];
    let init_p = PState { stack: Seq::<Frame>::empty(), cur: fresh_frame() };
    let st0 = VSt { last: Last::Start, depth: 0 };
    // the parse of the wrapped sequence, as one run from the initial state
    lemma_prun_p_at(s2, 0);
    assert(s2.skip(0) =~= s2);
    assert(p_at(s2, 0) == init_p);
    // peel the opening bracket, then split off the closing one
    assert(s2[0] == Tok::Open);
    assert(s2.drop_first() =~= s + seq![Tok::Close]);
    let after_open = p_step(init_p, Tok::Open);
    assert(after_open.stack =~= seq![fresh_frame()]);
    lemma_prun_concat(after_open, s, seq![Tok::Close]);
    assert(p_run(after_open, s + seq![Tok::Close]) == p_run(
        p_run(after_open, s),
        seq![Tok::Close],
    ));
    // the inner run ignores the one frame under it
    assert(val_at(s, 0) == Ok::<VSt, GrammarError>(st0));
    crate::validation::lemma_vrun_val_at(s, 0);
    assert(s.skip(0) =~= s);
    assert(v_run(st0, s) is Ok);
    assert(seq![fresh_frame()] + Seq::<Frame>::empty() =~= seq![fresh_frame()]);
    assert(Seq::<Frame>::empty() + Seq::<Frame>::empty() =~= Seq::<Frame>::empty());
    lemma_stack_irrelevance(
        s,
        seq![fresh_frame()],
        Seq::<Frame>::empty(),
        Seq::<Frame>::empty(),
        fresh_frame(),
        st0,
    );
    let r1 = p_run(PState { stack: seq![fresh_frame()], cur: fresh_frame() }, s);
    let r2 = p_run(init_p, s);
    assert(r1.cur == r2.cur);
    // the accepted expression ends at depth zero, so the inner run hands
    // back exactly the frame the bracket pushed
    assert(v_run(st0, s)->Ok_0.depth == 0);
    assert(r1.stack.skip(1).len() == 0);
    assert(r1.stack =~= seq![fresh_frame()]);
    // the run of the unwrapped sequence is its parse
    lemma_prun_p_at(s, 0);
    assert(r2 == p_at(s, s.len() as int));
    // the closing bracket folds the level into the fresh parent frame
    let rc = p_run(r1, seq![Tok::Close]);
    assert(seq![Tok::Close][0] == Tok::Close);
    assert(seq![Tok::Close].drop_first() =~= Seq::<Tok>::empty());
    assert(rc == p_run(p_step(r1, Tok::Close), seq![Tok::Close].drop_first()));
    assert(p_run(p_step(r1, Tok::Close), Seq::<Tok>::empty()) == p_step(r1, Tok::Close));
    assert(rc == p_step(r1, Tok::Close));
    assert(r1.stack.last() == fresh_frame());
    assert(s2.len() == s.len() + 2);
    assert(p_at(s2, s2.len() as int) == rc);
    assert(rc.cur.acc == Some(attach(None, Operator::Plus, acc_value(r2.cur.acc))));
    assert(spec_parse(s2) == acc_value(r2.cur.acc));
}

/// The parse of a prefix does not depend on what follows it.
pub proof fn lemma_p_at_prefix(s: Seq<Tok>, t: Seq<Tok>, j: int)
    requires
        0 <= j <= s.len(),
    ensures
        p_at(s + t, j) == p_at(s, j),
    decreases j,
{
    if j > 0 {
        lemma_p_at_prefix(s, t, j - 1);
        assert((s + t)[j - 1] == s[j - 1]);
    }
}

/// Left-to-right associativity across the additive class: an additive
/// operator written after a complete accepted expression takes the whole
/// expression as its left operand, however that expression ends.
pub proof fn lemma_additive_left_associativity(s: Seq<Tok>, o: Operator, d: Seq<u8>)
    requires
        spec_validate(s) is Ok,
        s.len() > 0,
        additive(o),
    ensures
        spec_parse(s + seq![Tok::Op(o), Tok::Num(d)]) == ExpTree::Op(
            o,
            Box::new(spec_parse(s)),
            Box::new(ExpTree::Num(d)),
        ),
{
    let tail = seq![Tok::Op(o), Tok::Num(d)];
    let s2 = s + tail;
    let n = s.len() as int;
    lemma_p_at_prefix(s, tail, n);
    assert(s2[n] == Tok::Op(o));
    assert(s2[n + 1] == Tok::Num(d));
    assert(p_at(s2, n + 1) == p_step(p_at(s2, n), Tok::Op(o)));
    assert(p_at(s2, n + 2) == p_step(p_at(s2, n + 1), Tok::Num(d)));
    // the accepted expression ends in a value, so a build state exists
    assert(val_at(s, n) is Ok);
    let st = val_at(s, n)->Ok_0;
    lemma_sim(s, n);
    assert(st.depth == 0 && st.last != Last::Op);
    lemma_val_last(s, n);
    if st.last == Last::Open {
        lemma_val_ok_prefix(s, n - 1, n);
        lemma_sim(s, n - 1);
        assert(false);
    }
    assert(st.last == Last::Num || st.last == Last::Close);
    lemma_acc(s, n);
    assert(p_at(s, n).cur.acc is Some);
    let p = p_at(s, n).cur.acc->Some_0;
    lemma_additive_attaches_at_root(p, o, ExpTree::Num(d));
    assert(s2.len() == s.len() + 2);
}

/// Left-to-right associativity within the multiplicative class: while the
/// expression built so far is one term — as in an unbroken chain of `*`
/// and `/` — the next multiplicative operator takes all of it as its left
/// operand.
pub proof fn lemma_multiplicative_left_associativity(s: Seq<Tok>, o: Operator, d: Seq<u8>)
    requires
        !additive(o),
        p_at(s, s.len() as int).cur.acc matches Some(p) && p.sum is None,
    ensures
        spec_parse(s + seq![Tok::Op(o), Tok::Num(d)]) == ExpTree::Op(
            o,
            Box::new(spec_parse(s)),
            Box::new(ExpTree::Num(d)),
        ),
{
    let tail = seq![Tok::Op(o), Tok::Num(d)];
    let s2 = s + tail;
    let n = s.len() as int;
    lemma_p_at_prefix(s, tail, n);
    assert(s2[n] == Tok::Op(o));
    assert(s2[n + 1] == Tok::Num(d));
    assert(p_at(s2, n + 1) == p_step(p_at(s2, n), Tok::Op(o)));
    assert(p_at(s2, n + 2) == p_step(p_at(s2, n + 1), Tok::Num(d)));
    assert(s2.len() == s.len() + 2);
}

/// Precedence: a multiplicative operator binds tighter than any enclosing
/// additive operator.  Written after a complete accepted expression, it
/// grows only the current term; everything already summed stays exactly
/// where it is.
pub proof fn lemma_multiplicative_binds_tighter(s: Seq<Tok>, o: Operator, d: Seq<u8>)
    requires
        spec_validate(s) is Ok,
        s.len() > 0,
        !additive(o),
    ensures
        p_at(s, s.len() as int).cur.acc matches Some(p) && p_at(
            s + seq![Tok::Op(o), Tok::Num(d)],
            s.len() as int + 2,
        ).cur.acc == Some(
            Parts {
                sum: p.sum,
                term: ExpTree::Op(o, Box::new(p.term), Box::new(ExpTree::Num(d))),
            },
        ),
{
    let tail = seq![Tok::Op(o), Tok::Num(d)];
    let s2 = s + tail;
    let n = s.len() as int;
    lemma_p_at_prefix(s, tail, n);
    assert(s2[n] == Tok::Op(o));
    assert(s2[n + 1] == Tok::Num(d));
    assert(p_at(s2, n + 1) == p_step(p_at(s2, n), Tok::Op(o)));
    assert(p_at(s2, n + 2) == p_step(p_at(s2, n + 1), Tok::Num(d)));
    assert(val_at(s, n) is Ok);
    let st = val_at(s, n)->Ok_0;
    lemma_sim(s, n);
    assert(st.depth == 0 && st.last != Last::Op);
    lemma_val_last(s, n);
    if st.last == Last::Open {
        lemma_val_ok_prefix(s, n - 1, n);
        lemma_sim(s, n - 1);
        assert(false);
    }
    assert(st.last == Last::Num || st.last == Last::Close);
    lemma_acc(s, n);
    assert(p_at(s, n).cur.acc is Some);
    let p = p_at(s, n).cur.acc->Some_0;
    lemma_multiplicative_attaches_at_term(p, o, ExpTree::Num(d));
}

/// On any prefix the validator accepts, its bracket depth equals the
/// parser's stack height.
pub proof fn lemma_sim(s: Seq<Tok>, i: int)
    requires
        0 <= i,
        val_at(s, i) is Ok,
    ensures
        match val_at(s, i) {
            Ok(st) => p_at(s, i).stack.len() == st.depth,
            Err(_) => true,
        },
    decreases i,
{
    if i > 0 {
        lemma_sim(s, i - 1);
        let prev = val_at(s, i - 1);
        match prev {
            Ok(st) => {
                match s[i - 1] {
                    Tok::Num(_) => {},
                    Tok::Op(_) => {},
                    Tok::Open => {},
                    Tok::Close => {},
                }
            },
            Err(_) => {},
        }
    }
}

/// On any prefix the validator accepts whose last token was a number or a
/// closing bracket, the parser holds a value in its current level.
pub proof fn lemma_acc(s: Seq<Tok>, i: int)
    requires
        0 <= i,
        val_at(s, i) is Ok,
    ensures
        match val_at(s, i) {
            Ok(st) => (st.last == Last::Num || st.last == Last::Close) ==> p_at(s, i).cur.acc
                is Some,
            Err(_) => true,
        },
    decreases i,
{
    if i > 0 {
        lemma_acc(s, i - 1);
        lemma_sim(s, i - 1);
        match s[i - 1] {
            Tok::Num(_) => {},
            Tok::Op(_) => {},
            Tok::Open => {},
            Tok::Close => {},
        }
    }
}

pub proof fn lemma_node_like_refl(x: Node)
    ensures
        node_like(x, x),
{
    match x {
        Node::Number(_) => {},
        Node::Operator(_) => {},
    }
}

/// Appending to the arena never disturbs a tree already laid out in it.
pub proof fn lemma_wf_push(a: Seq<Node>, x: Node, t: ITree)
    requires
        wf_at(a, t),
    ensures
        wf_at(a.push(x), t),
{
    lemma_wf_in_range(a, t);
    assert forall|k: int| #[trigger] it_indices(t).contains(k) implies 0 <= k < a.push(x).len()
        && node_like(a.push(x)[k], a[k]) by {
        lemma_node_like_refl(a[k]);
    }
    lemma_wf_frame(a, a.push(x), t);
}

/// Rerooting moves only the root's index: the expression, and every other
/// occupied slot, stay the same.
pub proof fn lemma_reroot(t: ITree, j: int)
    requires
        it_uniq(t),
        !it_indices(t).contains(j),
    ensures
        erase(reroot(t, j)) == erase(t),
        it_idx(reroot(t, j)) == j,
        it_uniq(reroot(t, j)),
        forall|k: int|
            #[trigger] it_indices(reroot(t, j)).contains(k) <==> (k == j || (it_indices(t).contains(
                k,
            ) && k != it_idx(t))),
{
    match t {
        ITree::Leaf(_, _) => {},
        ITree::Node(i, _, l, r) => {},
    }
}

/// Every prefix of an accepted sequence is accepted.
pub proof fn lemma_val_ok_prefix(s: Seq<Tok>, i: int, j: int)
    requires
        0 <= i <= j,
        val_at(s, j) is Ok,
    ensures
        val_at(s, i) is Ok,
{
    if val_at(s, i) is Err {
        lemma_val_err_sticky(s, i, j);
    }
}

/// After an accepted nonempty prefix, the validator's last-token kind is
/// the kind of the last token.
pub proof fn lemma_val_last(s: Seq<Tok>, i: int)
    requires
        1 <= i,
        val_at(s, i) is Ok,
    ensures
        match val_at(s, i) {
            Ok(st) => st.last == crate::validation::tok_kind(s[i - 1]),
            Err(_) => true,
        },
{
    lemma_val_ok_prefix(s, i - 1, i);
}

fn copy_numeral(n: &Numeral) -> (r: Numeral)
    ensures
        r.bytes@ == n.bytes@,
{
    let b = n.bytes.clone();
    proof {
        assert(b@ =~= n.bytes@);
    }
    Numeral { bytes: b }
}

fn copy_node(x: &Node) -> (r: Node)
    ensures
        node_like(r, *x),
{
    match x {
        Node::Number(n) => Node::Number(copy_numeral(n)),
        Node::Operator(op) => Node::Operator(*op),
    }
}

/// The ghost mirror of one bracket level under construction: the indexed
/// tree of everything already summed (left of the root additive operator,
/// if any), and the indexed tree of the current term.
pub struct LevelGhost {
    pub sum: Option<(ITree, Operator)>,
    pub term: ITree,
}

/// How the exec state of a level (its arena, `base` and `last` indices)
/// relates to the ghost trees: the term is laid out with its root at
/// `last`; if a sum part exists, slot `base` holds the root additive
/// operator joining it to the term, and all slots live in this level's
/// region of the arena, each used once.
pub open spec fn level_inv(a: Seq<Node>, lvl_lo: int, base: usize, last: usize, g: LevelGhost) -> bool {
    &&& wf_at(a, g.term)
    &&& it_uniq(g.term)
    &&& (forall|k: int| #[trigger] it_indices(g.term).contains(k) ==> lvl_lo <= k < a.len())
    &&& last == it_idx(g.term)
    &&& 0 <= lvl_lo
    &&& match g.sum {
        None => base == it_idx(g.term),
        Some((l, ao)) => {
            &&& lvl_lo <= base < a.len()
            &&& (a[base as int] matches Node::Operator(op) && op.operator == ao && op.left
                == it_idx(l) && op.right == it_idx(g.term))
            &&& wf_at(a, l)
            &&& it_uniq(l)
            &&& (forall|k: int| #[trigger] it_indices(l).contains(k) ==> lvl_lo <= k < a.len())
            &&& !it_indices(l).contains(base as int)
            &&& !it_indices(g.term).contains(base as int)
            &&& it_indices(l).disjoint(it_indices(g.term))
        },
    }
}

/// The building state a level's ghost trees stand for.
pub open spec fn level_exp(g: LevelGhost) -> Parts {
    Parts {
        sum: match g.sum {
            None => None,
            Some((l, ao)) => Some((erase(l), ao)),
        },
        term: erase(g.term),
    }
}

/// The whole level as one indexed tree, rooted at `base`.
pub open spec fn level_whole_it(base: usize, g: LevelGhost) -> ITree {
    match g.sum {
        None => g.term,
        Some((l, ao)) => ITree::Node(base as int, ao, Box::new(l), Box::new(g.term)),
    }
}

/// The whole level is itself laid out in the arena, and its expression is
/// the `whole` of the level's building state.
pub proof fn lemma_level_whole(a: Seq<Node>, lvl_lo: int, base: usize, last: usize, g: LevelGhost)
    requires
        level_inv(a, lvl_lo, base, last, g),
    ensures
        wf_at(a, level_whole_it(base, g)),
        it_uniq(level_whole_it(base, g)),
        it_idx(level_whole_it(base, g)) == base,
        erase(level_whole_it(base, g)) == whole(level_exp(g)),
        forall|k: int|
            #[trigger] it_indices(level_whole_it(base, g)).contains(k) ==> lvl_lo <= k < a.len(),
{
    match g.sum {
        None => {},
        Some((l, ao)) => {
            let w = level_whole_it(base, g);
            assert forall|k: int| #[trigger] it_indices(w).contains(k) implies lvl_lo <= k
                < a.len() by {
                assert(k == base as int || it_indices(l).contains(k) || it_indices(
                    g.term,
                ).contains(k));
            }
        },
    }
}

/// A layout is unaffected by changes outside the slots it occupies.
pub proof fn lemma_level_inv_frame(
    a1: Seq<Node>,
    a2: Seq<Node>,
    lvl_lo: int,
    base: usize,
    last: usize,
    g: LevelGhost,
)
    requires
        level_inv(a1, lvl_lo, base, last, g),
        a2.len() >= a1.len(),
        forall|k: int| 0 <= k < a1.len() ==> a2[k] == a1[k],
    ensures
        level_inv(a2, lvl_lo, base, last, g),
{
    assert forall|k: int| #[trigger] it_indices(g.term).contains(k) implies 0 <= k < a2.len()
        && node_like(a2[k], a1[k]) by {
        lemma_node_like_refl(a1[k]);
    }
    lemma_wf_frame(a1, a2, g.term);
    match g.sum {
        None => {},
        Some((l, ao)) => {
            assert forall|k: int| #[trigger] it_indices(l).contains(k) implies 0 <= k < a2.len()
                && node_like(a2[k], a1[k]) by {
                lemma_node_like_refl(a1[k]);
            }
            lemma_wf_frame(a1, a2, l);
        },
    }
}

/// The expression arena: a growable store of nodes addressed by index.
pub struct TokenTree {
    pub tokens: Vec<Node>,
}

impl TokenTree {
    /// Append a numeric leaf.
    fn add_leaf(&mut self, n: Numeral) -> (j: usize)
        ensures
            j == old(self).tokens.len(),
            final(self).tokens@ == old(self).tokens@.push(Node::Number(n)),
    {
        let j = self.tokens.len();
        self.tokens.push(Node::Number(n));
        j
    }

    /// Append an operator node joining the tree rooted at `base` with the
    /// value at `j`: how an additive operator attaches, at the root.
    fn add_base(&mut self, o: Operator, base: usize, j: usize) -> (nb: usize)
        ensures
            nb == old(self).tokens.len(),
            final(self).tokens@ == old(self).tokens@.push(
                Node::Operator(NodeOp { operator: o, left: base, right: j }),
            ),
    {
        let nb = self.tokens.len();
        self.tokens.push(Node::Operator(NodeOp { operator: o, left: base, right: j }));
        nb
    }

    /// Overwrite the node at `last` with an operator node whose left child
    /// is a fresh copy of the overwritten node and whose right child is the
    /// value at `j`: how a multiplicative operator attaches, at the current
    /// term, without touching anything above it.
    fn add_last(&mut self, o: Operator, last: usize, j: usize) -> (n: usize)
        requires
            last < old(self).tokens.len(),
        ensures
            n == old(self).tokens.len(),
            final(self).tokens@.len() == old(self).tokens@.len() + 1,
            node_like(final(self).tokens@[n as int], old(self).tokens@[last as int]),
            final(self).tokens@[last as int] == Node::Operator(
                NodeOp { operator: o, left: n, right: j },
            ),
            forall|k: int|
                0 <= k < old(self).tokens@.len() && k != last
                    ==> final(self).tokens@[k] == old(self).tokens@[k],
    {
        let n = self.tokens.len();
        let moved = copy_node(&self.tokens[last]);
        self.tokens.push(moved);
        self.tokens.set(last, Node::Operator(NodeOp { operator: o, left: n, right: j }));
        n
    }

    /// Attach the value whose subtree root sits at index `j`, under the
    /// pending operator `o`.  The first value of a level simply becomes the
    /// level's tree; an additive operator grafts at the root; a
    /// multiplicative operator grafts at the current term.
    fn add_next(
        &mut self,
        o: Operator,
        j: usize,
        has_value: bool,
        base: usize,
        last: usize,
        Ghost(v_it): Ghost<ITree>,
        Ghost(lvl_lo): Ghost<int>,
        Ghost(g): Ghost<LevelGhost>,
    ) -> (r: (usize, usize, Ghost<LevelGhost>))
        requires
            wf_at(old(self).tokens@, v_it),
            it_uniq(v_it),
            it_idx(v_it) == j,
            0 <= lvl_lo,
            forall|k: int|
                #[trigger] it_indices(v_it).contains(k) ==> lvl_lo <= k < old(self).tokens@.len(),
            has_value ==> level_inv(old(self).tokens@, lvl_lo, base, last, g),
            has_value ==> it_indices(g.term).disjoint(it_indices(v_it)),
            has_value ==> !it_indices(v_it).contains(base as int),
            has_value ==> match g.sum {
                None => true,
                Some((l, _)) => it_indices(l).disjoint(it_indices(v_it)),
            },
        ensures
            final(self).tokens@.len() >= old(self).tokens@.len(),
            forall|k: int|
                0 <= k < lvl_lo && k < old(self).tokens@.len()
                    ==> final(self).tokens@[k] == old(self).tokens@[k],
            level_inv(final(self).tokens@, lvl_lo, r.0, r.1, r.2@),
            level_exp(r.2@) == attach(
                if has_value {
                    Some(level_exp(g))
                } else {
                    None
                },
                o,
                erase(v_it),
            ),
    {
        if !has_value {
            return (j, j, Ghost(LevelGhost { sum: None, term: v_it }));
        }
        let is_add = match o {
            Operator::Plus => true,
            Operator::Minus => true,
            Operator::Mul => false,
            Operator::Div => false,
        };
        if is_add {
            let ghost a1 = self.tokens@;
            let ghost w = level_whole_it(base, g);
            proof {
                lemma_level_whole(a1, lvl_lo, base, last, g);
            }
            let nb = self.add_base(o, base, j);
            proof {
                let a2 = self.tokens@;
                lemma_wf_push(a1, Node::Operator(NodeOp { operator: o, left: base, right: j }), w);
                lemma_wf_push(a1, Node::Operator(NodeOp { operator: o, left: base, right: j }), v_it);
                lemma_root_in_indices(w);
                lemma_root_in_indices(v_it);
                let g2 = LevelGhost { sum: Some((w, o)), term: v_it };
                assert forall|k: int| #[trigger] it_indices(w).contains(k) implies lvl_lo <= k
                    < a2.len() by {}
                assert(a2[nb as int] == Node::Operator(NodeOp { operator: o, left: base, right: j }));
                assert(it_idx(w) == base);
                assert(!it_indices(w).contains(nb as int));
                assert(!it_indices(v_it).contains(nb as int));
                assert(it_indices(w).disjoint(it_indices(v_it))) by {
                    assert forall|k: int| !(it_indices(w).contains(k) && it_indices(v_it).contains(
                        k,
                    )) by {
                        if it_indices(w).contains(k) && it_indices(v_it).contains(k) {
                            assert(k == base as int || it_indices(g.term).contains(k) || (
                            g.sum matches Some((l, _)) && it_indices(l).contains(k)));
                        }
                    }
                }
                assert(level_inv(a2, lvl_lo, nb, j, g2));
            }
            (nb, j, Ghost(LevelGhost { sum: Some((w, o)), term: v_it }))
        } else {
            let ghost a1 = self.tokens@;
            let n = self.add_last(o, last, j);
            let ghost t2 = ITree::Node(
                last as int,
                o,
                Box::new(reroot(g.term, n as int)),
                Box::new(v_it),
            );
            proof {
                let a2 = self.tokens@;
                lemma_root_in_indices(g.term);
                lemma_root_in_indices(v_it);
                lemma_wf_in_range(a1, g.term);
                lemma_wf_in_range(a1, v_it);
                assert(!it_indices(g.term).contains(n as int));
                lemma_reroot(g.term, n as int);
                // the rerooted term is laid out: its root moved to the copy at n,
                // its other slots were not touched
                assert forall|k: int| #[trigger] it_indices(g.term).contains(k) implies 0 <= k
                    < a2.len() && node_like(
                    a2[if k == last as int {
                        n as int
                    } else {
                        k
                    }],
                    a1[k],
                ) by {
                    if k == last as int {
                    } else {
                        lemma_node_like_refl(a1[k]);
                    }
                }
                match g.term {
                    ITree::Leaf(_, _) => {
                        assert(wf_at(a2, reroot(g.term, n as int)));
                    },
                    ITree::Node(_, _, tl, tr) => {
                        assert forall|k: int| #[trigger] it_indices(*tl).contains(k) implies 0 <= k
                            < a2.len() && node_like(a2[k], a1[k]) by {
                            assert(it_indices(g.term).contains(k));
                            assert(k != last as int);
                            lemma_node_like_refl(a1[k]);
                        }
                        assert forall|k: int| #[trigger] it_indices(*tr).contains(k) implies 0 <= k
                            < a2.len() && node_like(a2[k], a1[k]) by {
                            assert(it_indices(g.term).contains(k));
                            assert(k != last as int);
                            lemma_node_like_refl(a1[k]);
                        }
                        lemma_wf_frame(a1, a2, *tl);
                        lemma_wf_frame(a1, a2, *tr);
                        assert(wf_at(a2, reroot(g.term, n as int)));
                    },
                }
                // the attached value is untouched: its slots exclude `last`
                assert forall|k: int| #[trigger] it_indices(v_it).contains(k) implies 0 <= k
                    < a2.len() && node_like(a2[k], a1[k]) by {
                    assert(!it_indices(g.term).contains(k));
                    assert(k != last as int);
                    lemma_node_like_refl(a1[k]);
                }
                lemma_wf_frame(a1, a2, v_it);
                assert(wf_at(a2, t2));
                // uniqueness and slot ranges of the new term
                assert(it_uniq(t2)) by {
                    assert forall|k: int| !(it_indices(reroot(g.term, n as int)).contains(k)
                        && it_indices(v_it).contains(k)) by {}
                }
                assert forall|k: int| #[trigger] it_indices(t2).contains(k) implies lvl_lo <= k
                    < a2.len() by {
                    assert(k == last as int || it_indices(reroot(g.term, n as int)).contains(k)
                        || it_indices(v_it).contains(k));
                }
                let g2 = LevelGhost { sum: g.sum, term: t2 };
                match g.sum {
                    None => {
                        assert(level_inv(a2, lvl_lo, base, last, g2));
                    },
                    Some((l, ao)) => {
                        lemma_wf_in_range(a1, l);
                        assert(base as int != last as int);
                        assert(a2[base as int] == a1[base as int]);
                        assert forall|k: int| #[trigger] it_indices(l).contains(k) implies 0 <= k
                            < a2.len() && node_like(a2[k], a1[k]) by {
                            assert(!it_indices(g.term).contains(k));
                            assert(k != last as int);
                            lemma_node_like_refl(a1[k]);
                        }
                        lemma_wf_frame(a1, a2, l);
                        assert(!it_indices(t2).contains(base as int)) by {
                            assert(!it_indices(reroot(g.term, n as int)).contains(base as int));
                            assert(!it_indices(v_it).contains(base as int));
                        }
                        assert(it_indices(l).disjoint(it_indices(t2))) by {
                            assert forall|k: int| !(it_indices(l).contains(k) && it_indices(
                                t2,
                            ).contains(k)) by {
                                if it_indices(l).contains(k) {
                                    assert(k < a1.len());
                                    assert(!it_indices(g.term).contains(k));
                                    assert(!it_indices(reroot(g.term, n as int)).contains(k));
                                    assert(!it_indices(v_it).contains(k));
                                    assert(k != last as int);
                                }
                            }
                        }
                        assert(level_inv(a2, lvl_lo, base, last, g2));
                    },
                }
            }
            (base, last, Ghost(LevelGhost { sum: g.sum, term: t2 }))
        }
    }
}

/// Build one bracket level, starting at token `start` with a fresh frame,
/// consuming tokens until the level's closing bracket (consumed) or the
/// end of the sequence.  Returns the arena index of the level's root, the
/// position after the level, and the level's indexed tree.
fn build_level(tokens: &Vec<Token>, start: usize, tree: &mut TokenTree) -> (r: (
    usize,
    usize,
    Ghost<ITree>,
))
    requires
        spec_validate(tv(tokens@)) is Ok,
        tokens@.len() > 0,
        start <= tokens@.len(),
        p_at(tv(tokens@), start as int).cur == fresh_frame(),
    ensures
        start <= r.1 <= tokens@.len(),
        final(tree).tokens@.len() >= old(tree).tokens@.len(),
        forall|k: int|
            0 <= k < old(tree).tokens@.len() ==> final(tree).tokens@[k] == old(tree).tokens@[k],
        wf_at(final(tree).tokens@, r.2@),
        it_uniq(r.2@),
        forall|k: int|
            #[trigger] it_indices(r.2@).contains(k) ==> old(tree).tokens@.len() <= k
                < final(tree).tokens@.len(),
        r.0 == it_idx(r.2@),
        ({
            let s = tv(tokens@);
            let j = r.1 as int;
            ||| (j == s.len() && p_at(s, j).stack == p_at(s, start as int).stack && (p_at(
                s,
                j,
            ).cur.acc matches Some(p) && whole(p) == erase(r.2@)))
            ||| (j >= start + 1 && s[j - 1] == Tok::Close && p_at(s, j - 1).stack == p_at(
                s,
                start as int,
            ).stack && (p_at(s, j - 1).cur.acc matches Some(p) && whole(p) == erase(r.2@)))
        }),
    decreases tokens@.len() - start,
{
    let ghost s: Seq<Tok> = tv(tokens@);
    let ghost lvl_lo: int = tree.tokens@.len() as int;
    let ghost a0: Seq<Node> = tree.tokens@;
    let ghost entry: int = start as int;
    let mut i: usize = start;
    let mut operator = Operator::Plus;
    let mut has_value = false;
    let mut base: usize = 0;
    let mut last: usize = 0;
    let mut g: Ghost<LevelGhost> = Ghost(
        LevelGhost { sum: None, term: ITree::Leaf(0, Seq::empty()) },
    );
    proof {
        assert(s.len() == tokens@.len());
    }
    while i < tokens.len()
        invariant
            s == tv(tokens@),
            s.len() == tokens@.len(),
            spec_validate(s) is Ok,
            s.len() > 0,
            entry == start as int,
            entry <= i <= tokens@.len(),
            a0 == old(tree).tokens@,
            lvl_lo == a0.len(),
            tree.tokens@.len() >= lvl_lo,
            forall|k: int| 0 <= k < lvl_lo ==> tree.tokens@[k] == a0[k],
            p_at(s, i as int).stack == p_at(s, entry).stack,
            p_at(s, i as int).cur.pending == operator,
            p_at(s, i as int).cur.acc == (if has_value {
                Some(level_exp(g@))
            } else {
                None::<Parts>
            }),
            has_value ==> level_inv(tree.tokens@, lvl_lo, base, last, g@),
        decreases tokens@.len() - i,
    {
        let ghost i0: int = i as int;
        proof {
            assert(s[i0] == tokens@[i0]@);
        }
        match &tokens[i] {
            Token::Number(n) => {
                let num = copy_numeral(n);
                let ghost nb: Seq<u8> = num.bytes@;
                let ghost a1: Seq<Node> = tree.tokens@;
                let j = tree.add_leaf(num);
                let ghost v_it: ITree = ITree::Leaf(j as int, nb);
                proof {
                    if has_value {
                        lemma_level_inv_frame(a1, tree.tokens@, lvl_lo, base, last, g@);
                        lemma_wf_in_range(a1, g@.term);
                        if g@.sum is Some {
                            lemma_wf_in_range(a1, g@.sum->Some_0.0);
                        }
                    }
                    assert(wf_at(tree.tokens@, v_it));
                }
                let (b2, l2, g2) = tree.add_next(
                    operator,
                    j,
                    has_value,
                    base,
                    last,
                    Ghost(v_it),
                    Ghost(lvl_lo),
                    g,
                );
                proof {
                    assert(p_at(s, i0 + 1) == p_step(p_at(s, i0), s[i0]));
                    assert(s[i0] == Tok::Num(nb));
                }
                base = b2;
                last = l2;
                g = g2;
                has_value = true;
                i = i + 1;
            },
            Token::Operator(o) => {
                operator = *o;
                proof {
                    assert(p_at(s, i0 + 1) == p_step(p_at(s, i0), s[i0]));
                }
                i = i + 1;
            },
            Token::Bracket(b) => {
                if *b {
                    proof {
                        assert(p_at(s, i0 + 1) == p_step(p_at(s, i0), s[i0]));
                        assert(p_at(s, i0 + 1).cur == fresh_frame());
                    }
                    i = i + 1;
                    let ghost a1: Seq<Node> = tree.tokens@;
                    let (sub_root, sub_end, sub_g) = build_level(tokens, i, tree);
                    proof {
                        // the sub-level must have ended on its closing bracket:
                        // at the end of the input the whole stack has unwound
                        lemma_val_ok_prefix(s, s.len() as int, s.len() as int);
                        if sub_end as int == s.len() && p_at(s, sub_end as int).stack == p_at(
                            s,
                            i as int,
                        ).stack {
                            lemma_sim(s, s.len() as int);
                            assert(p_at(s, i as int).stack.len() == p_at(s, i0).stack.len() + 1);
                            assert(false);
                        }
                        // restore this level's layout in the grown arena
                        if has_value {
                            lemma_level_inv_frame(a1, tree.tokens@, lvl_lo, base, last, g@);
                            lemma_wf_in_range(a1, g@.term);
                            if g@.sum is Some {
                                lemma_wf_in_range(a1, g@.sum->Some_0.0);
                            }
                        }
                    }
                    let (b2, l2, g2) = tree.add_next(
                        operator,
                        sub_root,
                        has_value,
                        base,
                        last,
                        sub_g,
                        Ghost(lvl_lo),
                        g,
                    );
                    proof {
                        let jc: int = sub_end as int;
                        assert(s[jc - 1] == Tok::Close);
                        assert(p_at(s, jc) == p_step(p_at(s, jc - 1), Tok::Close));
                        assert(p_at(s, jc - 1).stack == p_at(s, i as int).stack);
                        assert(p_at(s, i as int).stack == p_at(s, i0).stack.push(p_at(s, i0).cur));
                        assert(p_at(s, jc - 1).stack.len() > 0);
                        assert(p_at(s, jc - 1).stack.last() == p_at(s, i0).cur);
                        assert(p_at(s, jc - 1).stack.drop_last() =~= p_at(s, i0).stack);
                        assert(p_at(s, jc).stack == p_at(s, i0).stack);
                        assert(acc_value(p_at(s, jc - 1).cur.acc) == erase(sub_g@));
                    }
                    base = b2;
                    last = l2;
                    g = g2;
                    has_value = true;
                    i = sub_end;
                } else {
                    // the closing bracket ends this level
                    proof {
                        lemma_val_ok_prefix(s, i0 + 1, s.len() as int);
                        lemma_val_ok_prefix(s, i0, i0 + 1);
                        assert(val_at(s, i0 + 1) == val_step(val_at(s, i0)->Ok_0, s[i0]));
                        let st = val_at(s, i0)->Ok_0;
                        assert(st.last != Last::Op && st.last != Last::Open);
                        lemma_sim(s, i0);
                        if i0 == 0 {
                            assert(st.depth == 0);
                            assert(false);
                        }
                        lemma_val_last(s, i0);
                        assert(st.last == Last::Num || st.last == Last::Close);
                        lemma_acc(s, i0);
                        assert(p_at(s, i0).cur.acc is Some);
                        assert(has_value);
                        lemma_level_whole(tree.tokens@, lvl_lo, base, last, g@);
                    }
                    let ghost w: ITree = level_whole_it(base, g@);
                    i = i + 1;
                    return (base, i, Ghost(w));
                }
            },
        }
    }
    // end of input: the level is everything since `start`
    proof {
        let n: int = s.len() as int;
        assert(val_at(s, n) is Ok);
        let st = val_at(s, n)->Ok_0;
        lemma_sim(s, n);
        assert(st.depth == 0 && st.last != Last::Op);
        lemma_val_last(s, n);
        if st.last == Last::Open {
            lemma_val_ok_prefix(s, n - 1, n);
            lemma_sim(s, n - 1);
            assert(false);
        }
        assert(st.last == Last::Num || st.last == Last::Close);
        lemma_acc(s, n);
        assert(p_at(s, n).cur.acc is Some);
        assert(has_value);
        lemma_level_whole(tree.tokens@, lvl_lo, base, last, g@);
    }
    let ghost w: ITree = level_whole_it(base, g@);
    (base, i, Ghost(w))
}

/// Build the whole expression tree of a validated token sequence into a
/// fresh arena.  Consumes the sequence in one left-to-right pass, with
/// recursion only on bracket nesting.
pub fn create_eval_tree_recursive(tokens: &Vec<Token>) -> (r: (TokenTree, usize, Ghost<ITree>))
    requires
        spec_validate(tv(tokens@)) is Ok,
        tokens@.len() > 0,
    ensures
        wf_at(r.0.tokens@, r.2@),
        it_uniq(r.2@),
        r.1 == it_idx(r.2@),
        forall|k: int| #[trigger] it_indices(r.2@).contains(k) ==> 0 <= k < r.0.tokens@.len(),
        erase(r.2@) == spec_parse(tv(tokens@)),
{
    let ghost s: Seq<Tok> = tv(tokens@);
    let mut tree = TokenTree { tokens: Vec::new() };
    proof {
        assert(s.len() == tokens@.len());
        assert(p_at(s, 0).cur == fresh_frame());
    }
    let (root, end, g) = build_level(tokens, 0, &mut tree);
    proof {
        // the level cannot have ended on a closing bracket: at the top the
        // stack is empty, and the validator rejects an unmatched close
        let j: int = end as int;
        if j >= 1 && s[j - 1] == Tok::Close && p_at(s, j - 1).stack == p_at(s, 0).stack {
            lemma_val_ok_prefix(s, j, s.len() as int);
            lemma_val_ok_prefix(s, j - 1, j);
            lemma_sim(s, j - 1);
            assert(val_at(s, j) == val_step(val_at(s, j - 1)->Ok_0, s[j - 1]));
            assert(false);
        }
        assert(end as int == s.len());
        assert(p_at(s, s.len() as int).cur.acc matches Some(p) && whole(p) == erase(g@));
    }
    (tree, root, g)
}

/// One fold step of an evaluation plan: apply `op` to the values in slots
/// `left` and `right` and store the result in slot `dst`.
#[derive(Clone, Copy, Debug, PartialEq, Eq, Structural)]
pub struct Step {
    pub dst: usize,
    pub op: Operator,
    pub left: usize,
    pub right: usize,
}

/// The slot values an executor starts from: every numeric leaf holds its
/// numeral, operator slots hold a placeholder until a step fills them.
pub open spec fn init_slots(a: Seq<Node>) -> Seq<ExpTree> {
    Seq::new(
        a.len(),
        |k: int|
            match a[k] {
                Node::Number(n) => ExpTree::Num(n.bytes@),
                Node::Operator(_) => junk_exp(),
            },
    )
}

pub open spec fn apply_step(sl: Seq<ExpTree>, st: Step) -> Seq<ExpTree> {
    if (st.dst as int) < sl.len() && (st.left as int) < sl.len() && (st.right as int) < sl.len() {
        sl.update(
            st.dst as int,
            ExpTree::Op(st.op, Box::new(sl[st.left as int]), Box::new(sl[st.right as int])),
        )
    } else {
        sl
    }
}

/// The slots after running a list of fold steps in order.  Interpreting
/// steps over expression trees keeps the plan's meaning independent of any
/// particular number representation: an executor that interprets numerals
/// and operators computes exactly the expression this run builds.
pub open spec fn run_steps(sl: Seq<ExpTree>, steps: Seq<Step>) -> Seq<ExpTree>
    decreases steps.len(),
{
    if steps.len() == 0 {
        sl
    } else {
        apply_step(run_steps(sl, steps.drop_last()), steps.last())
    }
}

pub proof fn lemma_run_len(sl: Seq<ExpTree>, steps: Seq<Step>)
    ensures
        run_steps(sl, steps).len() == sl.len(),
    decreases steps.len(),
{
    if steps.len() > 0 {
        lemma_run_len(sl, steps.drop_last());
    }
}

pub proof fn lemma_run_concat(sl: Seq<ExpTree>, a: Seq<Step>, b: Seq<Step>)
    ensures
        run_steps(sl, a + b) == run_steps(run_steps(sl, a), b),
    decreases b.len(),
{
    if b.len() == 0 {
        assert(a + b =~= a);
    } else {
        lemma_run_concat(sl, a, b.drop_last());
        assert((a + b).drop_last() =~= a + b.drop_last());
        assert((a + b).last() == b.last());
        assert((a + b).len() > 0);
    }
}

/// The arena slots holding the operator nodes of a tree: the slots a plan
/// for that tree writes to.
pub open spec fn it_inner(t: ITree) -> Set<int>
    decreases t,
{
    match t {
        ITree::Leaf(_, _) => Set::empty(),
        ITree::Node(i, _, l, r) => it_inner(*l).union(it_inner(*r)).insert(i),
    }
}

pub proof fn lemma_inner_sub(t: ITree)
    ensures
        forall|k: int| #[trigger] it_inner(t).contains(k) ==> it_indices(t).contains(k),
    decreases t,
{
    match t {
        ITree::Leaf(_, _) => {},
        ITree::Node(i, _, l, r) => {
            lemma_inner_sub(*l);
            lemma_inner_sub(*r);
            assert forall|k: int| #[trigger] it_inner(t).contains(k) implies it_indices(
                t,
            ).contains(k) by {
                assert(k == i || it_inner(*l).contains(k) || it_inner(*r).contains(k));
            }
        },
    }
}

/// The value a tree takes when its leaves are read from the given slots.
pub open spec fn tval(sl: Seq<ExpTree>, t: ITree) -> ExpTree
    decreases t,
{
    match t {
        ITree::Leaf(i, _) => sl[i],
        ITree::Node(_, o, l, r) => ExpTree::Op(o, Box::new(tval(sl, *l)), Box::new(tval(sl, *r))),
    }
}

pub proof fn lemma_tval_frame(sl1: Seq<ExpTree>, sl2: Seq<ExpTree>, t: ITree)
    requires
        forall|k: int| #[trigger] it_indices(t).contains(k) ==> 0 <= k < sl1.len() && sl2.len()
            > k && sl2[k] == sl1[k],
    ensures
        tval(sl2, t) == tval(sl1, t),
    decreases t,
{
    lemma_root_in_indices(t);
    match t {
        ITree::Leaf(_, _) => {},
        ITree::Node(_, _, l, r) => {
            assert forall|k: int| #[trigger] it_indices(*l).contains(k) implies 0 <= k < sl1.len()
                && sl2.len() > k && sl2[k] == sl1[k] by {
                assert(it_indices(t).contains(k));
            }
            assert forall|k: int| #[trigger] it_indices(*r).contains(k) implies 0 <= k < sl1.len()
                && sl2.len() > k && sl2[k] == sl1[k] by {
                assert(it_indices(t).contains(k));
            }
            lemma_tval_frame(sl1, sl2, *l);
            lemma_tval_frame(sl1, sl2, *r);
        },
    }
}

/// On the initial slots, a laid-out tree's value is its own expression.
pub proof fn lemma_tval_init(a: Seq<Node>, t: ITree)
    requires
        wf_at(a, t),
    ensures
        tval(init_slots(a), t) == erase(t),
    decreases t,
{
    match t {
        ITree::Leaf(_, _) => {},
        ITree::Node(_, _, l, r) => {
            lemma_tval_init(a, *l);
            lemma_tval_init(a, *r);
        },
    }
}

/// The recursive plan strategy: an ordinary post-order walk.  Used for
/// small arenas, where the recursion depth is no concern.
fn evaluate_node_stack(tree: &TokenTree, i: usize, Ghost(t): Ghost<ITree>) -> (steps: Vec<Step>)
    requires
        wf_at(tree.tokens@, t),
        it_uniq(t),
        it_idx(t) == i as int,
    ensures
        forall|q: int|
            0 <= q < steps@.len() ==> ((#[trigger] steps@[q]).dst as int) < tree.tokens@.len()
                && (steps@[q].left as int) < tree.tokens@.len() && (steps@[q].right as int)
                < tree.tokens@.len(),
        forall|sl: Seq<ExpTree>|
            sl.len() == tree.tokens@.len() ==> (#[trigger] run_steps(sl, steps@))[i as int] == tval(
                sl,
                t,
            ) && (forall|k: int|
                0 <= k < sl.len() && !it_inner(t).contains(k) ==> run_steps(sl, steps@)[k] == sl[k]),
    decreases t,
{
    proof {
        lemma_root_in_indices(t);
        lemma_wf_in_range(tree.tokens@, t);
    }
    match &tree.tokens[i] {
        Node::Number(_) => {
            let steps: Vec<Step> = Vec::new();
            proof {
                assert(t matches ITree::Leaf(_, _));
                assert forall|sl: Seq<ExpTree>| sl.len() == tree.tokens@.len() implies (
                #[trigger] run_steps(sl, steps@))[i as int] == tval(sl, t) && (forall|k: int|
                    0 <= k < sl.len() && !it_inner(t).contains(k) ==> run_steps(sl, steps@)[k]
                        == sl[k]) by {
                    assert(run_steps(sl, steps@) == sl);
                }
            }
            steps
        },
        Node::Operator(op) => {
            let ghost lt: ITree = (*t->Node_2);
            let ghost rt: ITree = (*t->Node_3);
            proof {
                assert(t matches ITree::Node(_, _, _, _));
                lemma_inner_sub(t);
                lemma_inner_sub(lt);
                lemma_inner_sub(rt);
            }
            let mut steps = evaluate_node_stack(tree, op.left, Ghost(lt));
            let mut right_steps = evaluate_node_stack(tree, op.right, Ghost(rt));
            let ghost ls: Seq<Step> = steps@;
            let ghost rs: Seq<Step> = right_steps@;
            steps.append(&mut right_steps);
            let st = Step { dst: i, op: op.operator, left: op.left, right: op.right };
            steps.push(st);
            proof {
                assert(steps@ =~= (ls + rs).push(st));
                lemma_wf_in_range(tree.tokens@, lt);
                lemma_wf_in_range(tree.tokens@, rt);
                lemma_root_in_indices(lt);
                lemma_root_in_indices(rt);
                assert forall|q: int| 0 <= q < steps@.len() implies ((#[trigger] steps@[q]).dst
                    as int) < tree.tokens@.len() && (steps@[q].left as int) < tree.tokens@.len()
                    && (steps@[q].right as int) < tree.tokens@.len() by {
                    if q < ls.len() {
                        assert(steps@[q] == ls[q]);
                    } else if q < ls.len() + rs.len() {
                        assert(steps@[q] == rs[q - ls.len()]);
                    } else {
                        assert(steps@[q] == st);
                    }
                }
                assert forall|sl: Seq<ExpTree>| sl.len() == tree.tokens@.len() implies (
                #[trigger] run_steps(sl, steps@))[i as int] == tval(sl, t) && (forall|k: int|
                    0 <= k < sl.len() && !it_inner(t).contains(k) ==> run_steps(sl, steps@)[k]
                        == sl[k]) by {
                    let o1 = run_steps(sl, ls);
                    let o2 = run_steps(o1, rs);
                    lemma_run_len(sl, ls);
                    lemma_run_len(o1, rs);
                    lemma_run_concat(sl, ls, rs);
                    assert(run_steps(sl, ls + rs) == o2);
                    assert(steps@.drop_last() =~= ls + rs);
                    assert(steps@.last() == st);
                    assert(run_steps(sl, steps@) == apply_step(o2, st));
                    lemma_wf_in_range(tree.tokens@, lt);
                    lemma_wf_in_range(tree.tokens@, rt);
                    lemma_root_in_indices(lt);
                    lemma_root_in_indices(rt);
                    // the left value survives the right plan: their slots are disjoint
                    assert(!it_inner(rt).contains(op.left as int));
                    assert(o2[op.left as int] == tval(sl, lt));
                    // the right subtree reads only its own slots, untouched by the left plan
                    assert forall|k: int| #[trigger] it_indices(rt).contains(k) implies 0 <= k
                        < o1.len() && o2.len() > k && o1[k] == sl[k] by {
                        assert(!it_inner(lt).contains(k));
                    }
                    lemma_tval_frame(sl, o1, rt);
                    assert(o2[op.right as int] == tval(o1, rt));
                    assert(tval(o1, rt) == tval(sl, rt));
                    assert(apply_step(o2, st)[i as int] == tval(sl, t));
                    assert forall|k: int|
                        0 <= k < sl.len() && !it_inner(t).contains(k) implies run_steps(
                        sl,
                        steps@,
                    )[k] == sl[k] by {
                        assert(!it_inner(lt).contains(k));
                        assert(!it_inner(rt).contains(k));
                        assert(k != i as int);
                    }
                }
            }
            steps
        },
    }
}

/// The iterative plan strategy: an explicit work-list of arena indices
/// replaces the call stack, for arenas too large to walk recursively.  An
/// operator node whose children both hold values gets its step emitted and
/// is marked resolved; one with an unresolved child is revisited after its
/// children.  The fuel bound far exceeds the work-list's real iteration
/// count and only serves the termination check; were it ever to run out,
/// the recursive strategy computes the same plan.
fn evaluate_node_heap(tree: &TokenTree, root: usize, Ghost(t): Ghost<ITree>) -> (steps: Vec<Step>)
    requires
        wf_at(tree.tokens@, t),
        it_uniq(t),
        it_idx(t) == root as int,
    ensures
        forall|q: int|
            0 <= q < steps@.len() ==> ((#[trigger] steps@[q]).dst as int) < tree.tokens@.len()
                && (steps@[q].left as int) < tree.tokens@.len() && (steps@[q].right as int)
                < tree.tokens@.len(),
        run_steps(init_slots(tree.tokens@), steps@).len() == tree.tokens@.len(),
        run_steps(init_slots(tree.tokens@), steps@)[root as int] == erase(t),
{
    let ghost a: Seq<Node> = tree.tokens@;
    let ghost sl0: Seq<ExpTree> = init_slots(a);
    let n = tree.tokens.len();
    let mut resolved: Vec<bool> = Vec::new();
    let mut q: usize = 0;
    while q < n
        invariant
            n == tree.tokens@.len(),
            resolved@.len() == q,
            q <= n,
            forall|k: int|
                0 <= k < q ==> ((#[trigger] resolved@[k]) <==> (tree.tokens@[k]
                    matches Node::Number(_))),
        decreases n - q,
    {
        let is_num = match &tree.tokens[q] {
            Node::Number(_) => true,
            Node::Operator(_) => false,
        };
        resolved.push(is_num);
        q = q + 1;
    }
    let mut steps: Vec<Step> = Vec::new();
    let mut stack: Vec<usize> = Vec::new();
    proof {
        lemma_root_in_indices(t);
        lemma_wf_in_range(a, t);
        assert((root as int) < a.len());
        assert forall|k: int|
            0 <= k < n && resolved@[k] && (#[trigger] it_find(t, k)) is Some implies run_steps(
            sl0,
            steps@,
        )[k] == erase(it_find(t, k)->Some_0) by {
            lemma_find_wf(a, t, k);
            let sub = it_find(t, k)->Some_0;
            match sub {
                ITree::Leaf(_, _) => {},
                ITree::Node(_, _, _, _) => {},
            }
        }
    }
    stack.push(root);
    let mut fuel: usize = usize::MAX;
    while stack.len() > 0 && fuel > 0
        invariant
            n == tree.tokens@.len(),
            a == tree.tokens@,
            sl0 == init_slots(a),
            wf_at(a, t),
            it_uniq(t),
            it_idx(t) == root as int,
            (root as int) < a.len(),
            resolved@.len() == n,
            forall|k: int| 0 <= k < n && (a[k] matches Node::Number(_)) ==> #[trigger] resolved@[k],
            forall|j: int| 0 <= j < stack@.len() ==> it_find(t, #[trigger] stack@[j] as int) is Some,
            stack@.len() > 0 ==> stack@[0] == root,
            stack@.len() == 0 ==> resolved@[root as int],
            forall|q2: int|
                0 <= q2 < steps@.len() ==> ((#[trigger] steps@[q2]).dst as int) < a.len() && (
                steps@[q2].left as int) < a.len() && (steps@[q2].right as int) < a.len(),
            forall|k: int|
                0 <= k < n && resolved@[k] && (#[trigger] it_find(t, k)) is Some ==> run_steps(
                    sl0,
                    steps@,
                )[k] == erase(it_find(t, k)->Some_0),
        decreases fuel,
    {
        fuel = fuel - 1;
        let top = stack[stack.len() - 1];
        proof {
            assert(it_find(t, top as int) is Some);
            lemma_find_wf(a, t, top as int);
            let sub = it_find(t, top as int)->Some_0;
            match sub {
                ITree::Leaf(_, _) => {},
                ITree::Node(_, _, _, _) => {},
            }
            assert((top as int) < a.len());
        }
        if resolved[top] {
            let ghost stack0: Seq<usize> = stack@;
            stack.pop();
            proof {
                if stack@.len() == 0 {
                    assert(stack0[0] == root);
                    assert(top == root);
                }
            }
        } else {
            match &tree.tokens[top] {
                Node::Number(_) => {
                    proof {
                        assert(false);
                    }
                    stack.pop();
                },
                Node::Operator(op) => {
                    let l = op.left;
                    let r = op.right;
                    proof {
                        let sub = it_find(t, top as int)->Some_0;
                        assert(sub matches ITree::Node(_, _, _, _));
                        lemma_find_child(t, top as int);
                        assert(it_idx((*sub->Node_2)) == l as int);
                        assert(it_idx((*sub->Node_3)) == r as int);
                        lemma_find_wf(a, t, l as int);
                        lemma_find_wf(a, t, r as int);
                        let subl = it_find(t, l as int)->Some_0;
                        match subl {
                            ITree::Leaf(_, _) => {},
                            ITree::Node(_, _, _, _) => {},
                        }
                        let subr = it_find(t, r as int)->Some_0;
                        match subr {
                            ITree::Leaf(_, _) => {},
                            ITree::Node(_, _, _, _) => {},
                        }
                        assert((l as int) < a.len() && (r as int) < a.len());
                    }
                    if resolved[l] && resolved[r] {
                        let ghost steps0: Seq<Step> = steps@;
                        let ghost stack0: Seq<usize> = stack@;
                        let st = Step { dst: top, op: op.operator, left: l, right: r };
                        steps.push(st);
                        resolved.set(top, true);
                        stack.pop();
                        proof {
                            assert(steps@.drop_last() =~= steps0);
                            assert(steps@.last() == st);
                            let out0 = run_steps(sl0, steps0);
                            lemma_run_len(sl0, steps0);
                            assert(run_steps(sl0, steps@) == apply_step(out0, st));
                            let sub = it_find(t, top as int)->Some_0;
                            let subl = it_find(t, l as int)->Some_0;
                            let subr = it_find(t, r as int)->Some_0;
                            assert(out0[l as int] == erase(subl));
                            assert(out0[r as int] == erase(subr));
                            assert(sub == ITree::Node(
                                top as int,
                                op.operator,
                                sub->Node_2,
                                sub->Node_3,
                            ));
                            assert(erase(sub) == ExpTree::Op(
                                op.operator,
                                Box::new(erase(subl)),
                                Box::new(erase(subr)),
                            ));
                            assert(run_steps(sl0, steps@)[top as int] == erase(sub));
                            assert forall|k: int|
                                0 <= k < n && resolved@[k] && (#[trigger] it_find(t, k))
                                    is Some implies run_steps(sl0, steps@)[k] == erase(
                                it_find(t, k)->Some_0,
                            ) by {
                                if k != top as int {
                                    assert(run_steps(sl0, steps@)[k] == out0[k]);
                                }
                            }
                            if stack@.len() == 0 {
                                assert(stack0[0] == root);
                                assert(top == root);
                            }
                        }
                    } else {
                        let ghost stack0: Seq<usize> = stack@;
                        if !resolved[l] {
                            stack.push(l);
                        }
                        if !resolved[r] {
                            stack.push(r);
                        }
                        proof {
                            assert(stack@[0] == stack0[0]);
                        }
                    }
                },
            }
        }
    }
    if stack.len() == 0 {
        proof {
            assert(it_find(t, root as int) == Some(t));
            lemma_run_len(sl0, steps@);
        }
        steps
    } else {
        let steps2 = evaluate_node_stack(tree, root, Ghost(t));
        proof {
            lemma_run_len(sl0, steps2@);
            lemma_tval_init(a, t);
            assert(sl0.len() == a.len());
            assert(run_steps(sl0, steps2@)[root as int] == tval(sl0, t));
        }
        steps2
    }
}

/// A compiled evaluation plan.  `nodes` is the expression arena: its
/// numeric leaves carry the literals of the expression.  An executor gives
/// every node one value slot, fills the leaf slots by interpreting their
/// numerals, runs the steps in order, and reads the result in slot `root`.
pub struct Program {
    pub nodes: Vec<Node>,
    pub steps: Vec<Step>,
    pub root: usize,
}

pub open spec fn prog_wf(p: Program) -> bool {
    &&& (p.root as int) < p.nodes@.len()
    &&& forall|q: int|
        0 <= q < p.steps@.len() ==> ((#[trigger] p.steps@[q]).dst as int) < p.nodes@.len() && (
        p.steps@[q].left as int) < p.nodes@.len() && (p.steps@[q].right as int) < p.nodes@.len()
}

/// The expression a plan computes: the tree left in the root slot after
/// every step has run over the term algebra.  An executor that interprets
/// the numerals and the operators computes exactly this expression, in
/// exactly the fold order the steps lay down.
pub open spec fn prog_result(p: Program) -> ExpTree {
    run_steps(init_slots(p.nodes@), p.steps@)[p.root as int]
}

/// Arenas below this size are planned recursively; larger ones use the
/// iterative work-list, whose stack use does not grow with the expression.
pub const STACK_EVAL_LIMIT: usize = 10000;

/// Turn a built tree into a plan, choosing the strategy by arena size.
fn evaluate_tree(tree: TokenTree, root: usize, Ghost(t): Ghost<ITree>) -> (p: Program)
    requires
        wf_at(tree.tokens@, t),
        it_uniq(t),
        it_idx(t) == root as int,
    ensures
        prog_wf(p),
        prog_result(p) == erase(t),
{
    let ghost a: Seq<Node> = tree.tokens@;
    let steps = if tree.tokens.len() < STACK_EVAL_LIMIT {
        let s = evaluate_node_stack(&tree, root, Ghost(t));
        proof {
            lemma_tval_init(a, t);
            assert(init_slots(a).len() == a.len());
            assert(run_steps(init_slots(a), s@)[root as int] == tval(init_slots(a), t));
        }
        s
    } else {
        evaluate_node_heap(&tree, root, Ghost(t))
    };
    proof {
        lemma_root_in_indices(t);
        lemma_wf_in_range(a, t);
    }
    Program { nodes: tree.tokens, steps, root }
}

/// Build and plan a validated, nonempty token sequence: the plan computes
/// the sequence's parse, with precedence and left-to-right associativity.
pub fn evaluate_exp(tokens: &Vec<Token>) -> (p: Program)
    requires
        spec_validate(tv(tokens@)) is Ok,
        tokens@.len() > 0,
    ensures
        prog_wf(p),
        prog_result(p) == spec_parse(tv(tokens@)),
{
    let (tree, root, g) = create_eval_tree_recursive(tokens);
    evaluate_tree(tree, root, g)
}

/// As `evaluate_exp`, but always through the recursive strategy.
pub fn evaluate_exp_recursive(tokens: &Vec<Token>) -> (p: Program)
    requires
        spec_validate(tv(tokens@)) is Ok,
        tokens@.len() > 0,
    ensures
        prog_wf(p),
        prog_result(p) == spec_parse(tv(tokens@)),
{
    let (tree, root, g) = create_eval_tree_recursive(tokens);
    let ghost t: ITree = g@;
    let ghost a: Seq<Node> = tree.tokens@;
    let steps = evaluate_node_stack(&tree, root, g);
    proof {
        lemma_tval_init(a, t);
        assert(init_slots(a).len() == a.len());
        assert(run_steps(init_slots(a), steps@)[root as int] == tval(init_slots(a), t));
        lemma_root_in_indices(t);
        lemma_wf_in_range(a, t);
    }
    Program { nodes: tree.tokens, steps, root }
}

/// As `evaluate_exp`, but always through the iterative strategy.
pub fn evaluate_exp_iterative(tokens: &Vec<Token>) -> (p: Program)
    requires
        spec_validate(tv(tokens@)) is Ok,
        tokens@.len() > 0,
    ensures
        prog_wf(p),
        prog_result(p) == spec_parse(tv(tokens@)),
{
    let (tree, root, g) = create_eval_tree_recursive(tokens);
    let ghost t: ITree = g@;
    let ghost a: Seq<Node> = tree.tokens@;
    let steps = evaluate_node_heap(&tree, root, g);
    proof {
        lemma_root_in_indices(t);
        lemma_wf_in_range(a, t);
    }
    Program { nodes: tree.tokens, steps, root }
}

/// The two strategies agree: any two plans for the same token sequence
/// compute the same expression, so an executor folds them to identical
/// values, whatever its number representation.
pub proof fn lemma_strategies_agree(p1: Program, p2: Program, s: Seq<Tok>)
    requires
        prog_result(p1) == spec_parse(s),
        prog_result(p2) == spec_parse(s),
    ensures
        prog_result(p1) == prog_result(p2),
{
}

/// Where in the tree a given arena slot lies, if anywhere.
pub open spec fn it_find(t: ITree, k: int) -> Option<ITree>
    decreases t,
{
    if it_idx(t) == k {
        Some(t)
    } else {
        match t {
            ITree::Leaf(_, _) => None,
            ITree::Node(_, _, l, r) => match it_find(*l, k) {
                Some(x) => Some(x),
                None => it_find(*r, k),
            },
        }
    }
}

pub proof fn lemma_find_mem(t: ITree, k: int)
    ensures
        it_find(t, k) is Some <==> it_indices(t).contains(k),
    decreases t,
{
    match t {
        ITree::Leaf(_, _) => {},
        ITree::Node(i, _, l, r) => {
            lemma_find_mem(*l, k);
            lemma_find_mem(*r, k);
        },
    }
}

pub proof fn lemma_find_wf(a: Seq<Node>, t: ITree, k: int)
    requires
        wf_at(a, t),
        it_find(t, k) is Some,
    ensures
        wf_at(a, it_find(t, k)->Some_0),
        it_idx(it_find(t, k)->Some_0) == k,
    decreases t,
{
    if it_idx(t) == k {
    } else {
        match t {
            ITree::Leaf(_, _) => {},
            ITree::Node(_, _, l, r) => {
                if it_find(*l, k) is Some {
                    lemma_find_wf(a, *l, k);
                } else {
                    lemma_find_wf(a, *r, k);
                }
            },
        }
    }
}

pub proof fn lemma_find_sub(t: ITree, k: int)
    requires
        it_find(t, k) is Some,
    ensures
        forall|j: int|
            #[trigger] it_indices(it_find(t, k)->Some_0).contains(j) ==> it_indices(t).contains(j),
    decreases t,
{
    if it_idx(t) == k {
    } else {
        match t {
            ITree::Leaf(_, _) => {},
            ITree::Node(i, _, l, r) => {
                if it_find(*l, k) is Some {
                    lemma_find_sub(*l, k);
                    assert forall|j: int| #[trigger] it_indices(it_find(t, k)->Some_0).contains(
                        j,
                    ) implies it_indices(t).contains(j) by {
                        assert(it_indices(*l).contains(j));
                    }
                } else {
                    lemma_find_sub(*r, k);
                    assert forall|j: int| #[trigger] it_indices(it_find(t, k)->Some_0).contains(
                        j,
                    ) implies it_indices(t).contains(j) by {
                        assert(it_indices(*r).contains(j));
                    }
                }
            },
        }
    }
}

/// In a tree without index sharing, the children of any found operator
/// node are found at their own indices.
pub proof fn lemma_find_child(t: ITree, k: int)
    requires
        it_uniq(t),
        it_find(t, k) is Some,
        it_find(t, k)->Some_0 matches ITree::Node(_, _, _, _),
    ensures
        ({
            let x = it_find(t, k)->Some_0;
            &&& it_find(t, it_idx((*x->Node_2))) == Some((*x->Node_2))
            &&& it_find(t, it_idx((*x->Node_3))) == Some((*x->Node_3))
        }),
    decreases t,
{
    let x = it_find(t, k)->Some_0;
    let xl = (*x->Node_2);
    let xr = (*x->Node_3);
    if it_idx(t) == k {
        lemma_root_in_indices(xl);
        lemma_root_in_indices(xr);
        match t {
            ITree::Leaf(_, _) => {},
            ITree::Node(i, _, l, r) => {
                assert(it_idx(t) != it_idx(xl));
                assert(it_find(*l, it_idx(xl)) == Some(xl)) by {
                    assert(it_idx(*l) == it_idx(xl));
                }
                assert(it_idx(t) != it_idx(xr));
                lemma_find_mem(*l, it_idx(xr));
                assert(!it_indices(*l).contains(it_idx(xr)));
                assert(it_find(*r, it_idx(xr)) == Some(xr)) by {
                    assert(it_idx(*r) == it_idx(xr));
                }
            },
        }
    } else {
        match t {
            ITree::Leaf(_, _) => {},
            ITree::Node(i, _, l, r) => {
                if it_find(*l, k) is Some {
                    lemma_find_child(*l, k);
                    lemma_find_sub(*l, k);
                    lemma_root_in_indices(xl);
                    lemma_root_in_indices(xr);
                    lemma_find_mem(*l, it_idx(xl));
                    lemma_find_mem(*l, it_idx(xr));
                    assert(it_indices(*l).contains(it_idx(xl)));
                    assert(it_indices(*l).contains(it_idx(xr)));
                } else {
                    lemma_find_child(*r, k);
                    lemma_find_sub(*r, k);
                    lemma_root_in_indices(xl);
                    lemma_root_in_indices(xr);
                    lemma_find_mem(*r, it_idx(xl));
                    lemma_find_mem(*r, it_idx(xr));
                    assert(it_indices(*r).contains(it_idx(xl)));
                    assert(it_indices(*r).contains(it_idx(xr)));
                    lemma_find_mem(*l, it_idx(xl));
                    lemma_find_mem(*l, it_idx(xr));
                    assert(!it_indices(*l).contains(it_idx(xl)));
                    assert(!it_indices(*l).contains(it_idx(xr)));
                }
            },
        }
    }
}

} // verus!
