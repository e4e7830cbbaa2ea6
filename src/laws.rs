use vstd::prelude::*;
use crate::token::{Fault, Tok, is_operator, precedence_of};
use crate::rpn::{shunt, pop_while, unstack, postfix_order, prec};
use crate::tree::{Tree, BinOp, op_of, op_char, apply, run, postfix_tree, lemma_run_fails_early};
use crate::lexer::{is_space, lex, numerals_valid, scan, valid_numeral};
use crate::rpn::all_supported;
use crate::pipeline::reads_as;

verus! {

/// An infix sequence: a number, then any number of operator-number pairs,
/// with every operator one of `+ - * / ^`.
pub open spec fn is_infix(t: Seq<Tok>) -> bool {
    &&& t.len() % 2 == 1
    &&& forall|i: int|
        0 <= i < t.len() ==> if i % 2 == 0 {
            #[trigger] t[i] is Num
        } else {
            t[i] matches Tok::Op(c) && is_operator(c)
        }
}

/// The tokens of a tree read in order, left to right.
pub open spec fn infix_of(tr: Tree) -> Seq<Tok>
    decreases tr,
{
    match tr {
        Tree::Number(n) => seq![Tok::Num(n)],
        Tree::Binary(o, a, b) => infix_of(*a) + seq![Tok::Op(op_char(o))] + infix_of(*b),
        Tree::Variable(_) => Seq::empty(),
        Tree::Assignment(_, _) => Seq::empty(),
    }
}

pub open spec fn op_prec(o: BinOp) -> int {
    precedence_of(op_char(o))
}

pub open spec fn min_of(x: int, y: int) -> int {
    if x <= y {
        x
    } else {
        y
    }
}

/// The loosest precedence of an operator in the tree; a number binds
/// tighter than any operator.
pub open spec fn min_prec(tr: Tree) -> int
    decreases tr,
{
    match tr {
        Tree::Number(_) => 4,
        Tree::Binary(o, a, b) => min_of(op_prec(o), min_of(min_prec(*a), min_prec(*b))),
        Tree::Variable(_) => 4,
        Tree::Assignment(_, _) => 0,
    }
}

/// The tree groups by precedence, equal precedence to the left: an operator
/// takes a left operand whose loosest operator binds no looser than itself,
/// and a right operand whose loosest operator binds strictly tighter.
pub open spec fn grouped(tr: Tree) -> bool
    decreases tr,
{
    match tr {
        Tree::Number(_) => true,
        Tree::Binary(o, a, b) => grouped(*a) && grouped(*b) && min_prec(*a) >= op_prec(o)
            && min_prec(*b) > op_prec(o),
        Tree::Variable(_) => false,
        Tree::Assignment(_, _) => false,
    }
}

/// The trees of the operand stack with the stacked operators between them.
spec fn weave(s: Seq<Tree>, st: Seq<Tok>) -> Seq<Tok>
    decreases st.len(),
{
    if st.len() == 0 {
        infix_of(s[0])
    } else {
        weave(s.drop_last(), st.drop_last()) + seq![st.last()] + infix_of(s.last())
    }
}

/// What the shunting-yard method keeps true: operators on the stack bind
/// strictly tighter going up, and each tree binds tighter than the operator
/// below it and no looser than the one above it.
spec fn chain_ok(s: Seq<Tree>, st: Seq<Tok>) -> bool {
    &&& s.len() == st.len() + 1
    &&& forall|k: int| 0 <= k < st.len() ==> (#[trigger] st[k] matches Tok::Op(c) && is_operator(c))
    &&& forall|k: int, l: int| 0 <= k < l < st.len() ==> prec(#[trigger] st[k]) < prec(#[trigger] st[l])
    &&& forall|k: int| 0 <= k < s.len() ==> grouped(#[trigger] s[k])
    &&& forall|k: int| 1 <= k < s.len() ==> min_prec(#[trigger] s[k]) > prec(st[k - 1])
    &&& forall|k: int| 0 <= k < st.len() ==> min_prec(#[trigger] s[k]) >= prec(st[k])
}

spec fn good(out: Seq<Tok>, st: Seq<Tok>, lo: int, p: Seq<Tok>) -> bool {
    run(out) matches Ok(s) && chain_ok(s, st) && weave(s, st) == p && min_prec(s.last()) >= lo
}

proof fn lemma_run_push(out: Seq<Tok>, x: Tok)
    ensures
        run(out.push(x)) == (match run(out) {
            Err(e) => Err(e),
            Ok(s) => apply(s, x),
        }),
{
    assert(out.push(x).drop_last() == out);
}

/// Combining the top two trees with the top operator keeps the chain.
proof fn lemma_merge(s: Seq<Tree>, st: Seq<Tok>)
    requires
        chain_ok(s, st),
        st.len() >= 1,
    ensures
        apply(s, st.last()) matches Ok(s2) && chain_ok(s2, st.drop_last())
            && weave(s2, st.drop_last()) == weave(s, st) && min_prec(s2.last()) == prec(st.last()),
{
    let n = st.len() as int;
    let c = st.last()->Op_0;
    assert(st[n - 1] matches Tok::Op(d) && is_operator(d));
    assert(st.last() == Tok::Op(c));
    let a = s[n - 1];
    let b = s[n];
    let m = Tree::Binary(op_of(c), Box::new(a), Box::new(b));
    let s2 = s.take(n - 1).push(m);
    let st2 = st.drop_last();
    assert(apply(s, st.last()) == Ok::<Seq<Tree>, Fault>(s2));
    assert(op_char(op_of(c)) == c);
    assert(op_prec(op_of(c)) == prec(st.last()));
    assert(min_prec(a) >= prec(st[n - 1]));
    assert(min_prec(b) > prec(st[n - 1]));
    assert(min_prec(m) == prec(st.last()));
    assert(grouped(m));
    assert(infix_of(m) == infix_of(a) + seq![st.last()] + infix_of(b));
    assert forall|k: int| 0 <= k < s2.len() implies grouped(#[trigger] s2[k]) by {
        if k < n - 1 {
            assert(s2[k] == s[k]);
        }
    }
    assert forall|k: int| 1 <= k < s2.len() implies min_prec(#[trigger] s2[k]) > prec(st2[k - 1]) by {
        if k < n - 1 {
            assert(s2[k] == s[k]);
        } else {
            assert(st2[k - 1] == st[k - 1]);
            assert(prec(st[k - 1]) < prec(st[n - 1]));
        }
    }
    assert forall|k: int| 0 <= k < st2.len() implies min_prec(#[trigger] s2[k]) >= prec(st2[k]) by {
        assert(s2[k] == s[k]);
    }
    assert forall|k: int| 0 <= k < st2.len() implies (#[trigger] st2[k] matches Tok::Op(e) && is_operator(e)) by {
        assert(st2[k] == st[k]);
    }
    assert forall|k: int, l: int| 0 <= k < l < st2.len() implies prec(#[trigger] st2[k]) < prec(#[trigger] st2[l]) by {
        assert(st2[k] == st[k]);
        assert(st2[l] == st[l]);
    }
    if n == 1 {
        assert(weave(s.drop_last(), st.drop_last()) == infix_of(s[0]));
        assert(weave(s2, st2) == infix_of(m));
        assert(weave(s, st) == infix_of(a) + seq![st.last()] + infix_of(b));
        assert(weave(s2, st2) =~= weave(s, st));
    } else {
        assert(s2.drop_last() == s.drop_last().drop_last());
        assert(st2.drop_last() == st.drop_last().drop_last());
        let base = weave(s.drop_last().drop_last(), st.drop_last().drop_last());
        assert(s.drop_last().last() == a);
        assert(st.drop_last().last() == st2.last());
        assert(weave(s.drop_last(), st.drop_last()) == base + seq![st2.last()] + infix_of(a));
        assert(weave(s2, st2) == base + seq![st2.last()] + infix_of(m));
        assert(weave(s2, st2) =~= weave(s, st));
    }
}

proof fn lemma_pop(out: Seq<Tok>, st: Seq<Tok>, c: char, p: Seq<Tok>)
    requires
        is_operator(c),
        good(out, st, precedence_of(c), p),
    ensures
        good(pop_while(out, st, c).0, pop_while(out, st, c).1, precedence_of(c), p),
        pop_while(out, st, c).1.len() > 0 ==> prec(pop_while(out, st, c).1.last())
            < precedence_of(c),
    decreases st.len(),
{
    if st.len() > 0 && prec(st.last()) >= precedence_of(c) {
        let s = run(out)->Ok_0;
        lemma_merge(s, st);
        lemma_run_push(out, st.last());
        lemma_pop(out.push(st.last()), st.drop_last(), c, p);
    }
}

proof fn lemma_prefix(t: Seq<Tok>, j: int)
    requires
        is_infix(t),
        0 <= j,
        2 * j + 1 <= t.len(),
    ensures
        good(shunt(t.take(2 * j + 1)).0, shunt(t.take(2 * j + 1)).1, 4, t.take(2 * j + 1)),
    decreases j,
{
    if j == 0 {
        let n = t[0]->Num_0;
        assert(t[0] is Num);
        assert(t.take(1).drop_last() == Seq::<Tok>::empty());
        assert(t.take(1).last() == Tok::Num(n));
        let out = seq![Tok::Num(n)];
        assert(Seq::<Tok>::empty().push(Tok::Num(n)) == out);
        let e = Seq::<Tok>::empty();
        assert(shunt(e) == (e, e));
        assert(shunt(t.take(1)) == (e.push(Tok::Num(n)), e));
        assert(shunt(t.take(1)).0 == out);
        assert(shunt(t.take(1)).1 == Seq::<Tok>::empty());
        lemma_run_push(Seq::empty(), Tok::Num(n));
        assert(Seq::<Tok>::empty().push(Tok::Num(n)) == out);
        let s = seq![Tree::Number(n)];
        assert(Seq::<Tree>::empty().push(Tree::Number(n)) == s);
        assert(run(out) == Ok::<Seq<Tree>, Fault>(s));
        assert(weave(s, Seq::empty()) == seq![Tok::Num(n)]);
        assert(t.take(1) =~= seq![Tok::Num(n)]);
    } else {
        lemma_prefix(t, j - 1);
        let p = t.take(2 * j - 1);
        let q = t.take(2 * j);
        let r = t.take(2 * j + 1);
        assert(t[2 * j - 1] matches Tok::Op(d) && is_operator(d));
        assert(t[2 * j] is Num);
        let c = t[2 * j - 1]->Op_0;
        let n = t[2 * j]->Num_0;
        assert(t[2 * j - 1] == Tok::Op(c));
        assert(t[2 * j] == Tok::Num(n));
        assert(q.drop_last() == p);
        assert(r.drop_last() == q);
        assert(q.last() == Tok::Op(c));
        assert(r.last() == Tok::Num(n));
        let (o, st) = shunt(p);
        let s = run(o)->Ok_0;
        lemma_pop(o, st, c, p);
        let (o2, st2) = pop_while(o, st, c);
        let s2 = run(o2)->Ok_0;
        assert(shunt(q) == (o2, st2.push(Tok::Op(c))));
        let o3 = o2.push(Tok::Num(n));
        let st3 = st2.push(Tok::Op(c));
        assert(shunt(r) == (o3, st3));
        lemma_run_push(o2, Tok::Num(n));
        let s3 = s2.push(Tree::Number(n));
        assert(run(o3) == Ok::<Seq<Tree>, Fault>(s3));
        assert(s3.drop_last() == s2);
        assert(st3.drop_last() == st2);
        assert(weave(s3, st3) == weave(s2, st2) + seq![Tok::Op(c)] + seq![Tok::Num(n)]);
        assert(r =~= p + seq![Tok::Op(c)] + seq![Tok::Num(n)]);
        assert forall|k: int| 0 <= k < st3.len() implies (#[trigger] st3[k] matches Tok::Op(e) && is_operator(e)) by {
            if k < st2.len() {
                assert(st3[k] == st2[k]);
            }
        }
        assert forall|k: int, l: int| 0 <= k < l < st3.len() implies prec(#[trigger] st3[k]) < prec(#[trigger] st3[l]) by {
            assert(st3[k] == st2[k]);
            if l < st2.len() {
                assert(st3[l] == st2[l]);
            } else {
                assert(prec(st2[k]) <= prec(st2.last()));
            }
        }
        assert forall|k: int| 0 <= k < s3.len() implies grouped(#[trigger] s3[k]) by {
            if k < s2.len() {
                assert(s3[k] == s2[k]);
            }
        }
        assert forall|k: int| 1 <= k < s3.len() implies min_prec(#[trigger] s3[k]) > prec(st3[k - 1]) by {
            if k < s2.len() {
                assert(s3[k] == s2[k]);
                assert(st3[k - 1] == st2[k - 1]);
            }
        }
        assert forall|k: int| 0 <= k < st3.len() implies min_prec(#[trigger] s3[k]) >= prec(st3[k]) by {
            assert(s3[k] == s2[k]);
            if k < st2.len() {
                assert(st3[k] == st2[k]);
            }
        }
    }
}

proof fn lemma_drain(out: Seq<Tok>, st: Seq<Tok>, p: Seq<Tok>)
    requires
        good(out, st, 0, p),
    ensures
        run(out + unstack(st)) matches Ok(s) && s.len() == 1 && grouped(s[0]) && infix_of(s[0]) == p,
    decreases st.len(),
{
    let s = run(out)->Ok_0;
    if st.len() == 0 {
        assert(out + unstack(st) == out);
    } else {
        assert(out + unstack(st) =~= out.push(st.last()) + unstack(st.drop_last()));
        lemma_merge(s, st);
        lemma_run_push(out, st.last());
        let s2 = apply(s, st.last())->Ok_0;
        assert(min_prec(s2.last()) >= 0) by {
            assert(prec(st.last()) >= 1);
        }
        lemma_drain(out.push(st.last()), st.drop_last(), p);
    }
}

/// Converting an infix sequence to postfix order reads it with standard
/// precedence and left grouping: the postfix sequence denotes exactly one
/// tree, that tree spells the input back in order, and it groups by
/// precedence with equal precedence to the left (so `2 ^ 3 ^ 2` is
/// `(2 ^ 3) ^ 2`).
pub proof fn law_postfix_groups_by_precedence(t: Seq<Tok>)
    requires
        is_infix(t),
    ensures
        postfix_tree(postfix_order(t)) matches Ok(tr) && infix_of(tr) == t && grouped(tr),
{
    let j = (t.len() - 1) / 2;
    lemma_prefix(t, j);
    assert(t.take(2 * j + 1) == t);
    let (o, st) = shunt(t);
    lemma_drain(o, st, t);
}

/// Read from a line of text: where the line lexes to an infix sequence of
/// well-formed numerals, it reads as one tree that spells its tokens back in
/// order and groups by precedence, equal precedence to the left.
pub proof fn law_line_groups_by_precedence(s: Seq<char>, r: Result<Tree, Fault>)
    requires
        numerals_valid(lex(s)),
        is_infix(lex(s)),
        reads_as(s, r),
    ensures
        r matches Ok(tr) && infix_of(tr) == lex(s) && grouped(tr),
{
    let t = lex(s);
    assert forall|i: int| 0 <= i < t.len() implies (#[trigger] t[i] matches Tok::Op(c) ==> is_operator(c)) by {
        if i % 2 == 0 {
            assert(t[i] is Num);
        }
    }
    law_postfix_groups_by_precedence(t);
}

/// Reading a line twice gives the same result: what a line reads as is
/// fixed by its text alone.
pub proof fn law_reading_is_repeatable(
    s: Seq<char>,
    r1: Result<Tree, Fault>,
    r2: Result<Tree, Fault>,
)
    requires
        reads_as(s, r1),
        reads_as(s, r2),
    ensures
        r1 == r2,
{
    let t = lex(s);
    if !numerals_valid(t) {
        let n1 = r1->Err_0->MalformedNumber_0;
        let n2 = r2->Err_0->MalformedNumber_0;
        let i = choose|i: int|
            0 <= i < t.len() && #[trigger] t[i] == Tok::Num(n1) && !valid_numeral(n1)
                && numerals_valid(t.take(i));
        let j = choose|j: int|
            0 <= j < t.len() && #[trigger] t[j] == Tok::Num(n2) && !valid_numeral(n2)
                && numerals_valid(t.take(j));
        if i < j {
            assert(t.take(j)[i] == t[i]);
        } else if j < i {
            assert(t.take(i)[j] == t[j]);
        }
    } else if !all_supported(t) {
        let c1 = r1->Err_0->UnsupportedOperator_0;
        let c2 = r2->Err_0->UnsupportedOperator_0;
        let i = choose|i: int|
            0 <= i < t.len() && #[trigger] t[i] == Tok::Op(c1) && !is_operator(c1)
                && all_supported(t.take(i));
        let j = choose|j: int|
            0 <= j < t.len() && #[trigger] t[j] == Tok::Op(c2) && !is_operator(c2)
                && all_supported(t.take(j));
        if i < j {
            assert(t.take(j)[i] == t[i]);
        } else if j < i {
            assert(t.take(i)[j] == t[j]);
        }
    }
}

proof fn lemma_ops_bind_no_looser(tr: Tree, i: int)
    requires
        grouped(tr),
        0 <= i < infix_of(tr).len(),
    ensures
        infix_of(tr)[i] is Op ==> prec(infix_of(tr)[i]) >= min_prec(tr),
    decreases tr,
{
    match tr {
        Tree::Binary(o, a, b) => {
            let la = infix_of(*a).len() as int;
            let x = infix_of(*a) + seq![Tok::Op(op_char(o))];
            assert(infix_of(tr) == x + infix_of(*b));
            if i < la {
                assert(infix_of(tr)[i] == infix_of(*a)[i]);
                lemma_ops_bind_no_looser(*a, i);
            } else if i == la {
                assert(infix_of(tr)[i] == Tok::Op(op_char(o)));
            } else {
                assert(infix_of(tr)[i] == infix_of(*b)[i - la - 1]);
                lemma_ops_bind_no_looser(*b, i - la - 1);
            }
        },
        _ => {},
    }
}

proof fn lemma_infix_nonempty(tr: Tree)
    requires
        grouped(tr),
    ensures
        infix_of(tr).len() >= 1,
        infix_of(tr).len() == 1 <==> tr is Number,
    decreases tr,
{
    match tr {
        Tree::Binary(o, a, b) => {
            lemma_infix_nonempty(*a);
            lemma_infix_nonempty(*b);
        },
        _ => {},
    }
}

/// There is one reading by precedence with left grouping: two trees that
/// both group by precedence and spell the same tokens are the same tree.
pub proof fn law_grouped_reading_is_unique(x: Tree, y: Tree)
    requires
        grouped(x),
        grouped(y),
        infix_of(x) == infix_of(y),
    ensures
        x == y,
    decreases x,
{
    lemma_infix_nonempty(x);
    lemma_infix_nonempty(y);
    let t = infix_of(x);
    match x {
        Tree::Number(n) => {
            assert(t[0] == Tok::Num(n));
            assert(y is Number);
            assert(t[0] == Tok::Num(y->Number_0));
        },
        Tree::Binary(o, a, b) => {
            let (p, c, d) = (y->Binary_0, *y->Binary_1, *y->Binary_2);
            let k = infix_of(*a).len() as int;
            let m = infix_of(c).len() as int;
            assert(t == infix_of(*a) + seq![Tok::Op(op_char(o))] + infix_of(*b));
            assert(t == infix_of(c) + seq![Tok::Op(op_char(p))] + infix_of(d));
            assert(t[k] == Tok::Op(op_char(o)));
            assert(t[m] == Tok::Op(op_char(p)));
            if k < m {
                assert(t[k] == infix_of(c)[k]);
                lemma_ops_bind_no_looser(c, k);
                assert(t[m] == infix_of(*b)[m - k - 1]);
                lemma_ops_bind_no_looser(*b, m - k - 1);
                assert(false);
            } else if m < k {
                assert(t[m] == infix_of(*a)[m]);
                lemma_ops_bind_no_looser(*a, m);
                assert(t[k] == infix_of(d)[k - m - 1]);
                lemma_ops_bind_no_looser(d, k - m - 1);
                assert(false);
            }
            assert(infix_of(*a) =~= t.take(k));
            assert(infix_of(c) =~= t.take(k));
            assert(infix_of(*b) =~= t.skip(k + 1));
            assert(infix_of(d) =~= t.skip(k + 1));
            assert(op_char(o) == op_char(p));
            law_grouped_reading_is_unique(*a, c);
            law_grouped_reading_is_unique(*b, d);
        },
        _ => {},
    }
}

proof fn lemma_scan_skips_space(a: Seq<char>, w: char, b: Seq<char>)
    requires
        is_space(w),
    ensures
        scan(a + seq![w] + b) == scan(a + b),
    decreases b.len(),
{
    if b.len() == 0 {
        assert(a + seq![w] + b == a.push(w));
        assert(a.push(w).drop_last() == a);
        assert(a + b == a);
    } else {
        lemma_scan_skips_space(a, w, b.drop_last());
        assert((a + seq![w] + b).drop_last() == a + seq![w] + b.drop_last());
        assert((a + b).drop_last() == a + b.drop_last());
        assert((a + seq![w] + b).last() == b.last());
        assert((a + b).last() == b.last());
    }
}

/// Whitespace is skipped entirely: taking one whitespace character out of a
/// line, wherever it stands, leaves its tokens as they were.
pub proof fn law_whitespace_is_skipped(a: Seq<char>, w: char, b: Seq<char>)
    requires
        is_space(w),
    ensures
        lex(a + seq![w] + b) == lex(a + b),
{
    lemma_scan_skips_space(a, w, b);
}

/// The number of numbers (`num`) or of operators (`!num`) in `q`.
pub open spec fn count_kind(q: Seq<Tok>, num: bool) -> int
    decreases q.len(),
{
    if q.len() == 0 {
        0
    } else {
        count_kind(q.drop_last(), num) + if (q.last() is Num) == num { 1int } else { 0int }
    }
}

proof fn lemma_count_append(q: Seq<Tok>, r: Seq<Tok>, num: bool)
    ensures
        count_kind(q + r, num) == count_kind(q, num) + count_kind(r, num),
    decreases r.len(),
{
    if r.len() == 0 {
        assert(q + r == q);
    } else {
        lemma_count_append(q, r.drop_last(), num);
        assert((q + r).drop_last() == q + r.drop_last());
        assert((q + r).last() == r.last());
    }
}

proof fn lemma_count_push(q: Seq<Tok>, x: Tok, num: bool)
    ensures
        count_kind(q.push(x), num) == count_kind(q, num) + if (x is Num) == num { 1int } else { 0int },
{
    assert(q.push(x).drop_last() == q);
}

proof fn lemma_count_pop_while(out: Seq<Tok>, st: Seq<Tok>, c: char, num: bool)
    ensures
        count_kind(pop_while(out, st, c).0, num) + count_kind(pop_while(out, st, c).1, num)
            == count_kind(out, num) + count_kind(st, num),
    decreases st.len(),
{
    if st.len() > 0 && prec(st.last()) >= precedence_of(c) {
        lemma_count_pop_while(out.push(st.last()), st.drop_last(), c, num);
        lemma_count_push(out, st.last(), num);
    }
}

proof fn lemma_count_shunt(t: Seq<Tok>, num: bool)
    ensures
        count_kind(shunt(t).0, num) + count_kind(shunt(t).1, num) == count_kind(t, num),
    decreases t.len(),
{
    if t.len() > 0 {
        lemma_count_shunt(t.drop_last(), num);
        let (o, st) = shunt(t.drop_last());
        match t.last() {
            Tok::Num(n) => {
                lemma_count_push(o, Tok::Num(n), num);
            },
            Tok::Op(c) => {
                lemma_count_pop_while(o, st, c, num);
                lemma_count_push(pop_while(o, st, c).1, Tok::Op(c), num);
            },
        }
    }
}

proof fn lemma_count_unstack(st: Seq<Tok>, num: bool)
    ensures
        count_kind(unstack(st), num) == count_kind(st, num),
    decreases st.len(),
{
    if st.len() > 0 {
        lemma_count_unstack(st.drop_last(), num);
        assert(unstack(st) =~= seq![st.last()] + unstack(st.drop_last()));
        lemma_count_append(seq![st.last()], unstack(st.drop_last()), num);
        lemma_count_push(Seq::empty(), st.last(), num);
        assert(Seq::<Tok>::empty().push(st.last()) == seq![st.last()]);
    }
}

proof fn lemma_run_size(q: Seq<Tok>)
    requires
        run(q) is Ok,
    ensures
        run(q)->Ok_0.len() == count_kind(q, true) - count_kind(q, false),
    decreases q.len(),
{
    if q.len() > 0 {
        lemma_run_size(q.drop_last());
    }
}

/// Postfix order keeps the tokens' counts, and on an infix sequence it is
/// well formed by count: before each operator the numbers so far outnumber
/// the operators so far by at least two, and in all there is one more number
/// than operators.
pub proof fn law_postfix_counts(t: Seq<Tok>)
    requires
        is_infix(t),
    ensures
        count_kind(postfix_order(t), true) == count_kind(t, true),
        count_kind(postfix_order(t), false) == count_kind(t, false),
        count_kind(postfix_order(t), true) == count_kind(postfix_order(t), false) + 1,
        forall|i: int|
            0 <= i < postfix_order(t).len() && #[trigger] postfix_order(t)[i] is Op ==> count_kind(
                postfix_order(t).take(i),
                true,
            ) >= count_kind(postfix_order(t).take(i), false) + 2,
{
    let p = postfix_order(t);
    let (o, st) = shunt(t);
    law_postfix_groups_by_precedence(t);
    lemma_count_shunt(t, true);
    lemma_count_shunt(t, false);
    lemma_count_unstack(st, true);
    lemma_count_unstack(st, false);
    lemma_count_append(o, unstack(st), true);
    lemma_count_append(o, unstack(st), false);
    lemma_run_size(p);
    assert forall|i: int|
        0 <= i < p.len() && #[trigger] p[i] is Op implies count_kind(p.take(i), true)
            >= count_kind(p.take(i), false) + 2 by {
        if run(p.take(i + 1)) is Err {
            lemma_run_fails_early(p, i + 1);
        }
        assert(p.take(i + 1).drop_last() == p.take(i));
        assert(p.take(i + 1).last() == p[i]);
        lemma_run_size(p.take(i));
    }
}

} // verus!
