use vstd::prelude::*;
use crate::token::{CalcError, Tok, Token, toks, lemma_toks_push, is_operator, precedence_of, precedence};

verus! {

pub open spec fn all_supported(t: Seq<Tok>) -> bool {
    forall|i: int| 0 <= i < t.len() ==> (#[trigger] t[i] matches Tok::Op(c) ==> is_operator(c))
}

/// `c` is the first operator of `t` outside `+ - * / ^`.
pub open spec fn first_unsupported(t: Seq<Tok>, c: char) -> bool {
    exists|i: int|
        0 <= i < t.len() && #[trigger] t[i] == Tok::Op(c) && !is_operator(c)
            && all_supported(t.take(i))
}

/// The precedence of an operator token.
pub open spec fn prec(t: Tok) -> int {
    match t {
        Tok::Op(c) => precedence_of(c),
        Tok::Num(_) => 0,
    }
}

/// Moves to the output every stacked operator that binds at least as tightly
/// as the incoming `c`, most recent first.
pub open spec fn pop_while(out: Seq<Tok>, st: Seq<Tok>, c: char) -> (Seq<Tok>, Seq<Tok>)
    decreases st.len(),
{
    if st.len() > 0 && prec(st.last()) >= precedence_of(c) {
        pop_while(out.push(st.last()), st.drop_last(), c)
    } else {
        (out, st)
    }
}

/// Output and operator stack after the tokens `t`: numbers go straight to
/// the output; an operator first pops what binds at least as tightly.
pub open spec fn shunt(t: Seq<Tok>) -> (Seq<Tok>, Seq<Tok>)
    decreases t.len(),
{
    if t.len() == 0 {
        (Seq::empty(), Seq::empty())
    } else {
        let (o, s) = shunt(t.drop_last());
        match t.last() {
            Tok::Num(n) => (o.push(Tok::Num(n)), s),
            Tok::Op(c) => {
                let (o2, s2) = pop_while(o, s, c);
                (o2, s2.push(Tok::Op(c)))
            },
        }
    }
}

/// The stacked operators, most recent first.
pub open spec fn unstack(st: Seq<Tok>) -> Seq<Tok> {
    Seq::new(st.len(), |k: int| st[st.len() - 1 - k])
}

/// The postfix order of an infix token sequence.
pub open spec fn postfix_order(t: Seq<Tok>) -> Seq<Tok> {
    shunt(t).0 + unstack(shunt(t).1)
}

pub open spec fn all_ops(st: Seq<Tok>) -> bool {
    forall|k: int| 0 <= k < st.len() ==> (#[trigger] st[k] matches Tok::Op(c) && is_operator(c))
}

fn find_unsupported(tokens: &Vec<Token>) -> (r: Option<char>)
    ensures
        match r {
            None => all_supported(toks(tokens@)),
            Some(c) => first_unsupported(toks(tokens@), c),
        },
{
    let ghost t = toks(tokens@);
    let mut i: usize = 0;
    while i < tokens.len()
        invariant
            t == toks(tokens@),
            i <= tokens.len(),
            all_supported(t.take(i as int)),
        decreases tokens.len() - i,
    {
        assert(t[i as int] == tokens@[i as int]@);
        match &tokens[i] {
            Token::Op(c) => {
                if !(*c == '+' || *c == '-' || *c == '*' || *c == '/' || *c == '^') {
                    return Some(*c);
                }
            },
            Token::Num(_) => {},
        }
        assert forall|k: int| 0 <= k < i + 1 implies (#[trigger] t.take(i + 1)[k] matches Tok::Op(c)
            ==> is_operator(c)) by {
            if k < i {
                assert(t.take(i + 1)[k] == t.take(i as int)[k]);
            }
        }
        i = i + 1;
    }
    assert(t.take(i as int) == t);
    None
}

/// Reorders infix tokens into postfix order by the shunting-yard method.
/// Operators of equal precedence are popped too, so every operator,
/// `^` included, groups to the left.
pub fn to_rpn(tokens: Vec<Token>) -> (r: Result<Vec<Token>, CalcError>)
    ensures
        match r {
            Ok(v) => all_supported(toks(tokens@)) && toks(v@) == postfix_order(toks(tokens@)),
            Err(CalcError::UnsupportedOperator(c)) => first_unsupported(toks(tokens@), c),
            Err(_) => false,
        },
{
    if let Some(c) = find_unsupported(&tokens) {
        proof {
            let t = toks(tokens@);
            let i = choose|i: int|
                0 <= i < t.len() && #[trigger] t[i] == Tok::Op(c) && !is_operator(c)
                    && all_supported(t.take(i));
        }
        return Err(CalcError::UnsupportedOperator(c));
    }
    let ghost t = toks(tokens@);
    let mut rpn: Vec<Token> = Vec::new();
    let mut stack: Vec<Token> = Vec::new();
    let mut i: usize = 0;
    while i < tokens.len()
        invariant
            t == toks(tokens@),
            all_supported(t),
            i <= tokens.len(),
            (toks(rpn@), toks(stack@)) == shunt(t.take(i as int)),
            all_ops(toks(stack@)),
        decreases tokens.len() - i,
    {
        assert(t.take(i + 1).drop_last() == t.take(i as int));
        assert(t[i as int] == tokens@[i as int]@);
        match &tokens[i] {
            Token::Num(n) => {
                let x = Token::Num(n.clone());
                proof {
                    lemma_toks_push(rpn@, x);
                }
                rpn.push(x);
            },
            Token::Op(c) => {
                let c = *c;
                let ghost target = pop_while(toks(rpn@), toks(stack@), c);
                loop
                    invariant
                        is_operator(c),
                        pop_while(toks(rpn@), toks(stack@), c) == target,
                        all_ops(toks(stack@)),
                    ensures
                        (toks(rpn@), toks(stack@)) == target,
                        all_ops(toks(stack@)),
                    decreases stack@.len(),
                {
                    if stack.len() == 0 {
                        break;
                    }
                    let ghost st = toks(stack@);
                    assert(st[st.len() - 1] == stack@[stack@.len() - 1]@);
                    let stop = match &stack[stack.len() - 1] {
                        Token::Op(d) => precedence(*d) < precedence(c),
                        Token::Num(_) => true,
                    };
                    if stop {
                        break;
                    }
                    let ghost v = rpn@;
                    let ghost w = stack@;
                    let top = stack.pop().unwrap();
                    proof {
                        lemma_toks_push(v, top);
                        lemma_toks_push(stack@, top);
                        assert(stack@.push(top) == w);
                        assert(st == toks(stack@).push(top@));
                        assert(st.drop_last() == toks(stack@));
                        assert(prec(st.last()) >= precedence_of(c));
                        assert forall|k: int| 0 <= k < toks(stack@).len() implies (
                            #[trigger] toks(stack@)[k] matches Tok::Op(e) && is_operator(e)) by {
                            assert(toks(stack@)[k] == st[k]);
                        }
                    }
                    rpn.push(top);
                }
                proof {
                    lemma_toks_push(stack@, Token::Op(c));
                }
                stack.push(Token::Op(c));
            },
        }
        i = i + 1;
    }
    assert(t.take(i as int) == t);
    let ghost target = toks(rpn@) + unstack(toks(stack@));
    while stack.len() > 0
        invariant
            toks(rpn@) + unstack(toks(stack@)) == target,
        decreases stack@.len(),
    {
        let ghost v = rpn@;
        let ghost w = stack@;
        let top = stack.pop().unwrap();
        proof {
            lemma_toks_push(v, top);
            lemma_toks_push(stack@, top);
            assert(stack@.push(top) == w);
            let a = toks(w);
            let b = toks(stack@);
            assert(a == b.push(top@));
            assert(toks(v) + unstack(a) =~= toks(v).push(top@) + unstack(b));
        }
        rpn.push(top);
    }
    Ok(rpn)
}

} // verus!
