use vstd::prelude::*;
use crate::token::{CalcError, Fault, Tok, Token, toks, is_operator, precedence_of};

verus! {

/// The binary operations of an expression.
#[derive(Clone, Copy, Debug, PartialEq, Eq, Structural)]
pub enum BinOp {
    Add,
    Sub,
    Mul,
    Div,
    Pow,
}

pub open spec fn op_of(c: char) -> BinOp {
    if c == '+' {
        BinOp::Add
    } else if c == '-' {
        BinOp::Sub
    } else if c == '*' {
        BinOp::Mul
    } else if c == '/' {
        BinOp::Div
    } else {
        BinOp::Pow
    }
}

pub open spec fn op_char(o: BinOp) -> char {
    match o {
        BinOp::Add => '+',
        BinOp::Sub => '-',
        BinOp::Mul => '*',
        BinOp::Div => '/',
        BinOp::Pow => '^',
    }
}

impl BinOp {
    /// The operation that an operator character stands for.
    pub fn from_char(c: char) -> (r: Option<BinOp>)
        ensures
            r == (if is_operator(c) { Some(op_of(c)) } else { None::<BinOp> }),
    {
        match c {
            '+' => Some(BinOp::Add),
            '-' => Some(BinOp::Sub),
            '*' => Some(BinOp::Mul),
            '/' => Some(BinOp::Div),
            '^' => Some(BinOp::Pow),
            _ => None,
        }
    }

    /// The operator character of the operation.
    pub fn symbol(&self) -> (r: char)
        ensures
            r == op_char(*self),
    {
        match self {
            BinOp::Add => '+',
            BinOp::Sub => '-',
            BinOp::Mul => '*',
            BinOp::Div => '/',
            BinOp::Pow => '^',
        }
    }
}

/// An expression tree; each node owns its children.
#[derive(Debug)]
pub enum Expr {
    /// The text of a numeral.
    Number(String),
    Binary(BinOp, Box<Expr>, Box<Expr>),
    Variable(String),
    Assignment(String, Box<Expr>),
}

/// The mathematical value of an expression tree.
pub enum Tree {
    Number(Seq<char>),
    Binary(BinOp, Box<Tree>, Box<Tree>),
    Variable(Seq<char>),
    Assignment(Seq<char>, Box<Tree>),
}

impl View for Expr {
    type V = Tree;

    open spec fn view(&self) -> Tree
        decreases self,
    {
        match self {
            Expr::Number(s) => Tree::Number(s@),
            Expr::Binary(o, a, b) => Tree::Binary(*o, Box::new((**a).view()), Box::new((**b).view())),
            Expr::Variable(s) => Tree::Variable(s@),
            Expr::Assignment(s, e) => Tree::Assignment(s@, Box::new((**e).view())),
        }
    }
}

pub open spec fn trees(v: Seq<Expr>) -> Seq<Tree> {
    v.map_values(|e: Expr| e@)
}

/// Applies one postfix token to a stack of trees: a number is pushed; an
/// operator takes the top two trees, the lower one as its left operand.
pub open spec fn apply(s: Seq<Tree>, x: Tok) -> Result<Seq<Tree>, Fault> {
    match x {
        Tok::Num(n) => Ok(s.push(Tree::Number(n))),
        Tok::Op(c) => if !is_operator(c) {
            Err(Fault::UnsupportedOperator(c))
        } else if s.len() < 2 {
            Err(Fault::MissingOperand)
        } else {
            Ok(
                s.take(s.len() - 2).push(
                    Tree::Binary(op_of(c), Box::new(s[s.len() - 2]), Box::new(s[s.len() - 1])),
                ),
            )
        },
    }
}

/// The stack of trees after the postfix tokens `t`, or the first failure.
pub open spec fn run(t: Seq<Tok>) -> Result<Seq<Tree>, Fault>
    decreases t.len(),
{
    if t.len() == 0 {
        Ok(Seq::empty())
    } else {
        match run(t.drop_last()) {
            Err(e) => Err(e),
            Ok(s) => apply(s, t.last()),
        }
    }
}

/// The tree that a postfix sequence denotes.
pub open spec fn postfix_tree(t: Seq<Tok>) -> Result<Tree, Fault> {
    match run(t) {
        Err(e) => Err(e),
        Ok(s) => if s.len() == 1 {
            Ok(s[0])
        } else {
            Err(Fault::InvalidExpression)
        },
    }
}

/// A failure on a prefix is the failure of the whole sequence.
pub proof fn lemma_run_fails_early(t: Seq<Tok>, k: int)
    requires
        0 <= k <= t.len(),
        run(t.take(k)) is Err,
    ensures
        run(t) == run(t.take(k)),
    decreases t.len() - k,
{
    if k < t.len() {
        assert(t.take(k + 1).drop_last() == t.take(k));
        lemma_run_fails_early(t, k + 1);
    } else {
        assert(t.take(k) == t);
    }
}

/// Builds the expression tree of a postfix sequence with a stack: a number
/// is pushed; an operator pops its right operand, then its left one, and
/// pushes their combination. Exactly one tree must be left at the end.
pub fn to_tree(rpn: &Vec<Token>) -> (r: Result<Expr, CalcError>)
    ensures
        match r {
            Ok(e) => postfix_tree(toks(rpn@)) == Ok::<Tree, Fault>(e@),
            Err(err) => postfix_tree(toks(rpn@)) == Err::<Tree, Fault>(err@),
        },
{
    let ghost t = toks(rpn@);
    let mut stack: Vec<Expr> = Vec::new();
    let mut i: usize = 0;
    assert(t.take(0) == Seq::<Tok>::empty());
    assert(trees(stack@) =~= Seq::<Tree>::empty());
    while i < rpn.len()
        invariant
            t == toks(rpn@),
            i <= rpn.len(),
            run(t.take(i as int)) == Ok::<Seq<Tree>, Fault>(trees(stack@)),
        decreases rpn.len() - i,
    {
        assert(t.take(i + 1).drop_last() == t.take(i as int));
        assert(t[i as int] == rpn@[i as int]@);
        let ghost s = trees(stack@);
        match &rpn[i] {
            Token::Num(n) => {
                let e = Expr::Number(n.clone());
                stack.push(e);
                assert(trees(stack@) =~= s.push(e@));
            },
            Token::Op(c) => {
                let op = match BinOp::from_char(*c) {
                    Some(op) => op,
                    None => {
                        proof {
                            lemma_run_fails_early(t, i + 1);
                        }
                        return Err(CalcError::UnsupportedOperator(*c));
                    },
                };
                if stack.len() < 2 {
                    proof {
                        lemma_run_fails_early(t, i + 1);
                    }
                    return Err(CalcError::MissingOperand);
                }
                let b = stack.pop().unwrap();
                let a = stack.pop().unwrap();
                let e = Expr::Binary(op, Box::new(a), Box::new(b));
                let ghost u = trees(stack@);
                stack.push(e);
                assert(u =~= s.take(s.len() - 2));
                assert(a@ == s[s.len() - 2]);
                assert(b@ == s[s.len() - 1]);
                assert(trees(stack@) =~= u.push(e@));
            },
        }
        i = i + 1;
    }
    assert(t.take(i as int) == t);
    if stack.len() == 1 {
        let e = stack.pop().unwrap();
        assert(e@ == trees(stack@.push(e))[0]);
        Ok(e)
    } else {
        Err(CalcError::InvalidExpression)
    }
}

} // verus!
