//! Rendering expressions to infix text.

use vstd::prelude::*;

use crate::exprs::Expression;
use crate::exprs::ExprView;
use crate::exprs::NodeType;
use crate::exprs::TagView;
use crate::exprs::lemma_views_of_exprs;

verus! {

/// The digit character of a value below ten.
pub open spec fn digit_char(d: int) -> char {
    if d == 0 {
        '0'
    } else if d == 1 {
        '1'
    } else if d == 2 {
        '2'
    } else if d == 3 {
        '3'
    } else if d == 4 {
        '4'
    } else if d == 5 {
        '5'
    } else if d == 6 {
        '6'
    } else if d == 7 {
        '7'
    } else if d == 8 {
        '8'
    } else {
        '9'
    }
}

/// The decimal digits of a nonnegative value, most significant first.
pub open spec fn dec_digits(n: int) -> Seq<char>
    decreases n,
{
    if n < 10 {
        seq![digit_char(n)]
    } else {
        dec_digits(n / 10).push(digit_char(n % 10))
    }
}

/// An infix form with parentheses around the whole operation.
pub open spec fn infix(l: Seq<char>, op: char, r: Seq<char>) -> Seq<char> {
    seq!['('] + l + seq![' ', op, ' '] + r + seq![')']
}

/// The infix rendering of an expression: constants as decimal digits with a
/// leading minus sign when negative, variables as their names,
/// meta-variables with a question mark, negation as `-(x)` and the binary
/// operators parenthesized; a node of the wrong arity renders its missing
/// parts as question marks.
pub open spec fn render_spec(e: ExprView) -> Seq<char>
    decreases e,
{
    match e.t {
        TagView::MetaVar(s) => seq!['?'] + s,
        TagView::Const(n) => if n >= 0 {
            dec_digits(n)
        } else {
            seq!['-'] + dec_digits(-n)
        },
        TagView::Var(s) => s,
        TagView::Neg => {
            if e.children.len() == 1 {
                seq!['-', '('] + render_spec(e.children[0]) + seq![')']
            } else {
                seq!['-', '(', '?', ')']
            }
        },
        TagView::Add => {
            if e.children.len() == 2 {
                infix(render_spec(e.children[0]), '+', render_spec(e.children[1]))
            } else {
                infix(seq!['?'], '+', seq!['?'])
            }
        },
        TagView::Sub => {
            if e.children.len() == 2 {
                infix(render_spec(e.children[0]), '-', render_spec(e.children[1]))
            } else {
                infix(seq!['?'], '-', seq!['?'])
            }
        },
        TagView::Mul => {
            if e.children.len() == 2 {
                infix(render_spec(e.children[0]), '*', render_spec(e.children[1]))
            } else {
                infix(seq!['?'], '*', seq!['?'])
            }
        },
        TagView::Div => {
            if e.children.len() == 2 {
                infix(render_spec(e.children[0]), '/', render_spec(e.children[1]))
            } else {
                infix(seq!['?'], '/', seq!['?'])
            }
        },
    }
}

/// The digit of a value below ten, as text.
fn digit_str(d: u64) -> (r: &'static str)
    requires
        d < 10,
    ensures
        r@ == seq![digit_char(d as int)],
{
    proof {
        reveal_strlit("0");
        reveal_strlit("1");
        reveal_strlit("2");
        reveal_strlit("3");
        reveal_strlit("4");
        reveal_strlit("5");
        reveal_strlit("6");
        reveal_strlit("7");
        reveal_strlit("8");
        reveal_strlit("9");
    }
    let r = match d {
        0 => "0",
        1 => "1",
        2 => "2",
        3 => "3",
        4 => "4",
        5 => "5",
        6 => "6",
        7 => "7",
        8 => "8",
        _ => "9",
    };
    proof {
        assert(r@ =~= seq![digit_char(d as int)]);
    }
    r
}

/// The decimal digits of a value, most significant first.
fn dec_string(n: u64) -> (r: String)
    ensures
        r@ == dec_digits(n as int),
    decreases n,
{
    if n < 10 {
        digit_str(n).to_owned()
    } else {
        let mut s = dec_string(n / 10);
        s.append(digit_str(n % 10));
        proof {
            assert(s@ =~= dec_digits(n as int));
        }
        s
    }
}

impl Expression {
    /// Renders the expression as infix text.
    pub fn render(&self) -> (r: String)
        ensures
            r@ == render_spec(self@),
        decreases *self,
    {
        proof {
            lemma_views_of_exprs(self.children@);
            reveal_strlit("?");
            reveal_strlit("-(");
            reveal_strlit(")");
            reveal_strlit("-(?)");
            reveal_strlit("(");
            reveal_strlit(" + ");
            reveal_strlit(" - ");
            reveal_strlit(" * ");
            reveal_strlit(" / ");
            reveal_strlit("(? + ?)");
            reveal_strlit("(? - ?)");
            reveal_strlit("(? * ?)");
            reveal_strlit("(? / ?)");
            reveal_strlit("-");
        }
        match &self.t {
            NodeType::MetaVar(s) => {
                let mut out = "?".to_owned();
                out.append(s.as_str());
                proof {
                    assert(out@ =~= render_spec(self@));
                }
                out
            },
            NodeType::Const(n) => {
                let v = *n;
                if v >= 0 {
                    let out = dec_string(v as u64);
                    proof {
                        assert(out@ =~= render_spec(self@));
                    }
                    out
                } else {
                    let magnitude = (-(v as i128)) as u64;
                    proof {
                        assert(magnitude as int == -(v as int));
                    }
                    let mut out = "-".to_owned();
                    out.append(dec_string(magnitude).as_str());
                    proof {
                        assert(out@ =~= render_spec(self@));
                    }
                    out
                }
            },
            NodeType::Var(s) => s.clone(),
            NodeType::Neg => {
                if self.children.len() == 1 {
                    let mut out = "-(".to_owned();
                    out.append(self.children[0].render().as_str());
                    out.append(")");
                    proof {
                        assert(out@ =~= render_spec(self@));
                    }
                    out
                } else {
                    let out = "-(?)".to_owned();
                    proof {
                        assert(out@ =~= render_spec(self@));
                    }
                    out
                }
            },
            _ => {
                let (op, broken) = match &self.t {
                    NodeType::Add => (" + ", "(? + ?)"),
                    NodeType::Sub => (" - ", "(? - ?)"),
                    NodeType::Mul => (" * ", "(? * ?)"),
                    _ => (" / ", "(? / ?)"),
                };
                if self.children.len() == 2 {
                    let mut out = "(".to_owned();
                    out.append(self.children[0].render().as_str());
                    out.append(op);
                    out.append(self.children[1].render().as_str());
                    out.append(")");
                    proof {
                        assert(out@ =~= render_spec(self@));
                    }
                    out
                } else {
                    let out = broken.to_owned();
                    proof {
                        assert(out@ =~= render_spec(self@));
                    }
                    out
                }
            },
        }
    }
}

} // verus!
