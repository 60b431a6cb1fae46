use vstd::prelude::*;
use std::cmp::Ordering;
use crate::value::{Value, partial_cmp_spec};

verus! {

/// The six comparison operators of a predicate.
#[derive(Clone, Copy, Debug, PartialEq, Eq, Structural)]
pub enum CompareOp {
    Eq,
    Neq,
    Ge,
    Gt,
    Le,
    Lt,
}

/// Whether an ordering satisfies an operator.
pub open spec fn op_holds(op: CompareOp, ord: Ordering) -> bool {
    match op {
        CompareOp::Eq => ord == Ordering::Equal,
        CompareOp::Neq => ord != Ordering::Equal,
        CompareOp::Ge => ord != Ordering::Less,
        CompareOp::Gt => ord == Ordering::Greater,
        CompareOp::Le => ord != Ordering::Greater,
        CompareOp::Lt => ord == Ordering::Less,
    }
}

/// A predicate over a partial comparison: unordered pairs satisfy nothing.
pub open spec fn compare_holds(ord: Option<Ordering>, op: CompareOp) -> bool {
    match ord {
        Some(o) => op_holds(op, o),
        None => false,
    }
}

/// The operator written as `s`, if `s` is one of `==`, `!=`, `>=`, `>`, `<=`, `<`.
pub open spec fn op_of(s: Seq<char>) -> Option<CompareOp> {
    if s == seq!['=', '='] {
        Some(CompareOp::Eq)
    } else if s == seq!['!', '='] {
        Some(CompareOp::Neq)
    } else if s == seq!['>', '='] {
        Some(CompareOp::Ge)
    } else if s == seq!['>'] {
        Some(CompareOp::Gt)
    } else if s == seq!['<', '='] {
        Some(CompareOp::Le)
    } else if s == seq!['<'] {
        Some(CompareOp::Lt)
    } else {
        None
    }
}

/// Types whose values can be compared under the six operators.
pub trait Compared {
    spec fn compare_spec(&self, other: &Self) -> Option<Ordering>;

    /// The partial comparison of two values.
    fn compare_with_override(&self, other: &Self) -> (r: Option<Ordering>)
        ensures
            r == self.compare_spec(other),
    ;

    /// Whether `left op right` holds.
    fn comparing(left: &Self, right: &Self, op: CompareOp) -> (r: bool)
        ensures
            r == compare_holds(left.compare_spec(right), op),
    ;

    // ==
    fn eq(ord: &Ordering) -> (r: bool)
        ensures
            r == op_holds(CompareOp::Eq, *ord),
    {
        match ord {
            Ordering::Equal => true,
            _ => false,
        }
    }

    // !=
    fn neq(ord: &Ordering) -> (r: bool)
        ensures
            r == op_holds(CompareOp::Neq, *ord),
    {
        match ord {
            Ordering::Equal => false,
            _ => true,
        }
    }

    // >=
    fn eq_or_gr(ord: &Ordering) -> (r: bool)
        ensures
            r == op_holds(CompareOp::Ge, *ord),
    {
        match ord {
            Ordering::Equal => true,
            Ordering::Greater => true,
            _ => false,
        }
    }

    // >
    fn gr(ord: &Ordering) -> (r: bool)
        ensures
            r == op_holds(CompareOp::Gt, *ord),
    {
        match ord {
            Ordering::Greater => true,
            _ => false,
        }
    }

    // <=
    fn eq_or_le(ord: &Ordering) -> (r: bool)
        ensures
            r == op_holds(CompareOp::Le, *ord),
    {
        match ord {
            Ordering::Equal => true,
            Ordering::Less => true,
            _ => false,
        }
    }

    // <
    fn le(ord: &Ordering) -> (r: bool)
        ensures
            r == op_holds(CompareOp::Lt, *ord),
    {
        match ord {
            Ordering::Less => true,
            _ => false,
        }
    }
}

impl CompareOp {
    /// Reads an operator from its written form.
    pub fn from_symbol(s: &str) -> (r: Option<CompareOp>)
        ensures
            r == op_of(s@),
    {
        let n = s.unicode_len();
        if n == 0 || n > 2 {
            return None;
        }
        let c0 = s.get_char(0);
        if n == 1 {
            proof {
                assert(s@ =~= seq![c0]);
            }
            if c0 == '>' {
                return Some(CompareOp::Gt);
            } else if c0 == '<' {
                return Some(CompareOp::Lt);
            }
            return None;
        }
        let c1 = s.get_char(1);
        proof {
            assert(s@ =~= seq![c0, c1]);
        }
        if c1 != '=' {
            return None;
        }
        if c0 == '=' {
            Some(CompareOp::Eq)
        } else if c0 == '!' {
            Some(CompareOp::Neq)
        } else if c0 == '>' {
            Some(CompareOp::Ge)
        } else if c0 == '<' {
            Some(CompareOp::Le)
        } else {
            None
        }
    }

    /// Whether an ordering satisfies this operator.
    pub fn holds(self, ord: &Ordering) -> (r: bool)
        ensures
            r == op_holds(self, *ord),
    {
        match self {
            CompareOp::Eq => <Value as Compared>::eq(ord),
            CompareOp::Neq => <Value as Compared>::neq(ord),
            CompareOp::Ge => <Value as Compared>::eq_or_gr(ord),
            CompareOp::Gt => <Value as Compared>::gr(ord),
            CompareOp::Le => <Value as Compared>::eq_or_le(ord),
            CompareOp::Lt => <Value as Compared>::le(ord),
        }
    }
}

impl Compared for Value {
    open spec fn compare_spec(&self, other: &Self) -> Option<Ordering> {
        partial_cmp_spec(self@, other@)
    }

    fn compare_with_override(&self, other: &Self) -> (r: Option<Ordering>) {
        self.compare_with(other)
    }

    fn comparing(left: &Self, right: &Self, op: CompareOp) -> (r: bool) {
        match left.compare_with_override(right) {
            Some(ord) => op.holds(&ord),
            None => false,
        }
    }
}

} // verus!
