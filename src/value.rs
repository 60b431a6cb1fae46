use vstd::prelude::*;
use std::cmp::Ordering;

verus! {

/// Number of fractional units in one whole unit of a `Real`.
pub const REAL_SCALE: i64 = 1000000;

/// A tagged scalar. `Real` is a fixed-point number counted in millionths.
#[derive(Clone, Debug, PartialEq, Eq, PartialOrd)]
pub enum Value {
    Null,
    Int(i64),
    Real(i64),
    Text(String),
    Symbol(String),
}

/// The mathematical content of a `Value`.
pub enum ValueView {
    Null,
    Int(int),
    Real(int),
    Text(Seq<char>),
    Symbol(Seq<char>),
}

impl View for Value {
    type V = ValueView;

    open spec fn view(&self) -> ValueView {
        match self {
            Value::Null => ValueView::Null,
            Value::Int(i) => ValueView::Int(*i as int),
            Value::Real(r) => ValueView::Real(*r as int),
            Value::Text(s) => ValueView::Text(s@),
            Value::Symbol(s) => ValueView::Symbol(s@),
        }
    }
}

/// Three-way comparison of two mathematical integers.
pub open spec fn int_cmp(a: int, b: int) -> Ordering {
    if a < b {
        Ordering::Less
    } else if a > b {
        Ordering::Greater
    } else {
        Ordering::Equal
    }
}

/// Lexicographic comparison of two character sequences by code point.
pub open spec fn lex_cmp(a: Seq<char>, b: Seq<char>) -> Ordering
    decreases a.len(),
{
    if a.len() == 0 {
        if b.len() == 0 {
            Ordering::Equal
        } else {
            Ordering::Less
        }
    } else if b.len() == 0 {
        Ordering::Greater
    } else if a[0] < b[0] {
        Ordering::Less
    } else if a[0] > b[0] {
        Ordering::Greater
    } else {
        lex_cmp(a.drop_first(), b.drop_first())
    }
}

/// The partial comparison of the value domain: numbers compare by magnitude
/// (an `Int` counts as that many whole units), texts and symbols each
/// lexicographically, `Null` only with `Null`; all other pairs are unordered.
pub open spec fn partial_cmp_spec(a: ValueView, b: ValueView) -> Option<Ordering> {
    match (a, b) {
        (ValueView::Null, ValueView::Null) => Some(Ordering::Equal),
        (ValueView::Int(x), ValueView::Int(y)) => Some(int_cmp(x, y)),
        (ValueView::Int(x), ValueView::Real(y)) => Some(int_cmp(x * REAL_SCALE, y)),
        (ValueView::Real(x), ValueView::Int(y)) => Some(int_cmp(x, y * REAL_SCALE)),
        (ValueView::Real(x), ValueView::Real(y)) => Some(int_cmp(x, y)),
        (ValueView::Text(x), ValueView::Text(y)) => Some(lex_cmp(x, y)),
        (ValueView::Symbol(x), ValueView::Symbol(y)) => Some(lex_cmp(x, y)),
        _ => None,
    }
}

/// Position of a variant in the total order of keys.
pub open spec fn rank(a: ValueView) -> int {
    match a {
        ValueView::Null => 0,
        ValueView::Int(_) => 1,
        ValueView::Real(_) => 2,
        ValueView::Text(_) => 3,
        ValueView::Symbol(_) => 4,
    }
}

/// The total order of keys: by variant first, then by payload.
pub open spec fn key_cmp_spec(a: ValueView, b: ValueView) -> Ordering {
    if rank(a) != rank(b) {
        int_cmp(rank(a), rank(b))
    } else {
        match (a, b) {
            (ValueView::Int(x), ValueView::Int(y)) => int_cmp(x, y),
            (ValueView::Real(x), ValueView::Real(y)) => int_cmp(x, y),
            (ValueView::Text(x), ValueView::Text(y)) => lex_cmp(x, y),
            (ValueView::Symbol(x), ValueView::Symbol(y)) => lex_cmp(x, y),
            _ => Ordering::Equal,
        }
    }
}

/// Two sequences compare equal only when they are the same sequence.
pub proof fn lemma_lex_cmp_equal(a: Seq<char>, b: Seq<char>)
    requires
        lex_cmp(a, b) == Ordering::Equal,
    ensures
        a == b,
    decreases a.len(),
{
    if a.len() > 0 && b.len() > 0 {
        lemma_lex_cmp_equal(a.drop_first(), b.drop_first());
        assert(a =~= seq![a[0]] + a.drop_first());
        assert(b =~= seq![b[0]] + b.drop_first());
        assert(a[0] == b[0]);
    }
}

/// Every sequence compares equal to itself.
pub proof fn lemma_lex_cmp_refl(a: Seq<char>)
    ensures
        lex_cmp(a, a) == Ordering::Equal,
    decreases a.len(),
{
    if a.len() > 0 {
        lemma_lex_cmp_refl(a.drop_first());
    }
}

/// Every key compares equal to itself.
pub proof fn lemma_key_cmp_refl(a: ValueView)
    ensures
        key_cmp_spec(a, a) == Ordering::Equal,
{
    match a {
        ValueView::Text(x) => lemma_lex_cmp_refl(x),
        ValueView::Symbol(x) => lemma_lex_cmp_refl(x),
        _ => {},
    }
}

/// Keys that compare equal are the same value.
pub proof fn lemma_key_cmp_equal(a: ValueView, b: ValueView)
    requires
        key_cmp_spec(a, b) == Ordering::Equal,
    ensures
        a == b,
{
    match (a, b) {
        (ValueView::Text(x), ValueView::Text(y)) => lemma_lex_cmp_equal(x, y),
        (ValueView::Symbol(x), ValueView::Symbol(y)) => lemma_lex_cmp_equal(x, y),
        _ => {},
    }
}

fn cmp_i128(a: i128, b: i128) -> (r: Ordering)
    ensures
        r == int_cmp(a as int, b as int),
{
    if a < b {
        Ordering::Less
    } else if a > b {
        Ordering::Greater
    } else {
        Ordering::Equal
    }
}

/// Compares two strings character by character.
pub fn text_cmp(a: &String, b: &String) -> (r: Ordering)
    ensures
        r == lex_cmp(a@, b@),
{
    let sa = a.as_str();
    let sb = b.as_str();
    let la = sa.unicode_len();
    let lb = sb.unicode_len();
    let mut i: usize = 0;
    assert(a@.subrange(0, la as int) =~= a@);
    assert(b@.subrange(0, lb as int) =~= b@);
    while i < la && i < lb
        invariant
            la == a@.len(),
            lb == b@.len(),
            sa@ == a@,
            sb@ == b@,
            i <= la,
            i <= lb,
            lex_cmp(a@, b@) == lex_cmp(a@.subrange(i as int, la as int), b@.subrange(i as int, lb as int)),
        decreases la - i,
    {
        let ca = sa.get_char(i);
        let cb = sb.get_char(i);
        let ghost xa = a@.subrange(i as int, la as int);
        let ghost xb = b@.subrange(i as int, lb as int);
        assert(xa[0] == ca && xb[0] == cb);
        if ca < cb {
            return Ordering::Less;
        } else if ca > cb {
            return Ordering::Greater;
        }
        assert(xa.drop_first() =~= a@.subrange(i + 1, la as int));
        assert(xb.drop_first() =~= b@.subrange(i + 1, lb as int));
        i = i + 1;
    }
    let ghost xa = a@.subrange(i as int, la as int);
    let ghost xb = b@.subrange(i as int, lb as int);
    assert(xa.len() == 0 || xb.len() == 0);
    if i < la {
        Ordering::Greater
    } else if i < lb {
        Ordering::Less
    } else {
        Ordering::Equal
    }
}

fn rank_of(v: &Value) -> (r: u8)
    ensures
        r as int == rank(v@),
{
    match v {
        Value::Null => 0,
        Value::Int(_) => 1,
        Value::Real(_) => 2,
        Value::Text(_) => 3,
        Value::Symbol(_) => 4,
    }
}

impl Value {
    /// A copy of this value.
    pub fn copied(&self) -> (r: Value)
        ensures
            r@ == self@,
    {
        match self {
            Value::Null => Value::Null,
            Value::Int(i) => Value::Int(*i),
            Value::Real(x) => Value::Real(*x),
            Value::Text(s) => Value::Text(s.clone()),
            Value::Symbol(s) => Value::Symbol(s.clone()),
        }
    }

    /// The partial comparison of the value domain.
    pub fn compare_with(&self, other: &Value) -> (r: Option<Ordering>)
        ensures
            r == partial_cmp_spec(self@, other@),
    {
        match (self, other) {
            (Value::Null, Value::Null) => Some(Ordering::Equal),
            (Value::Int(x), Value::Int(y)) => Some(cmp_i128(*x as i128, *y as i128)),
            (Value::Int(x), Value::Real(y)) => Some(
                cmp_i128(*x as i128 * REAL_SCALE as i128, *y as i128),
            ),
            (Value::Real(x), Value::Int(y)) => Some(
                cmp_i128(*x as i128, *y as i128 * REAL_SCALE as i128),
            ),
            (Value::Real(x), Value::Real(y)) => Some(cmp_i128(*x as i128, *y as i128)),
            (Value::Text(x), Value::Text(y)) => Some(text_cmp(x, y)),
            (Value::Symbol(x), Value::Symbol(y)) => Some(text_cmp(x, y)),
            _ => None,
        }
    }

    /// The total order used to keep keys sorted.
    pub fn key_cmp(&self, other: &Value) -> (r: Ordering)
        ensures
            r == key_cmp_spec(self@, other@),
    {
        let ra = rank_of(self);
        let rb = rank_of(other);
        if ra != rb {
            return cmp_i128(ra as i128, rb as i128);
        }
        match (self, other) {
            (Value::Int(x), Value::Int(y)) => cmp_i128(*x as i128, *y as i128),
            (Value::Real(x), Value::Real(y)) => cmp_i128(*x as i128, *y as i128),
            (Value::Text(x), Value::Text(y)) => text_cmp(x, y),
            (Value::Symbol(x), Value::Symbol(y)) => text_cmp(x, y),
            _ => Ordering::Equal,
        }
    }

    /// The variable name this value denotes, if it is a symbol.
    pub fn symbol(&self) -> (r: Option<&String>)
        ensures
            match self@ {
                ValueView::Symbol(s) => r.is_some() && r.unwrap()@ == s,
                _ => r.is_none(),
            },
    {
        match self {
            Value::Symbol(s) => Some(s),
            _ => None,
        }
    }
}

} // verus!
