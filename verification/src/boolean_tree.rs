//! Boolean expressions over eight input bits, in canonical form.

pub use crate::evaluator::Runnable;
use vstd::prelude::*;

verus! {

/// A leaf of a Boolean expression: a constant, an input bit or a negated input bit.
#[derive(Debug, PartialEq, Eq, PartialOrd, Ord, Copy, Clone, Hash, Structural)]
pub enum Operand {
    True,
    False,
    Bit0,
    NotBit0,
    Bit1,
    NotBit1,
    Bit2,
    NotBit2,
    Bit3,
    NotBit3,
    Bit4,
    NotBit4,
    Bit5,
    NotBit5,
    Bit6,
    NotBit6,
    Bit7,
    NotBit7,
}

impl Operand {
    /// The position of the leaf in the fixed order of the eighteen leaves.
    pub open spec fn rank(self) -> int {
        match self {
            Operand::True => 0,
            Operand::False => 1,
            Operand::Bit0 => 2,
            Operand::NotBit0 => 3,
            Operand::Bit1 => 4,
            Operand::NotBit1 => 5,
            Operand::Bit2 => 6,
            Operand::NotBit2 => 7,
            Operand::Bit3 => 8,
            Operand::NotBit3 => 9,
            Operand::Bit4 => 10,
            Operand::NotBit4 => 11,
            Operand::Bit5 => 12,
            Operand::NotBit5 => 13,
            Operand::Bit6 => 14,
            Operand::NotBit6 => 15,
            Operand::Bit7 => 16,
            Operand::NotBit7 => 17,
        }
    }

    /// The leaf with the opposite value: `True` and `False` swap, and so do
    /// each bit and its negation.
    pub open spec fn negation(self) -> Operand {
        match self {
            Operand::True => Operand::False,
            Operand::False => Operand::True,
            Operand::Bit0 => Operand::NotBit0,
            Operand::NotBit0 => Operand::Bit0,
            Operand::Bit1 => Operand::NotBit1,
            Operand::NotBit1 => Operand::Bit1,
            Operand::Bit2 => Operand::NotBit2,
            Operand::NotBit2 => Operand::Bit2,
            Operand::Bit3 => Operand::NotBit3,
            Operand::NotBit3 => Operand::Bit3,
            Operand::Bit4 => Operand::NotBit4,
            Operand::NotBit4 => Operand::Bit4,
            Operand::Bit5 => Operand::NotBit5,
            Operand::NotBit5 => Operand::Bit5,
            Operand::Bit6 => Operand::NotBit6,
            Operand::NotBit6 => Operand::Bit6,
            Operand::Bit7 => Operand::NotBit7,
            Operand::NotBit7 => Operand::Bit7,
        }
    }

    /// The value of the leaf where input bit `i` is `bits[i]`.
    pub open spec fn eval(self, bits: Seq<bool>) -> bool {
        match self {
            Operand::True => true,
            Operand::False => false,
            Operand::Bit0 => bits[0],
            Operand::NotBit0 => !bits[0],
            Operand::Bit1 => bits[1],
            Operand::NotBit1 => !bits[1],
            Operand::Bit2 => bits[2],
            Operand::NotBit2 => !bits[2],
            Operand::Bit3 => bits[3],
            Operand::NotBit3 => !bits[3],
            Operand::Bit4 => bits[4],
            Operand::NotBit4 => !bits[4],
            Operand::Bit5 => bits[5],
            Operand::NotBit5 => !bits[5],
            Operand::Bit6 => bits[6],
            Operand::NotBit6 => !bits[6],
            Operand::Bit7 => bits[7],
            Operand::NotBit7 => !bits[7],
        }
    }

    /// The leaf that reads input bit `i` unnegated.
    pub open spec fn selector(i: int) -> Operand {
        if i == 0 {
            Operand::Bit0
        } else if i == 1 {
            Operand::Bit1
        } else if i == 2 {
            Operand::Bit2
        } else if i == 3 {
            Operand::Bit3
        } else if i == 4 {
            Operand::Bit4
        } else if i == 5 {
            Operand::Bit5
        } else if i == 6 {
            Operand::Bit6
        } else {
            Operand::Bit7
        }
    }

    /// The leaf with the opposite value.
    pub fn not(self) -> (r: Operand)
        ensures
            r == self.negation(),
    {
        match self {
            Operand::True => Operand::False,
            Operand::False => Operand::True,
            Operand::Bit0 => Operand::NotBit0,
            Operand::NotBit0 => Operand::Bit0,
            Operand::Bit1 => Operand::NotBit1,
            Operand::NotBit1 => Operand::Bit1,
            Operand::Bit2 => Operand::NotBit2,
            Operand::NotBit2 => Operand::Bit2,
            Operand::Bit3 => Operand::NotBit3,
            Operand::NotBit3 => Operand::Bit3,
            Operand::Bit4 => Operand::NotBit4,
            Operand::NotBit4 => Operand::Bit4,
            Operand::Bit5 => Operand::NotBit5,
            Operand::NotBit5 => Operand::Bit5,
            Operand::Bit6 => Operand::NotBit6,
            Operand::NotBit6 => Operand::Bit6,
            Operand::Bit7 => Operand::NotBit7,
            Operand::NotBit7 => Operand::Bit7,
        }
    }

    /// The leaf's position in the order of the leaves, as a number.
    pub fn index(self) -> (r: u8)
        ensures
            r == self.rank(),
    {
        match self {
            Operand::True => 0,
            Operand::False => 1,
            Operand::Bit0 => 2,
            Operand::NotBit0 => 3,
            Operand::Bit1 => 4,
            Operand::NotBit1 => 5,
            Operand::Bit2 => 6,
            Operand::NotBit2 => 7,
            Operand::Bit3 => 8,
            Operand::NotBit3 => 9,
            Operand::Bit4 => 10,
            Operand::NotBit4 => 11,
            Operand::Bit5 => 12,
            Operand::NotBit5 => 13,
            Operand::Bit6 => 14,
            Operand::NotBit6 => 15,
            Operand::Bit7 => 16,
            Operand::NotBit7 => 17,
        }
    }

    /// Leaves stand at depth 0.
    pub fn stage(&self) -> (r: u8)
        ensures
            r == 0,
    {
        0
    }
}

impl From<bool> for Operand {
    fn from(value: bool) -> (r: Operand) {
        if value {
            Operand::True
        } else {
            Operand::False
        }
    }
}

impl vstd::std_specs::convert::FromSpecImpl<bool> for Operand {
    open spec fn obeys_from_spec() -> bool {
        true
    }

    open spec fn from_spec(value: bool) -> Operand {
        if value {
            Operand::True
        } else {
            Operand::False
        }
    }
}

/// A Boolean function of the eight input bits, as a tree of gates over leaves.
#[derive(Debug, Eq, PartialEq, PartialOrd, Ord, Hash)]
pub enum BooleanExpr {
    Operand(Operand),
    And(Box<BooleanExpr>, Box<BooleanExpr>),
    Or(Box<BooleanExpr>, Box<BooleanExpr>),
    Xor(Box<BooleanExpr>, Box<BooleanExpr>),
    Mux(Operand, Box<BooleanExpr>, Box<BooleanExpr>),
}

impl Clone for BooleanExpr {
    fn clone(&self) -> (r: Self)
        ensures
            r == *self,
        decreases *self,
    {
        match self {
            BooleanExpr::Operand(op) => BooleanExpr::Operand(*op),
            BooleanExpr::And(l, r) => BooleanExpr::And(Box::new((**l).clone()), Box::new((**r).clone())),
            BooleanExpr::Or(l, r) => BooleanExpr::Or(Box::new((**l).clone()), Box::new((**r).clone())),
            BooleanExpr::Xor(l, r) => BooleanExpr::Xor(Box::new((**l).clone()), Box::new((**r).clone())),
            BooleanExpr::Mux(s, l, r) => BooleanExpr::Mux(*s, Box::new((**l).clone()), Box::new((**r).clone())),
        }
    }
}


impl BooleanExpr {
    /// The rank of the node's variant: leaves first, then And, Or, Xor, Mux.
    pub open spec fn kind(self) -> int {
        match self {
            BooleanExpr::Operand(_) => 0,
            BooleanExpr::And(_, _) => 1,
            BooleanExpr::Or(_, _) => 2,
            BooleanExpr::Xor(_, _) => 3,
            BooleanExpr::Mux(_, _, _) => 4,
        }
    }

    /// The total order on expressions: by variant, then by the parts from left
    /// to right. Negative where `self` comes first, zero where the two are
    /// equal, positive where `other` comes first.
    pub open spec fn compare(self, other: BooleanExpr) -> int
        decreases self,
    {
        if self.kind() != other.kind() {
            self.kind() - other.kind()
        } else {
            match (self, other) {
                (BooleanExpr::Operand(a), BooleanExpr::Operand(b)) => a.rank() - b.rank(),
                (BooleanExpr::And(l1, r1), BooleanExpr::And(l2, r2)) => if l1.compare(*l2) != 0 {
                    l1.compare(*l2)
                } else {
                    r1.compare(*r2)
                },
                (BooleanExpr::Or(l1, r1), BooleanExpr::Or(l2, r2)) => if l1.compare(*l2) != 0 {
                    l1.compare(*l2)
                } else {
                    r1.compare(*r2)
                },
                (BooleanExpr::Xor(l1, r1), BooleanExpr::Xor(l2, r2)) => if l1.compare(*l2) != 0 {
                    l1.compare(*l2)
                } else {
                    r1.compare(*r2)
                },
                (BooleanExpr::Mux(s1, l1, r1), BooleanExpr::Mux(s2, l2, r2)) => if s1 != s2 {
                    s1.rank() - s2.rank()
                } else if l1.compare(*l2) != 0 {
                    l1.compare(*l2)
                } else {
                    r1.compare(*r2)
                },
                _ => 0,
            }
        }
    }

    /// `self` comes strictly before `other` in the order of expressions.
    pub open spec fn precedes(self, other: BooleanExpr) -> bool {
        self.compare(other) < 0
    }

    /// The smaller of two expressions, or the second where neither is smaller.
    pub open spec fn first_of(a: BooleanExpr, b: BooleanExpr) -> BooleanExpr {
        if a.precedes(b) {
            a
        } else {
            b
        }
    }

    /// The other one of the two.
    pub open spec fn second_of(a: BooleanExpr, b: BooleanExpr) -> BooleanExpr {
        if a.precedes(b) {
            b
        } else {
            a
        }
    }

    /// The conjunction of two expressions with its children in order.
    pub open spec fn and_of(a: BooleanExpr, b: BooleanExpr) -> BooleanExpr {
        BooleanExpr::And(Box::new(Self::first_of(a, b)), Box::new(Self::second_of(a, b)))
    }

    /// The disjunction of two expressions with its children in order.
    pub open spec fn or_of(a: BooleanExpr, b: BooleanExpr) -> BooleanExpr {
        BooleanExpr::Or(Box::new(Self::first_of(a, b)), Box::new(Self::second_of(a, b)))
    }

    /// The exclusive or of two expressions with its children in order.
    pub open spec fn xor_of(a: BooleanExpr, b: BooleanExpr) -> BooleanExpr {
        BooleanExpr::Xor(Box::new(Self::first_of(a, b)), Box::new(Self::second_of(a, b)))
    }

    /// The negation, pushed down to the leaves: And and Or swap, Xor negates
    /// its left child, Mux negates both branches; the children are put in
    /// order again.
    pub open spec fn negation(self) -> BooleanExpr
        decreases self,
    {
        match self {
            BooleanExpr::Operand(op) => BooleanExpr::Operand(op.negation()),
            BooleanExpr::And(l, r) => Self::or_of(l.negation(), r.negation()),
            BooleanExpr::Or(l, r) => Self::and_of(l.negation(), r.negation()),
            BooleanExpr::Xor(l, r) => Self::xor_of(l.negation(), *r),
            BooleanExpr::Mux(s, l, r) => BooleanExpr::Mux(s, Box::new(l.negation()), Box::new(r.negation())),
        }
    }

    /// The value of the expression where input bit `i` is `bits[i]`. A Mux
    /// takes its first branch where the selector holds.
    pub open spec fn eval(self, bits: Seq<bool>) -> bool
        decreases self,
    {
        match self {
            BooleanExpr::Operand(op) => op.eval(bits),
            BooleanExpr::And(l, r) => l.eval(bits) && r.eval(bits),
            BooleanExpr::Or(l, r) => l.eval(bits) || r.eval(bits),
            BooleanExpr::Xor(l, r) => l.eval(bits) != r.eval(bits),
            BooleanExpr::Mux(s, l, r) => if s.eval(bits) {
                l.eval(bits)
            } else {
                r.eval(bits)
            },
        }
    }

    /// The depth of the node: 0 for a leaf, one more than the deeper child otherwise.
    pub open spec fn depth(self) -> nat
        decreases self,
    {
        match self {
            BooleanExpr::Operand(_) => 0,
            BooleanExpr::And(l, r) => 1 + if l.depth() >= r.depth() { l.depth() } else { r.depth() },
            BooleanExpr::Or(l, r) => 1 + if l.depth() >= r.depth() { l.depth() } else { r.depth() },
            BooleanExpr::Xor(l, r) => 1 + if l.depth() >= r.depth() { l.depth() } else { r.depth() },
            BooleanExpr::Mux(_, l, r) => 1 + if l.depth() >= r.depth() { l.depth() } else { r.depth() },
        }
    }

    /// `mux(s, True, right)`.
    pub open spec fn mux_true_of(s: Operand, right: BooleanExpr) -> BooleanExpr {
        match right {
            BooleanExpr::Operand(Operand::True) => BooleanExpr::Operand(Operand::True),
            BooleanExpr::Operand(Operand::False) => BooleanExpr::Operand(s),
            _ => Self::or_of(BooleanExpr::Operand(s), right),
        }
    }

    /// `mux(s, False, right)`.
    pub open spec fn mux_false_of(s: Operand, right: BooleanExpr) -> BooleanExpr {
        match right {
            BooleanExpr::Operand(Operand::True) => BooleanExpr::Operand(s.negation()),
            BooleanExpr::Operand(Operand::False) => BooleanExpr::Operand(Operand::False),
            _ => Self::and_of(BooleanExpr::Operand(s.negation()), right),
        }
    }

    /// `mux(s, left, right)` where `left` is no constant.
    pub open spec fn mux_other_of(s: Operand, left: BooleanExpr, right: BooleanExpr) -> BooleanExpr {
        match right {
            BooleanExpr::Operand(Operand::True) => Self::mux_true_of(s.negation(), left),
            BooleanExpr::Operand(Operand::False) => Self::mux_false_of(s.negation(), left),
            _ => if left == right {
                left
            } else if left == right.negation() {
                Self::xor_of(BooleanExpr::Operand(s.negation()), left)
            } else {
                BooleanExpr::Mux(s, Box::new(left), Box::new(right))
            },
        }
    }

    /// The reduced form of "`left` where `s` holds, `right` where it does not".
    /// Constant branches collapse into a leaf, an And or an Or; equal branches
    /// into the branch; opposite branches into a Xor; only the rest is a Mux.
    pub open spec fn mux_of(s: Operand, left: BooleanExpr, right: BooleanExpr) -> BooleanExpr {
        match left {
            BooleanExpr::Operand(Operand::True) => Self::mux_true_of(s, right),
            BooleanExpr::Operand(Operand::False) => Self::mux_false_of(s, right),
            _ => Self::mux_other_of(s, left, right),
        }
    }

    /// Structural equality.
    pub fn same(&self, other: &BooleanExpr) -> (r: bool)
        ensures
            r == (*self == *other),
        decreases *self,
    {
        match (self, other) {
            (BooleanExpr::Operand(a), BooleanExpr::Operand(b)) => *a == *b,
            (BooleanExpr::And(l1, r1), BooleanExpr::And(l2, r2)) => l1.same(l2) && r1.same(r2),
            (BooleanExpr::Or(l1, r1), BooleanExpr::Or(l2, r2)) => l1.same(l2) && r1.same(r2),
            (BooleanExpr::Xor(l1, r1), BooleanExpr::Xor(l2, r2)) => l1.same(l2) && r1.same(r2),
            (BooleanExpr::Mux(s1, l1, r1), BooleanExpr::Mux(s2, l2, r2)) => *s1 == *s2 && l1.same(l2)
                && r1.same(r2),
            _ => false,
        }
    }

    /// The rank of the node's variant.
    fn discriminant(&self) -> (r: u8)
        ensures
            r == self.kind(),
    {
        match self {
            BooleanExpr::Operand(_) => 0,
            BooleanExpr::And(_, _) => 1,
            BooleanExpr::Or(_, _) => 2,
            BooleanExpr::Xor(_, _) => 3,
            BooleanExpr::Mux(_, _, _) => 4,
        }
    }

    /// Whether `self` comes strictly before `other` in the order of expressions.
    pub fn less_than(&self, other: &BooleanExpr) -> (r: bool)
        ensures
            r == self.precedes(*other),
    {
        self.sign(other) < 0
    }

    /// The sign of `compare`: -1, 0 or 1.
    fn sign(&self, other: &BooleanExpr) -> (r: i8)
        ensures
            -1 <= r <= 1,
            (r < 0) == (self.compare(*other) < 0),
            (r == 0) == (self.compare(*other) == 0),
        decreases *self,
    {
        let d1: u8 = self.discriminant();
        let d2: u8 = other.discriminant();
        if d1 < d2 {
            -1
        } else if d1 > d2 {
            1
        } else {
            match (self, other) {
                (BooleanExpr::Operand(a), BooleanExpr::Operand(b)) => Self::sign_of(a.index(), b.index()),
                (BooleanExpr::And(l1, r1), BooleanExpr::And(l2, r2)) => {
                    let c: i8 = l1.sign(l2);
                    if c != 0 {
                        c
                    } else {
                        r1.sign(r2)
                    }
                },
                (BooleanExpr::Or(l1, r1), BooleanExpr::Or(l2, r2)) => {
                    let c: i8 = l1.sign(l2);
                    if c != 0 {
                        c
                    } else {
                        r1.sign(r2)
                    }
                },
                (BooleanExpr::Xor(l1, r1), BooleanExpr::Xor(l2, r2)) => {
                    let c: i8 = l1.sign(l2);
                    if c != 0 {
                        c
                    } else {
                        r1.sign(r2)
                    }
                },
                (BooleanExpr::Mux(s1, l1, r1), BooleanExpr::Mux(s2, l2, r2)) => {
                    let c0: i8 = Self::sign_of(s1.index(), s2.index());
                    if c0 != 0 {
                        c0
                    } else {
                        let c: i8 = l1.sign(l2);
                        if c != 0 {
                            c
                        } else {
                            r1.sign(r2)
                        }
                    }
                },
                _ => 0,
            }
        }
    }

    /// The sign of `a - b`.
    fn sign_of(a: u8, b: u8) -> (r: i8)
        ensures
            -1 <= r <= 1,
            (r < 0) == (a < b),
            (r == 0) == (a == b),
    {
        if a < b {
            -1
        } else if a > b {
            1
        } else {
            0
        }
    }

    /// The two expressions with the smaller one first.
    fn order_expr(op_1: BooleanExpr, op_2: BooleanExpr) -> (r: (BooleanExpr, BooleanExpr))
        ensures
            r.0 == Self::first_of(op_1, op_2),
            r.1 == Self::second_of(op_1, op_2),
    {
        if op_1.less_than(&op_2) {
            (op_1, op_2)
        } else {
            (op_2, op_1)
        }
    }

    /// The exclusive or of two expressions with its children in order.
    fn ordered_xor(op_1: BooleanExpr, op_2: BooleanExpr) -> (r: BooleanExpr)
        ensures
            r == Self::xor_of(op_1, op_2),
    {
        let (left, right) = Self::order_expr(op_1, op_2);
        BooleanExpr::Xor(Box::new(left), Box::new(right))
    }

    /// The conjunction of two expressions with its children in order.
    fn ordered_and(op_1: BooleanExpr, op_2: BooleanExpr) -> (r: BooleanExpr)
        ensures
            r == Self::and_of(op_1, op_2),
    {
        let (left, right) = Self::order_expr(op_1, op_2);
        BooleanExpr::And(Box::new(left), Box::new(right))
    }

    /// The disjunction of two expressions with its children in order.
    fn ordered_or(op_1: BooleanExpr, op_2: BooleanExpr) -> (r: BooleanExpr)
        ensures
            r == Self::or_of(op_1, op_2),
    {
        let (left, right) = Self::order_expr(op_1, op_2);
        BooleanExpr::Or(Box::new(left), Box::new(right))
    }

    /// The negation of the expression, in canonical form.
    pub fn not(self) -> (r: BooleanExpr)
        ensures
            r == self.negation(),
        decreases self,
    {
        match self {
            BooleanExpr::Operand(inner) => BooleanExpr::Operand(inner.not()),
            BooleanExpr::And(inner_0, inner_1) => Self::ordered_or((*inner_0).not(), (*inner_1).not()),
            BooleanExpr::Or(inner_0, inner_1) => Self::ordered_and((*inner_0).not(), (*inner_1).not()),
            BooleanExpr::Xor(inner_0, inner_1) => Self::ordered_xor((*inner_0).not(), *inner_1),
            BooleanExpr::Mux(mux, inner_0, inner_1) => BooleanExpr::Mux(
                mux,
                Box::new((*inner_0).not()),
                Box::new((*inner_1).not()),
            ),
        }
    }

    /// The multiplexer whose first branch is the constant True.
    fn mux_left_true(mux: &Operand, right: &BooleanExpr) -> (r: BooleanExpr)
        ensures
            r == Self::mux_true_of(*mux, *right),
    {
        match right {
            BooleanExpr::Operand(Operand::True) => BooleanExpr::Operand(Operand::True),
            BooleanExpr::Operand(Operand::False) => BooleanExpr::Operand(*mux),
            _ => Self::ordered_or(BooleanExpr::Operand(*mux), right.clone()),
        }
    }

    /// The multiplexer whose first branch is the constant False.
    fn mux_left_false(mux: &Operand, right: &BooleanExpr) -> (r: BooleanExpr)
        ensures
            r == Self::mux_false_of(*mux, *right),
    {
        match right {
            BooleanExpr::Operand(Operand::True) => BooleanExpr::Operand(mux.not()),
            BooleanExpr::Operand(Operand::False) => BooleanExpr::Operand(Operand::False),
            _ => Self::ordered_and(BooleanExpr::Operand(mux.not()), right.clone()),
        }
    }

    /// The multiplexer whose first branch is no constant.
    fn mux_left_x(mux: &Operand, left: &BooleanExpr, right: &BooleanExpr) -> (r: BooleanExpr)
        ensures
            r == Self::mux_other_of(*mux, *left, *right),
    {
        match right {
            BooleanExpr::Operand(Operand::True) => Self::mux_left_true(&mux.not(), left),
            BooleanExpr::Operand(Operand::False) => Self::mux_left_false(&mux.not(), left),
            _ => {
                if left.same(right) {
                    left.clone()
                } else if left.same(&right.clone().not()) {
                    Self::ordered_xor(BooleanExpr::Operand(mux.not()), left.clone())
                } else {
                    BooleanExpr::Mux(*mux, Box::new(left.clone()), Box::new(right.clone()))
                }
            },
        }
    }

    /// Builds "`left` where `mux` holds, `right` where it does not" in reduced form.
    pub fn mux(mux: &Operand, left: &BooleanExpr, right: &BooleanExpr) -> (r: BooleanExpr)
        ensures
            r == Self::mux_of(*mux, *left, *right),
    {
        match left {
            BooleanExpr::Operand(Operand::True) => Self::mux_left_true(mux, right),
            BooleanExpr::Operand(Operand::False) => Self::mux_left_false(mux, right),
            _ => Self::mux_left_x(mux, left, right),
        }
    }
}


/// Negating a leaf negates its value.
pub proof fn lemma_operand_negation(op: Operand, bits: Seq<bool>)
    ensures
        op.negation().eval(bits) == !op.eval(bits),
        op.negation().negation() == op,
        op.negation() != op,
{
}

/// Two expressions compare as equal exactly when they are equal, and swapping
/// the two swaps the sign.
pub proof fn lemma_compare(a: BooleanExpr, b: BooleanExpr)
    ensures
        (a.compare(b) == 0) == (a == b),
        (a.compare(b) < 0) == (b.compare(a) > 0),
        (a.compare(b) > 0) == (b.compare(a) < 0),
    decreases a,
{
    match (a, b) {
        (BooleanExpr::Operand(x), BooleanExpr::Operand(y)) => {},
        (BooleanExpr::And(l1, r1), BooleanExpr::And(l2, r2)) => {
            lemma_compare(*l1, *l2);
            lemma_compare(*r1, *r2);
        },
        (BooleanExpr::Or(l1, r1), BooleanExpr::Or(l2, r2)) => {
            lemma_compare(*l1, *l2);
            lemma_compare(*r1, *r2);
        },
        (BooleanExpr::Xor(l1, r1), BooleanExpr::Xor(l2, r2)) => {
            lemma_compare(*l1, *l2);
            lemma_compare(*r1, *r2);
        },
        (BooleanExpr::Mux(s1, l1, r1), BooleanExpr::Mux(s2, l2, r2)) => {
            lemma_compare(*l1, *l2);
            lemma_compare(*r1, *r2);
        },
        _ => {},
    }
}

/// The negation of an expression has the opposite value at every assignment.
pub proof fn lemma_negation_eval(e: BooleanExpr, bits: Seq<bool>)
    ensures
        e.negation().eval(bits) == !e.eval(bits),
    decreases e,
{
    match e {
        BooleanExpr::Operand(op) => {
            lemma_operand_negation(op, bits);
        },
        BooleanExpr::And(l, r) => {
            lemma_negation_eval(*l, bits);
            lemma_negation_eval(*r, bits);
        },
        BooleanExpr::Or(l, r) => {
            lemma_negation_eval(*l, bits);
            lemma_negation_eval(*r, bits);
        },
        BooleanExpr::Xor(l, r) => {
            lemma_negation_eval(*l, bits);
        },
        BooleanExpr::Mux(s, l, r) => {
            lemma_negation_eval(*l, bits);
            lemma_negation_eval(*r, bits);
        },
    }
}

/// The reduced multiplexer has the value of its first branch where the
/// selector holds, and of its second branch where it does not.
pub proof fn lemma_mux_eval(s: Operand, left: BooleanExpr, right: BooleanExpr, bits: Seq<bool>)
    ensures
        BooleanExpr::mux_of(s, left, right).eval(bits) == (if s.eval(bits) {
            left.eval(bits)
        } else {
            right.eval(bits)
        }),
{
    lemma_operand_negation(s, bits);
    lemma_negation_eval(right, bits);
    let ns = BooleanExpr::Operand(s.negation());
    let ps = BooleanExpr::Operand(s);
    lemma_ordered_eval(ps, right, bits);
    lemma_ordered_eval(ns, right, bits);
    lemma_ordered_eval(ps, left, bits);
    lemma_ordered_eval(ns, left, bits);
    lemma_operand_negation(s.negation(), bits);
}

/// The ordered constructors keep the meaning of their operator.
pub proof fn lemma_ordered_eval(a: BooleanExpr, b: BooleanExpr, bits: Seq<bool>)
    ensures
        BooleanExpr::and_of(a, b).eval(bits) == (a.eval(bits) && b.eval(bits)),
        BooleanExpr::or_of(a, b).eval(bits) == (a.eval(bits) || b.eval(bits)),
        BooleanExpr::xor_of(a, b).eval(bits) == (a.eval(bits) != b.eval(bits)),
{
}

impl Operand {
    /// The leaf reads an input bit unnegated.
    pub open spec fn is_selector(self) -> bool {
        self == Operand::Bit0 || self == Operand::Bit1 || self == Operand::Bit2 || self == Operand::Bit3 || self
            == Operand::Bit4 || self == Operand::Bit5 || self == Operand::Bit6 || self == Operand::Bit7
    }
}

impl BooleanExpr {
    /// The canonical form: the children of every And, Or and Xor are in
    /// order, and the selector of every Mux is an unnegated input bit.
    pub open spec fn canonical(self) -> bool
        decreases self,
    {
        match self {
            BooleanExpr::Operand(_) => true,
            BooleanExpr::And(l, r) => l.canonical() && r.canonical() && !r.precedes(*l),
            BooleanExpr::Or(l, r) => l.canonical() && r.canonical() && !r.precedes(*l),
            BooleanExpr::Xor(l, r) => l.canonical() && r.canonical() && !r.precedes(*l),
            BooleanExpr::Mux(s, l, r) => s.is_selector() && l.canonical() && r.canonical(),
        }
    }

    /// In every Xor, the left child stays in front of the right child when
    /// it is negated. The negation of a Xor negates the left child and puts
    /// the two in order again; where that moves the negated child behind the
    /// other, a second negation negates the other child.
    pub open spec fn xor_anchored(self) -> bool
        decreases self,
    {
        match self {
            BooleanExpr::Operand(_) => true,
            BooleanExpr::And(l, r) => l.xor_anchored() && r.xor_anchored(),
            BooleanExpr::Or(l, r) => l.xor_anchored() && r.xor_anchored(),
            BooleanExpr::Xor(l, r) => l.xor_anchored() && r.xor_anchored() && !r.precedes(l.negation()),
            BooleanExpr::Mux(_, l, r) => l.xor_anchored() && r.xor_anchored(),
        }
    }
}

/// Negating a canonical expression twice gives the expression back, where
/// no Xor of the expression changes the order of its children under
/// negation.
pub proof fn lemma_double_negation(e: BooleanExpr)
    requires
        e.canonical(),
        e.xor_anchored(),
    ensures
        e.negation().negation() == e,
    decreases e,
{
    match e {
        BooleanExpr::Operand(op) => {},
        BooleanExpr::And(l, r) => {
            lemma_double_negation(*l);
            lemma_double_negation(*r);
            lemma_compare(*l, *r);
            lemma_compare(*r, *l);
            lemma_compare(l.negation(), r.negation());
        },
        BooleanExpr::Or(l, r) => {
            lemma_double_negation(*l);
            lemma_double_negation(*r);
            lemma_compare(*l, *r);
            lemma_compare(*r, *l);
            lemma_compare(l.negation(), r.negation());
        },
        BooleanExpr::Xor(l, r) => {
            lemma_double_negation(*l);
            lemma_compare(*l, *r);
            lemma_compare(*r, *l);
            lemma_compare(l.negation(), *r);
            lemma_compare(*r, l.negation());
        },
        BooleanExpr::Mux(s, l, r) => {
            lemma_double_negation(*l);
            lemma_double_negation(*r);
        },
    }
}


impl From<bool> for BooleanExpr {
    fn from(value: bool) -> (r: BooleanExpr) {
        BooleanExpr::Operand(Operand::from(value))
    }
}

impl vstd::std_specs::convert::FromSpecImpl<bool> for BooleanExpr {
    open spec fn obeys_from_spec() -> bool {
        true
    }

    open spec fn from_spec(value: bool) -> BooleanExpr {
        BooleanExpr::Operand(
            if value {
                Operand::True
            } else {
                Operand::False
            },
        )
    }
}

/// Two to the power `k`.
pub open spec fn two_to(k: nat) -> nat
    decreases k,
{
    if k == 0 {
        1
    } else {
        2 * two_to((k - 1) as nat)
    }
}

/// How often `n` can be halved before it reaches 1.
pub open spec fn width_of(n: nat) -> nat
    decreases n,
{
    if n <= 1 {
        0
    } else {
        1 + width_of(n / 2)
    }
}

/// `n` is the length of a truth table over at most eight input bits: a power
/// of two up to 256. The empty table is admitted as well.
pub open spec fn is_table_len(n: nat) -> bool {
    n == 0 || (n == two_to(width_of(n)) && width_of(n) <= 8)
}

/// One level of the fold: every pair of neighbours becomes one reduced
/// multiplexer on the selector `s`.
pub open spec fn fold_level(items: Seq<BooleanExpr>, s: Operand) -> Seq<BooleanExpr> {
    Seq::new(
        (items.len() / 2) as nat,
        |i: int| BooleanExpr::mux_of(s, items[2 * i], items[2 * i + 1]),
    )
}

/// The fold of a table into one expression: level after level, with input bit
/// `level` as the first selector. The empty table gives the constant True.
pub open spec fn reduce_from(items: Seq<BooleanExpr>, level: int) -> BooleanExpr
    decreases items.len(),
{
    if items.len() == 0 {
        BooleanExpr::Operand(Operand::True)
    } else if items.len() == 1 {
        items[0]
    } else {
        reduce_from(fold_level(items, Operand::selector(level)), level + 1)
    }
}

/// The entry of a table of `two_to(width)` entries that an assignment selects
/// when the fold starts at input bit `level`: a bit that holds selects the
/// even entry of a pair, so entry 0 belongs to the assignment of all ones.
pub open spec fn table_index(bits: Seq<bool>, level: int, width: nat) -> int
    decreases width,
{
    if width == 0 {
        0
    } else {
        (if bits[level] { 0int } else { 1int }) + 2 * table_index(bits, level + 1, (width - 1) as nat)
    }
}

/// The entry of a whole table that an assignment selects.
pub open spec fn selected(items: Seq<BooleanExpr>, bits: Seq<bool>) -> BooleanExpr {
    items[table_index(bits, 0, width_of(items.len()))]
}

/// The index that an assignment selects lies inside the table.
pub proof fn lemma_table_index_bound(bits: Seq<bool>, level: int, width: nat)
    ensures
        0 <= table_index(bits, level, width) < two_to(width),
    decreases width,
{
    if width > 0 {
        lemma_table_index_bound(bits, level + 1, (width - 1) as nat);
    }
}

/// The fold of a table of `two_to(width)` expressions has, at every
/// assignment, the value of the entry that the assignment selects.
pub proof fn lemma_reduce_eval(items: Seq<BooleanExpr>, level: int, width: nat, bits: Seq<bool>)
    requires
        items.len() == two_to(width),
        0 <= level,
        level + width <= 8,
    ensures
        0 <= table_index(bits, level, width) < items.len(),
        reduce_from(items, level).eval(bits) == items[table_index(bits, level, width)].eval(bits),
    decreases width,
{
    lemma_table_index_bound(bits, level, width);
    if width > 0 {
        assert(two_to(width) >= 2);
        let s = Operand::selector(level);
        assert(s.eval(bits) == bits[level]);
        let next = fold_level(items, s);
        let j = table_index(bits, level + 1, (width - 1) as nat);
        lemma_table_index_bound(bits, level + 1, (width - 1) as nat);
        assert(next.len() == two_to((width - 1) as nat));
        lemma_reduce_eval(next, level + 1, (width - 1) as nat, bits);
        lemma_mux_eval(s, items[2 * j], items[2 * j + 1], bits);
        assert(next[j] == BooleanExpr::mux_of(s, items[2 * j], items[2 * j + 1]));
    }
}

/// A power of two has the width it was raised to.
pub proof fn lemma_width_of_two_to(k: nat)
    ensures
        width_of(two_to(k)) == k,
        two_to(k) >= 1,
    decreases k,
{
    if k > 0 {
        lemma_width_of_two_to((k - 1) as nat);
        assert(two_to(k) / 2 == two_to((k - 1) as nat));
    }
}

impl Operand {
    /// The leaf that reads input bit `i` unnegated.
    pub fn bit(i: usize) -> (r: Operand)
        requires
            i < 8,
        ensures
            r == Operand::selector(i as int),
    {
        if i == 0 {
            Operand::Bit0
        } else if i == 1 {
            Operand::Bit1
        } else if i == 2 {
            Operand::Bit2
        } else if i == 3 {
            Operand::Bit3
        } else if i == 4 {
            Operand::Bit4
        } else if i == 5 {
            Operand::Bit5
        } else if i == 6 {
            Operand::Bit6
        } else {
            Operand::Bit7
        }
    }
}

impl BooleanExpr {
    /// One level of the fold.
    fn fold_pairs(items: &Vec<BooleanExpr>, s: Operand) -> (r: Vec<BooleanExpr>)
        ensures
            r@ == fold_level(items@, s),
    {
        let half: usize = items.len() / 2;
        let mut out: Vec<BooleanExpr> = Vec::with_capacity(half);
        let mut i: usize = 0;
        while i < half
            invariant
                half == items.len() / 2,
                i <= half,
                out.len() == i,
                forall|j: int| 0 <= j < i ==> out[j] == BooleanExpr::mux_of(s, items[2 * j], items[2 * j + 1]),
            decreases half - i,
        {
            out.push(Self::mux(&s, &items[2 * i], &items[2 * i + 1]));
            i += 1;
        }
        assert(out@ =~= fold_level(items@, s));
        out
    }

    /// Folds a table of expressions into one: level `i` joins neighbours by a
    /// reduced multiplexer on input bit `i`. The result is the fold that
    /// `reduce_from` describes, and at every assignment it has the value of
    /// the entry that the assignment selects.
    pub fn reduce_mux(items: &Vec<BooleanExpr>) -> (r: BooleanExpr)
        requires
            is_table_len(items.len() as nat),
        ensures
            r == reduce_from(items@, 0),
            items.len() == 0 ==> r == BooleanExpr::Operand(Operand::True),
            forall|bits: Seq<bool>|
                items.len() > 0 ==> #[trigger] r.eval(bits) == selected(items@, bits).eval(bits),
            (forall|i: int| 0 <= i < items.len() ==> (#[trigger] items[i]).canonical()) ==> r.canonical(),
    {
        proof {
            if forall|i: int| 0 <= i < items.len() ==> (#[trigger] items[i]).canonical() {
                lemma_reduce_canonical(items@, 0);
            }
        }
        if items.len() == 0 {
            return BooleanExpr::Operand(Operand::True);
        }
        let ghost width = width_of(items.len() as nat);
        if items.len() == 1 {
            proof {
                assert forall|bits: Seq<bool>| #[trigger]
                    items[0].eval(bits) == selected(items@, bits).eval(bits) by {
                    assert(table_index(bits, 0, 0) == 0);
                }
            }
            return items[0].clone();
        }
        let mut cur: Vec<BooleanExpr> = Self::fold_pairs(items, Operand::Bit0);
        let mut level: usize = 1;
        proof {
            lemma_width_of_two_to((width - 1) as nat);
            assert(two_to(width) / 2 == two_to((width - 1) as nat));
        }
        while cur.len() > 1
            invariant
                1 <= level <= width <= 8,
                width == width_of(items.len() as nat),
                items.len() == two_to(width),
                cur.len() == two_to((width - level) as nat),
                reduce_from(cur@, level as int) == reduce_from(items@, 0),
            decreases cur.len(),
        {
            proof {
                if level == width {
                    assert(two_to(0) == 1);
                }
                lemma_width_of_two_to((width - level - 1) as nat);
                assert(two_to((width - level) as nat) / 2 == two_to((width - level - 1) as nat));
            }
            let next: Vec<BooleanExpr> = Self::fold_pairs(&cur, Operand::bit(level));
            cur = next;
            level += 1;
        }
        proof {
            lemma_width_of_two_to((width - level) as nat);
        }
        let r = cur[0].clone();
        proof {
            assert forall|bits: Seq<bool>| #[trigger]
                r.eval(bits) == selected(items@, bits).eval(bits) by {
                lemma_reduce_eval(items@, 0, width, bits);
            }
        }
        r
    }

    /// The constants of a truth table, entry by entry.
    pub fn from_bool_vec(items: &[bool]) -> (r: Vec<BooleanExpr>)
        ensures
            r.len() == items.len(),
            forall|i: int|
                0 <= i < items.len() ==> r[i] == BooleanExpr::Operand(
                    if items[i] {
                        Operand::True
                    } else {
                        Operand::False
                    },
                ),
    {
        let mut out: Vec<BooleanExpr> = Vec::with_capacity(items.len());
        let mut i: usize = 0;
        while i < items.len()
            invariant
                i <= items.len(),
                out.len() == i,
                forall|j: int|
                    0 <= j < i ==> out[j] == BooleanExpr::Operand(
                        if items[j] {
                            Operand::True
                        } else {
                            Operand::False
                        },
                    ),
            decreases items.len() - i,
        {
            out.push(BooleanExpr::from(items[i]));
            i += 1;
        }
        out
    }
}


/// A reduced multiplexer is at most one level deeper than its deeper branch.
pub proof fn lemma_mux_depth(s: Operand, left: BooleanExpr, right: BooleanExpr, bound: nat)
    requires
        left.depth() <= bound,
        right.depth() <= bound,
    ensures
        BooleanExpr::mux_of(s, left, right).depth() <= bound + 1,
{
    lemma_ordered_depth(BooleanExpr::Operand(s), right);
    lemma_ordered_depth(BooleanExpr::Operand(s.negation()), right);
    lemma_ordered_depth(BooleanExpr::Operand(s), left);
    lemma_ordered_depth(BooleanExpr::Operand(s.negation()), left);
    lemma_ordered_depth(BooleanExpr::Operand(s.negation().negation()), left);
}

/// An ordered And, Or or Xor is one level deeper than its deeper child.
pub proof fn lemma_ordered_depth(a: BooleanExpr, b: BooleanExpr)
    ensures
        BooleanExpr::and_of(a, b).depth() == 1 + if a.depth() >= b.depth() { a.depth() } else { b.depth() },
        BooleanExpr::or_of(a, b).depth() == 1 + if a.depth() >= b.depth() { a.depth() } else { b.depth() },
        BooleanExpr::xor_of(a, b).depth() == 1 + if a.depth() >= b.depth() { a.depth() } else { b.depth() },
{
}

/// The fold of a table is deeper than the table's deepest entry by at most
/// the number of levels that it folds.
pub proof fn lemma_reduce_depth(items: Seq<BooleanExpr>, level: int, bound: nat)
    requires
        forall|i: int| 0 <= i < items.len() ==> (#[trigger] items[i]).depth() <= bound,
    ensures
        reduce_from(items, level).depth() <= bound + width_of(items.len()),
    decreases items.len(),
{
    if items.len() >= 2 {
        let s = Operand::selector(level);
        let next = fold_level(items, s);
        assert forall|i: int| 0 <= i < next.len() implies (#[trigger] next[i]).depth() <= bound + 1 by {
            lemma_mux_depth(s, items[2 * i], items[2 * i + 1], bound);
        }
        lemma_reduce_depth(next, level + 1, bound + 1);
    }
}


/// The ordered constructors keep the canonical form.
pub proof fn lemma_ordered_canonical(a: BooleanExpr, b: BooleanExpr)
    requires
        a.canonical(),
        b.canonical(),
    ensures
        BooleanExpr::and_of(a, b).canonical(),
        BooleanExpr::or_of(a, b).canonical(),
        BooleanExpr::xor_of(a, b).canonical(),
{
    lemma_compare(a, b);
    lemma_compare(b, a);
    let first = BooleanExpr::first_of(a, b);
    let second = BooleanExpr::second_of(a, b);
    assert(first.canonical() && second.canonical());
    assert(!second.precedes(first));
}

/// The reduced multiplexer on an unnegated input bit keeps the canonical
/// form.
pub proof fn lemma_mux_canonical(s: Operand, left: BooleanExpr, right: BooleanExpr)
    requires
        s.is_selector(),
        left.canonical(),
        right.canonical(),
    ensures
        BooleanExpr::mux_of(s, left, right).canonical(),
{
    let ps = BooleanExpr::Operand(s);
    let ns = BooleanExpr::Operand(s.negation());
    let pps = BooleanExpr::Operand(s.negation().negation());
    lemma_ordered_canonical(ps, right);
    lemma_ordered_canonical(ns, right);
    lemma_ordered_canonical(ps, left);
    lemma_ordered_canonical(ns, left);
    lemma_ordered_canonical(pps, left);
}

/// The fold of a table of canonical expressions is canonical.
pub proof fn lemma_reduce_canonical(items: Seq<BooleanExpr>, level: int)
    requires
        0 <= level,
        level + width_of(items.len()) <= 8,
        forall|i: int| 0 <= i < items.len() ==> (#[trigger] items[i]).canonical(),
    ensures
        reduce_from(items, level).canonical(),
    decreases items.len(),
{
    if items.len() >= 2 {
        let s = Operand::selector(level);
        let next = fold_level(items, s);
        assert forall|i: int| 0 <= i < next.len() implies (#[trigger] next[i]).canonical() by {
            lemma_mux_canonical(s, items[2 * i], items[2 * i + 1]);
        }
        lemma_reduce_canonical(next, level + 1);
    }
}

impl Operand {
    /// The leaf is a constant, or reads an input bit below `k`.
    pub open spec fn below(self, k: int) -> bool {
        self.rank() < 2 + 2 * k
    }
}

impl BooleanExpr {
    /// Every leaf and every selector of the expression is a constant or
    /// reads an input bit below `k`.
    pub open spec fn below(self, k: int) -> bool
        decreases self,
    {
        match self {
            BooleanExpr::Operand(op) => op.below(k),
            BooleanExpr::And(l, r) => l.below(k) && r.below(k),
            BooleanExpr::Or(l, r) => l.below(k) && r.below(k),
            BooleanExpr::Xor(l, r) => l.below(k) && r.below(k),
            BooleanExpr::Mux(s, l, r) => s.below(k) && l.below(k) && r.below(k),
        }
    }
}

/// An expression over the bits below `k` is one over the bits below `k + 1`.
pub proof fn lemma_below_more(e: BooleanExpr, k: int)
    requires
        e.below(k),
    ensures
        e.below(k + 1),
    decreases e,
{
    match e {
        BooleanExpr::Operand(_) => {},
        BooleanExpr::And(l, r) => {
            lemma_below_more(*l, k);
            lemma_below_more(*r, k);
        },
        BooleanExpr::Or(l, r) => {
            lemma_below_more(*l, k);
            lemma_below_more(*r, k);
        },
        BooleanExpr::Xor(l, r) => {
            lemma_below_more(*l, k);
            lemma_below_more(*r, k);
        },
        BooleanExpr::Mux(_, l, r) => {
            lemma_below_more(*l, k);
            lemma_below_more(*r, k);
        },
    }
}

/// The ordered constructors stay below `k` and keep the order of the Xors
/// of their children; an ordered And or Or adds no Xor.
pub proof fn lemma_ordered_below(a: BooleanExpr, b: BooleanExpr, k: int)
    requires
        a.below(k),
        b.below(k),
    ensures
        BooleanExpr::and_of(a, b).below(k),
        BooleanExpr::or_of(a, b).below(k),
        BooleanExpr::xor_of(a, b).below(k),
        a.xor_anchored() && b.xor_anchored() ==> BooleanExpr::and_of(a, b).xor_anchored() && BooleanExpr::or_of(
            a,
            b,
        ).xor_anchored(),
{
    let first = BooleanExpr::first_of(a, b);
    let second = BooleanExpr::second_of(a, b);
    assert(first.below(k) && second.below(k));
    if a.xor_anchored() && b.xor_anchored() {
        assert(first.xor_anchored() && second.xor_anchored());
    }
}

/// The Xor of a negated selector and an expression over lower bits keeps
/// its order under negation.
pub proof fn lemma_xor_selector_anchored(k: int, left: BooleanExpr)
    requires
        0 <= k < 8,
        left.below(k),
        left.xor_anchored(),
        left != BooleanExpr::Operand(Operand::True),
        left != BooleanExpr::Operand(Operand::False),
    ensures
        BooleanExpr::xor_of(BooleanExpr::Operand(Operand::selector(k).negation()), left).xor_anchored(),
{
    let s = Operand::selector(k);
    let ns = BooleanExpr::Operand(s.negation());
    assert(s.rank() == 2 + 2 * k);
    assert(s.negation().rank() == 3 + 2 * k);
    assert(s.negation().negation() == s);
    match left {
        BooleanExpr::Operand(op) => {
            assert(2 <= op.rank() < 2 + 2 * k);
            assert(op.negation().rank() < 2 + 2 * k);
            assert(ns.compare(left) == s.negation().rank() - op.rank());
            assert(!ns.precedes(left));
            assert(BooleanExpr::first_of(ns, left) == left);
            assert(BooleanExpr::second_of(ns, left) == ns);
            assert(left.negation() == BooleanExpr::Operand(op.negation()));
            assert(ns.compare(left.negation()) == s.negation().rank() - op.negation().rank());
            assert(!ns.precedes(left.negation()));
            let whole = BooleanExpr::Xor(Box::new(left), Box::new(ns));
            assert(BooleanExpr::xor_of(ns, left) == whole);
            assert(ns.xor_anchored());
            assert(whole.xor_anchored());
        },
        _ => {
            assert(ns.kind() == 0 && left.kind() >= 1);
            assert(ns.compare(left) == ns.kind() - left.kind());
            assert(ns.precedes(left));
            assert(BooleanExpr::first_of(ns, left) == ns);
            assert(BooleanExpr::second_of(ns, left) == left);
            assert(ns.negation() == BooleanExpr::Operand(s));
            assert(left.compare(ns.negation()) == left.kind() - ns.negation().kind());
            assert(!left.precedes(ns.negation()));
            let whole = BooleanExpr::Xor(Box::new(ns), Box::new(left));
            assert(BooleanExpr::xor_of(ns, left) == whole);
            assert(ns.xor_anchored());
            assert(whole.xor_anchored());
        },
    }
}

/// The reduced multiplexer on input bit `k` over expressions of the bits
/// below `k`: it is an expression of the bits below `k + 1`, and where its
/// branches keep the order of their Xors under negation, it does so too.
pub proof fn lemma_mux_anchored(k: int, left: BooleanExpr, right: BooleanExpr)
    requires
        0 <= k < 8,
        left.below(k),
        right.below(k),
        left.xor_anchored(),
        right.xor_anchored(),
    ensures
        BooleanExpr::mux_of(Operand::selector(k), left, right).below(k + 1),
        BooleanExpr::mux_of(Operand::selector(k), left, right).xor_anchored(),
{
    let s = Operand::selector(k);
    let ps = BooleanExpr::Operand(s);
    let ns = BooleanExpr::Operand(s.negation());
    let result = BooleanExpr::mux_of(s, left, right);
    lemma_below_more(left, k);
    lemma_below_more(right, k);
    assert(s.rank() == 2 + 2 * k);
    assert(s.negation().rank() == 3 + 2 * k);
    assert(s.negation().negation() == s);
    assert(ps.below(k + 1) && ns.below(k + 1));
    assert(ps.xor_anchored() && ns.xor_anchored());
    lemma_ordered_below(ps, right, k + 1);
    lemma_ordered_below(ns, right, k + 1);
    lemma_ordered_below(ps, left, k + 1);
    lemma_ordered_below(ns, left, k + 1);
    let t = BooleanExpr::Operand(Operand::True);
    let f = BooleanExpr::Operand(Operand::False);
    if left != t && left != f && right != t && right != f && left != right && left == right.negation() {
        lemma_xor_selector_anchored(k, left);
        assert(result == BooleanExpr::xor_of(ns, left));
    }
}

/// The fold of a table keeps the order of its Xors under negation, where
/// the entries do and read only bits below the first selector.
pub proof fn lemma_reduce_anchored(items: Seq<BooleanExpr>, level: int)
    requires
        0 <= level,
        level + width_of(items.len()) <= 8,
        forall|i: int| 0 <= i < items.len() ==> (#[trigger] items[i]).below(level),
        forall|i: int| 0 <= i < items.len() ==> (#[trigger] items[i]).xor_anchored(),
    ensures
        reduce_from(items, level).xor_anchored(),
    decreases items.len(),
{
    if items.len() >= 2 {
        let s = Operand::selector(level);
        let next = fold_level(items, s);
        assert forall|i: int| 0 <= i < next.len() implies (#[trigger] next[i]).below(level + 1) && next[i].xor_anchored() by {
            lemma_mux_anchored(level, items[2 * i], items[2 * i + 1]);
        }
        lemma_reduce_anchored(next, level + 1);
    }
}

/// The length of a truth table that was rejected: no power of two up to 256.
#[derive(Debug, PartialEq, Eq, Copy, Clone, Structural)]
pub struct InvalidTable {
    pub len: usize,
}

/// The lengths of truth tables, one by one.
pub proof fn lemma_table_lengths(n: nat)
    ensures
        is_table_len(n) == (n == 0 || n == 1 || n == 2 || n == 4 || n == 8 || n == 16 || n == 32 || n == 64 || n
            == 128 || n == 256),
{
    reveal_with_fuel(two_to, 10);
    if n == 0 || n == 1 || n == 2 || n == 4 || n == 8 || n == 16 || n == 32 || n == 64 || n == 128 || n == 256 {
        reveal_with_fuel(width_of, 10);
    }
    if is_table_len(n) && n != 0 {
        let w = width_of(n);
        assert(w <= 8);
        assert(n == two_to(w));
    }
}

impl BooleanExpr {
    /// Compiles a truth table into one expression. Entry `i` of the table is
    /// the value of the function where input bit `k` is the opposite of bit
    /// `k` of `i`: the fold of `reduce_mux` over the constants of the table.
    /// A table whose length is no power of two up to 256 is rejected; the
    /// empty table gives the constant True.
    pub fn from_truth_table(table: &[bool]) -> (r: Result<BooleanExpr, InvalidTable>)
        ensures
            match r {
                Ok(e) => is_table_len(table@.len()) && e == reduce_from(
                    table@.map_values(
                        |v: bool|
                            BooleanExpr::Operand(
                                if v {
                                    Operand::True
                                } else {
                                    Operand::False
                                },
                            ),
                    ),
                    0,
                ) && e.canonical() && e.xor_anchored() && e.negation().negation() == e && (table@.len() > 0
                    ==> forall|bits: Seq<bool>| #[trigger]
                    e.eval(bits) == table@[table_index(bits, 0, width_of(table@.len()))]),
                Err(error) => !is_table_len(table@.len()) && error.len == table@.len(),
            },
    {
        let n: usize = table.len();
        proof {
            lemma_table_lengths(n as nat);
        }
        if !(n == 0 || n == 1 || n == 2 || n == 4 || n == 8 || n == 16 || n == 32 || n == 64 || n == 128 || n
            == 256) {
            return Err(InvalidTable { len: n });
        }
        let items = Self::from_bool_vec(table);
        let e = Self::reduce_mux(&items);
        proof {
            let lifted = table@.map_values(
                |v: bool|
                    BooleanExpr::Operand(
                        if v {
                            Operand::True
                        } else {
                            Operand::False
                        },
                    ),
            );
            assert(items@ =~= lifted);
            lemma_reduce_canonical(items@, 0);
            lemma_reduce_anchored(items@, 0);
            lemma_double_negation(e);
            if n > 0 {
                assert forall|bits: Seq<bool>| #[trigger]
                    e.eval(bits) == table@[table_index(bits, 0, width_of(table@.len()))] by {
                    lemma_table_index_bound(bits, 0, width_of(n as nat));
                    assert(e.eval(bits) == selected(items@, bits).eval(bits));
                }
            }
        }
        Ok(e)
    }
}


impl Operand {
    /// The value of the leaf on plain input bits.
    pub fn evaluate_clear(&self, bits: &[bool]) -> (r: bool)
        requires
            bits@.len() == 8,
        ensures
            r == self.eval(bits@),
    {
        match self {
            Operand::True => true,
            Operand::False => false,
            Operand::Bit0 => bits[0],
            Operand::NotBit0 => !bits[0],
            Operand::Bit1 => bits[1],
            Operand::NotBit1 => !bits[1],
            Operand::Bit2 => bits[2],
            Operand::NotBit2 => !bits[2],
            Operand::Bit3 => bits[3],
            Operand::NotBit3 => !bits[3],
            Operand::Bit4 => bits[4],
            Operand::NotBit4 => !bits[4],
            Operand::Bit5 => bits[5],
            Operand::NotBit5 => !bits[5],
            Operand::Bit6 => bits[6],
            Operand::NotBit6 => !bits[6],
            Operand::Bit7 => bits[7],
            Operand::NotBit7 => !bits[7],
        }
    }
}

impl BooleanExpr {
    /// The value of the expression on plain input bits.
    pub fn evaluate_clear(&self, bits: &[bool]) -> (r: bool)
        requires
            bits@.len() == 8,
        ensures
            r == self.eval(bits@),
        decreases *self,
    {
        match self {
            BooleanExpr::Operand(op) => op.evaluate_clear(bits),
            BooleanExpr::And(l, r) => {
                let a = l.evaluate_clear(bits);
                let b = r.evaluate_clear(bits);
                a && b
            },
            BooleanExpr::Or(l, r) => {
                let a = l.evaluate_clear(bits);
                let b = r.evaluate_clear(bits);
                a || b
            },
            BooleanExpr::Xor(l, r) => {
                let a = l.evaluate_clear(bits);
                let b = r.evaluate_clear(bits);
                a != b
            },
            BooleanExpr::Mux(s, l, r) => {
                if s.evaluate_clear(bits) {
                    l.evaluate_clear(bits)
                } else {
                    r.evaluate_clear(bits)
                }
            },
        }
    }
}


impl core::ops::Not for Operand {
    type Output = Operand;

    fn not(self) -> (r: Operand) {
        Operand::not(self)
    }
}

impl vstd::std_specs::ops::NotSpecImpl for Operand {
    open spec fn obeys_not_spec() -> bool {
        true
    }

    open spec fn not_req(self) -> bool {
        true
    }

    open spec fn not_spec(self) -> Operand {
        self.negation()
    }
}

impl core::ops::Not for BooleanExpr {
    type Output = BooleanExpr;

    fn not(self) -> (r: BooleanExpr) {
        BooleanExpr::not(self)
    }
}

impl vstd::std_specs::ops::NotSpecImpl for BooleanExpr {
    open spec fn obeys_not_spec() -> bool {
        true
    }

    open spec fn not_req(self) -> bool {
        true
    }

    open spec fn not_spec(self) -> BooleanExpr {
        self.negation()
    }
}

} // verus!
