//! Evaluation of Boolean expressions on ciphertexts: the collections that the
//! evaluation keeps, the single-gate task, and the staged evaluator that runs
//! every distinct sub-expression once, stage by stage.

use crate::boolean_tree::{BooleanExpr, Operand};
use crate::gates::{
    copy_bit, gate_and, gate_mux, gate_not, gate_or, gate_xor, key_pair, plain_bit, trivial_bit, usable,
};
use rayon::iter::{IntoParallelRefIterator, ParallelIterator};
use tfhe::boolean::ciphertext::Ciphertext;
use tfhe::boolean::client_key::ClientKey;
use tfhe::boolean::server_key::ServerKey;
use vstd::prelude::*;

verus! {

/// The bits that `ck` decrypts a sequence of ciphertexts to.
pub open spec fn plain_bits(ck: ClientKey, cts: Seq<Ciphertext>) -> Seq<bool> {
    Seq::new(cts.len(), |i: int| plain_bit(ck, cts[i]))
}

/// Every ciphertext of the sequence is an input for the gates of `sk`.
pub open spec fn all_usable(sk: ServerKey, cts: Seq<Ciphertext>) -> bool {
    forall|i: int| 0 <= i < cts.len() ==> usable(sk, #[trigger] cts[i])
}

/// `ct` holds the value of `e` on the inputs `bits`: it is an input for the
/// gates of `sk`, and under every client key of `sk` it decrypts to the value
/// that `e` has at the plaintexts of `bits`.
pub open spec fn computes(sk: ServerKey, ct: Ciphertext, e: BooleanExpr, bits: Seq<Ciphertext>) -> bool {
    usable(sk, ct) && forall|ck: ClientKey| #[trigger]
        key_pair(ck, sk) ==> plain_bit(ck, ct) == e.eval(plain_bits(ck, bits))
}

/// A set of expressions, kept in the order in which they were first inserted.
pub struct ExprSet {
    items: Vec<BooleanExpr>,
}

impl ExprSet {
    /// The members in the order of their insertion.
    pub closed spec fn order(&self) -> Seq<BooleanExpr> {
        self.items@
    }

    /// No member occurs twice.
    pub open spec fn wf(&self) -> bool {
        self.order().no_duplicates()
    }

    /// The members as a set.
    pub open spec fn view(&self) -> Set<BooleanExpr> {
        self.order().to_set()
    }

    /// The empty set.
    pub fn new() -> (r: ExprSet)
        ensures
            r.wf(),
            r.order() == Seq::<BooleanExpr>::empty(),
            r@ == Set::<BooleanExpr>::empty(),
    {
        let r = ExprSet { items: Vec::new() };
        assert(r.order().to_set() =~= Set::<BooleanExpr>::empty());
        r
    }

    /// The number of members.
    pub fn len(&self) -> (r: usize)
        ensures
            r == self.order().len(),
            self.wf() ==> r == self@.len(),
    {
        proof {
            if self.wf() {
                self.order().unique_seq_to_set();
            }
        }
        self.items.len()
    }

    /// Whether `e` is a member.
    pub fn contains(&self, e: &BooleanExpr) -> (r: bool)
        ensures
            r == self@.contains(*e),
    {
        let mut i: usize = 0;
        while i < self.items.len()
            invariant
                i <= self.items.len(),
                forall|j: int| 0 <= j < i ==> self.items[j] != *e,
            decreases self.items.len() - i,
        {
            if self.items[i].same(e) {
                return true;
            }
            i += 1;
        }
        false
    }

    /// Adds `e` unless it is a member already; says whether it was added.
    pub fn insert(&mut self, e: BooleanExpr) -> (r: bool)
        requires
            old(self).wf(),
        ensures
            final(self).wf(),
            final(self)@ == old(self)@.insert(e),
            r == !old(self)@.contains(e),
            r ==> final(self).order() == old(self).order().push(e),
            !r ==> final(self).order() == old(self).order(),
    {
        if self.contains(&e) {
            assert(self@.insert(e) =~= self@);
            false
        } else {
            let ghost before = self.items@;
            self.items.push(e);
            assert(self.items@.to_set() =~= before.to_set().insert(e)) by {
                assert forall|x: BooleanExpr| self.items@.to_set().contains(x) implies before.to_set().insert(e).contains(x) by {
                    let k = choose|k: int| 0 <= k < self.items@.len() && self.items@[k] == x;
                    if k < before.len() {
                        assert(before[k] == x);
                    }
                }
                assert forall|x: BooleanExpr| before.to_set().insert(e).contains(x) implies self.items@.to_set().contains(x) by {
                    if x == e {
                        assert(self.items@[before.len() as int] == e);
                    } else {
                        let k = choose|k: int| 0 <= k < before.len() && before[k] == x;
                        assert(self.items@[k] == x);
                    }
                }
            }
            true
        }
    }

    /// The member at position `i` of the insertion order.
    pub fn get(&self, i: usize) -> (r: &BooleanExpr)
        requires
            i < self.order().len(),
        ensures
            *r == self.order()[i as int],
    {
        &self.items[i]
    }
}


/// A map from expressions to ciphertexts: the memo of an evaluation.
pub struct ExprMap {
    keys: Vec<BooleanExpr>,
    values: Vec<Ciphertext>,
}

impl ExprMap {
    /// The keys in the order of their insertion.
    pub closed spec fn key_seq(&self) -> Seq<BooleanExpr> {
        self.keys@
    }

    /// The values, each at the place of its key.
    pub closed spec fn value_seq(&self) -> Seq<Ciphertext> {
        self.values@
    }

    /// Every key occurs once and has its value.
    pub open spec fn wf(&self) -> bool {
        self.key_seq().len() == self.value_seq().len() && self.key_seq().no_duplicates()
    }

    /// The map that the entries stand for.
    pub open spec fn view(&self) -> Map<BooleanExpr, Ciphertext> {
        Map::new(
            |k: BooleanExpr| self.key_seq().contains(k),
            |k: BooleanExpr| self.value_seq()[self.key_seq().index_of(k)],
        )
    }

    /// Every entry holds the value of its key on the inputs `bits`.
    pub open spec fn sound(&self, sk: ServerKey, bits: Seq<Ciphertext>) -> bool {
        forall|k: BooleanExpr| #[trigger] self@.contains_key(k) ==> computes(sk, self@[k], k, bits)
    }

    /// The empty map.
    pub fn new() -> (r: ExprMap)
        ensures
            r.wf(),
            r@ == Map::<BooleanExpr, Ciphertext>::empty(),
    {
        let r = ExprMap { keys: Vec::new(), values: Vec::new() };
        assert(r@ =~= Map::<BooleanExpr, Ciphertext>::empty());
        r
    }

    /// The number of entries.
    pub fn len(&self) -> (r: usize)
        ensures
            r == self.key_seq().len(),
    {
        self.keys.len()
    }

    /// The place of `key` among the keys.
    fn position(&self, key: &BooleanExpr) -> (r: Option<usize>)
        ensures
            match r {
                Some(i) => i < self.key_seq().len() && self.key_seq()[i as int] == *key,
                None => !self.key_seq().contains(*key),
            },
    {
        let mut i: usize = 0;
        while i < self.keys.len()
            invariant
                i <= self.keys.len(),
                forall|j: int| 0 <= j < i ==> self.keys[j] != *key,
            decreases self.keys.len() - i,
        {
            if self.keys[i].same(key) {
                return Some(i);
            }
            i += 1;
        }
        None
    }

    /// Whether `key` has a value.
    pub fn contains_key(&self, key: &BooleanExpr) -> (r: bool)
        ensures
            r == self@.contains_key(*key),
    {
        self.position(key).is_some()
    }

    /// The value of `key`, if it has one.
    pub fn get(&self, key: &BooleanExpr) -> (r: Option<&Ciphertext>)
        requires
            self.wf(),
        ensures
            match r {
                Some(ct) => self@.contains_key(*key) && *ct == self@[*key],
                None => !self@.contains_key(*key),
            },
    {
        match self.position(key) {
            Some(i) => {
                proof {
                    self.key_seq().index_of_first_ensures(*key);
                    let j = self.key_seq().index_of(*key);
                    assert(self.key_seq()[j] == *key);
                }
                Some(&self.values[i])
            },
            None => None,
        }
    }

    /// Binds `key` to `value`, in place of an earlier value if there is one.
    pub fn insert(&mut self, key: BooleanExpr, value: Ciphertext)
        requires
            old(self).wf(),
        ensures
            final(self).wf(),
            final(self)@ == old(self)@.insert(key, value),
    {
        let ghost old_keys = self.keys@;
        let ghost old_values = self.values@;
        let ghost old_map = self@;
        match self.position(&key) {
            Some(i) => {
                self.values[i] = value;
                proof {
                    assert forall|k: BooleanExpr| #[trigger] self@.contains_key(k) implies self@[k]
                        == old_map.insert(key, value)[k] by {
                        let j = old_keys.index_of(k);
                        assert(old_keys[j] == k);
                    }
                    assert(self@ =~= old_map.insert(key, value));
                }
            },
            None => {
                self.keys.push(key);
                self.values.push(value);
                proof {
                    let new_keys = self.keys@;
                    assert forall|k: BooleanExpr| new_keys.contains(k) == (old_keys.contains(k) || k
                        == key) by {
                        if new_keys.contains(k) {
                            let j = choose|j: int| 0 <= j < new_keys.len() && new_keys[j] == k;
                            if j < old_keys.len() {
                                assert(old_keys[j] == k);
                            }
                        }
                        if old_keys.contains(k) {
                            let j = choose|j: int| 0 <= j < old_keys.len() && old_keys[j] == k;
                            assert(new_keys[j] == k);
                        }
                        if k == key {
                            assert(new_keys[old_keys.len() as int] == k);
                        }
                    }
                    assert forall|k: BooleanExpr| #[trigger] self@.contains_key(k) implies self@[k]
                        == old_map.insert(key, value)[k] by {
                        let j = new_keys.index_of(k);
                        assert(new_keys[j] == k);
                        if k != key {
                            let j0 = old_keys.index_of(k);
                            assert(old_keys[j0] == k);
                            assert(new_keys[j0] == k);
                        }
                    }
                    assert(self@ =~= old_map.insert(key, value));
                }
            },
        }
    }
}

/// The ciphertexts of the leaves: one slot for each of the eighteen operands.
pub struct OperandMap {
    slots: Vec<Option<Ciphertext>>,
}

impl OperandMap {
    /// The eighteen slots, in the order of the operands.
    pub closed spec fn slot_seq(&self) -> Seq<Option<Ciphertext>> {
        self.slots@
    }

    /// There is one slot for every operand.
    pub open spec fn wf(&self) -> bool {
        self.slot_seq().len() == 18
    }

    /// The ciphertext that stands for `op`, if one was inserted.
    pub open spec fn entry(&self, op: Operand) -> Option<Ciphertext> {
        self.slot_seq()[op.rank()]
    }

    /// Every leaf has a ciphertext, and it holds the leaf's value on `bits`.
    pub open spec fn prepared(&self, sk: ServerKey, bits: Seq<Ciphertext>) -> bool {
        self.wf() && forall|op: Operand|
            (#[trigger] self.entry(op)) is Some && computes(
                sk,
                self.entry(op)->Some_0,
                BooleanExpr::Operand(op),
                bits,
            )
    }

    /// A map in which no leaf has a ciphertext.
    pub fn new() -> (r: OperandMap)
        ensures
            r.wf(),
            forall|op: Operand| (#[trigger] r.entry(op)) is None,
    {
        let mut slots: Vec<Option<Ciphertext>> = Vec::with_capacity(18);
        let mut i: usize = 0;
        while i < 18
            invariant
                i <= 18,
                slots.len() == i,
                forall|j: int| 0 <= j < i ==> slots[j] is None,
            decreases 18 - i,
        {
            slots.push(None);
            i += 1;
        }
        OperandMap { slots }
    }

    /// Binds `op` to `ct`, in place of an earlier ciphertext if there is one.
    pub fn insert(&mut self, op: Operand, ct: Ciphertext)
        requires
            old(self).wf(),
        ensures
            final(self).wf(),
            final(self).entry(op) == Some(ct),
            forall|other: Operand| other != op ==> final(self).entry(other) == old(self).entry(other),
    {
        let i: usize = op.index() as usize;
        self.slots[i] = Some(ct);
        assert forall|other: Operand| other != op implies self.entry(other) == old(self).entry(other) by {
            assert(other.rank() != op.rank());
        }
    }

    /// The ciphertext of `op`, if it has one.
    pub fn get(&self, op: &Operand) -> (r: Option<&Ciphertext>)
        requires
            self.wf(),
        ensures
            match r {
                Some(ct) => self.entry(*op) == Some(*ct),
                None => self.entry(*op) is None,
            },
    {
        let i: usize = op.index() as usize;
        self.slots[i].as_ref()
    }

    /// Whether `op` has a ciphertext.
    pub fn contains_key(&self, op: &Operand) -> (r: bool)
        requires
            self.wf(),
        ensures
            r == self.entry(*op) is Some,
    {
        let i: usize = op.index() as usize;
        self.slots[i].is_some()
    }
}


impl Operand {
    /// The ciphertext of the leaf on the inputs `bits`: a trivial encryption
    /// for a constant, the input itself for a bit, its NOT for a negated bit.
    pub fn evaluate(&self, bits: &[Ciphertext], server_key: &ServerKey) -> (r: Ciphertext)
        requires
            bits.len() == 8,
            all_usable(*server_key, bits@),
        ensures
            computes(*server_key, r, BooleanExpr::Operand(*self), bits@),
    {
        let r = match self {
            Operand::True => trivial_bit(server_key, true),
            Operand::False => trivial_bit(server_key, false),
            Operand::Bit0 => copy_bit(&bits[0]),
            Operand::NotBit0 => gate_not(server_key, &bits[0]),
            Operand::Bit1 => copy_bit(&bits[1]),
            Operand::NotBit1 => gate_not(server_key, &bits[1]),
            Operand::Bit2 => copy_bit(&bits[2]),
            Operand::NotBit2 => gate_not(server_key, &bits[2]),
            Operand::Bit3 => copy_bit(&bits[3]),
            Operand::NotBit3 => gate_not(server_key, &bits[3]),
            Operand::Bit4 => copy_bit(&bits[4]),
            Operand::NotBit4 => gate_not(server_key, &bits[4]),
            Operand::Bit5 => copy_bit(&bits[5]),
            Operand::NotBit5 => gate_not(server_key, &bits[5]),
            Operand::Bit6 => copy_bit(&bits[6]),
            Operand::NotBit6 => gate_not(server_key, &bits[6]),
            Operand::Bit7 => copy_bit(&bits[7]),
            Operand::NotBit7 => gate_not(server_key, &bits[7]),
        };
        r
    }
}

impl OperandMap {
    /// The ciphertexts of all eighteen leaves on the inputs `bits`.
    pub fn prepare(bits: &[Ciphertext], server_key: &ServerKey) -> (r: OperandMap)
        requires
            bits.len() == 8,
            all_usable(*server_key, bits@),
        ensures
            r.prepared(*server_key, bits@),
    {
        let mut map = OperandMap::new();
        map.insert(Operand::True, Operand::True.evaluate(bits, server_key));
        map.insert(Operand::False, Operand::False.evaluate(bits, server_key));
        map.insert(Operand::Bit0, Operand::Bit0.evaluate(bits, server_key));
        map.insert(Operand::NotBit0, Operand::NotBit0.evaluate(bits, server_key));
        map.insert(Operand::Bit1, Operand::Bit1.evaluate(bits, server_key));
        map.insert(Operand::NotBit1, Operand::NotBit1.evaluate(bits, server_key));
        map.insert(Operand::Bit2, Operand::Bit2.evaluate(bits, server_key));
        map.insert(Operand::NotBit2, Operand::NotBit2.evaluate(bits, server_key));
        map.insert(Operand::Bit3, Operand::Bit3.evaluate(bits, server_key));
        map.insert(Operand::NotBit3, Operand::NotBit3.evaluate(bits, server_key));
        map.insert(Operand::Bit4, Operand::Bit4.evaluate(bits, server_key));
        map.insert(Operand::NotBit4, Operand::NotBit4.evaluate(bits, server_key));
        map.insert(Operand::Bit5, Operand::Bit5.evaluate(bits, server_key));
        map.insert(Operand::NotBit5, Operand::NotBit5.evaluate(bits, server_key));
        map.insert(Operand::Bit6, Operand::Bit6.evaluate(bits, server_key));
        map.insert(Operand::NotBit6, Operand::NotBit6.evaluate(bits, server_key));
        map.insert(Operand::Bit7, Operand::Bit7.evaluate(bits, server_key));
        map.insert(Operand::NotBit7, Operand::NotBit7.evaluate(bits, server_key));
        map
    }
}


/// The value of one gate on plaintext inputs: that gate is the one at the root of
/// `e`, and `inputs` are the values of the leaf, of the two children, or of
/// the selector and the two branches.
pub open spec fn gate_value(e: BooleanExpr, inputs: Seq<bool>) -> bool {
    match e {
        BooleanExpr::Operand(_) => inputs[0],
        BooleanExpr::And(_, _) => inputs[0] && inputs[1],
        BooleanExpr::Or(_, _) => inputs[0] || inputs[1],
        BooleanExpr::Xor(_, _) => inputs[0] != inputs[1],
        BooleanExpr::Mux(_, _, _) => if inputs[0] {
            inputs[1]
        } else {
            inputs[2]
        },
    }
}

/// The number of ciphertexts that the root gate of `e` reads.
pub open spec fn gate_arity(e: BooleanExpr) -> nat {
    match e {
        BooleanExpr::Operand(_) => 1,
        BooleanExpr::Mux(_, _, _) => 3,
        _ => 2,
    }
}

/// One gate ready to run: a node together with the ciphertexts that its gate reads.
pub struct Runnable {
    bool_expr: BooleanExpr,
    operands: Vec<Ciphertext>,
}

impl Runnable {
    /// The node whose gate is run.
    pub closed spec fn expr(&self) -> BooleanExpr {
        self.bool_expr
    }

    /// The ciphertexts that this gate reads.
    pub closed spec fn inputs(&self) -> Seq<Ciphertext> {
        self.operands@
    }

    /// The task has as many inputs as its gate reads, and the gates of `sk`
    /// accept them.
    pub open spec fn runs_on(&self, sk: ServerKey) -> bool {
        self.inputs().len() == gate_arity(self.expr()) && all_usable(sk, self.inputs())
    }

    /// `out` is a result of the task: under every client key of `sk` it
    /// decrypts to this gate's value on the plaintexts of the inputs.
    pub open spec fn yields(&self, sk: ServerKey, out: Ciphertext) -> bool {
        usable(sk, out) && forall|ck: ClientKey| #[trigger]
            key_pair(ck, sk) ==> plain_bit(ck, out) == gate_value(self.expr(), plain_bits(ck, self.inputs()))
    }

    /// The ciphertexts that the root gate of `e` reads: the leaf's from `leaves`,
    /// a selector's from `leaves`, the children's from `memo`.
    pub open spec fn inputs_of(leaves: OperandMap, memo: ExprMap, e: BooleanExpr) -> Seq<Ciphertext> {
        match e {
            BooleanExpr::Operand(op) => seq![leaves.entry(op)->Some_0],
            BooleanExpr::And(l, r) => seq![memo@[*l], memo@[*r]],
            BooleanExpr::Or(l, r) => seq![memo@[*l], memo@[*r]],
            BooleanExpr::Xor(l, r) => seq![memo@[*l], memo@[*r]],
            BooleanExpr::Mux(s, l, r) => seq![leaves.entry(s)->Some_0, memo@[*l], memo@[*r]],
        }
    }

    /// Every ciphertext that the root gate of `e` reads is at hand.
    pub open spec fn inputs_present(leaves: OperandMap, memo: ExprMap, e: BooleanExpr) -> bool {
        match e {
            BooleanExpr::Operand(op) => leaves.entry(op) is Some,
            BooleanExpr::And(l, r) => memo@.contains_key(*l) && memo@.contains_key(*r),
            BooleanExpr::Or(l, r) => memo@.contains_key(*l) && memo@.contains_key(*r),
            BooleanExpr::Xor(l, r) => memo@.contains_key(*l) && memo@.contains_key(*r),
            BooleanExpr::Mux(s, l, r) => leaves.entry(s) is Some && memo@.contains_key(*l)
                && memo@.contains_key(*r),
        }
    }

    /// A copy of the ciphertext that the memo holds for `key`.
    fn fetch(memo: &ExprMap, key: &BooleanExpr) -> (r: Ciphertext)
        requires
            memo.wf(),
            memo@.contains_key(*key),
        ensures
            r == memo@[*key],
    {
        copy_bit(memo.get(key).unwrap())
    }

    /// Captures the ciphertexts that the root gate of `bool_expr` reads.
    pub fn new(operands_: &OperandMap, hashmap: &ExprMap, bool_expr: BooleanExpr) -> (r: Runnable)
        requires
            operands_.wf(),
            hashmap.wf(),
            Self::inputs_present(*operands_, *hashmap, bool_expr),
        ensures
            r.expr() == bool_expr,
            r.inputs() == Self::inputs_of(*operands_, *hashmap, bool_expr),
    {
        let mut operands: Vec<Ciphertext> = Vec::with_capacity(3);
        match &bool_expr {
            BooleanExpr::Operand(op) => {
                operands.push(Self::fetch_leaf(operands_, op));
            },
            BooleanExpr::And(op1, op2) => {
                operands.push(Self::fetch(hashmap, op1));
                operands.push(Self::fetch(hashmap, op2));
            },
            BooleanExpr::Or(op1, op2) => {
                operands.push(Self::fetch(hashmap, op1));
                operands.push(Self::fetch(hashmap, op2));
            },
            BooleanExpr::Xor(op1, op2) => {
                operands.push(Self::fetch(hashmap, op1));
                operands.push(Self::fetch(hashmap, op2));
            },
            BooleanExpr::Mux(mux, op1, op2) => {
                operands.push(Self::fetch_leaf(operands_, mux));
                operands.push(Self::fetch(hashmap, op1));
                operands.push(Self::fetch(hashmap, op2));
            },
        }
        assert(operands@ =~= Self::inputs_of(*operands_, *hashmap, bool_expr));
        Runnable { bool_expr, operands }
    }

    /// A copy of the ciphertext of the leaf `op`.
    fn fetch_leaf(leaves: &OperandMap, op: &Operand) -> (r: Ciphertext)
        requires
            leaves.wf(),
            leaves.entry(*op) is Some,
        ensures
            Some(r) == leaves.entry(*op),
    {
        copy_bit(leaves.get(op).unwrap())
    }

    /// Runs the one gate of the task: AND, OR, XOR or MUX for an inner node,
    /// the identity for a leaf.
    pub fn run(&self, server_key: &ServerKey) -> (r: Ciphertext)
        requires
            self.runs_on(*server_key),
        ensures
            self.yields(*server_key, r),
    {
        match self.bool_expr {
            BooleanExpr::Operand(_) => copy_bit(&self.operands[0]),
            BooleanExpr::And(_, _) => gate_and(server_key, &self.operands[0], &self.operands[1]),
            BooleanExpr::Or(_, _) => gate_or(server_key, &self.operands[0], &self.operands[1]),
            BooleanExpr::Xor(_, _) => gate_xor(server_key, &self.operands[0], &self.operands[1]),
            BooleanExpr::Mux(_, _, _) => gate_mux(
                server_key,
                &self.operands[0],
                &self.operands[1],
                &self.operands[2],
            ),
        }
    }
}


impl BooleanExpr {
    /// The node itself and every node below it.
    pub open spec fn subterms(self) -> Set<BooleanExpr>
        decreases self,
    {
        match self {
            BooleanExpr::Operand(_) => set![self],
            BooleanExpr::And(l, r) => l.subterms().union(r.subterms()).insert(self),
            BooleanExpr::Or(l, r) => l.subterms().union(r.subterms()).insert(self),
            BooleanExpr::Xor(l, r) => l.subterms().union(r.subterms()).insert(self),
            BooleanExpr::Mux(_, l, r) => l.subterms().union(r.subterms()).insert(self),
        }
    }

    /// The two children of an inner node; none for a leaf.
    pub open spec fn children(self) -> Seq<BooleanExpr> {
        match self {
            BooleanExpr::Operand(_) => seq![],
            BooleanExpr::And(l, r) => seq![*l, *r],
            BooleanExpr::Or(l, r) => seq![*l, *r],
            BooleanExpr::Xor(l, r) => seq![*l, *r],
            BooleanExpr::Mux(_, l, r) => seq![*l, *r],
        }
    }

    /// The depth of the node: 0 for a leaf, one more than the deeper child
    /// otherwise.
    pub fn stage(&self) -> (r: u8)
        requires
            self.depth() <= u8::MAX,
        ensures
            r == self.depth(),
        decreases *self,
    {
        match self {
            BooleanExpr::Operand(op) => op.stage(),
            BooleanExpr::And(lhs, rhs) => Self::deeper(lhs.stage(), rhs.stage()) + 1,
            BooleanExpr::Or(lhs, rhs) => Self::deeper(lhs.stage(), rhs.stage()) + 1,
            BooleanExpr::Xor(lhs, rhs) => Self::deeper(lhs.stage(), rhs.stage()) + 1,
            BooleanExpr::Mux(_, lhs, rhs) => Self::deeper(lhs.stage(), rhs.stage()) + 1,
        }
    }

    /// The greater of two depths.
    fn deeper(a: u8, b: u8) -> (r: u8)
        ensures
            r == if a >= b { a } else { b },
    {
        if a >= b {
            a
        } else {
            b
        }
    }

    /// Adds the node and every node below it to `hashset`.
    pub fn to_hashset(&self, hashset: &mut ExprSet)
        requires
            old(hashset).wf(),
        ensures
            final(hashset).wf(),
            final(hashset)@ == old(hashset)@.union(self.subterms()),
        decreases *self,
    {
        let ghost before = hashset@;
        hashset.insert(self.clone());
        match self {
            BooleanExpr::Operand(_) => {},
            BooleanExpr::And(lhs, rhs) => {
                lhs.to_hashset(hashset);
                rhs.to_hashset(hashset);
            },
            BooleanExpr::Or(lhs, rhs) => {
                lhs.to_hashset(hashset);
                rhs.to_hashset(hashset);
            },
            BooleanExpr::Xor(lhs, rhs) => {
                lhs.to_hashset(hashset);
                rhs.to_hashset(hashset);
            },
            BooleanExpr::Mux(_, lhs, rhs) => {
                lhs.to_hashset(hashset);
                rhs.to_hashset(hashset);
            },
        }
        assert(hashset@ =~= before.union(self.subterms()));
    }

    /// Evaluates the expression on the inputs `bits`, reading from `visited`
    /// what it holds already and adding to it what it computes.
    pub fn evaluate(&self, bits: &[Ciphertext], server_key: &ServerKey, visited: &mut ExprMap) -> (r:
        Ciphertext)
        requires
            bits.len() == 8,
            all_usable(*server_key, bits@),
            old(visited).wf(),
            old(visited).sound(*server_key, bits@),
        ensures
            computes(*server_key, r, *self, bits@),
            final(visited).wf(),
            final(visited).sound(*server_key, bits@),
            final(visited)@.contains_key(*self),
            forall|k: BooleanExpr| old(visited)@.contains_key(k) ==> final(visited)@.contains_key(k),
        decreases *self,
    {
        match visited.get(self) {
            Some(ct) => {
                return copy_bit(ct);
            },
            None => {},
        }
        let evaluated_expr = match self {
            BooleanExpr::Operand(op) => op.evaluate(bits, server_key),
            BooleanExpr::And(op_1, op_2) => {
                let a = op_1.evaluate(bits, server_key, visited);
                let b = op_2.evaluate(bits, server_key, visited);
                gate_and(server_key, &a, &b)
            },
            BooleanExpr::Or(op_1, op_2) => {
                let a = op_1.evaluate(bits, server_key, visited);
                let b = op_2.evaluate(bits, server_key, visited);
                gate_or(server_key, &a, &b)
            },
            BooleanExpr::Xor(op_1, op_2) => {
                let a = op_1.evaluate(bits, server_key, visited);
                let b = op_2.evaluate(bits, server_key, visited);
                gate_xor(server_key, &a, &b)
            },
            BooleanExpr::Mux(mux, op_1, op_2) => {
                let c = mux.evaluate(bits, server_key);
                let a = op_1.evaluate(bits, server_key, visited);
                let b = op_2.evaluate(bits, server_key, visited);
                gate_mux(server_key, &c, &a, &b)
            },
        };
        visited.insert(self.clone(), copy_bit(&evaluated_expr));
        evaluated_expr
    }

    /// Runs the root gate of the expression on ciphertexts that were
    /// computed before: the children's from `inc_hashmap`, a leaf's or a
    /// selector's from `operands`.
    pub fn evaluate_stage_return(
        &self,
        server_key: &ServerKey,
        operands: &OperandMap,
        inc_hashmap: &ExprMap,
    ) -> (r: Ciphertext)
        requires
            operands.wf(),
            inc_hashmap.wf(),
            Runnable::inputs_present(*operands, *inc_hashmap, *self),
            all_usable(*server_key, Runnable::inputs_of(*operands, *inc_hashmap, *self)),
        ensures
            usable(*server_key, r),
            forall|ck: ClientKey| #[trigger]
                key_pair(ck, *server_key) ==> plain_bit(ck, r) == gate_value(
                    *self,
                    plain_bits(ck, Runnable::inputs_of(*operands, *inc_hashmap, *self)),
                ),
    {
        let task = Runnable::new(operands, inc_hashmap, self.clone());
        task.run(server_key)
    }

    /// Runs the root gate of the expression as `evaluate_stage_return`
    /// does, and binds the expression to the result in `out_hashmap`.
    pub fn evaluate_stage(
        &self,
        server_key: &ServerKey,
        operands: &OperandMap,
        inc_hashmap: &ExprMap,
        out_hashmap: &mut ExprMap,
    )
        requires
            operands.wf(),
            inc_hashmap.wf(),
            old(out_hashmap).wf(),
            Runnable::inputs_present(*operands, *inc_hashmap, *self),
            all_usable(*server_key, Runnable::inputs_of(*operands, *inc_hashmap, *self)),
        ensures
            final(out_hashmap).wf(),
            final(out_hashmap)@.contains_key(*self),
            final(out_hashmap)@ == old(out_hashmap)@.insert(*self, final(out_hashmap)@[*self]),
            usable(*server_key, final(out_hashmap)@[*self]),
            forall|ck: ClientKey| #[trigger]
                key_pair(ck, *server_key) ==> plain_bit(ck, final(out_hashmap)@[*self]) == gate_value(
                    *self,
                    plain_bits(ck, Runnable::inputs_of(*operands, *inc_hashmap, *self)),
                ),
    {
        let value = self.evaluate_stage_return(server_key, operands, inc_hashmap);
        out_hashmap.insert(self.clone(), value);
    }
}


/// Every node of every root: the union of the roots' subterms.
pub open spec fn nodes_of(roots: Seq<BooleanExpr>) -> Set<BooleanExpr> {
    Set::new(|n: BooleanExpr| exists|i: int| 0 <= i < roots.len() && #[trigger] roots[i].subterms().contains(n))
}

/// An expression is one of its own subterms.
pub proof fn lemma_subterms_reflexive(e: BooleanExpr)
    ensures
        e.subterms().contains(e),
{
}

/// The subterms of an expression are closed under taking children, and none
/// is deeper than the expression.
pub proof fn lemma_subterms_closed(e: BooleanExpr, n: BooleanExpr)
    requires
        e.subterms().contains(n),
    ensures
        forall|k: int| 0 <= k < n.children().len() ==> e.subterms().contains(#[trigger] n.children()[k]),
        forall|k: int| 0 <= k < n.children().len() ==> (#[trigger] n.children()[k]).depth() < n.depth(),
        n.depth() <= e.depth(),
    decreases e,
{
    if n == e {
        match e {
            BooleanExpr::Operand(_) => {},
            BooleanExpr::And(l, r) => {
                lemma_subterms_reflexive(*l);
                lemma_subterms_reflexive(*r);
            },
            BooleanExpr::Or(l, r) => {
                lemma_subterms_reflexive(*l);
                lemma_subterms_reflexive(*r);
            },
            BooleanExpr::Xor(l, r) => {
                lemma_subterms_reflexive(*l);
                lemma_subterms_reflexive(*r);
            },
            BooleanExpr::Mux(_, l, r) => {
                lemma_subterms_reflexive(*l);
                lemma_subterms_reflexive(*r);
            },
        }
    } else {
        match e {
            BooleanExpr::Operand(_) => {},
            BooleanExpr::And(l, r) => {
                if l.subterms().contains(n) {
                    lemma_subterms_closed(*l, n);
                } else {
                    lemma_subterms_closed(*r, n);
                }
            },
            BooleanExpr::Or(l, r) => {
                if l.subterms().contains(n) {
                    lemma_subterms_closed(*l, n);
                } else {
                    lemma_subterms_closed(*r, n);
                }
            },
            BooleanExpr::Xor(l, r) => {
                if l.subterms().contains(n) {
                    lemma_subterms_closed(*l, n);
                } else {
                    lemma_subterms_closed(*r, n);
                }
            },
            BooleanExpr::Mux(_, l, r) => {
                if l.subterms().contains(n) {
                    lemma_subterms_closed(*l, n);
                } else {
                    lemma_subterms_closed(*r, n);
                }
            },
        }
    }
}

/// Runs the tasks of one stage on rayon's worker pool:
/// `par_iter().map(..).collect()` over the tasks, with `Runnable::run` as the
/// mapped function. rayon applies the function to every item and collects the
/// results in the order of the items, so result `j` is a result of task `j`.
#[verifier::external_body]
fn run_all(tasks: &Vec<Runnable>, server_key: &ServerKey) -> (out: Vec<Ciphertext>)
    requires
        forall|j: int| 0 <= j < tasks.len() ==> (#[trigger] tasks[j]).runs_on(*server_key),
    ensures
        out.len() == tasks.len(),
        forall|j: int| 0 <= j < tasks.len() ==> (#[trigger] tasks[j]).yields(*server_key, out[j]),
{
    tasks.par_iter().map(|task| task.run(server_key)).collect()
}

/// The evaluator of a set of root expressions: every distinct node of the
/// roots, grouped by depth.
pub struct StagedEvaluator {
    roots: Vec<BooleanExpr>,
    stages: Vec<Vec<BooleanExpr>>,
}

impl StagedEvaluator {
    /// The roots, in the order in which their results are returned.
    pub closed spec fn root_seq(&self) -> Seq<BooleanExpr> {
        self.roots@
    }

    /// The number of stages.
    pub closed spec fn stage_count(&self) -> nat {
        self.stages@.len()
    }

    /// The nodes of stage `d`, in the order in which they are run.
    pub closed spec fn stage_nodes(&self, d: int) -> Seq<BooleanExpr> {
        self.stages@[d]@
    }

    /// Stage `d` holds, once each, exactly the nodes of the roots that have
    /// depth `d`; there is a stage for every depth that occurs and none
    /// behind the deepest.
    pub open spec fn wf(&self) -> bool {
        &&& forall|d: int|
            0 <= d < self.stage_count() ==> (#[trigger] self.stage_nodes(d)).no_duplicates()
        &&& forall|d: int, x: BooleanExpr|
            0 <= d < self.stage_count() ==> (#[trigger] self.stage_nodes(d).contains(x)) == (nodes_of(
                self.root_seq(),
            ).contains(x) && x.depth() == d)
        &&& forall|x: BooleanExpr| #[trigger]
            nodes_of(self.root_seq()).contains(x) ==> x.depth() < self.stage_count()
        &&& (self.stage_count() == 0 || self.stage_nodes(self.stage_count() - 1).len() > 0)
    }
}


impl StagedEvaluator {
    /// Every distinct node of the roots.
    fn collect(roots: &Vec<BooleanExpr>) -> (set: ExprSet)
        ensures
            set.wf(),
            set@ == nodes_of(roots@),
    {
        let mut set = ExprSet::new();
        let mut i: usize = 0;
        while i < roots.len()
            invariant
                i <= roots.len(),
                set.wf(),
                forall|n: BooleanExpr|
                    set@.contains(n) == (exists|k: int| 0 <= k < i && #[trigger] roots[k].subterms().contains(n)),
            decreases roots.len() - i,
        {
            let ghost before = set@;
            roots[i].to_hashset(&mut set);
            proof {
                assert forall|n: BooleanExpr|
                    set@.contains(n) == (exists|k: int|
                        0 <= k < i + 1 && #[trigger] roots[k].subterms().contains(n)) by {
                    if set@.contains(n) {
                        if before.contains(n) {
                            let k = choose|k: int| 0 <= k < i && #[trigger] roots[k].subterms().contains(n);
                            assert(roots[k].subterms().contains(n));
                        } else {
                            assert(roots[i as int].subterms().contains(n));
                        }
                    }
                    if exists|k: int| 0 <= k < i + 1 && #[trigger] roots[k].subterms().contains(n) {
                        let k = choose|k: int| 0 <= k < i + 1 && #[trigger] roots[k].subterms().contains(n);
                        if k < i {
                            assert(before.contains(n));
                        }
                    }
                }
            }
            i += 1;
        }
        assert(set@ =~= nodes_of(roots@));
        set
    }

    /// One more than the greatest depth among the members; 0 for no member.
    fn count_stages(set: &ExprSet) -> (count: usize)
        requires
            forall|t: int| 0 <= t < set.order().len() ==> (#[trigger] set.order()[t]).depth() <= u8::MAX,
        ensures
            count <= 256,
            forall|t: int| 0 <= t < set.order().len() ==> (#[trigger] set.order()[t]).depth() < count,
            count == 0 || exists|t: int|
                0 <= t < set.order().len() && (#[trigger] set.order()[t]).depth() == count - 1,
    {
        let mut count: usize = 0;
        let mut j: usize = 0;
        while j < set.len()
            invariant
                j <= set.order().len(),
                count <= 256,
                forall|t: int| 0 <= t < set.order().len() ==> (#[trigger] set.order()[t]).depth() <= u8::MAX,
                forall|t: int| 0 <= t < j ==> (#[trigger] set.order()[t]).depth() < count,
                count == 0 || exists|t: int|
                    0 <= t < j && (#[trigger] set.order()[t]).depth() == count - 1,
            decreases set.order().len() - j,
        {
            let depth: usize = set.get(j).stage() as usize;
            if depth + 1 > count {
                count = depth + 1;
                assert(set.order()[j as int].depth() == count - 1);
            } else {
                let ghost w = choose|t: int| 0 <= t < j && (#[trigger] set.order()[t]).depth() == count - 1;
                assert(set.order()[w].depth() == count - 1);
            }
            j += 1;
        }
        count
    }

    /// Plans the evaluation of `roots`: collects every distinct node and
    /// groups the nodes by depth.
    #[verifier::rlimit(50)]
    pub fn new(roots: Vec<BooleanExpr>) -> (r: StagedEvaluator)
        requires
            forall|i: int| 0 <= i < roots.len() ==> (#[trigger] roots[i]).depth() <= u8::MAX,
        ensures
            r.wf(),
            r.root_seq() == roots@,
    {
        let set = Self::collect(&roots);
        proof {
            assert forall|t: int| 0 <= t < set.order().len() implies (#[trigger] set.order()[t]).depth()
                <= u8::MAX by {
                let n = set.order()[t];
                assert(set@.contains(n));
                let k = choose|k: int| 0 <= k < roots.len() && #[trigger] roots[k].subterms().contains(n);
                lemma_subterms_closed(roots[k], n);
            }
        }
        let count: usize = Self::count_stages(&set);
        let mut stages: Vec<Vec<BooleanExpr>> = Vec::with_capacity(count);
        let mut d: usize = 0;
        while d < count
            invariant
                d <= count,
                stages.len() == d,
                forall|k: int| 0 <= k < d ==> (#[trigger] stages[k])@.len() == 0,
            decreases count - d,
        {
            stages.push(Vec::new());
            d += 1;
        }
        let mut j: usize = 0;
        while j < set.len()
            invariant
                j <= set.order().len(),
                set.wf(),
                stages.len() == count,
                count <= 256,
                forall|t: int| 0 <= t < set.order().len() ==> (#[trigger] set.order()[t]).depth() < count,
                forall|k: int| 0 <= k < count ==> (#[trigger] stages[k])@.no_duplicates(),
                forall|k: int, x: BooleanExpr|
                    0 <= k < count ==> (#[trigger] stages[k]@.contains(x)) == (x.depth() == k && exists|t: int|
                        0 <= t < j && set.order()[t] == x),
            decreases set.order().len() - j,
        {
            let e = set.get(j);
            let depth: usize = e.stage() as usize;
            let ghost before = stages@;
            let ghost item = *e;
            stages[depth].push(e.clone());
            proof {
                assert forall|k: int| 0 <= k < count implies (#[trigger] stages[k])@.no_duplicates() by {
                    if k == depth {
                        assert(stages[k]@ == before[k]@.push(item));
                        if before[k]@.contains(item) {
                            let t = choose|t: int| 0 <= t < j && set.order()[t] == item;
                            assert(set.order()[t] == set.order()[j as int]);
                        }
                        assert(!before[k]@.contains(item));
                        assert forall|a: int, b: int|
                            0 <= a < stages[k]@.len() && 0 <= b < stages[k]@.len() && a != b implies stages[k]@[a]
                            != stages[k]@[b] by {
                            if a < before[k]@.len() && b < before[k]@.len() {
                                assert(before[k]@[a] != before[k]@[b]);
                            } else if a < before[k]@.len() {
                                assert(before[k]@.contains(before[k]@[a]));
                            } else {
                                assert(before[k]@.contains(before[k]@[b]));
                            }
                        }
                    } else {
                        assert(stages[k] == before[k]);
                    }
                }
                assert forall|k: int, x: BooleanExpr| 0 <= k < count implies (#[trigger] stages[k]@.contains(
                    x,
                )) == (x.depth() == k && exists|t: int| 0 <= t < j + 1 && set.order()[t] == x) by {
                    if k == depth {
                        assert(stages[k]@ == before[k]@.push(item));
                        if stages[k]@.contains(x) {
                            let a = choose|a: int| 0 <= a < stages[k]@.len() && stages[k]@[a] == x;
                            if a < before[k]@.len() {
                                assert(before[k]@.contains(x));
                                let t = choose|t: int| 0 <= t < j && set.order()[t] == x;
                                assert(0 <= t < j + 1 && set.order()[t] == x);
                            } else {
                                assert(x == item);
                                assert(set.order()[j as int] == x);
                            }
                        }
                        if x.depth() == k && exists|t: int| 0 <= t < j + 1 && set.order()[t] == x {
                            let t = choose|t: int| 0 <= t < j + 1 && set.order()[t] == x;
                            if t < j {
                                assert(before[k]@.contains(x));
                                let a = choose|a: int| 0 <= a < before[k]@.len() && before[k]@[a] == x;
                                assert(stages[k]@[a] == x);
                            } else {
                                assert(stages[k]@[before[k]@.len() as int] == x);
                            }
                        }
                    } else {
                        assert(stages[k] == before[k]);
                        if x.depth() == k && exists|t: int| 0 <= t < j + 1 && set.order()[t] == x {
                            let t = choose|t: int| 0 <= t < j + 1 && set.order()[t] == x;
                            assert(t < j);
                        }
                        if before[k]@.contains(x) {
                            let t = choose|t: int| 0 <= t < j && set.order()[t] == x;
                            assert(0 <= t < j + 1 && set.order()[t] == x);
                        }
                    }
                }
            }
            j += 1;
        }
        let r = StagedEvaluator { roots, stages };
        proof {
            assert forall|k: int, x: BooleanExpr| 0 <= k < r.stage_count() implies (#[trigger] r.stage_nodes(
                k,
            ).contains(x)) == (nodes_of(r.root_seq()).contains(x) && x.depth() == k) by {
                if nodes_of(r.root_seq()).contains(x) {
                    assert(set.order().to_set().contains(x));
                    assert(set.order().contains(x));
                }
                if r.stage_nodes(k).contains(x) {
                    let t = choose|t: int| 0 <= t < j && set.order()[t] == x;
                    assert(set.order().contains(x));
                }
            }
            assert forall|x: BooleanExpr| #[trigger] nodes_of(r.root_seq()).contains(x) implies x.depth()
                < r.stage_count() by {
                assert(set.order().to_set().contains(x));
                assert(set.order().contains(x));
            }
            if count > 0 {
                let t = choose|t: int|
                    0 <= t < set.order().len() && (#[trigger] set.order()[t]).depth() == count - 1;
                assert(r.stage_nodes(count - 1).contains(set.order()[t]));
            }
        }
        r
    }

    /// The number of distinct nodes at each depth.
    pub fn stage_sizes(&self) -> (sizes: Vec<usize>)
        requires
            self.wf(),
        ensures
            sizes.len() == self.stage_count(),
            forall|d: int|
                0 <= d < sizes.len() ==> sizes[d] == nodes_of(self.root_seq()).filter(
                    |x: BooleanExpr| x.depth() == d,
                ).len(),
    {
        let mut sizes: Vec<usize> = Vec::with_capacity(self.stages.len());
        let mut d: usize = 0;
        while d < self.stages.len()
            invariant
                self.wf(),
                d <= self.stages.len(),
                sizes.len() == d,
                forall|k: int|
                    0 <= k < d ==> sizes[k] == nodes_of(self.root_seq()).filter(
                        |x: BooleanExpr| x.depth() == k,
                    ).len(),
            decreases self.stages.len() - d,
        {
            proof {
                let nodes = self.stage_nodes(d as int);
                nodes.unique_seq_to_set();
                assert(nodes.to_set() =~= nodes_of(self.root_seq()).filter(|x: BooleanExpr| x.depth() == d));
            }
            sizes.push(self.stages[d].len());
            d += 1;
        }
        sizes
    }
}


impl StagedEvaluator {
    /// The roots that the evaluator was planned for.
    pub fn roots(&self) -> (r: &Vec<BooleanExpr>)
        ensures
            r@ == self.root_seq(),
    {
        &self.roots
    }

    /// Evaluates every root on the inputs `bits`: prepares the leaves, then
    /// runs stage after stage, the gates of one stage in parallel, each
    /// distinct node once. Result `i` holds the value of root `i`.
    #[verifier::rlimit(50)]
    pub fn evaluate(&self, bits: &[Ciphertext], server_key: &ServerKey) -> (out: Vec<Ciphertext>)
        requires
            self.wf(),
            bits.len() == 8,
            all_usable(*server_key, bits@),
        ensures
            out.len() == self.root_seq().len(),
            forall|i: int|
                0 <= i < out.len() ==> computes(*server_key, #[trigger] out[i], self.root_seq()[i], bits@),
    {
        let leaves = OperandMap::prepare(bits, server_key);
        let mut memo = ExprMap::new();
        let mut d: usize = 0;
        while d < self.stages.len()
            invariant
                self.wf(),
                d <= self.stages.len(),
                leaves.prepared(*server_key, bits@),
                memo.wf(),
                memo.sound(*server_key, bits@),
                forall|k: int, x: BooleanExpr|
                    0 <= k < d && #[trigger] self.stage_nodes(k).contains(x) ==> memo@.contains_key(x),
            decreases self.stages.len() - d,
        {
            let stage = &self.stages[d];
            let mut tasks: Vec<Runnable> = Vec::with_capacity(stage.len());
            let mut j: usize = 0;
            while j < stage.len()
                invariant
                    self.wf(),
                    d < self.stages.len(),
                    stage@ == self.stage_nodes(d as int),
                    j <= stage.len(),
                    tasks.len() == j,
                    leaves.prepared(*server_key, bits@),
                    memo.wf(),
                    memo.sound(*server_key, bits@),
                    forall|k: int, x: BooleanExpr|
                        0 <= k < d && #[trigger] self.stage_nodes(k).contains(x) ==> memo@.contains_key(x),
                    forall|t: int|
                        0 <= t < j ==> (#[trigger] tasks[t]).expr() == stage[t] && tasks[t].inputs()
                            == Runnable::inputs_of(leaves, memo, stage[t]) && Runnable::inputs_present(
                            leaves,
                            memo,
                            stage[t],
                        ),
                decreases stage.len() - j,
            {
                proof {
                    self.lemma_inputs_present(d as int, stage[j as int], leaves, memo, *server_key, bits@);
                }
                tasks.push(Runnable::new(&leaves, &memo, stage[j].clone()));
                j += 1;
            }
            proof {
                assert forall|t: int| 0 <= t < tasks.len() implies (#[trigger] tasks[t]).runs_on(
                    *server_key,
                ) by {
                    assert(tasks[t].expr() == stage[t]);
                    lemma_inputs_sound(stage[t], leaves, memo, *server_key, bits@);
                }
            }
            let results = run_all(&tasks, server_key);
            proof {
                assert forall|t: int| 0 <= t < stage.len() implies computes(
                    *server_key,
                    #[trigger] results[t],
                    stage[t],
                    bits@,
                ) by {
                    assert(tasks[t].expr() == stage[t]);
                    lemma_inputs_sound(stage[t], leaves, memo, *server_key, bits@);
                    assert(tasks[t].yields(*server_key, results[t]));
                }
            }
            j = 0;
            while j < stage.len()
                invariant
                    self.wf(),
                    d < self.stages.len(),
                    stage@ == self.stage_nodes(d as int),
                    j <= stage.len(),
                    results.len() == stage.len(),
                    memo.wf(),
                    memo.sound(*server_key, bits@),
                    forall|t: int|
                        0 <= t < stage.len() ==> computes(*server_key, #[trigger] results[t], stage[t], bits@),
                    forall|k: int, x: BooleanExpr|
                        0 <= k < d && #[trigger] self.stage_nodes(k).contains(x) ==> memo@.contains_key(x),
                    forall|t: int| 0 <= t < j ==> memo@.contains_key(#[trigger] stage[t]),
                decreases stage.len() - j,
            {
                memo.insert(stage[j].clone(), copy_bit(&results[j]));
                j += 1;
            }
            proof {
                assert forall|k: int, x: BooleanExpr|
                    0 <= k < d + 1 && #[trigger] self.stage_nodes(k).contains(x) implies memo@.contains_key(
                    x,
                ) by {
                    if k == d {
                        let t = choose|t: int| 0 <= t < stage@.len() && stage@[t] == x;
                        assert(memo@.contains_key(stage[t]));
                    }
                }
            }
            d += 1;
        }
        let mut out: Vec<Ciphertext> = Vec::with_capacity(self.roots.len());
        let mut i: usize = 0;
        while i < self.roots.len()
            invariant
                self.wf(),
                i <= self.roots.len(),
                out.len() == i,
                memo.wf(),
                memo.sound(*server_key, bits@),
                forall|k: int, x: BooleanExpr|
                    0 <= k < self.stage_count() && #[trigger] self.stage_nodes(k).contains(x)
                        ==> memo@.contains_key(x),
                forall|t: int|
                    0 <= t < i ==> computes(*server_key, #[trigger] out[t], self.root_seq()[t], bits@),
            decreases self.roots.len() - i,
        {
            proof {
                let root = self.roots[i as int];
                lemma_subterms_reflexive(root);
                assert(self.root_seq()[i as int].subterms().contains(root));
                assert(nodes_of(self.root_seq()).contains(root));
                assert(self.stage_nodes(root.depth() as int).contains(root));
            }
            out.push(copy_bit(memo.get(&self.roots[i]).unwrap()));
            i += 1;
        }
        out
    }

    /// When the stages before stage `d` are in the memo, every input of a
    /// node of stage `d` is at hand.
    proof fn lemma_inputs_present(
        &self,
        d: int,
        x: BooleanExpr,
        leaves: OperandMap,
        memo: ExprMap,
        sk: ServerKey,
        bits: Seq<Ciphertext>,
    )
        requires
            self.wf(),
            0 <= d < self.stage_count(),
            self.stage_nodes(d).contains(x),
            leaves.prepared(sk, bits),
            forall|k: int, y: BooleanExpr|
                0 <= k < d && #[trigger] self.stage_nodes(k).contains(y) ==> memo@.contains_key(y),
        ensures
            Runnable::inputs_present(leaves, memo, x),
    {
        assert(nodes_of(self.root_seq()).contains(x));
        let i = choose|i: int| 0 <= i < self.root_seq().len() && #[trigger] self.root_seq()[i].subterms().contains(x);
        lemma_subterms_closed(self.root_seq()[i], x);
        assert forall|k: int| 0 <= k < x.children().len() implies memo@.contains_key(
            #[trigger] x.children()[k],
        ) by {
            let c = x.children()[k];
            assert(self.root_seq()[i].subterms().contains(c));
            assert(nodes_of(self.root_seq()).contains(c));
            assert(self.stage_nodes(c.depth() as int).contains(c));
        }
        match x {
            BooleanExpr::Operand(op) => {
                assert(leaves.entry(op) is Some);
            },
            BooleanExpr::And(l, r) => {
                assert(x.children()[0] == *l && x.children()[1] == *r);
            },
            BooleanExpr::Or(l, r) => {
                assert(x.children()[0] == *l && x.children()[1] == *r);
            },
            BooleanExpr::Xor(l, r) => {
                assert(x.children()[0] == *l && x.children()[1] == *r);
            },
            BooleanExpr::Mux(s, l, r) => {
                assert(leaves.entry(s) is Some);
                assert(x.children()[0] == *l && x.children()[1] == *r);
            },
        }
    }
}

/// The inputs that a sound memo and prepared leaves supply to the root gate of `x`
/// are accepted by the gates of `sk`, and any result of that gate on them holds
/// the value of `x`.
pub proof fn lemma_inputs_sound(x: BooleanExpr, leaves: OperandMap, memo: ExprMap, sk: ServerKey, bits: Seq<Ciphertext>)
    requires
        leaves.prepared(sk, bits),
        memo.sound(sk, bits),
        Runnable::inputs_present(leaves, memo, x),
    ensures
        Runnable::inputs_of(leaves, memo, x).len() == gate_arity(x),
        all_usable(sk, Runnable::inputs_of(leaves, memo, x)),
        forall|ck: ClientKey| #[trigger]
            key_pair(ck, sk) ==> gate_value(x, plain_bits(ck, Runnable::inputs_of(leaves, memo, x))) == x.eval(
                plain_bits(ck, bits),
            ),
{
    let inputs = Runnable::inputs_of(leaves, memo, x);
    match x {
        BooleanExpr::Operand(op) => {
            assert(leaves.entry(op) is Some);
        },
        BooleanExpr::And(l, r) => {
            assert(memo@.contains_key(*l) && memo@.contains_key(*r));
        },
        BooleanExpr::Or(l, r) => {
            assert(memo@.contains_key(*l) && memo@.contains_key(*r));
        },
        BooleanExpr::Xor(l, r) => {
            assert(memo@.contains_key(*l) && memo@.contains_key(*r));
        },
        BooleanExpr::Mux(s, l, r) => {
            assert(leaves.entry(s) is Some);
            assert(memo@.contains_key(*l) && memo@.contains_key(*r));
        },
    }
}

} // verus!
