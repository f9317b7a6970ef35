//! Xenakis sieves: subsets of the integers built from residual classes
//! (arithmetic progressions) combined with boolean operators.
//!
//! A residual class `m@s` holds every integer congruent to `s` modulo `m`;
//! the degenerate class `0@0` holds nothing.  Sieves combine such classes
//! with intersection (`&`), union (`|`), symmetric difference (`^`) and
//! inversion (`!`), written in a small textual notation such as `3@0|5@1`.

use std::rc::Rc;
use vstd::prelude::*;
use vstd::string::StringExecFns;

pub mod arith;
pub mod parser;
pub mod text;
pub mod util;

verus! {

/// One residual class: the set of integers congruent to `shift` modulo
/// `modulus`.  A zero modulus denotes the empty set, with the shift
/// forced to zero.
#[derive(Clone, Copy, Debug, PartialEq, Eq, PartialOrd, Ord, Structural)]
pub struct Residual {
    pub modulus: i128,
    pub shift: i128,
}

/// Membership of `v` in the residual class `m@s`: the class is non-empty
/// and `m` divides `v - s`.  (`%` here is the Euclidean remainder.)
pub open spec fn in_class(m: int, s: int, v: int) -> bool {
    m > 0 && (v - s) % m == 0
}

impl Residual {
    /// The stored pair is normalized: a positive modulus keeps its shift
    /// in `[0, modulus)`, and the empty class is exactly `0@0`.
    pub open spec fn wf(self) -> bool {
        &&& 0 <= self.modulus
        &&& 0 <= self.shift
        &&& self.modulus == 0 ==> self.shift == 0
        &&& self.modulus > 0 ==> self.shift < self.modulus
    }

    /// Construct a residual class, reducing the shift into `[0, modulus)`;
    /// a zero modulus snaps both components to zero.
    pub fn new(modulus: i128, shift: i128) -> (r: Residual)
        requires
            0 <= modulus,
        ensures
            r.wf(),
            r.modulus == modulus,
            r.shift == if modulus == 0 { 0int } else { shift as int % modulus as int },
    {
        if modulus == 0 {
            Residual { modulus: 0, shift: 0 }
        } else {
            Residual { modulus, shift: util::euclid_rem(shift, modulus) }
        }
    }

    /// Return `true` if the value is contained within this residual class.
    pub fn contains(&self, value: i128) -> (r: bool)
        requires
            self.wf(),
        ensures
            r == in_class(self.modulus as int, self.shift as int, value as int),
    {
        if self.modulus == 0 {
            return false;
        }
        let canon = util::euclid_rem(value, self.modulus);
        proof {
            let m = self.modulus as int;
            vstd::arithmetic::div_mod::lemma_mod_equivalence(
                value as int,
                self.shift as int,
                m,
            );
            vstd::arithmetic::div_mod::lemma_small_mod(self.shift as nat, m as nat);
        }
        canon == self.shift
    }

    /// The canonical text of a residual class: `modulus@shift` over the
    /// normalized pair.
    pub open spec fn str_spec(self) -> Seq<char> {
        text::dec_str(self.modulus as nat) + seq!['@'] + text::dec_str(self.shift as nat)
    }

    /// Render the canonical text `modulus@shift`.
    pub fn to_string(&self) -> (s: String)
        requires
            self.wf(),
        ensures
            s@ == self.str_spec(),
    {
        let mut s = String::new();
        text::append_dec(&mut s, self.modulus);
        s.append("@");
        text::append_dec(&mut s, self.shift);
        proof {
            reveal_strlit("@");
            assert(s@ =~= self.str_spec());
        }
        s
    }

    /// The normalized modulus and shift of the intersection of two
    /// residual classes; `(0, 0)` when either operand is empty or the two
    /// congruences have no common solution.
    pub open spec fn merge_spec(self, other: Residual) -> (int, int) {
        if self.modulus == 0 || other.modulus == 0 {
            (0, 0)
        } else {
            util::intersection_spec(
                self.modulus as int,
                other.modulus as int,
                self.shift as int,
                other.shift as int,
            )
        }
    }

    /// Combine two residual classes into the single class of integers
    /// lying in both, or the empty class when no integer does.
    pub fn merge(self, other: Residual) -> (r: Residual)
        requires
            self.wf(),
            other.wf(),
            self.modulus < util::MODULUS_LIMIT,
            other.modulus < util::MODULUS_LIMIT,
        ensures
            r.wf(),
            r.modulus as int == self.merge_spec(other).0,
            r.shift as int == self.merge_spec(other).1,
    {
        match util::intersection(self.modulus, other.modulus, self.shift, other.shift) {
            Ok(p) => {
                proof {
                    if p.0 > 0 {
                        vstd::arithmetic::div_mod::lemma_small_mod(p.1 as nat, p.0 as nat);
                    }
                }
                Residual::new(p.0, p.1)
            },
            Err(_) => {
                proof {
                    assert(false);
                }
                Residual { modulus: 0, shift: 0 }
            },
        }
    }
}

/// Merge correctness: an integer lies in the merged class exactly when it
/// lies in both operands.
pub proof fn lemma_merge_contains(r1: Residual, r2: Residual, v: int)
    requires
        r1.wf(),
        r2.wf(),
    ensures
        in_class(r1.merge_spec(r2).0, r1.merge_spec(r2).1, v) == (in_class(
            r1.modulus as int,
            r1.shift as int,
            v,
        ) && in_class(r2.modulus as int, r2.shift as int, v)),
{
    if r1.modulus != 0 && r2.modulus != 0 {
        util::lemma_intersection_contains(
            r1.modulus as int,
            r2.modulus as int,
            r1.shift as int,
            r2.shift as int,
            v,
        );
    }
}

/// Merging is commutative: both orders give the same normalized class.
pub proof fn lemma_merge_commutes(r1: Residual, r2: Residual)
    requires
        r1.wf(),
        r2.wf(),
    ensures
        r1.merge_spec(r2) == r2.merge_spec(r1),
{
    if r1.modulus != 0 && r2.modulus != 0 {
        let m1 = r1.modulus as int;
        let m2 = r2.modulus as int;
        arith::lemma_gcd_sym(m1 as nat, m2 as nat);
        arith::lemma_gcd_pos(m1 as nat, m2 as nat);
        arith::lemma_gcd_divides(m1 as nat, m2 as nat);
        let d = arith::gcd(m1 as nat, m2 as nat) as int;
        let k1 = choose|k: int| m1 == #[trigger] (d * k);
        let k2 = choose|k: int| m2 == #[trigger] (d * k);
        assert(m1 == k1 * d && m2 == k2 * d && k1 > 0 && k2 > 0) by (nonlinear_arith)
            requires
                m1 == d * k1,
                m2 == d * k2,
                m1 > 0,
                m2 > 0,
                d > 0,
        ;
        vstd::arithmetic::div_mod::lemma_fundamental_div_mod_converse(m1, d, k1, 0);
        vstd::arithmetic::div_mod::lemma_fundamental_div_mod_converse(m2, d, k2, 0);
        vstd::arithmetic::div_mod::lemma_small_mod(r1.shift as nat, m1 as nat);
        vstd::arithmetic::div_mod::lemma_small_mod(r2.shift as nat, m2 as nat);
        assert((m1 / d) * (m2 / d) * d == (m2 / d) * (m1 / d) * d) by (nonlinear_arith);
        assert((m1 / d) * (m2 / d) * d >= 1) by (nonlinear_arith)
            requires
                m1 / d >= 1,
                m2 / d >= 1,
                d >= 1,
        ;
        let p = r1.merge_spec(r2);
        let q = r2.merge_spec(r1);
        assert(p.0 == q.0);
        if p.0 != 0 {
            let m = p.0;
            assert(1 <= m1 / d && 1 <= m2 / d && 1 <= m) by (nonlinear_arith)
                requires
                    m == (m1 / d) * (m2 / d) * d,
                    m1 / d >= 1,
                    m2 / d >= 1,
                    d >= 1,
            ;
            vstd::arithmetic::div_mod::lemma_mod_bound(
                r1.shift as int + util::meziriac_spec(m1 / d, m2 / d) * (r2.shift - r1.shift) * (
                m1 / d),
                m,
            );
            vstd::arithmetic::div_mod::lemma_mod_bound(
                r2.shift as int + util::meziriac_spec(m2 / d, m1 / d) * (r1.shift - r2.shift) * (
                m2 / d),
                m,
            );
            vstd::arithmetic::div_mod::lemma_small_mod(0nat, m as nat);
            util::lemma_intersection_contains(m1, m2, r1.shift as int, r2.shift as int, p.1);
            assert(in_class(m, p.1, p.1));
            util::lemma_intersection_contains(m2, m1, r2.shift as int, r1.shift as int, p.1);
            assert(in_class(m, q.1, p.1));
            vstd::arithmetic::div_mod::lemma_mod_equivalence(p.1, q.1, m);
            vstd::arithmetic::div_mod::lemma_small_mod(p.1 as nat, m as nat);
            vstd::arithmetic::div_mod::lemma_small_mod(q.1 as nat, m as nat);
            assert(p.1 == q.1);
        } else {
            assert(vstd::math::abs(r2.shift - r1.shift) == vstd::math::abs(r1.shift - r2.shift));
            assert(p == (0int, 0int));
            assert(q == (0int, 0int));
        }
        assert(p == q);
    }
}

/// Canonical display is idempotent: parsing the canonical text of a
/// normalized residual class yields exactly that class, as the one leaf
/// of the parsed expression.  Classes of thirteen or more digits exceed
/// what a literal may hold and stay out.
pub proof fn lemma_display_parse_round_trip(r: Residual)
    requires
        r.wf(),
        r.modulus < 1_000_000_000_000,
    ensures
        parser::parse_spec(r.str_spec()) == Ok::<parser::TreeSpec, parser::ParseError>(
            parser::TreeSpec::Unit(r.modulus as int, r.shift as int),
        ),
{
    parser::lemma_parse_residual_text(r.modulus, r.shift);
    if r.modulus > 0 {
        vstd::arithmetic::div_mod::lemma_small_mod(r.shift as nat, r.modulus as nat);
    }
}

/// A node in the tree of residual classes combined by boolean operations.
/// Sub-trees are shared through reference counting and never mutated, so
/// a combinator wraps existing children without copying them.
#[derive(Clone, Debug)]
pub enum SieveNode {
    Unit(Residual),
    Intersection(Rc<SieveNode>, Rc<SieveNode>),
    Union(Rc<SieveNode>, Rc<SieveNode>),
    SymmetricDifference(Rc<SieveNode>, Rc<SieveNode>),
    Inversion(Rc<SieveNode>),
}

impl SieveNode {
    /// Every residual class in the tree is normalized.
    pub open spec fn wf(self) -> bool
        decreases self,
    {
        match self {
            SieveNode::Unit(r) => r.wf(),
            SieveNode::Intersection(lhs, rhs) => lhs.wf() && rhs.wf(),
            SieveNode::Union(lhs, rhs) => lhs.wf() && rhs.wf(),
            SieveNode::SymmetricDifference(lhs, rhs) => lhs.wf() && rhs.wf(),
            SieveNode::Inversion(part) => part.wf(),
        }
    }

    /// Membership of `v` in the set the tree denotes: each boolean
    /// combinator acts pointwise on the sets of its children.
    pub open spec fn eval(self, v: int) -> bool
        decreases self,
    {
        match self {
            SieveNode::Unit(r) => in_class(r.modulus as int, r.shift as int, v),
            SieveNode::Intersection(lhs, rhs) => lhs.eval(v) && rhs.eval(v),
            SieveNode::Union(lhs, rhs) => lhs.eval(v) || rhs.eval(v),
            SieveNode::SymmetricDifference(lhs, rhs) => lhs.eval(v) != rhs.eval(v),
            SieveNode::Inversion(part) => !part.eval(v),
        }
    }

    /// Return `true` if the value is contained within this sieve.
    pub fn contains(&self, value: i128) -> (r: bool)
        requires
            self.wf(),
        ensures
            r == self.eval(value as int),
        decreases *self,
    {
        match self {
            SieveNode::Unit(residual) => residual.contains(value),
            SieveNode::Intersection(lhs, rhs) => lhs.contains(value) && rhs.contains(value),
            SieveNode::Union(lhs, rhs) => lhs.contains(value) || rhs.contains(value),
            SieveNode::SymmetricDifference(lhs, rhs) => lhs.contains(value) ^ rhs.contains(value),
            SieveNode::Inversion(part) => !part.contains(value),
        }
    }

    /// The text of the tree: children joined by their operator symbol,
    /// with an inverted sub-tree written `!(...)`.
    pub open spec fn str_spec(self) -> Seq<char>
        decreases self,
    {
        match self {
            SieveNode::Unit(r) => r.str_spec(),
            SieveNode::Intersection(lhs, rhs) => lhs.str_spec() + seq!['&'] + rhs.str_spec(),
            SieveNode::Union(lhs, rhs) => lhs.str_spec() + seq!['|'] + rhs.str_spec(),
            SieveNode::SymmetricDifference(lhs, rhs) => lhs.str_spec() + seq!['^']
                + rhs.str_spec(),
            SieveNode::Inversion(part) => seq!['!', '('] + part.str_spec() + seq![')'],
        }
    }

    /// Render the tree in sieve notation.
    pub fn to_string(&self) -> (s: String)
        requires
            self.wf(),
        ensures
            s@ == self.str_spec(),
        decreases *self,
    {
        match self {
            SieveNode::Unit(residual) => residual.to_string(),
            SieveNode::Intersection(lhs, rhs) => {
                let mut s = lhs.to_string();
                s.append("&");
                let rs = rhs.to_string();
                s.append(rs.as_str());
                proof {
                    reveal_strlit("&");
                    assert(s@ =~= self.str_spec());
                }
                s
            },
            SieveNode::Union(lhs, rhs) => {
                let mut s = lhs.to_string();
                s.append("|");
                let rs = rhs.to_string();
                s.append(rs.as_str());
                proof {
                    reveal_strlit("|");
                    assert(s@ =~= self.str_spec());
                }
                s
            },
            SieveNode::SymmetricDifference(lhs, rhs) => {
                let mut s = lhs.to_string();
                s.append("^");
                let rs = rhs.to_string();
                s.append(rs.as_str());
                proof {
                    reveal_strlit("^");
                    assert(s@ =~= self.str_spec());
                }
                s
            },
            SieveNode::Inversion(part) => {
                let mut s = String::from_str("!(");
                let ps = part.to_string();
                s.append(ps.as_str());
                s.append(")");
                proof {
                    reveal_strlit("!(");
                    reveal_strlit(")");
                    assert(s@ =~= self.str_spec());
                }
                s
            },
        }
    }
}

/// Relies on std's `Rc::clone`: the returned handle shares the same node.
#[verifier::external_body]
fn clone_node(n: &Rc<SieveNode>) -> (r: Rc<SieveNode>)
    ensures
        r == *n,
{
    Rc::clone(n)
}

/// The representation of a Xenakis sieve: a handle on the root of a tree
/// of residual classes combined by boolean operations, built from a
/// string notation such as `3@0|5@1`.  Combinators share the operand
/// trees instead of copying them.
#[derive(Debug)]
pub struct Sieve {
    pub root: Rc<SieveNode>,
}

impl Clone for Sieve {
    /// A cloned handle shares the same root node; nothing is copied.
    fn clone(&self) -> (r: Self)
        ensures
            r == *self,
    {
        Sieve { root: clone_node(&self.root) }
    }
}

impl Sieve {
    /// Every residual class under the root is normalized.
    pub open spec fn wf(self) -> bool {
        self.root.wf()
    }

    /// Membership of `v` in the set this sieve denotes.
    pub open spec fn eval(self, v: int) -> bool {
        self.root.eval(v)
    }

    /// Construct a sieve from its textual notation, such as `3@0|5@1`:
    /// tokens, then postfix order by operator precedence, then the tree.
    /// A malformed notation comes back as the error naming its first
    /// fault.
    pub fn new(notation: &str) -> (r: Result<Sieve, parser::ParseError>)
        ensures
            match parser::parse_spec(notation@) {
                Ok(t) => (r matches Ok(sv) && sv.wf() && parser::node_tree(*sv.root) == t
                    && forall|v: int| sv.eval(v) == parser::tree_eval(t, v)),
                Err(e) => r == Err::<Sieve, parser::ParseError>(e),
            },
    {
        let tokens = match parser::tokenize(notation) {
            Ok(v) => v,
            Err(e) => {
                return Err(e);
            },
        };
        let postfix = match parser::infix_to_postfix(&tokens) {
            Ok(v) => v,
            Err(e) => {
                return Err(e);
            },
        };
        match parser::build(&postfix) {
            Ok(sv) => {
                proof {
                    assert forall|v: int|
                        sv.eval(v) == parser::tree_eval(parser::node_tree(*sv.root), v) by {
                        parser::lemma_node_tree_eval(&*sv.root, v);
                    }
                }
                Ok(sv)
            },
            Err(e) => Err(e),
        }
    }

    /// Wrap a finished node tree in a sieve handle.
    pub fn from_node(node: SieveNode) -> (r: Sieve)
        ensures
            *r.root == node,
            r.wf() == node.wf(),
            forall|v: int| r.eval(v) == node.eval(v),
    {
        Sieve { root: Rc::new(node) }
    }

    /// Return `true` if the value is contained within this sieve.
    pub fn contains(&self, value: i128) -> (r: bool)
        requires
            self.wf(),
        ensures
            r == self.eval(value as int),
    {
        self.root.contains(value)
    }

    /// The text of the sieve: the root tree in notation, in a `Sieve{...}`
    /// frame.
    pub open spec fn str_spec(self) -> Seq<char> {
        seq!['S', 'i', 'e', 'v', 'e', '{'] + self.root.str_spec() + seq!['}']
    }

    /// Render the sieve, framing its tree as `Sieve{...}`.
    pub fn to_string(&self) -> (s: String)
        requires
            self.wf(),
        ensures
            s@ == self.str_spec(),
    {
        let mut s = String::from_str("Sieve{");
        let rs = self.root.to_string();
        s.append(rs.as_str());
        s.append("}");
        proof {
            reveal_strlit("Sieve{");
            reveal_strlit("}");
            assert(s@ =~= self.str_spec());
        }
        s
    }

    /// The lazy sub-sequence of `values` contained in this sieve.
    pub fn iter_value(&self, values: Vec<i128>) -> (r: IterValue)
        ensures
            r.node == self.root,
            r.values == values,
            r.index == 0,
            r.wf() <== self.wf(),
    {
        IterValue { node: clone_node(&self.root), values, index: 0 }
    }

    /// The lazy membership state of each element of `values`, in order.
    pub fn iter_state(&self, values: Vec<i128>) -> (r: IterState)
        ensures
            r.node == self.root,
            r.values == values,
            r.index == 0,
            r.wf() <== self.wf(),
    {
        IterState { node: clone_node(&self.root), values, index: 0 }
    }

    /// The lazy gaps between successive members of this sieve drawn from
    /// `values`.
    pub fn iter_interval(&self, values: Vec<i128>) -> (r: IterInterval)
        requires
            forall|i: int| 0 <= i < values@.len() ==> val_ok(#[trigger] values@[i]),
        ensures
            r.node == self.root,
            r.values == values,
            r.index == 0,
            r.last is None,
            r.wf() <== self.wf(),
    {
        IterInterval { node: clone_node(&self.root), values, index: 0, last: None }
    }

    /// The sieve holding the integers in both operands: a new root node
    /// around the two operand roots, shared rather than copied.
    pub fn intersect(&self, rhs: &Sieve) -> (r: Sieve)
        ensures
            *r.root == SieveNode::Intersection(self.root, rhs.root),
            r.wf() == (self.wf() && rhs.wf()),
            forall|v: int| r.eval(v) == (self.eval(v) && rhs.eval(v)),
    {
        Sieve { root: Rc::new(SieveNode::Intersection(clone_node(&self.root), clone_node(&rhs.root))) }
    }

    /// The sieve holding the integers in either operand: a new root node
    /// around the two operand roots, shared rather than copied.
    pub fn union_with(&self, rhs: &Sieve) -> (r: Sieve)
        ensures
            *r.root == SieveNode::Union(self.root, rhs.root),
            r.wf() == (self.wf() && rhs.wf()),
            forall|v: int| r.eval(v) == (self.eval(v) || rhs.eval(v)),
    {
        Sieve { root: Rc::new(SieveNode::Union(clone_node(&self.root), clone_node(&rhs.root))) }
    }

    /// The sieve holding the integers in exactly one of the operands: a
    /// new root node around the two operand roots, shared rather than
    /// copied.
    pub fn symmetric_difference_with(&self, rhs: &Sieve) -> (r: Sieve)
        ensures
            *r.root == SieveNode::SymmetricDifference(self.root, rhs.root),
            r.wf() == (self.wf() && rhs.wf()),
            forall|v: int| r.eval(v) == (self.eval(v) != rhs.eval(v)),
    {
        Sieve {
            root: Rc::new(
                SieveNode::SymmetricDifference(clone_node(&self.root), clone_node(&rhs.root)),
            ),
        }
    }

    /// The sieve holding exactly the integers this one leaves out: a new
    /// root node around this one's root, shared rather than copied.
    pub fn invert(&self) -> (r: Sieve)
        ensures
            *r.root == SieveNode::Inversion(self.root),
            r.wf() == self.wf(),
            forall|v: int| r.eval(v) == !self.eval(v),
    {
        Sieve { root: Rc::new(SieveNode::Inversion(clone_node(&self.root))) }
    }
}

/// Values of this size always leave the difference of two sieve members
/// representable.
pub open spec fn val_ok(v: i128) -> bool {
    -0x4000_0000_0000_0000_0000_0000_0000_0000 < v < 0x4000_0000_0000_0000_0000_0000_0000_0000
}

/// The position of the first sieve member at or after `from` in `values`,
/// if any.
pub open spec fn first_member_index(node: SieveNode, values: Seq<i128>, from: int) -> Option<int>
    decreases values.len() - from,
{
    if from < 0 || from >= values.len() {
        None::<int>
    } else if node.eval(values[from] as int) {
        Some(from)
    } else {
        first_member_index(node, values, from + 1)
    }
}

/// A found member index lies in range, at or past the starting point, and
/// names a member.
pub proof fn lemma_first_member_index(node: &SieveNode, values: Seq<i128>, from: int)
    ensures
        match first_member_index(*node, values, from) {
            Some(j) => from <= j < values.len() && node.eval(values[j] as int),
            None => true,
        },
    decreases values.len() - from,
{
    if 0 <= from && from < values.len() && !node.eval(values[from] as int) {
        lemma_first_member_index(node, values, from + 1);
    }
}

/// The lazy membership filter over a finite sequence of integers: each
/// `next` call yields the next input element that the sieve contains.
pub struct IterValue {
    pub node: Rc<SieveNode>,
    pub values: Vec<i128>,
    pub index: usize,
}

impl IterValue {
    /// The tree is normalized and the cursor stays within the sequence.
    pub open spec fn wf(self) -> bool {
        self.node.wf() && self.index <= self.values.len()
    }

    /// Yield the next member of the sieve among the remaining input
    /// elements, advancing the cursor past it; `None` once the rest of
    /// the input holds no member.
    pub fn next(&mut self) -> (r: Option<i128>)
        requires
            old(self).wf(),
        ensures
            final(self).wf(),
            final(self).node == old(self).node,
            final(self).values == old(self).values,
            match first_member_index(*old(self).node, old(self).values@, old(self).index as int) {
                Some(j) => r == Some(old(self).values@[j]) && final(self).index == j + 1,
                None => r is None && final(self).index == final(self).values.len(),
            },
    {
        while self.index < self.values.len()
            invariant
                self.wf(),
                self.node == old(self).node,
                self.values == old(self).values,
                old(self).index <= self.index,
                first_member_index(*self.node, self.values@, old(self).index as int)
                    == first_member_index(*self.node, self.values@, self.index as int),
            decreases self.values.len() - self.index,
        {
            let v = self.values[self.index];
            self.index = self.index + 1;
            if self.node.contains(v) {
                return Some(v);
            }
        }
        None
    }
}

/// The lazy boolean-state mapper over a finite sequence of integers: each
/// `next` call yields whether the next input element is a sieve member.
pub struct IterState {
    pub node: Rc<SieveNode>,
    pub values: Vec<i128>,
    pub index: usize,
}

impl IterState {
    /// The tree is normalized and the cursor stays within the sequence.
    pub open spec fn wf(self) -> bool {
        self.node.wf() && self.index <= self.values.len()
    }

    /// Yield the membership state of the next input element, in input
    /// order, one boolean per element.
    pub fn next(&mut self) -> (r: Option<bool>)
        requires
            old(self).wf(),
        ensures
            final(self).wf(),
            final(self).node == old(self).node,
            final(self).values == old(self).values,
            if old(self).index < old(self).values.len() {
                r == Some(old(self).node.eval(old(self).values@[old(self).index as int] as int))
                    && final(self).index == old(self).index + 1
            } else {
                r is None && final(self).index == old(self).index
            },
    {
        if self.index < self.values.len() {
            let v = self.values[self.index];
            self.index = self.index + 1;
            Some(self.node.contains(v))
        } else {
            None
        }
    }
}

/// The lazy gap mapper over a finite sequence of integers: each `next`
/// call yields the difference between the next sieve member and the one
/// before it.  The first member only initializes the tracker, so the
/// output is one element shorter than the sequence of members.
pub struct IterInterval {
    pub node: Rc<SieveNode>,
    pub values: Vec<i128>,
    pub index: usize,
    pub last: Option<i128>,
}

impl IterInterval {
    /// The tree is normalized, the cursor stays within the sequence, and
    /// every value in play is small enough for differences to be exact.
    pub open spec fn wf(self) -> bool {
        &&& self.node.wf()
        &&& self.index <= self.values.len()
        &&& forall|i: int| 0 <= i < self.values@.len() ==> val_ok(#[trigger] self.values@[i])
        &&& match self.last {
            Some(p) => val_ok(p),
            None => true,
        }
    }

    /// Advance to the next member, as the membership filter does.
    fn advance(&mut self) -> (r: Option<i128>)
        requires
            old(self).wf(),
        ensures
            final(self).wf(),
            final(self).node == old(self).node,
            final(self).values == old(self).values,
            final(self).last == old(self).last,
            match first_member_index(*old(self).node, old(self).values@, old(self).index as int) {
                Some(j) => r == Some(old(self).values@[j]) && final(self).index == j + 1,
                None => r is None && final(self).index == final(self).values.len(),
            },
    {
        while self.index < self.values.len()
            invariant
                self.wf(),
                self.node == old(self).node,
                self.values == old(self).values,
                self.last == old(self).last,
                old(self).index <= self.index,
                first_member_index(*self.node, self.values@, old(self).index as int)
                    == first_member_index(*self.node, self.values@, self.index as int),
            decreases self.values.len() - self.index,
        {
            let v = self.values[self.index];
            self.index = self.index + 1;
            if self.node.contains(v) {
                return Some(v);
            }
        }
        None
    }

    /// Yield the gap from the previous member to the next one, consuming
    /// the first member silently to initialize the tracker.
    pub fn next(&mut self) -> (r: Option<i128>)
        requires
            old(self).wf(),
        ensures
            final(self).wf(),
            final(self).node == old(self).node,
            final(self).values == old(self).values,
            ({
                let node = *old(self).node;
                let vs = old(self).values@;
                match old(self).last {
                    Some(p) => match first_member_index(node, vs, old(self).index as int) {
                        Some(j) => r == Some((vs[j] - p) as i128) && final(self).last
                            == Some(vs[j]) && final(self).index == j + 1,
                        None => r is None && final(self).last == old(self).last
                            && final(self).index == vs.len(),
                    },
                    None => match first_member_index(node, vs, old(self).index as int) {
                        Some(j1) => match first_member_index(node, vs, j1 + 1) {
                            Some(j2) => r == Some((vs[j2] - vs[j1]) as i128) && final(self).last
                                == Some(vs[j2]) && final(self).index == j2 + 1,
                            None => r is None && final(self).last == Some(vs[j1])
                                && final(self).index == vs.len(),
                        },
                        None => r is None && final(self).last is None && final(self).index
                            == vs.len(),
                    },
                }
            }),
    {
        let prev: i128;
        match self.last {
            Some(p) => {
                prev = p;
            },
            None => {
                proof {
                    lemma_first_member_index(
                        &*old(self).node,
                        old(self).values@,
                        old(self).index as int,
                    );
                }
                match self.advance() {
                    None => {
                        return None;
                    },
                    Some(p) => {
                        self.last = Some(p);
                        prev = p;
                    },
                }
            },
        }
        let ghost mid = *self;
        proof {
            lemma_first_member_index(&*mid.node, mid.values@, mid.index as int);
        }
        match self.advance() {
            None => None,
            Some(q) => {
                proof {
                    assert(val_ok(q) && val_ok(prev));
                }
                self.last = Some(q);
                Some(q - prev)
            },
        }
    }
}

/// An intersection node evaluates to the conjunction of its children.
pub proof fn lemma_intersection_eval(n: SieveNode, v: int)
    requires
        n is Intersection,
    ensures
        n.eval(v) == (n->Intersection_0.eval(v) && n->Intersection_1.eval(v)),
{
}

/// A union node evaluates to the disjunction of its children.
pub proof fn lemma_union_eval(n: SieveNode, v: int)
    requires
        n is Union,
    ensures
        n.eval(v) == (n->Union_0.eval(v) || n->Union_1.eval(v)),
{
}

/// A symmetric-difference node evaluates to the exclusive disjunction of
/// its children.
pub proof fn lemma_symmetric_difference_eval(n: SieveNode, v: int)
    requires
        n is SymmetricDifference,
    ensures
        n.eval(v) == (n->SymmetricDifference_0.eval(v) != n->SymmetricDifference_1.eval(v)),
{
}

/// An inversion node evaluates to the negation of its child.
pub proof fn lemma_inversion_eval(n: SieveNode, v: int)
    requires
        n is Inversion,
    ensures
        n.eval(v) == !n->Inversion_0.eval(v),
{
}

/// Two nested inversions cancel: the double inversion of a tree denotes
/// the same set as the tree itself.
pub proof fn lemma_double_inversion_eval(n: SieveNode, v: int)
    requires
        n is Inversion,
        (*n->Inversion_0) is Inversion,
    ensures
        n.eval(v) == (*n->Inversion_0)->Inversion_0.eval(v),
{
    let inner = *n->Inversion_0;
    assert(n.eval(v) == !inner.eval(v));
    assert(inner.eval(v) == !inner->Inversion_0.eval(v));
}

} // verus!
