//! Node identifiers, edge weights, and the textual id reader.

use vstd::prelude::*;

use crate::errors::MeritRankError;
use vstd::string::StringSliceAdditionalSpecFns;

verus! {

/// Whether the byte is an ASCII decimal digit.
pub open spec fn is_digit_byte(b: u8) -> bool {
    48 <= b <= 57
}

/// The value of a byte string read as a decimal number, most significant
/// digit first.  Meaningful only when every byte is a digit.
pub open spec fn decimal_val(bs: Seq<u8>) -> int
    decreases bs.len(),
{
    if bs.len() == 0 {
        0
    } else {
        decimal_val(bs.drop_last()) * 10 + (bs.last() - 48)
    }
}

/// Reading one more digit multiplies the prefix value by ten and adds it.
proof fn lemma_decimal_take_step(bs: Seq<u8>, j: int)
    requires
        0 <= j < bs.len(),
    ensures
        decimal_val(bs.take(j + 1)) == decimal_val(bs.take(j)) * 10 + (bs[j] - 48),
{
    assert(bs.take(j + 1).drop_last() =~= bs.take(j));
    assert(bs.take(j + 1).last() == bs[j]);
}

/// Once a digit prefix exceeds a bound, the whole digit string does too:
/// appending digits never shrinks the value.
proof fn lemma_decimal_monotone(bs: Seq<u8>, j: int)
    requires
        0 <= j <= bs.len(),
        0 <= decimal_val(bs.take(j)),
        forall|k: int| j <= k < bs.len() ==> is_digit_byte(#[trigger] bs[k]),
    ensures
        decimal_val(bs) >= decimal_val(bs.take(j)),
        decimal_val(bs) >= 0,
    decreases bs.len() - j,
{
    if j == bs.len() {
        assert(bs.take(j) =~= bs);
    } else {
        lemma_decimal_take_step(bs, j);
        assert(decimal_val(bs.take(j + 1)) >= decimal_val(bs.take(j))) by (nonlinear_arith)
            requires
                decimal_val(bs.take(j + 1)) == decimal_val(bs.take(j)) * 10 + (bs[j] - 48),
                0 <= decimal_val(bs.take(j)),
                48 <= bs[j],
        ;
        lemma_decimal_monotone(bs, j + 1);
    }
}

/// The weight of a directed edge: a signed fixed-point trust propensity.
///
/// Positive values express trust, negative values express distrust, and the
/// magnitude is the relative strength.  A weight of zero carries no
/// transition mass, though zero-weight edges may be stored.  Callers that
/// think in fractional weights scale them to integers before handing them
/// to the engine.
pub type Weight = i64;

/// A node identifier: either a concrete integer id, or the distinguished
/// absent sentinel [`NodeId::Absent`].
///
/// The sentinel is distinct from every concrete id and is never accepted
/// where a concrete node is required: operations handed the sentinel fail
/// with [`crate::MeritRankError::InvalidNode`] rather than silently treating
/// it as a node.
#[derive(Debug, Clone, Copy, PartialEq, Eq, Hash, Structural)]
pub enum NodeId {
    /// The absent / uninitialized sentinel.
    Absent,
    /// A signed integer id.
    Int(i64),
    /// An unsigned integer id.
    UInt(u64),
}

/// The rank of a node id's variant in the canonical id order:
/// the sentinel sorts before every signed id, which sorts before every
/// unsigned id.
pub open spec fn node_class(v: NodeId) -> int {
    match v {
        NodeId::Absent => 0,
        NodeId::Int(_) => 1,
        NodeId::UInt(_) => 2,
    }
}

/// The canonical strict order on node ids: first by variant
/// ([`node_class`]), then by the integer value within the variant.
/// Rank listings use it to break ties deterministically.
pub open spec fn node_lt(a: NodeId, b: NodeId) -> bool {
    match (a, b) {
        (NodeId::Int(x), NodeId::Int(y)) => x < y,
        (NodeId::UInt(x), NodeId::UInt(y)) => x < y,
        _ => node_class(a) < node_class(b),
    }
}

impl NodeId {
    /// Whether this id is the absent sentinel.
    pub fn is_absent(&self) -> (r: bool)
        ensures
            r == (*self is Absent),
    {
        match self {
            NodeId::Absent => true,
            _ => false,
        }
    }

    /// Whether this id is a concrete (non-sentinel) id.
    pub fn is_concrete(&self) -> (r: bool)
        ensures
            r == !(*self is Absent),
    {
        !self.is_absent()
    }

    /// Reads a textual identifier as an unsigned node id: the whole string
    /// must be a non-empty run of decimal digits whose value fits in 64
    /// bits.
    ///
    /// Fails with [`MeritRankError::NodeIdParseError`] if and only if the
    /// string is empty, holds a non-digit byte, or spells a value above
    /// `u64::MAX`.
    pub fn parse(s: &str) -> (res: Result<NodeId, MeritRankError>)
        ensures
            match res {
                Ok(id) => {
                    &&& id == NodeId::UInt(decimal_val(s.spec_bytes()) as u64)
                    &&& s.spec_bytes().len() > 0
                    &&& forall|k: int|
                        0 <= k < s.spec_bytes().len() ==> is_digit_byte(#[trigger] s.spec_bytes()[k])
                    &&& 0 <= decimal_val(s.spec_bytes()) <= u64::MAX
                },
                Err(e) => {
                    &&& e == MeritRankError::NodeIdParseError
                    &&& (s.spec_bytes().len() == 0 || (exists|k: int|
                        0 <= k < s.spec_bytes().len() && !is_digit_byte(
                            #[trigger] s.spec_bytes()[k],
                        )) || decimal_val(s.spec_bytes()) > u64::MAX)
                },
            },
    {
        let bs = s.as_bytes();
        let ghost bv = s.spec_bytes();
        if bs.len() == 0 {
            return Err(MeritRankError::NodeIdParseError);
        }
        let mut acc: u64 = 0;
        let mut j: usize = 0;
        while j < bs.len()
            invariant
                bs@ == bv,
                bv == s.spec_bytes(),
                bv.len() > 0,
                0 <= j <= bv.len(),
                forall|k: int| 0 <= k < j ==> is_digit_byte(#[trigger] bv[k]),
                acc == decimal_val(bv.take(j as int)),
            decreases bv.len() - j,
        {
            let b = bs[j];
            if b < 48 || b > 57 {
                proof {
                    assert(bv[j as int] == b);
                    assert(!is_digit_byte(bv[j as int]));
                }
                return Err(MeritRankError::NodeIdParseError);
            }
            let d = b - 48;
            if acc > (u64::MAX - (d as u64)) / 10 {
                // the prefix already spells a value past the 64-bit range
                proof {
                    lemma_decimal_take_step(bv, j as int);
                    assert(decimal_val(bv.take(j as int + 1)) > u64::MAX) by (nonlinear_arith)
                        requires
                            decimal_val(bv.take(j as int + 1)) == acc * 10 + d,
                            acc > (u64::MAX - d) / 10,
                            0 <= d <= 9,
                            0 <= acc,
                    ;
                    if forall|k: int|
                        j + 1 <= k < bv.len() ==> is_digit_byte(#[trigger] bv[k]) {
                        assert(0 <= decimal_val(bv.take(j as int + 1)));
                        lemma_decimal_monotone(bv, j as int + 1);
                        assert(decimal_val(bv) > u64::MAX);
                    } else {
                        let k = choose|k: int|
                            j + 1 <= k < bv.len() && !is_digit_byte(#[trigger] bv[k]);
                        assert(!is_digit_byte(bv[k]));
                    }
                }
                return Err(MeritRankError::NodeIdParseError);
            }
            proof {
                lemma_decimal_take_step(bv, j as int);
                assert(acc * 10 + d <= u64::MAX) by (nonlinear_arith)
                    requires
                        acc <= (u64::MAX - d) / 10,
                        0 <= d <= 9,
                        0 <= acc,
                ;
            }
            acc = acc * 10 + (d as u64);
            j = j + 1;
        }
        proof {
            assert(bv.take(bv.len() as int) =~= bv);
        }
        Ok(NodeId::UInt(acc))
    }

    /// Whether `self` comes strictly before `other` in the canonical id
    /// order.
    pub fn precedes(&self, other: &NodeId) -> (r: bool)
        ensures
            r == node_lt(*self, *other),
    {
        match (self, other) {
            (NodeId::Int(x), NodeId::Int(y)) => x < y,
            (NodeId::UInt(x), NodeId::UInt(y)) => x < y,
            (NodeId::Absent, NodeId::Absent) => false,
            (NodeId::Absent, _) => true,
            (NodeId::Int(_), NodeId::UInt(_)) => true,
            _ => false,
        }
    }
}

/// The canonical id order is total: of two distinct ids, exactly one
/// precedes the other, and no id precedes itself.
pub proof fn lemma_node_order_total(a: NodeId, b: NodeId)
    ensures
        a == b <==> !node_lt(a, b) && !node_lt(b, a),
        !(node_lt(a, b) && node_lt(b, a)),
{
}

/// The canonical id order is transitive.
pub proof fn lemma_node_order_trans(a: NodeId, b: NodeId, c: NodeId)
    requires
        node_lt(a, b),
        node_lt(b, c),
    ensures
        node_lt(a, c),
{
}

} // verus!
