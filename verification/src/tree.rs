//! The prefix-code tree: leaves carry one symbol each, internal nodes own two
//! subtrees and carry the summed frequency of their leaves.

use vstd::prelude::*;

verus! {

/// The unit being frequency-counted and coded: one byte, or one 16-bit pair
/// of bytes. The variant is fixed for a whole compression run.
#[derive(Clone, Copy, Debug, PartialEq, Eq, Hash, Structural)]
pub enum Symbol {
    OneByte(u8),
    TwoBytes(u16),
}

/// The total order used to break frequency ties: pair symbols in value order
/// first, then byte symbols in value order. A run never mixes the two
/// variants, so only the order within one variant ever shows in a stream.
pub open spec fn symbol_rank(s: Symbol) -> int {
    match s {
        Symbol::TwoBytes(v) => v as int,
        Symbol::OneByte(b) => 65536 + b as int,
    }
}

/// One tree node: a leaf when both children are absent, an internal node when
/// both are present. An internal node inherits the symbol of its first
/// (lower-ordered) child for tie-breaking purposes only.
pub struct Node {
    pub frequency: u32,
    pub symbol: Symbol,
    pub left: Option<Box<Node>>,
    pub right: Option<Box<Node>>,
}

/// What `Node::new_parent` builds out of two subtrees.
pub open spec fn spec_parent(left: Node, right: Node) -> Node {
    Node {
        frequency: if left.frequency + right.frequency > u32::MAX {
            u32::MAX
        } else {
            (left.frequency + right.frequency) as u32
        },
        symbol: left.symbol,
        left: Some(Box::new(left)),
        right: Some(Box::new(right)),
    }
}

impl Node {
    /// A well-formed tree: every internal node has exactly two children.
    pub open spec fn wf(self) -> bool
        decreases self,
    {
        match (self.left, self.right) {
            (Option::None, Option::None) => true,
            (Option::Some(l), Option::Some(r)) => l.wf() && r.wf(),
            _ => false,
        }
    }

    pub open spec fn spec_is_leaf(self) -> bool {
        self.left is None && self.right is None
    }

    pub fn new(symbol: Symbol, frequency: u32) -> (r: Self)
        ensures
            r == (Node { frequency, symbol, left: Option::<Box<Node>>::None, right: Option::<
                Box<Node>,
            >::None }),
    {
        Self { frequency, symbol, left: None, right: None }
    }

    /// Merges two subtrees under a fresh internal node whose frequency is the
    /// sum of theirs (saturating at the counter width) and whose tie-break
    /// symbol is the first child's.
    pub fn new_parent(left: Node, right: Node) -> (r: Self)
        ensures
            r == spec_parent(left, right),
    {
        let frequency: u32 = if left.frequency > u32::MAX - right.frequency {
            u32::MAX
        } else {
            left.frequency + right.frequency
        };
        let symbol = left.symbol;
        Self { frequency, symbol, left: Some(Box::new(left)), right: Some(Box::new(right)) }
    }

    pub fn is_leaf(&self) -> (r: bool)
        ensures
            r == self.spec_is_leaf(),
    {
        self.left.is_none() && self.right.is_none()
    }
}

} // verus!
