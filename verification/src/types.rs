//! The types that the coders share.

use std::cmp::Ordering;
use vstd::prelude::*;

verus! {

/// The coder that builds the code table.
#[derive(Clone, Copy, Debug, PartialEq, Eq)]
pub enum CodeType {
    ShannonFano,
    Huffman,
}

/// How often each byte value occurs, and how many bytes were counted.
pub type FileStats = ([u64; 256], u64);

/// The bytes of a file and its full path.
pub type FileInfo = (Vec<u8>, String);

/// What to encode and how.
pub struct EncodingSettings {
    pub file_info: FileInfo,
    pub code_type: CodeType,
    /// The number of bits of a Hamming payload, where the body is to be
    /// protected by Hamming blocks.
    pub hamming_code_length: Option<u8>,
}

/// A byte and how often it occurs. The count stands for the probability of
/// the byte: the share of the count in the total.
pub type Probability = (u8, u64);

/// A byte and the weight it carries. Quantities are ordered by weight and,
/// where the weights are equal, by byte.
#[derive(Copy, Clone, Debug, PartialEq, Eq, Structural)]
pub struct Quantity {
    pub byte: u8,
    pub quantity: u128,
}

impl PartialOrd for Quantity {
    fn partial_cmp(&self, other: &Self) -> (result: Option<Ordering>) {
        if self.quantity < other.quantity {
            Some(Ordering::Less)
        } else if self.quantity > other.quantity {
            Some(Ordering::Greater)
        } else if self.byte < other.byte {
            Some(Ordering::Less)
        } else if self.byte > other.byte {
            Some(Ordering::Greater)
        } else {
            Some(Ordering::Equal)
        }
    }
}

impl vstd::std_specs::cmp::PartialOrdSpecImpl for Quantity {
    open spec fn obeys_partial_cmp_spec() -> bool {
        true
    }

    open spec fn partial_cmp_spec(&self, other: &Self) -> Option<Ordering> {
        if self.quantity < other.quantity {
            Some(Ordering::Less)
        } else if self.quantity > other.quantity {
            Some(Ordering::Greater)
        } else if self.byte < other.byte {
            Some(Ordering::Less)
        } else if self.byte > other.byte {
            Some(Ordering::Greater)
        } else {
            Some(Ordering::Equal)
        }
    }
}

/// A node of a binary tree that owns its subtrees.
#[derive(Debug)]
pub struct Node<T: Copy> {
    pub val: T,
    pub left: Option<Box<Node<T>>>,
    pub right: Option<Box<Node<T>>>,
}

impl<T: Copy> Node<T> {
    /// A node without subtrees.
    pub fn new(val: T) -> (node: Self)
        ensures
            node.val == val,
            node.left is None,
            node.right is None,
    {
        Self { val, left: None, right: None }
    }

    /// Makes `node` the left subtree, in place of what was there.
    pub fn push_left(&mut self, node: Node<T>)
        ensures
            final(self).val == old(self).val,
            final(self).left == Some(Box::new(node)),
            final(self).right == old(self).right,
    {
        self.left = Some(Box::new(node));
    }

    /// Makes `node` the right subtree, in place of what was there.
    pub fn push_right(&mut self, node: Node<T>)
        ensures
            final(self).val == old(self).val,
            final(self).left == old(self).left,
            final(self).right == Some(Box::new(node)),
    {
        self.right = Some(Box::new(node));
    }
}

} // verus!
