use vstd::prelude::*;
use vstd::string::StringExecFns;
use crate::text::{decimal, signed_decimal, push_decimal, push_signed};

verus! {

/// Error of the ring-buffer stack.
#[derive(Debug, Clone, PartialEq, Eq)]
pub enum StackError {
    InvalidCapacity { capacity: usize },
}

/// Error of the ring-buffer queue.
#[derive(Debug, Clone, PartialEq, Eq)]
pub enum QueueError {
    InvalidCapacity { capacity: usize },
    InsufficientCapacity { current_size: usize, requested_capacity: usize },
}

/// Error of the history container.
#[derive(Debug, Clone, PartialEq, Eq)]
pub enum HistoryError {
    InvalidCapacity { capacity: usize },
}

/// Error of the trie.
#[derive(Debug, Clone, PartialEq, Eq)]
pub enum TrieError {
    InvalidSigmaSize { sigma_size: usize },
    InvalidRange { start: usize, end: usize, len: usize },
    IndexOutOfRange { index: usize, sigma_size: usize },
    NodeOverflow { max_nodes: usize },
    CapacityOverflow { requested_nodes: usize, sigma_size: usize },
}

impl StackError {
    /// The error's message.
    pub open spec fn message(&self) -> Seq<char> {
        match *self {
            StackError::InvalidCapacity { capacity } => "[CircularStack] capacity is expected to be a positive integer, but got ("@ + decimal(capacity as nat) + ")."@,
        }
    }

    /// The error's message as a string.
    pub fn to_string(&self) -> (s: String)
        ensures
            s@ == self.message(),
    {
        match self {
            StackError::InvalidCapacity { capacity } => {
                let mut s = String::from_str("[CircularStack] capacity is expected to be a positive integer, but got (");
                push_decimal(&mut s, *capacity as u64);
                s.append(").");
                s
            },
        }
    }
}

impl QueueError {
    /// The error's message.
    pub open spec fn message(&self) -> Seq<char> {
        match *self {
            QueueError::InvalidCapacity { capacity } => "[CircularQueue] capacity is expected to be a positive integer, but got ("@ + decimal(capacity as nat) + ")."@,
            QueueError::InsufficientCapacity { current_size, requested_capacity } => "[CircularQueue] failed to resize, the new queue space is insufficient. current size ("@ + decimal(current_size as nat) + "), requested capacity ("@ + decimal(requested_capacity as nat) + ")."@,
        }
    }

    /// The error's message as a string.
    pub fn to_string(&self) -> (s: String)
        ensures
            s@ == self.message(),
    {
        match self {
            QueueError::InvalidCapacity { capacity } => {
                let mut s = String::from_str("[CircularQueue] capacity is expected to be a positive integer, but got (");
                push_decimal(&mut s, *capacity as u64);
                s.append(").");
                s
            },
            QueueError::InsufficientCapacity { current_size, requested_capacity } => {
                let mut s = String::from_str("[CircularQueue] failed to resize, the new queue space is insufficient. current size (");
                push_decimal(&mut s, *current_size as u64);
                s.append("), requested capacity (");
                push_decimal(&mut s, *requested_capacity as u64);
                s.append(").");
                s
            },
        }
    }
}

impl HistoryError {
    /// The error's message.
    pub open spec fn message(&self) -> Seq<char> {
        match *self {
            HistoryError::InvalidCapacity { capacity } => "[History] capacity is expected to be a positive integer, but got ("@ + decimal(capacity as nat) + ")."@,
        }
    }

    /// The error's message as a string.
    pub fn to_string(&self) -> (s: String)
        ensures
            s@ == self.message(),
    {
        match self {
            HistoryError::InvalidCapacity { capacity } => {
                let mut s = String::from_str("[History] capacity is expected to be a positive integer, but got (");
                push_decimal(&mut s, *capacity as u64);
                s.append(").");
                s
            },
        }
    }
}

impl TrieError {
    /// The error's message.
    pub open spec fn message(&self) -> Seq<char> {
        match *self {
            TrieError::InvalidSigmaSize { sigma_size } => "[Trie] sigma_size is expected to be a positive integer, but got ("@ + decimal(sigma_size as nat) + ")."@,
            TrieError::InvalidRange { start, end, len } => "[Trie] invalid range ["@ + decimal(start as nat) + ", "@ + decimal(end as nat) + ") for sequence length ("@ + decimal(len as nat) + ")."@,
            TrieError::IndexOutOfRange { index, sigma_size } => "[Trie] mapped index ("@ + decimal(index as nat) + ") is out of range [0, "@ + decimal(sigma_size as nat) + ")."@,
            TrieError::NodeOverflow { max_nodes } => "[Trie] node index overflow, maximum supported nodes is ("@ + decimal(max_nodes as nat) + ")."@,
            TrieError::CapacityOverflow { requested_nodes, sigma_size } => "[Trie] capacity overflow for nodes ("@ + decimal(requested_nodes as nat) + ") with sigma_size ("@ + decimal(sigma_size as nat) + ")."@,
        }
    }

    /// The error's message as a string.
    pub fn to_string(&self) -> (s: String)
        ensures
            s@ == self.message(),
    {
        match self {
            TrieError::InvalidSigmaSize { sigma_size } => {
                let mut s = String::from_str("[Trie] sigma_size is expected to be a positive integer, but got (");
                push_decimal(&mut s, *sigma_size as u64);
                s.append(").");
                s
            },
            TrieError::InvalidRange { start, end, len } => {
                let mut s = String::from_str("[Trie] invalid range [");
                push_decimal(&mut s, *start as u64);
                s.append(", ");
                push_decimal(&mut s, *end as u64);
                s.append(") for sequence length (");
                push_decimal(&mut s, *len as u64);
                s.append(").");
                s
            },
            TrieError::IndexOutOfRange { index, sigma_size } => {
                let mut s = String::from_str("[Trie] mapped index (");
                push_decimal(&mut s, *index as u64);
                s.append(") is out of range [0, ");
                push_decimal(&mut s, *sigma_size as u64);
                s.append(").");
                s
            },
            TrieError::NodeOverflow { max_nodes } => {
                let mut s = String::from_str("[Trie] node index overflow, maximum supported nodes is (");
                push_decimal(&mut s, *max_nodes as u64);
                s.append(").");
                s
            },
            TrieError::CapacityOverflow { requested_nodes, sigma_size } => {
                let mut s = String::from_str("[Trie] capacity overflow for nodes (");
                push_decimal(&mut s, *requested_nodes as u64);
                s.append(") with sigma_size (");
                push_decimal(&mut s, *sigma_size as u64);
                s.append(").");
                s
            },
        }
    }
}


} // verus!
