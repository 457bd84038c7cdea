//! Messages of the flow solvers' errors.
use vstd::prelude::*;
use vstd::string::StringExecFns;
use crate::text::{decimal, signed_decimal, push_decimal, push_signed};
use crate::dinic::DinicError;
use crate::isap::IsapError;
use crate::mcmf::McmfError;

verus! {

impl DinicError {
    /// The error's message.
    pub open spec fn message(&self) -> Seq<char> {
        match *self {
            DinicError::InvalidNodeCount { n } => "[Dinic] node count must be positive, but got ("@ + decimal(n as nat) + ")."@,
            DinicError::NodeOutOfRange { node, n } => "[Dinic] node ("@ + decimal(node as nat) + ") is out of range [0, "@ + decimal(n as nat) + ")."@,
            DinicError::SourceEqualsSink { node } => "[Dinic] source and sink must be different, but both are ("@ + decimal(node as nat) + ")."@,
            DinicError::NegativeCapacity { cap } => "[Dinic] edge capacity must be non-negative, but got ("@ + signed_decimal(cap as int) + ")."@,
            DinicError::NotInitialized => "[Dinic] algorithm is not initialized."@,
        }
    }

    /// The error's message as a string.
    pub fn to_string(&self) -> (s: String)
        ensures
            s@ == self.message(),
    {
        match self {
            DinicError::InvalidNodeCount { n } => {
                let mut s = String::from_str("[Dinic] node count must be positive, but got (");
                push_decimal(&mut s, *n as u64);
                s.append(").");
                s
            },
            DinicError::NodeOutOfRange { node, n } => {
                let mut s = String::from_str("[Dinic] node (");
                push_decimal(&mut s, *node as u64);
                s.append(") is out of range [0, ");
                push_decimal(&mut s, *n as u64);
                s.append(").");
                s
            },
            DinicError::SourceEqualsSink { node } => {
                let mut s = String::from_str("[Dinic] source and sink must be different, but both are (");
                push_decimal(&mut s, *node as u64);
                s.append(").");
                s
            },
            DinicError::NegativeCapacity { cap } => {
                let mut s = String::from_str("[Dinic] edge capacity must be non-negative, but got (");
                push_signed(&mut s, *cap);
                s.append(").");
                s
            },
            DinicError::NotInitialized => {
                let mut s = String::from_str("[Dinic] algorithm is not initialized.");
                s
            },
        }
    }
}


impl IsapError {
    /// The error's message.
    pub open spec fn message(&self) -> Seq<char> {
        match *self {
            IsapError::InvalidNodeCount { n } => "[Isap] node count must be positive, but got ("@ + decimal(n as nat) + ")."@,
            IsapError::NodeOutOfRange { node, n } => "[Isap] node ("@ + decimal(node as nat) + ") is out of range [0, "@ + decimal(n as nat) + ")."@,
            IsapError::SourceEqualsSink { node } => "[Isap] source and sink must be different, but both are ("@ + decimal(node as nat) + ")."@,
            IsapError::NegativeCapacity { cap } => "[Isap] edge capacity must be non-negative, but got ("@ + signed_decimal(cap as int) + ")."@,
            IsapError::NotInitialized => "[Isap] algorithm is not initialized."@,
        }
    }

    /// The error's message as a string.
    pub fn to_string(&self) -> (s: String)
        ensures
            s@ == self.message(),
    {
        match self {
            IsapError::InvalidNodeCount { n } => {
                let mut s = String::from_str("[Isap] node count must be positive, but got (");
                push_decimal(&mut s, *n as u64);
                s.append(").");
                s
            },
            IsapError::NodeOutOfRange { node, n } => {
                let mut s = String::from_str("[Isap] node (");
                push_decimal(&mut s, *node as u64);
                s.append(") is out of range [0, ");
                push_decimal(&mut s, *n as u64);
                s.append(").");
                s
            },
            IsapError::SourceEqualsSink { node } => {
                let mut s = String::from_str("[Isap] source and sink must be different, but both are (");
                push_decimal(&mut s, *node as u64);
                s.append(").");
                s
            },
            IsapError::NegativeCapacity { cap } => {
                let mut s = String::from_str("[Isap] edge capacity must be non-negative, but got (");
                push_signed(&mut s, *cap);
                s.append(").");
                s
            },
            IsapError::NotInitialized => {
                let mut s = String::from_str("[Isap] algorithm is not initialized.");
                s
            },
        }
    }
}


impl McmfError {
    /// The error's message.
    pub open spec fn message(&self) -> Seq<char> {
        match *self {
            McmfError::InvalidInf { inf } => "[Mcmf] inf must be positive, but got ("@ + signed_decimal(inf as int) + ")."@,
            McmfError::InvalidNodeCount { n } => "[Mcmf] node count must be positive, but got ("@ + decimal(n as nat) + ")."@,
            McmfError::NodeOutOfRange { node, n } => "[Mcmf] node ("@ + decimal(node as nat) + ") is out of range [0, "@ + decimal(n as nat) + ")."@,
            McmfError::SourceEqualsSink { node } => "[Mcmf] source and sink must be different, but both are ("@ + decimal(node as nat) + ")."@,
            McmfError::NegativeCapacity { cap } => "[Mcmf] edge capacity must be non-negative, but got ("@ + signed_decimal(cap as int) + ")."@,
            McmfError::NotInitialized => "[Mcmf] algorithm is not initialized."@,
        }
    }

    /// The error's message as a string.
    pub fn to_string(&self) -> (s: String)
        ensures
            s@ == self.message(),
    {
        match self {
            McmfError::InvalidInf { inf } => {
                let mut s = String::from_str("[Mcmf] inf must be positive, but got (");
                push_signed(&mut s, *inf);
                s.append(").");
                s
            },
            McmfError::InvalidNodeCount { n } => {
                let mut s = String::from_str("[Mcmf] node count must be positive, but got (");
                push_decimal(&mut s, *n as u64);
                s.append(").");
                s
            },
            McmfError::NodeOutOfRange { node, n } => {
                let mut s = String::from_str("[Mcmf] node (");
                push_decimal(&mut s, *node as u64);
                s.append(") is out of range [0, ");
                push_decimal(&mut s, *n as u64);
                s.append(").");
                s
            },
            McmfError::SourceEqualsSink { node } => {
                let mut s = String::from_str("[Mcmf] source and sink must be different, but both are (");
                push_decimal(&mut s, *node as u64);
                s.append(").");
                s
            },
            McmfError::NegativeCapacity { cap } => {
                let mut s = String::from_str("[Mcmf] edge capacity must be non-negative, but got (");
                push_signed(&mut s, *cap);
                s.append(").");
                s
            },
            McmfError::NotInitialized => {
                let mut s = String::from_str("[Mcmf] algorithm is not initialized.");
                s
            },
        }
    }
}


} // verus!
