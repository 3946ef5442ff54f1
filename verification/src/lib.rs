//! An append-only, hash-chained, evidence-carrying event ledger.
use vstd::prelude::*;
use crate::text::{concat, owned, u64_decimal, decimal};

pub mod text;
pub mod json;
pub mod hash;
pub mod event;
pub mod time;
pub mod fold;
pub mod ledger;
pub mod config;
pub mod commands;
pub mod render;

pub use event::{Envelope, Evidence, SCHEMA};
pub use fold::{Brief, BriefConfig, Health, LoopBrief, LoopState, LoopStatus};
pub use ledger::{Draft, Ledger, VerifyIssue, VerifyReport};
pub use hash::hash_bytes;

verus! {

/// Errors of the ledger kernel.
#[derive(Debug)]
pub enum KernelError {
    Io(String),
    Canonical(String),
    Parse { line: usize, msg: String },
    Validation(String),
    Locked,
    OpConflict(String),
    NotFound(String),
    Corrupt(String),
}

/// The content of a `KernelError`.
pub enum KernelErrorView {
    Io(Seq<char>),
    Canonical(Seq<char>),
    Parse { line: usize, msg: Seq<char> },
    Validation(Seq<char>),
    Locked,
    OpConflict(Seq<char>),
    NotFound(Seq<char>),
    Corrupt(Seq<char>),
}

impl View for KernelError {
    type V = KernelErrorView;

    open spec fn view(&self) -> KernelErrorView {
        match self {
            KernelError::Io(m) => KernelErrorView::Io(m@),
            KernelError::Canonical(m) => KernelErrorView::Canonical(m@),
            KernelError::Parse { line, msg } => KernelErrorView::Parse { line: *line, msg: msg@ },
            KernelError::Validation(m) => KernelErrorView::Validation(m@),
            KernelError::Locked => KernelErrorView::Locked,
            KernelError::OpConflict(m) => KernelErrorView::OpConflict(m@),
            KernelError::NotFound(m) => KernelErrorView::NotFound(m@),
            KernelError::Corrupt(m) => KernelErrorView::Corrupt(m@),
        }
    }
}

impl KernelErrorView {
    /// The human-readable text of the error.
    pub open spec fn message(self) -> Seq<char> {
        match self {
            KernelErrorView::Io(m) => "io error: "@ + m,
            KernelErrorView::Canonical(m) => "canonicalization error: "@ + m,
            KernelErrorView::Parse { line, msg } => "parse error at line "@ + decimal(line as nat) + ": "@ + msg,
            KernelErrorView::Validation(m) => "validation error: "@ + m,
            KernelErrorView::Locked => "ledger is locked by another process"@,
            KernelErrorView::OpConflict(m) => "operation key conflict: "@ + m,
            KernelErrorView::NotFound(m) => "not found: "@ + m,
            KernelErrorView::Corrupt(m) => "ledger corrupt: "@ + m,
        }
    }
}

impl KernelError {
    /// The human-readable text of the error.
    pub fn message(&self) -> (m: String)
        ensures
            m@ == self@.message(),
    {
        match self {
            KernelError::Io(m) => concat("io error: ", m.as_str()),
            KernelError::Canonical(m) => concat("canonicalization error: ", m.as_str()),
            KernelError::Parse { line, msg } => {
                let n = u64_decimal(*line as u64);
                let head = concat("parse error at line ", n.as_str());
                let head = concat(head.as_str(), ": ");
                let r = concat(head.as_str(), msg.as_str());
                assert(r@ =~= "parse error at line "@ + decimal(*line as nat) + ": "@ + msg@);
                r
            },
            KernelError::Validation(m) => concat("validation error: ", m.as_str()),
            KernelError::Locked => owned("ledger is locked by another process"),
            KernelError::OpConflict(m) => concat("operation key conflict: ", m.as_str()),
            KernelError::NotFound(m) => concat("not found: ", m.as_str()),
            KernelError::Corrupt(m) => concat("ledger corrupt: ", m.as_str()),
        }
    }
}

} // verus!
