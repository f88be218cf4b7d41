//! The operation contracts' plain parts: stability and mutability tags, the
//! request envelope, file changes, and the errors an operation reports.

use vstd::prelude::*;

use crate::capability::Capability;
use crate::ir::RelPath;
use crate::json::Json;

verus! {

#[derive(Clone, Copy, PartialEq, Eq, Debug, Structural)]
pub enum Stability {
    Stable,
    Experimental,
    Internal,
}

#[derive(Clone, Copy, PartialEq, Eq, Debug, Structural)]
pub enum Mutability {
    Read,
    Write,
    Destructive,
}

pub open spec fn mutability_name(m: Mutability) -> Seq<char> {
    match m {
        Mutability::Read => "read"@,
        Mutability::Write => "write"@,
        Mutability::Destructive => "destructive"@,
    }
}

/// The catalog word for a mutability: `read`, `write`, `destructive`.
pub fn mutability_str(m: Mutability) -> (res: &'static str)
    ensures
        res@ == mutability_name(m),
{
    match m {
        Mutability::Read => "read",
        Mutability::Write => "write",
        Mutability::Destructive => "destructive",
    }
}

/// What an operation can fail with; each carries its message.
#[derive(Clone, Debug, PartialEq)]
pub enum OpError {
    UnknownOp(String),
    InvalidRequest(String),
    Materialize(String),
    Diff(String),
    Apply(String),
}


/// The untrusted envelope a caller sends: which op, which version, the input
/// payload, and the actor requesting it.
#[derive(Debug)]
pub struct PlanRequest {
    pub op_id: String,
    pub op_version: u32,
    pub input: Json,
    pub actor: String,
}

/// One staged file state: `before = None` is a creation, `after = None` a
/// deletion.
#[derive(Debug)]
pub struct FileChange {
    pub path: RelPath,
    pub before: Option<Json>,
    pub after: Option<Json>,
}

/// The file changes a plan would make.
#[derive(Debug)]
pub struct Diff {
    pub changes: Vec<FileChange>,
}


/// An operation's catalog identity, with the capability and mutability it
/// declares.
#[derive(Clone, Debug, PartialEq)]
pub struct OpMeta {
    pub id: String,
    pub version: u32,
    pub capability: Capability,
    pub mutability: Mutability,
    pub summary: String,
}

} // verus!
