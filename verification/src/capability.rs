//! Capabilities an operation declares, and the static policy that decides
//! them per actor. Release 0 ships exactly one actor, `cli_local`; an unknown
//! actor is deny-all. `Prompt` is declared but has no interactive path, so
//! callers render it as a structured refusal.

use vstd::prelude::*;

use crate::text::{chars_equal, chars_of};

verus! {

#[derive(Clone, Copy, PartialEq, Eq, Debug, Hash, Structural)]
pub enum Capability {
    ProjectRead,
    ProjectWrite,
    DestructiveDelete,
    FilesystemRead,
    FilesystemWrite,
    NetworkCall,
    SecretsRead,
    AssetImport,
    AssetGenerateRemote,
    RuntimeLaunch,
    BundleWrite,
}

/// The policy decision for an (actor, capability) pair.
#[derive(Clone, Copy, PartialEq, Eq, Debug, Structural)]
pub enum Decision {
    Allow,
    Prompt,
    Deny,
}

/// The one actor Release 0 knows.
pub open spec fn cli_local() -> Seq<char> {
    "cli_local"@
}

/// The policy table: `cli_local` may read and write the project, must be
/// prompted for a destructive delete, and is denied everything else; any
/// other actor is denied everything.
pub open spec fn policy_decision(actor: Seq<char>, capability: Capability) -> Decision {
    if actor == cli_local() {
        match capability {
            Capability::ProjectRead | Capability::ProjectWrite => Decision::Allow,
            Capability::DestructiveDelete => Decision::Prompt,
            _ => Decision::Deny,
        }
    } else {
        Decision::Deny
    }
}

/// The wire name of a capability.
pub open spec fn capability_name(c: Capability) -> Seq<char> {
    match c {
        Capability::ProjectRead => "project.read"@,
        Capability::ProjectWrite => "project.write"@,
        Capability::DestructiveDelete => "destructive.delete"@,
        Capability::FilesystemRead => "filesystem.read"@,
        Capability::FilesystemWrite => "filesystem.write"@,
        Capability::NetworkCall => "network.call"@,
        Capability::SecretsRead => "secrets.read"@,
        Capability::AssetImport => "asset.import"@,
        Capability::AssetGenerateRemote => "asset.generate-remote"@,
        Capability::RuntimeLaunch => "runtime.launch"@,
        Capability::BundleWrite => "bundle.write"@,
    }
}

/// The static capability policy: a table keyed by actor.
pub struct Policy;

impl Policy {
    pub fn resolve(actor: &str, capability: Capability) -> (res: Decision)
        ensures
            res == policy_decision(actor@, capability),
    {
        let known = chars_equal(&chars_of(actor), &chars_of("cli_local"));
        if known {
            match capability {
                Capability::ProjectRead | Capability::ProjectWrite => Decision::Allow,
                Capability::DestructiveDelete => Decision::Prompt,
                _ => Decision::Deny,
            }
        } else {
            Decision::Deny
        }
    }
}

impl Capability {
    pub fn as_str(&self) -> (res: &'static str)
        ensures
            res@ == capability_name(*self),
    {
        match self {
            Capability::ProjectRead => "project.read",
            Capability::ProjectWrite => "project.write",
            Capability::DestructiveDelete => "destructive.delete",
            Capability::FilesystemRead => "filesystem.read",
            Capability::FilesystemWrite => "filesystem.write",
            Capability::NetworkCall => "network.call",
            Capability::SecretsRead => "secrets.read",
            Capability::AssetImport => "asset.import",
            Capability::AssetGenerateRemote => "asset.generate-remote",
            Capability::RuntimeLaunch => "runtime.launch",
            Capability::BundleWrite => "bundle.write",
        }
    }
}

/// An actor other than `cli_local` is refused every capability.
pub proof fn law_unknown_actor_denied_everything(actor: Seq<char>, capability: Capability)
    requires
        actor != cli_local(),
    ensures
        policy_decision(actor, capability) == Decision::Deny,
{
}

/// No capability is ever allowed without `cli_local` asking for it, and
/// only the two project capabilities are ever allowed.
pub proof fn law_only_project_access_is_allowed(actor: Seq<char>, capability: Capability)
    ensures
        policy_decision(actor, capability) == Decision::Allow <==> (actor == cli_local() && (
            capability == Capability::ProjectRead || capability == Capability::ProjectWrite)),
{
}

} // verus!
