//! Modules and their manifests: the engine's own `systole.core` shell and
//! the RPG genre module `systole.rpg`.

use vstd::prelude::*;

use crate::ir::{PROJECT_SCHEMA, engine_version};

verus! {

/// A module's identity: id, version, schema number, and the modules it
/// depends on (id, version requirement).
#[derive(Clone, Debug, PartialEq)]
pub struct ModuleManifest {
    pub module_id: String,
    pub version: String,
    pub schema: u32,
    pub depends_on: Vec<(String, String)>,
}

/// The engine's own module shell, `systole.core`.
pub struct CoreModule;

impl CoreModule {
    pub fn manifest(&self) -> (res: ModuleManifest)
        ensures
            res.module_id@ == "systole.core"@,
            res.version@ == "0.1.0"@,
            res.schema == PROJECT_SCHEMA,
            res.depends_on@.len() == 0,
    {
        ModuleManifest {
            module_id: "systole.core".to_string(),
            version: engine_version(),
            schema: PROJECT_SCHEMA,
            depends_on: Vec::new(),
        }
    }
}

/// The genre module for top-down RPG authoring, `systole.rpg`.
pub struct RpgModule;

impl RpgModule {
    pub fn manifest(&self) -> (res: ModuleManifest)
        ensures
            res.module_id@ == "systole.rpg"@,
            res.version@ == "0.1.0"@,
            res.schema == 1,
            res.depends_on@.len() == 1,
            res.depends_on@[0].0@ == "systole.core"@,
            res.depends_on@[0].1@ == "*"@,
    {
        ModuleManifest {
            module_id: "systole.rpg".to_string(),
            version: engine_version(),
            schema: 1,
            depends_on: vec![("systole.core".to_string(), "*".to_string())],
        }
    }
}

} // verus!
