//! The run manifest and the migration of its version-1 shape.

use std::collections::BTreeMap;

use vstd::prelude::*;

use crate::text::str_eq;

verus! {

/// The manifest format version that this library writes.
pub const MANIFEST_VERSION: u32 = 2;

/// One artifact in a run directory: file name and content hash.
#[derive(Clone, Debug, PartialEq, Eq)]
pub struct ArtifactEntry {
    pub file: String,
    pub blake3: String,
}

/// One stage instance's record: its config echoed verbatim (as JSON
/// text), the crates that produced it, and its artifacts with content
/// hashes (the determinism witness).
#[derive(Clone, Debug)]
pub struct StageRecord {
    pub config: String,
    pub crate_versions: BTreeMap<String, String>,
    pub artifacts: BTreeMap<String, ArtifactEntry>,
}

/// The run manifest: the world seed and one record per stage instance,
/// keyed by the stage's output namespace ("terrain", "ecology",
/// "suitability.<label>"). No namespace occurs twice (see
/// [`RunManifest::stages_distinct`]).
#[derive(Clone, Debug)]
pub struct RunManifest {
    pub manifest_version: u32,
    /// The world seed (the terrain stage's; downstream stages are
    /// deterministic functions of the artifacts).
    pub seed: u64,
    pub stages: Vec<(String, StageRecord)>,
}

/// The version-1 shape, which carried a single stage.
#[derive(Clone, Debug)]
pub struct RunManifestV1 {
    pub stage: String,
    pub seed: u64,
    pub config: String,
    pub crate_versions: BTreeMap<String, String>,
    pub artifacts: BTreeMap<String, ArtifactEntry>,
}

impl RunManifest {
    /// No two records share a namespace.
    pub open spec fn stages_distinct(&self) -> bool {
        forall|i: int, j: int|
            0 <= i < j < self.stages@.len() ==> self.stages@[i].0@ != self.stages@[j].0@
    }

    /// An empty manifest of the current version for `seed`.
    pub fn new(seed: u64) -> (r: RunManifest)
        ensures
            r.manifest_version == MANIFEST_VERSION,
            r.seed == seed,
            r.stages@.len() == 0,
            r.stages_distinct(),
    {
        RunManifest { manifest_version: MANIFEST_VERSION, seed, stages: Vec::new() }
    }

    /// The record kept under the namespace `name`, if that stage ran.
    pub fn stage(&self, name: &str) -> (r: Option<&StageRecord>)
        ensures
            match r {
                Some(rec) => exists|i: int|
                    0 <= i < self.stages@.len() && self.stages@[i].0@ == name@ && *rec
                        == self.stages@[i].1 && forall|j: int|
                        0 <= j < i ==> self.stages@[j].0@ != name@,
                None => forall|i: int| 0 <= i < self.stages@.len() ==> self.stages@[i].0@ != name@,
            },
    {
        let mut i: usize = 0;
        while i < self.stages.len()
            invariant
                i <= self.stages@.len(),
                forall|j: int| 0 <= j < i ==> self.stages@[j].0@ != name@,
            decreases self.stages@.len() - i,
        {
            if str_eq(self.stages[i].0.as_str(), name) {
                return Some(&self.stages[i].1);
            }
            i = i + 1;
        }
        None
    }

    /// A stage instance's echoed config, if that stage ran.
    pub fn stage_config(&self, name: &str) -> (r: Option<&String>)
        ensures
            match r {
                Some(c) => exists|i: int|
                    0 <= i < self.stages@.len() && self.stages@[i].0@ == name@ && *c
                        == self.stages@[i].1.config && forall|j: int|
                        0 <= j < i ==> self.stages@[j].0@ != name@,
                None => forall|i: int| 0 <= i < self.stages@.len() ==> self.stages@[i].0@ != name@,
            },
    {
        match self.stage(name) {
            Some(rec) => Some(&rec.config),
            None => None,
        }
    }

    /// Migrates a version-1 record: its single stage becomes the one
    /// record of a current-version manifest, under the same seed.
    pub fn from_v1(v1: RunManifestV1) -> (r: RunManifest)
        ensures
            r.manifest_version == MANIFEST_VERSION,
            r.seed == v1.seed,
            r.stages@.len() == 1,
            r.stages@[0].0 == v1.stage,
            r.stages@[0].1.config == v1.config,
            r.stages@[0].1.crate_versions == v1.crate_versions,
            r.stages@[0].1.artifacts == v1.artifacts,
            r.stages_distinct(),
    {
        let RunManifestV1 { stage, seed, config, crate_versions, artifacts } = v1;
        let mut stages: Vec<(String, StageRecord)> = Vec::new();
        stages.push((stage, StageRecord { config, crate_versions, artifacts }));
        RunManifest { manifest_version: MANIFEST_VERSION, seed, stages }
    }
}

} // verus!
