use std::collections::BTreeMap;

use via::manifest::{ArtifactEntry, RunManifest, RunManifestV1, MANIFEST_VERSION};

fn v1_record() -> RunManifestV1 {
    let mut crate_versions = BTreeMap::new();
    crate_versions.insert("via-terrain".to_string(), "0.1.0".to_string());
    let mut artifacts = BTreeMap::new();
    artifacts.insert(
        "heights_cm".to_string(),
        ArtifactEntry { file: "heights_cm.vrast".to_string(), blake3: "aa".to_string() },
    );
    RunManifestV1 {
        stage: "terrain".to_string(),
        seed: 42,
        config: "{\"sea_level_m\":0.5}".to_string(),
        crate_versions,
        artifacts,
    }
}

#[test]
fn v1_manifests_migrate_transparently() {
    let m = RunManifest::from_v1(v1_record());
    assert_eq!(m.manifest_version, MANIFEST_VERSION);
    assert_eq!(m.seed, 42);
    let config: serde_json::Value = serde_json::from_str(m.stage_config("terrain").unwrap()).unwrap();
    assert_eq!(config["sea_level_m"].as_f64().unwrap(), 0.5);
    assert_eq!(m.stage("terrain").unwrap().artifacts["heights_cm"].file, "heights_cm.vrast");
    assert_eq!(m.stage("terrain").unwrap().artifacts.len(), 1);
    assert_eq!(m.stage("terrain").unwrap().crate_versions["via-terrain"], "0.1.0");
}

#[test]
fn a_new_manifest_is_current_and_empty() {
    let m = RunManifest::new(7);
    assert_eq!(m.manifest_version, 2);
    assert_eq!(m.seed, 7);
    assert!(m.stage("terrain").is_none());
    assert!(m.stage_config("terrain").is_none());
}

#[test]
fn stage_lookup_finds_the_named_record_only() {
    let mut m = RunManifest::from_v1(v1_record());
    let mut second = m.stages[0].1.clone();
    second.config = "{}".to_string();
    m.stages.push(("suitability.harbour".to_string(), second));
    assert_eq!(m.stage_config("suitability.harbour").unwrap(), "{}");
    assert_eq!(m.stage_config("terrain").unwrap(), "{\"sea_level_m\":0.5}");
    assert!(m.stage("suitability").is_none());
}
