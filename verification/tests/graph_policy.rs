//! Names, vocabularies and defaults of graphs.
use pggraph::graph_policy::{
    is_canonical_uuid, is_graph_kind, is_materialization_policy, is_projection_mode,
    is_residency_policy, GraphId, GraphIdentityError, DEFAULT_BACKEND_LOADED_GRAPH_LIMIT,
    DEFAULT_GRAPH_ID_TEXT, DEFAULT_GRAPH_NAME, DEFAULT_GRAPH_NAMESPACE, DEFAULT_JOB_MAX_ATTEMPTS,
    DEFAULT_OWNER_GRAPH_QUOTA, DEFAULT_SCHEDULER_BATCH_SIZE, DEFAULT_SCHEDULER_WAKE_INTERVAL_SECS,
    DEFAULT_TENANT_GRAPH_QUOTA, FAILURE_STATUSES, JOB_PROGRESS_PHASES, JOB_STATUSES,
};

#[test]
fn default_graph_identity_is_canonical_uuid() {
    let default_graph_id = GraphId::parse(DEFAULT_GRAPH_ID_TEXT).expect("default id is valid");
    assert_eq!(default_graph_id.as_str(), DEFAULT_GRAPH_ID_TEXT);
    assert_eq!(DEFAULT_GRAPH_NAME, "default");
    assert_eq!(DEFAULT_GRAPH_NAMESPACE, "public");
}

#[test]
fn policy_vocabularies_accept_only_known_values() {
    assert!(is_graph_kind("tenant"));
    assert!(is_residency_policy("hot"));
    assert!(is_materialization_policy("dedicated"));
    assert!(is_projection_mode("mutable_overlay"));

    assert!(!is_graph_kind("team"));
    assert!(!is_residency_policy("always_loaded"));
    assert!(!is_materialization_policy("physical"));
    assert!(!is_projection_mode("mutable"));
}

#[test]
fn graph_id_parser_rejects_non_canonical_values() {
    assert_eq!(
        GraphId::parse("not-a-uuid"),
        Err(GraphIdentityError::InvalidUuid)
    );
    assert_eq!(
        GraphId::parse("00000000-0000-0000-0000-00000000000A"),
        Err(GraphIdentityError::InvalidUuid)
    );
    assert_eq!(
        GraphId::parse("00000000-0000-0000-0000-000000000001"),
        Ok(GraphId::parse("00000000-0000-0000-0000-000000000001").unwrap())
    );
}

#[test]
fn job_scheduler_and_quota_defaults_are_single_sourced() {
    assert_eq!(JOB_STATUSES, ["queued", "running", "completed", "failed"]);
    assert!(JOB_PROGRESS_PHASES.contains(&"reading_catalog"));
    assert!(FAILURE_STATUSES.contains(&"corrupt"));
    assert_eq!(DEFAULT_SCHEDULER_WAKE_INTERVAL_SECS, 60);
    assert_eq!(DEFAULT_SCHEDULER_BATCH_SIZE, 64);
    assert_eq!(DEFAULT_JOB_MAX_ATTEMPTS, 3);
    assert_eq!(DEFAULT_OWNER_GRAPH_QUOTA, 128);
    assert_eq!(DEFAULT_TENANT_GRAPH_QUOTA, 512);
    assert_eq!(DEFAULT_BACKEND_LOADED_GRAPH_LIMIT, 1);
}

#[test]
fn canonical_ids_keep_their_text() {
    let text = "0123abcd-ef01-2345-6789-abcdef012345";
    assert!(is_canonical_uuid(text));
    assert_eq!(GraphId::parse(text).unwrap().as_str(), text);
    assert!(!is_canonical_uuid("0123abcd-ef01-2345-6789-abcdef01234"));
    assert!(!is_canonical_uuid("0123abcdaef01-2345-6789-abcdef012345"));
    assert!(!is_canonical_uuid(""));
    assert_eq!(
        GraphIdentityError::InvalidUuid.message(),
        "graph id must be canonical UUID text"
    );
}

#[test]
fn every_word_of_a_vocabulary_is_known() {
    for word in ["global", "user", "tenant", "workspace", "subgraph"] {
        assert!(is_graph_kind(word));
    }
    for word in ["hot", "warm", "cold"] {
        assert!(is_residency_policy(word));
    }
    for word in ["shared", "dedicated"] {
        assert!(is_materialization_policy(word));
    }
    for word in ["csr_readonly", "mutable_overlay"] {
        assert!(is_projection_mode(word));
    }
    assert!(!is_graph_kind("Global"));
    assert!(!is_projection_mode(""));
}
