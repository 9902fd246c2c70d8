//! Vocabulary for graph identity and lifecycle defaults.
use vstd::prelude::*;
use vstd::utf8::encode_utf8;

use crate::text::same_text;

verus! {

/// Name of the graph that is used when none is given.
pub const DEFAULT_GRAPH_NAME: &'static str = "default";

/// Namespace that is used when none is given.
pub const DEFAULT_GRAPH_NAMESPACE: &'static str = "public";

/// Identity of the default graph.
pub const DEFAULT_GRAPH_ID_TEXT: &'static str = "00000000-0000-0000-0000-000000000001";

/// Ownership and scope classes of graphs.
pub const GRAPH_KINDS: [&'static str; 5] = ["global", "user", "tenant", "workspace", "subgraph"];

/// Residency policies of backends.
pub const RESIDENCY_POLICIES: [&'static str; 3] = ["hot", "warm", "cold"];

/// Physical materialization policies.
pub const MATERIALIZATION_POLICIES: [&'static str; 2] = ["shared", "dedicated"];

/// Projection modes.
pub const PROJECTION_MODES: [&'static str; 2] = ["csr_readonly", "mutable_overlay"];

/// Statuses of durable jobs.
pub const JOB_STATUSES: [&'static str; 4] = ["queued", "running", "completed", "failed"];

/// Phases that long-running jobs report.
pub const JOB_PROGRESS_PHASES: [&'static str; 8] = [
    "queued",
    "starting",
    "reading_catalog",
    "scanning_source",
    "building_projection",
    "persisting",
    "completed",
    "failed",
];

/// Statuses of failed graph and projection validation.
pub const FAILURE_STATUSES: [&'static str; 5] = [
    "missing",
    "stale",
    "invalid",
    "corrupt",
    "blocked",
];

/// Seconds between wakeups of the durable scheduler.
pub const DEFAULT_SCHEDULER_WAKE_INTERVAL_SECS: i32 = 60;

/// Durable jobs that one scheduler run may claim.
pub const DEFAULT_SCHEDULER_BATCH_SIZE: i32 = 64;

/// Attempts of an idempotent job.
pub const DEFAULT_JOB_MAX_ATTEMPTS: i32 = 3;

/// Graphs per owner.
pub const DEFAULT_OWNER_GRAPH_QUOTA: i32 = 128;

/// Graphs per tenant.
pub const DEFAULT_TENANT_GRAPH_QUOTA: i32 = 512;

/// Graphs that a backend keeps loaded.
pub const DEFAULT_BACKEND_LOADED_GRAPH_LIMIT: i32 = 1;

/// Whether a word is in a vocabulary.
pub open spec fn listed(words: Seq<&str>, word: Seq<char>) -> bool {
    exists|i: int| 0 <= i < words.len() && (#[trigger] words[i])@ == word
}

/// Whether a word is in a vocabulary.
fn contains_policy_value(words: &[&'static str], word: &str) -> (found: bool)
    ensures
        found == listed(words@, word@),
{
    let mut at: usize = 0;
    while at < words.len()
        invariant
            at <= words@.len(),
            forall|i: int| 0 <= i < at ==> (#[trigger] words@[i])@ != word@,
        decreases words@.len() - at,
    {
        if same_text(words[at], word) {
            assert(words@[at as int]@ == word@);
            return true;
        }
        at = at + 1;
    }
    false
}

/// Whether a word is a graph kind.
pub fn is_graph_kind(value: &str) -> (found: bool)
    ensures
        found == (value@ == "global"@
            || value@ == "user"@
            || value@ == "tenant"@
            || value@ == "workspace"@
            || value@ == "subgraph"@),
        found == listed(GRAPH_KINDS@, value@),
{
    let found: bool = contains_policy_value(GRAPH_KINDS.as_slice(), value);
    proof {
        assert(GRAPH_KINDS@.len() == 5);
        assert(GRAPH_KINDS@[0]@ == "global"@);
        assert(GRAPH_KINDS@[1]@ == "user"@);
        assert(GRAPH_KINDS@[2]@ == "tenant"@);
        assert(GRAPH_KINDS@[3]@ == "workspace"@);
        assert(GRAPH_KINDS@[4]@ == "subgraph"@);
    }
    found
}

/// Whether a word is a residency policy.
pub fn is_residency_policy(value: &str) -> (found: bool)
    ensures
        found == (value@ == "hot"@
            || value@ == "warm"@
            || value@ == "cold"@),
        found == listed(RESIDENCY_POLICIES@, value@),
{
    let found: bool = contains_policy_value(RESIDENCY_POLICIES.as_slice(), value);
    proof {
        assert(RESIDENCY_POLICIES@.len() == 3);
        assert(RESIDENCY_POLICIES@[0]@ == "hot"@);
        assert(RESIDENCY_POLICIES@[1]@ == "warm"@);
        assert(RESIDENCY_POLICIES@[2]@ == "cold"@);
    }
    found
}

/// Whether a word is a materialization policy.
pub fn is_materialization_policy(value: &str) -> (found: bool)
    ensures
        found == (value@ == "shared"@
            || value@ == "dedicated"@),
        found == listed(MATERIALIZATION_POLICIES@, value@),
{
    let found: bool = contains_policy_value(MATERIALIZATION_POLICIES.as_slice(), value);
    proof {
        assert(MATERIALIZATION_POLICIES@.len() == 2);
        assert(MATERIALIZATION_POLICIES@[0]@ == "shared"@);
        assert(MATERIALIZATION_POLICIES@[1]@ == "dedicated"@);
    }
    found
}

/// Whether a word is a projection mode.
pub fn is_projection_mode(value: &str) -> (found: bool)
    ensures
        found == (value@ == "csr_readonly"@
            || value@ == "mutable_overlay"@),
        found == listed(PROJECTION_MODES@, value@),
{
    let found: bool = contains_policy_value(PROJECTION_MODES.as_slice(), value);
    proof {
        assert(PROJECTION_MODES@.len() == 2);
        assert(PROJECTION_MODES@[0]@ == "csr_readonly"@);
        assert(PROJECTION_MODES@[1]@ == "mutable_overlay"@);
    }
    found
}

/// Graph identifier: canonical UUID text.
#[derive(Debug, PartialEq, Eq, Hash)]
pub struct GraphId(String);

/// Why a graph identifier was refused.
#[derive(Debug, Clone, Copy, PartialEq, Eq, Structural)]
pub enum GraphIdentityError {
    /// The text is no canonical UUID.
    InvalidUuid,
}

impl GraphIdentityError {
    /// The message of the error.
    pub fn message(&self) -> (text: &'static str)
        ensures
            text@ == "graph id must be canonical UUID text"@,
    {
        "graph id must be canonical UUID text"
    }
}

/// Whether a byte may stand at a position of canonical UUID text: a dash at the
/// four group borders, a digit or small letter up to `f` elsewhere.
pub open spec fn uuid_byte(at: int, byte: u8) -> bool {
    if at == 8 || at == 13 || at == 18 || at == 23 {
        byte == 0x2d
    } else {
        0x30 <= byte <= 0x39 || 0x61 <= byte <= 0x66
    }
}

/// Whether text is a canonical UUID.
pub open spec fn canonical_uuid(text: Seq<char>) -> bool {
    let bytes = encode_utf8(text);
    &&& bytes.len() == 36
    &&& forall|i: int| 0 <= i < 36 ==> uuid_byte(i, #[trigger] bytes[i])
}

/// Whether text is a canonical UUID.
pub fn is_canonical_uuid(value: &str) -> (result: bool)
    ensures
        result == canonical_uuid(value@),
{
    let bytes: &[u8] = value.as_bytes();
    if bytes.len() != 36 {
        return false;
    }
    let mut at: usize = 0;
    while at < 36
        invariant
            at <= 36,
            bytes@ == encode_utf8(value@),
            bytes@.len() == 36,
            forall|i: int| 0 <= i < at ==> uuid_byte(i, #[trigger] bytes@[i]),
        decreases 36 - at,
    {
        let byte: u8 = bytes[at];
        let accepted: bool = if at == 8 || at == 13 || at == 18 || at == 23 {
            byte == 0x2d
        } else {
            (0x30 <= byte && byte <= 0x39) || (0x61 <= byte && byte <= 0x66)
        };
        if !accepted {
            assert(!uuid_byte(at as int, bytes@[at as int]));
            return false;
        }
        at = at + 1;
    }
    true
}

impl View for GraphId {
    type V = Seq<char>;

    closed spec fn view(&self) -> Seq<char> {
        self.0@
    }
}

impl GraphId {
    /// Accepts canonical UUID text.
    pub fn parse(value: &str) -> (result: Result<Self, GraphIdentityError>)
        ensures
            result is Ok <==> canonical_uuid(value@),
            result matches Ok(id) ==> id@ == value@,
            result matches Err(error) ==> error == GraphIdentityError::InvalidUuid,
    {
        if is_canonical_uuid(value) {
            Ok(GraphId(value.to_owned()))
        } else {
            Err(GraphIdentityError::InvalidUuid)
        }
    }

    /// The canonical UUID text.
    pub fn as_str(&self) -> (text: &str)
        ensures
            text@ == self@,
    {
        self.0.as_str()
    }
}

} // verus!
