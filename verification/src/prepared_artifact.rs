//! An artifact whose sections are given: bytes, the values of a run, or nothing.
use vstd::prelude::*;
use vstd::string::StringExecFns;

use crate::codec::push_bytes;
use crate::direct_sections::record_values;
use crate::errors::{internal, ErrorView, GraphError, GraphResult};
use crate::parts::{end_of, joined, lemma_ends_grow, lemma_joined_step};
use crate::persisted_build::{
    length_views, lengths_of, section_views, DirectArtifact, DirectArtifactMetadata, SECTION_COUNT,
};
use crate::run_records::{record_views, RunRecord, StagedRun};
use crate::text::{decimal, decimal_text};

verus! {

/// One section.
pub enum DirectSection<'a> {
    /// These bytes.
    Bytes(&'a [u8]),
    /// The values of a run, one after the other.
    Run(&'a StagedRun),
    /// Nothing.
    Empty,
}

impl DirectSection<'_> {
    /// What the section holds.
    pub open spec fn content(&self) -> Seq<u8> {
        match self {
            DirectSection::Bytes(bytes) => bytes@,
            DirectSection::Run(run) => joined(record_values(run@)),
            DirectSection::Empty => Seq::empty(),
        }
    }

    /// The length of the section, if eight bytes can hold it.
    pub fn planned_len(&self) -> (result: GraphResult<u64>)
        ensures
            match result {
                Ok(length) => length == self.content().len(),
                Err(error) => self.content().len() > u64::MAX && error@ == ErrorView::Internal(
                    "direct section length overflowed"@,
                ),
            },
    {
        match self {
            DirectSection::Bytes(bytes) => Ok(bytes.len() as u64),
            DirectSection::Run(run) => {
                let records: &Vec<RunRecord> = run.records();
                let ghost values = record_values(run@);
                let mut total: u64 = 0;
                let mut at: usize = 0;
                proof {
                    assert(values.take(0).len() == 0);
                }
                while at < records.len()
                    invariant
                        at <= records@.len() == values.len(),
                        record_views(records@) == run@,
                        values == record_values(run@),
                        total == end_of(values, at as int),
                        *self == DirectSection::Run(*run),
                    decreases records@.len() - at,
                {
                    proof {
                        assert(run@[at as int] == records@[at as int]@);
                        lemma_joined_step(values, at as int);
                        lemma_ends_grow(values, at + 1, values.len() as int);
                        assert(values.take(values.len() as int) =~= values);
                    }
                    total = match total.checked_add(records[at].value.len() as u64) {
                        Some(total) => total,
                        None => return Err(internal("direct section length overflowed")),
                    };
                    at = at + 1;
                }
                assert(values.take(at as int) =~= values);
                Ok(total)
            },
            DirectSection::Empty => Ok(0),
        }
    }

    /// The bytes of the section.
    pub fn emit(&self) -> (bytes: Vec<u8>)
        ensures
            bytes@ == self.content(),
    {
        let mut out: Vec<u8> = Vec::new();
        match self {
            DirectSection::Bytes(bytes) => {
                push_bytes(&mut out, bytes);
                assert(out@ =~= bytes@);
            },
            DirectSection::Run(run) => {
                let records: &Vec<RunRecord> = run.records();
                let ghost values = record_values(run@);
                let mut at: usize = 0;
                proof {
                    assert(joined(values.take(0)) =~= Seq::<u8>::empty());
                }
                while at < records.len()
                    invariant
                        at <= records@.len() == values.len(),
                        record_views(records@) == run@,
                        values == record_values(run@),
                        out@ == joined(values.take(at as int)),
                    decreases records@.len() - at,
                {
                    push_bytes(&mut out, records[at].value.as_slice());
                    proof {
                        assert(run@[at as int] == records@[at as int]@);
                        lemma_joined_step(values, at as int);
                    }
                    at = at + 1;
                }
                assert(values.take(at as int) =~= values);
            },
            DirectSection::Empty => {},
        }
        out
    }
}

/// An artifact of given sections.
pub struct DirectBuildArtifact<'a> {
    pub metadata: DirectArtifactMetadata,
    pub sections: Vec<DirectSection<'a>>,
}

/// What the given sections hold.
pub open spec fn contents(sections: Seq<DirectSection<'_>>) -> Seq<Seq<u8>> {
    Seq::new(sections.len(), |i: int| sections[i].content())
}

/// Why given sections are refused, if they are.
pub open spec fn prepared_error(artifact: DirectBuildArtifact<'_>) -> Option<Seq<char>> {
    let expected = (artifact.metadata.node_count as nat + 7) / 8;
    if artifact.sections@.len() != SECTION_COUNT {
        Some("direct artifact has another number of sections"@)
    } else if artifact.sections@[0] is Bytes && artifact.sections@[0].content().len() != expected {
        Some(
            "direct active bitmap has "@ + decimal(artifact.sections@[0].content().len())
                + " bytes, expected "@ + decimal(expected),
        )
    } else if artifact.metadata.forward_edge_count != artifact.metadata.inbound_edge_count {
        Some("forward and inbound direct edge counts differ"@)
    } else {
        None
    }
}

impl DirectBuildArtifact<'_> {
    /// Accepts an artifact with the right number of sections, an active bitmap
    /// of the right length, and equal edge counts.
    pub fn validate_shape(&self) -> (result: GraphResult<()>)
        ensures
            match prepared_error(*self) {
                Some(text) => result matches Err(error) && error@ == ErrorView::Internal(text),
                None => result is Ok,
            },
    {
        if self.sections.len() != SECTION_COUNT {
            return Err(internal("direct artifact has another number of sections"));
        }
        let expected: u64 = (self.metadata.node_count as u64 + 7) / 8;
        if let DirectSection::Bytes(bytes) = &self.sections[0] {
            if bytes.len() as u64 != expected {
                return Err(
                    GraphError::Internal(
                        "direct active bitmap has ".to_owned().concat(
                            decimal_text(bytes.len() as u64).as_str(),
                        ).concat(" bytes, expected ").concat(decimal_text(expected).as_str()),
                    ),
                );
            }
        }
        if self.metadata.forward_edge_count != self.metadata.inbound_edge_count {
            return Err(internal("forward and inbound direct edge counts differ"));
        }
        Ok(())
    }
}

/// Whether every section's length fits eight bytes.
pub open spec fn contents_fit(sections: Seq<DirectSection<'_>>) -> bool {
    forall|i: int| 0 <= i < sections.len() ==> (#[trigger] sections[i]).content().len() <= u64::MAX
}

/// Writes given sections.
pub fn write_prepared_artifact(artifact: &DirectBuildArtifact<'_>) -> (result: GraphResult<
    DirectArtifact,
>)
    ensures
        result is Ok <==> prepared_error(*artifact) is None && contents_fit(artifact.sections@),
        result matches Ok(written) ==> {
            &&& written.metadata == artifact.metadata
            &&& section_views(written.sections@) == contents(artifact.sections@)
            &&& length_views(written.section_lengths@) == lengths_of(contents(artifact.sections@))
        },
        result matches Err(error) ==> error@ == ErrorView::Internal(
            match prepared_error(*artifact) {
                Some(text) => text,
                None => "direct section length overflowed"@,
            },
        ),
{
    if let Err(error) = artifact.validate_shape() {
        return Err(error);
    }
    let mut lengths: Vec<u64> = Vec::new();
    let mut sections: Vec<Vec<u8>> = Vec::new();
    let mut at: usize = 0;
    while at < artifact.sections.len()
        invariant
            at <= artifact.sections@.len(),
            prepared_error(*artifact) is None,
            lengths@.len() == sections@.len() == at,
            forall|i: int|
                0 <= i < at ==> #[trigger] lengths@[i] == artifact.sections@[i].content().len(),
            forall|i: int|
                0 <= i < at ==> (#[trigger] sections@[i])@ == artifact.sections@[i].content(),
            forall|i: int|
                0 <= i < at ==> (#[trigger] artifact.sections@[i]).content().len() <= u64::MAX,
        decreases artifact.sections@.len() - at,
    {
        let length: u64 = match artifact.sections[at].planned_len() {
            Ok(length) => length,
            Err(error) => {
                assert(artifact.sections@[at as int].content().len() > u64::MAX);
                return Err(error);
            },
        };
        lengths.push(length);
        sections.push(artifact.sections[at].emit());
        at = at + 1;
    }
    proof {
        assert(section_views(sections@) =~= contents(artifact.sections@));
        assert(length_views(lengths@) =~= lengths_of(contents(artifact.sections@)));
    }
    Ok(DirectArtifact { metadata: artifact.metadata, section_lengths: lengths, sections })
}

} // verus!
