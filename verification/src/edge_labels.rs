//! Labels of edge types in path rows.
use vstd::prelude::*;
use vstd::string::StringExecFns;

use crate::text::{decimal, decimal_text};
use crate::types::EdgeTypeId;

verus! {

/// Labels that take precedence over a registry.
#[derive(Debug)]
pub struct EdgeLabelTable {
    entries: Vec<(EdgeTypeId, String)>,
}

/// The first label that entries give to an edge type.
pub open spec fn first_label(entries: Seq<(EdgeTypeId, String)>, type_id: EdgeTypeId) -> Option<
    Seq<char>,
>
    decreases entries.len(),
{
    if entries.len() == 0 {
        None
    } else if entries[0].0 == type_id {
        Some(entries[0].1@)
    } else {
        first_label(entries.drop_first(), type_id)
    }
}

impl EdgeLabelTable {
    /// The labels, in order of precedence.
    pub closed spec fn entries(&self) -> Seq<(EdgeTypeId, String)> {
        self.entries@
    }

    /// A table of labels.
    pub fn new(entries: Vec<(EdgeTypeId, String)>) -> (table: Self)
        ensures
            table.entries() == entries@,
    {
        EdgeLabelTable { entries }
    }

    /// The first label of an edge type.
    pub fn lookup(&self, type_id: EdgeTypeId) -> (label: Option<String>)
        ensures
            match first_label(self.entries(), type_id) {
                Some(text) => label matches Some(value) && value@ == text,
                None => label is None,
            },
    {
        let mut at: usize = 0;
        proof {
            assert(self.entries@.skip(0) =~= self.entries@);
        }
        while at < self.entries.len()
            invariant
                at <= self.entries@.len(),
                first_label(self.entries(), type_id) == first_label(
                    self.entries@.skip(at as int),
                    type_id,
                ),
            decreases self.entries@.len() - at,
        {
            proof {
                assert(self.entries@.skip(at as int).drop_first() =~= self.entries@.skip(at + 1));
            }
            if self.entries[at].0 == type_id {
                return Some(self.entries[at].1.clone());
            }
            at = at + 1;
        }
        None
    }
}

/// Where the labels of path rows come from.
#[derive(Debug, Clone, Copy)]
pub struct EdgeTypeLabels<'a> {
    pub registry: &'a [String],
    pub resolver: Option<&'a EdgeLabelTable>,
}

impl<'a> EdgeTypeLabels<'a> {
    /// The label of an edge type: the resolver's, else the registry's, else
    /// one made of its number.
    pub open spec fn label(&self, type_id: EdgeTypeId) -> Seq<char> {
        match self.resolved(type_id) {
            Some(text) => text,
            None => if type_id.0 < self.registry@.len() {
                self.registry@[type_id.0 as int]@
            } else {
                "type_"@ + decimal(type_id.0 as nat)
            },
        }
    }

    /// The resolver's label.
    pub open spec fn resolved(&self, type_id: EdgeTypeId) -> Option<Seq<char>> {
        match self.resolver {
            Some(table) => first_label(table.entries(), type_id),
            None => None,
        }
    }
}

/// The label of an edge type.
pub fn resolve_edge_type_label(labels: EdgeTypeLabels<'_>, type_id: EdgeTypeId) -> (label: String)
    ensures
        label@ == labels.label(type_id),
{
    if let Some(table) = labels.resolver {
        if let Some(label) = table.lookup(type_id) {
            return label;
        }
    }
    if (type_id.get() as usize) < labels.registry.len() {
        return labels.registry[type_id.get() as usize].clone();
    }
    "type_".to_owned().concat(decimal_text(type_id.get() as u64).as_str())
}

} // verus!
