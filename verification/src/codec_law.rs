//! Where the bytes of a number stand, and what sums and sizes stop at.
use vstd::prelude::*;

use crate::codec::{be_bytes, le_bytes, lemma_be_len, lemma_le_len, lex_less, push_be, push_le};
use crate::limits::{hash_map_allocation_upper_bound, product, sum};
use crate::types::{PathStep, TraversalResult, WeightedPathStep};

verus! {

/// A number without its lowest bytes.
pub open spec fn shifted(value: nat, bytes: nat) -> nat
    decreases bytes,
{
    if bytes == 0 {
        value
    } else {
        shifted(value / 256, (bytes - 1) as nat)
    }
}

proof fn lemma_le_place(value: nat, width: nat, at: nat)
    requires
        at < width,
    ensures
        le_bytes(value, width)[at as int] == (shifted(value, at) % 256) as u8,
    decreases width,
{
    lemma_le_len(value / 256, (width - 1) as nat);
    if at > 0 {
        lemma_le_place(value / 256, (width - 1) as nat, (at - 1) as nat);
    }
}

proof fn lemma_be_place(value: nat, width: nat, at: nat)
    requires
        at < width,
    ensures
        be_bytes(value, width)[width - 1 - at] == (shifted(value, at) % 256) as u8,
    decreases width,
{
    lemma_be_len(value / 256, (width - 1) as nat);
    if at > 0 {
        lemma_be_place(value / 256, (width - 1) as nat, (at - 1) as nat);
    }
}

/// A number is written behind what is there, in as many bytes as are asked for:
/// the lowest first, or the lowest last.
pub proof fn law_numbers_are_written_byte_by_byte(
    low_first: &mut Vec<u8>,
    low_last: &mut Vec<u8>,
    value: u128,
    width: usize,
    at: nat,
)
    requires
        at < width,
        call_ensures(push_le, (low_first, value, width), ()),
        call_ensures(push_be, (low_last, value, width), ()),
    ensures
        ({
            let (before, after) = (old(low_first)@, final(low_first)@);
            &&& after.len() == before.len() + width
            &&& after.take(before.len() as int) == before
            &&& after[(before.len() + at) as int] == (shifted(value as nat, at) % 256) as u8
        }),
        ({
            let (before, after) = (old(low_last)@, final(low_last)@);
            &&& after.len() == before.len() + width
            &&& after.take(before.len() as int) == before
            &&& after[after.len() - 1 - at] == (shifted(value as nat, at) % 256) as u8
        }),
{
    lemma_le_len(value as nat, width as nat);
    lemma_be_len(value as nat, width as nat);
    lemma_le_place(value as nat, width as nat, at);
    lemma_be_place(value as nat, width as nat, at);
    assert(final(low_first)@.take(old(low_first)@.len() as int) =~= old(low_first)@);
    assert(final(low_last)@.take(old(low_last)@.len() as int) =~= old(low_last)@);
}

/// Byte strings are ordered by the first byte in which they differ, and one that
/// begins another comes first.
pub proof fn law_bytes_are_ordered_by_their_first_difference(
    common: Seq<u8>,
    left: Seq<u8>,
    right: Seq<u8>,
)
    ensures
        left.len() > 0 && right.len() > 0 && left[0] != right[0] ==> (lex_less(
            common + left,
            common + right,
        ) <==> left[0] < right[0]),
        right.len() > 0 ==> lex_less(common, common + right),
        !lex_less(common + right, common),
    decreases common.len(),
{
    if common.len() > 0 {
        let rest = common.drop_first();
        law_bytes_are_ordered_by_their_first_difference(rest, left, right);
        assert((common + left).drop_first() =~= rest + left);
        assert((common + right).drop_first() =~= rest + right);
    } else {
        assert(common + left =~= left);
        assert(common + right =~= right);
    }
}

/// Sums and products of sizes are exact as long as they fit, and the greatest size
/// where they do not. A hash map takes, for each entry that it has room for, the
/// entry and two bytes, and sixteen bytes more; without room it takes none.
pub proof fn law_sizes_stop_at_the_greatest(
    left: usize,
    right: usize,
    added: usize,
    multiplied: usize,
    map: usize,
)
    requires
        call_ensures(sum, (left, right), added),
        call_ensures(product, (left, right), multiplied),
        call_ensures(hash_map_allocation_upper_bound, (left, right), map),
    ensures
        left + right <= usize::MAX ==> added == left + right,
        left + right > usize::MAX ==> added == usize::MAX,
        left * right <= usize::MAX ==> multiplied == left * right,
        left * right > usize::MAX ==> multiplied == usize::MAX,
        left == 0 ==> map == 0,
        left > 0 && right + 2 <= usize::MAX && left * (right + 2) + 16 <= usize::MAX ==> map == left
            * (right + 2) + 16,
{
}

/// What rows say is what they hold.
pub proof fn law_rows_say_what_they_hold(
    step: PathStep,
    weighted: WeightedPathStep,
    row: TraversalResult,
    at: int,
)
    ensures
        step@.step == step.step && step@.node_table == step.node_table.0 && step@.node_id
            == step.node_id@,
        step.edge_label is None <==> step@.edge_label is None,
        step.edge_label matches Some(label) ==> step@.edge_label == Some(label@),
        weighted@.step == weighted.step && weighted@.node_table == weighted.node_table.0
            && weighted@.node_id == weighted.node_id@,
        weighted@.edge_weight == weighted.edge_weight && weighted@.step_cost == weighted.step_cost
            && weighted@.total_cost == weighted.total_cost,
        row@.node_table == row.node_table.0 && row@.node_id == row.node_id@ && row@.depth
            == row.depth,
        row@.path.len() == row.path@.len() && row@.edge_path.len() == row.edge_path@.len(),
        0 <= at < row.path@.len() ==> row@.path[at] == (
            row.path@[at].table_oid.0,
            row.path@[at].node_id@,
        ),
        0 <= at < row.edge_path@.len() ==> row@.edge_path[at] == row.edge_path@[at]@,
{
}

} // verus!
