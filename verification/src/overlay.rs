//! Overlay merge: applying one property file's values onto another.
//!
//! The overlay file's own comments and formatting are discarded; only its
//! resolved key/value pairs survive, applied to the base content as
//! mutations. The base file's formatting and comments are kept; on a key
//! collision the overlay's value wins; keys only the overlay holds are
//! appended at the base's tail. Nothing is written to disk: the caller
//! receives the merged content.

use vstd::prelude::*;

use crate::lines::split_lines_spec;
use crate::properties::Entries;
use crate::properties::Mutations;
use crate::properties::PropertiesMut;
use crate::properties::e_wf;
use crate::properties::lemma_m_find_is;
use crate::properties::render_spec;
use crate::properties::snapshot_entries;

verus! {

/// The key/value pairs of a listing as a mutation set: every pair becomes a
/// replacement mutation, in listing order.
pub open spec fn muts_of_entries(es: Entries) -> Mutations {
    Seq::new(es.len(), |i: int| (es[i].0, Some(es[i].1)))
}

/// Merges the overlay file's key/value pairs onto the base file's content:
/// the result is the base content rendered with one replacement mutation per
/// resolved overlay pair (duplicates in the overlay already folded, the last
/// occurrence winning).
pub fn overlay(base_content: &str, overlay_content: &str) -> (r: String)
    ensures
        r@ == render_spec(
            split_lines_spec(base_content@),
            muts_of_entries(snapshot_entries(split_lines_spec(overlay_content@))),
        ),
{
    // The merge works purely on the contents handed in, so the mutator
    // carries no path of its own.
    let mut merged = PropertiesMut::new("");
    let pairs = merged.get_hashmap_content(overlay_content);
    let ghost es = pairs@;
    let n = pairs.entries.len();
    let mut i: usize = 0;
    proof {
        assert(merged.muts() =~= muts_of_entries(es.take(0)));
    }
    while i < n
        invariant
            n == pairs.entries.len(),
            es == pairs@,
            e_wf(es),
            0 <= i <= n,
            merged.wf(),
            merged.muts() == muts_of_entries(es.take(i as int)),
        decreases n - i,
    {
        let ghost before = merged.muts();
        proof {
            assert(forall|j: int| 0 <= j < i ==> before[j].0 == es[j].0);
            assert(forall|j: int| 0 <= j < i ==> es[j].0 != es[i as int].0);
            lemma_m_find_is(before, es[i as int].0, i as int);
        }
        merged.set(pairs.entries[i].0.as_str(), pairs.entries[i].1.as_str());
        proof {
            assert(merged.muts() == before.push((es[i as int].0, Some(es[i as int].1))));
            assert(merged.muts() =~= muts_of_entries(es.take(i as int + 1)));
        }
        i = i + 1;
    }
    proof {
        assert(es.take(n as int) =~= es);
    }
    merged.get_mutated_content(base_content)
}

} // verus!
