//! The decision behind a schema update: which differences are accepted,
//! which are refused, and when the accepted ones force a full reindex of
//! all documents.

use vstd::prelude::*;
use crate::error::UnsupportedOperation;
use crate::schema::{diff, spec_schema_diff, Diff, Schema};

verus! {

/// What a list of schema differences means for the updater: the first
/// structural change is refused; property toggles are accepted, and a
/// toggle of `indexed` or `ranked` forces a full reindex.
pub open spec fn spec_schema_update_decision(diffs: Seq<Diff>) -> Result<
    bool,
    UnsupportedOperation,
>
    decreases diffs.len(),
{
    if diffs.len() == 0 {
        Ok(false)
    } else {
        match diffs[0] {
            Diff::IdentChange { .. } => Err(UnsupportedOperation::CannotUpdateSchemaIdentifier),
            Diff::AttrMove { .. } => Err(UnsupportedOperation::CannotReorderSchemaAttribute),
            Diff::NewAttr { .. } => Err(UnsupportedOperation::CannotIntroduceNewSchemaAttribute),
            Diff::RemovedAttr { .. } => Err(UnsupportedOperation::CannotRemoveSchemaAttribute),
            Diff::AttrPropsChange { name: _, before, after } => {
                let toggled = before.indexed != after.indexed || before.ranked != after.ranked;
                match spec_schema_update_decision(diffs.drop_first()) {
                    Ok(b) => Ok(b || toggled),
                    Err(e) => Err(e),
                }
            },
        }
    }
}

/// Decides a schema update against the schema already stored, if any.
///
/// `Ok(true)` means the update is accepted and every document must be
/// reindexed; `Ok(false)` means it is accepted as it is; an error names
/// the first unsupported change. With no stored schema every schema is
/// accepted without reindexing.
pub fn schema_update_decision(old_schema: Option<&Schema>, new_schema: &Schema) -> (r: Result<
    bool,
    UnsupportedOperation,
>)
    ensures
        match old_schema {
            None => r == Ok::<bool, UnsupportedOperation>(false),
            Some(prev) => r == spec_schema_update_decision(
                spec_schema_diff(
                    prev.identifier_string(),
                    prev.attrs_model(),
                    new_schema.identifier_string(),
                    new_schema.attrs_model(),
                ),
            ),
        },
{
    let prev = match old_schema {
        None => {
            return Ok(false);
        },
        Some(prev) => prev,
    };
    let diffs = diff(prev, new_schema);
    let ghost all = diffs@;
    let n = diffs.len();
    let mut need_full_reindexing = false;
    let mut i: usize = 0;
    proof {
        assert(all.skip(0) =~= all);
    }
    while i < n
        invariant
            0 <= i <= n,
            n == all.len(),
            all == diffs@,
            old_schema == Some(prev),
            all == spec_schema_diff(
                prev.identifier_string(),
                prev.attrs_model(),
                new_schema.identifier_string(),
                new_schema.attrs_model(),
            ),
            spec_schema_update_decision(all) == (match spec_schema_update_decision(
                all.skip(i as int),
            ) {
                Ok(b) => Ok::<bool, UnsupportedOperation>(b || need_full_reindexing),
                Err(e) => Err::<bool, UnsupportedOperation>(e),
            }),
        decreases n - i,
    {
        proof {
            assert(all.skip(i as int).drop_first() =~= all.skip(i as int + 1));
            assert(all.skip(i as int)[0] == all[i as int]);
        }
        match &diffs[i] {
            Diff::IdentChange { .. } => {
                return Err(UnsupportedOperation::CannotUpdateSchemaIdentifier);
            },
            Diff::AttrMove { .. } => {
                return Err(UnsupportedOperation::CannotReorderSchemaAttribute);
            },
            Diff::NewAttr { .. } => {
                return Err(UnsupportedOperation::CannotIntroduceNewSchemaAttribute);
            },
            Diff::RemovedAttr { .. } => {
                return Err(UnsupportedOperation::CannotRemoveSchemaAttribute);
            },
            Diff::AttrPropsChange { name: _, before, after } => {
                if after.indexed != before.indexed {
                    need_full_reindexing = true;
                }
                if after.ranked != before.ranked {
                    need_full_reindexing = true;
                }
            },
        }
        i = i + 1;
    }
    Ok(need_full_reindexing)
}

} // verus!
