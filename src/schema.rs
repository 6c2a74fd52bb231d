//! The versioned schema: which parts each migration step creates, and how
//! the stored version is read.
use vstd::prelude::*;

use crate::filename::{is_digit, number_at};
use crate::model::SchemaItem;

verus! {

/// The schema version that `init` brings a catalog to.
pub const SCHEMA_VERSION: i64 = 2;

/// The metadata key under which the schema version is stored.
pub open spec fn version_key() -> Seq<char> {
    "schema_version"@
}

pub open spec fn all_digits(s: Seq<char>) -> bool {
    forall|i: int| 0 <= i < s.len() ==> #[trigger] is_digit(s[i])
}

/// The integer that `s` writes in decimal, with an optional sign, if it fits in an `i64`.
pub open spec fn decimal_i64(s: Seq<char>) -> Option<int> {
    let signed = s.len() > 0 && (s[0] == '+' || s[0] == '-');
    let digits = if signed {
        s.subrange(1, s.len() as int)
    } else {
        s
    };
    let magnitude = number_at(digits, 0, digits.len());
    let value = if signed && s[0] == '-' {
        -magnitude
    } else {
        magnitude
    };
    if digits.len() > 0 && all_digits(digits) && i64::MIN <= value <= i64::MAX {
        Some(value)
    } else {
        None
    }
}

/// What the first migration step creates.
pub open spec fn first_step() -> Seq<SchemaItem> {
    seq![SchemaItem::Clips, SchemaItem::Tags, SchemaItem::ClipTags, SchemaItem::Embeddings]
}

/// The tables that the second migration step creates; it also adds the
/// star column to the clips table.
pub open spec fn second_step() -> Seq<SchemaItem> {
    seq![
        SchemaItem::Collections,
        SchemaItem::CollectionClips,
        SchemaItem::SmartFolders,
        SchemaItem::Waveforms,
    ]
}

/// `schema` after creating each of `items` that it lacks, in order.
pub open spec fn created(schema: Seq<SchemaItem>, items: Seq<SchemaItem>) -> Seq<SchemaItem>
    decreases items.len(),
{
    if items.len() == 0 {
        schema
    } else {
        let s = created(schema, items.drop_last());
        if s.contains(items.last()) {
            s
        } else {
            s.push(items.last())
        }
    }
}

/// The migration steps that a catalog at stored version `version` still needs, in order.
pub open spec fn pending_steps(version: int) -> Seq<int> {
    if version < 1 {
        seq![1int, 2int]
    } else if version < 2 {
        seq![2int]
    } else {
        seq![]
    }
}

/// The migration steps that a catalog at stored version `version` still
/// needs, in increasing order.
pub fn pending_migrations(version: i64) -> (r: Vec<u32>)
    ensures
        r@.map_values(|s: u32| s as int) == pending_steps(version as int),
{
    let mut r: Vec<u32> = Vec::new();
    if version < 1 {
        r.push(1);
    }
    if version < 2 {
        r.push(2);
    }
    assert(r@.map_values(|s: u32| s as int) =~= pending_steps(version as int));
    r
}

} // verus!
