use vstd::prelude::*;

verus! {

/// A key of the table of scores: a position and a roll as two numbers.
pub type Key = (u128, u32);

/// A table of scores by position and roll, kept in a `hashbrown::HashMap`.
#[verifier::external_body]
pub struct Table {
    map: hashbrown::HashMap<Key, i64>,
}

/// What a table of scores holds: the score stored under each key.
pub uninterp spec fn scores_in(table: Table) -> Map<Key, i64>;

/// The table that holds no score.
pub open spec fn no_scores() -> Map<Key, i64> {
    Map::empty()
}

/// An empty table, made by `hashbrown::HashMap::new`.
#[verifier::external_body]
pub(crate) fn table_new() -> (table: Table)
    ensures
        scores_in(table) == no_scores(),
{
    Table { map: hashbrown::HashMap::new() }
}

/// `hashbrown::HashMap::get`: the score stored under `key`, if there is one.
#[verifier::external_body]
pub(crate) fn table_get(table: &Table, key: Key) -> (r: Option<i64>)
    ensures
        r == (if scores_in(*table).contains_key(key) {
            Some(scores_in(*table)[key])
        } else {
            None
        }),
{
    table.map.get(&key).copied()
}

/// `hashbrown::HashMap::insert`: afterwards `score` is stored under `key`,
/// in place of what was stored there, and the other keys are as before.
#[verifier::external_body]
pub(crate) fn table_insert(table: &mut Table, key: Key, score: i64)
    ensures
        scores_in(*final(table)) == scores_in(*old(table)).insert(key, score),
{
    table.map.insert(key, score);
}

} // verus!
