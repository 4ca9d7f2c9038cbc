//! The transposition table: a hash map from positions to search results.

use vstd::prelude::*;
use rustc_hash::{FxBuildHasher, FxHashMap};
use crate::bot::nega_scout_bot::HMapGameInfo;
use crate::constants::MAX_NEGA_SCOUT_HASH_MAP_SIZE;

verus! {

#[verifier::external_type_specification]
#[verifier::external_body]
pub struct ExFxBuildHasher(FxBuildHasher);

/// What the table knows a position by: the masks of its pieces, of its
/// white pieces and of its kings, and whether white is to move.
pub type PositionKey = (u64, u64, u64, bool);

/// The transposition table.
pub type Table = FxHashMap<PositionKey, HMapGameInfo>;

/// Which entries stay when the table is thinned out.
#[derive(Clone, Copy, Debug)]
pub enum Retention {
    /// Those whose move number plus depth is at least this number.
    Horizon(i32),
    /// Those searched deeper than this depth.
    DeeperThan(i32),
}

impl Retention {
    /// Whether the entry stays.
    pub open spec fn keeps_spec(self, info: HMapGameInfo) -> bool {
        match self {
            Retention::Horizon(h) => info.move_n + info.depth >= h,
            Retention::DeeperThan(d) => info.depth > d,
        }
    }

    /// Whether the entry stays.
    pub fn keeps(&self, info: &HMapGameInfo) -> (r: bool)
        ensures
            r == self.keeps_spec(*info),
    {
        match self {
            Retention::Horizon(h) => {
                let sum: i64 = info.move_n as i64 + info.depth as i64;
                sum >= *h as i64
            },
            Retention::DeeperThan(d) => info.depth > *d,
        }
    }
}

/// The table without any entry.
pub open spec fn no_entries() -> Map<PositionKey, HMapGameInfo> {
    Map::empty()
}

/// The entries of `m` that stay under the rule `rule`.
pub open spec fn retained(
    m: Map<PositionKey, HMapGameInfo>,
    rule: Retention,
) -> Map<PositionKey, HMapGameInfo> {
    Map::new(
        |k: PositionKey| m.contains_key(k) && rule.keeps_spec(m[k]),
        |k: PositionKey| m[k],
    )
}

/// A table without entries, with room for `capacity` of them.
pub fn table_new(capacity: usize) -> (m: Table)
    requires
        capacity <= MAX_NEGA_SCOUT_HASH_MAP_SIZE,
    ensures
        m@ == no_entries(),
{
    let mut m: Table = Default::default();
    m.reserve(capacity);
    m
}

/// `HashMap::len`: the number of entries.
#[verifier::external_body]
pub(crate) fn table_len(m: &Table) -> (n: usize)
    ensures
        n == m@.dom().len(),
{
    m.len()
}

/// `HashMap::get`: the entry stored under `key`, if there is one.
///
/// The hasher of `rustc_hash` gives equal keys equal hashes and holds no
/// state of its own, so a key is found exactly if it was inserted.
#[verifier::external_body]
pub(crate) fn table_get(
    m: &Table,
    key: PositionKey,
) -> (r: Option<HMapGameInfo>)
    ensures
        r == (if m@.contains_key(key) {
            Some(m@[key])
        } else {
            None
        }),
{
    match m.get(&key) {
        Some(info) => Some(*info),
        None => None,
    }
}

/// `HashMap::insert`: afterwards `key` holds `info`, and every other key holds what it held.
#[verifier::external_body]
pub(crate) fn table_insert(
    m: &mut Table,
    key: PositionKey,
    info: HMapGameInfo,
)
    ensures
        final(m)@ == old(m)@.insert(key, info),
{
    m.insert(key, info);
}

/// `HashMap::retain`: afterwards the map holds exactly those of its
/// entries for which the rule answered that they stay.
#[verifier::external_body]
pub(crate) fn table_retain(
    m: &mut Table,
    rule: Retention,
)
    ensures
        final(m)@ == retained(old(m)@, rule),
{
    m.retain(|_, info| rule.keeps(info));
}

} // verus!
