//! The decisions of workload generation: which operations a group makes,
//! the checks a group must pass, and how each operation picks its keys from
//! the valid keys and writes its line.

use crate::format::{
    decimal, line_of_one, line_of_two, AsciiOperationFormatter, INSERT_TAG, POINT_DELETE_TAG,
    POINT_QUERY_TAG, RANGE_DELETE_TAG, RANGE_QUERY_TAG,
};
use crate::keyset::{
    copy_key, lemma_live_of_nonempty, lemma_swap_to_multiset, live_of, slots_in_order, Key, KeySet,
};
use crate::order::{key_le, keys_descending, keys_view};
use crate::random::{random_index, shuffle};
use crate::sorting::{sort_keys_descending, swap_items};
use rand_xoshiro::Xoshiro256Plus;
use vstd::prelude::*;

verus! {

/// The kinds of operation, in the order in which a group lists them.
#[derive(Clone, Copy, Debug, PartialEq, Eq, PartialOrd, Ord, Structural)]
pub enum Op {
    Insert,
    Update,
    Merge,
    PointDelete,
    PointDeleteEmpty,
    RangeDelete,
    PointQuery,
    EmptyPointQuery,
    RangeQuery,
}

/// How keys are selected for the operations that pick valid keys.
#[derive(Clone, Copy, Debug, PartialEq, Eq, Structural)]
pub enum KeyDistribution {
    /// Every valid key alike.
    Uniform,
}

impl Default for KeyDistribution {
    /// Uniform selection.
    fn default() -> (r: Self)
        ensures
            r == KeyDistribution::Uniform,
    {
        KeyDistribution::Uniform
    }
}

/// How a range is given.
#[derive(Clone, Copy, Debug, PartialEq, Eq, Structural)]
pub enum RangeFormat {
    /// The start key and the number of keys to scan.
    StartCount,
    /// The start key and the end key.
    StartEnd,
}

impl Default for RangeFormat {
    /// The start key and the number of keys.
    fn default() -> (r: Self)
        ensures
            r == RangeFormat::StartCount,
    {
        RangeFormat::StartCount
    }
}

/// How many operations of each kind a group makes.
#[derive(Clone, Copy, Debug, PartialEq, Eq, Structural)]
pub struct GroupCounts {
    pub inserts: usize,
    pub updates: usize,
    pub merges: usize,
    pub point_deletes: usize,
    pub empty_point_deletes: usize,
    pub range_deletes: usize,
    pub point_queries: usize,
    pub empty_point_queries: usize,
    pub range_queries: usize,
}

/// Why a workload cannot be generated.
#[derive(Clone, Copy, Debug, PartialEq, Eq, Structural)]
pub enum WorkloadError {
    /// A group deletes more keys by point than there are valid keys.
    PointDeletesExceedKeys,
    /// A group asks for sorted inserts but has no inserts.
    SortedWithoutInserts,
    /// A group starts with no valid keys and inserts none.
    NoKeysNorInserts,
    /// An operation comes up whose part of the group is missing.
    MissingSpec(Op),
    /// An update comes up while there are no valid keys.
    NoKeysForUpdates,
    /// A merge comes up while there are no valid keys.
    NoKeysForMerges,
    /// A point query comes up while there are no valid keys.
    NoKeysForPointQueries,
    /// A range query comes up while there are no valid keys.
    NoKeysForRangeQueries,
    /// A range delete comes up while there are no valid keys.
    NoKeysForRangeDeletes,
}

/// The text that reports an error.
pub open spec fn error_text(e: WorkloadError) -> Seq<char> {
    match e {
        WorkloadError::PointDeletesExceedKeys => "Cannot have more point deletes than existing valid keys."@,
        WorkloadError::SortedWithoutInserts => "Insert spec must exist if sorted config exists"@,
        WorkloadError::NoKeysNorInserts => "Invalid workload spec. Group must have existing valid keys or have insert operations."@,
        WorkloadError::MissingSpec(op) => match op {
            Op::Insert => "Insert marker can only appear when inserts is not None"@,
            Op::Update => "Update marker can only appear when updates is not None"@,
            Op::Merge => "Merge marker can only appear when updates is not None"@,
            Op::PointDelete => "Point delete marker can only appear when updates is not None"@,
            Op::PointDeleteEmpty => "Empty point delete marker can only appear when empty_point_deletes is not None"@,
            Op::RangeDelete => "RangeDelete marker can only appear when range_deletes is not None"@,
            Op::PointQuery => "Point query marker can only appear when updates is not None"@,
            Op::EmptyPointQuery => "Empty point query marker can only appear when empty_point_queries is not None"@,
            Op::RangeQuery => "Range query marker can only appear when range_queries is not None"@,
        },
        WorkloadError::NoKeysForUpdates => "Cannot have updates when there are no valid keys."@,
        WorkloadError::NoKeysForMerges => "Cannot have merges when there are no valid keys."@,
        WorkloadError::NoKeysForPointQueries => "Cannot have point queries when there are no valid keys."@,
        WorkloadError::NoKeysForRangeQueries => "Cannot have range queries when there are no valid keys."@,
        WorkloadError::NoKeysForRangeDeletes => "Cannot have range deletes when there are no valid keys."@,
    }
}

impl WorkloadError {
    /// The text that reports the error.
    pub fn message(&self) -> (r: &'static str)
        ensures
            r@ == error_text(*self),
    {
        match self {
            WorkloadError::PointDeletesExceedKeys => "Cannot have more point deletes than existing valid keys.",
            WorkloadError::SortedWithoutInserts => "Insert spec must exist if sorted config exists",
            WorkloadError::NoKeysNorInserts => "Invalid workload spec. Group must have existing valid keys or have insert operations.",
            WorkloadError::MissingSpec(op) => match op {
                Op::Insert => "Insert marker can only appear when inserts is not None",
                Op::Update => "Update marker can only appear when updates is not None",
                Op::Merge => "Merge marker can only appear when updates is not None",
                Op::PointDelete => "Point delete marker can only appear when updates is not None",
                Op::PointDeleteEmpty => "Empty point delete marker can only appear when empty_point_deletes is not None",
                Op::RangeDelete => "RangeDelete marker can only appear when range_deletes is not None",
                Op::PointQuery => "Point query marker can only appear when updates is not None",
                Op::EmptyPointQuery => "Empty point query marker can only appear when empty_point_queries is not None",
                Op::RangeQuery => "Range query marker can only appear when range_queries is not None",
            },
            WorkloadError::NoKeysForUpdates => "Cannot have updates when there are no valid keys.",
            WorkloadError::NoKeysForMerges => "Cannot have merges when there are no valid keys.",
            WorkloadError::NoKeysForPointQueries => "Cannot have point queries when there are no valid keys.",
            WorkloadError::NoKeysForRangeQueries => "Cannot have range queries when there are no valid keys.",
            WorkloadError::NoKeysForRangeDeletes => "Cannot have range deletes when there are no valid keys.",
        }
    }
}

/// The outcome of the checks that open a group, given how many valid keys
/// there are: an error, or whether the group must start with an insert
/// (because there are no valid keys yet).
pub open spec fn group_check(valid: nat, counts: GroupCounts, sorted: bool, has_inserts: bool) -> Result<bool, WorkloadError> {
    if counts.point_deletes > valid {
        Err(WorkloadError::PointDeletesExceedKeys)
    } else if sorted && !has_inserts {
        Err(WorkloadError::SortedWithoutInserts)
    } else if valid == 0 {
        if counts.inserts == 0 {
            Err(WorkloadError::NoKeysNorInserts)
        } else {
            Ok(true)
        }
    } else {
        Ok(false)
    }
}

/// Checks a group before it is generated: it may not delete more keys by
/// point than there are valid keys, sorted inserts need inserts, and a
/// group without valid keys must insert. `Ok(true)` says that the group
/// starts with one of its inserts.
pub fn check_group(valid: usize, counts: &GroupCounts, sorted: bool, has_inserts: bool) -> (r: Result<bool, WorkloadError>)
    ensures
        r == group_check(valid as nat, *counts, sorted, has_inserts),
        r matches Ok(lead) ==> (lead <==> valid == 0),
        valid == 0 && counts.inserts > 0 && counts.point_deletes == 0 && (sorted ==> has_inserts)
            ==> r == Ok::<bool, WorkloadError>(true),
{
    if counts.point_deletes > valid {
        Err(WorkloadError::PointDeletesExceedKeys)
    } else if sorted && !has_inserts {
        Err(WorkloadError::SortedWithoutInserts)
    } else if valid == 0 {
        if counts.inserts == 0 {
            Err(WorkloadError::NoKeysNorInserts)
        } else {
            Ok(true)
        }
    } else {
        Ok(false)
    }
}

/// The checks an operation passes before it runs, given whether its part
/// of the group is there and whether there are valid keys. Each kind checks
/// in its own order; deletes by point and operations on absent keys do not
/// look at the valid keys.
pub open spec fn marker_check(op: Op, has_spec: bool, has_keys: bool) -> Result<(), WorkloadError> {
    match op {
        Op::Update => if !has_spec {
            Err(WorkloadError::MissingSpec(op))
        } else if !has_keys {
            Err(WorkloadError::NoKeysForUpdates)
        } else {
            Ok(())
        },
        Op::Merge => if !has_spec {
            Err(WorkloadError::MissingSpec(op))
        } else if !has_keys {
            Err(WorkloadError::NoKeysForMerges)
        } else {
            Ok(())
        },
        Op::PointQuery => if !has_keys {
            Err(WorkloadError::NoKeysForPointQueries)
        } else if !has_spec {
            Err(WorkloadError::MissingSpec(op))
        } else {
            Ok(())
        },
        Op::RangeQuery => if !has_spec {
            Err(WorkloadError::MissingSpec(op))
        } else if !has_keys {
            Err(WorkloadError::NoKeysForRangeQueries)
        } else {
            Ok(())
        },
        Op::RangeDelete => if !has_spec {
            Err(WorkloadError::MissingSpec(op))
        } else if !has_keys {
            Err(WorkloadError::NoKeysForRangeDeletes)
        } else {
            Ok(())
        },
        _ => if !has_spec {
            Err(WorkloadError::MissingSpec(op))
        } else {
            Ok(())
        },
    }
}

/// Checks that an operation may run.
pub fn check_marker(op: Op, has_spec: bool, has_keys: bool) -> (r: Result<(), WorkloadError>)
    ensures
        r == marker_check(op, has_spec, has_keys),
        has_spec && has_keys ==> r == Ok::<(), WorkloadError>(()),
        !has_spec ==> r is Err,
        r matches Err(WorkloadError::MissingSpec(o)) ==> o == op && !has_spec,
        r matches Err(e) && !(e is MissingSpec) ==> !has_keys,
{
    match op {
        Op::Update => if !has_spec {
            Err(WorkloadError::MissingSpec(op))
        } else if !has_keys {
            Err(WorkloadError::NoKeysForUpdates)
        } else {
            Ok(())
        },
        Op::Merge => if !has_spec {
            Err(WorkloadError::MissingSpec(op))
        } else if !has_keys {
            Err(WorkloadError::NoKeysForMerges)
        } else {
            Ok(())
        },
        Op::PointQuery => if !has_keys {
            Err(WorkloadError::NoKeysForPointQueries)
        } else if !has_spec {
            Err(WorkloadError::MissingSpec(op))
        } else {
            Ok(())
        },
        Op::RangeQuery => if !has_spec {
            Err(WorkloadError::MissingSpec(op))
        } else if !has_keys {
            Err(WorkloadError::NoKeysForRangeQueries)
        } else {
            Ok(())
        },
        Op::RangeDelete => if !has_spec {
            Err(WorkloadError::MissingSpec(op))
        } else if !has_keys {
            Err(WorkloadError::NoKeysForRangeDeletes)
        } else {
            Ok(())
        },
        _ => if !has_spec {
            Err(WorkloadError::MissingSpec(op))
        } else {
            Ok(())
        },
    }
}

/// A group that passes its checks starts with one of its inserts exactly
/// when there are no valid keys yet; a group without valid keys that has
/// inserts, deletes none by point, and has inserts if it is sorted, always
/// passes and starts with an insert, sorted or not.
pub proof fn lemma_group_leads_with_insert(valid: nat, counts: GroupCounts, sorted: bool, has_inserts: bool)
    ensures
        group_check(valid, counts, sorted, has_inserts) matches Ok(lead) ==> (lead <==> valid == 0),
        group_check(valid, counts, sorted, has_inserts) is Ok ==> counts.point_deletes <= valid && (
        sorted ==> has_inserts) && (valid == 0 ==> counts.inserts > 0),
        valid == 0 && counts.inserts > 0 && counts.point_deletes == 0 && (sorted ==> has_inserts)
            ==> group_check(valid, counts, sorted, has_inserts) == Ok::<bool, WorkloadError>(true),
{
}

/// Every operation whose part of the group is there runs while there are
/// valid keys; an operation without its part never runs; a missing part is
/// reported for that operation only when the part is missing, and every
/// other refusal comes only when there are no valid keys.
pub proof fn lemma_marker_runs_with_spec_and_keys(op: Op, has_spec: bool, has_keys: bool)
    ensures
        has_spec && has_keys ==> marker_check(op, has_spec, has_keys) == Ok::<(), WorkloadError>(()),
        !has_spec ==> marker_check(op, has_spec, has_keys) is Err,
        marker_check(op, has_spec, has_keys) matches Err(WorkloadError::MissingSpec(o)) ==> o == op
            && !has_spec,
        marker_check(op, has_spec, has_keys) matches Err(e) && !(e is MissingSpec) ==> !has_keys,
{
}

/// `n` times the same operation.
pub open spec fn repeated(op: Op, n: nat) -> Seq<Op> {
    Seq::new(n, |_i: int| op)
}

/// The operations of a group in the order it lists them, before they are
/// shuffled: its inserts (one fewer when the group starts with one), then
/// its updates, merges, point deletes, deletes of absent keys, range
/// deletes, point queries, queries of absent keys and range queries.
pub open spec fn marker_plan(counts: GroupCounts, lead_insert: bool) -> Seq<Op> {
    repeated(Op::Insert, if lead_insert { (counts.inserts - 1) as nat } else { counts.inserts as nat })
        + repeated(Op::Update, counts.updates as nat)
        + repeated(Op::Merge, counts.merges as nat)
        + repeated(Op::PointDelete, counts.point_deletes as nat)
        + repeated(Op::PointDeleteEmpty, counts.empty_point_deletes as nat)
        + repeated(Op::RangeDelete, counts.range_deletes as nat)
        + repeated(Op::PointQuery, counts.point_queries as nat)
        + repeated(Op::EmptyPointQuery, counts.empty_point_queries as nat)
        + repeated(Op::RangeQuery, counts.range_queries as nat)
}

/// How many operations of a kind the group counts.
pub open spec fn count_of(counts: GroupCounts, op: Op) -> nat {
    match op {
        Op::Insert => counts.inserts as nat,
        Op::Update => counts.updates as nat,
        Op::Merge => counts.merges as nat,
        Op::PointDelete => counts.point_deletes as nat,
        Op::PointDeleteEmpty => counts.empty_point_deletes as nat,
        Op::RangeDelete => counts.range_deletes as nat,
        Op::PointQuery => counts.point_queries as nat,
        Op::EmptyPointQuery => counts.empty_point_queries as nat,
        Op::RangeQuery => counts.range_queries as nat,
    }
}

proof fn lemma_repeated_count(op: Op, n: nat, x: Op)
    ensures
        repeated(op, n).to_multiset().count(x) == if x == op { n } else { 0 },
    decreases n,
{
    broadcast use vstd::seq_lib::group_to_multiset_ensures;
    broadcast use vstd::multiset::group_multiset_axioms;

    if n == 0 {
        assert(repeated(op, n) =~= Seq::<Op>::empty());
    } else {
        lemma_repeated_count(op, (n - 1) as nat, x);
        assert(repeated(op, n) =~= repeated(op, (n - 1) as nat).push(op));
    }
}

/// Each kind of operation occurs in a group as often as the group counts
/// it; the inserts count one fewer when the group starts with an insert
/// that is written before the others.
pub proof fn lemma_markers_counted(counts: GroupCounts, lead_insert: bool, op: Op)
    requires
        lead_insert ==> counts.inserts > 0,
    ensures
        marker_plan(counts, lead_insert).to_multiset().count(op) == if op == Op::Insert && lead_insert {
            (count_of(counts, op) - 1) as nat
        } else {
            count_of(counts, op)
        },
{
    broadcast use vstd::seq_lib::lemma_multiset_commutative;
    broadcast use vstd::multiset::group_multiset_axioms;

    let ni: nat = if lead_insert { (counts.inserts - 1) as nat } else { counts.inserts as nat };
    lemma_repeated_count(Op::Insert, ni, op);
    lemma_repeated_count(Op::Update, counts.updates as nat, op);
    lemma_repeated_count(Op::Merge, counts.merges as nat, op);
    lemma_repeated_count(Op::PointDelete, counts.point_deletes as nat, op);
    lemma_repeated_count(Op::PointDeleteEmpty, counts.empty_point_deletes as nat, op);
    lemma_repeated_count(Op::RangeDelete, counts.range_deletes as nat, op);
    lemma_repeated_count(Op::PointQuery, counts.point_queries as nat, op);
    lemma_repeated_count(Op::EmptyPointQuery, counts.empty_point_queries as nat, op);
    lemma_repeated_count(Op::RangeQuery, counts.range_queries as nat, op);
}

fn push_repeated(v: &mut Vec<Op>, op: Op, n: usize)
    ensures
        final(v)@ == old(v)@ + repeated(op, n as nat),
{
    let mut i: usize = 0;
    while i < n
        invariant
            i <= n,
            v@ == old(v)@ + repeated(op, i as nat),
        decreases n - i,
    {
        v.push(op);
        assert(repeated(op, (i + 1) as nat) =~= repeated(op, i as nat).push(op));
        i += 1;
    }
}

/// The operations of a group, shuffled: each kind as often as the group
/// counts it (the inserts one fewer when the group starts with an insert).
pub fn plan_markers(rng: &mut Xoshiro256Plus, counts: &GroupCounts, lead_insert: bool) -> (markers: Vec<Op>)
    requires
        lead_insert ==> counts.inserts > 0,
    ensures
        markers@.to_multiset() == marker_plan(*counts, lead_insert).to_multiset(),
{
    let mut markers: Vec<Op> = Vec::new();
    let inserts = if lead_insert { counts.inserts - 1 } else { counts.inserts };
    push_repeated(&mut markers, Op::Insert, inserts);
    push_repeated(&mut markers, Op::Update, counts.updates);
    push_repeated(&mut markers, Op::Merge, counts.merges);
    push_repeated(&mut markers, Op::PointDelete, counts.point_deletes);
    push_repeated(&mut markers, Op::PointDeleteEmpty, counts.empty_point_deletes);
    push_repeated(&mut markers, Op::RangeDelete, counts.range_deletes);
    push_repeated(&mut markers, Op::PointQuery, counts.point_queries);
    push_repeated(&mut markers, Op::EmptyPointQuery, counts.empty_point_queries);
    push_repeated(&mut markers, Op::RangeQuery, counts.range_queries);
    assert(markers@ =~= marker_plan(*counts, lead_insert));
    shuffle(rng, &mut markers);
    markers
}

/// Puts the valid keys in order, where the set keeps one, and picks one of
/// them at random: the key of an update, a merge or a point query.
pub fn pick_key<K: KeySet>(keys: &mut K, rng: &mut Xoshiro256Plus) -> (k: Key)
    requires
        old(keys).wf(),
        old(keys).slots().len() > 0,
    ensures
        final(keys).wf(),
        live_of(final(keys).slots()) == live_of(old(keys).slots()),
        final(keys).slots().len() > 0,
        old(keys).sort_orders() ==> slots_in_order(final(keys).slots()),
        live_of(old(keys).slots()).contains(k@),
{
    proof {
        keys.lemma_slots_hold_keys();
    }
    keys.sort();
    proof {
        lemma_live_of_nonempty(keys.slots());
    }
    let k = keys.get_random(rng);
    copy_key(k)
}

/// Writes the insert of a key with its value and adds the key to the
/// valid keys.
pub fn insert_key<K: KeySet>(keys: &mut K, out: &mut Vec<u8>, key: Key, val: &[u8])
    requires
        old(keys).wf(),
    ensures
        final(keys).wf(),
        final(out)@ == old(out)@ + line_of_two(INSERT_TAG, key@, val@),
        final(keys).must_contain(key@),
        live_of(final(keys).slots()) == live_of(old(keys).slots()).insert(key@) || (live_of(
            old(keys).slots(),
        ).contains(key@) && live_of(final(keys).slots()) == live_of(old(keys).slots())),
{
    AsciiOperationFormatter::write_insert(out, key.as_slice(), val);
    keys.push(key);
}

/// Puts the valid keys in order, where the set keeps one, takes one of
/// them out at random and writes its delete. The key is taken out of the
/// sorted set: the one that the set's removal at a held index of the sorted
/// slots gives back (for the vector key set, which takes out its last key,
/// the greatest key once the keys are in order).
pub fn delete_key<K: KeySet>(keys: &mut K, out: &mut Vec<u8>, rng: &mut Xoshiro256Plus) -> (k: Key)
    requires
        old(keys).wf(),
        old(keys).slots().len() > 0,
    ensures
        final(keys).wf(),
        live_of(old(keys).slots()).contains(k@),
        live_of(final(keys).slots()) == live_of(old(keys).slots()).remove(k@),
        final(out)@ == old(out)@ + line_of_one(POINT_DELETE_TAG, k@),
        exists|sorted: K, i: int|
            #![trigger sorted.removed_key_at(i)]
            sorted.wf() && live_of(sorted.slots()) == live_of(old(keys).slots())
                && sorted.slots().len() <= old(keys).slots().len() && (old(keys).sort_orders()
                ==> slots_in_order(sorted.slots())) && 0 <= i < sorted.slots().len()
                && sorted.slots()[i] is Some && Some(k@) == sorted.removed_key_at(i)
                && final(keys).slots() == sorted.slots_after_remove(i),
{
    proof {
        keys.lemma_slots_hold_keys();
    }
    keys.sort();
    proof {
        lemma_live_of_nonempty(keys.slots());
    }
    let ghost sorted = *keys;
    let k = keys.remove_random(rng);
    proof {
        let i = choose|i: int|
            #![trigger sorted.removed_key_at(i)]
            0 <= i < sorted.slots().len() && sorted.slots()[i] is Some && Some(k@)
                == sorted.removed_key_at(i) && keys.slots() == sorted.slots_after_remove(i);
        assert(sorted.removed_key_at(i) == Some(k@));
    }
    AsciiOperationFormatter::write_point_delete(out, k.as_slice());
    k
}

/// Whether a generated key may be used as a key that is not valid yet:
/// always when the check is skipped, otherwise when the set does not say it
/// holds the key.
pub fn key_is_fresh<K: KeySet>(keys: &K, key: &Key, skip_check: bool) -> (fresh: bool)
    requires
        keys.wf(),
    ensures
        skip_check ==> fresh,
        fresh && !skip_check ==> !keys.must_contain(key@),
        !fresh ==> keys.may_contain(key@),
{
    skip_check || !keys.contains(key)
}

/// Writes the delete of a key that should not be valid; declines, writing
/// nothing, when the set says it holds the key, unless the check is
/// skipped.
pub fn delete_absent_key<K: KeySet>(keys: &K, out: &mut Vec<u8>, key: &Key, skip_check: bool) -> (written: bool)
    requires
        keys.wf(),
    ensures
        skip_check ==> written,
        written ==> (skip_check || !keys.must_contain(key@)) && final(out)@ == old(out)@
            + line_of_one(POINT_DELETE_TAG, key@),
        !written ==> keys.may_contain(key@) && final(out)@ == old(out)@,
{
    if key_is_fresh(keys, key, skip_check) {
        AsciiOperationFormatter::write_point_delete(out, key.as_slice());
        true
    } else {
        false
    }
}

/// Writes the query of a key that should not be valid; declines, writing
/// nothing, when the set says it holds the key, unless the check is
/// skipped.
pub fn query_absent_key<K: KeySet>(keys: &K, out: &mut Vec<u8>, key: &Key, skip_check: bool) -> (written: bool)
    requires
        keys.wf(),
    ensures
        skip_check ==> written,
        written ==> (skip_check || !keys.must_contain(key@)) && final(out)@ == old(out)@
            + line_of_one(POINT_QUERY_TAG, key@),
        !written ==> keys.may_contain(key@) && final(out)@ == old(out)@,
{
    if key_is_fresh(keys, key, skip_check) {
        AsciiOperationFormatter::write_point_query(out, key.as_slice());
        true
    } else {
        false
    }
}

/// What came of a range drawn from the valid keys.
#[derive(Clone, Copy, Debug, PartialEq, Eq, Structural)]
pub enum RangeOutcome {
    /// The keys the line needs are there: the range was written.
    Written,
    /// The slot at the start is empty: nothing happened.
    EmptyStart,
    /// The slot at the end, whose key a start-and-end line needs, is empty:
    /// nothing happened.
    EmptyEnd,
}

/// The line of a range: the start key, then the number of keys or the end
/// key, as the format says.
pub open spec fn range_line(tag: u8, format: RangeFormat, first: Seq<u8>, last: Seq<u8>, num: nat) -> Seq<u8> {
    match format {
        RangeFormat::StartCount => line_of_two(tag, first, decimal(num)),
        RangeFormat::StartEnd => line_of_two(tag, first, last),
    }
}

/// What a range of `num` keys over the slots from `start` on gives: when
/// the start slot holds a key (and, for a start-and-end line, the slot `num`
/// further on too), its line is written; otherwise the output stays.
pub open spec fn range_result(
    tag: u8,
    format: RangeFormat,
    s: Seq<Option<Seq<u8>>>,
    start: int,
    num: int,
    r: RangeOutcome,
    before: Seq<u8>,
    after: Seq<u8>,
) -> bool {
    match r {
        RangeOutcome::Written => s[start] is Some && (format == RangeFormat::StartEnd ==> s[start
            + num] is Some) && after == before + range_line(
            tag,
            format,
            s[start]->0,
            s[start + num]->0,
            num as nat,
        ),
        RangeOutcome::EmptyStart => s[start] is None && after == before,
        RangeOutcome::EmptyEnd => format == RangeFormat::StartEnd && s[start] is Some && s[start
            + num] is None && after == before,
    }
}

/// Writes the query of a range of `num` keys from a random start: the key
/// at the start, then `num` or the key `num` slots further, as the format
/// says.
pub fn query_range<K: KeySet>(
    keys: &K,
    out: &mut Vec<u8>,
    rng: &mut Xoshiro256Plus,
    num: usize,
    format: RangeFormat,
) -> (r: RangeOutcome)
    requires
        keys.wf(),
        num < keys.slots().len(),
    ensures
        exists|start: int|
            0 <= start < keys.slots().len() - num && #[trigger] range_result(
                RANGE_QUERY_TAG,
                format,
                keys.slots(),
                start,
                num as int,
                r,
                old(out)@,
                final(out)@,
            ),
{
    let n = keys.len();
    let start = random_index(rng, n - num);
    proof {
        keys.lemma_in_bounds_accepted(start, 0, 0);
        keys.lemma_in_bounds_accepted((start + num) as usize, 0, 0);
    }
    let r = match keys.get(start) {
        None => RangeOutcome::EmptyStart,
        Some(k1) => match format {
            RangeFormat::StartCount => {
                AsciiOperationFormatter::write_range_query_count(out, k1.as_slice(), num);
                RangeOutcome::Written
            },
            RangeFormat::StartEnd => match keys.get(start + num) {
                None => RangeOutcome::EmptyEnd,
                Some(k2) => {
                    AsciiOperationFormatter::write_range_query(out, k1.as_slice(), k2.as_slice());
                    RangeOutcome::Written
                },
            },
        },
    };
    assert(range_result(
        RANGE_QUERY_TAG,
        format,
        keys.slots(),
        start as int,
        num as int,
        r,
        old(out)@,
        out@,
    ));
    r
}

/// Writes the delete of a range of `num` keys from a random start (the key
/// at the start, then `num` or the key `num` slots further, as the format
/// says) and takes the `num` slots from the start on out of the valid keys;
/// the end key stays.
pub fn delete_range<K: KeySet>(
    keys: &mut K,
    out: &mut Vec<u8>,
    rng: &mut Xoshiro256Plus,
    num: usize,
    format: RangeFormat,
) -> (r: RangeOutcome)
    requires
        old(keys).wf(),
        num < old(keys).slots().len(),
    ensures
        final(keys).wf(),
        exists|start: int|
            0 <= start < old(keys).slots().len() - num && #[trigger] range_result(
                RANGE_DELETE_TAG,
                format,
                old(keys).slots(),
                start,
                num as int,
                r,
                old(out)@,
                final(out)@,
            ) && (r == RangeOutcome::Written ==> live_of(final(keys).slots()) == live_of(
                old(keys).slots(),
            ).sub(live_of(old(keys).slots().subrange(start, start + num)))
                && final(keys).slots() == old(keys).slots_without_range(start, start + num)),
        r != RangeOutcome::Written ==> *final(keys) == *old(keys),
{
    let n = keys.len();
    let start = random_index(rng, n - num);
    let end = start + num;
    proof {
        keys.lemma_in_bounds_accepted(start, start, end);
        keys.lemma_in_bounds_accepted(end, 0, 0);
    }
    let r = match keys.get(start) {
        None => RangeOutcome::EmptyStart,
        Some(k1) => match format {
            RangeFormat::StartCount => {
                AsciiOperationFormatter::write_range_delete_count(out, k1.as_slice(), num);
                RangeOutcome::Written
            },
            RangeFormat::StartEnd => match keys.get(end) {
                None => RangeOutcome::EmptyEnd,
                Some(k2) => {
                    AsciiOperationFormatter::write_range_delete(out, k1.as_slice(), k2.as_slice());
                    RangeOutcome::Written
                },
            },
        },
    };
    if r == RangeOutcome::Written {
        keys.remove_range(start..end);
        assert(old(keys).slots().subrange(start as int, end as int) == old(keys).slots().subrange(
            start as int,
            crate::keyset::clip(end, old(keys).slots().len()),
        ));
    }
    assert(range_result(
        RANGE_DELETE_TAG,
        format,
        old(keys).slots(),
        start as int,
        num as int,
        r,
        old(out)@,
        out@,
    ));
    r
}

/// On a key set whose keys are in order, the key at the start of a range
/// never comes after the key at its end.
pub proof fn lemma_range_ends_ordered(s: Seq<Option<Seq<u8>>>, start: int, num: int)
    requires
        slots_in_order(s),
        0 <= start,
        0 <= num,
        start + num < s.len(),
        s[start] is Some,
        s[start + num] is Some,
    ensures
        key_le(s[start]->0, s[start + num]->0),
{
    if num > 0 {
        assert(key_le(s[start]->0, s[start + num]->0));
    }
}

/// The keys of sorted inserts, sorted from last to first so that taking
/// keys from the end gives them in order.
pub fn sorted_key_pool(keys: Vec<Key>) -> (pool: Vec<Key>)
    ensures
        keys_view(pool@).to_multiset() == keys_view(keys@).to_multiset(),
        keys_descending(keys_view(pool@)),
{
    sort_keys_descending(keys)
}

/// The next key of sorted inserts, taken from the end of the pool; none
/// when there is no pool or it is used up.
pub fn next_pool_key(pool: &mut Option<Vec<Key>>) -> (k: Option<Key>)
    ensures
        *old(pool) is None ==> k is None && *final(pool) is None,
        *old(pool) matches Some(v) ==> (*final(pool) matches Some(w) && (v@.len() == 0 ==> k is None
            && w@ == v@) && (v@.len() > 0 ==> k == Some(v@.last()) && w@ == v@.drop_last())),
{
    match pool.take() {
        None => None,
        Some(mut v) => {
            let k = v.pop();
            *pool = Some(v);
            k
        },
    }
}

/// The place `offset` away from `idx`, held within `0..len`.
pub open spec fn displaced_index(idx: int, offset: int, len: int) -> int {
    if idx + offset < 0 {
        0
    } else if idx + offset > len - 1 {
        len - 1
    } else {
        idx + offset
    }
}

/// The key that a displacement swaps with: the key `offset` places away
/// when the pool has one there, else the first key (for a move before the
/// start) or the last key (for a move past the end). It lies in the pool and
/// is no further from `idx` than `offset` says.
pub proof fn lemma_displacement_partner(idx: int, offset: int, len: int)
    requires
        0 <= idx < len,
    ensures
        0 <= displaced_index(idx, offset, len) < len,
        0 <= idx + offset < len ==> displaced_index(idx, offset, len) == idx + offset,
        idx + offset < 0 ==> displaced_index(idx, offset, len) == 0,
        idx + offset >= len ==> displaced_index(idx, offset, len) == len - 1,
        offset >= 0 ==> idx <= displaced_index(idx, offset, len) <= idx + offset,
        offset <= 0 ==> idx + offset <= displaced_index(idx, offset, len) <= idx,
{
}

/// A random place in a pool of `len` keys.
pub fn draw_index(rng: &mut Xoshiro256Plus, len: usize) -> (idx: usize)
    requires
        len > 0,
    ensures
        idx < len,
{
    random_index(rng, len)
}

/// Disorders sorted keys a little: swaps the key at `idx` with the key
/// `offset` places away, the place held within the pool.
pub fn displace(pool: &mut Vec<Key>, idx: usize, offset: isize)
    requires
        idx < old(pool)@.len(),
    ensures
        ({
            let t = displaced_index(idx as int, offset as int, old(pool)@.len() as int);
            final(pool)@ == old(pool)@.update(idx as int, old(pool)@[t]).update(t, old(pool)@[idx as int])
        }),
        final(pool)@.to_multiset() == old(pool)@.to_multiset(),
        0 <= idx + offset < old(pool)@.len() ==> final(pool)@[idx as int] == old(pool)@[idx
            + offset] && final(pool)@[idx + offset] == old(pool)@[idx as int],
        idx + offset < 0 ==> final(pool)@[idx as int] == old(pool)@[0] && final(pool)@[0] == old(
            pool,
        )@[idx as int],
        idx + offset >= old(pool)@.len() ==> final(pool)@[idx as int] == old(pool)@[old(
            pool,
        )@.len() - 1] && final(pool)@[old(pool)@.len() - 1] == old(pool)@[idx as int],
        forall|j: int|
            0 <= j < old(pool)@.len() && j != idx && j != idx + offset && j != 0 && j != old(
                pool,
            )@.len() - 1 ==> #[trigger] final(pool)@[j] == old(pool)@[j],
{
    let target: i128 = idx as i128 + offset as i128;
    let last: i128 = (pool.len() - 1) as i128;
    let t: i128 = if target < 0 {
        0
    } else if target > last {
        last
    } else {
        target
    };
    swap_items(pool, idx, t as usize);
    proof {
        lemma_swap_to_multiset(old(pool)@, idx as int, t as int);
    }
}

/// Taking keys from the end of a pool sorted from last to first gives them
/// in order: the key taken is no greater than the one taken after it, and
/// the rest of the pool stays sorted from last to first.
pub proof fn lemma_pool_takes_in_order(pool: Seq<Seq<u8>>)
    requires
        keys_descending(pool),
        pool.len() >= 2,
    ensures
        key_le(pool.last(), pool.drop_last().last()),
        keys_descending(pool.drop_last()),
{
    let rest = pool.drop_last();
    assert(pool[pool.len() - 2] == rest.last());
    assert forall|i: int, j: int| 0 <= i < j < rest.len() implies key_le(#[trigger] rest[j], #[trigger] rest[i]) by {
        assert(rest[i] == pool[i] && rest[j] == pool[j]);
    }
}

} // verus!
