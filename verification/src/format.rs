//! The ASCII format of workload operations: one line per operation, a
//! letter for its kind, then its keys and value, separated by spaces.

use vstd::prelude::*;

verus! {

/// ASCII space, between fields.
pub const SPACE: u8 = 32;

/// ASCII newline, at the end of each line.
pub const NEWLINE: u8 = 10;

/// ASCII `I`: insert.
pub const INSERT_TAG: u8 = 73;

/// ASCII `U`: update.
pub const UPDATE_TAG: u8 = 85;

/// ASCII `M`: merge (read-modify-write).
pub const MERGE_TAG: u8 = 77;

/// ASCII `D`: point delete.
pub const POINT_DELETE_TAG: u8 = 68;

/// ASCII `P`: point query.
pub const POINT_QUERY_TAG: u8 = 80;

/// ASCII `S`: range query (scan).
pub const RANGE_QUERY_TAG: u8 = 83;

/// ASCII `R`: range delete.
pub const RANGE_DELETE_TAG: u8 = 82;

/// A line of one field: the tag, a space, the field, a newline.
pub open spec fn line_of_one(tag: u8, field: Seq<u8>) -> Seq<u8> {
    seq![tag, SPACE] + field + seq![NEWLINE]
}

/// A line of two fields: the tag, a space, the first field, a space, the
/// second field, a newline.
pub open spec fn line_of_two(tag: u8, first: Seq<u8>, second: Seq<u8>) -> Seq<u8> {
    seq![tag, SPACE] + first + seq![SPACE] + second + seq![NEWLINE]
}

/// The decimal digits of a number, in ASCII, most significant first.
pub open spec fn decimal(n: nat) -> Seq<u8>
    decreases n,
{
    if n < 10 {
        seq![(48 + n) as u8]
    } else {
        decimal(n / 10).push((48 + n % 10) as u8)
    }
}

/// Appends the decimal digits of a number.
pub fn append_decimal(out: &mut Vec<u8>, n: usize)
    ensures
        final(out)@ == old(out)@ + decimal(n as nat),
    decreases n,
{
    if n >= 10 {
        append_decimal(out, n / 10);
    }
    out.push((n % 10) as u8 + 48);
    assert(out@ =~= old(out)@ + decimal(n as nat));
}

/// Appends bytes to the output.
pub fn append_bytes(out: &mut Vec<u8>, bytes: &[u8])
    ensures
        final(out)@ == old(out)@ + bytes@,
{
    let mut i: usize = 0;
    while i < bytes.len()
        invariant
            i <= bytes@.len(),
            out@ == old(out)@ + bytes@.subrange(0, i as int),
        decreases bytes@.len() - i,
    {
        out.push(bytes[i]);
        assert(bytes@.subrange(0, i + 1) =~= bytes@.subrange(0, i as int).push(bytes@[i as int]));
        i += 1;
    }
    assert(bytes@.subrange(0, bytes@.len() as int) =~= bytes@);
}

fn write_one(out: &mut Vec<u8>, tag: u8, field: &[u8])
    ensures
        final(out)@ == old(out)@ + line_of_one(tag, field@),
{
    out.push(tag);
    out.push(SPACE);
    append_bytes(out, field);
    out.push(NEWLINE);
    assert(out@ =~= old(out)@ + line_of_one(tag, field@));
}

fn write_two(out: &mut Vec<u8>, tag: u8, first: &[u8], second: &[u8])
    ensures
        final(out)@ == old(out)@ + line_of_two(tag, first@, second@),
{
    out.push(tag);
    out.push(SPACE);
    append_bytes(out, first);
    out.push(SPACE);
    append_bytes(out, second);
    out.push(NEWLINE);
    assert(out@ =~= old(out)@ + line_of_two(tag, first@, second@));
}

fn write_count(out: &mut Vec<u8>, tag: u8, key: &[u8], count: usize)
    ensures
        final(out)@ == old(out)@ + line_of_two(tag, key@, decimal(count as nat)),
{
    out.push(tag);
    out.push(SPACE);
    append_bytes(out, key);
    out.push(SPACE);
    append_decimal(out, count);
    out.push(NEWLINE);
    assert(out@ =~= old(out)@ + line_of_two(tag, key@, decimal(count as nat)));
}

/// Writes operations as ASCII lines.
pub struct AsciiOperationFormatter;

impl AsciiOperationFormatter {
    /// `I <key> <value>`
    pub fn write_insert(w: &mut Vec<u8>, key: &[u8], val: &[u8])
        ensures
            final(w)@ == old(w)@ + line_of_two(INSERT_TAG, key@, val@),
    {
        write_two(w, INSERT_TAG, key, val)
    }

    /// `U <key> <value>`
    pub fn write_update(w: &mut Vec<u8>, key: &[u8], val: &[u8])
        ensures
            final(w)@ == old(w)@ + line_of_two(UPDATE_TAG, key@, val@),
    {
        write_two(w, UPDATE_TAG, key, val)
    }

    /// `M <key> <value>`
    pub fn write_merge(w: &mut Vec<u8>, key: &[u8], val: &[u8])
        ensures
            final(w)@ == old(w)@ + line_of_two(MERGE_TAG, key@, val@),
    {
        write_two(w, MERGE_TAG, key, val)
    }

    /// `D <key>`
    pub fn write_point_delete(w: &mut Vec<u8>, key: &[u8])
        ensures
            final(w)@ == old(w)@ + line_of_one(POINT_DELETE_TAG, key@),
    {
        write_one(w, POINT_DELETE_TAG, key)
    }

    /// `P <key>`
    pub fn write_point_query(w: &mut Vec<u8>, key: &[u8])
        ensures
            final(w)@ == old(w)@ + line_of_one(POINT_QUERY_TAG, key@),
    {
        write_one(w, POINT_QUERY_TAG, key)
    }

    /// `S <start key> <end key>`
    pub fn write_range_query(w: &mut Vec<u8>, key1: &[u8], key2: &[u8])
        ensures
            final(w)@ == old(w)@ + line_of_two(RANGE_QUERY_TAG, key1@, key2@),
    {
        write_two(w, RANGE_QUERY_TAG, key1, key2)
    }

    /// `S <start key> <number of keys>`
    pub fn write_range_query_count(w: &mut Vec<u8>, key: &[u8], count: usize)
        ensures
            final(w)@ == old(w)@ + line_of_two(RANGE_QUERY_TAG, key@, decimal(count as nat)),
    {
        write_count(w, RANGE_QUERY_TAG, key, count)
    }

    /// `R <start key> <number of keys>`
    pub fn write_range_delete_count(w: &mut Vec<u8>, key: &[u8], count: usize)
        ensures
            final(w)@ == old(w)@ + line_of_two(RANGE_DELETE_TAG, key@, decimal(count as nat)),
    {
        write_count(w, RANGE_DELETE_TAG, key, count)
    }

    /// `R <start key> <end key>`
    pub fn write_range_delete(w: &mut Vec<u8>, key1: &[u8], key2: &[u8])
        ensures
            final(w)@ == old(w)@ + line_of_two(RANGE_DELETE_TAG, key1@, key2@),
    {
        write_two(w, RANGE_DELETE_TAG, key1, key2)
    }
}

} // verus!
