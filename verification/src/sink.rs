//! Adapter logic for the durable document store.
//!
//! The store itself is an external collaborator: an append-only collection
//! per sensor with a unique timestamp index, reached over the network. What
//! is verified here is the logic around it: turning the raw fields read
//! back from a record into a [`Measurement`] — where a single malformed
//! record aborts the whole read and surfaces an error rather than silently
//! truncating — and recognising the one insert failure that is benign, the
//! duplicate-key conflict that overlapping flushes are expected to cause.

use vstd::prelude::*;
use vstd::utf8::{is_ascii_chars, is_ascii_chars_encode_utf8};
use crate::measurement::Measurement;

verus! {

/// Why a record read back from the durable store was rejected.
#[derive(Clone, Copy, Debug, PartialEq, Eq, Structural)]
pub enum RecordError {
    /// A required field was absent.
    MissingField,
    /// A field was present but outside the representable range.
    FieldOutOfRange,
}

/// The raw fields of one durable record, as the collaborator hands them
/// back: each field is absent when the record lacks it or holds a value of
/// the wrong shape.
#[derive(Clone, Copy, Debug, PartialEq, Eq, Structural)]
pub struct RawRecord {
    pub deg_c: Option<i64>,
    pub timestamp: Option<i64>,
}

/// What a raw record parses to: a measurement exactly when both fields are
/// present and in range (the temperature in tenths of a degree must fit
/// sixteen bits, the timestamp must not be negative), and otherwise the
/// error naming what was wrong.
pub open spec fn spec_parse_record(deg_c: Option<i64>, timestamp: Option<i64>) -> Result<
    Measurement,
    RecordError,
> {
    match (deg_c, timestamp) {
        (Some(d), Some(t)) => if d < 0 || d > 65535 {
            Err(RecordError::FieldOutOfRange)
        } else if t < 0 {
            Err(RecordError::FieldOutOfRange)
        } else {
            Ok(Measurement { timestamp: t as u64, deci_deg_c: d as u16 })
        },
        _ => Err(RecordError::MissingField),
    }
}

/// Parses the raw fields of one durable record.
pub fn parse_record(deg_c: Option<i64>, timestamp: Option<i64>) -> (r: Result<
    Measurement,
    RecordError,
>)
    ensures
        r == spec_parse_record(deg_c, timestamp),
{
    match (deg_c, timestamp) {
        (Some(d), Some(t)) => {
            if d < 0 || d > 65535 {
                Err(RecordError::FieldOutOfRange)
            } else if t < 0 {
                Err(RecordError::FieldOutOfRange)
            } else {
                Ok(Measurement { timestamp: t as u64, deci_deg_c: d as u16 })
            }
        },
        _ => Err(RecordError::MissingField),
    }
}

/// What a run of raw records collects to: every record parsed, in order,
/// unless one is malformed — then the error of the earliest malformed
/// record, and nothing of the rest.
pub open spec fn spec_collect_records(rows: Seq<RawRecord>) -> Result<Seq<Measurement>, RecordError>
    decreases rows.len(),
{
    if rows.len() == 0 {
        Ok(Seq::empty())
    } else {
        match spec_collect_records(rows.drop_last()) {
            Err(e) => Err(e),
            Ok(s) => match spec_parse_record(rows.last().deg_c, rows.last().timestamp) {
                Err(e) => Err(e),
                Ok(m) => Ok(s.push(m)),
            },
        }
    }
}

/// An error anywhere in the run decides the whole collection: if every
/// record before position `k` parses and the record at `k` does not, the
/// collection surfaces exactly that record's error.
pub proof fn lemma_collect_records_err(rows: Seq<RawRecord>, k: int, e: RecordError)
    requires
        0 <= k < rows.len(),
        spec_collect_records(rows.take(k)) is Ok,
        spec_parse_record(rows[k].deg_c, rows[k].timestamp) == Result::<
            Measurement,
            RecordError,
        >::Err(e),
    ensures
        spec_collect_records(rows) == Result::<Seq<Measurement>, RecordError>::Err(e),
    decreases rows.len(),
{
    if k == rows.len() - 1 {
        assert(rows.take(k) =~= rows.drop_last());
    } else {
        assert(rows.drop_last().take(k) =~= rows.take(k));
        lemma_collect_records_err(rows.drop_last(), k, e);
    }
}

/// Drains a run of raw records into measurements, aborting on the first
/// malformed record and surfacing its error.
pub fn collect_records(rows: &Vec<RawRecord>) -> (r: Result<Vec<Measurement>, RecordError>)
    ensures
        r matches Ok(v) ==> spec_collect_records(rows@) == Result::<
            Seq<Measurement>,
            RecordError,
        >::Ok(v@),
        r matches Err(e) ==> spec_collect_records(rows@) == Result::<
            Seq<Measurement>,
            RecordError,
        >::Err(e),
{
    let mut out: Vec<Measurement> = Vec::new();
    let mut i: usize = 0;
    while i < rows.len()
        invariant
            i <= rows@.len(),
            spec_collect_records(rows@.take(i as int)) == Result::<
                Seq<Measurement>,
                RecordError,
            >::Ok(out@),
        decreases rows@.len() - i,
    {
        let row = rows[i];
        match parse_record(row.deg_c, row.timestamp) {
            Ok(m) => {
                out.push(m);
                proof {
                    assert(rows@.take(i + 1).drop_last() =~= rows@.take(i as int));
                    assert(rows@.take(i + 1).last() == rows@[i as int]);
                }
            },
            Err(e) => {
                proof {
                    lemma_collect_records_err(rows@, i as int, e);
                }
                return Err(e);
            },
        }
        i = i + 1;
    }
    proof {
        assert(rows@.take(rows@.len() as int) =~= rows@);
    }
    Ok(out)
}

/// Whether `needle` occurs contiguously anywhere in `hay`.
pub open spec fn contains_subrange(hay: Seq<u8>, needle: Seq<u8>) -> bool {
    exists|k: int|
        0 <= k <= hay.len() - needle.len() && #[trigger] hay.subrange(k, k + needle.len())
            == needle
}

/// Substring search over byte slices.
pub fn contains_subslice(hay: &[u8], needle: &[u8]) -> (found: bool)
    ensures
        found == contains_subrange(hay@, needle@),
{
    let n = needle.len();
    let h = hay.len();
    if n > h {
        return false;
    }
    let mut k: usize = 0;
    while k <= h - n
        invariant
            n <= h,
            h == hay@.len(),
            n == needle@.len(),
            k <= h - n + 1,
            forall|k2: int|
                0 <= k2 < k ==> #[trigger] hay@.subrange(k2, k2 + n) != needle@,
        decreases h - n - k + 1,
    {
        let mut j: usize = 0;
        while j < n && hay[k + j] == needle[j]
            invariant
                j <= n,
                n <= h,
                k <= h - n,
                h == hay@.len(),
                n == needle@.len(),
                forall|j2: int| 0 <= j2 < j ==> hay@[k + j2] == #[trigger] needle@[j2],
            decreases n - j,
        {
            j = j + 1;
        }
        if j == n {
            proof {
                assert(hay@.subrange(k as int, k + n) =~= needle@);
            }
            return true;
        }
        proof {
            assert(hay@.subrange(k as int, k + n)[j as int] == hay@[k + j]);
        }
        k = k + 1;
    }
    proof {
        assert forall|k2: int| 0 <= k2 <= hay@.len() - needle@.len() implies #[trigger] hay@
            .subrange(k2, k2 + needle@.len()) != needle@ by {}
    }
    false
}

/// The marker by which the durable collaborator reports a unique-index
/// conflict in its error rendering, as bytes.
pub open spec fn duplicate_key_marker() -> Seq<u8> {
    "duplicate key error"@.map_values(|c: char| c as u8)
}

/// Whether an insert failure, rendered to bytes, reports a duplicate-key
/// conflict. Such a failure is the benign race of overlapping flushes (the
/// record is already durable) and is swallowed; any other failure is real.
pub fn is_duplicate_key_error(msg: &[u8]) -> (r: bool)
    ensures
        r == contains_subrange(msg@, duplicate_key_marker()),
{
    let lit = "duplicate key error";
    let needle = lit.as_bytes();
    proof {
        reveal_strlit("duplicate key error");
        assert(is_ascii_chars(lit@));
        is_ascii_chars_encode_utf8(lit@);
        assert(needle@ =~= duplicate_key_marker());
    }
    contains_subslice(msg, needle)
}

} // verus!
