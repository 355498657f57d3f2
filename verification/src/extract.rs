//! Projection of one input record onto a position list, by delimiter-split
//! field, by raw byte, or by Unicode codepoint.

use core::ops::Range;
use vstd::prelude::*;
use vstd::string::StrSliceExecFns;
use vstd::utf8::encode_utf8;

use crate::positions::PositionList;

verus! {

/// How records are projected: by delimiter-separated field, by raw byte, or
/// by Unicode codepoint. Exactly one mode is ever in force, each owning its
/// own position list.
pub enum SelectionMode {
    Fields(PositionList),
    Bytes(PositionList),
    Chars(PositionList),
}

/// The elements of `elems` selected by one range: those of its indices that
/// exist, in ascending order; indices past the end are silently skipped.
pub open spec fn select_range<T>(elems: Seq<T>, r: Range<usize>) -> Seq<T> {
    if r.start >= elems.len() || r.start >= r.end {
        Seq::empty()
    } else if r.end <= elems.len() {
        elems.subrange(r.start as int, r.end as int)
    } else {
        elems.subrange(r.start as int, elems.len() as int)
    }
}

/// The elements selected by a whole position list: ascending within each
/// range, ranges in list order, duplicates kept when ranges overlap.
pub open spec fn select_all<T>(elems: Seq<T>, ranges: Seq<Range<usize>>) -> Seq<T>
    decreases ranges.len(),
{
    if ranges.len() == 0 {
        Seq::empty()
    } else {
        select_all(elems, ranges.drop_last()) + select_range(elems, ranges.last())
    }
}

/// Projects a line onto the selected codepoint positions. Selection is by
/// codepoint index, so multi-byte characters are never split.
pub fn extract_chars_from_line(line: &str, position_list: &[Range<usize>]) -> (s: String)
    ensures
        s@ == select_all(line@, position_list@),
{
    let n = line.unicode_len();
    let count = position_list.len();
    let mut out = String::new();
    let mut i: usize = 0;
    proof {
        assert(position_list@.subrange(0, 0) =~= Seq::<Range<usize>>::empty());
    }
    while i < count
        invariant
            i <= count,
            count == position_list@.len(),
            n == line@.len(),
            out@ == select_all(line@, position_list@.subrange(0, i as int)),
        decreases count - i,
    {
        let ghost prefix = position_list@.subrange(0, i as int);
        let r = &position_list[i];
        let lo = if r.start < n {
            r.start
        } else {
            n
        };
        let hi = if r.end < n {
            r.end
        } else {
            n
        };
        if lo < hi {
            let piece = line.substring_char(lo, hi);
            out.append(piece);
        }
        proof {
            assert(position_list@.subrange(0, i as int + 1).drop_last() =~= prefix);
            assert(position_list@.subrange(0, i as int + 1).last() == position_list@[i as int]);
            assert(out@ =~= select_all(line@, prefix) + select_range(
                line@,
                position_list@[i as int],
            ));
        }
        i = i + 1;
    }
    proof {
        assert(position_list@.subrange(0, count as int) =~= position_list@);
    }
    out
}

/// The bytes selected from a byte sequence, matching `select_all`.
pub fn select_bytes(bytes: &[u8], position_list: &[Range<usize>]) -> (out: Vec<u8>)
    ensures
        out@ == select_all(bytes@, position_list@),
{
    let n = bytes.len();
    let count = position_list.len();
    let mut out: Vec<u8> = Vec::new();
    let mut i: usize = 0;
    proof {
        assert(position_list@.subrange(0, 0) =~= Seq::<Range<usize>>::empty());
        assert(out@ =~= Seq::<u8>::empty());
    }
    while i < count
        invariant
            i <= count,
            count == position_list@.len(),
            n == bytes@.len(),
            out@ == select_all(bytes@, position_list@.subrange(0, i as int)),
        decreases count - i,
    {
        let ghost prefix = position_list@.subrange(0, i as int);
        let ghost at_entry = out@;
        let r = &position_list[i];
        let lo = if r.start < n {
            r.start
        } else {
            n
        };
        let hi = if r.end < n {
            r.end
        } else {
            n
        };
        if lo < hi {
            let mut j = lo;
            while j < hi
                invariant
                    lo <= j <= hi <= n,
                    n == bytes@.len(),
                    out@ == at_entry + bytes@.subrange(lo as int, j as int),
                decreases hi - j,
            {
                out.push(bytes[j]);
                proof {
                    assert(bytes@.subrange(lo as int, j as int + 1) =~= bytes@.subrange(
                        lo as int,
                        j as int,
                    ).push(bytes@[j as int]));
                }
                j = j + 1;
            }
        }
        proof {
            assert(position_list@.subrange(0, i as int + 1).drop_last() =~= prefix);
            assert(position_list@.subrange(0, i as int + 1).last() == position_list@[i as int]);
            if lo < hi {
                assert(out@ =~= select_all(bytes@, prefix) + select_range(
                    bytes@,
                    position_list@[i as int],
                ));
            } else {
                assert(bytes@.subrange(lo as int, lo as int) =~= Seq::<u8>::empty());
                assert(out@ =~= select_all(bytes@, prefix) + select_range(
                    bytes@,
                    position_list@[i as int],
                ));
            }
        }
        i = i + 1;
    }
    proof {
        assert(position_list@.subrange(0, count as int) =~= position_list@);
    }
    out
}

/// What a lossy UTF-8 decode of a byte sequence yields. Named rather than
/// spelled out: the decoded text is a function of the bytes alone.
pub uninterp spec fn lossy_utf8(bytes: Seq<u8>) -> Seq<char>;

/// Decodes bytes as UTF-8, substituting one replacement character for each
/// maximal invalid subsequence.
///
/// Relies on `String::from_utf8_lossy`: the decoded text depends on the
/// bytes alone, and no bytes decode to no text.
#[verifier::external_body]
fn lossy_string(bytes: &Vec<u8>) -> (s: String)
    ensures
        s@ == lossy_utf8(bytes@),
        bytes@.len() == 0 ==> s@.len() == 0,
{
    String::from_utf8_lossy(bytes).into_owned()
}

/// Projects a line onto the selected byte positions, then decodes the
/// collected bytes as UTF-8 with lossy substitution. A range that splits a
/// multi-byte character yields replacement characters: expected, observable
/// behavior of byte mode.
pub fn extract_bytes_from_line(line: &str, position_list: &[Range<usize>]) -> (s: String)
    ensures
        s@ == lossy_utf8(select_all(encode_utf8(line@), position_list@)),
{
    let bytes = line.as_bytes_vec();
    let selected = select_bytes(bytes.as_slice(), position_list);
    lossy_string(&selected)
}

/// csv's record of delimiter-split fields, as the external record decoder
/// hands it over; opaque here but for the field list named below.
#[verifier::external_type_specification]
#[verifier::external_body]
pub struct ExStringRecord(csv::StringRecord);

/// The fields a record holds, in order, as text. Named: the field list is a
/// function of the record alone.
pub uninterp spec fn record_fields(record: csv::StringRecord) -> Seq<Seq<char>>;

/// Hands out a record's fields as owned strings, in order.
///
/// Relies on `csv::StringRecord::iter`: it yields the record's fields in
/// order.
#[verifier::external_body]
fn record_to_fields(record: &csv::StringRecord) -> (fields: Vec<String>)
    ensures
        fields.deep_view() == record_fields(*record),
{
    record.iter().map(String::from).collect()
}

/// The fields selected from an already-split field list, matching
/// `select_all` on their text.
pub fn select_fields(fields: &Vec<String>, position_list: &[Range<usize>]) -> (out: Vec<String>)
    ensures
        out.deep_view() == select_all(fields.deep_view(), position_list@),
{
    let ghost elems = fields.deep_view();
    let n = fields.len();
    let count = position_list.len();
    let mut out: Vec<String> = Vec::new();
    let mut i: usize = 0;
    proof {
        assert(position_list@.subrange(0, 0) =~= Seq::<Range<usize>>::empty());
        assert(out.deep_view() =~= Seq::<Seq<char>>::empty());
    }
    while i < count
        invariant
            i <= count,
            count == position_list@.len(),
            n == fields@.len(),
            elems == fields.deep_view(),
            out.deep_view() == select_all(elems, position_list@.subrange(0, i as int)),
        decreases count - i,
    {
        let ghost prefix = position_list@.subrange(0, i as int);
        let ghost at_entry = out.deep_view();
        let r = &position_list[i];
        let lo = if r.start < n {
            r.start
        } else {
            n
        };
        let hi = if r.end < n {
            r.end
        } else {
            n
        };
        if lo < hi {
            let mut j = lo;
            while j < hi
                invariant
                    lo <= j <= hi <= n,
                    n == fields@.len(),
                    elems == fields.deep_view(),
                    out.deep_view() == at_entry + elems.subrange(lo as int, j as int),
                decreases hi - j,
            {
                let ghost before = out.deep_view();
                let field = fields[j].clone();
                out.push(field);
                proof {
                    assert(out.deep_view() =~= before.push(elems[j as int]));
                    assert(elems.subrange(lo as int, j as int + 1) =~= elems.subrange(
                        lo as int,
                        j as int,
                    ).push(elems[j as int]));
                }
                j = j + 1;
            }
        }
        proof {
            assert(position_list@.subrange(0, i as int + 1).drop_last() =~= prefix);
            assert(position_list@.subrange(0, i as int + 1).last() == position_list@[i as int]);
            if lo < hi {
                assert(out.deep_view() =~= select_all(elems, prefix) + select_range(
                    elems,
                    position_list@[i as int],
                ));
            } else {
                assert(elems.subrange(lo as int, lo as int) =~= Seq::<Seq<char>>::empty());
                assert(out.deep_view() =~= select_all(elems, prefix) + select_range(
                    elems,
                    position_list@[i as int],
                ));
            }
        }
        i = i + 1;
    }
    proof {
        assert(position_list@.subrange(0, count as int) =~= position_list@);
    }
    out
}

/// Projects a record of delimiter-split fields onto the selected field
/// positions: ascending within each range, ranges in list order, a field
/// emitted once per range that covers it.
pub fn extract_fields_from_record(
    record: &csv::StringRecord,
    position_list: &[Range<usize>],
) -> (out: Vec<String>)
    ensures
        out.deep_view() == select_all(record_fields(*record), position_list@),
{
    let fields = record_to_fields(record);
    select_fields(&fields, position_list)
}

} // verus!
