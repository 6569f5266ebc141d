//! Run-list decoding (NTFS data runs).
//!
//! A run list is a sequence of items. An item starts with a header byte whose
//! low nibble is the width of the length field and whose high nibble is the
//! width of the offset field; the two fields follow. The length is unsigned
//! little-endian, the offset is signed little-endian and relative to the
//! previous located run. An item without an offset field is sparse. The header
//! `0x00` ends the list.
//!
//! Decoding is stated in two layers: [`raw_runs`] is the grammar, and
//! [`place_runs`] lays the raw runs over the VCN span of the attribute.

use vstd::arithmetic::power::pow;
use vstd::prelude::*;

verus! {

/// One decoded run.
#[derive(Debug, Clone, Copy, PartialEq, Eq)]
pub struct RunEntry {
    /// Length in clusters.
    pub length: u64,
    /// Starting LCN; `None` for sparse runs.
    pub lcn: Option<i64>,
    /// First VCN covered by this run.
    pub first_vcn: u64,
}

/// Run-list decode errors (typed, never silent).
#[derive(Debug, Clone, PartialEq, Eq)]
pub enum RunError {
    /// The run list overruns the attribute bounds.
    Overrun,
}

/// One run as written in the list, before it is placed.
pub struct RawRun {
    /// Length in clusters.
    pub length: nat,
    /// Distance from the previous located run; `None` for sparse runs.
    pub delta: Option<int>,
}

/// The unsigned value of little-endian bytes.
pub open spec fn le_value(bytes: Seq<u8>) -> nat
    decreases bytes.len(),
{
    if bytes.len() == 0 {
        0
    } else {
        bytes[0] as nat + 256 * le_value(bytes.drop_first())
    }
}

/// The two's complement value of little-endian bytes.
pub open spec fn le_signed_value(bytes: Seq<u8>) -> int {
    if bytes.len() > 0 && bytes.last() >= 0x80 {
        le_value(bytes) - pow(256, bytes.len())
    } else {
        le_value(bytes) as int
    }
}

/// Width of the length field that a header announces.
pub open spec fn length_width(header: u8) -> int {
    header as int % 16
}

/// Width of the offset field that a header announces.
pub open spec fn offset_width(header: u8) -> int {
    header as int / 16
}

/// The length field of the item at `at`.
pub open spec fn length_field(list: Seq<u8>, at: int) -> Seq<u8> {
    list.subrange(at + 1, at + 1 + length_width(list[at]))
}

/// The offset field of the item at `at`.
pub open spec fn offset_field(list: Seq<u8>, at: int) -> Seq<u8> {
    list.subrange(
        at + 1 + length_width(list[at]),
        at + 1 + length_width(list[at]) + offset_width(list[at]),
    )
}

/// The run that the item at `at` writes down.
pub open spec fn raw_run(list: Seq<u8>, at: int) -> RawRun {
    RawRun {
        length: le_value(length_field(list, at)),
        delta: if offset_width(list[at]) == 0 {
            None
        } else {
            Some(le_signed_value(offset_field(list, at)))
        },
    }
}

/// The runs written in `list` from position `at` on, or `None` when an item
/// reaches past the end of the list.
///
/// An item with a field wider than eight bytes is skipped with its fields, and so
/// is an item of length zero: it is no run.
pub open spec fn raw_runs(list: Seq<u8>, at: int) -> Option<Seq<RawRun>>
    decreases list.len() - at,
{
    if at < 0 || at >= list.len() || list[at] == 0 {
        Some(Seq::empty())
    } else {
        let after_item = at + 1 + length_width(list[at]) + offset_width(list[at]);
        if length_width(list[at]) > 8 || offset_width(list[at]) > 8 {
            if after_item > list.len() {
                None
            } else {
                raw_runs(list, after_item)
            }
        } else if after_item > list.len() {
            None
        } else if le_value(length_field(list, at)) == 0 {
            raw_runs(list, after_item)
        } else {
            match raw_runs(list, after_item) {
                None => None,
                Some(rest) => Some(seq![raw_run(list, at)] + rest),
            }
        }
    }
}

/// The entries for `raw` over a span of which `left` clusters from `vcn` on
/// are still uncovered, with the last located run at `lcn`.
///
/// A run longer than what is left is dropped. A run whose LCN does not fit in
/// 64 bits is dropped too, but the clusters it claims stay claimed. What is
/// left behind the last run is a sparse tail, unless it does not fit in 64
/// bits.
pub open spec fn place_runs(raw: Seq<RawRun>, vcn: int, left: int, lcn: int) -> Seq<RunEntry>
    decreases raw.len(),
{
    if raw.len() == 0 {
        if 0 < left <= u64::MAX {
            seq![RunEntry { length: left as u64, lcn: None, first_vcn: vcn as u64 }]
        } else {
            Seq::empty()
        }
    } else {
        let run = raw[0];
        let rest = raw.drop_first();
        if run.length > left {
            place_runs(rest, vcn, left, lcn)
        } else {
            let length = run.length as u64;
            match run.delta {
                None => seq![RunEntry { length, lcn: None, first_vcn: vcn as u64 }]
                    + place_runs(rest, vcn + run.length, left - run.length, lcn),
                Some(delta) => if i64::MIN <= lcn + delta <= i64::MAX {
                    seq![
                        RunEntry {
                            length,
                            lcn: Some((lcn + delta) as i64),
                            first_vcn: vcn as u64,
                        },
                    ] + place_runs(rest, vcn + run.length, left - run.length, lcn + delta)
                } else {
                    place_runs(rest, vcn + run.length, left - run.length, lcn)
                },
            }
        }
    }
}

/// Number of clusters in the span `[first_vcn, last_vcn]` (not positive when
/// the two are out of order).
pub open spec fn span(first_vcn: u64, last_vcn: u64) -> int {
    last_vcn - first_vcn + 1
}

/// The part of `bytes` that holds the run list.
pub open spec fn list_bytes(bytes: Seq<u8>, end: usize) -> Seq<u8> {
    if end <= bytes.len() {
        bytes.take(end as int)
    } else {
        bytes
    }
}

/// The runs in `bytes[start..end]` over the VCN span `[first_vcn, last_vcn]`, or
/// `None` when an item reaches past the end of the list.
pub open spec fn decoded(
    bytes: Seq<u8>,
    start: usize,
    end: usize,
    first_vcn: u64,
    last_vcn: u64,
) -> Option<Seq<RunEntry>> {
    match raw_runs(list_bytes(bytes, end), start as int) {
        None => None,
        Some(raw) => Some(place_runs(raw, first_vcn as int, span(first_vcn, last_vcn), 0)),
    }
}

/// What is decoded from `list` from position `at` on.
spec fn decoded_from(list: Seq<u8>, at: int, vcn: int, left: int, lcn: int) -> Option<
    Seq<RunEntry>,
> {
    match raw_runs(list, at) {
        None => None,
        Some(raw) => Some(place_runs(raw, vcn, left, lcn)),
    }
}

spec fn prepended(front: Seq<RunEntry>, rest: Option<Seq<RunEntry>>) -> Option<Seq<RunEntry>> {
    match rest {
        None => None,
        Some(entries) => Some(front + entries),
    }
}

pub proof fn lemma_le_value_bound(bytes: Seq<u8>)
    ensures
        le_value(bytes) < pow(256, bytes.len()),
    decreases bytes.len(),
{
    reveal(pow);
    if bytes.len() > 0 {
        lemma_le_value_bound(bytes.drop_first());
    }
}

proof fn lemma_le_value_prepend(bytes: Seq<u8>, from: int, to: int)
    requires
        0 <= from < to <= bytes.len(),
    ensures
        le_value(bytes.subrange(from, to)) == bytes[from] as nat + 256 * le_value(
            bytes.subrange(from + 1, to),
        ),
{
    assert(bytes.subrange(from, to).drop_first() =~= bytes.subrange(from + 1, to));
}

pub proof fn lemma_pow256_small(n: nat)
    requires
        n <= 8,
    ensures
        1 <= pow(256, n) <= 0x1_0000_0000_0000_0000,
        n < 8 ==> pow(256, n) <= 0x100_0000_0000_0000,
        n > 0 ==> pow(256, n) == 256 * pow(256, (n - 1) as nat),
        pow(256, 8) == 0x1_0000_0000_0000_0000,
{
    reveal(pow);
    assert(pow(256, 0) == 1);
    assert(pow(256, 1) == 256);
    assert(pow(256, 2) == 0x1_0000);
    assert(pow(256, 3) == 0x100_0000);
    assert(pow(256, 4) == 0x1_0000_0000);
    assert(pow(256, 5) == 0x100_0000_0000);
    assert(pow(256, 6) == 0x1_0000_0000_0000);
    assert(pow(256, 7) == 0x100_0000_0000_0000);
    assert(pow(256, 8) == 0x1_0000_0000_0000_0000);
}

/// The value of `bytes[from..to]`, at most eight bytes.
fn le_bytes_value(bytes: &[u8], from: usize, to: usize) -> (value: u64)
    requires
        from <= to <= bytes@.len(),
        to - from <= 8,
    ensures
        value == le_value(bytes@.subrange(from as int, to as int)),
{
    let mut at: usize = to;
    let mut value: u64 = 0;
    while at > from
        invariant
            from <= at <= to <= bytes@.len(),
            to - from <= 8,
            value == le_value(bytes@.subrange(at as int, to as int)),
        decreases at,
    {
        proof {
            lemma_le_value_bound(bytes@.subrange(at as int, to as int));
            lemma_pow256_small((to - at) as nat);
            lemma_le_value_prepend(bytes@, at - 1, to as int);
        }
        at = at - 1;
        value = value * 256 + bytes[at] as u64;
    }
    value
}

/// The field of `width` bytes at `at` lies in `bytes`; an empty field always does.
pub open spec fn has_field(bytes: Seq<u8>, at: int, width: int) -> bool {
    width == 0 || at + width <= bytes.len()
}

/// The field of `width` bytes at `at`.
pub open spec fn field(bytes: Seq<u8>, at: int, width: int) -> Seq<u8> {
    if width == 0 {
        Seq::empty()
    } else {
        bytes.subrange(at, at + width)
    }
}

/// Read `width` little-endian bytes as u64 (width ≤ 8). Where they are not all
/// there, the cursor stays.
fn read_le_u64(bytes: &[u8], cursor: &mut usize, width: u8) -> (value: Option<u64>)
    requires
        width <= 8,
    ensures
        match value {
            Some(v) => {
                &&& has_field(bytes@, *old(cursor) as int, width as int)
                &&& *final(cursor) == *old(cursor) + width
                &&& v == le_value(field(bytes@, *old(cursor) as int, width as int))
            },
            None => {
                &&& !has_field(bytes@, *old(cursor) as int, width as int)
                &&& *final(cursor) == *old(cursor)
            },
        },
{
    if width == 0 {
        return Some(0);
    }
    if *cursor > bytes.len() || (width as usize) > bytes.len() - *cursor {
        return None;
    }
    let from: usize = *cursor;
    let to: usize = from + width as usize;
    *cursor = to;
    Some(le_bytes_value(bytes, from, to))
}

/// Read `width` little-endian bytes as sign-extended i64. The second
/// return is false when the width is 0 (sparse marker). Where the bytes are not
/// all there, the cursor stays.
fn read_le_i64_signed(bytes: &[u8], cursor: &mut usize, width: u8) -> (value: Option<(i64, bool)>)
    requires
        width <= 8,
    ensures
        match value {
            Some((v, present)) => {
                &&& has_field(bytes@, *old(cursor) as int, width as int)
                &&& *final(cursor) == *old(cursor) + width
                &&& present == (width > 0)
                &&& v == le_signed_value(field(bytes@, *old(cursor) as int, width as int))
            },
            None => {
                &&& !has_field(bytes@, *old(cursor) as int, width as int)
                &&& *final(cursor) == *old(cursor)
            },
        },
{
    if width == 0 {
        return Some((0, false));
    }
    if *cursor > bytes.len() || (width as usize) > bytes.len() - *cursor {
        return None;
    }
    let from: usize = *cursor;
    let to: usize = from + width as usize;
    *cursor = to;
    let unsigned: u64 = le_bytes_value(bytes, from, to);
    proof {
        lemma_sign_split(bytes@.subrange(from as int, to as int));
        lemma_pow256_small(width as nat);
    }
    if bytes[to - 1] < 0x80 {
        return Some((unsigned as i64, true));
    }
    // Sign-extend: the top bit of the last byte is set.
    let mut modulus: i128 = 1;
    let mut i: u8 = 0;
    proof {
        reveal(pow);
    }
    while i < width
        invariant
            i <= width <= 8,
            modulus == pow(256, i as nat),
        decreases width - i,
    {
        proof {
            lemma_pow256_small(i as nat);
            lemma_pow256_small((i + 1) as nat);
        }
        modulus = modulus * 256;
        i = i + 1;
    }
    Some(((unsigned as i128 - modulus) as i64, true))
}

/// The last byte decides in which half of the unsigned range a value lies.
pub proof fn lemma_sign_split(bytes: Seq<u8>)
    requires
        bytes.len() > 0,
    ensures
        bytes.last() >= 0x80 ==> 2 * le_value(bytes) >= pow(256, bytes.len()),
        bytes.last() < 0x80 ==> 2 * le_value(bytes) < pow(256, bytes.len()),
        le_value(bytes) < pow(256, bytes.len()),
    decreases bytes.len(),
{
    reveal(pow);
    let rest = bytes.drop_first();
    assert(pow(256, bytes.len()) == 256 * pow(256, rest.len()));
    if bytes.len() == 1 {
        assert(le_value(rest) == 0);
        assert(pow(256, rest.len()) == 1);
    } else {
        lemma_sign_split(rest);
        assert(rest.last() == bytes.last());
        assert(pow(256, rest.len()) == 256 * pow(256, (rest.len() - 1) as nat));
    }
}

/// A run at the head of the list is placed first.
proof fn lemma_decode_run(list: Seq<u8>, at: int, vcn: int, left: int, lcn: int)
    requires
        0 <= at < list.len(),
        list[at] != 0,
        length_width(list[at]) <= 8,
        offset_width(list[at]) <= 8,
        at + 1 + length_width(list[at]) + offset_width(list[at]) <= list.len(),
        le_value(length_field(list, at)) > 0,
    ensures
        ({
            let next = at + 1 + length_width(list[at]) + offset_width(list[at]);
            let run = raw_run(list, at);
            let whole = decoded_from(list, at, vcn, left, lcn);
            if run.length > left {
                whole == decoded_from(list, next, vcn, left, lcn)
            } else {
                let length = run.length as u64;
                match run.delta {
                    None => whole == prepended(
                        seq![RunEntry { length, lcn: None, first_vcn: vcn as u64 }],
                        decoded_from(list, next, vcn + run.length, left - run.length, lcn),
                    ),
                    Some(delta) => if i64::MIN <= lcn + delta <= i64::MAX {
                        whole == prepended(
                            seq![
                                RunEntry {
                                    length,
                                    lcn: Some((lcn + delta) as i64),
                                    first_vcn: vcn as u64,
                                },
                            ],
                            decoded_from(
                                list,
                                next,
                                vcn + run.length,
                                left - run.length,
                                lcn + delta,
                            ),
                        )
                    } else {
                        whole == decoded_from(list, next, vcn + run.length, left - run.length, lcn)
                    },
                }
            }
        }),
{
    let next = at + 1 + length_width(list[at]) + offset_width(list[at]);
    match raw_runs(list, next) {
        None => {},
        Some(rest) => {
            assert((seq![raw_run(list, at)] + rest).drop_first() =~= rest);
        },
    }
}

/// Entries already out stay in front of what is still to come.
proof fn lemma_prepended_assoc(a: Seq<RunEntry>, b: Seq<RunEntry>, rest: Option<Seq<RunEntry>>)
    ensures
        prepended(a, prepended(b, rest)) == prepended(a + b, rest),
        prepended(Seq::empty(), rest) == rest,
{
    match rest {
        None => {},
        Some(entries) => {
            assert(a + (b + entries) =~= a + b + entries);
            assert(Seq::empty() + entries =~= entries);
        },
    }
}

/// Decode the run list in `bytes[start..end]` covering the VCN span
/// `[first_vcn, last_vcn]`.
///
/// # Errors
/// [`RunError::Overrun`] when an item reaches past the end of the list.
pub fn decode_run_list(
    bytes: &[u8],
    start: usize,
    end: usize,
    first_vcn: u64,
    last_vcn: u64,
) -> (result: Result<Vec<RunEntry>, RunError>)
    ensures
        match decoded(bytes@, start, end, first_vcn, last_vcn) {
            Some(entries) => result is Ok && result->Ok_0@ == entries,
            None => result == Err::<Vec<RunEntry>, RunError>(RunError::Overrun),
        },
{
    let stop: usize = if end < bytes.len() {
        end
    } else {
        bytes.len()
    };
    let list: &[u8] = vstd::slice::slice_subrange(bytes, 0, stop);
    let mut out: Vec<RunEntry> = Vec::new();
    let mut cursor: usize = start;
    let mut vcn: i128 = first_vcn as i128;
    let mut remaining: i128 = last_vcn as i128 - first_vcn as i128 + 1;
    let mut lcn: i64 = 0;
    let ghost whole = decoded_from(
        list@,
        start as int,
        first_vcn as int,
        span(first_vcn, last_vcn),
        0,
    );
    proof {
        assert(list@ =~= list_bytes(bytes@, end));
        lemma_prepended_assoc(Seq::empty(), Seq::empty(), whole);
    }
    while cursor < stop
        invariant_except_break
            whole == prepended(
                out@,
                decoded_from(list@, cursor as int, vcn as int, remaining as int, lcn as int),
            ),
        invariant
            stop == list@.len(),
            list@ == list_bytes(bytes@, end),
            whole == decoded_from(
                list@,
                start as int,
                first_vcn as int,
                span(first_vcn, last_vcn),
                0,
            ),
            vcn + remaining == last_vcn + 1,
            first_vcn <= vcn,
        ensures
            whole == prepended(
                out@,
                Some(place_runs(Seq::empty(), vcn as int, remaining as int, lcn as int)),
            ),
        decreases stop - cursor,
    {
        let ghost at = cursor as int;
        let header: u8 = list[cursor];
        cursor = cursor + 1;
        if header == 0 {
            break ;
        }
        let length_width: u8 = header % 16;
        let offset_width: u8 = header / 16;
        if length_width > 8 || offset_width > 8 {
            // Corrupt widths: skip the claimed bytes, keep the walk alive.
            let skip: usize = length_width as usize + offset_width as usize;
            if skip > stop - cursor {
                return Err(RunError::Overrun);
            }
            cursor = cursor + skip;
            continue ;
        }
        let length: u64 = match read_le_u64(list, &mut cursor, length_width) {
            Some(length) => length,
            None => {
                return Err(RunError::Overrun);
            },
        };
        let (offset, has_offset): (i64, bool) = match read_le_i64_signed(
            list,
            &mut cursor,
            offset_width,
        ) {
            Some(field) => field,
            None => {
                return Err(RunError::Overrun);
            },
        };
        proof {
            assert(length_field(list@, at) =~= field(list@, at + 1, length_width as int));
            assert(offset_field(list@, at) =~= field(
                list@,
                at + 1 + length_width,
                offset_width as int,
            ));
        }
        // The format has no zero-length run: the bytes are corrupt; drop the item.
        if length == 0 {
            continue ;
        }
        proof {
            lemma_decode_run(list@, at, vcn as int, remaining as int, lcn as int);
        }
        if length as i128 > remaining {
            // Longer than what is left of the span: corrupt; drop it.
            continue ;
        }
        let ghost out0 = out@;
        let entry_vcn: u64 = vcn as u64;
        vcn = vcn + length as i128;
        remaining = remaining - length as i128;
        if !has_offset {
            out.push(RunEntry { length, lcn: None, first_vcn: entry_vcn });
        } else {
            match lcn.checked_add(offset) {
                Some(v) => {
                    lcn = v;
                    out.push(RunEntry { length, lcn: Some(v), first_vcn: entry_vcn });
                },
                // The LCN leaves its range: corrupt delta; drop the run.
                None => {},
            }
        }
        proof {
            let rest = decoded_from(
                list@,
                cursor as int,
                vcn as int,
                remaining as int,
                lcn as int,
            );
            if out@.len() > out0.len() {
                lemma_prepended_assoc(out0, seq![out@.last()], rest);
                assert(out@ =~= out0 + seq![out@.last()]);
            }
        }
    }
    if remaining > 0 && remaining <= u64::MAX as i128 {
        out.push(RunEntry { length: remaining as u64, lcn: None, first_vcn: vcn as u64 });
    }
    Ok(out)
}

/// Sum of the lengths of `runs`.
pub open spec fn total_length(runs: Seq<RunEntry>) -> nat
    decreases runs.len(),
{
    if runs.len() == 0 {
        0
    } else {
        runs[0].length as nat + total_length(runs.drop_first())
    }
}

/// Clusters claimed by runs that are dropped because their LCN leaves its
/// range.
pub open spec fn lost_clusters(raw: Seq<RawRun>, left: int, lcn: int) -> nat
    decreases raw.len(),
{
    if raw.len() == 0 {
        0
    } else {
        let run = raw[0];
        let rest = raw.drop_first();
        if run.length > left {
            lost_clusters(rest, left, lcn)
        } else {
            match run.delta {
                None => lost_clusters(rest, left - run.length, lcn),
                Some(delta) => if i64::MIN <= lcn + delta <= i64::MAX {
                    lost_clusters(rest, left - run.length, lcn + delta)
                } else {
                    run.length + lost_clusters(rest, left - run.length, lcn)
                },
            }
        }
    }
}

/// Runs in ascending, disjoint VCN ranges inside `[vcn, vcn + left)`.
pub open spec fn in_span(runs: Seq<RunEntry>, vcn: int, left: int) -> bool {
    &&& forall|i: int|
        0 <= i < runs.len() ==> {
            &&& (#[trigger] runs[i]).length > 0
            &&& vcn <= runs[i].first_vcn
            &&& runs[i].first_vcn + runs[i].length <= vcn + left
        }
    &&& forall|i: int, j: int|
        0 <= i < j < runs.len() ==> (#[trigger] runs[i]).first_vcn + runs[i].length <= (
        #[trigger] runs[j]).first_vcn
}

proof fn lemma_raw_run_lengths(list: Seq<u8>, at: int)
    ensures
        raw_runs(list, at) matches Some(raw) ==> forall|i: int|
            0 <= i < raw.len() ==> 0 < (#[trigger] raw[i]).length <= u64::MAX,
    decreases list.len() - at,
{
    if 0 <= at < list.len() && list[at] != 0 {
        let after_item = at + 1 + length_width(list[at]) + offset_width(list[at]);
        if after_item <= list.len() {
            lemma_raw_run_lengths(list, after_item);
            lemma_le_value_bound(length_field(list, at));
            if length_width(list[at]) <= 8 {
                lemma_pow256_small(length_width(list[at]) as nat);
            }
        }
    }
}

proof fn lemma_in_span_prepend(entry: RunEntry, rest: Seq<RunEntry>, vcn: int, left: int)
    requires
        entry.length > 0,
        entry.first_vcn == vcn,
        entry.length <= left,
        in_span(rest, vcn + entry.length, left - entry.length),
    ensures
        in_span(seq![entry] + rest, vcn, left),
        total_length(seq![entry] + rest) == entry.length + total_length(rest),
{
    let runs = seq![entry] + rest;
    assert(runs.drop_first() =~= rest);
    assert forall|i: int, j: int| 0 <= i < j < runs.len() implies (
    #[trigger] runs[i]).first_vcn + runs[i].length <= (#[trigger] runs[j]).first_vcn by {
        assert(runs[j] == rest[j - 1]);
        if i > 0 {
            assert(runs[i] == rest[i - 1]);
        }
    }
    assert forall|i: int| 0 <= i < runs.len() implies {
        &&& (#[trigger] runs[i]).length > 0
        &&& vcn <= runs[i].first_vcn
        &&& runs[i].first_vcn + runs[i].length <= vcn + left
    } by {
        if i > 0 {
            assert(runs[i] == rest[i - 1]);
        }
    }
}

proof fn lemma_placed_in_span(raw: Seq<RawRun>, vcn: int, left: int, lcn: int)
    requires
        0 <= vcn,
        vcn + left <= u64::MAX + 1,
        forall|i: int| 0 <= i < raw.len() ==> 0 < (#[trigger] raw[i]).length <= u64::MAX,
    ensures
        in_span(place_runs(raw, vcn, left, lcn), vcn, left),
        0 <= left <= u64::MAX ==> total_length(place_runs(raw, vcn, left, lcn)) + lost_clusters(
            raw,
            left,
            lcn,
        ) == left,
    decreases raw.len(),
{
    if raw.len() == 0 {
        if 0 < left <= u64::MAX {
            let tail = RunEntry { length: left as u64, lcn: None, first_vcn: vcn as u64 };
            lemma_in_span_prepend(tail, Seq::empty(), vcn, left);
            assert(seq![tail] + Seq::<RunEntry>::empty() =~= seq![tail]);
        }
    } else {
        let run = raw[0];
        let rest = raw.drop_first();
        assert forall|i: int| 0 <= i < rest.len() implies 0 < (
        #[trigger] rest[i]).length <= u64::MAX by {
            assert(rest[i] == raw[i + 1]);
        }
        if run.length > left {
            lemma_placed_in_span(rest, vcn, left, lcn);
        } else {
            let vcn2 = vcn + run.length;
            let left2 = left - run.length;
            lemma_placed_in_span(rest, vcn2, left2, lcn);
            match run.delta {
                None => {
                    lemma_in_span_prepend(
                        RunEntry { length: run.length as u64, lcn: None, first_vcn: vcn as u64 },
                        place_runs(rest, vcn2, left2, lcn),
                        vcn,
                        left,
                    );
                },
                Some(delta) => if i64::MIN <= lcn + delta <= i64::MAX {
                    lemma_placed_in_span(rest, vcn2, left2, lcn + delta);
                    lemma_in_span_prepend(
                        RunEntry {
                            length: run.length as u64,
                            lcn: Some((lcn + delta) as i64),
                            first_vcn: vcn as u64,
                        },
                        place_runs(rest, vcn2, left2, lcn + delta),
                        vcn,
                        left,
                    );
                } else {
                    let later = place_runs(rest, vcn2, left2, lcn);
                    assert(in_span(later, vcn, left)) by {
                        assert forall|i: int| 0 <= i < later.len() implies {
                            &&& (#[trigger] later[i]).length > 0
                            &&& vcn <= later[i].first_vcn
                            &&& later[i].first_vcn + later[i].length <= vcn + left
                        } by {}
                    }
                },
            }
        }
    }
}

/// Whatever the bytes, a decoded list holds no empty run, and its runs cover
/// disjoint, ascending VCN ranges inside `[first_vcn, last_vcn]`.
pub proof fn law_runs_stay_in_span(list: Seq<u8>, at: int, first_vcn: u64, last_vcn: u64)
    ensures
        raw_runs(list, at) matches Some(raw) ==> in_span(
            place_runs(raw, first_vcn as int, span(first_vcn, last_vcn), 0),
            first_vcn as int,
            span(first_vcn, last_vcn),
        ),
{
    lemma_raw_run_lengths(list, at);
    if let Some(raw) = raw_runs(list, at) {
        lemma_placed_in_span(raw, first_vcn as int, span(first_vcn, last_vcn), 0);
    }
}

/// A decoded list accounts for every cluster of its span: what its runs do not
/// cover was claimed by runs whose LCN left its range. (A span of `2^64`
/// clusters, which no entry can hold, is the exception.)
pub proof fn law_runs_account_for_span(list: Seq<u8>, at: int, first_vcn: u64, last_vcn: u64)
    requires
        0 <= span(first_vcn, last_vcn) <= u64::MAX,
    ensures
        raw_runs(list, at) matches Some(raw) ==> total_length(
            place_runs(raw, first_vcn as int, span(first_vcn, last_vcn), 0),
        ) + lost_clusters(raw, span(first_vcn, last_vcn), 0) == span(first_vcn, last_vcn),
{
    lemma_raw_run_lengths(list, at);
    if let Some(raw) = raw_runs(list, at) {
        lemma_placed_in_span(raw, first_vcn as int, span(first_vcn, last_vcn), 0);
    }
}

} // verus!
