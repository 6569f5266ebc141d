//! What run-list decoding gives back of a list that was written down.

use crate::turbo::runs::{
    decoded, le_signed_value, le_value, length_field, length_width, lemma_le_value_bound,
    lemma_pow256_small, lemma_sign_split, list_bytes, offset_field, offset_width, place_runs,
    raw_run, raw_runs, RawRun,
};
use vstd::arithmetic::power::pow;
use vstd::prelude::*;

verus! {

/// Little-endian bytes are digits to the base 256, lowest first.
pub proof fn law_lengths_are_positional(low: Seq<u8>, high: Seq<u8>, digit: u8)
    ensures
        le_value(Seq::<u8>::empty()) == 0,
        le_value(seq![digit]) == digit,
        le_value(low + high) == le_value(low) + pow(256, low.len()) * le_value(high),
    decreases low.len(),
{
    assert(seq![digit].drop_first() =~= Seq::<u8>::empty());
    assert(le_value(Seq::<u8>::empty()) == 0);
    reveal(pow);
    if low.len() == 0 {
        assert(low + high =~= high);
        assert(pow(256, 0) == 1);
    } else {
        let rest = low.drop_first();
        law_lengths_are_positional(rest, high, digit);
        assert((low + high).drop_first() =~= rest + high);
        let p = pow(256, rest.len());
        let h = le_value(high) as int;
        assert(pow(256, low.len()) == 256 * p);
        assert((256 * p) * h == 256 * (p * h)) by (nonlinear_arith);
    }
}

/// An offset field of any width is read as two's complement: its value lies in the
/// signed range of that width, and it is the unsigned value, or that less the
/// number of values that the field has.
pub proof fn law_offsets_are_twos_complement(bytes: Seq<u8>)
    requires
        bytes.len() > 0,
    ensures
        ({
            let values = pow(256, bytes.len());
            let v = le_signed_value(bytes);
            &&& -values <= 2 * v < values
            &&& v == le_value(bytes) || v == le_value(bytes) - values
        }),
{
    lemma_sign_split(bytes);
    lemma_le_value_bound(bytes);
}

/// For the widths that a run list may use the signed range is the usual one.
pub proof fn law_offset_ranges(bytes: Seq<u8>)
    requires
        1 <= bytes.len() <= 8,
    ensures
        bytes.len() == 1 ==> -0x80 <= le_signed_value(bytes) < 0x80,
        bytes.len() == 2 ==> -0x8000 <= le_signed_value(bytes) < 0x8000,
        bytes.len() == 3 ==> -0x80_0000 <= le_signed_value(bytes) < 0x80_0000,
        bytes.len() == 4 ==> -0x8000_0000 <= le_signed_value(bytes) < 0x8000_0000,
        bytes.len() == 5 ==> -0x80_0000_0000 <= le_signed_value(bytes) < 0x80_0000_0000,
        bytes.len() == 6 ==> -0x8000_0000_0000 <= le_signed_value(bytes) < 0x8000_0000_0000,
        bytes.len() == 7 ==> -0x80_0000_0000_0000 <= le_signed_value(bytes) < 0x80_0000_0000_0000,
        bytes.len() == 8 ==> -0x8000_0000_0000_0000 <= le_signed_value(bytes)
            < 0x8000_0000_0000_0000,
{
    law_offsets_are_twos_complement(bytes);
    reveal(pow);
    assert(pow(256, 0) == 1);
    assert(pow(256, 1) == 256);
    assert(pow(256, 2) == 0x1_0000);
    assert(pow(256, 3) == 0x100_0000);
    assert(pow(256, 4) == 0x1_0000_0000);
    assert(pow(256, 5) == 0x100_0000_0000);
    assert(pow(256, 6) == 0x1_0000_0000_0000);
    assert(pow(256, 7) == 0x100_0000_0000_0000);
    assert(pow(256, 8) == 0x1_0000_0000_0000_0000);
}

/// One item of a list, by the bytes of its two fields.
pub struct RunItem {
    /// The length field.
    pub length: Seq<u8>,
    /// The offset field; empty in a sparse item.
    pub offset: Seq<u8>,
}

impl RunItem {
    /// The item can be written: each width fits in its nibble, and the header is
    /// not the end of the list.
    pub open spec fn writable(&self) -> bool {
        &&& self.length.len() <= 15
        &&& self.offset.len() <= 15
        &&& self.length.len() + self.offset.len() > 0
    }

    /// The item is a run: its fields are no wider than eight bytes, and it is not
    /// empty.
    pub open spec fn is_run(&self) -> bool {
        &&& self.length.len() <= 8
        &&& self.offset.len() <= 8
        &&& le_value(self.length) > 0
    }

    /// The bytes of the item: the header, the length, the offset.
    pub open spec fn bytes(&self) -> Seq<u8> {
        seq![(self.length.len() + 16 * self.offset.len()) as u8] + self.length + self.offset
    }

    /// The run that the item stands for.
    pub open spec fn run(&self) -> RawRun {
        RawRun {
            length: le_value(self.length),
            delta: if self.offset.len() == 0 {
                None
            } else {
                Some(le_signed_value(self.offset))
            },
        }
    }
}

/// The bytes of `items`, one behind the other.
pub open spec fn written(items: Seq<RunItem>) -> Seq<u8>
    decreases items.len(),
{
    if items.len() == 0 {
        Seq::empty()
    } else {
        items[0].bytes() + written(items.drop_first())
    }
}

/// The runs among `items`, in their order.
pub open spec fn meant(items: Seq<RunItem>) -> Seq<RawRun>
    decreases items.len(),
{
    if items.len() == 0 {
        Seq::empty()
    } else if items[0].is_run() {
        seq![items[0].run()] + meant(items.drop_first())
    } else {
        meant(items.drop_first())
    }
}

/// The item at the head of a list is read as it was written.
proof fn lemma_head_item(front: Seq<u8>, item: RunItem, rest: Seq<u8>)
    requires
        item.writable(),
    ensures
        ({
            let list = front + item.bytes() + rest;
            let at = front.len() as int;
            &&& list[at] != 0
            &&& length_width(list[at]) == item.length.len()
            &&& offset_width(list[at]) == item.offset.len()
            &&& length_field(list, at) == item.length
            &&& offset_field(list, at) == item.offset
            &&& raw_run(list, at) == item.run()
        }),
{
    let list = front + item.bytes() + rest;
    let at = front.len() as int;
    let l = item.length.len();
    let o = item.offset.len();
    assert(item.bytes()[0] == l + 16 * o);
    assert(list[at] == item.bytes()[0]);
    assert((l + 16 * o) % 16 == l);
    assert((l + 16 * o) / 16 == o);
    assert(length_field(list, at) =~= item.length);
    assert(offset_field(list, at) =~= item.offset);
}

/// Reading back a written list gives the runs that were written, in their order.
/// Items that are no runs are passed over, and nothing behind the end of the list
/// counts.
pub proof fn law_written_runs_are_read(front: Seq<u8>, items: Seq<RunItem>, tail: Seq<u8>)
    requires
        forall|k: int| 0 <= k < items.len() ==> (#[trigger] items[k]).writable(),
        tail.len() > 0 ==> tail[0] == 0,
    ensures
        raw_runs(front + written(items) + tail, front.len() as int) == Some(meant(items)),
    decreases items.len(),
{
    let list = front + written(items) + tail;
    let at = front.len() as int;
    if items.len() == 0 {
        if tail.len() > 0 {
            assert(list[at] == tail[0]);
        }
    } else {
        let item = items[0];
        let later = items.drop_first();
        assert forall|k: int| 0 <= k < later.len() implies (#[trigger] later[k]).writable() by {
            assert(later[k] == items[k + 1]);
        }
        law_written_runs_are_read(front + item.bytes(), later, tail);
        assert(front + item.bytes() + written(later) + tail =~= list);
        lemma_head_item(front, item, written(later) + tail);
        assert(front + item.bytes() + (written(later) + tail) =~= list);
    }
}

/// A list that breaks off inside an item is an overrun.
pub proof fn law_torn_item_is_an_overrun(
    front: Seq<u8>,
    items: Seq<RunItem>,
    torn: RunItem,
    kept: int,
)
    requires
        forall|k: int| 0 <= k < items.len() ==> (#[trigger] items[k]).writable(),
        torn.writable(),
        0 < kept < torn.bytes().len(),
    ensures
        raw_runs(front + written(items) + torn.bytes().take(kept), front.len() as int) is None,
    decreases items.len(),
{
    let tail = torn.bytes().take(kept);
    let list = front + written(items) + tail;
    let at = front.len() as int;
    if items.len() == 0 {
        lemma_head_item(front, torn, Seq::empty());
        assert(list[at] == torn.bytes()[0]);
        assert((front + torn.bytes() + Seq::<u8>::empty())[at] == torn.bytes()[0]);
    } else {
        let item = items[0];
        let later = items.drop_first();
        assert forall|k: int| 0 <= k < later.len() implies (#[trigger] later[k]).writable() by {
            assert(later[k] == items[k + 1]);
        }
        law_torn_item_is_an_overrun(front + item.bytes(), later, torn, kept);
        assert(front + item.bytes() + written(later) + tail =~= list);
        lemma_head_item(front, item, written(later) + tail);
        assert(front + item.bytes() + (written(later) + tail) =~= list);
    }
}

/// The clusters that the first `k` runs claim.
pub open spec fn claimed(raw: Seq<RawRun>, k: int) -> int
    decreases k,
{
    if k <= 0 {
        0
    } else {
        claimed(raw, k - 1) + raw[k - 1].length
    }
}

/// How far the first `k` runs lead from where the list starts.
pub open spec fn travelled(raw: Seq<RawRun>, k: int) -> int
    decreases k,
{
    if k <= 0 {
        0
    } else {
        travelled(raw, k - 1) + match raw[k - 1].delta {
            None => 0,
            Some(delta) => delta,
        }
    }
}

/// The first `k` runs are sound: they fit in `left` clusters, and every LCN that
/// they lead to from `lcn` fits in 64 bits.
pub open spec fn sound(raw: Seq<RawRun>, k: int, left: int, lcn: int) -> bool {
    &&& 0 <= k <= raw.len()
    &&& claimed(raw, k) <= left
    &&& forall|j: int|
        0 <= j < k && (#[trigger] raw[j]).delta is Some ==> -0x8000_0000_0000_0000 <= lcn
            + travelled(raw, j + 1) < 0x8000_0000_0000_0000
}

proof fn lemma_claimed_step(raw: Seq<RawRun>, k: int)
    requires
        0 < k <= raw.len(),
    ensures
        claimed(raw, k) == raw[0].length + claimed(raw.drop_first(), k - 1),
        travelled(raw, k) == travelled(raw, 1) + travelled(raw.drop_first(), k - 1),
        claimed(raw, k) >= raw[0].length,
    decreases k,
{
    reveal_with_fuel(travelled, 2);
    reveal_with_fuel(claimed, 2);
    if k > 1 {
        lemma_claimed_step(raw, k - 1);
        assert(raw.drop_first()[k - 2] == raw[k - 1]);
    }
}

proof fn lemma_sound_step(raw: Seq<RawRun>, k: int, left: int, lcn: int)
    requires
        0 < k,
        sound(raw, k, left, lcn),
    ensures
        raw[0].length <= left,
        sound(raw.drop_first(), k - 1, left - raw[0].length, lcn + travelled(raw, 1)),
        raw[0].delta is None ==> travelled(raw, 1) == 0,
        raw[0].delta matches Some(delta) ==> travelled(raw, 1) == delta && -0x8000_0000_0000_0000
            <= lcn + delta < 0x8000_0000_0000_0000,
{
    let rest = raw.drop_first();
    lemma_claimed_step(raw, k);
    reveal_with_fuel(travelled, 2);
    assert forall|j: int| 0 <= j < k - 1 && (#[trigger] rest[j]).delta is Some implies
        -0x8000_0000_0000_0000 <= lcn + travelled(raw, 1) + travelled(rest, j + 1)
            < 0x8000_0000_0000_0000 by {
        assert(rest[j] == raw[j + 1]);
        lemma_claimed_step(raw, j + 2);
    }
}

/// Each sound run is placed behind the clusters that the runs before it claim, and
/// a located one lies at its distance from the located run before it.
pub proof fn law_runs_follow_one_another(
    raw: Seq<RawRun>,
    vcn: int,
    left: int,
    lcn: int,
    n: int,
    k: int,
)
    requires
        0 <= vcn,
        vcn + left <= 0x1_0000_0000_0000_0000,
        forall|j: int| 0 <= j < raw.len() ==> 0 < (#[trigger] raw[j]).length <= u64::MAX,
        sound(raw, n, left, lcn),
        0 <= k < n,
    ensures
        ({
            let entries = place_runs(raw, vcn, left, lcn);
            &&& k < entries.len()
            &&& entries[k].length == raw[k].length
            &&& entries[k].first_vcn == vcn + claimed(raw, k)
            &&& raw[k].delta is None ==> entries[k].lcn is None
            &&& raw[k].delta matches Some(delta) ==> entries[k].lcn is Some && entries[k].lcn->0
                == lcn + travelled(raw, k) + delta
        }),
    decreases raw.len(),
{
    let rest = raw.drop_first();
    lemma_sound_step(raw, n, left, lcn);
    assert forall|j: int| 0 <= j < rest.len() implies 0 < (#[trigger] rest[j]).length
        <= u64::MAX by {
        assert(rest[j] == raw[j + 1]);
    }
    if k > 0 {
        law_runs_follow_one_another(
            rest,
            vcn + raw[0].length,
            left - raw[0].length,
            lcn + travelled(raw, 1),
            n - 1,
            k - 1,
        );
        lemma_claimed_step(raw, k);
        assert(rest[k - 1] == raw[k]);
    }
}

/// Where every run is sound, nothing but a sparse tail follows them: it covers
/// what they leave of the span, and there is none where they leave nothing.
pub proof fn law_sparse_tail_covers_the_rest(raw: Seq<RawRun>, vcn: int, left: int, lcn: int)
    requires
        0 <= vcn,
        vcn + left <= 0x1_0000_0000_0000_0000,
        forall|j: int| 0 <= j < raw.len() ==> 0 < (#[trigger] raw[j]).length <= u64::MAX,
        sound(raw, raw.len() as int, left, lcn),
    ensures
        ({
            let entries = place_runs(raw, vcn, left, lcn);
            let gap = left - claimed(raw, raw.len() as int);
            if 0 < gap < 0x1_0000_0000_0000_0000 {
                &&& entries.len() == raw.len() + 1
                &&& entries.last().length == gap
                &&& entries.last().lcn is None
                &&& entries.last().first_vcn == vcn + claimed(raw, raw.len() as int)
            } else {
                entries.len() == raw.len()
            }
        }),
    decreases raw.len(),
{
    if raw.len() > 0 {
        let rest = raw.drop_first();
        lemma_sound_step(raw, raw.len() as int, left, lcn);
        lemma_claimed_step(raw, raw.len() as int);
        assert forall|j: int| 0 <= j < rest.len() implies 0 < (#[trigger] rest[j]).length
            <= u64::MAX by {
            assert(rest[j] == raw[j + 1]);
        }
        law_sparse_tail_covers_the_rest(
            rest,
            vcn + raw[0].length,
            left - raw[0].length,
            lcn + travelled(raw, 1),
        );
    }
}

/// A run that claims more than is left of the span changes nothing: the list reads
/// as if it were not there.
pub proof fn law_oversized_run_is_ignored(
    raw: Seq<RawRun>,
    vcn: int,
    left: int,
    lcn: int,
    k: int,
)
    requires
        sound(raw, k, left, lcn),
        k < raw.len(),
        raw[k].length > left - claimed(raw, k),
    ensures
        place_runs(raw, vcn, left, lcn) == place_runs(raw.remove(k), vcn, left, lcn),
    decreases raw.len(),
{
    let rest = raw.drop_first();
    if k == 0 {
        assert(raw.remove(0) =~= rest);
    } else {
        lemma_sound_step(raw, k, left, lcn);
        lemma_claimed_step(raw, k);
        assert(rest[k - 1] == raw[k]);
        law_oversized_run_is_ignored(
            rest,
            vcn + raw[0].length,
            left - raw[0].length,
            lcn + travelled(raw, 1),
            k - 1,
        );
        assert(raw.remove(k).drop_first() =~= rest.remove(k - 1));
        assert(raw.remove(k)[0] == raw[0]);
    }
}

/// A run whose LCN leaves its range is left out, but keeps its clusters: the list
/// reads like one with a sparse run in its place, less that run.
pub proof fn law_unreachable_run_keeps_its_clusters(
    raw: Seq<RawRun>,
    vcn: int,
    left: int,
    lcn: int,
    k: int,
)
    requires
        0 <= vcn,
        sound(raw, k, left, lcn),
        k < raw.len(),
        raw[k].length <= left - claimed(raw, k),
        raw[k].delta is Some,
        !(-0x8000_0000_0000_0000 <= lcn + travelled(raw, k) + raw[k].delta->0
            < 0x8000_0000_0000_0000),
    ensures
        ({
            let hole = raw.update(k, RawRun { length: raw[k].length, delta: None });
            let entries = place_runs(hole, vcn, left, lcn);
            k < entries.len() && place_runs(raw, vcn, left, lcn) == entries.remove(k)
        }),
    decreases raw.len(),
{
    let rest = raw.drop_first();
    let sparse = RawRun { length: raw[k].length, delta: None };
    let hole = raw.update(k, sparse);
    let entries = place_runs(hole, vcn, left, lcn);
    if k == 0 {
        assert(hole.drop_first() =~= rest);
        assert(entries.remove(0) =~= place_runs(
            rest,
            vcn + raw[0].length,
            left - raw[0].length,
            lcn,
        ));
    } else {
        lemma_sound_step(raw, k, left, lcn);
        lemma_claimed_step(raw, k);
        assert(rest[k - 1] == raw[k]);
        law_unreachable_run_keeps_its_clusters(
            rest,
            vcn + raw[0].length,
            left - raw[0].length,
            lcn + travelled(raw, 1),
            k - 1,
        );
        let later = place_runs(
            rest.update(k - 1, sparse),
            vcn + raw[0].length,
            left - raw[0].length,
            lcn + travelled(raw, 1),
        );
        assert(hole.drop_first() =~= rest.update(k - 1, sparse));
        assert(hole[0] == raw[0]);
        let head = entries[0];
        assert(entries =~= seq![head] + later);
        assert((seq![head] + later).remove(k) =~= seq![head] + later.remove(k - 1));
    }
}

proof fn lemma_meant_runs(items: Seq<RunItem>)
    requires
        forall|k: int| 0 <= k < items.len() ==> (#[trigger] items[k]).is_run(),
    ensures
        meant(items).len() == items.len(),
        forall|k: int|
            0 <= k < items.len() ==> #[trigger] meant(items)[k] == items[k].run() && 0 < meant(
                items,
            )[k].length <= u64::MAX,
    decreases items.len(),
{
    if items.len() > 0 {
        let later = items.drop_first();
        assert forall|k: int| 0 <= k < later.len() implies (#[trigger] later[k]).is_run() by {
            assert(later[k] == items[k + 1]);
        }
        lemma_meant_runs(later);
        assert forall|k: int| 0 <= k < items.len() implies #[trigger] meant(items)[k]
            == items[k].run() && 0 < meant(items)[k].length <= u64::MAX by {
            lemma_le_value_bound(items[k].length);
            lemma_pow256_small(items[k].length.len());
            if k > 0 {
                assert(later[k - 1] == items[k]);
                assert(meant(items)[k] == meant(later)[k - 1]);
            }
        }
    }
}

/// Decoding a list that was written down, and that a zero or the end of the list
/// ends, gives back run by run the length, where it starts in the file, and where
/// it lies on the disk.
pub proof fn law_decoding_gives_back_what_was_written(
    bytes: Seq<u8>,
    start: usize,
    end: usize,
    first_vcn: u64,
    last_vcn: u64,
    items: Seq<RunItem>,
    tail: Seq<u8>,
    k: int,
)
    requires
        start <= end <= bytes.len(),
        bytes.subrange(start as int, end as int) == written(items) + tail,
        tail.len() > 0 ==> tail[0] == 0,
        forall|j: int|
            0 <= j < items.len() ==> (#[trigger] items[j]).writable() && items[j].is_run(),
        sound(meant(items), items.len() as int, last_vcn - first_vcn + 1, 0),
        0 <= k < items.len(),
    ensures
        ({
            let entries = decoded(bytes, start, end, first_vcn, last_vcn);
            let runs = meant(items);
            let gap = last_vcn - first_vcn + 1 - claimed(runs, items.len() as int);
            &&& entries is Some
            &&& entries->0[k].length == le_value(items[k].length)
            &&& entries->0[k].first_vcn == first_vcn + claimed(runs, k)
            &&& if items[k].offset.len() == 0 {
                entries->0[k].lcn is None
            } else {
                &&& entries->0[k].lcn is Some
                &&& entries->0[k].lcn->0 == travelled(runs, k) + le_signed_value(items[k].offset)
            }
            &&& gap == 0 ==> entries->0.len() == items.len()
            &&& 0 < gap <= u64::MAX ==> entries->0.len() == items.len() + 1
        }),
{
    let front = bytes.take(start as int);
    assert(list_bytes(bytes, end) =~= front + written(items) + tail) by {
        assert(front + (written(items) + tail) =~= front + written(items) + tail);
        assert(list_bytes(bytes, end) =~= front + bytes.subrange(start as int, end as int));
    }
    law_written_runs_are_read(front, items, tail);
    lemma_meant_runs(items);
    let runs = meant(items);
    let left = last_vcn - first_vcn + 1;
    assert(runs[k] == items[k].run());
    law_runs_follow_one_another(runs, first_vcn as int, left, 0, items.len() as int, k);
    law_sparse_tail_covers_the_rest(runs, first_vcn as int, left, 0);
}

/// Bytes behind the end of the list do not count.
pub proof fn law_bytes_past_the_end_do_not_count(
    bytes: Seq<u8>,
    other: Seq<u8>,
    start: usize,
    end: usize,
    first_vcn: u64,
    last_vcn: u64,
)
    requires
        end <= bytes.len(),
        end <= other.len(),
        forall|k: int| 0 <= k < end ==> #[trigger] bytes[k] == other[k],
    ensures
        decoded(bytes, start, end, first_vcn, last_vcn) == decoded(
            other,
            start,
            end,
            first_vcn,
            last_vcn,
        ),
{
    assert(bytes.take(end as int) =~= other.take(end as int));
}

/// A list that ends where it starts is one sparse run over the whole span, and
/// nothing where the span is empty.
pub proof fn law_empty_list_is_sparse(
    bytes: Seq<u8>,
    start: usize,
    end: usize,
    first_vcn: u64,
    last_vcn: u64,
)
    requires
        start >= end || start >= bytes.len() || bytes[start as int] == 0,
        last_vcn - first_vcn < u64::MAX,
    ensures
        ({
            let entries = decoded(bytes, start, end, first_vcn, last_vcn);
            &&& entries is Some
            &&& first_vcn > last_vcn ==> entries->0.len() == 0
            &&& first_vcn <= last_vcn ==> {
                &&& entries->0.len() == 1
                &&& entries->0[0].lcn is None
                &&& entries->0[0].first_vcn == first_vcn
                &&& entries->0[0].length == last_vcn - first_vcn + 1
            }
        }),
{
    let list = list_bytes(bytes, end);
    assert(start < list.len() ==> list[start as int] == bytes[start as int]);
    assert(raw_runs(list, start as int) == Some(Seq::<RawRun>::empty()));
}

/// A list cannot be longer than the bytes there are.
pub proof fn law_end_past_the_bytes_is_their_end(
    bytes: Seq<u8>,
    start: usize,
    end: usize,
    other: usize,
    first_vcn: u64,
    last_vcn: u64,
)
    requires
        end >= bytes.len(),
        other >= bytes.len(),
    ensures
        decoded(bytes, start, end, first_vcn, last_vcn) == decoded(
            bytes,
            start,
            other,
            first_vcn,
            last_vcn,
        ),
        raw_runs(bytes, start as int) is None <==> decoded(
            bytes,
            start,
            end,
            first_vcn,
            last_vcn,
        ) is None,
{
    assert(list_bytes(bytes, end) =~= bytes);
    assert(list_bytes(bytes, other) =~= bytes);
}

} // verus!
