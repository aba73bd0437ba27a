//! The mathematical model of the on-disk format.
//!
//! A database image is `header_bytes + data_bytes + tables_bytes`, all
//! three regions a pure function of the record sequence. The writer's
//! `finish` promises to return exactly `image_bytes(records)`; the
//! reader's contracts are stated over `word_at`, `record_at` and `scan`
//! on an arbitrary byte sequence.

use vstd::bytes::{spec_u32_from_le_bytes, spec_u32_to_le_bytes};
use vstd::prelude::*;

use crate::hash::hash_of;

verus! {

/// A logical record: a key and a value, both byte strings.
pub type Rec = (Seq<u8>, Seq<u8>);

/// Number of primary header slots and of secondary hash tables.
pub const NUM_TABLES: usize = 256;

/// Byte length of the primary header.
pub const HEADER_BYTES: usize = 2048;

/// A key or value may be at most 2^32 - 2 bytes long.
pub open spec fn rec_fits(r: Rec) -> bool {
    r.0.len() < 0xffffffff && r.1.len() < 0xffffffff
}

/// All records of a sequence are within the length limit.
pub open spec fn all_recs_fit(rs: Seq<Rec>) -> bool {
    forall|j: int| 0 <= j < rs.len() ==> rec_fits(#[trigger] rs[j])
}

/// Two 32-bit words, each encoded little-endian.
pub open spec fn le_pair(a: u32, b: u32) -> Seq<u8> {
    spec_u32_to_le_bytes(a) + spec_u32_to_le_bytes(b)
}

/// The 32-bit little-endian word stored at offset `pos` of `b`.
pub open spec fn word_at(b: Seq<u8>, pos: int) -> u32
    recommends
        0 <= pos,
        pos + 4 <= b.len(),
{
    spec_u32_from_le_bytes(b.subrange(pos, pos + 4))
}

/// The hash of a record's key.
pub open spec fn rec_hash(r: Rec) -> u32 {
    hash_of(r.0)
}

/// On-disk encoding of one record: both lengths, then the key, then the
/// value.
pub open spec fn record_bytes(r: Rec) -> Seq<u8> {
    le_pair(r.0.len() as u32, r.1.len() as u32) + r.0 + r.1
}

/// The packed data region: the records' encodings in insertion order.
pub open spec fn data_bytes(rs: Seq<Rec>) -> Seq<u8>
    decreases rs.len(),
{
    if rs.len() == 0 {
        Seq::empty()
    } else {
        data_bytes(rs.drop_last()) + record_bytes(rs.last())
    }
}

/// File offset of record `j`: the header, then the records before it.
pub open spec fn rec_pos(rs: Seq<Rec>, j: int) -> int {
    HEADER_BYTES + data_bytes(rs.take(j)).len()
}

/// Appending a record appends its encoding to the data region.
pub proof fn lemma_data_bytes_push(rs: Seq<Rec>, r: Rec)
    ensures
        data_bytes(rs.push(r)) == data_bytes(rs) + record_bytes(r),
{
    assert(rs.push(r).drop_last() =~= rs);
}

/// The data region of a concatenation is the concatenation of the data
/// regions.
pub proof fn lemma_data_bytes_concat(a: Seq<Rec>, b: Seq<Rec>)
    ensures
        data_bytes(a + b) == data_bytes(a) + data_bytes(b),
    decreases b.len(),
{
    if b.len() == 0 {
        assert(a + b =~= a);
        assert(data_bytes(a) + data_bytes(b) =~= data_bytes(a));
    } else {
        lemma_data_bytes_concat(a, b.drop_last());
        assert((a + b).drop_last() =~= a + b.drop_last());
        assert((a + b).last() == b.last());
        assert(data_bytes(a) + (data_bytes(b.drop_last()) + record_bytes(b.last())) =~= (
        data_bytes(a) + data_bytes(b.drop_last())) + record_bytes(b.last()));
    }
}

/// Every record occupies at least eight bytes of the data region.
pub proof fn lemma_data_bytes_len(rs: Seq<Rec>)
    ensures
        data_bytes(rs).len() >= 8 * rs.len(),
    decreases rs.len(),
{
    if rs.len() > 0 {
        lemma_data_bytes_len(rs.drop_last());
        vstd::bytes::lemma_auto_spec_u32_to_from_le_bytes();
    }
}

// ---------------------------------------------------------------------
// Buckets and secondary tables
// ---------------------------------------------------------------------

/// A secondary-table slot or pending entry: `(hash, offset)`. An offset
/// of zero marks an empty slot; real records always sit at or after the
/// header, so their offsets are nonzero.
pub type Slot = (u32, u32);

/// The pending entries of bucket `i`: `(hash(key), record offset)` for
/// each record whose hash has low byte `i`, in insertion order.
pub open spec fn bucket_seq(rs: Seq<Rec>, i: int) -> Seq<Slot>
    decreases rs.len(),
{
    if rs.len() == 0 {
        Seq::empty()
    } else {
        let prev = bucket_seq(rs.drop_last(), i);
        if (rec_hash(rs.last()) & 0xff) == i as u32 {
            prev.push((rec_hash(rs.last()), rec_pos(rs, rs.len() - 1) as u32))
        } else {
            prev
        }
    }
}

/// The pending entry that record `x` contributes to its bucket.
pub open spec fn entry_of(rs: Seq<Rec>, x: int) -> Slot {
    (rec_hash(rs[x]), rec_pos(rs, x) as u32)
}

/// Bucket `i`'s entry `m` is what record `x` contributed.
pub open spec fn bucket_entry_source(rs: Seq<Rec>, i: int, m: int, x: int) -> bool {
    &&& 0 <= x < rs.len()
    &&& bucket_seq(rs, i)[m] == entry_of(rs, x)
    &&& (rec_hash(rs[x]) & 0xff) == i as u32
}

/// Every bucket entry is some record's entry, from a record whose hash
/// has the bucket's index as its low byte.
pub proof fn lemma_bucket_membership(rs: Seq<Rec>, i: int, m: int)
    requires
        0 <= m < bucket_seq(rs, i).len(),
    ensures
        exists|x: int| #[trigger] bucket_entry_source(rs, i, m, x),
    decreases rs.len(),
{
    let prev = rs.drop_last();
    if m < bucket_seq(prev, i).len() {
        lemma_bucket_membership(prev, i, m);
        assert(bucket_seq(rs, i)[m] == bucket_seq(prev, i)[m]);
        let x = choose|x: int| #[trigger] bucket_entry_source(prev, i, m, x);
        assert(prev[x] == rs[x]);
        assert(prev.take(x) =~= rs.take(x));
        assert(entry_of(prev, x) == entry_of(rs, x));
        assert(bucket_entry_source(rs, i, m, x));
    } else {
        let x = rs.len() - 1;
        assert(rs.take(x) =~= prev.take(x));
        assert(bucket_seq(rs, i)[m] == entry_of(rs, x));
        assert(bucket_entry_source(rs, i, m, x));
    }
}

/// Every occupied slot of a partly filled table holds one of the first
/// `m` bucket entries.
pub proof fn lemma_fill_membership(b: Seq<Slot>, m: int)
    requires
        0 <= m <= b.len(),
    ensures
        forall|j: int|
            0 <= j < fill_table_upto(b, m).len() && (#[trigger] fill_table_upto(b, m)[j]).1 != 0
                ==> exists|q: int| 0 <= q < m && fill_table_upto(b, m)[j] == b[q],
    decreases m,
{
    if m > 0 {
        lemma_fill_membership(b, m - 1);
        let t = fill_table_upto(b, m - 1);
        lemma_fill_table_len(b, m - 1);
        let p = probe_from(t, home_index(b[m - 1].0, t.len() as int), t.len());
        lemma_probe_from_in_range(t, home_index(b[m - 1].0, t.len() as int), t.len());
        assert forall|j: int|
            0 <= j < fill_table_upto(b, m).len() && (#[trigger] fill_table_upto(b, m)[j]).1
                != 0 implies exists|q: int| 0 <= q < m && fill_table_upto(b, m)[j] == b[q] by {
            if j == p {
                assert(fill_table_upto(b, m)[j] == b[m - 1]);
            } else {
                assert(fill_table_upto(b, m)[j] == t[j]);
            }
        }
    }
}

/// Where a probe for hash `h` starts in a table of `len` slots.
pub open spec fn home_index(h: u32, len: int) -> int
    recommends
        len > 0,
{
    ((h >> 8) as int) % len
}

/// The slot index where linear probing from `idx` first meets an empty
/// slot, giving up (and standing still) after `fuel` steps.
pub open spec fn probe_from(t: Seq<Slot>, idx: int, fuel: nat) -> int
    recommends
        0 <= idx < t.len(),
    decreases fuel,
{
    if fuel == 0 || !(0 <= idx < t.len()) {
        idx
    } else if t[idx].1 == 0 {
        idx
    } else {
        probe_from(
            t,
            if idx + 1 == t.len() {
                0int
            } else {
                idx + 1
            },
            (fuel - 1) as nat,
        )
    }
}

/// Inserting one entry: it lands in the first empty slot of its probe
/// chain.
pub open spec fn spec_table_insert(t: Seq<Slot>, e: Slot) -> Seq<Slot>
    recommends
        t.len() > 0,
{
    t.update(probe_from(t, home_index(e.0, t.len() as int), t.len()), e)
}

/// A table of `len` empty slots.
pub open spec fn empty_slots(len: nat) -> Seq<Slot> {
    Seq::new(len, |i: int| (0u32, 0u32))
}

/// The table after the first `m` entries of bucket `b` have been
/// inserted into `2 * b.len()` slots.
pub open spec fn fill_table_upto(b: Seq<Slot>, m: int) -> Seq<Slot>
    decreases m,
{
    if m <= 0 {
        empty_slots((2 * b.len()) as nat)
    } else {
        spec_table_insert(fill_table_upto(b, m - 1), b[m - 1])
    }
}

/// The finished secondary table for bucket `b`.
pub open spec fn table_slots(b: Seq<Slot>) -> Seq<Slot> {
    fill_table_upto(b, b.len() as int)
}

/// Probing starting inside the table ends inside the table.
pub proof fn lemma_probe_from_in_range(t: Seq<Slot>, idx: int, fuel: nat)
    requires
        0 <= idx < t.len(),
    ensures
        0 <= probe_from(t, idx, fuel) < t.len(),
    decreases fuel,
{
    if fuel > 0 && t[idx].1 != 0 {
        lemma_probe_from_in_range(
            t,
            if idx + 1 == t.len() {
                0int
            } else {
                idx + 1
            },
            (fuel - 1) as nat,
        );
    }
}

/// Filling a table never changes its length.
pub proof fn lemma_fill_table_len(b: Seq<Slot>, m: int)
    requires
        m <= b.len(),
    ensures
        fill_table_upto(b, m).len() == 2 * b.len(),
    decreases m,
{
    if m > 0 {
        lemma_fill_table_len(b, m - 1);
        let t = fill_table_upto(b, m - 1);
        lemma_probe_from_in_range(t, home_index(b[m - 1].0, t.len() as int), t.len());
    }
}

/// On-disk encoding of a table: each slot as a `(hash, offset)` pair.
pub open spec fn slots_bytes(t: Seq<Slot>) -> Seq<u8>
    decreases t.len(),
{
    if t.len() == 0 {
        Seq::empty()
    } else {
        slots_bytes(t.drop_last()) + le_pair(t.last().0, t.last().1)
    }
}

/// A table's encoding takes eight bytes per slot.
pub proof fn lemma_slots_bytes_len(t: Seq<Slot>)
    ensures
        slots_bytes(t).len() == 8 * t.len(),
    decreases t.len(),
{
    if t.len() > 0 {
        lemma_slots_bytes_len(t.drop_last());
        vstd::bytes::lemma_auto_spec_u32_to_from_le_bytes();
    }
}

/// The encodings of the first `i` secondary tables, in table order.
pub open spec fn tables_bytes_upto(rs: Seq<Rec>, i: int) -> Seq<u8>
    decreases i,
{
    if i <= 0 {
        Seq::empty()
    } else {
        tables_bytes_upto(rs, i - 1) + slots_bytes(table_slots(bucket_seq(rs, i - 1)))
    }
}

/// File offset of secondary table `i`: after the header, the data
/// region, and the tables before it.
pub open spec fn table_pos(rs: Seq<Rec>, i: int) -> int {
    HEADER_BYTES + data_bytes(rs).len() + tables_bytes_upto(rs, i).len()
}

/// The first `i` header slots: table `i` gets `(offset, slot count)`,
/// the offset recorded even when the table is empty.
pub open spec fn header_bytes_upto(rs: Seq<Rec>, i: int) -> Seq<u8>
    decreases i,
{
    if i <= 0 {
        Seq::empty()
    } else {
        header_bytes_upto(rs, i - 1) + le_pair(
            table_pos(rs, i - 1) as u32,
            (2 * bucket_seq(rs, i - 1).len()) as u32,
        )
    }
}

/// The first `i` header slots take eight bytes each.
pub proof fn lemma_header_bytes_len(rs: Seq<Rec>, i: int)
    ensures
        i >= 0 ==> header_bytes_upto(rs, i).len() == 8 * i,
    decreases i,
{
    if i > 0 {
        lemma_header_bytes_len(rs, i - 1);
        vstd::bytes::lemma_auto_spec_u32_to_from_le_bytes();
    }
}

/// The complete database image for a record sequence.
pub open spec fn image_bytes(rs: Seq<Rec>) -> Seq<u8> {
    header_bytes_upto(rs, NUM_TABLES as int) + data_bytes(rs) + tables_bytes_upto(
        rs,
        NUM_TABLES as int,
    )
}

/// `n` zero bytes: the header placeholder the writer starts from.
pub open spec fn zeros(n: nat) -> Seq<u8> {
    Seq::new(n, |i: int| 0u8)
}

/// A prefix of the record sequence takes at most the whole data region.
pub proof fn lemma_data_prefix_len(rs: Seq<Rec>, j: int)
    requires
        0 <= j <= rs.len(),
    ensures
        data_bytes(rs.take(j)).len() <= data_bytes(rs).len(),
{
    assert(rs =~= rs.take(j) + rs.skip(j));
    lemma_data_bytes_concat(rs.take(j), rs.skip(j));
}

/// Every entry of every bucket points at or after the header.
pub proof fn lemma_bucket_entry_pos(rs: Seq<Rec>, i: int)
    requires
        HEADER_BYTES + data_bytes(rs).len() <= 0xffffffff,
    ensures
        forall|m: int|
            0 <= m < bucket_seq(rs, i).len() ==> (#[trigger] bucket_seq(rs, i)[m]).1 >= 2048,
    decreases rs.len(),
{
    if rs.len() > 0 {
        lemma_data_prefix_len(rs, rs.len() - 1);
        assert(rs.take(rs.len() - 1) =~= rs.drop_last());
        lemma_bucket_entry_pos(rs.drop_last(), i);
        let prev = bucket_seq(rs.drop_last(), i);
        assert(rec_pos(rs, rs.len() - 1) <= 0xffffffff);
        assert forall|m: int|
            0 <= m < bucket_seq(rs, i).len() implies (#[trigger] bucket_seq(rs, i)[m]).1
            >= 2048 by {
            if m < prev.len() {
                assert(bucket_seq(rs, i)[m] == prev[m]);
            }
        }
    }
}

/// Total number of entries across the first `i` buckets.
pub open spec fn sum_bucket_lens(rs: Seq<Rec>, i: int) -> int
    decreases i,
{
    if i <= 0 {
        0
    } else {
        sum_bucket_lens(rs, i - 1) + bucket_seq(rs, i - 1).len()
    }
}

proof fn lemma_sum_bucket_lens_empty(i: int)
    ensures
        sum_bucket_lens(Seq::<Rec>::empty(), i) == 0,
    decreases i,
{
    if i > 0 {
        lemma_sum_bucket_lens_empty(i - 1);
    }
}

proof fn lemma_sum_bucket_lens_step(rs: Seq<Rec>, i: int)
    requires
        rs.len() > 0,
        0 <= i <= NUM_TABLES,
    ensures
        sum_bucket_lens(rs, i) == sum_bucket_lens(rs.drop_last(), i) + if 0 <= (rec_hash(rs.last())
            & 0xff) < i {
            1int
        } else {
            0int
        },
    decreases i,
{
    if i > 0 {
        lemma_sum_bucket_lens_step(rs, i - 1);
    }
}

/// Over all 256 buckets, the buckets hold one entry per record.
pub proof fn lemma_sum_bucket_lens(rs: Seq<Rec>)
    ensures
        sum_bucket_lens(rs, NUM_TABLES as int) == rs.len(),
    decreases rs.len(),
{
    if rs.len() == 0 {
        lemma_sum_bucket_lens_empty(NUM_TABLES as int);
        assert(rs =~= Seq::<Rec>::empty());
    } else {
        lemma_sum_bucket_lens(rs.drop_last());
        lemma_sum_bucket_lens_step(rs, NUM_TABLES as int);
        let h = rec_hash(rs.last());
        assert((h & 0xff) < 256) by (bit_vector);
    }
}

/// Bucket sums are never negative.
pub proof fn lemma_sum_bucket_lens_nonneg(rs: Seq<Rec>, i: int)
    ensures
        sum_bucket_lens(rs, i) >= 0,
    decreases i,
{
    if i > 0 {
        lemma_sum_bucket_lens_nonneg(rs, i - 1);
    }
}

/// Bucket sums only grow with the bucket index.
pub proof fn lemma_sum_bucket_lens_mono(rs: Seq<Rec>, i: int, j: int)
    requires
        i <= j,
    ensures
        sum_bucket_lens(rs, i) <= sum_bucket_lens(rs, j),
    decreases j - i,
{
    if i < j {
        lemma_sum_bucket_lens_mono(rs, i, j - 1);
    }
}

/// The maximum table size bounds twice each bucket's length.
pub proof fn lemma_max_bucket_ge(rs: Seq<Rec>, i: int, n: int)
    requires
        0 <= i < n,
    ensures
        2 * bucket_seq(rs, i).len() <= max_bucket_slots(rs, n),
        1 <= max_bucket_slots(rs, n),
    decreases n,
{
    lemma_max_bucket_min(rs, n - 1);
    if i + 1 < n {
        lemma_max_bucket_ge(rs, i, n - 1);
    }
}

/// The maximum table size is at least one.
pub proof fn lemma_max_bucket_min(rs: Seq<Rec>, n: int)
    ensures
        1 <= max_bucket_slots(rs, n),
    decreases n,
{
    if n > 0 {
        lemma_max_bucket_min(rs, n - 1);
    }
}

/// The first `i` tables take sixteen bytes per bucket entry in all.
pub proof fn lemma_tables_bytes_len(rs: Seq<Rec>, i: int)
    requires
        i >= 0,
    ensures
        tables_bytes_upto(rs, i).len() == 16 * sum_bucket_lens(rs, i),
    decreases i,
{
    if i > 0 {
        lemma_tables_bytes_len(rs, i - 1);
        let b = bucket_seq(rs, i - 1);
        lemma_fill_table_len(b, b.len() as int);
        lemma_slots_bytes_len(table_slots(b));
    }
}

// ---------------------------------------------------------------------
// Occupancy of a table under construction
// ---------------------------------------------------------------------

/// How many slots of `t` are occupied.
pub open spec fn num_occupied(t: Seq<Slot>) -> int
    decreases t.len(),
{
    if t.len() == 0 {
        0
    } else {
        num_occupied(t.drop_last()) + if t.last().1 != 0 {
            1int
        } else {
            0int
        }
    }
}

/// A table with no occupied slot has occupancy zero.
pub proof fn lemma_num_occupied_all_free(t: Seq<Slot>)
    requires
        forall|k: int| 0 <= k < t.len() ==> (#[trigger] t[k]).1 == 0,
    ensures
        num_occupied(t) == 0,
    decreases t.len(),
{
    if t.len() > 0 {
        lemma_num_occupied_all_free(t.drop_last());
    }
}

/// Storing an entry in a free slot raises the occupancy by one.
pub proof fn lemma_num_occupied_update(t: Seq<Slot>, k: int, e: Slot)
    requires
        0 <= k < t.len(),
        t[k].1 == 0,
        e.1 != 0,
    ensures
        num_occupied(t.update(k, e)) == num_occupied(t) + 1,
    decreases t.len(),
{
    if k == t.len() - 1 {
        assert(t.update(k, e).drop_last() =~= t.drop_last());
    } else {
        assert(t.update(k, e).drop_last() =~= t.drop_last().update(k, e));
        lemma_num_occupied_update(t.drop_last(), k, e);
    }
}

/// A table with a spare slot has a free slot somewhere.
pub proof fn lemma_exists_free_slot(t: Seq<Slot>) -> (k: int)
    requires
        num_occupied(t) < t.len(),
    ensures
        0 <= k < t.len(),
        t[k].1 == 0,
    decreases t.len(),
{
    if t.last().1 == 0 {
        t.len() - 1
    } else {
        let k = lemma_exists_free_slot(t.drop_last());
        k
    }
}

// ---------------------------------------------------------------------
// When the writer succeeds
// ---------------------------------------------------------------------

/// The largest secondary-table size over the first `i` buckets, with a
/// floor of one.
pub open spec fn max_bucket_slots(rs: Seq<Rec>, i: int) -> int
    decreases i,
{
    if i <= 0 {
        1
    } else {
        let prev = max_bucket_slots(rs, i - 1);
        let cur = 2 * bucket_seq(rs, i - 1).len() as int;
        if cur > prev {
            cur
        } else {
            prev
        }
    }
}

/// Exactly when `finish` succeeds: the scratch table and the entry
/// count fit the format's arithmetic, and the whole image stays under
/// 2^32 bytes.
pub open spec fn finish_fits(rs: Seq<Rec>) -> bool {
    &&& max_bucket_slots(rs, NUM_TABLES as int) + rs.len() <= 0x1fffffff
    &&& HEADER_BYTES + data_bytes(rs).len() + 16 * rs.len() <= 0xffffffff
}

// ---------------------------------------------------------------------
// What the reader sees
// ---------------------------------------------------------------------

/// Where the data region ends: the first header word (the offset of the
/// first secondary table), capped at the image's length.
pub open spec fn spec_data_end(b: Seq<u8>) -> int {
    if b.len() < 4 {
        0
    } else if word_at(b, 0) as int <= b.len() {
        word_at(b, 0) as int
    } else {
        b.len() as int
    }
}

/// A record with key `k` and value `v` is encoded at offset `p` of `b`.
pub open spec fn record_at(b: Seq<u8>, p: int, k: Seq<u8>, v: Seq<u8>) -> bool {
    &&& 0 <= p
    &&& p + 8 + k.len() + v.len() <= b.len()
    &&& word_at(b, p) == k.len()
    &&& word_at(b, p + 4) == v.len()
    &&& b.subrange(p + 8, p + 8 + k.len()) == k
    &&& b.subrange(p + 8 + k.len(), p + 8 + k.len() + v.len()) == v
}

/// The records a sequential scan of `b` yields from `pos` up to
/// `data_end`: it stops early at a record whose declared length runs
/// past `data_end` (the full iteration reports that as an error).
pub open spec fn scan(b: Seq<u8>, pos: int, data_end: int) -> Seq<Rec>
    decreases data_end - pos,
{
    if pos < 0 || data_end > b.len() || pos + 8 >= data_end {
        Seq::empty()
    } else {
        let klen = word_at(b, pos) as int;
        let dlen = word_at(b, pos + 4) as int;
        if pos + 8 + klen + dlen > data_end {
            Seq::empty()
        } else {
            seq![
                (
                    b.subrange(pos + 8, pos + 8 + klen),
                    b.subrange(pos + 8 + klen, pos + 8 + klen + dlen),
                ),
            ] + scan(b, pos + 8 + klen + dlen, data_end)
        }
    }
}

} // verus!
