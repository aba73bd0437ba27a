//! Laws tying the writer's output to the reader's protocols.
//!
//! The central law: a full scan of the image the writer produces yields
//! exactly the records that were added, in insertion order.

use vstd::bytes::{lemma_auto_spec_u32_to_from_le_bytes, spec_u32_to_le_bytes};
use vstd::prelude::*;

use crate::format::{
    all_recs_fit, bucket_entry_source, bucket_seq, data_bytes, entry_of, fill_table_upto,
    finish_fits, header_bytes_upto, image_bytes, le_pair, lemma_bucket_membership,
    lemma_data_bytes_concat, lemma_data_prefix_len, lemma_fill_membership, lemma_fill_table_len,
    lemma_header_bytes_len, lemma_max_bucket_ge, lemma_slots_bytes_len, lemma_sum_bucket_lens,
    lemma_sum_bucket_lens_mono, lemma_sum_bucket_lens_nonneg, lemma_tables_bytes_len,
    max_bucket_slots, rec_pos, record_bytes, scan, slots_bytes, spec_data_end, sum_bucket_lens,
    table_pos, table_slots, tables_bytes_upto, word_at, Rec, Slot,
};
use crate::hash::hash_of;
use crate::reader::{probe_step, spec_hash_table};

verus! {

/// The first record of a nonempty sequence opens the data region.
proof fn lemma_data_bytes_front(s: Seq<Rec>)
    requires
        s.len() > 0,
    ensures
        data_bytes(s) == record_bytes(s[0]) + data_bytes(s.skip(1)),
{
    assert(s =~= s.take(1) + s.skip(1));
    lemma_data_bytes_concat(s.take(1), s.skip(1));
    let t = s.take(1);
    assert(t.len() == 1);
    assert(t.drop_last() =~= Seq::<Rec>::empty());
    assert(t.last() == s[0]);
    assert(data_bytes(t) == data_bytes(t.drop_last()) + record_bytes(t.last()));
    assert(data_bytes(Seq::<Rec>::empty()) == Seq::<u8>::empty());
    assert(Seq::<u8>::empty() + record_bytes(s[0]) =~= record_bytes(s[0]));
    assert(record_bytes(s[0]) + data_bytes(s.skip(1)) =~= data_bytes(t) + data_bytes(s.skip(1)));
}

/// The header's first four bytes encode the offset of the first
/// secondary table.
proof fn lemma_header_first_word(rs: Seq<Rec>, i: int)
    requires
        1 <= i,
    ensures
        header_bytes_upto(rs, i).subrange(0, 4) == spec_u32_to_le_bytes(table_pos(rs, 0) as u32),
    decreases i,
{
    lemma_auto_spec_u32_to_from_le_bytes();
    if i == 1 {
        assert(header_bytes_upto(rs, 0) =~= Seq::<u8>::empty());
        assert(header_bytes_upto(rs, 1) =~= le_pair(
            table_pos(rs, 0) as u32,
            (2 * bucket_seq(rs, 0).len()) as u32,
        ));
        assert(header_bytes_upto(rs, 1).subrange(0, 4) =~= spec_u32_to_le_bytes(
            table_pos(rs, 0) as u32,
        ));
    } else {
        lemma_header_first_word(rs, i - 1);
        lemma_header_bytes_len(rs, i - 1);
        assert(header_bytes_upto(rs, i).subrange(0, 4) =~= header_bytes_upto(rs, i - 1).subrange(
            0,
            4,
        ));
    }
}

/// Each header slot of the finished header encodes its table's offset
/// and slot count.
proof fn lemma_header_slot_bytes(rs: Seq<Rec>, i: int, m: int)
    requires
        0 <= i < m,
    ensures
        header_bytes_upto(rs, m).subrange(8 * i, 8 * i + 8) == le_pair(
            table_pos(rs, i) as u32,
            (2 * bucket_seq(rs, i).len()) as u32,
        ),
    decreases m,
{
    lemma_auto_spec_u32_to_from_le_bytes();
    lemma_header_bytes_len(rs, m - 1);
    if i == m - 1 {
        assert(header_bytes_upto(rs, m).subrange(8 * i, 8 * i + 8) =~= le_pair(
            table_pos(rs, i) as u32,
            (2 * bucket_seq(rs, i).len()) as u32,
        ));
    } else {
        lemma_header_slot_bytes(rs, i, m - 1);
        assert(header_bytes_upto(rs, m).subrange(8 * i, 8 * i + 8) =~= header_bytes_upto(
            rs,
            m - 1,
        ).subrange(8 * i, 8 * i + 8));
    }
}

/// Each slot of a table's encoding holds that slot's hash and offset.
proof fn lemma_slots_bytes_at(t: Seq<Slot>, j: int)
    requires
        0 <= j < t.len(),
    ensures
        slots_bytes(t).subrange(8 * j, 8 * j + 8) == le_pair(t[j].0, t[j].1),
    decreases t.len(),
{
    lemma_auto_spec_u32_to_from_le_bytes();
    lemma_slots_bytes_len(t.drop_last());
    lemma_slots_bytes_len(t);
    if j == t.len() - 1 {
        assert(slots_bytes(t).subrange(8 * j, 8 * j + 8) =~= le_pair(t[j].0, t[j].1));
    } else {
        lemma_slots_bytes_at(t.drop_last(), j);
        assert(t.drop_last()[j] == t[j]);
        assert(slots_bytes(t).subrange(8 * j, 8 * j + 8) =~= slots_bytes(t.drop_last()).subrange(
            8 * j,
            8 * j + 8,
        ));
    }
}

/// The tables region contains each table's encoding at its offset.
proof fn lemma_tables_slice(rs: Seq<Rec>, i: int, m: int)
    requires
        0 <= i < m,
    ensures
        tables_bytes_upto(rs, m).subrange(
            tables_bytes_upto(rs, i).len() as int,
            tables_bytes_upto(rs, i).len() + slots_bytes(table_slots(bucket_seq(rs, i))).len()
                as int,
        ) == slots_bytes(table_slots(bucket_seq(rs, i))),
    decreases m,
{
    let off = tables_bytes_upto(rs, i).len() as int;
    let sb = slots_bytes(table_slots(bucket_seq(rs, i)));
    if i == m - 1 {
        assert(tables_bytes_upto(rs, m).subrange(off, off + sb.len()) =~= sb);
    } else {
        lemma_tables_slice(rs, i, m - 1);
        assert(tables_bytes_upto(rs, m - 1).len() >= off + sb.len()) by {
            lemma_tables_mono(rs, i + 1, m - 1);
        }
        assert(tables_bytes_upto(rs, m).subrange(off, off + sb.len()) =~= tables_bytes_upto(
            rs,
            m - 1,
        ).subrange(off, off + sb.len()));
    }
}

/// The tables region only grows with the table index.
proof fn lemma_tables_mono(rs: Seq<Rec>, i: int, m: int)
    requires
        0 <= i <= m,
    ensures
        tables_bytes_upto(rs, i).len() <= tables_bytes_upto(rs, m).len(),
    decreases m - i,
{
    if i < m {
        lemma_tables_mono(rs, i, m - 1);
    }
}

/// In a finished image, the data region ends where the first header
/// word says, and holds exactly the records' encodings.
pub proof fn lemma_image_data_end(rs: Seq<Rec>)
    requires
        2048 + data_bytes(rs).len() <= 0xffffffff,
    ensures
        image_bytes(rs).len() == 2048 + data_bytes(rs).len() + tables_bytes_upto(rs, 256).len(),
        spec_data_end(image_bytes(rs)) == 2048 + data_bytes(rs).len(),
        image_bytes(rs).subrange(2048, 2048 + data_bytes(rs).len() as int) == data_bytes(rs),
{
    let h = header_bytes_upto(rs, 256);
    let d = data_bytes(rs);
    let b = image_bytes(rs);
    lemma_header_bytes_len(rs, 256);
    lemma_header_first_word(rs, 256);
    lemma_auto_spec_u32_to_from_le_bytes();
    assert(b.subrange(0, 4) =~= h.subrange(0, 4));
    assert(tables_bytes_upto(rs, 0) == Seq::<u8>::empty());
    assert(word_at(b, 0) == table_pos(rs, 0) as u32);
    assert(table_pos(rs, 0) == 2048 + d.len());
    assert(b.subrange(2048, 2048 + d.len() as int) =~= d);
}

/// Record `j` of the finished image is encoded at its position: the
/// two length words, the key bytes and the value bytes read back as
/// written.
proof fn lemma_record_at_image(rs: Seq<Rec>, j: int)
    requires
        all_recs_fit(rs),
        0 <= j < rs.len(),
        2048 + data_bytes(rs).len() <= 0xffffffff,
    ensures
        rec_pos(rs, j) >= 2048,
        rec_pos(rs, j) + 8 + rs[j].0.len() + rs[j].1.len() <= 2048 + data_bytes(rs).len(),
        word_at(image_bytes(rs), rec_pos(rs, j)) == rs[j].0.len(),
        word_at(image_bytes(rs), rec_pos(rs, j) + 4) == rs[j].1.len(),
        image_bytes(rs).subrange(rec_pos(rs, j) + 8, rec_pos(rs, j) + 8 + rs[j].0.len() as int)
            == rs[j].0,
        image_bytes(rs).subrange(
            rec_pos(rs, j) + 8 + rs[j].0.len() as int,
            rec_pos(rs, j) + 8 + rs[j].0.len() + rs[j].1.len(),
        ) == rs[j].1,
{
    lemma_image_data_end(rs);
    let b = image_bytes(rs);
    let d = data_bytes(rs);
    let pos = rec_pos(rs, j);
    let r = rs[j];
    let k = r.0;
    let v = r.1;
    let rb = record_bytes(r);
    lemma_auto_spec_u32_to_from_le_bytes();
    assert(rs =~= rs.take(j) + rs.skip(j));
    lemma_data_bytes_concat(rs.take(j), rs.skip(j));
    lemma_data_bytes_front(rs.skip(j));
    assert(rs.skip(j)[0] == r);
    assert(rs.skip(j).skip(1) =~= rs.skip(j + 1));
    let doff = pos - 2048;
    assert(doff == data_bytes(rs.take(j)).len());
    assert(d =~= data_bytes(rs.take(j)) + (rb + data_bytes(rs.skip(j + 1))));
    assert(rb.len() == 8 + k.len() + v.len());
    lemma_data_prefix_len(rs, j + 1);
    assert(rs.take(j + 1).drop_last() =~= rs.take(j));
    assert(rs.take(j + 1).last() == r);
    assert(pos + rb.len() <= 2048 + d.len());
    assert forall|n: int| 0 <= n < d.len() implies b[2048 + n] == #[trigger] d[n] by {
        assert(b.subrange(2048, 2048 + d.len() as int)[n] == b[2048 + n]);
    }
    assert forall|n: int| 0 <= n < rb.len() implies #[trigger] rb[n] == b[pos + n] by {
        assert(d[doff + n] == rb[n]);
        assert(b[2048 + (doff + n)] == d[doff + n]);
    }
    let klen32 = k.len() as u32;
    let dlen32 = v.len() as u32;
    assert forall|n: int|
        0 <= n < 4 implies b.subrange(pos, pos + 4)[n] == spec_u32_to_le_bytes(klen32)[n] by {
        assert(rb[n] == b[pos + n]);
        assert(rb[n] == le_pair(klen32, dlen32)[n]);
        assert(rb[n] == spec_u32_to_le_bytes(klen32)[n]);
    }
    assert(b.subrange(pos, pos + 4) =~= spec_u32_to_le_bytes(klen32));
    assert forall|n: int|
        0 <= n < 4 implies b.subrange(pos + 4, pos + 8)[n] == spec_u32_to_le_bytes(dlen32)[n] by {
        assert(rb[n + 4] == b[pos + 4 + n]);
        assert(rb[n + 4] == le_pair(klen32, dlen32)[n + 4]);
        assert(rb[n + 4] == spec_u32_to_le_bytes(dlen32)[n]);
    }
    assert(b.subrange(pos + 4, pos + 8) =~= spec_u32_to_le_bytes(dlen32));
    assert(word_at(b, pos) == klen32);
    assert(word_at(b, pos + 4) == dlen32);
    assert forall|n: int|
        0 <= n < k.len() implies b.subrange(pos + 8, pos + 8 + k.len() as int)[n] == k[n] by {
        assert(rb[n + 8] == b[pos + 8 + n]);
        assert(rb[n + 8] == k[n]);
    }
    assert(b.subrange(pos + 8, pos + 8 + k.len() as int) =~= k);
    assert forall|n: int|
        0 <= n < v.len() implies b.subrange(
            pos + 8 + k.len() as int,
            pos + 8 + k.len() + v.len(),
        )[n] == v[n] by {
        assert(rb[n + 8 + k.len()] == b[pos + 8 + k.len() + n]);
        assert(rb[n + 8 + k.len()] == v[n]);
    }
    assert(b.subrange(pos + 8 + k.len() as int, pos + 8 + k.len() + v.len()) =~= v);
}

/// Each slot of each secondary table of the finished image reads back
/// as the filled table says, and sits inside the image.
proof fn lemma_table_slot_words(rs: Seq<Rec>, i: int, j: int)
    requires
        0 <= i < 256,
        0 <= j < 2 * bucket_seq(rs, i).len(),
        2048 + data_bytes(rs).len() + 16 * rs.len() <= 0xffffffff,
    ensures
        ({
            let b = image_bytes(rs);
            let t = table_slots(bucket_seq(rs, i));
            let p = table_pos(rs, i) + 8 * j;
            &&& p + 8 <= b.len()
            &&& word_at(b, p) == t[j].0
            &&& word_at(b, p + 4) == t[j].1
        }),
{
    let b = image_bytes(rs);
    let d = data_bytes(rs);
    let ts = tables_bytes_upto(rs, 256);
    let bucket = bucket_seq(rs, i);
    let t = table_slots(bucket);
    let off = tables_bytes_upto(rs, i).len() as int;
    let p = table_pos(rs, i) + 8 * j;
    lemma_fill_table_len(bucket, bucket.len() as int);
    lemma_slots_bytes_len(t);
    let sb = slots_bytes(t);
    lemma_tables_slice(rs, i, 256);
    lemma_slots_bytes_at(t, j);
    lemma_header_bytes_len(rs, 256);
    lemma_auto_spec_u32_to_from_le_bytes();
    // The whole of table i lies inside the tables region.
    lemma_tables_bytes_len(rs, i);
    lemma_tables_bytes_len(rs, 256);
    lemma_sum_bucket_lens(rs);
    lemma_sum_bucket_lens_mono(rs, i + 1, 256);
    lemma_sum_bucket_lens_nonneg(rs, i);
    assert(tables_bytes_upto(rs, i + 1).len() == 16 * sum_bucket_lens(rs, i + 1));
    assert(off + sb.len() <= ts.len());
    assert(b.len() == 2048 + d.len() + ts.len());
    assert(p == 2048 + d.len() + off + 8 * j);
    assert forall|n: int| 0 <= n < ts.len() implies b[2048 + d.len() + n] == #[trigger] ts[n] by {
    }
    assert forall|n: int| 0 <= n < sb.len() implies #[trigger] sb[n] == ts[off + n] by {
        assert(ts.subrange(off, off + sb.len() as int)[n] == ts[off + n]);
    }
    assert forall|n: int|
        0 <= n < 4 implies b.subrange(p, p + 4)[n] == spec_u32_to_le_bytes(t[j].0)[n] by {
        assert(sb.subrange(8 * j, 8 * j + 8)[n] == sb[8 * j + n]);
        assert(sb[8 * j + n] == le_pair(t[j].0, t[j].1)[n]);
        assert(sb[8 * j + n] == ts[off + (8 * j + n)]);
        assert(b[2048 + d.len() + (off + (8 * j + n))] == ts[off + (8 * j + n)]);
    }
    assert(b.subrange(p, p + 4) =~= spec_u32_to_le_bytes(t[j].0));
    assert forall|n: int|
        0 <= n < 4 implies b.subrange(p + 4, p + 8)[n] == spec_u32_to_le_bytes(t[j].1)[n] by {
        assert(sb.subrange(8 * j, 8 * j + 8)[n + 4] == sb[8 * j + n + 4]);
        assert(sb[8 * j + n + 4] == le_pair(t[j].0, t[j].1)[n + 4]);
        assert(sb[8 * j + n + 4] == ts[off + (8 * j + n + 4)]);
        assert(b[2048 + d.len() + (off + (8 * j + n + 4))] == ts[off + (8 * j + n + 4)]);
    }
    assert(b.subrange(p + 4, p + 8) =~= spec_u32_to_le_bytes(t[j].1));
    assert(word_at(b, p) == t[j].0);
    assert(word_at(b, p + 4) == t[j].1);
}

/// What the primary header of a finished image directs a probe to:
/// table `i = hash & 0xff` at its true offset, with twice the bucket's
/// entry count as its slot count.
pub proof fn lemma_image_hash_table(rs: Seq<Rec>, h: u32)
    requires
        2048 + data_bytes(rs).len() + 16 * rs.len() <= 0xffffffff,
        max_bucket_slots(rs, 256) + rs.len() <= 0x1fffffff,
    ensures
        ({
            let ht = spec_hash_table(image_bytes(rs), h);
            let i = (h & 0xff) as int;
            &&& ht.0 == table_pos(rs, i)
            &&& ht.1 == 2 * bucket_seq(rs, i).len()
        }),
{
    let b = image_bytes(rs);
    let i = (h & 0xff) as int;
    assert((h & 0xff) < 256) by (bit_vector);
    let hb = header_bytes_upto(rs, 256);
    lemma_header_slot_bytes(rs, i, 256);
    lemma_header_bytes_len(rs, 256);
    lemma_auto_spec_u32_to_from_le_bytes();
    lemma_tables_bytes_len(rs, i);
    lemma_sum_bucket_lens(rs);
    lemma_sum_bucket_lens_mono(rs, i, 256);
    lemma_sum_bucket_lens_nonneg(rs, i);
    lemma_max_bucket_ge(rs, i, 256);
    let tp32 = table_pos(rs, i) as u32;
    let sl32 = (2 * bucket_seq(rs, i).len()) as u32;
    assert(table_pos(rs, i) <= 0xffffffff);
    assert(2 * bucket_seq(rs, i).len() <= 0x1fffffff);
    let x = i * 8;
    assert forall|n: int|
        0 <= n < 4 implies b.subrange(x, x + 4)[n] == spec_u32_to_le_bytes(tp32)[n] by {
        assert(b[x + n] == hb[x + n]);
        assert(hb.subrange(8 * i, 8 * i + 8)[n] == hb[8 * i + n]);
        assert(hb.subrange(8 * i, 8 * i + 8)[n] == le_pair(tp32, sl32)[n]);
        assert(le_pair(tp32, sl32)[n] == spec_u32_to_le_bytes(tp32)[n]);
    }
    assert(b.subrange(x, x + 4) =~= spec_u32_to_le_bytes(tp32));
    assert forall|n: int|
        0 <= n < 4 implies b.subrange(x + 4, x + 8)[n] == spec_u32_to_le_bytes(sl32)[n] by {
        assert(b[x + 4 + n] == hb[x + 4 + n]);
        assert(hb.subrange(8 * i, 8 * i + 8)[n + 4] == hb[8 * i + n + 4]);
        assert(hb.subrange(8 * i, 8 * i + 8)[n + 4] == le_pair(tp32, sl32)[n + 4]);
        assert(le_pair(tp32, sl32)[n + 4] == spec_u32_to_le_bytes(sl32)[n]);
    }
    assert(b.subrange(x + 4, x + 8) =~= spec_u32_to_le_bytes(sl32));
    assert(word_at(b, x) == tp32);
    assert(word_at(b, x + 4) == sl32);
}

/// Scanning from the start of record `j` yields the records from `j`
/// on. The one degenerate case is a final record with an empty key and
/// an empty value, which the scan's end test cannot tell from the end
/// of the region; the last record is therefore required to be nonempty.
proof fn lemma_scan_from(rs: Seq<Rec>, j: int)
    requires
        all_recs_fit(rs),
        0 <= j <= rs.len(),
        2048 + data_bytes(rs).len() <= 0xffffffff,
        rs.len() > 0 ==> rs.last().0.len() + rs.last().1.len() > 0,
    ensures
        scan(image_bytes(rs), rec_pos(rs, j), 2048 + data_bytes(rs).len() as int) == rs.skip(j),
    decreases rs.len() - j,
{
    let b = image_bytes(rs);
    let d = data_bytes(rs);
    let de = 2048 + d.len() as int;
    let pos = rec_pos(rs, j);
    lemma_image_data_end(rs);
    lemma_data_prefix_len(rs, j);
    if j == rs.len() {
        assert(rs.take(j) =~= rs);
        assert(rs.skip(j) =~= Seq::<Rec>::empty());
    } else {
        let r = rs[j];
        let k = r.0;
        let v = r.1;
        lemma_auto_spec_u32_to_from_le_bytes();
        lemma_record_at_image(rs, j);
        // Record j + 1 starts right after record j.
        assert(rs.take(j + 1).drop_last() =~= rs.take(j));
        assert(rs.take(j + 1).last() == r);
        assert(rec_pos(rs, j + 1) == pos + 8 + k.len() + v.len());
        lemma_data_prefix_len(rs, j + 1);
        // The scan's end test does not fire at record j.
        if j + 1 == rs.len() {
            assert(rs.last() == r);
            assert(k.len() + v.len() > 0);
        } else {
            assert(rs.take(j + 2).drop_last() =~= rs.take(j + 1));
            assert(rs.take(j + 2).last() == rs[j + 1]);
            assert(record_bytes(rs[j + 1]).len() >= 8);
            assert(rec_pos(rs, j + 2) == rec_pos(rs, j + 1) + record_bytes(rs[j + 1]).len());
            lemma_data_prefix_len(rs, j + 2);
        }
        assert(pos + 8 < de);
        lemma_scan_from(rs, j + 1);
        assert(scan(b, pos, de) == seq![(k, v)] + scan(b, pos + 8 + k.len() + v.len(), de));
        assert(scan(b, pos, de) =~= rs.skip(j));
    }
}

/// A probe state the iterator can be in over a finished image: within
/// the table's slot count, and at a slot boundary of the table.
pub open spec fn probe_state_ok(rs: Seq<Rec>, q: Seq<u8>, kloop: u32, kpos: int) -> bool {
    let ht = spec_hash_table(image_bytes(rs), hash_of(q));
    &&& kloop <= ht.1
    &&& ht.1 > 0 ==> ht.0 <= kpos < ht.0 + 8 * ht.1 && (kpos - ht.0) % 8 == 0
}

/// Absent key: probing a finished image for a key that is not among
/// the records yields nothing, from any reachable probe state, and
/// leaves the probe in a reachable state again. A slot can only send
/// the probe to a record that was added; such a record's key is not
/// the query, so no slot ever yields, until an empty slot or the slot
/// count ends the probe.
pub proof fn lemma_absent_key_probe(rs: Seq<Rec>, q: Seq<u8>, kloop: u32, kpos: int)
    requires
        all_recs_fit(rs),
        finish_fits(rs),
        forall|x: int| 0 <= x < rs.len() ==> (#[trigger] rs[x]).0 != q,
        probe_state_ok(rs, q, kloop, kpos),
    ensures
        ({
            let ht = spec_hash_table(image_bytes(rs), hash_of(q));
            let step = probe_step(image_bytes(rs), hash_of(q), q, kloop, kpos, ht.0, ht.1);
            &&& step.0 is None
            &&& probe_state_ok(rs, q, step.1, step.2)
        }),
    decreases spec_hash_table(image_bytes(rs), hash_of(q)).1 - kloop,
{
    let b = image_bytes(rs);
    let hq = hash_of(q);
    let i = (hq & 0xff) as int;
    let ht = spec_hash_table(b, hq);
    assert((hq & 0xff) < 256) by (bit_vector);
    lemma_image_hash_table(rs, hq);
    let bucket = bucket_seq(rs, i);
    let hpos = ht.0;
    let hslots = ht.1;
    if kloop < hslots {
        let j = (kpos - hpos) / 8;
        assert(kpos == hpos + 8 * j);
        assert(0 <= j < 2 * bucket.len());
        lemma_table_slot_words(rs, i, j);
        let t = table_slots(bucket);
        lemma_fill_table_len(bucket, bucket.len() as int);
        let sh = word_at(b, kpos);
        let rp = word_at(b, kpos + 4);
        assert(sh == t[j].0 && rp == t[j].1);
        if rp != 0 {
            lemma_fill_membership(bucket, bucket.len() as int);
            assert(exists|m: int| 0 <= m < bucket.len() && t[j] == bucket[m]) by {
                assert(fill_table_upto(bucket, bucket.len() as int)[j] == t[j]);
            }
            let m = choose|m: int| 0 <= m < bucket.len() && t[j] == bucket[m];
            lemma_bucket_membership(rs, i, m);
            let x = choose|x: int| #[trigger] bucket_entry_source(rs, i, m, x);
            assert(t[j] == entry_of(rs, x));
            let kloop2 = (kloop + 1) as u32;
            let kpos2: int = if kpos + 8 == hpos + 8 * hslots {
                hpos as int
            } else {
                kpos + 8
            };
            assert(probe_state_ok(rs, q, kloop2, kpos2)) by {
                if kpos + 8 != hpos + 8 * hslots {
                    assert(((kpos + 8) - hpos) % 8 == 0);
                    assert((hpos + 8 * hslots - kpos) % 8 == 0);
                    assert(hpos + 8 * hslots - kpos >= 8);
                }
            }
            if sh == hq {
                lemma_data_prefix_len(rs, x);
                lemma_record_at_image(rs, x);
                assert(rp == rec_pos(rs, x));
                assert(word_at(b, rp as int) == rs[x].0.len());
                assert(rs[x].0 != q);
                if rs[x].0.len() == q.len() {
                    assert(b.subrange(rp + 8, rp + 8 + q.len() as int) == rs[x].0);
                }
                lemma_absent_key_probe(rs, q, kloop2, kpos2);
            } else {
                lemma_absent_key_probe(rs, q, kloop2, kpos2);
            }
        }
    }
}

/// Sound retrieval: over a finished image, anything a probe step
/// yields is the value of a record that was stored under the queried
/// key. (That the values come back complete and in insertion order is
/// not stated here.)
pub proof fn lemma_probe_yield_is_stored(rs: Seq<Rec>, q: Seq<u8>, kloop: u32, kpos: int)
    requires
        all_recs_fit(rs),
        finish_fits(rs),
        probe_state_ok(rs, q, kloop, kpos),
    ensures
        ({
            let ht = spec_hash_table(image_bytes(rs), hash_of(q));
            let step = probe_step(image_bytes(rs), hash_of(q), q, kloop, kpos, ht.0, ht.1);
            step.0 matches Some(v) ==> exists|x: int|
                0 <= x < rs.len() && #[trigger] rs[x] == (q, v)
        }),
    decreases spec_hash_table(image_bytes(rs), hash_of(q)).1 - kloop,
{
    let b = image_bytes(rs);
    let hq = hash_of(q);
    let i = (hq & 0xff) as int;
    let ht = spec_hash_table(b, hq);
    assert((hq & 0xff) < 256) by (bit_vector);
    lemma_image_hash_table(rs, hq);
    let bucket = bucket_seq(rs, i);
    let hpos = ht.0;
    let hslots = ht.1;
    if kloop < hslots {
        let j = (kpos - hpos) / 8;
        assert(kpos == hpos + 8 * j);
        assert(0 <= j < 2 * bucket.len());
        lemma_table_slot_words(rs, i, j);
        let t = table_slots(bucket);
        lemma_fill_table_len(bucket, bucket.len() as int);
        let sh = word_at(b, kpos);
        let rp = word_at(b, kpos + 4);
        assert(sh == t[j].0 && rp == t[j].1);
        if rp != 0 {
            lemma_fill_membership(bucket, bucket.len() as int);
            assert(exists|m: int| 0 <= m < bucket.len() && t[j] == bucket[m]) by {
                assert(fill_table_upto(bucket, bucket.len() as int)[j] == t[j]);
            }
            let m = choose|m: int| 0 <= m < bucket.len() && t[j] == bucket[m];
            lemma_bucket_membership(rs, i, m);
            let x = choose|x: int| #[trigger] bucket_entry_source(rs, i, m, x);
            assert(t[j] == entry_of(rs, x));
            let kloop2 = (kloop + 1) as u32;
            let kpos2: int = if kpos + 8 == hpos + 8 * hslots {
                hpos as int
            } else {
                kpos + 8
            };
            assert(probe_state_ok(rs, q, kloop2, kpos2)) by {
                if kpos + 8 != hpos + 8 * hslots {
                    assert(((kpos + 8) - hpos) % 8 == 0);
                    assert((hpos + 8 * hslots - kpos) % 8 == 0);
                    assert(hpos + 8 * hslots - kpos >= 8);
                }
            }
            if sh == hq {
                lemma_data_prefix_len(rs, x);
                lemma_record_at_image(rs, x);
                assert(rp == rec_pos(rs, x));
                let klen = word_at(b, rp as int) as int;
                assert(klen == rs[x].0.len());
                if klen == q.len() && rp + 8 + klen <= b.len() && b.subrange(
                    rp + 8,
                    rp + 8 + klen,
                ) == q {
                    assert(rs[x].0 == q);
                    assert(rs[x] == (q, rs[x].1));
                } else {
                    lemma_probe_yield_is_stored(rs, q, kloop2, kpos2);
                }
            } else {
                lemma_probe_yield_is_stored(rs, q, kloop2, kpos2);
            }
        }
    }
}

/// Absent key, at the probe's start: looking up a key that was never
/// added finds nothing.
pub proof fn lemma_absent_key(rs: Seq<Rec>, q: Seq<u8>)
    requires
        all_recs_fit(rs),
        finish_fits(rs),
        forall|x: int| 0 <= x < rs.len() ==> (#[trigger] rs[x]).0 != q,
    ensures
        ({
            let b = image_bytes(rs);
            let ht = spec_hash_table(b, hash_of(q));
            probe_step(b, hash_of(q), q, 0, ht.2, ht.0, ht.1).0 is None
        }),
{
    let b = image_bytes(rs);
    let hq = hash_of(q);
    let ht = spec_hash_table(b, hq);
    lemma_image_hash_table(rs, hq);
    if ht.1 > 0 {
        let home = ((hq >> 8) as int) % (ht.1 as int);
        assert(0 <= home < ht.1);
        assert(ht.2 == ht.0 + 8 * home);
        assert((ht.2 - ht.0) % 8 == 0);
    }
    assert(probe_state_ok(rs, q, 0, ht.2));
    lemma_absent_key_probe(rs, q, 0, ht.2);
}

/// Round trip: the image built from a record sequence scans back to
/// exactly that sequence, in order. (The writer's `finish` returns
/// `image_bytes` of its records, and the reader's full iteration
/// follows `scan` from offset 2048 to `spec_data_end`.)
pub proof fn lemma_round_trip(rs: Seq<Rec>)
    requires
        all_recs_fit(rs),
        2048 + data_bytes(rs).len() <= 0xffffffff,
        rs.len() > 0 ==> rs.last().0.len() + rs.last().1.len() > 0,
    ensures
        spec_data_end(image_bytes(rs)) == 2048 + data_bytes(rs).len(),
        scan(image_bytes(rs), 2048, spec_data_end(image_bytes(rs))) == rs,
{
    lemma_image_data_end(rs);
    lemma_scan_from(rs, 0);
    assert(rs.take(0) =~= Seq::<Rec>::empty());
    assert(rec_pos(rs, 0) == 2048);
    assert(rs.skip(0) =~= rs);
}

} // verus!
