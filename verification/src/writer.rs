//! Two-pass construction of a database image.
//!
//! Records stream into an in-memory image whose first 2,048 bytes are a
//! header placeholder; per-bucket entry lists grow on the side. `finish`
//! emits the 256 secondary hash tables and rewrites the header, and is
//! proved to return exactly `image_bytes` of the records added.

use vstd::prelude::*;

use crate::Error;
use crate::format::{
    all_recs_fit, bucket_seq, data_bytes, empty_slots, fill_table_upto, finish_fits,
    header_bytes_upto, home_index, image_bytes, lemma_bucket_entry_pos, lemma_data_bytes_len,
    lemma_data_bytes_push, lemma_exists_free_slot, lemma_fill_table_len, lemma_header_bytes_len,
    lemma_max_bucket_ge, lemma_num_occupied_all_free, lemma_num_occupied_update,
    lemma_slots_bytes_len, lemma_sum_bucket_lens, lemma_sum_bucket_lens_mono,
    lemma_sum_bucket_lens_nonneg, lemma_tables_bytes_len, max_bucket_slots, num_occupied,
    probe_from, rec_pos, slots_bytes, spec_table_insert, sum_bucket_lens, table_pos, table_slots,
    tables_bytes_upto, zeros, Rec, Slot,
};
use crate::hash::hash;
use crate::uint32::push_u32_pair;

verus! {

/// Appends a byte slice to a byte vector.
fn push_bytes(out: &mut Vec<u8>, s: &[u8])
    ensures
        final(out)@ == old(out)@ + s@,
{
    let mut i: usize = 0;
    while i < s.len()
        invariant
            0 <= i <= s@.len(),
            out@ == old(out)@ + s@.take(i as int),
        decreases s@.len() - i,
    {
        out.push(s[i]);
        proof {
            assert(out@ =~= old(out)@ + s@.take(i + 1));
        }
        i = i + 1;
    }
    proof {
        assert(out@ =~= old(out)@ + s@);
    }
}

/// An in-memory builder for a database image.
///
/// Its abstract state (the view) is the sequence of records added so
/// far; `wf` ties the growing byte buffer, the running position and the
/// 256 bucket lists to that sequence.
pub struct CDBMake {
    entries: Vec<Vec<(u32, u32)>>,
    pos: u32,
    buffer: Vec<u8>,
    records: Ghost<Seq<Rec>>,
}

impl View for CDBMake {
    type V = Seq<Rec>;

    closed spec fn view(&self) -> Seq<Rec> {
        self.records@
    }
}

impl CDBMake {
    /// The builder's state is exactly what a sequence of `add` calls
    /// leaves behind: header placeholder plus data region in the
    /// buffer, one pending entry per record in its hash's bucket.
    pub closed spec fn wf(&self) -> bool {
        &&& self.entries@.len() == 256
        &&& self.pos == 2048 + data_bytes(self.records@).len()
        &&& self.buffer@ == zeros(2048) + data_bytes(self.records@)
        &&& forall|i: int|
            0 <= i < 256 ==> (#[trigger] self.entries@[i])@ == bucket_seq(self.records@, i)
        &&& all_recs_fit(self.records@)
    }

    /// Starts a build: an all-zero header placeholder and no records.
    pub fn new() -> (w: CDBMake)
        ensures
            w.wf(),
            w@ == Seq::<Rec>::empty(),
    {
        let mut buffer: Vec<u8> = Vec::new();
        let mut i: usize = 0;
        while i < 2048
            invariant
                0 <= i <= 2048,
                buffer@ == zeros(i as nat),
            decreases 2048 - i,
        {
            buffer.push(0u8);
            i = i + 1;
            proof {
                assert(buffer@ =~= zeros(i as nat));
            }
        }
        let mut entries: Vec<Vec<(u32, u32)>> = Vec::new();
        let mut j: usize = 0;
        while j < 256
            invariant
                0 <= j <= 256,
                entries@.len() == j,
                forall|k: int| 0 <= k < j ==> (#[trigger] entries@[k])@ == Seq::<Slot>::empty(),
            decreases 256 - j,
        {
            entries.push(Vec::new());
            j = j + 1;
        }
        let w = CDBMake { entries, pos: 2048, buffer, records: Ghost(Seq::empty()) };
        proof {
            assert(w.buffer@ =~= zeros(2048) + data_bytes(w.records@));
        }
        w
    }

    /// Appends one record: its lengths, key and data go to the buffer,
    /// and a `(hash, position)` entry joins the hash's bucket. Rejects
    /// oversized keys or values (`RecordTooLarge`) and records that
    /// would push the file past 2^32 - 1 bytes (`FileTooBig`); a
    /// rejected record leaves the builder unchanged and usable.
    pub fn add(&mut self, key: &[u8], data: &[u8]) -> (r: Result<(), Error>)
        requires
            old(self).wf(),
        ensures
            final(self).wf(),
            match r {
                Ok(_) => {
                    &&& key@.len() < 0xffffffff
                    &&& data@.len() < 0xffffffff
                    &&& 2048 + data_bytes(old(self)@).len() + 8 + key@.len() + data@.len()
                        <= 0xffffffff
                    &&& final(self)@ == old(self)@.push((key@, data@))
                },
                Err(e) => {
                    &&& final(self)@ == old(self)@
                    &&& if key@.len() >= 0xffffffff || data@.len() >= 0xffffffff {
                        e == Error::RecordTooLarge
                    } else {
                        e == Error::FileTooBig && 2048 + data_bytes(old(self)@).len() + 8
                            + key@.len() + data@.len() > 0xffffffff
                    }
                },
            },
    {
        if key.len() as u64 >= 0xffffffff || data.len() as u64 >= 0xffffffff {
            return Err(Error::RecordTooLarge);
        }
        let needed: u64 = 8 + key.len() as u64 + data.len() as u64;
        if self.pos as u64 + needed > 0xffffffff {
            return Err(Error::FileTooBig);
        }
        let kh = hash(key);
        let b = (kh & 0xff) as usize;
        proof {
            assert((kh & 0xff) < 256) by (bit_vector);
        }
        let ghost old_records = self.records@;
        let ghost rec: Rec = (key@, data@);
        push_u32_pair(&mut self.buffer, key.len() as u32, data.len() as u32);
        push_bytes(&mut self.buffer, key);
        push_bytes(&mut self.buffer, data);
        self.entries[b].push((kh, self.pos));
        let ghost old_pos = self.pos;
        self.pos = (self.pos as u64 + needed) as u32;
        proof {
            self.records@ = old_records.push(rec);
        }
        proof {
            lemma_data_bytes_push(old_records, rec);
            vstd::bytes::lemma_auto_spec_u32_to_from_le_bytes();
            assert(self.buffer@ =~= zeros(2048) + data_bytes(self.records@));
            assert forall|i: int|
                0 <= i < 256 implies (#[trigger] self.entries@[i])@ == bucket_seq(
                self.records@,
                i,
            ) by {
                assert(self.records@.drop_last() =~= old_records);
                assert(self.records@.take(self.records@.len() - 1) =~= old_records);
                assert(rec_pos(self.records@, self.records@.len() - 1) == old_pos);
                if i == b {
                    assert(self.entries@[i]@ =~= bucket_seq(old_records, i).push(
                        (kh, old_pos),
                    ));
                } else {
                    assert(self.entries@[i]@ == old(self).entries@[i]@);
                }
            }
            assert(all_recs_fit(self.records@)) by {
                assert(forall|j: int|
                    0 <= j < old_records.len() ==> self.records@[j] == #[trigger] old_records[j]);
            }
        }
        Ok(())
    }

    /// Emits the 256 secondary hash tables after the data region, fills
    /// in the header, and surrenders the finished image. Fails with
    /// `FileTooBig` exactly when the format's 32-bit arithmetic cannot
    /// hold the tables; on success the image is exactly `image_bytes`
    /// of the records added, so the output is a function of the record
    /// sequence alone.
    pub fn finish(self) -> (r: Result<Vec<u8>, Error>)
        requires
            self.wf(),
        ensures
            match r {
                Ok(image) => finish_fits(self@) && image@ == image_bytes(self@),
                Err(e) => e == Error::FileTooBig && !finish_fits(self@),
            },
    {
        let ghost rs = self.records@;
        let mut w = self;
        proof {
            lemma_sum_bucket_lens(rs);
            lemma_data_bytes_len(rs);
            assert(rs.len() <= 0x1fffffff);
        }
        // First pass over the buckets: the largest table and the total
        // entry count decide whether the tables fit at all.
        let mut maxsize: u64 = 1;
        let mut count: u64 = 0;
        let mut i: usize = 0;
        while i < 256
            invariant
                0 <= i <= 256,
                w == self,
                self.wf(),
                rs == self.records@,
                rs.len() <= 0x1fffffff,
                maxsize == max_bucket_slots(rs, i as int),
                count == sum_bucket_lens(rs, i as int),
                0 <= count <= rs.len(),
                1 <= maxsize <= 0x40000000,
            decreases 256 - i,
        {
            proof {
                lemma_sum_bucket_lens(rs);
                lemma_sum_bucket_lens_nonneg(rs, i as int);
                lemma_sum_bucket_lens_mono(rs, i as int + 1, 256);
                assert(bucket_seq(rs, i as int).len() <= rs.len());
            }
            let blen = w.entries[i].len();
            let len2: u64 = 2 * blen as u64;
            if len2 > maxsize {
                maxsize = len2;
            }
            count = count + blen as u64;
            i = i + 1;
        }
        if maxsize + count > 0xffffffff / 8 {
            return Err(Error::FileTooBig);
        }
        if w.pos as u64 + 16 * count > 0xffffffff {
            return Err(Error::FileTooBig);
        }
        proof {
            assert(finish_fits(rs));
        }
        // The scratch open-address table, as large as the largest
        // secondary table.
        let maxu: usize = maxsize as usize;
        let mut table: Vec<(u32, u32)> = Vec::new();
        let mut j: usize = 0;
        while j < maxu
            invariant
                0 <= j <= maxu,
                table@ == empty_slots(j as nat),
            decreases maxu - j,
        {
            table.push((0u32, 0u32));
            j = j + 1;
            proof {
                assert(table@ =~= empty_slots(j as nat));
            }
        }
        let mut header: Vec<u8> = Vec::new();
        let mut i: usize = 0;
        while i < 256
            invariant
                0 <= i <= 256,
                w.entries@.len() == 256,
                forall|k: int| 0 <= k < 256 ==> (#[trigger] w.entries@[k])@ == bucket_seq(rs, k),
                rs.len() <= 0x1fffffff,
                maxsize == max_bucket_slots(rs, 256),
                1 <= maxsize <= 0x1fffffff,
                maxu == maxsize,
                count == rs.len(),
                w.pos == table_pos(rs, i as int),
                w.pos + 16 * (rs.len() - sum_bucket_lens(rs, i as int)) <= 0xffffffff,
                w.buffer@ == zeros(2048) + data_bytes(rs) + tables_bytes_upto(rs, i as int),
                header@ == header_bytes_upto(rs, i as int),
                table@ == empty_slots(maxsize as nat),
            decreases 256 - i,
        {
            proof {
                lemma_sum_bucket_lens(rs);
                lemma_max_bucket_ge(rs, i as int, 256);
                lemma_sum_bucket_lens_nonneg(rs, i as int);
                lemma_sum_bucket_lens_mono(rs, i as int + 1, 256);
                lemma_tables_bytes_len(rs, i as int);
                lemma_tables_bytes_len(rs, i as int + 1);
                lemma_bucket_entry_pos(rs, i as int);
                lemma_data_bytes_len(rs);
            }
            let ghost bucket = bucket_seq(rs, i as int);
            let blen = w.entries[i].len();
            let len2u: usize = blen * 2;
            push_u32_pair(&mut header, w.pos, len2u as u32);
            proof {
                assert(header@ =~= header_bytes_upto(rs, i as int + 1));
                assert(forall|kk: int|
                    0 <= kk < len2u ==> (#[trigger] table@.subrange(0, len2u as int)[kk]).1 == 0);
                lemma_num_occupied_all_free(table@.subrange(0, len2u as int));
                assert(table@.subrange(0, len2u as int) =~= fill_table_upto(bucket, 0));
            }
            // Insert this bucket's entries into the scratch table by
            // linear probing, in insertion order.
            let mut m: usize = 0;
            while m < blen
                invariant
                    0 <= m <= blen,
                    blen == bucket.len(),
                    bucket == bucket_seq(rs, i as int),
                    w.entries@.len() == 256,
                    forall|k: int|
                        0 <= k < 256 ==> (#[trigger] w.entries@[k])@ == bucket_seq(rs, k),
                    0 <= i < 256,
                    len2u == 2 * blen,
                    len2u <= maxu,
                    table@.len() == maxu,
                    table@.subrange(0, len2u as int) == fill_table_upto(bucket, m as int),
                    forall|k: int| len2u <= k < maxu ==> #[trigger] table@[k] == (0u32, 0u32),
                    num_occupied(table@.subrange(0, len2u as int)) == m,
                    forall|q: int| 0 <= q < bucket.len() ==> (#[trigger] bucket[q]).1 >= 2048,
                decreases blen - m,
            {
                let e: (u32, u32) = w.entries[i][m];
                proof {
                    assert(e == bucket[m as int]);
                    lemma_fill_table_len(bucket, m as int);
                }
                let ghost t0 = table@.subrange(0, len2u as int);
                proof {
                    let kfree = lemma_exists_free_slot(t0);
                    assert(0 <= kfree < t0.len() && (#[trigger] t0[kfree]).1 == 0);
                }
                let ghost k0 = choose|k: int| 0 <= k < t0.len() && (#[trigger] t0[k]).1 == 0;
                let mut wh: usize = ((e.0 >> 8) as usize) % len2u;
                let ghost home = wh as int;
                let ghost mut fuel: nat = len2u as nat;
                while table[wh].1 != 0
                    invariant
                        0 <= wh < len2u,
                        len2u <= table@.len(),
                        t0 == table@.subrange(0, len2u as int),
                        0 <= k0 < len2u,
                        t0[k0].1 == 0,
                        fuel <= len2u,
                        fuel >= 1 + (if k0 >= wh {
                            k0 - wh
                        } else {
                            k0 + len2u - wh
                        }),
                        probe_from(t0, wh as int, fuel) == probe_from(t0, home, len2u as nat),
                    decreases (if k0 >= wh {
                        k0 - wh
                    } else {
                        k0 + len2u - wh
                    }),
                {
                    proof {
                        assert(t0[wh as int] == table@[wh as int]);
                        fuel = (fuel - 1) as nat;
                    }
                    wh = wh + 1;
                    if wh == len2u {
                        wh = 0;
                    }
                }
                proof {
                    assert(t0[wh as int] == table@[wh as int]);
                    assert(probe_from(t0, wh as int, fuel) == wh as int);
                    assert(wh as int == probe_from(t0, home, len2u as nat));
                    assert(home == home_index(e.0, t0.len() as int));
                }
                table.set(wh, e);
                proof {
                    assert(table@.subrange(0, len2u as int) =~= t0.update(wh as int, e));
                    assert(t0.update(wh as int, e) == spec_table_insert(t0, e));
                    assert(fill_table_upto(bucket, m as int + 1) == spec_table_insert(t0, e));
                    lemma_num_occupied_update(t0, wh as int, e);
                }
                m = m + 1;
            }
            // Emit the filled table after the data region, clearing the
            // scratch slots for the next bucket as they go out.
            let ghost tfull = table_slots(bucket);
            proof {
                lemma_fill_table_len(bucket, bucket.len() as int);
                lemma_slots_bytes_len(tfull);
                assert(table@.subrange(0, len2u as int) == tfull);
            }
            let ghost base = w.buffer@;
            let mut q: usize = 0;
            while q < len2u
                invariant
                    0 <= q <= len2u,
                    w.entries@.len() == 256,
                    forall|k: int|
                        0 <= k < 256 ==> (#[trigger] w.entries@[k])@ == bucket_seq(rs, k),
                    len2u <= table@.len(),
                    table@.len() == maxu,
                    tfull.len() == len2u,
                    forall|k: int| 0 <= k < q ==> #[trigger] table@[k] == (0u32, 0u32),
                    forall|k: int| q <= k < len2u ==> #[trigger] table@[k] == tfull[k],
                    forall|k: int| len2u <= k < maxu ==> #[trigger] table@[k] == (0u32, 0u32),
                    w.buffer@ == base + slots_bytes(tfull.take(q as int)),
                    w.pos == table_pos(rs, i as int) + 8 * q,
                    table_pos(rs, i as int) + 8 * len2u <= 0xffffffff,
                decreases len2u - q,
            {
                let s: (u32, u32) = table[q];
                push_u32_pair(&mut w.buffer, s.0, s.1);
                table.set(q, (0u32, 0u32));
                w.pos = w.pos + 8;
                q = q + 1;
                proof {
                    assert(tfull.take(q as int).drop_last() =~= tfull.take(q - 1));
                    assert(tfull.take(q as int).last() == tfull[q - 1]);
                    lemma_slots_bytes_len(tfull.take(q as int));
                    assert(w.buffer@ =~= base + slots_bytes(tfull.take(q as int)));
                }
            }
            i = i + 1;
            proof {
                assert(tfull.take(len2u as int) =~= tfull);
                assert(w.buffer@ =~= zeros(2048) + data_bytes(rs) + tables_bytes_upto(
                    rs,
                    i as int,
                ));
                assert(table@ =~= empty_slots(maxsize as nat));
                lemma_slots_bytes_len(tfull);
            }
        }
        // Second pass of the two-pass build: overwrite the placeholder
        // with the finished header.
        proof {
            lemma_header_bytes_len(rs, 256);
        }
        let ghost body0 = w.buffer@;
        let mut j: usize = 0;
        while j < 2048
            invariant
                0 <= j <= 2048,
                header@.len() == 2048,
                header@ == header_bytes_upto(rs, 256),
                w.buffer@.len() == body0.len(),
                body0.len() >= 2048,
                forall|k: int| 0 <= k < j ==> w.buffer@[k] == header@[k],
                forall|k: int| j <= k < body0.len() ==> w.buffer@[k] == body0[k],
            decreases 2048 - j,
        {
            let byte = header[j];
            w.buffer.set(j, byte);
            j = j + 1;
        }
        proof {
            assert(body0 == zeros(2048) + data_bytes(rs) + tables_bytes_upto(rs, 256));
            let himg = header_bytes_upto(rs, 256);
            let d = data_bytes(rs);
            let t = tables_bytes_upto(rs, 256);
            assert(body0.len() == 2048 + d.len() + t.len());
            assert(image_bytes(rs).len() == 2048 + d.len() + t.len());
            assert forall|kk: int|
                0 <= kk < w.buffer@.len() implies w.buffer@[kk] == image_bytes(rs)[kk] by {
                if kk < 2048 {
                    assert(w.buffer@[kk] == himg[kk]);
                    assert(image_bytes(rs)[kk] == himg[kk]);
                } else {
                    assert(w.buffer@[kk] == body0[kk]);
                    if kk < 2048 + d.len() {
                        assert(body0[kk] == d[kk - 2048]);
                        assert(image_bytes(rs)[kk] == d[kk - 2048]);
                    } else {
                        assert(body0[kk] == t[kk - 2048 - d.len()]);
                        assert(image_bytes(rs)[kk] == t[kk - 2048 - d.len()]);
                    }
                }
            }
            assert(w.buffer@ =~= image_bytes(rs));
        }
        Ok(w.buffer)
    }
}

} // verus!
