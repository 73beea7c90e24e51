//! The page itself: a fixed block of bytes with a header, the slot metadata and
//! the records.
use vstd::prelude::*;
use crate::layout::{
    bytes_view, bytes_wf, empty_view, decoded_deleted, decoded_meta, encode_parts, lemma_distinct_below,
    lemma_decode_encode, lemma_encode_decode, lemma_parts_view_wf, lemma_place_record, lemma_remove_distinct,
    parts_view, parts_wf, record_end, record_start, reserved_header, u16_at, u16_byte, PageView,
};
use crate::laws::law_iteration_order;
use crate::{PageId, SlotId, PAGE_SIZE};

verus! {

/// Where a slot's record lies: `record_size` bytes starting just after `offset`.
pub struct Metadata {
    record_size: u16,
    offset: u16,
}

/// The page header: the page id, the offset of the last free byte before the
/// record area, the counts of slots and deleted slots, and the deleted slot ids in
/// the order of deletion.
pub struct Header {
    p_id: PageId,
    upd_offset: u16,
    n_records: u16,
    n_deletes: u16,
    deleted_slots: Vec<u16>,
}

/// A page of `PAGE_SIZE` bytes that stores values under slot ids.
pub struct Page {
    data: Vec<u8>,
    header: Header,
    metadata: Vec<Metadata>,
}

impl View for Page {
    type V = PageView;

    closed spec fn view(&self) -> PageView {
        parts_view(
            self.header.p_id,
            self.header.upd_offset,
            self.meta_parts(),
            self.header.deleted_slots@,
            self.data@,
        )
    }
}

impl Page {
    /// The size and offset of each slot's record.
    pub closed spec fn meta_parts(&self) -> Seq<(u16, u16)> {
        Seq::new(
            self.metadata@.len(),
            |i: int| (self.metadata@[i].record_size, self.metadata@[i].offset),
        )
    }

    /// The page's invariant.
    pub closed spec fn wf(&self) -> bool {
        &&& self.data@.len() == PAGE_SIZE
        &&& self.header.n_records as nat == self.metadata@.len()
        &&& self.header.n_deletes as nat == self.header.deleted_slots@.len()
        &&& parts_wf(self.header.upd_offset, self.meta_parts(), self.header.deleted_slots@)
    }

    /// The page serialized to bytes.
    pub closed spec fn spec_bytes(&self) -> Seq<u8> {
        encode_parts(
            self.header.p_id,
            self.header.upd_offset,
            self.meta_parts(),
            self.header.deleted_slots@,
            self.data@,
        )
    }

    /// A well-formed page has a well-formed view.
    proof fn lemma_wf(&self)
        requires
            self.wf(),
        ensures
            self@.wf(),
            self@.header_size() <= self@.data_start,
            self@.data_start == self.header.upd_offset + 1,
            self@.num_slots() == self.metadata@.len(),
            self@.deleted == self.header.deleted_slots@,
    {
        lemma_parts_view_wf(
            self.header.p_id,
            self.header.upd_offset,
            self.meta_parts(),
            self.header.deleted_slots@,
            self.data@,
        );
    }

    /// After a value went into existing slot `s` (taken off the deleted list, with
    /// its record apart from every other slot's and the rest of the record area
    /// untouched), the page is well-formed and only slot `s` changed.
    proof fn lemma_placed(&self, old: &Page, s: int, bytes: Seq<u8>)
        requires
            old.wf(),
            0 <= s < old.metadata@.len(),
            old.header.deleted_slots@.contains(s as u16),
            self.data@.len() == PAGE_SIZE,
            self.metadata@.len() == old.metadata@.len(),
            self.header.p_id == old.header.p_id,
            self.header.n_records == old.header.n_records,
            self.header.n_deletes as nat == self.header.deleted_slots@.len(),
            self.header.upd_offset <= old.header.upd_offset,
            reserved_header(self.metadata@.len()) <= self.header.upd_offset + 1,
            self.meta_parts()[s].0 == bytes.len(),
            forall|i: int| 0 <= i < old.metadata@.len() && i != s ==> self.meta_parts()[i] == old.meta_parts()[i],
            self.header.upd_offset + 1 <= record_start(self.meta_parts(), s),
            record_end(self.meta_parts(), s) <= PAGE_SIZE,
            forall|i: int|
                0 <= i < old.metadata@.len() && i != s ==> record_end(self.meta_parts(), s)
                    <= #[trigger] record_start(old.meta_parts(), i) || record_end(old.meta_parts(), i)
                    <= record_start(self.meta_parts(), s),
            exists|k: int|
                0 <= k < old.header.deleted_slots@.len() && old.header.deleted_slots@[k] == s
                    && self.header.deleted_slots@ == old.header.deleted_slots@.remove(k),
            self.data@.subrange(record_start(self.meta_parts(), s), record_end(self.meta_parts(), s))
                == bytes,
            forall|k: int|
                0 <= k < PAGE_SIZE && !(record_start(self.meta_parts(), s) <= k < record_end(
                    self.meta_parts(),
                    s,
                )) ==> self.data@[k] == old.data@[k],
        ensures
            self.wf(),
            self@.values == old@.values.update(s, Some(bytes)),
            self@.rooms == old@.rooms.update(s, bytes.len()),
    {
        let k = choose|k: int|
            0 <= k < old.header.deleted_slots@.len() && old.header.deleted_slots@[k] == s
                && self.header.deleted_slots@ == old.header.deleted_slots@.remove(k);
        let od = old.header.deleted_slots@;
        let nd = self.header.deleted_slots@;
        lemma_remove_distinct(od, k);
        assert forall|q: int| 0 <= q < nd.len() implies #[trigger] nd[q] < self.metadata@.len() by {
            assert(nd.contains(nd[q]));
        }
        assert forall|i: int| 0 <= i < self.metadata@.len() implies (#[trigger] nd.contains(
            i as u16,
        ) <==> (i != s && od.contains(i as u16))) by {
            if i != s {
                assert((i as u16) != (s as u16));
            }
        }
        lemma_place_record(
            old.header.p_id,
            old.header.upd_offset,
            old.meta_parts(),
            od,
            old.data@,
            self.header.upd_offset,
            self.meta_parts(),
            nd,
            self.data@,
            s,
            bytes,
        );
        assert(self@.values =~= old@.values.update(s, Some(bytes)));
        assert(self@.rooms =~= old@.rooms.update(s, bytes.len()));
    }

    /// Creates an empty page.
    pub fn new(page_id: PageId) -> (p: Self)
        ensures
            p.wf(),
            p@ == empty_view(page_id),
    {
        let mut data: Vec<u8> = Vec::new();
        while data.len() < PAGE_SIZE
            invariant
                data@.len() <= PAGE_SIZE,
            decreases PAGE_SIZE - data@.len(),
        {
            data.push(0);
        }
        let page_header = Header {
            p_id: page_id,
            upd_offset: (PAGE_SIZE - 1) as u16,
            n_records: 0,
            n_deletes: 0,
            deleted_slots: Vec::new(),
        };
        let p = Page { data, header: page_header, metadata: Vec::new() };
        assert(p@.values =~= Seq::<Option<Seq<u8>>>::empty());
        assert(p@.rooms =~= Seq::<nat>::empty());
        p
    }

    /// The page's id.
    pub fn get_page_id(&self) -> (id: PageId)
        ensures
            id == self@.page_id,
    {
        self.header.p_id
    }

    /// The number of header bytes the page takes once serialized.
    pub fn get_header_size(&self) -> (size: usize)
        requires
            self.wf(),
        ensures
            size == self@.header_size(),
    {
        proof {
            self.lemma_wf();
        }
        8 + 4 * self.metadata.len() + 2 * self.header.deleted_slots.len()
    }

    /// The number of free bytes between the header and the records.
    pub fn get_largest_free_contiguous_space(&self) -> (free: usize)
        requires
            self.wf(),
        ensures
            free == self@.free_space(),
    {
        proof {
            self.lemma_wf();
        }
        let header_size = self.get_header_size();
        self.header.upd_offset as usize + 1 - header_size
    }

    /// Whether `slot_id` is among the deleted slots.
    pub fn check_delete(&self, slot_id: SlotId) -> (deleted: bool)
        ensures
            deleted == self@.deleted.contains(slot_id),
    {
        let mut i: usize = 0;
        while i < self.header.deleted_slots.len()
            invariant
                i <= self.header.deleted_slots@.len(),
                forall|k: int| 0 <= k < i ==> self.header.deleted_slots@[k] != slot_id,
            decreases self.header.deleted_slots@.len() - i,
        {
            if self.header.deleted_slots[i] == slot_id {
                return true;
            }
            i += 1;
        }
        false
    }

    /// The value stored under `slot_id`; `None` when the slot does not exist or was deleted.
    pub fn get_value(&self, slot_id: SlotId) -> (value: Option<Vec<u8>>)
        requires
            self.wf(),
        ensures
            match value {
                Some(v) => self@.get(slot_id as int) == Some(v@),
                None => self@.get(slot_id as int) is None,
            },
    {
        proof {
            self.lemma_wf();
        }
        let slot = slot_id as usize;
        if slot >= self.metadata.len() || self.check_delete(slot_id) {
            return None;
        }
        let start = self.metadata[slot].offset as usize + 1;
        let size = self.metadata[slot].record_size as usize;
        proof {
            assert(record_start(self.meta_parts(), slot as int) == start);
            assert(record_end(self.meta_parts(), slot as int) == start + size);
        }
        let mut out: Vec<u8> = Vec::new();
        let mut j: usize = 0;
        while j < size
            invariant
                j <= size,
                start + size <= self.data@.len(),
                self.data@.len() == PAGE_SIZE,
                out@ == self.data@.subrange(start as int, start + j),
            decreases size - j,
        {
            out.push(self.data[start + j]);
            j += 1;
            assert(out@ =~= self.data@.subrange(start as int, start + j));
        }
        Some(out)
    }

    /// Deletes the value stored under `slot_id`, whose id the next added value may
    /// take and whose bytes it may reuse. `None` when the slot does not exist or was
    /// already deleted.
    pub fn delete_value(&mut self, slot_id: SlotId) -> (r: Option<()>)
        requires
            old(self).wf(),
        ensures
            final(self).wf(),
            (final(self)@, r) == old(self)@.after_delete(slot_id),
            r is None ==> *final(self) == *old(self),
    {
        proof {
            self.lemma_wf();
        }
        if (slot_id as usize) < self.metadata.len() && !self.check_delete(slot_id) {
            let ghost old_deleted = self.header.deleted_slots@;
            let ghost nr = self.metadata@.len();
            proof {
                let d2 = old_deleted.push(slot_id);
                assert forall|a: int, b: int|
                    0 <= a < d2.len() && 0 <= b < d2.len() && a != b implies d2[a] != d2[b] by {
                    if a < old_deleted.len() && b < old_deleted.len() {
                    } else if a < old_deleted.len() {
                        assert(old_deleted.contains(d2[a]));
                    } else {
                        assert(old_deleted.contains(d2[b]));
                    }
                }
                assert forall|k: int| 0 <= k < d2.len() implies d2[k] < nr by {
                    if k < old_deleted.len() {
                        assert(d2[k] == old_deleted[k]);
                    }
                }
                lemma_distinct_below(d2, nr);
            }
            self.header.deleted_slots.push(slot_id);
            self.header.n_deletes = self.header.n_deletes + 1;
            proof {
                let v = self@;
                let w = old(self)@.after_delete(slot_id).0;
                assert forall|i: int| 0 <= i < nr implies #[trigger] v.values[i] == w.values[i] by {
                    if i != slot_id {
                        let nd = self.header.deleted_slots@;
                        assert((i as u16) != slot_id);
                        if nd.contains(i as u16) {
                            let j = choose|j: int| 0 <= j < nd.len() && nd[j] == i as u16;
                            assert(j < old_deleted.len());
                            assert(old_deleted[j] == i as u16);
                        }
                        if old_deleted.contains(i as u16) {
                            let j = choose|j: int|
                                0 <= j < old_deleted.len() && old_deleted[j] == i as u16;
                            assert(nd[j] == i as u16);
                        }
                    } else {
                        assert(self.header.deleted_slots@[old_deleted.len() as int] == slot_id);
                    }
                }
                assert(v.values =~= w.values);
                assert(v.rooms =~= w.rooms);
            }
            Some(())
        } else {
            None
        }
    }

    /// Adds `bytes` to the page and returns the slot that holds them, or `None`
    /// when the page has no room for them.
    pub fn add_value(&mut self, bytes: &[u8]) -> (r: Option<SlotId>)
        requires
            old(self).wf(),
        ensures
            final(self).wf(),
            (final(self)@, r) == old(self)@.after_add(bytes@),
            r is None ==> *final(self) == *old(self),
    {
        proof {
            self.lemma_wf();
        }
        if self.header.deleted_slots.len() != 0 {
            return self.overwrite_helper(bytes);
        }
        let n = bytes.len();
        let nr = self.metadata.len();
        let start = self.header.upd_offset as usize + 1;
        if n <= start && 8 + 6 * (nr + 1) <= start - n {
            let ghost old_meta = self.meta_parts();
            let ghost old_data = self.data@;
            let new_start = start - n;
            write_record(&mut self.data, new_start, bytes);
            self.header.upd_offset = (new_start - 1) as u16;
            self.metadata.push(Metadata { record_size: n as u16, offset: (new_start - 1) as u16 });
            self.header.n_records = self.header.n_records + 1;
            proof {
                let meta = self.meta_parts();
                assert(meta =~= old_meta.push((n as u16, (new_start - 1) as u16)));
                lemma_place_record(
                    self.header.p_id,
                    old(self).header.upd_offset,
                    old_meta,
                    old(self).header.deleted_slots@,
                    old_data,
                    self.header.upd_offset,
                    meta,
                    self.header.deleted_slots@,
                    self.data@,
                    nr as int,
                    bytes@,
                );
                assert(self@.values =~= old(self)@.after_add(bytes@).0.values);
                assert(self@.rooms =~= old(self)@.after_add(bytes@).0.rooms);
            }
            Some(nr as u16)
        } else {
            None
        }
    }

    /// Adds `bytes` under a deleted slot id: the earliest deleted slot whose old
    /// bytes can hold them takes them in place; failing that, the earliest deleted
    /// slot takes them at the front of the records, if the page has room.
    pub fn overwrite_helper(&mut self, bytes: &[u8]) -> (r: Option<SlotId>)
        requires
            old(self).wf(),
            old(self)@.deleted.len() > 0,
        ensures
            final(self).wf(),
            (final(self)@, r) == old(self)@.after_add(bytes@),
            r is None ==> *final(self) == *old(self),
    {
        proof {
            self.lemma_wf();
        }
        let n = bytes.len();
        let nr = self.metadata.len();
        let ghost old_meta = self.meta_parts();
        let ghost old_deleted = self.header.deleted_slots@;
        match self.find_fit(n) {
            Some(k) => {
                let s = self.header.deleted_slots[k];
                let start = self.metadata[s as usize].offset as usize + 1;
                proof {
                    assert(old_deleted[k as int] < nr);
                    assert(record_start(old_meta, s as int) == start);
                    assert(n <= old_meta[s as int].0);
                }
                write_record(&mut self.data, start, bytes);
                let offset = self.metadata[s as usize].offset;
                self.metadata.set(s as usize, Metadata { record_size: n as u16, offset });
                self.header.deleted_slots.remove(k);
                self.header.n_deletes = self.header.n_deletes - 1;
                proof {
                    let meta = self.meta_parts();
                    assert(meta =~= old_meta.update(s as int, (n as u16, offset)));
                    assert forall|i: int| 0 <= i < nr && i != s implies record_end(meta, s as int)
                        <= #[trigger] record_start(old_meta, i) || record_end(old_meta, i)
                        <= record_start(meta, s as int) by {
                        assert(record_end(old_meta, i) <= record_start(old_meta, s as int)
                            || record_end(old_meta, s as int) <= record_start(old_meta, i));
                    }
                    self.lemma_placed(old(self), s as int, bytes@);
                }
                Some(s)
            },
            None => {
                let start = self.header.upd_offset as usize + 1;
                if n <= start && 8 + 6 * nr <= start - n {
                    let s = self.header.deleted_slots[0];
                    let new_start = start - n;
                    proof {
                        assert(old_deleted[0] < nr);
                    }
                    write_record(&mut self.data, new_start, bytes);
                    self.header.upd_offset = (new_start - 1) as u16;
                    self.metadata.set(
                        s as usize,
                        Metadata { record_size: n as u16, offset: (new_start - 1) as u16 },
                    );
                    self.header.deleted_slots.remove(0);
                    self.header.n_deletes = self.header.n_deletes - 1;
                    proof {
                        let meta = self.meta_parts();
                        assert(meta =~= old_meta.update(
                            s as int,
                            (n as u16, (new_start - 1) as u16),
                        ));
                        assert forall|i: int| 0 <= i < nr && i != s implies record_end(
                            meta,
                            s as int,
                        ) <= #[trigger] record_start(old_meta, i) || record_end(old_meta, i)
                            <= record_start(meta, s as int) by {
                            assert(start <= record_start(old_meta, i));
                        }
                        self.lemma_placed(old(self), s as int, bytes@);
                    }
                    Some(s)
                } else {
                    None
                }
            },
        }
    }

    /// Serializes the page into exactly `PAGE_SIZE` bytes: the header, the deleted
    /// slot ids, each slot's size and offset, and then the page's own bytes past
    /// the header.
    pub fn get_bytes(&self) -> (out: Vec<u8>)
        requires
            self.wf(),
        ensures
            out@ == self.spec_bytes(),
            out@.len() == PAGE_SIZE,
            bytes_wf(out@),
            bytes_view(out@) == self@,
    {
        proof {
            self.lemma_wf();
        }
        let ghost enc = self.spec_bytes();
        let ghost meta = self.meta_parts();
        let ghost deleted = self.header.deleted_slots@;
        let nd = self.header.deleted_slots.len();
        let nr = self.metadata.len();
        let mut out: Vec<u8> = Vec::new();
        push_u16(&mut out, self.header.p_id);
        push_u16(&mut out, self.header.upd_offset);
        push_u16(&mut out, self.header.n_records);
        push_u16(&mut out, self.header.n_deletes);
        assert forall|j: int| 0 <= j < out@.len() implies out@[j] == enc[j] by {}
        let mut i: usize = 0;
        while i < nd
            invariant
                self.wf(),
                enc == self.spec_bytes(),
                deleted == self.header.deleted_slots@,
                meta == self.meta_parts(),
                nd == deleted.len(),
                nr == meta.len(),
                8 + 2 * nd + 4 * nr <= PAGE_SIZE,
                i <= nd,
                out@.len() == 8 + 2 * i,
                forall|j: int| 0 <= j < out@.len() ==> out@[j] == enc[j],
            decreases nd - i,
        {
            let ghost pos = out@.len() as int;
            push_u16(&mut out, self.header.deleted_slots[i]);
            proof {
                assert((pos - 8) / 2 == i && (pos - 8) % 2 == 0);
                assert((pos + 1 - 8) / 2 == i && (pos + 1 - 8) % 2 == 1);
                assert(enc[pos] == u16_byte(deleted[i as int], 0));
                assert(enc[pos + 1] == u16_byte(deleted[i as int], 1));
            }
            i += 1;
        }
        let mut k: usize = 0;
        while k < nr
            invariant
                self.wf(),
                enc == self.spec_bytes(),
                deleted == self.header.deleted_slots@,
                meta == self.meta_parts(),
                nd == deleted.len(),
                nr == meta.len(),
                8 + 2 * nd + 4 * nr <= PAGE_SIZE,
                k <= nr,
                out@.len() == 8 + 2 * nd + 4 * k,
                forall|j: int| 0 <= j < out@.len() ==> out@[j] == enc[j],
            decreases nr - k,
        {
            let ghost pos = out@.len() as int;
            let ghost mo = 8 + 2 * nd;
            push_u16(&mut out, self.metadata[k].record_size);
            push_u16(&mut out, self.metadata[k].offset);
            proof {
                assert((pos - mo) / 4 == k && (pos - mo) % 4 == 0);
                assert((pos + 1 - mo) / 4 == k && (pos + 1 - mo) % 4 == 1);
                assert((pos + 2 - mo) / 4 == k && (pos + 2 - mo) % 4 == 2);
                assert((pos + 3 - mo) / 4 == k && (pos + 3 - mo) % 4 == 3);
                assert(enc[pos] == u16_byte(meta[k as int].0, 0));
                assert(enc[pos + 1] == u16_byte(meta[k as int].0, 1));
                assert(enc[pos + 2] == u16_byte(meta[k as int].1, 0));
                assert(enc[pos + 3] == u16_byte(meta[k as int].1, 1));
            }
            k += 1;
        }
        let mut j: usize = out.len();
        while j < PAGE_SIZE
            invariant
                self.wf(),
                enc == self.spec_bytes(),
                8 + 2 * nd + 4 * nr <= j <= PAGE_SIZE,
                nd == self.header.deleted_slots@.len(),
                nr == self.metadata@.len(),
                out@.len() == j,
                forall|q: int| 0 <= q < out@.len() ==> out@[q] == enc[q],
            decreases PAGE_SIZE - j,
        {
            out.push(self.data[j]);
            j += 1;
        }
        assert(out@ =~= enc);
        proof {
            lemma_encode_decode(
                self.header.p_id,
                self.header.upd_offset,
                self.meta_parts(),
                self.header.deleted_slots@,
                self.data@,
            );
        }
        out
    }

    /// Reads a page back from the bytes that `get_bytes` produced.
    pub fn from_bytes(data: &[u8]) -> (p: Self)
        requires
            bytes_wf(data@),
        ensures
            p.wf(),
            p@ == bytes_view(data@),
            p.spec_bytes() == data@,
    {
        let ghost b = data@;
        let ghost meta = decoded_meta(b);
        let ghost deleted = decoded_deleted(b);
        let mut bytes: Vec<u8> = Vec::new();
        let mut i: usize = 0;
        while i < data.len()
            invariant
                b == data@,
                b.len() == PAGE_SIZE,
                i <= b.len(),
                bytes@ == b.subrange(0, i as int),
            decreases b.len() - i,
        {
            bytes.push(data[i]);
            i += 1;
            assert(bytes@ =~= b.subrange(0, i as int));
        }
        assert(bytes@ =~= b);
        let p_id = read_u16(data, 0);
        let upd_offset = read_u16(data, 2);
        let n_records = read_u16(data, 4);
        let n_deletes = read_u16(data, 6);
        let mut deleted_slots: Vec<u16> = Vec::new();
        let mut k: usize = 0;
        while k < n_deletes as usize
            invariant
                b == data@,
                bytes_wf(b),
                deleted == decoded_deleted(b),
                n_deletes == deleted.len(),
                n_records == meta.len(),
                deleted.len() <= meta.len(),
                8 + 6 * meta.len() <= PAGE_SIZE,
                k <= n_deletes,
                deleted_slots@ == deleted.take(k as int),
            decreases n_deletes - k,
        {
            let x = read_u16(data, 8 + 2 * k);
            deleted_slots.push(x);
            k += 1;
            assert(deleted_slots@ =~= deleted.take(k as int));
        }
        assert(deleted_slots@ =~= deleted);
        let mo = 8 + 2 * n_deletes as usize;
        let mut metadata: Vec<Metadata> = Vec::new();
        let mut k: usize = 0;
        while k < n_records as usize
            invariant
                b == data@,
                bytes_wf(b),
                meta == decoded_meta(b),
                mo == 8 + 2 * deleted.len(),
                deleted == decoded_deleted(b),
                n_records == meta.len(),
                deleted.len() <= meta.len(),
                8 + 6 * meta.len() <= PAGE_SIZE,
                k <= n_records,
                metadata@.len() == k,
                forall|q: int|
                    0 <= q < k ==> (#[trigger] metadata@[q]).record_size == meta[q].0
                        && metadata@[q].offset == meta[q].1,
            decreases n_records - k,
        {
            let record_size = read_u16(data, mo + 4 * k);
            let offset = read_u16(data, mo + 4 * k + 2);
            metadata.push(Metadata { record_size, offset });
            k += 1;
        }
        let page_header = Header { p_id, upd_offset, n_records, n_deletes, deleted_slots };
        let p = Page { data: bytes, header: page_header, metadata };
        assert(p.meta_parts() =~= meta);
        proof {
            lemma_decode_encode(b);
        }
        p
    }

    /// Serializing a page and reading the bytes back gives the same page.
    pub proof fn law_bytes_roundtrip(&self)
        requires
            self.wf(),
        ensures
            bytes_wf(self.spec_bytes()),
            bytes_view(self.spec_bytes()) == self@,
    {
        lemma_encode_decode(
            self.header.p_id,
            self.header.upd_offset,
            self.meta_parts(),
            self.header.deleted_slots@,
            self.data@,
        );
    }

    /// Whether `data` is a well-formed serialized page, as `from_bytes` requires.
    pub fn is_page_bytes(data: &[u8]) -> (ok: bool)
        ensures
            ok == bytes_wf(data@),
    {
        if data.len() != PAGE_SIZE {
            return false;
        }
        let ghost b = data@;
        let ghost meta = decoded_meta(b);
        let ghost deleted = decoded_deleted(b);
        let upd = read_u16(data, 2) as usize;
        let nr = read_u16(data, 4) as usize;
        let nd = read_u16(data, 6) as usize;
        if 8 + 6 * nr > upd + 1 || upd + 1 > PAGE_SIZE || nd > nr {
            return false;
        }
        let mut seen: Vec<bool> = Vec::new();
        while seen.len() < nr
            invariant
                seen@.len() <= nr,
                forall|y: int| 0 <= y < seen@.len() ==> !seen@[y],
            decreases nr - seen@.len(),
        {
            seen.push(false);
        }
        let mut k: usize = 0;
        while k < nd
            invariant
                b == data@,
                b.len() == PAGE_SIZE,
                deleted == decoded_deleted(b),
                meta == decoded_meta(b),
                nr == meta.len(),
                nd == deleted.len(),
                nd <= nr,
                8 + 6 * nr <= PAGE_SIZE,
                k <= nd,
                seen@.len() == nr,
                forall|y: int|
                    0 <= y < nr ==> (#[trigger] seen@[y] <==> deleted.take(k as int).contains(
                        y as u16,
                    )),
                deleted.take(k as int).no_duplicates(),
                forall|q: int| 0 <= q < k ==> #[trigger] deleted[q] < nr,
            decreases nd - k,
        {
            let x = read_u16(data, 8 + 2 * k);
            assert(x == deleted[k as int]);
            if x as usize >= nr {
                return false;
            }
            if seen[x as usize] {
                proof {
                    let q = choose|q: int|
                        0 <= q < k && deleted.take(k as int)[q] == x as u16;
                    assert(deleted[q] == deleted[k as int]);
                }
                return false;
            }
            proof {
                let t = deleted.take(k as int);
                let t2 = deleted.take(k + 1);
                assert(t2 =~= t.push(x));
                assert forall|a: int, c: int|
                    0 <= a < t2.len() && 0 <= c < t2.len() && a != c implies t2[a] != t2[c] by {
                    if a < k && c < k {
                    } else if a < k {
                        assert(t.contains(t2[a]));
                        assert(!seen@[x as int]);
                    } else {
                        assert(t.contains(t2[c]));
                        assert(!seen@[x as int]);
                    }
                }
                assert forall|y: int| 0 <= y < nr implies (y == x || #[trigger] seen@[y])
                    <==> t2.contains(y as u16) by {
                    if t2.contains(y as u16) {
                        let a = choose|a: int| 0 <= a < t2.len() && t2[a] == y as u16;
                        if a < k {
                            assert(t[a] == y as u16);
                        }
                    }
                    if seen@[y] {
                        let a = choose|a: int| 0 <= a < t.len() && t[a] == y as u16;
                        assert(t2[a] == y as u16);
                    }
                    if y == x {
                        assert(t2[k as int] == y as u16);
                    }
                }
            }
            seen.set(x as usize, true);
            k += 1;
        }
        assert(deleted.take(nd as int) =~= deleted);
        let mo = 8 + 2 * nd;
        let mut i: usize = 0;
        while i < nr
            invariant
                b == data@,
                b.len() == PAGE_SIZE,
                meta == decoded_meta(b),
                nr == meta.len(),
                mo == 8 + 2 * u16_at(b, 6),
                nd <= nr,
                mo + 4 * nr <= PAGE_SIZE,
                upd == u16_at(b, 2),
                i <= nr,
                forall|q: int|
                    0 <= q < i ==> upd + 1 <= #[trigger] record_start(meta, q) && record_end(
                        meta,
                        q,
                    ) <= PAGE_SIZE,
            decreases nr - i,
        {
            let (start, end) = record_bounds(data, mo, i);
            if !(upd + 1 <= start && end <= PAGE_SIZE) {
                return false;
            }
            i += 1;
        }
        let mut i: usize = 0;
        while i < nr
            invariant
                b == data@,
                b.len() == PAGE_SIZE,
                meta == decoded_meta(b),
                nr == meta.len(),
                mo == 8 + 2 * u16_at(b, 6),
                mo + 4 * nr <= PAGE_SIZE,
                i <= nr,
                forall|a: int, c: int|
                    0 <= a < i && 0 <= c < nr && a != c ==> #[trigger] record_end(meta, a)
                        <= #[trigger] record_start(meta, c) || record_end(meta, c) <= record_start(
                        meta,
                        a,
                    ),
            decreases nr - i,
        {
            let (start_i, end_i) = record_bounds(data, mo, i);
            let mut j: usize = i + 1;
            while j < nr
                invariant
                    b == data@,
                    b.len() == PAGE_SIZE,
                    meta == decoded_meta(b),
                    nr == meta.len(),
                    mo == 8 + 2 * u16_at(b, 6),
                    mo + 4 * nr <= PAGE_SIZE,
                    i < nr,
                    i + 1 <= j <= nr,
                    start_i == record_start(meta, i as int),
                    end_i == record_end(meta, i as int),
                    forall|c: int|
                        i < c < j ==> record_end(meta, i as int) <= #[trigger] record_start(meta, c)
                            || record_end(meta, c) <= record_start(meta, i as int),
                decreases nr - j,
            {
                let (start_j, end_j) = record_bounds(data, mo, j);
                if !(end_i <= start_j || end_j <= start_i) {
                    return false;
                }
                j += 1;
            }
            proof {
                assert forall|a: int, c: int|
                    0 <= a < i + 1 && 0 <= c < nr && a != c implies #[trigger] record_end(meta, a)
                    <= #[trigger] record_start(meta, c) || record_end(meta, c) <= record_start(
                    meta,
                    a,
                ) by {
                    if a == i && c < i {
                        assert(record_end(meta, c) <= record_start(meta, a) || record_end(meta, a)
                            <= record_start(meta, c));
                    }
                }
            }
            i += 1;
        }
        true
    }

    /// The position in the deleted list of the first deleted slot whose old bytes
    /// can hold `n` bytes.
    fn find_fit(&self, n: usize) -> (r: Option<usize>)
        requires
            self.wf(),
        ensures
            match r {
                Some(k) => self@.first_fit(n as nat, 0) == Some(k as nat) && k
                    < self.header.deleted_slots@.len() && n <= self@.rooms[self@.deleted[k as int] as int],
                None => self@.first_fit(n as nat, 0) is None,
            },
    {
        proof {
            self.lemma_wf();
        }
        let nd = self.header.deleted_slots.len();
        let mut k: usize = 0;
        while k < nd
            invariant
                self.wf(),
                nd == self@.deleted.len(),
                k <= nd,
                self@.first_fit(n as nat, 0) == self@.first_fit(n as nat, k as nat),
            decreases nd - k,
        {
            proof {
                self.lemma_wf();
            }
            let s = self.header.deleted_slots[k];
            proof {
                assert(self@.deleted[k as int] < self@.num_slots());
            }
            if n <= self.metadata[s as usize].record_size as usize {
                return Some(k);
            }
            k += 1;
        }
        None
    }
}

/// Copies `bytes` into `data` from position `start` on.
fn write_record(data: &mut Vec<u8>, start: usize, bytes: &[u8])
    requires
        start + bytes@.len() <= old(data)@.len(),
        old(data)@.len() <= PAGE_SIZE,
    ensures
        final(data)@.len() == old(data)@.len(),
        final(data)@.subrange(start as int, start + bytes@.len()) == bytes@,
        forall|k: int|
            0 <= k < old(data)@.len() && !(start <= k < start + bytes@.len()) ==> final(data)@[k]
                == old(data)@[k],
{
    let mut j: usize = 0;
    while j < bytes.len()
        invariant
            j <= bytes@.len(),
            start + bytes@.len() <= data@.len(),
            data@.len() == old(data)@.len(),
            old(data)@.len() <= PAGE_SIZE,
            forall|k: int| start <= k < start + j ==> data@[k] == bytes@[k - start],
            forall|k: int|
                0 <= k < data@.len() && !(start <= k < start + j) ==> data@[k] == old(data)@[k],
        decreases bytes@.len() - j,
    {
        data.set(start + j, bytes[j]);
        j += 1;
    }
    assert(data@.subrange(start as int, start + bytes@.len()) =~= bytes@);
}


/// Appends the little-endian encoding of `x`.
fn push_u16(out: &mut Vec<u8>, x: u16)
    ensures
        final(out)@ == old(out)@.push(u16_byte(x, 0)).push(u16_byte(x, 1)),
{
    out.push((x % 256) as u8);
    out.push((x / 256) as u8);
}

/// Reads the little-endian `u16` at position `i`.
fn read_u16(b: &[u8], i: usize) -> (x: u16)
    requires
        i + 1 < b@.len(),
    ensures
        x == u16_at(b@, i as int),
{
    b[i] as u16 + (b[i + 1] as u16) * 256
}


/// The first byte and one past the last byte of the record of slot `i`, read from
/// the serialized page `b` whose slot metadata starts at `mo`.
fn record_bounds(b: &[u8], mo: usize, i: usize) -> (r: (usize, usize))
    requires
        b@.len() == PAGE_SIZE,
        mo == 8 + 2 * u16_at(b@, 6),
        i < decoded_meta(b@).len(),
        mo + 4 * decoded_meta(b@).len() <= PAGE_SIZE,
    ensures
        r.0 == record_start(decoded_meta(b@), i as int),
        r.1 == record_end(decoded_meta(b@), i as int),
{
    let size = read_u16(b, mo + 4 * i) as usize;
    let offset = read_u16(b, mo + 4 * i + 2) as usize;
    (offset + 1, offset + 1 + size)
}


/// Consumes a page and hands out the values of its live slots, in slot order.
pub struct PageIter {
    page: Page,
    index: usize,
}

impl PageIter {
    /// The values still to be handed out, in order.
    pub closed spec fn remaining(&self) -> Seq<Seq<u8>> {
        self.page@.live_from(self.index as nat)
    }

    pub closed spec fn wf(&self) -> bool {
        &&& self.page.wf()
        &&& self.index <= self.page.metadata@.len()
    }

    /// The next live value, or `None` once every live value was handed out.
    pub fn next(&mut self) -> (item: Option<Vec<u8>>)
        requires
            old(self).wf(),
        ensures
            final(self).wf(),
            match item {
                Some(v) => {
                    &&& old(self).remaining().len() > 0
                    &&& v@ == old(self).remaining()[0]
                    &&& final(self).remaining() == old(self).remaining().drop_first()
                },
                None => old(self).remaining().len() == 0 && final(self).remaining().len() == 0,
            },
    {
        proof {
            self.page.lemma_wf();
        }
        let nr = self.page.metadata.len();
        while self.index < nr && self.page.check_delete(self.index as u16)
            invariant
                self.wf(),
                self.page == old(self).page,
                nr == self.page@.num_slots(),
                self.remaining() == old(self).remaining(),
            decreases nr - self.index,
        {
            proof {
                self.page.lemma_wf();
                assert(self.page@.values[self.index as int] is None);
            }
            self.index += 1;
        }
        if self.index >= nr {
            return None;
        }
        let item = self.page.get_value(self.index as u16);
        proof {
            self.page.lemma_wf();
            assert(self.page@.values[self.index as int] is Some);
            assert(self.remaining() == seq![self.page@.values[self.index as int]->0]
                + self.page@.live_from((self.index + 1) as nat));
        }
        self.index += 1;
        proof {
            assert(old(self).remaining().drop_first() =~= self.remaining());
        }
        item
    }
}

impl Page {
    /// Turns the page into an iterator over the values of its live slots.
    pub fn into_iter(self) -> (it: PageIter)
        requires
            self.wf(),
        ensures
            it.wf(),
            it.remaining() == self@.live_from(0),
            it.remaining() == self@.live_values(),
    {
        proof {
            law_iteration_order(self@);
        }
        PageIter { page: self, index: 0 }
    }
}

} // verus!
