//! The abstract model of a page and of its byte layout.
//!
//! A serialized page is laid out as follows (all integers are little-endian `u16`):
//! bytes 0..2 hold the page id, 2..4 the offset of the last free byte, 4..6 the
//! number of slots, 6..8 the number of deleted slots, then two bytes per deleted
//! slot id (in the order of deletion), then four bytes per slot (the size of its
//! record and the offset just before its first byte), and the rest of the page
//! holds the records, packed from the end of the page towards its start.
use vstd::prelude::*;
use crate::PAGE_SIZE;

verus! {

/// Header bytes used by a page with `num_slots` slots of which `num_deleted` are deleted.
pub open spec fn header_bytes(num_slots: nat, num_deleted: nat) -> nat {
    8 + 4 * num_slots + 2 * num_deleted
}

/// Header bytes a page with `num_slots` slots keeps in reserve: eight bytes of fixed
/// header and six per slot, enough for its metadata and for recording its deletion.
pub open spec fn reserved_header(num_slots: nat) -> nat {
    8 + 6 * num_slots
}

/// What a page holds, as seen by its users.
#[verifier::ext_equal]
pub struct PageView {
    pub page_id: u16,
    /// The value in each slot, `None` for a deleted slot.
    pub values: Seq<Option<Seq<u8>>>,
    /// The number of record bytes each slot owns (for a deleted slot, the size of
    /// the hole it left behind, which a later value may reuse).
    pub rooms: Seq<nat>,
    /// The deleted slot ids, in the order in which they were deleted.
    pub deleted: Seq<u16>,
    /// The position of the first byte of the record area.
    pub data_start: nat,
}

impl PageView {
    pub open spec fn num_slots(self) -> nat {
        self.values.len()
    }

    pub open spec fn header_size(self) -> nat {
        header_bytes(self.values.len(), self.deleted.len())
    }

    /// The free bytes between the header and the record area.
    pub open spec fn free_space(self) -> int {
        self.data_start - self.header_size()
    }

    /// The value stored under `slot`, if any.
    pub open spec fn get(self, slot: int) -> Option<Seq<u8>> {
        if 0 <= slot < self.values.len() {
            self.values[slot]
        } else {
            None
        }
    }

    pub open spec fn is_live(self, slot: int) -> bool {
        self.get(slot) is Some
    }

    pub open spec fn wf(self) -> bool {
        &&& self.rooms.len() == self.values.len()
        &&& reserved_header(self.values.len()) <= self.data_start <= PAGE_SIZE
        &&& self.deleted.len() <= self.values.len()
        &&& self.deleted.no_duplicates()
        &&& forall|k: int| 0 <= k < self.deleted.len() ==> self.deleted[k] < self.values.len()
        &&& forall|i: int|
            0 <= i < self.values.len() ==> (#[trigger] self.values[i] is None
                <==> self.deleted.contains(i as u16))
        &&& forall|i: int|
            0 <= i < self.values.len() && self.values[i] is Some ==> #[trigger] self.rooms[i]
                == self.values[i]->0.len()
    }

    /// The position in `deleted` of the first deleted slot, from position `k` on,
    /// whose hole holds `n` bytes.
    pub open spec fn first_fit(self, n: nat, k: nat) -> Option<nat>
        decreases self.deleted.len() - k,
    {
        if k >= self.deleted.len() {
            None
        } else if n <= self.rooms[self.deleted[k as int] as int] {
            Some(k)
        } else {
            self.first_fit(n, k + 1)
        }
    }

    /// The page after adding `bytes`, and the slot that now holds them.
    ///
    /// A deleted slot id is reused first: the earliest deleted slot whose hole
    /// holds the value takes it in place; failing that, the earliest deleted slot
    /// takes it at the front of the record area, if the page has room. With no
    /// deleted slot, the value gets a new slot at the end, if the page has room
    /// for it and for the new slot's header.
    pub open spec fn after_add(self, bytes: Seq<u8>) -> (PageView, Option<u16>) {
        let n = bytes.len();
        if self.deleted.len() > 0 {
            match self.first_fit(n, 0) {
                Some(k) => {
                    let s = self.deleted[k as int];
                    (
                        PageView {
                            page_id: self.page_id,
                            values: self.values.update(s as int, Some(bytes)),
                            rooms: self.rooms.update(s as int, n),
                            deleted: self.deleted.remove(k as int),
                            data_start: self.data_start,
                        },
                        Some(s),
                    )
                },
                None => {
                    if n + reserved_header(self.values.len()) <= self.data_start {
                        let s = self.deleted[0];
                        (
                            PageView {
                                page_id: self.page_id,
                                values: self.values.update(s as int, Some(bytes)),
                                rooms: self.rooms.update(s as int, n),
                                deleted: self.deleted.remove(0),
                                data_start: (self.data_start - n) as nat,
                            },
                            Some(s),
                        )
                    } else {
                        (self, None)
                    }
                },
            }
        } else if n + reserved_header(self.values.len() + 1) <= self.data_start {
            (
                PageView {
                    page_id: self.page_id,
                    values: self.values.push(Some(bytes)),
                    rooms: self.rooms.push(n),
                    deleted: self.deleted,
                    data_start: (self.data_start - n) as nat,
                },
                Some(self.values.len() as u16),
            )
        } else {
            (self, None)
        }
    }

    /// The page after deleting the value in `slot`; `None` when the slot holds no value.
    pub open spec fn after_delete(self, slot: u16) -> (PageView, Option<()>) {
        if self.is_live(slot as int) {
            (
                PageView {
                    page_id: self.page_id,
                    values: self.values.update(slot as int, None),
                    rooms: self.rooms,
                    deleted: self.deleted.push(slot),
                    data_start: self.data_start,
                },
                Some(()),
            )
        } else {
            (self, None)
        }
    }

    /// The values of the live slots among the first `n` slots, in slot order.
    pub open spec fn live_prefix(self, n: nat) -> Seq<Seq<u8>>
        decreases n,
    {
        if n == 0 {
            Seq::empty()
        } else {
            let before = self.live_prefix((n - 1) as nat);
            match self.get(n - 1) {
                Some(v) => before.push(v),
                None => before,
            }
        }
    }

    /// The values of all live slots, in slot order.
    pub open spec fn live_values(self) -> Seq<Seq<u8>> {
        self.live_prefix(self.values.len())
    }

    /// Record bytes owned by all slots together (live values and holes) never
    /// exceed the record area.
    pub open spec fn packed(self) -> bool {
        total_rooms(self.rooms) + self.data_start <= PAGE_SIZE
    }

    /// The values of the live slots from slot `i` on, in slot order.
    pub open spec fn live_from(self, i: nat) -> Seq<Seq<u8>>
        decreases self.values.len() - i,
    {
        if i >= self.values.len() {
            Seq::empty()
        } else {
            match self.values[i as int] {
                Some(v) => seq![v] + self.live_from(i + 1),
                None => self.live_from(i + 1),
            }
        }
    }
}


/// A page holding nothing.
pub open spec fn empty_view(page_id: u16) -> PageView {
    PageView {
        page_id,
        values: Seq::empty(),
        rooms: Seq::empty(),
        deleted: Seq::empty(),
        data_start: PAGE_SIZE as nat,
    }
}

/// The total length of a list of values.
pub open spec fn total_len(values: Seq<Seq<u8>>) -> nat
    decreases values.len(),
{
    if values.len() == 0 {
        0
    } else {
        total_len(values.drop_last()) + values.last().len()
    }
}

/// The sum of a list of byte counts.
pub open spec fn total_rooms(rooms: Seq<nat>) -> nat
    decreases rooms.len(),
{
    if rooms.len() == 0 {
        0
    } else {
        total_rooms(rooms.drop_last()) + rooms.last()
    }
}

/// The first byte of the record described by `meta[i]` (a pair of size and offset;
/// the offset names the byte just before the record).
pub open spec fn record_start(meta: Seq<(u16, u16)>, i: int) -> int {
    meta[i].1 + 1
}

/// One past the last byte of the record described by `meta[i]`.
pub open spec fn record_end(meta: Seq<(u16, u16)>, i: int) -> int {
    meta[i].1 + 1 + meta[i].0
}

/// Well-formedness of a page given by its last free offset `upd`, the size and
/// offset of each slot's record, and the deleted slot ids.
pub open spec fn parts_wf(upd: u16, meta: Seq<(u16, u16)>, deleted: Seq<u16>) -> bool {
    &&& reserved_header(meta.len()) <= upd + 1 <= PAGE_SIZE
    &&& deleted.len() <= meta.len()
    &&& deleted.no_duplicates()
    &&& forall|k: int| 0 <= k < deleted.len() ==> #[trigger] deleted[k] < meta.len()
    &&& forall|i: int|
        0 <= i < meta.len() ==> upd + 1 <= #[trigger] record_start(meta, i) && record_end(meta, i)
            <= PAGE_SIZE
    &&& forall|i: int, j: int|
        0 <= i < meta.len() && 0 <= j < meta.len() && i != j ==> #[trigger] record_end(meta, i)
            <= #[trigger] record_start(meta, j) || record_end(meta, j) <= record_start(meta, i)
}

/// The view of a page given by its parts and its data bytes.
pub open spec fn parts_view(
    page_id: u16,
    upd: u16,
    meta: Seq<(u16, u16)>,
    deleted: Seq<u16>,
    data: Seq<u8>,
) -> PageView {
    PageView {
        page_id,
        values: Seq::new(
            meta.len(),
            |i: int|
                if deleted.contains(i as u16) {
                    None
                } else {
                    Some(data.subrange(record_start(meta, i), record_end(meta, i)))
                },
        ),
        rooms: Seq::new(meta.len(), |i: int| meta[i].0 as nat),
        deleted,
        data_start: (upd + 1) as nat,
    }
}

/// The little-endian `u16` stored at position `i` of `b`.
pub open spec fn u16_at(b: Seq<u8>, i: int) -> u16 {
    (b[i] + 256 * b[i + 1]) as u16
}

/// Byte `j` (0 or 1) of the little-endian encoding of `x`.
pub open spec fn u16_byte(x: u16, j: int) -> u8 {
    if j == 0 {
        (x % 256) as u8
    } else {
        (x / 256) as u8
    }
}

/// The deleted slot ids recorded in the page bytes `b`.
pub open spec fn decoded_deleted(b: Seq<u8>) -> Seq<u16> {
    Seq::new(u16_at(b, 6) as nat, |k: int| u16_at(b, 8 + 2 * k))
}

/// The size and offset of each slot's record, as recorded in the page bytes `b`.
pub open spec fn decoded_meta(b: Seq<u8>) -> Seq<(u16, u16)> {
    let mo = 8 + 2 * u16_at(b, 6);
    Seq::new(u16_at(b, 4) as nat, |k: int| (u16_at(b, mo + 4 * k), u16_at(b, mo + 4 * k + 2)))
}

/// The bytes `b` are a well-formed serialized page.
pub open spec fn bytes_wf(b: Seq<u8>) -> bool {
    &&& b.len() == PAGE_SIZE
    &&& parts_wf(u16_at(b, 2), decoded_meta(b), decoded_deleted(b))
}

/// The page that the bytes `b` describe.
pub open spec fn bytes_view(b: Seq<u8>) -> PageView {
    parts_view(u16_at(b, 0), u16_at(b, 2), decoded_meta(b), decoded_deleted(b), b)
}

/// Byte `i` of the serialized form of a page given by its parts and data bytes: the
/// header fields, then the data bytes past the header.
pub open spec fn encoded_byte(
    page_id: u16,
    upd: u16,
    meta: Seq<(u16, u16)>,
    deleted: Seq<u16>,
    data: Seq<u8>,
    i: int,
) -> u8 {
    let mo = 8 + 2 * deleted.len();
    let hs = mo + 4 * meta.len();
    if i < 2 {
        u16_byte(page_id, i)
    } else if i < 4 {
        u16_byte(upd, i - 2)
    } else if i < 6 {
        u16_byte(meta.len() as u16, i - 4)
    } else if i < 8 {
        u16_byte(deleted.len() as u16, i - 6)
    } else if i < mo {
        u16_byte(deleted[(i - 8) / 2], (i - 8) % 2)
    } else if i < hs {
        let k = (i - mo) / 4;
        let r = (i - mo) % 4;
        if r < 2 {
            u16_byte(meta[k].0, r)
        } else {
            u16_byte(meta[k].1, r - 2)
        }
    } else {
        data[i]
    }
}

/// The serialized form of a page given by its parts and data bytes.
pub open spec fn encode_parts(
    page_id: u16,
    upd: u16,
    meta: Seq<(u16, u16)>,
    deleted: Seq<u16>,
    data: Seq<u8>,
) -> Seq<u8> {
    Seq::new(PAGE_SIZE as nat, |i: int| encoded_byte(page_id, upd, meta, deleted, data, i))
}


/// Reading back a little-endian `u16` gives the value that was written.
pub proof fn lemma_u16_decode(b: Seq<u8>, i: int, x: u16)
    requires
        0 <= i,
        i + 1 < b.len(),
        b[i] == u16_byte(x, 0),
        b[i + 1] == u16_byte(x, 1),
    ensures
        u16_at(b, i) == x,
{
}

/// A page's parts that are well-formed give a well-formed view.
pub proof fn lemma_parts_view_wf(
    page_id: u16,
    upd: u16,
    meta: Seq<(u16, u16)>,
    deleted: Seq<u16>,
    data: Seq<u8>,
)
    requires
        parts_wf(upd, meta, deleted),
        data.len() == PAGE_SIZE,
    ensures
        parts_view(page_id, upd, meta, deleted, data).wf(),
{
    let v = parts_view(page_id, upd, meta, deleted, data);
    assert forall|i: int| 0 <= i < v.values.len() implies (#[trigger] v.values[i] is None
        <==> v.deleted.contains(i as u16)) by {}
    assert forall|i: int|
        0 <= i < v.values.len() && v.values[i] is Some implies #[trigger] v.rooms[i]
        == v.values[i]->0.len() by {
        assert(record_start(meta, i) <= record_end(meta, i) <= PAGE_SIZE);
    }
}

/// Serializing a well-formed page and reading the bytes back gives the same page.
pub proof fn lemma_encode_decode(
    page_id: u16,
    upd: u16,
    meta: Seq<(u16, u16)>,
    deleted: Seq<u16>,
    data: Seq<u8>,
)
    requires
        parts_wf(upd, meta, deleted),
        data.len() == PAGE_SIZE,
    ensures
        ({
            let b = encode_parts(page_id, upd, meta, deleted, data);
            &&& bytes_wf(b)
            &&& bytes_view(b) == parts_view(page_id, upd, meta, deleted, data)
        }),
{
    let b = encode_parts(page_id, upd, meta, deleted, data);
    let nd = deleted.len();
    let nr = meta.len();
    let mo = 8 + 2 * nd;
    let hs = mo + 4 * nr;
    assert(hs <= upd + 1);
    lemma_u16_decode(b, 0, page_id);
    lemma_u16_decode(b, 2, upd);
    lemma_u16_decode(b, 4, nr as u16);
    lemma_u16_decode(b, 6, nd as u16);
    assert forall|k: int| 0 <= k < nd implies u16_at(b, 8 + 2 * k) == deleted[k] by {
        assert((8 + 2 * k - 8) / 2 == k);
        assert((8 + 2 * k - 8) % 2 == 0);
        assert((8 + 2 * k + 1 - 8) / 2 == k);
        assert((8 + 2 * k + 1 - 8) % 2 == 1);
        lemma_u16_decode(b, 8 + 2 * k, deleted[k]);
    }
    assert(decoded_deleted(b) =~= deleted);
    assert forall|k: int| 0 <= k < nr implies u16_at(b, mo + 4 * k) == meta[k].0 && u16_at(
        b,
        mo + 4 * k + 2,
    ) == meta[k].1 by {
        assert((4 * k) / 4 == k && (4 * k) % 4 == 0);
        assert((4 * k + 1) / 4 == k && (4 * k + 1) % 4 == 1);
        assert((4 * k + 2) / 4 == k && (4 * k + 2) % 4 == 2);
        assert((4 * k + 3) / 4 == k && (4 * k + 3) % 4 == 3);
        lemma_u16_decode(b, mo + 4 * k, meta[k].0);
        lemma_u16_decode(b, mo + 4 * k + 2, meta[k].1);
    }
    assert(decoded_meta(b) =~= meta);
    let v1 = bytes_view(b);
    let v2 = parts_view(page_id, upd, meta, deleted, data);
    assert forall|i: int| 0 <= i < nr implies #[trigger] v1.values[i] == v2.values[i] by {
        if !deleted.contains(i as u16) {
            assert(b.subrange(record_start(meta, i), record_end(meta, i)) =~= data.subrange(
                record_start(meta, i),
                record_end(meta, i),
            ));
        }
    }
    assert(v1.values =~= v2.values);
    assert(v1.rooms =~= v2.rooms);
}


/// Bytes outside a written range keep their values.
pub proof fn lemma_subrange_unchanged(d: Seq<u8>, d2: Seq<u8>, a: int, b: int, s: int, e: int)
    requires
        d.len() == d2.len(),
        0 <= s <= e <= d.len(),
        e <= a || b <= s,
        forall|k: int| 0 <= k < d.len() && !(a <= k < b) ==> d2[k] == d[k],
    ensures
        d2.subrange(s, e) == d.subrange(s, e),
{
    assert(d2.subrange(s, e) =~= d.subrange(s, e));
}


/// Distinct slot ids below `n` number at most `n`.
pub proof fn lemma_distinct_below(s: Seq<u16>, n: nat)
    requires
        s.no_duplicates(),
        forall|k: int| 0 <= k < s.len() ==> s[k] < n,
    ensures
        s.len() <= n,
    decreases n,
{
    if n == 0 {
        if s.len() > 0 {
            assert(s[0] < n);
        }
    } else {
        let top = (n - 1) as int;
        if exists|j: int| 0 <= j < s.len() && s[j] == top {
            let j = choose|j: int| 0 <= j < s.len() && s[j] == top;
            let t = s.remove(j);
            assert forall|a: int, b: int|
                0 <= a < t.len() && 0 <= b < t.len() && a != b implies t[a] != t[b] by {
                let a1 = if a < j { a } else { a + 1 };
                let b1 = if b < j { b } else { b + 1 };
                assert(t[a] == s[a1] && t[b] == s[b1]);
            }
            assert forall|k: int| 0 <= k < t.len() implies t[k] < (n - 1) as nat by {
                let k1 = if k < j { k } else { k + 1 };
                assert(t[k] == s[k1]);
                assert(k1 != j);
            }
            lemma_distinct_below(t, (n - 1) as nat);
        } else {
            lemma_distinct_below(s, (n - 1) as nat);
        }
    }
}

/// Removing one entry from a list without duplicates leaves a list without
/// duplicates that holds every other entry.
pub proof fn lemma_remove_distinct(s: Seq<u16>, k: int)
    requires
        s.no_duplicates(),
        0 <= k < s.len(),
    ensures
        s.remove(k).no_duplicates(),
        forall|x: u16| #[trigger] s.remove(k).contains(x) <==> (s.contains(x) && x != s[k]),
{
    let t = s.remove(k);
    assert forall|a: int, b: int| 0 <= a < t.len() && 0 <= b < t.len() && a != b implies t[a]
        != t[b] by {
        let a1 = if a < k { a } else { a + 1 };
        let b1 = if b < k { b } else { b + 1 };
        assert(t[a] == s[a1] && t[b] == s[b1]);
    }
    assert forall|x: u16| #[trigger] t.contains(x) <==> (s.contains(x) && x != s[k]) by {
        if t.contains(x) {
            let a = choose|a: int| 0 <= a < t.len() && t[a] == x;
            let a1 = if a < k { a } else { a + 1 };
            assert(s[a1] == x);
        }
        if s.contains(x) && x != s[k] {
            let a1 = choose|a: int| 0 <= a < s.len() && s[a] == x;
            let a = if a1 < k { a1 } else { a1 - 1 };
            assert(t[a] == x);
        }
    }
}


/// Writing back a little-endian `u16` that was read gives the same two bytes.
pub proof fn lemma_u16_encode(b: Seq<u8>, i: int)
    requires
        0 <= i,
        i + 1 < b.len(),
    ensures
        u16_byte(u16_at(b, i), 0) == b[i],
        u16_byte(u16_at(b, i), 1) == b[i + 1],
{
    let b0 = b[i] as int;
    let b1 = b[i + 1] as int;
    assert((b0 + 256 * b1) % 256 == b0 && (b0 + 256 * b1) / 256 == b1) by (nonlinear_arith)
        requires
            0 <= b0 < 256,
            0 <= b1 < 256,
    ;
}

/// Reading a well-formed serialized page and writing it back gives the same bytes.
pub proof fn lemma_decode_encode(b: Seq<u8>)
    requires
        bytes_wf(b),
    ensures
        encode_parts(u16_at(b, 0), u16_at(b, 2), decoded_meta(b), decoded_deleted(b), b) == b,
{
    let meta = decoded_meta(b);
    let deleted = decoded_deleted(b);
    let e = encode_parts(u16_at(b, 0), u16_at(b, 2), meta, deleted, b);
    let nd = deleted.len();
    let nr = meta.len();
    let mo = 8 + 2 * nd;
    let hs = mo + 4 * nr;
    assert(hs <= PAGE_SIZE);
    lemma_u16_encode(b, 0);
    lemma_u16_encode(b, 2);
    lemma_u16_encode(b, 4);
    lemma_u16_encode(b, 6);
    assert forall|i: int| 0 <= i < PAGE_SIZE implies e[i] == b[i] by {
        if 8 <= i < mo {
            let k = (i - 8) / 2;
            assert(i == 8 + 2 * k + (i - 8) % 2);
            lemma_u16_encode(b, 8 + 2 * k);
        } else if mo <= i < hs {
            let k = (i - mo) / 4;
            assert(i == mo + 4 * k + (i - mo) % 4);
            lemma_u16_encode(b, mo + 4 * k);
            lemma_u16_encode(b, mo + 4 * k + 2);
        }
    }
    assert(e =~= b);
}


/// Placing a record for slot `s` keeps the layout well-formed and changes only
/// slot `s`'s value. The new record lies after the new free offset `upd2`, apart
/// from the record of every other slot, and holds `bytes`; no other byte of the
/// record area changes; and `s` is neither deleted nor in the new deleted list.
/// Slot `s` is either an existing slot or one new slot at the end.
pub proof fn lemma_place_record(
    page_id: u16,
    upd: u16,
    meta: Seq<(u16, u16)>,
    deleted: Seq<u16>,
    data: Seq<u8>,
    upd2: u16,
    meta2: Seq<(u16, u16)>,
    deleted2: Seq<u16>,
    data2: Seq<u8>,
    s: int,
    bytes: Seq<u8>,
)
    requires
        parts_wf(upd, meta, deleted),
        data.len() == PAGE_SIZE,
        data2.len() == PAGE_SIZE,
        upd2 <= upd,
        reserved_header(meta2.len()) <= upd2 + 1,
        meta2.len() == meta.len() || meta2.len() == meta.len() + 1,
        0 <= s < meta2.len(),
        meta2.len() == meta.len() + 1 ==> s == meta.len(),
        forall|i: int| 0 <= i < meta.len() && i != s ==> meta2[i] == meta[i],
        upd2 + 1 <= record_start(meta2, s),
        record_end(meta2, s) <= PAGE_SIZE,
        forall|i: int|
            0 <= i < meta.len() && i != s ==> record_end(meta2, s) <= #[trigger] record_start(
                meta,
                i,
            ) || record_end(meta, i) <= record_start(meta2, s),
        deleted2.len() <= meta2.len(),
        deleted2.no_duplicates(),
        forall|k: int| 0 <= k < deleted2.len() ==> #[trigger] deleted2[k] < meta2.len(),
        forall|i: int|
            0 <= i < meta2.len() ==> (#[trigger] deleted2.contains(i as u16) <==> (i != s
                && deleted.contains(i as u16))),
        data2.subrange(record_start(meta2, s), record_end(meta2, s)) == bytes,
        forall|k: int|
            0 <= k < PAGE_SIZE && !(record_start(meta2, s) <= k < record_end(meta2, s)) ==> data2[k]
                == data[k],
    ensures
        parts_wf(upd2, meta2, deleted2),
        forall|i: int|
            0 <= i < meta2.len() ==> #[trigger] parts_view(
                page_id,
                upd2,
                meta2,
                deleted2,
                data2,
            ).values[i] == if i == s {
                Some(bytes)
            } else {
                parts_view(page_id, upd, meta, deleted, data).values[i]
            },
{
    assert forall|i: int, j: int|
        0 <= i < meta2.len() && 0 <= j < meta2.len() && i != j implies #[trigger] record_end(
        meta2,
        i,
    ) <= #[trigger] record_start(meta2, j) || record_end(meta2, j) <= record_start(meta2, i) by {
        if i != s && j != s {
            assert(record_end(meta, i) <= record_start(meta, j) || record_end(meta, j)
                <= record_start(meta, i));
        } else if i == s {
            assert(record_start(meta, j) == record_start(meta2, j));
        } else {
            assert(record_start(meta, i) == record_start(meta2, i));
        }
    }
    assert forall|i: int| 0 <= i < meta2.len() implies upd2 + 1 <= #[trigger] record_start(
        meta2,
        i,
    ) && record_end(meta2, i) <= PAGE_SIZE by {
        if i != s {
            assert(upd + 1 <= record_start(meta, i));
        }
    }
    let v = parts_view(page_id, upd, meta, deleted, data);
    let w = parts_view(page_id, upd2, meta2, deleted2, data2);
    assert forall|i: int| 0 <= i < meta2.len() implies #[trigger] w.values[i] == if i == s {
        Some(bytes)
    } else {
        v.values[i]
    } by {
        if i != s {
            if !deleted.contains(i as u16) {
                lemma_subrange_unchanged(
                    data,
                    data2,
                    record_start(meta2, s),
                    record_end(meta2, s),
                    record_start(meta, i),
                    record_end(meta, i),
                );
            }
        }
    }
}

} // verus!
