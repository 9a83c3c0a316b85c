//! Slotted heap pages: the page identifier, the access permission of a page
//! request, and the in-memory form of one fixed-size disk page.
//!
//! On disk a page is exactly `PAGE_SIZE` bytes: a header bitmap of
//! `ceil(num_slots / 8)` bytes (bit `i` of byte `i / 8` at position `i % 8`;
//! 1 = occupied), followed by `num_slots` fixed-width slots, zero-padded to
//! the page size. Free slots occupy their full width as zero bytes.

use vstd::prelude::*;

verus! {

use vstd::arithmetic::div_mod::lemma_fundamental_div_mod;
use vstd::arithmetic::div_mod::lemma_mod_bound;
use vstd::arithmetic::div_mod::lemma_div_pos_is_pos;
use crate::Error;
use crate::buffer_pool::PAGE_SIZE;
use crate::codec::clone_bytes;
use crate::codec::push_zero_bytes;
use crate::codec::zero_bytes;
use crate::fields::FieldModel;
use crate::transaction::TransactionId;
use crate::tuple::RecordId;
use crate::tuple::Tuple;
use crate::tuple::TupleDesc;
use crate::tuple::lemma_tuple_bytes_len;
use crate::tuple::lemma_tuple_round_trip;
use crate::tuple::lemma_types_size_nonneg;
use crate::tuple::sentinel_rid;
use crate::tuple::spec_parse_tuple;
use crate::tuple::spec_tuple_bytes;
use crate::tuple::spec_tuple_matches;
use crate::tuple::types_size;
use crate::types::Type;

/// Access mode a caller requests for a page: `Read` maps to a shared lock,
/// `Write` to an exclusive lock.
#[derive(Debug, PartialEq, Eq, Clone, Hash, Copy, Structural)]
pub enum Permission {
    Read,
    Write,
}

/// Identifier of one page: the owning table and the page's position in the
/// table's file.
#[derive(Debug, PartialEq, Eq, Clone, Hash, Copy, Structural)]
pub struct HeapPageId {
    pub table_id: usize,
    pub page_number: usize,
}

impl HeapPageId {
    pub fn new(table_id: usize, page_number: usize) -> (pid: Self)
        ensures
            pid.table_id == table_id,
            pid.page_number == page_number,
    {
        HeapPageId { table_id, page_number }
    }

    pub fn get_table_id(&self) -> (t: usize)
        ensures
            t == self.table_id,
    {
        self.table_id
    }

    pub fn get_page_number(&self) -> (n: usize)
        ensures
            n == self.page_number,
    {
        self.page_number
    }

    /// The id as a two-element vector: table id, then page number.
    pub fn serialize(&self) -> (v: Vec<usize>)
        ensures
            v@ == seq![self.table_id, self.page_number],
    {
        let mut v: Vec<usize> = Vec::new();
        v.push(self.table_id);
        v.push(self.page_number);
        assert(v@ =~= seq![self.table_id, self.page_number]);
        v
    }
}

/// A schema small enough that the slot arithmetic cannot overflow a `usize`.
pub open spec fn td_fits(types: Seq<Type>) -> bool {
    types_size(types) * 8 + 1 <= usize::MAX
}

/// Number of slots of a page holding rows of the given types: each slot
/// needs its row bytes plus one header bit.
pub open spec fn spec_num_slots(types: Seq<Type>) -> int {
    (PAGE_SIZE as int * 8) / (types_size(types) * 8 + 1)
}

/// Number of header bytes: one bit per slot, rounded up to whole bytes.
pub open spec fn spec_header_size(types: Seq<Type>) -> int {
    (spec_num_slots(types) + 7) / 8
}

/// True when the header bitmap marks slot `i` as occupied. Bits beyond the
/// header are read as free.
pub open spec fn spec_slot_used(header: Seq<u8>, i: int) -> bool
    recommends
        0 <= i,
{
    &&& i / 8 < header.len()
    &&& header[i / 8] & (1u8 << ((i % 8) as u8)) != 0
}

/// The header, the slot count and the slot widths all fit one page.
pub proof fn lemma_page_layout(types: Seq<Type>)
    ensures
        0 <= spec_num_slots(types) <= PAGE_SIZE as int * 8,
        0 <= spec_header_size(types) <= PAGE_SIZE as int,
        spec_header_size(types) + spec_num_slots(types) * types_size(types) <= PAGE_SIZE as int,
{
    lemma_types_size_nonneg(types);
    let s = types_size(types);
    let p8 = PAGE_SIZE as int * 8;
    let d = s * 8 + 1;
    let q = spec_num_slots(types);
    let h = spec_header_size(types);
    lemma_div_pos_is_pos(p8, d);
    lemma_div_pos_is_pos(q + 7, 8);
    lemma_fundamental_div_mod(p8, d);
    lemma_mod_bound(p8, d);
    lemma_fundamental_div_mod(q + 7, 8);
    lemma_mod_bound(q + 7, 8);
    let r = p8 % d;
    let r2 = (q + 7) % 8;
    assert(8 * (h + q * s) <= p8 + 7) by (nonlinear_arith)
        requires
            p8 == d * q + r,
            d == s * 8 + 1,
            r >= 0,
            q + 7 == 8 * h + r2,
            r2 >= 0,
            s >= 0,
            q >= 0,
    ;
    assert(q <= p8) by (nonlinear_arith)
        requires
            p8 == d * q + r,
            r >= 0,
            d >= 1,
            q >= 0,
    ;
    assert(q * s >= 0) by (nonlinear_arith)
        requires
            q >= 0,
            s >= 0,
    ;
}

/// Reads the header bit of slot `i`: bits beyond the header are free.
pub fn get_slot(header: &Vec<u8>, i: usize) -> (b: bool)
    ensures
        b == spec_slot_used(header@, i as int),
{
    let idx = i / 8;
    if idx >= header.len() {
        return false;
    }
    let bit: u8 = (i % 8) as u8;
    let byte = header[idx];
    byte & (1u8 << bit) != 0
}

/// Writes the header bit of slot `i`, leaving every other bit unchanged.
pub fn set_slot(header: &mut Vec<u8>, i: usize, value: bool)
    requires
        i / 8 < old(header)@.len(),
    ensures
        final(header)@.len() == old(header)@.len(),
        forall|j: int|
            0 <= j ==> spec_slot_used(final(header)@, j) == (if j == i as int {
                value
            } else {
                spec_slot_used(old(header)@, j)
            }),
{
    let idx = i / 8;
    let bit: u8 = (i % 8) as u8;
    let byte = header[idx];
    let mask: u8 = 1u8 << bit;
    if value {
        header.set(idx, byte | mask);
    } else {
        header.set(idx, byte & !mask);
    }
    proof {
        assert(forall|b: u8, k: u8, m: u8|
            k < 8 && m < 8 ==> (((b | (1u8 << k)) & (1u8 << m) != 0) == (m == k || (b & (1u8 << m)
                != 0)))) by (bit_vector);
        assert(forall|b: u8, k: u8, m: u8|
            k < 8 && m < 8 ==> (((b & !(1u8 << k)) & (1u8 << m) != 0) == (m != k && (b & (1u8 << m)
                != 0)))) by (bit_vector);
        assert forall|j: int| 0 <= j implies spec_slot_used(header@, j) == (if j == i as int {
            value
        } else {
            spec_slot_used(old(header)@, j)
        }) by {
            lemma_fundamental_div_mod(j, 8);
            lemma_mod_bound(j, 8);
            lemma_fundamental_div_mod(i as int, 8);
            lemma_mod_bound(i as int, 8);
        }
    }
}

/// The least free slot at or after `i`, or `n` when none is free in `[i, n)`.
pub open spec fn spec_first_free_from(header: Seq<u8>, i: int, n: int) -> int
    decreases n - i,
{
    if i >= n {
        n
    } else if !spec_slot_used(header, i) {
        i
    } else {
        spec_first_free_from(header, i + 1, n)
    }
}

/// The least free slot of the page, or `n` when every slot is occupied.
pub open spec fn spec_first_free(header: Seq<u8>, n: int) -> int {
    spec_first_free_from(header, 0, n)
}

pub proof fn lemma_first_free_props(header: Seq<u8>, i: int, n: int)
    requires
        0 <= i <= n,
    ensures
        i <= spec_first_free_from(header, i, n) <= n,
        spec_first_free_from(header, i, n) < n ==> !spec_slot_used(
            header,
            spec_first_free_from(header, i, n),
        ),
        forall|j: int| i <= j < spec_first_free_from(header, i, n) ==> spec_slot_used(header, j),
        spec_first_free_from(header, i, n) == n ==> forall|j: int|
            i <= j < n ==> spec_slot_used(header, j),
    decreases n - i,
{
    if i < n && spec_slot_used(header, i) {
        lemma_first_free_props(header, i + 1, n);
    }
}

/// Number of free slots among the first `n`.
pub open spec fn spec_free_count(header: Seq<u8>, n: int) -> int
    decreases n,
{
    if n <= 0 {
        0
    } else {
        spec_free_count(header, n - 1) + (if spec_slot_used(header, n - 1) {
            0int
        } else {
            1int
        })
    }
}

/// There is a free slot exactly when the free count is positive.
pub proof fn lemma_free_count_pos(header: Seq<u8>, n: int)
    requires
        n >= 0,
    ensures
        0 <= spec_free_count(header, n) <= n,
        (spec_free_count(header, n) > 0) <==> exists|j: int|
            0 <= j < n && !spec_slot_used(header, j),
    decreases n,
{
    if n > 0 {
        lemma_free_count_pos(header, n - 1);
        if spec_free_count(header, n) > 0 {
            if !spec_slot_used(header, n - 1) {
                assert(0 <= n - 1 < n && !spec_slot_used(header, n - 1));
            } else {
                let j = choose|j: int| 0 <= j < n - 1 && !spec_slot_used(header, j);
                assert(0 <= j < n && !spec_slot_used(header, j));
            }
        }
        if exists|j: int| 0 <= j < n && !spec_slot_used(header, j) {
            let j = choose|j: int| 0 <= j < n && !spec_slot_used(header, j);
            if j == n - 1 {
            } else {
                assert(0 <= j < n - 1 && !spec_slot_used(header, j));
            }
        }
    }
}

/// A page with every slot free has as many free slots as slots.
pub proof fn lemma_free_count_all(header: Seq<u8>, n: int)
    requires
        n >= 0,
        forall|j: int| 0 <= j < n ==> !spec_slot_used(header, j),
    ensures
        spec_free_count(header, n) == n,
    decreases n,
{
    if n > 0 {
        lemma_free_count_all(header, n - 1);
    }
}

/// The mathematical content of a page: its header bitmap and, for each
/// slot, the models of the fields stored there (empty for a free slot).
pub struct PageContent {
    pub header: Seq<u8>,
    pub tuples: Seq<Seq<FieldModel>>,
}

/// A page content is well formed for a schema when the header and slot
/// counts match the layout, every occupied slot holds a row matching the
/// schema, and every free slot is empty.
pub open spec fn page_content_wf(c: PageContent, types: Seq<Type>) -> bool {
    &&& c.header.len() == spec_header_size(types)
    &&& c.tuples.len() == spec_num_slots(types)
    &&& forall|i: int|
        0 <= i < c.tuples.len() ==> (if spec_slot_used(c.header, i) {
            spec_tuple_matches(#[trigger] c.tuples[i], types)
        } else {
            c.tuples[i] == Seq::<FieldModel>::empty()
        })
}

/// The on-disk bytes of slot `i`: the row's encoding when occupied, zero
/// bytes of the full slot width when free.
pub open spec fn spec_slot_bytes(c: PageContent, types: Seq<Type>, i: int) -> Seq<u8> {
    if spec_slot_used(c.header, i) {
        spec_tuple_bytes(c.tuples[i])
    } else {
        zero_bytes(types_size(types))
    }
}

/// The concatenated bytes of the first `n` slots.
pub open spec fn spec_slots_bytes(c: PageContent, types: Seq<Type>, n: int) -> Seq<u8>
    decreases n,
{
    if n <= 0 {
        Seq::empty()
    } else {
        spec_slots_bytes(c, types, n - 1) + spec_slot_bytes(c, types, n - 1)
    }
}

/// The on-disk bytes of a whole page: header, slots, zero padding.
pub open spec fn spec_encode_page(c: PageContent, types: Seq<Type>) -> Seq<u8> {
    let body = c.header + spec_slots_bytes(c, types, spec_num_slots(types));
    body + zero_bytes(PAGE_SIZE as int - body.len())
}

/// The contents of the first `n` slots decoded from a page image, when
/// every occupied slot decodes.
pub open spec fn spec_decode_slots(
    header: Seq<u8>,
    bytes: Seq<u8>,
    types: Seq<Type>,
    n: int,
) -> Option<Seq<Seq<FieldModel>>>
    decreases n,
{
    if n <= 0 {
        Some(Seq::empty())
    } else {
        match spec_decode_slots(header, bytes, types, n - 1) {
            None => None,
            Some(init) => if spec_slot_used(header, n - 1) {
                match spec_parse_tuple(
                    types,
                    bytes.skip(spec_header_size(types) + (n - 1) * types_size(types)),
                ) {
                    Some(fs) => Some(init.push(fs)),
                    None => None,
                }
            } else {
                Some(init.push(Seq::<FieldModel>::empty()))
            },
        }
    }
}

/// The content decoded from a page image, when every occupied slot decodes.
pub open spec fn spec_decode_page(bytes: Seq<u8>, types: Seq<Type>) -> Option<PageContent>
    recommends
        bytes.len() == PAGE_SIZE,
{
    let header = bytes.take(spec_header_size(types));
    match spec_decode_slots(header, bytes, types, spec_num_slots(types)) {
        Some(tuples) => Some(PageContent { header, tuples }),
        None => None,
    }
}

/// The first `n` slots occupy exactly `n` slot widths.
pub proof fn lemma_slots_bytes_len(c: PageContent, types: Seq<Type>, n: int)
    requires
        page_content_wf(c, types),
        0 <= n <= c.tuples.len(),
    ensures
        spec_slots_bytes(c, types, n).len() == n * types_size(types),
    decreases n,
{
    lemma_types_size_nonneg(types);
    let s = types_size(types);
    if n > 0 {
        lemma_slots_bytes_len(c, types, n - 1);
        if spec_slot_used(c.header, n - 1) {
            lemma_tuple_bytes_len(c.tuples[n - 1], types);
        }
        assert((n - 1) * s + s == n * s) by (nonlinear_arith);
    } else {
        assert(n * s == 0) by (nonlinear_arith)
            requires
                n == 0,
        ;
    }
}

/// Within the concatenation of the first `n` slots, slot `i` sits at offset
/// `i` slot widths.
pub proof fn lemma_slots_bytes_extract(c: PageContent, types: Seq<Type>, i: int, n: int)
    requires
        page_content_wf(c, types),
        0 <= i < n <= c.tuples.len(),
    ensures
        spec_slots_bytes(c, types, n).subrange(
            i * types_size(types),
            (i + 1) * types_size(types),
        ) == spec_slot_bytes(c, types, i),
    decreases n,
{
    lemma_types_size_nonneg(types);
    let s = types_size(types);
    lemma_slots_bytes_len(c, types, n);
    lemma_slots_bytes_len(c, types, n - 1);
    if spec_slot_used(c.header, n - 1) {
        lemma_tuple_bytes_len(c.tuples[n - 1], types);
    }
    assert((i + 1) * s == i * s + s) by (nonlinear_arith);
    if i == n - 1 {
        assert(spec_slots_bytes(c, types, n).subrange(i * s, i * s + s) =~= spec_slot_bytes(
            c,
            types,
            i,
        ));
    } else {
        lemma_slots_bytes_extract(c, types, i, n - 1);
        assert(i * s >= 0 && i * s + s <= (n - 1) * s) by (nonlinear_arith)
            requires
                s >= 0,
                0 <= i,
                i + 1 <= n - 1,
        ;
        assert(spec_slots_bytes(c, types, n).subrange(i * s, i * s + s) =~= spec_slots_bytes(
            c,
            types,
            n - 1,
        ).subrange(i * s, i * s + s));
    }
}

/// Decoding the encoding of a well-formed page recovers the first `n`
/// slots.
pub proof fn lemma_decode_slots_round_trip(c: PageContent, types: Seq<Type>, n: int)
    requires
        page_content_wf(c, types),
        0 <= n <= c.tuples.len(),
    ensures
        spec_decode_slots(c.header, spec_encode_page(c, types), types, n) == Some(
            c.tuples.take(n),
        ),
    decreases n,
{
    let enc = spec_encode_page(c, types);
    let s = types_size(types);
    let h = spec_header_size(types);
    let ns = spec_num_slots(types);
    lemma_types_size_nonneg(types);
    lemma_page_layout(types);
    lemma_slots_bytes_len(c, types, ns);
    if n == 0 {
        assert(c.tuples.take(0) =~= Seq::<Seq<FieldModel>>::empty());
    } else {
        lemma_decode_slots_round_trip(c, types, n - 1);
        let i = n - 1;
        if spec_slot_used(c.header, i) {
            lemma_slots_bytes_extract(c, types, i, ns);
            lemma_tuple_bytes_len(c.tuples[i], types);
            assert((i + 1) * s == i * s + s) by (nonlinear_arith);
            assert(0 <= i * s && i * s + s <= ns * s) by (nonlinear_arith)
                requires
                    s >= 0,
                    0 <= i,
                    i + 1 <= ns,
            ;
            let off = h + i * s;
            let rest = enc.skip(off + s);
            assert(enc.skip(off) =~= spec_tuple_bytes(c.tuples[i]) + rest);
            lemma_tuple_round_trip(c.tuples[i], types, rest);
            assert(c.tuples.take(n - 1).push(c.tuples[i]) =~= c.tuples.take(n));
        } else {
            assert(c.tuples.take(n - 1).push(c.tuples[i]) =~= c.tuples.take(n));
        }
    }
}

/// A well-formed page encodes to exactly `PAGE_SIZE` bytes, and decoding
/// them yields the page back: its header bitmap verbatim (so every
/// occupied/free bit is preserved) and every slot's content.
pub proof fn lemma_page_round_trip(c: PageContent, types: Seq<Type>)
    requires
        page_content_wf(c, types),
    ensures
        spec_encode_page(c, types).len() == PAGE_SIZE,
        spec_decode_page(spec_encode_page(c, types), types) == Some(c),
    decreases 0int,
{
    let enc = spec_encode_page(c, types);
    let h = spec_header_size(types);
    let ns = spec_num_slots(types);
    lemma_page_layout(types);
    lemma_slots_bytes_len(c, types, ns);
    assert(enc.take(h) =~= c.header);
    lemma_decode_slots_round_trip(c, types, ns);
    assert(c.tuples.take(ns) =~= c.tuples);
    assert(spec_decode_page(enc, types).unwrap() =~= c);
}

/// Occupied/free header bits survive an encode/decode round trip.
pub proof fn lemma_header_bit_round_trip(c: PageContent, types: Seq<Type>, i: int)
    requires
        page_content_wf(c, types),
        0 <= i,
    ensures
        spec_slot_used(
            spec_decode_page(spec_encode_page(c, types), types).unwrap().header,
            i,
        ) == spec_slot_used(c.header, i),
{
    lemma_page_round_trip(c, types);
}

/// An all-zero page image decodes to a page with every slot free.
pub proof fn lemma_zero_page_decodes(types: Seq<Type>)
    ensures
        spec_decode_page(zero_bytes(PAGE_SIZE as int), types) is Some,
        forall|i: int|
            0 <= i ==> !spec_slot_used(
                spec_decode_page(zero_bytes(PAGE_SIZE as int), types).unwrap().header,
                i,
            ),
        page_content_wf(spec_decode_page(zero_bytes(PAGE_SIZE as int), types).unwrap(), types),
{
    let bytes = zero_bytes(PAGE_SIZE as int);
    let h = spec_header_size(types);
    let ns = spec_num_slots(types);
    lemma_page_layout(types);
    let header = bytes.take(h);
    assert(forall|k: u8| k < 8 ==> (0u8 & (1u8 << k)) == 0) by (bit_vector);
    assert forall|i: int| 0 <= i implies !spec_slot_used(header, i) by {
        lemma_mod_bound(i, 8);
        if i / 8 < header.len() {
            assert(header[i / 8] == 0u8);
        }
    }
    lemma_zero_decode_slots(header, bytes, types, ns);
    let c = spec_decode_page(bytes, types).unwrap();
    assert(c.header == header);
    assert forall|i: int| 0 <= i < c.tuples.len() implies !spec_slot_used(c.header, i)
        && c.tuples[i] == Seq::<FieldModel>::empty() by {
        lemma_zero_decode_slots(header, bytes, types, ns);
    }
}

/// Decoding with an all-free header yields empty slots.
proof fn lemma_zero_decode_slots(header: Seq<u8>, bytes: Seq<u8>, types: Seq<Type>, n: int)
    requires
        n >= 0,
        forall|i: int| 0 <= i ==> !spec_slot_used(header, i),
    ensures
        spec_decode_slots(header, bytes, types, n) == Some(
            Seq::new(n as nat, |i: int| Seq::<FieldModel>::empty()),
        ),
    decreases n,
{
    if n > 0 {
        lemma_zero_decode_slots(header, bytes, types, n - 1);
        assert(Seq::new((n - 1) as nat, |i: int| Seq::<FieldModel>::empty()).push(
            Seq::<FieldModel>::empty(),
        ) =~= Seq::new(n as nat, |i: int| Seq::<FieldModel>::empty()));
    } else {
        assert(Seq::new(0nat, |i: int| Seq::<FieldModel>::empty()) =~= Seq::<
            Seq<FieldModel>,
        >::empty());
    }
}

/// In-memory form of one fixed-size slotted disk page: the header bitmap,
/// one tuple per slot (a sentinel for free slots), the before-image bytes
/// captured at the last commit, and the transaction that last dirtied it.
#[derive(Debug, PartialEq, Eq)]
pub struct HeapPage {
    pub pid: HeapPageId,
    pub td: TupleDesc,
    pub header: Vec<u8>,
    pub tuples: Vec<Tuple>,
    pub old_data: Vec<u8>,
    pub dirtied_by: Option<TransactionId>,
}

impl HeapPage {
    /// The mathematical content of this page.
    pub open spec fn spec_content(self) -> PageContent {
        PageContent {
            header: self.header@,
            tuples: Seq::new(self.tuples@.len(), |i: int| self.tuples@[i].spec_fields()),
        }
    }

    /// Number of slots of this page.
    pub open spec fn spec_num_slots_of(self) -> int {
        spec_num_slots(self.td.types@)
    }

    /// Well-formedness: the layout arithmetic fits, the content matches the
    /// schema, every occupied slot's tuple is stamped with this page and its
    /// slot index (free slots carry the sentinel), and the before-image is a
    /// decodable page image.
    pub open spec fn wf(self) -> bool {
        &&& td_fits(self.td.types@)
        &&& page_content_wf(self.spec_content(), self.td.types@)
        &&& forall|i: int|
            0 <= i < self.tuples@.len() ==> (#[trigger] self.tuples@[i]).rid == (
            if spec_slot_used(self.header@, i) {
                RecordId { pid: self.pid, tuple_no: i as usize }
            } else {
                sentinel_rid()
            })
        &&& self.old_data@.len() == PAGE_SIZE
        &&& spec_decode_page(self.old_data@, self.td.types@) is Some
    }

    /// Decodes a `PAGE_SIZE`-byte image into a page: the header bitmap is
    /// split off, every occupied slot's row is decoded and stamped with the
    /// record id `(pid, slot)`, every free slot gets the sentinel tuple.
    /// Fails with `DecodeError` exactly when some occupied slot is
    /// malformed. The loaded image itself becomes the initial before-image,
    /// so that an abort before any commit restores the page as loaded.
    pub fn new(pid: HeapPageId, data: Vec<u8>, td: TupleDesc) -> (r: Result<Self, Error>)
        requires
            data@.len() == PAGE_SIZE,
            td_fits(td.types@),
        ensures
            r is Ok <==> spec_decode_page(data@, td.types@) is Some,
            r matches Ok(p) ==> {
                &&& p.wf()
                &&& p.pid == pid
                &&& p.td.types@ == td.types@
                &&& p.td.fields@ == td.fields@
                &&& p.spec_content() == spec_decode_page(data@, td.types@).unwrap()
                &&& p.old_data@ == data@
                &&& p.dirtied_by is None
            },
            r matches Err(e) ==> e == Error::DecodeError,
    {
        proof {
            lemma_page_layout(td.types@);
            lemma_types_size_nonneg(td.types@);
        }
        let size = td.get_size();
        let num_slots = num_slots_of(&td);
        let header_size = (num_slots + 7) / 8;
        let header = vstd::slice::slice_to_vec(
            vstd::slice::slice_subrange(data.as_slice(), 0, header_size),
        );
        proof {
            assert(header@ =~= data@.take(spec_header_size(td.types@)));
        }
        let ghost types = td.types@;
        let ghost hs = spec_header_size(types);
        let mut tuples: Vec<Tuple> = Vec::new();
        let mut i: usize = 0;
        while i < num_slots
            invariant
                i <= num_slots,
                num_slots == spec_num_slots(types),
                hs == spec_header_size(types),
                size == types_size(types),
                types == td.types@,
                td_fits(types),
                header_size == hs,
                data@.len() == PAGE_SIZE,
                header@ == data@.take(hs),
                hs + num_slots * size <= PAGE_SIZE,
                tuples@.len() == i,
                spec_decode_slots(header@, data@, types, i as int) == Some(
                    Seq::new(i as nat, |k: int| tuples@[k].spec_fields()),
                ),
                forall|k: int|
                    0 <= k < i ==> (#[trigger] tuples@[k]).rid == (if spec_slot_used(
                        header@,
                        k,
                    ) {
                        RecordId { pid: pid, tuple_no: k as usize }
                    } else {
                        sentinel_rid()
                    }),
                forall|k: int|
                    0 <= k < i ==> (#[trigger] tuples@[k]).td.types@ == types,
            decreases num_slots - i,
        {
            proof {
                assert(0 <= i * size && (i + 1) * size == i * size + size && (i + 1) * size
                    <= num_slots * size) by (nonlinear_arith)
                    requires
                        size >= 0,
                        0 <= i,
                        i + 1 <= num_slots,
                ;
            }
            let start = header_size + i * size;
            proof {
                assert(start + size <= PAGE_SIZE);
            }
            if get_slot(&header, i) {
                let sub = vstd::slice::slice_subrange(data.as_slice(), start, data.len());
                proof {
                    assert(sub@ =~= data@.skip(start as int));
                    crate::tuple::lemma_types_size_nonneg(types);
                }
                match Tuple::deserialize(sub, &td) {
                    Ok(mut t) => {
                        t.set_record_id(RecordId::new(pid, i));
                        tuples.push(t);
                        proof {
                            assert(Seq::new((i + 1) as nat, |k: int| tuples@[k].spec_fields())
                                =~= Seq::new(i as nat, |k: int| tuples@.take(i as int)[k].spec_fields()).push(
                                tuples@[i as int].spec_fields(),
                            ));
                            assert(Seq::new(i as nat, |k: int| tuples@.take(i as int)[k].spec_fields())
                                =~= Seq::new(i as nat, |k: int| old_tuples_view(tuples@, i as int)[k].spec_fields()));
                        }
                    },
                    Err(_) => {
                        proof {
                            if spec_decode_page(data@, types) is Some {
                                lemma_decode_slots_some(header@, data@, types, i as int + 1,
                                    spec_num_slots(types));
                            }
                        }
                        return Err(Error::DecodeError);
                    },
                }
            } else {
                let t = Tuple::new(Vec::new(), &td);
                tuples.push(t);
                proof {
                    assert(tuples@[i as int].spec_fields() =~= Seq::<FieldModel>::empty());
                    assert(Seq::new((i + 1) as nat, |k: int| tuples@[k].spec_fields()) =~= Seq::new(
                        i as nat,
                        |k: int| tuples@.take(i as int)[k].spec_fields(),
                    ).push(tuples@[i as int].spec_fields()));
                }
            }
            i = i + 1;
        }
        let page = HeapPage { pid, td, header, tuples, old_data: data, dirtied_by: None };
        proof {
            let c = page.spec_content();
            assert(c.tuples =~= Seq::new(num_slots as nat, |k: int| page.tuples@[k].spec_fields()));
            let dec = spec_decode_page(data@, types);
            assert(dec is Some);
            assert(dec.unwrap().header == header@);
            assert(dec.unwrap().tuples =~= c.tuples);
            assert(dec.unwrap() =~= c);
            lemma_decoded_content_wf(header@, data@, types, num_slots as int);
        }
        Ok(page)
    }
}

impl HeapPage {
    pub fn get_id(&self) -> (pid: HeapPageId)
        ensures
            pid == self.pid,
    {
        self.pid
    }

    /// Records (or clears) the single transaction that last wrote the page.
    pub fn mark_dirty(&mut self, dirty: bool, tid: TransactionId)
        ensures
            final(self).dirtied_by == (if dirty {
                Some(tid)
            } else {
                None::<TransactionId>
            }),
            final(self).pid == old(self).pid,
            final(self).td == old(self).td,
            final(self).header == old(self).header,
            final(self).tuples == old(self).tuples,
            final(self).old_data == old(self).old_data,
            old(self).wf() ==> final(self).wf(),
    {
        if dirty {
            self.dirtied_by = Some(tid);
        } else {
            self.dirtied_by = None;
        }
    }

    pub fn is_dirty(&self) -> (b: bool)
        ensures
            b == (self.dirtied_by is Some),
    {
        self.dirtied_by.is_some()
    }

    /// Number of slots of this page (occupied or not).
    pub fn num_tuples(&self) -> (n: usize)
        requires
            self.wf(),
        ensures
            n == self.spec_num_slots_of(),
    {
        self.tuples.len()
    }

    /// The tuple stored in slot `i` (the sentinel when the slot is free).
    pub fn get_tuple(&self, i: usize) -> (t: &Tuple)
        requires
            i < self.tuples@.len(),
        ensures
            *t == self.tuples@[i as int],
    {
        &self.tuples[i]
    }

    /// An all-zero page image of `PAGE_SIZE` bytes.
    pub fn create_empty_page_data(&self) -> (r: Vec<u8>)
        ensures
            r@ == zero_bytes(PAGE_SIZE as int),
    {
        create_zero_page()
    }

    /// Number of free slots of this page.
    pub fn get_num_empty_slots(&self) -> (n: usize)
        requires
            self.wf(),
        ensures
            n == spec_free_count(self.header@, self.spec_num_slots_of()),
    {
        let num_slots = self.tuples.len();
        let mut count: usize = 0;
        let mut i: usize = 0;
        while i < num_slots
            invariant
                i <= num_slots,
                num_slots == self.tuples@.len(),
                count <= i,
                count == spec_free_count(self.header@, i as int),
            decreases num_slots - i,
        {
            if !get_slot(&self.header, i) {
                count = count + 1;
            }
            i = i + 1;
        }
        count
    }

    /// Encodes this page into its `PAGE_SIZE`-byte on-disk image: the
    /// header verbatim, each occupied slot's row bytes, zero bytes for each
    /// free slot, zero padding at the end.
    pub fn get_page_data(&self) -> (r: Vec<u8>)
        requires
            self.wf(),
        ensures
            r@ == spec_encode_page(self.spec_content(), self.td.types@),
            r@.len() == PAGE_SIZE,
    {
        let ghost c = self.spec_content();
        let ghost types = self.td.types@;
        proof {
            lemma_page_layout(types);
            lemma_types_size_nonneg(types);
            lemma_slots_bytes_len(c, types, spec_num_slots(types));
        }
        let size = self.td.get_size();
        let num_slots = self.tuples.len();
        let mut out = clone_bytes(&self.header);
        let mut i: usize = 0;
        while i < num_slots
            invariant
                i <= num_slots,
                self.wf(),
                c == self.spec_content(),
                types == self.td.types@,
                size == types_size(types),
                num_slots == self.tuples@.len(),
                num_slots == spec_num_slots(types),
                out@ == c.header + spec_slots_bytes(c, types, i as int),
                out@.len() == spec_header_size(types) + i * size,
                spec_header_size(types) + num_slots * size <= PAGE_SIZE,
            decreases num_slots - i,
        {
            proof {
                assert(0 <= i * size && (i + 1) * size == i * size + size && (i + 1) * size
                    <= num_slots * size) by (nonlinear_arith)
                    requires
                        size >= 0,
                        0 <= i,
                        i + 1 <= num_slots,
                ;
            }
            if get_slot(&self.header, i) {
                let mut b = self.tuples[i].serialize();
                proof {
                    assert(c.tuples[i as int] == self.tuples@[i as int].spec_fields());
                    lemma_tuple_bytes_len(c.tuples[i as int], types);
                }
                out.append(&mut b);
            } else {
                push_zero_bytes(&mut out, size);
            }
            proof {
                assert(out@ =~= c.header + spec_slots_bytes(c, types, i + 1));
            }
            i = i + 1;
        }
        let pad = PAGE_SIZE - out.len();
        push_zero_bytes(&mut out, pad);
        proof {
            assert(out@ =~= spec_encode_page(c, types));
        }
        out
    }

    /// The page decoded from the before-image bytes: the page as of the
    /// last commit (or the empty page if none happened yet).
    pub fn get_before_image(&self) -> (p: HeapPage)
        requires
            self.wf(),
        ensures
            p.wf(),
            p.pid == self.pid,
            p.td.types@ == self.td.types@,
            p.td.fields@ == self.td.fields@,
            p.spec_content() == spec_decode_page(self.old_data@, self.td.types@).unwrap(),
            p.dirtied_by is None,
    {
        match HeapPage::new(self.pid, clone_bytes(&self.old_data), self.td.clone()) {
            Ok(p) => p,
            Err(_) => vstd::pervasive::unreached(),
        }
    }

    /// Captures the current encoding of the page as its before-image;
    /// called after a commit has flushed the page.
    pub fn set_before_image(&mut self)
        requires
            old(self).wf(),
        ensures
            final(self).wf(),
            final(self).pid == old(self).pid,
            final(self).td == old(self).td,
            final(self).header == old(self).header,
            final(self).tuples == old(self).tuples,
            final(self).dirtied_by == old(self).dirtied_by,
            final(self).old_data@ == spec_encode_page(
                old(self).spec_content(),
                old(self).td.types@,
            ),
    {
        let data = self.get_page_data();
        proof {
            lemma_page_round_trip(self.spec_content(), self.td.types@);
        }
        self.old_data = data;
    }

    /// Replaces the current contents with the decoding of the before-image;
    /// called when a transaction aborts. The before-image itself is kept.
    pub fn restore_before_image(&mut self)
        requires
            old(self).wf(),
        ensures
            final(self).wf(),
            final(self).pid == old(self).pid,
            final(self).td == old(self).td,
            final(self).old_data == old(self).old_data,
            final(self).dirtied_by == old(self).dirtied_by,
            final(self).spec_content() == spec_decode_page(
                old(self).old_data@,
                old(self).td.types@,
            ).unwrap(),
    {
        let p = self.get_before_image();
        self.header = p.header;
        self.tuples = p.tuples;
        proof {
            assert(final(self).spec_content() =~= spec_decode_page(
                old(self).old_data@,
                old(self).td.types@,
            ).unwrap());
        }
    }

    /// Places the tuple in the first free slot: sets the slot's header bit
    /// and stamps the tuple with the slot's record id. Fails with
    /// `PageFull` exactly when no slot is free.
    pub fn add_tuple(&mut self, t: Tuple) -> (r: Result<(), Error>)
        requires
            old(self).wf(),
            spec_tuple_matches(t.spec_fields(), old(self).td.types@),
        ensures
            final(self).wf(),
            final(self).pid == old(self).pid,
            final(self).td == old(self).td,
            final(self).old_data == old(self).old_data,
            final(self).dirtied_by == old(self).dirtied_by,
            ({
                let ns = spec_num_slots(old(self).td.types@);
                let i = spec_first_free(old(self).header@, ns);
                if i < ns {
                    &&& r is Ok
                    &&& final(self).header@.len() == old(self).header@.len()
                    &&& forall|j: int|
                        0 <= j ==> spec_slot_used(final(self).header@, j) == (j == i
                            || spec_slot_used(old(self).header@, j))
                    &&& final(self).tuples@.len() == old(self).tuples@.len()
                    &&& forall|j: int|
                        0 <= j < old(self).tuples@.len() && j != i ==> final(self).tuples@[j]
                            == old(self).tuples@[j]
                    &&& final(self).tuples@[i].fields == t.fields
                    &&& final(self).tuples@[i].td == t.td
                    &&& final(self).tuples@[i].rid == RecordId {
                        pid: old(self).pid,
                        tuple_no: i as usize,
                    }
                } else {
                    &&& r == Err::<(), Error>(Error::PageFull)
                    &&& *final(self) == *old(self)
                }
            }),
    {
        let ghost ns = spec_num_slots(old(self).td.types@);
        let num_slots = self.tuples.len();
        let idx = first_free_slot(&self.header, num_slots);
        proof {
            lemma_first_free_props(self.header@, 0, ns);
        }
        if idx >= num_slots {
            return Err(Error::PageFull);
        }
        proof {
            lemma_page_layout(self.td.types@);
            lemma_fundamental_div_mod(idx as int, 8);
            lemma_mod_bound(idx as int, 8);
            vstd::arithmetic::div_mod::lemma_div_plus_one(num_slots as int - 1, 8);
            vstd::arithmetic::div_mod::lemma_div_is_ordered(
                idx as int,
                num_slots as int - 1,
                8,
            );
        }
        let mut t = t;
        t.set_record_id(RecordId::new(self.pid, idx));
        self.tuples.set(idx, t);
        set_slot(&mut self.header, idx, true);
        proof {
            let c = self.spec_content();
            let types = self.td.types@;
            assert forall|i: int| 0 <= i < c.tuples.len() implies (if spec_slot_used(
                c.header,
                i,
            ) {
                spec_tuple_matches(#[trigger] c.tuples[i], types)
            } else {
                c.tuples[i] == Seq::<FieldModel>::empty()
            }) by {
                assert(c.tuples[i] == self.tuples@[i].spec_fields());
                if i != idx as int {
                    assert(self.tuples@[i] == old(self).tuples@[i]);
                    assert(old(self).spec_content().tuples[i] == old(
                        self,
                    ).tuples@[i].spec_fields());
                }
            }
        }
        Ok(())
    }

    /// Clears the slot addressed by the tuple's record id: the slot's
    /// header bit is reset and the slot returns to the sentinel tuple.
    /// Fails with `NotOnPage` exactly when the record id names another
    /// page, a slot out of range, or a free slot.
    pub fn delete_tuple(&mut self, t: Tuple) -> (r: Result<(), Error>)
        requires
            old(self).wf(),
        ensures
            final(self).wf(),
            final(self).pid == old(self).pid,
            final(self).td == old(self).td,
            final(self).old_data == old(self).old_data,
            final(self).dirtied_by == old(self).dirtied_by,
            ({
                let ns = spec_num_slots(old(self).td.types@);
                let tn = t.rid.tuple_no as int;
                if t.rid.pid == old(self).pid && tn < ns && spec_slot_used(
                    old(self).header@,
                    tn,
                ) {
                    &&& r is Ok
                    &&& final(self).header@.len() == old(self).header@.len()
                    &&& forall|j: int|
                        0 <= j ==> spec_slot_used(final(self).header@, j) == (j != tn
                            && spec_slot_used(old(self).header@, j))
                    &&& final(self).tuples@.len() == old(self).tuples@.len()
                    &&& forall|j: int|
                        0 <= j < old(self).tuples@.len() && j != tn ==> final(self).tuples@[j]
                            == old(self).tuples@[j]
                    &&& final(self).tuples@[tn].spec_fields() == Seq::<FieldModel>::empty()
                    &&& final(self).tuples@[tn].rid == sentinel_rid()
                } else {
                    &&& r == Err::<(), Error>(Error::NotOnPage)
                    &&& *final(self) == *old(self)
                }
            }),
    {
        let rid = t.get_record_id();
        let tuple_no = rid.get_tuple_no();
        if rid.get_page_id() != self.pid {
            return Err(Error::NotOnPage);
        }
        if tuple_no >= self.tuples.len() {
            return Err(Error::NotOnPage);
        }
        if !get_slot(&self.header, tuple_no) {
            return Err(Error::NotOnPage);
        }
        proof {
            lemma_page_layout(self.td.types@);
            lemma_fundamental_div_mod(tuple_no as int, 8);
            lemma_mod_bound(tuple_no as int, 8);
            vstd::arithmetic::div_mod::lemma_div_plus_one(self.tuples@.len() as int - 1, 8);
            vstd::arithmetic::div_mod::lemma_div_is_ordered(
                tuple_no as int,
                self.tuples@.len() as int - 1,
                8,
            );
        }
        let sentinel = Tuple::new(Vec::new(), &self.td);
        self.tuples.set(tuple_no, sentinel);
        set_slot(&mut self.header, tuple_no, false);
        proof {
            let c = self.spec_content();
            let types = self.td.types@;
            assert(c.tuples[tuple_no as int] =~= Seq::<FieldModel>::empty());
            assert forall|i: int| 0 <= i < c.tuples.len() implies (if spec_slot_used(
                c.header,
                i,
            ) {
                spec_tuple_matches(#[trigger] c.tuples[i], types)
            } else {
                c.tuples[i] == Seq::<FieldModel>::empty()
            }) by {
                assert(c.tuples[i] == self.tuples@[i].spec_fields());
                if i != tuple_no as int {
                    assert(self.tuples@[i] == old(self).tuples@[i]);
                    assert(old(self).spec_content().tuples[i] == old(
                        self,
                    ).tuples@[i].spec_fields());
                }
            }
        }
        Ok(())
    }

    /// An iterator over the occupied tuples of this page, in slot order.
    pub fn iter(&self) -> (it: HeapPageIterator)
        requires
            self.wf(),
        ensures
            it.index == 0,
            it.tuples@.len() == spec_occupied_models(*self, self.spec_num_slots_of()).len(),
            forall|k: int|
                0 <= k < it.tuples@.len() ==> ((#[trigger] it.tuples@[k]).spec_fields(),
                it.tuples@[k].rid) == spec_occupied_models(*self, self.spec_num_slots_of())[k],
    {
        let num_slots = self.tuples.len();
        let mut v: Vec<Tuple> = Vec::new();
        let mut i: usize = 0;
        while i < num_slots
            invariant
                i <= num_slots,
                self.wf(),
                num_slots == self.tuples@.len(),
                v@.len() == spec_occupied_models(*self, i as int).len(),
                forall|k: int|
                    0 <= k < v@.len() ==> ((#[trigger] v@[k]).spec_fields(), v@[k].rid)
                        == spec_occupied_models(*self, i as int)[k],
            decreases num_slots - i,
        {
            if get_slot(&self.header, i) {
                v.push(self.tuples[i].clone());
            }
            i = i + 1;
        }
        HeapPageIterator { tuples: v, index: 0 }
    }
}

/// The models (fields and record id) of the occupied tuples among the first
/// `n` slots, in slot order.
pub open spec fn spec_occupied_models(p: HeapPage, n: int) -> Seq<(Seq<FieldModel>, RecordId)>
    decreases n,
{
    if n <= 0 {
        Seq::empty()
    } else {
        spec_occupied_models(p, n - 1) + (if spec_slot_used(p.header@, n - 1) {
            seq![(p.tuples@[n - 1].spec_fields(), p.tuples@[n - 1].rid)]
        } else {
            Seq::empty()
        })
    }
}

/// Tuples in a decoded page carry the record id of their own slot.
pub proof fn lemma_occupied_rid(p: HeapPage, i: int)
    requires
        p.wf(),
        0 <= i < p.tuples@.len(),
        spec_slot_used(p.header@, i),
    ensures
        p.tuples@[i].rid == (RecordId { pid: p.pid, tuple_no: i as usize }),
{
}

/// Iterator over the occupied tuples of one page, front to back.
pub struct HeapPageIterator {
    pub tuples: Vec<Tuple>,
    pub index: usize,
}

impl HeapPageIterator {
    /// The next occupied tuple, or `None` when the page is exhausted.
    pub fn next(&mut self) -> (r: Option<Tuple>)
        ensures
            final(self).tuples == old(self).tuples,
            old(self).index < old(self).tuples@.len() ==> {
                &&& final(self).index == old(self).index + 1
                &&& r matches Some(t) && t.spec_fields() == old(self).tuples@[old(
                    self,
                ).index as int].spec_fields() && t.rid == old(self).tuples@[old(
                    self,
                ).index as int].rid
            },
            old(self).index >= old(self).tuples@.len() ==> r is None && *final(self) == *old(
                self,
            ),
    {
        if self.index < self.tuples.len() {
            let t = self.tuples[self.index].clone();
            self.index = self.index + 1;
            Some(t)
        } else {
            None
        }
    }
}

/// The least free slot of the page, or `n` when every slot is occupied.
pub fn first_free_slot(header: &Vec<u8>, n: usize) -> (r: usize)
    ensures
        r == spec_first_free(header@, n as int),
{
    let mut i: usize = 0;
    while i < n
        invariant
            i <= n,
            spec_first_free_from(header@, 0, n as int) == spec_first_free_from(
                header@,
                i as int,
                n as int,
            ),
        decreases n - i,
    {
        if !get_slot(header, i) {
            return i;
        }
        i = i + 1;
    }
    n
}

impl Clone for HeapPage {
    /// A clone has the same id, schema, header, slot contents, record ids,
    /// before-image and dirty mark.
    fn clone(&self) -> (r: Self)
        ensures
            r.pid == self.pid,
            r.td.types@ == self.td.types@,
            r.td.fields@ == self.td.fields@,
            r.header@ == self.header@,
            r.old_data@ == self.old_data@,
            r.dirtied_by == self.dirtied_by,
            r.tuples@.len() == self.tuples@.len(),
            forall|i: int|
                0 <= i < self.tuples@.len() ==> (#[trigger] r.tuples@[i]).spec_fields()
                    == self.tuples@[i].spec_fields() && r.tuples@[i].rid == self.tuples@[i].rid,
            r.spec_content() == self.spec_content(),
            self.wf() ==> r.wf(),
    {
        let mut tuples: Vec<Tuple> = Vec::new();
        let mut i: usize = 0;
        while i < self.tuples.len()
            invariant
                i <= self.tuples@.len(),
                tuples@.len() == i,
                forall|k: int|
                    0 <= k < i ==> (#[trigger] tuples@[k]).spec_fields()
                        == self.tuples@[k].spec_fields() && tuples@[k].rid == self.tuples@[k].rid,
            decreases self.tuples@.len() - i,
        {
            tuples.push(self.tuples[i].clone());
            i = i + 1;
        }
        let r = HeapPage {
            pid: self.pid,
            td: self.td.clone(),
            header: clone_bytes(&self.header),
            tuples,
            old_data: clone_bytes(&self.old_data),
            dirtied_by: self.dirtied_by,
        };
        proof {
            assert(r.spec_content().tuples =~= self.spec_content().tuples);
            assert(r.spec_content() =~= self.spec_content());
        }
        r
    }
}

/// Helper view used only to phrase loop invariants.
pub open spec fn old_tuples_view(tuples: Seq<Tuple>, i: int) -> Seq<Tuple> {
    tuples.take(i)
}

/// A successful page decode succeeds on every slot prefix.
pub proof fn lemma_decode_slots_some(
    header: Seq<u8>,
    bytes: Seq<u8>,
    types: Seq<Type>,
    i: int,
    n: int,
)
    requires
        0 <= i <= n,
        spec_decode_slots(header, bytes, types, n) is Some,
    ensures
        spec_decode_slots(header, bytes, types, i) is Some,
    decreases n,
{
    if i < n {
        lemma_decode_slots_some(header, bytes, types, i, n - 1);
    }
}

/// What a successful decode yields is well-formed content.
pub proof fn lemma_decoded_content_wf(header: Seq<u8>, bytes: Seq<u8>, types: Seq<Type>, n: int)
    requires
        0 <= n,
        bytes.len() >= spec_header_size(types) + n * types_size(types),
        spec_header_size(types) >= 0,
        spec_decode_slots(header, bytes, types, n) is Some,
    ensures
        spec_decode_slots(header, bytes, types, n).unwrap().len() == n,
        forall|i: int|
            0 <= i < n ==> (if spec_slot_used(header, i) {
                spec_tuple_matches(
                    #[trigger] spec_decode_slots(header, bytes, types, n).unwrap()[i],
                    types,
                )
            } else {
                spec_decode_slots(header, bytes, types, n).unwrap()[i] == Seq::<
                    FieldModel,
                >::empty()
            }),
    decreases n,
{
    lemma_types_size_nonneg(types);
    let s = types_size(types);
    if n > 0 {
        assert((n - 1) * s + s == n * s && (n - 1) * s >= 0) by (nonlinear_arith)
            requires
                s >= 0,
                n >= 1,
        ;
        lemma_decoded_content_wf(header, bytes, types, n - 1);
        let fs = spec_decode_slots(header, bytes, types, n).unwrap();
        let init = spec_decode_slots(header, bytes, types, n - 1).unwrap();
        if spec_slot_used(header, n - 1) {
            let off = spec_header_size(types) + (n - 1) * s;
            crate::tuple::lemma_parse_tuple_props(types, bytes.skip(off));
        }
        assert(forall|i: int| 0 <= i < n - 1 ==> fs[i] == init[i]);
    }
}

/// Builds a `PAGE_SIZE`-byte zero image.
pub fn create_zero_page() -> (r: Vec<u8>)
    ensures
        r@ == zero_bytes(PAGE_SIZE as int),
{
    let mut v: Vec<u8> = Vec::new();
    push_zero_bytes(&mut v, PAGE_SIZE);
    proof {
        assert(v@ =~= zero_bytes(PAGE_SIZE as int));
    }
    v
}

/// Number of slots of a page holding rows of schema `td`.
pub fn num_slots_of(td: &TupleDesc) -> (n: usize)
    requires
        td_fits(td.types@),
    ensures
        n == spec_num_slots(td.types@),
{
    proof {
        lemma_types_size_nonneg(td.types@);
        assert(types_size(td.types@) <= types_size(td.types@) * 8) by (nonlinear_arith)
            requires
                types_size(td.types@) >= 0,
        ;
    }
    let size = td.get_size();
    (PAGE_SIZE * 8) / (size * 8 + 1)
}

} // verus!
