//! Small, checked wire format for the control protocol.
//!
//! Every message starts with the four magic bytes `NA1!`, a version byte and a
//! type byte. A HELLO carries the sender (4 bytes) and a sequence number
//! (8 bytes); an LSA carries origin, sequence, then two length-prefixed lists of
//! 4-byte identifiers. All integers are little-endian.

use std::collections::BTreeMap;
use vstd::prelude::*;

use crate::ordered::{ascending_u32, keys_u32, lemma_sorted_ids_is, sorted_ids};

verus! {

pub const VERSION: u8 = 1;

pub const TYPE_HELLO: u8 = 1;

pub const TYPE_LSA: u8 = 2;

/// A1 documents at most 15 switches. This larger bound leaves room for
/// hand-written tests while keeping hostile/corrupt payload work bounded.
pub const MAX_LIST_ITEMS: usize = 64;

#[derive(Debug, Clone, Copy, PartialEq, Eq, Structural)]
pub struct Hello {
    pub sender: u32,
    pub sequence: u64,
}

#[derive(Debug, Clone, PartialEq, Eq)]
pub struct Lsa {
    pub origin: u32,
    pub sequence: u64,
    pub neighbors: Vec<u32>,
    pub customers: Vec<u32>,
}

/// The mathematical content of an [`Lsa`].
pub struct LsaView {
    pub origin: u32,
    pub sequence: u64,
    pub neighbors: Seq<u32>,
    pub customers: Seq<u32>,
}

impl View for Lsa {
    type V = LsaView;

    open spec fn view(&self) -> LsaView {
        LsaView {
            origin: self.origin,
            sequence: self.sequence,
            neighbors: self.neighbors@,
            customers: self.customers@,
        }
    }
}

#[derive(Debug, Clone, PartialEq, Eq)]
pub enum ControlMessage {
    Hello(Hello),
    Lsa(Lsa),
}

/// The mathematical content of a [`ControlMessage`].
pub enum MessageView {
    Hello(Hello),
    Lsa(LsaView),
}

impl View for ControlMessage {
    type V = MessageView;

    open spec fn view(&self) -> MessageView {
        match self {
            ControlMessage::Hello(h) => MessageView::Hello(*h),
            ControlMessage::Lsa(l) => MessageView::Lsa(l@),
        }
    }
}

/// The content of an optional decoded message.
pub open spec fn message_view(m: Option<ControlMessage>) -> Option<MessageView> {
    match m {
        Some(msg) => Some(msg@),
        None => None,
    }
}

// ---------------------------------------------------------------------------
// Canonical advertisements
// ---------------------------------------------------------------------------

/// The advertisement that `Lsa::new` builds: neighbors without the origin
/// itself, both lists ascending and free of repeats.
pub open spec fn canonical_lsa(origin: u32, sequence: u64, neighbors: Seq<u32>, customers: Seq<u32>) -> LsaView {
    LsaView {
        origin,
        sequence,
        neighbors: sorted_ids(neighbors.to_set().remove(origin)),
        customers: sorted_ids(customers.to_set()),
    }
}

/// An advertisement already in the form `Lsa::new` produces.
pub open spec fn is_canonical(l: LsaView) -> bool {
    &&& ascending_u32(l.neighbors, l.neighbors.to_set())
    &&& !l.neighbors.contains(l.origin)
    &&& ascending_u32(l.customers, l.customers.to_set())
}

/// Canonicalising an advertisement that is already canonical changes nothing.
pub proof fn lemma_canonical_fixed_point(l: LsaView)
    requires
        is_canonical(l),
    ensures
        canonical_lsa(l.origin, l.sequence, l.neighbors, l.customers) == l,
{
    assert(l.neighbors.to_set().remove(l.origin) =~= l.neighbors.to_set());
    lemma_sorted_ids_is(l.neighbors, l.neighbors.to_set());
    lemma_sorted_ids_is(l.customers, l.customers.to_set());
}

/// Every canonicalised advertisement is canonical.
pub proof fn lemma_canonical_is_canonical(origin: u32, sequence: u64, neighbors: Seq<u32>, customers: Seq<u32>)
    ensures
        is_canonical(canonical_lsa(origin, sequence, neighbors, customers)),
{
    vstd::seq_lib::seq_to_set_is_finite(neighbors);
    vstd::seq_lib::seq_to_set_is_finite(customers);
    vstd::set_lib::lemma_len_subset(neighbors.to_set().remove(origin), neighbors.to_set());
    crate::ordered::lemma_sorted_ids_exists(neighbors.to_set().remove(origin));
    crate::ordered::lemma_sorted_ids_exists(customers.to_set());
    let l = canonical_lsa(origin, sequence, neighbors, customers);
    assert(ascending_u32(l.neighbors, neighbors.to_set().remove(origin)));
    assert(ascending_u32(l.customers, customers.to_set()));
    if l.neighbors.contains(origin) {
        assert(l.neighbors.to_set().contains(origin));
    }
}

/// The identifiers of `ids` other than `exclude`, ascending and without repeats.
pub(crate) fn sorted_unique(ids: &Vec<u32>, exclude: Option<u32>) -> (r: Vec<u32>)
    ensures
        ascending_u32(
            r@,
            match exclude {
                Some(x) => ids@.to_set().remove(x),
                None => ids@.to_set(),
            },
        ),
{
    let mut seen: BTreeMap<u32, ()> = BTreeMap::new();
    let mut i: usize = 0;
    let ghost target = match exclude {
        Some(x) => ids@.to_set().remove(x),
        None => ids@.to_set(),
    };
    while i < ids.len()
        invariant
            i <= ids@.len(),
            target == match exclude {
                Some(x) => ids@.to_set().remove(x),
                None => ids@.to_set(),
            },
            forall|y: u32| #[trigger] seen@.dom().contains(y) <==> (ids@.take(i as int).contains(y) && exclude != Some(y)),
        decreases ids@.len() - i,
    {
        let x = ids[i];
        let keep = match exclude {
            Some(e) => x != e,
            None => true,
        };
        if keep {
            seen.insert(x, ());
        }
        proof {
            assert forall|y: u32| seen@.dom().contains(y) <==> (ids@.take(i + 1).contains(y) && exclude != Some(y)) by {
                assert(ids@.take(i + 1) =~= ids@.take(i as int).push(x));
                if ids@.take(i as int).contains(y) {
                    let k = ids@.take(i as int).index_of(y);
                    assert(ids@.take(i + 1)[k] == y);
                }
                if ids@.take(i + 1).contains(y) && y != x {
                    let k = ids@.take(i + 1).index_of(y);
                    assert(k < i);
                    assert(ids@.take(i as int)[k] == y);
                }
                if y == x {
                    assert(ids@.take(i + 1)[i as int] == y);
                }
            }
        }
        i = i + 1;
    }
    let r = keys_u32(&seen);
    proof {
        assert(ids@.take(i as int) =~= ids@);
        assert forall|y: u32| r@.to_set().contains(y) <==> target.contains(y) by {
            if ids@.contains(y) {
                let k = ids@.index_of(y);
                assert(ids@.to_set().contains(y));
            }
            if ids@.to_set().contains(y) {
                assert(ids@.contains(y));
            }
        }
        assert(r@.to_set() =~= target);
    }
    r
}

impl Lsa {
    /// Builds the canonical advertisement: the origin is dropped from its own
    /// neighbor list, and both lists are sorted with repeats removed.
    pub fn new(origin: u32, sequence: u64, neighbors: Vec<u32>, customers: Vec<u32>) -> (r: Self)
        ensures
            r@ == canonical_lsa(origin, sequence, neighbors@, customers@),
            is_canonical(r@),
    {
        let ns = sorted_unique(&neighbors, Some(origin));
        let cs = sorted_unique(&customers, None);
        proof {
            lemma_sorted_ids_is(ns@, neighbors@.to_set().remove(origin));
            lemma_sorted_ids_is(cs@, customers@.to_set());
            if ns@.contains(origin) {
                assert(ns@.to_set().contains(origin));
            }
        }
        Lsa { origin, sequence, neighbors: ns, customers: cs }
    }

    /// A copy of this advertisement.
    pub fn duplicate(&self) -> (r: Self)
        ensures
            r@ == self@,
    {
        Lsa {
            origin: self.origin,
            sequence: self.sequence,
            neighbors: self.neighbors.clone(),
            customers: self.customers.clone(),
        }
    }
}

// ---------------------------------------------------------------------------
// Byte layout
// ---------------------------------------------------------------------------

/// The magic bytes `NA1!`.
pub open spec fn magic() -> Seq<u8> {
    seq![0x4eu8, 0x41u8, 0x31u8, 0x21u8]
}

/// Magic, version and message type.
pub open spec fn header(kind: u8) -> Seq<u8> {
    magic() + seq![VERSION, kind]
}

/// Little-endian bytes of a 16-bit value.
pub open spec fn le16(x: u16) -> Seq<u8> {
    seq![(x & 0xff) as u8, (x >> 8) as u8]
}

/// Little-endian bytes of a 32-bit value.
pub open spec fn le32(x: u32) -> Seq<u8> {
    seq![(x & 0xff) as u8, ((x >> 8) & 0xff) as u8, ((x >> 16) & 0xff) as u8, (x >> 24) as u8]
}

/// Little-endian bytes of a 64-bit value.
pub open spec fn le64(x: u64) -> Seq<u8> {
    seq![
        (x & 0xff) as u8,
        ((x >> 8) & 0xff) as u8,
        ((x >> 16) & 0xff) as u8,
        ((x >> 24) & 0xff) as u8,
        ((x >> 32) & 0xff) as u8,
        ((x >> 40) & 0xff) as u8,
        ((x >> 48) & 0xff) as u8,
        (x >> 56) as u8,
    ]
}

/// The 16-bit value stored little-endian at `at`.
pub open spec fn read16(b: Seq<u8>, at: int) -> u16 {
    (b[at] as u16) | ((b[at + 1] as u16) << 8)
}

/// The 32-bit value stored little-endian at `at`.
pub open spec fn read32(b: Seq<u8>, at: int) -> u32 {
    (b[at] as u32) | ((b[at + 1] as u32) << 8) | ((b[at + 2] as u32) << 16) | ((b[at + 3] as u32)
        << 24)
}

/// The 64-bit value stored little-endian at `at`.
pub open spec fn read64(b: Seq<u8>, at: int) -> u64 {
    (b[at] as u64) | ((b[at + 1] as u64) << 8) | ((b[at + 2] as u64) << 16) | ((b[at + 3] as u64)
        << 24) | ((b[at + 4] as u64) << 32) | ((b[at + 5] as u64) << 40) | ((b[at + 6] as u64)
        << 48) | ((b[at + 7] as u64) << 56)
}

/// A list of identifiers, 4 little-endian bytes each, in order.
pub open spec fn ids_bytes(s: Seq<u32>) -> Seq<u8>
    decreases s.len(),
{
    if s.len() == 0 {
        Seq::empty()
    } else {
        ids_bytes(s.drop_last()) + le32(s.last())
    }
}

/// The encoding of a HELLO.
pub open spec fn hello_bytes(sender: u32, sequence: u64) -> Seq<u8> {
    header(TYPE_HELLO) + le32(sender) + le64(sequence)
}

/// The encoding of an LSA whose lists hold at most `MAX_LIST_ITEMS` entries.
pub open spec fn lsa_bytes(l: LsaView) -> Seq<u8> {
    header(TYPE_LSA) + le32(l.origin) + le64(l.sequence) + le16(l.neighbors.len() as u16)
        + ids_bytes(l.neighbors) + le16(l.customers.len() as u16) + ids_bytes(l.customers)
}

/// What the decoder reads from `b`: a HELLO of exactly 18 bytes, or an LSA whose
/// declared list lengths are at most `MAX_LIST_ITEMS` and account for every
/// remaining byte; anything else (wrong magic, version or type, truncation,
/// trailing bytes) is rejected. A decoded LSA is canonicalised.
pub open spec fn spec_decode(b: Seq<u8>) -> Option<MessageView> {
    if b.len() < 6 || b.take(4) != magic() || b[4] != VERSION {
        None
    } else if b[5] == TYPE_HELLO {
        if b.len() == 18 {
            Some(MessageView::Hello(Hello { sender: read32(b, 6), sequence: read64(b, 10) }))
        } else {
            None
        }
    } else if b[5] == TYPE_LSA {
        spec_decode_lsa(b)
    } else {
        None
    }
}

/// The LSA part of [`spec_decode`].
pub open spec fn spec_decode_lsa(b: Seq<u8>) -> Option<MessageView> {
    if b.len() < 20 {
        None
    } else {
        let n = read16(b, 18) as int;
        if n > MAX_LIST_ITEMS || b.len() < 22 + 4 * n {
            None
        } else {
            let m = read16(b, 20 + 4 * n) as int;
            if m > MAX_LIST_ITEMS || b.len() != 22 + 4 * n + 4 * m {
                None
            } else {
                Some(
                    MessageView::Lsa(
                        canonical_lsa(
                            read32(b, 6),
                            read64(b, 10),
                            Seq::new(n as nat, |i: int| read32(b, 20 + 4 * i)),
                            Seq::new(m as nat, |i: int| read32(b, 22 + 4 * n + 4 * i)),
                        ),
                    ),
                )
            }
        }
    }
}

// ---------------------------------------------------------------------------
// Encoding
// ---------------------------------------------------------------------------

fn push_u16(out: &mut Vec<u8>, x: u16)
    ensures
        final(out)@ == old(out)@ + le16(x),
{
    out.push((x & 0xff) as u8);
    out.push((x >> 8) as u8);
    assert(final(out)@ =~= old(out)@ + le16(x));
}

fn push_u32(out: &mut Vec<u8>, x: u32)
    ensures
        final(out)@ == old(out)@ + le32(x),
{
    out.push((x & 0xff) as u8);
    out.push(((x >> 8) & 0xff) as u8);
    out.push(((x >> 16) & 0xff) as u8);
    out.push((x >> 24) as u8);
    assert(final(out)@ =~= old(out)@ + le32(x));
}

fn push_u64(out: &mut Vec<u8>, x: u64)
    ensures
        final(out)@ == old(out)@ + le64(x),
{
    out.push((x & 0xff) as u8);
    out.push(((x >> 8) & 0xff) as u8);
    out.push(((x >> 16) & 0xff) as u8);
    out.push(((x >> 24) & 0xff) as u8);
    out.push(((x >> 32) & 0xff) as u8);
    out.push(((x >> 40) & 0xff) as u8);
    out.push(((x >> 48) & 0xff) as u8);
    out.push((x >> 56) as u8);
    assert(final(out)@ =~= old(out)@ + le64(x));
}

fn put_header(out: &mut Vec<u8>, kind: u8)
    ensures
        final(out)@ == old(out)@ + header(kind),
{
    out.push(0x4e);
    out.push(0x41);
    out.push(0x31);
    out.push(0x21);
    out.push(VERSION);
    out.push(kind);
    assert(final(out)@ =~= old(out)@ + header(kind));
}

fn push_ids(out: &mut Vec<u8>, ids: &Vec<u32>)
    ensures
        final(out)@ == old(out)@ + ids_bytes(ids@),
{
    let ghost start = out@;
    let mut i: usize = 0;
    while i < ids.len()
        invariant
            i <= ids@.len(),
            out@ == start + ids_bytes(ids@.take(i as int)),
        decreases ids@.len() - i,
    {
        push_u32(out, ids[i]);
        proof {
            let t = ids@.take(i + 1);
            assert(t.drop_last() =~= ids@.take(i as int));
            assert(t.last() == ids@[i as int]);
            assert(out@ =~= start + ids_bytes(t));
        }
        i = i + 1;
    }
    assert(ids@.take(i as int) =~= ids@);
}

/// Encodes a HELLO.
pub fn encode_hello(sender: u32, sequence: u64) -> (r: Vec<u8>)
    ensures
        r@ == hello_bytes(sender, sequence),
{
    let mut out = Vec::with_capacity(18);
    put_header(&mut out, TYPE_HELLO);
    push_u32(&mut out, sender);
    push_u64(&mut out, sequence);
    assert(out@ =~= hello_bytes(sender, sequence));
    out
}

/// Encodes an LSA; `None` when either list holds more than `MAX_LIST_ITEMS`
/// entries.
pub fn encode_lsa(lsa: &Lsa) -> (r: Option<Vec<u8>>)
    ensures
        r is None <==> (lsa.neighbors@.len() > MAX_LIST_ITEMS || lsa.customers@.len()
            > MAX_LIST_ITEMS),
        r matches Some(b) ==> b@ == lsa_bytes(lsa@),
{
    if lsa.neighbors.len() > MAX_LIST_ITEMS || lsa.customers.len() > MAX_LIST_ITEMS {
        return None;
    }
    let neighbor_count = lsa.neighbors.len() as u16;
    let customer_count = lsa.customers.len() as u16;
    let capacity = 6 + 4 + 8 + 2 + 4 * lsa.neighbors.len() + 2 + 4 * lsa.customers.len();
    let mut out = Vec::with_capacity(capacity);
    put_header(&mut out, TYPE_LSA);
    push_u32(&mut out, lsa.origin);
    push_u64(&mut out, lsa.sequence);
    push_u16(&mut out, neighbor_count);
    push_ids(&mut out, &lsa.neighbors);
    push_u16(&mut out, customer_count);
    push_ids(&mut out, &lsa.customers);
    assert(out@ =~= lsa_bytes(lsa@));
    Some(out)
}

// ---------------------------------------------------------------------------
// Decoding
// ---------------------------------------------------------------------------

struct Cursor<'a> {
    bytes: &'a [u8],
    offset: usize,
}

impl<'a> Cursor<'a> {
    fn new(bytes: &'a [u8]) -> (r: Self)
        ensures
            r.bytes@ == bytes@,
            r.offset == 0,
    {
        Cursor { bytes, offset: 0 }
    }

    /// The next `length` bytes, or `None` (and no movement) when fewer remain.
    fn take(&mut self, length: usize) -> (r: Option<&'a [u8]>)
        requires
            old(self).offset <= old(self).bytes@.len(),
        ensures
            final(self).bytes@ == old(self).bytes@,
            final(self).offset <= final(self).bytes@.len(),
            old(self).offset + length <= old(self).bytes@.len() ==> {
                &&& r matches Some(s)
                &&& s@ == old(self).bytes@.subrange(
                    old(self).offset as int,
                    old(self).offset + length,
                )
                &&& final(self).offset == old(self).offset + length
            },
            old(self).offset + length > old(self).bytes@.len() ==> r is None && final(self).offset
                == old(self).offset,
    {
        let available = self.bytes.len();
        let end = match self.offset.checked_add(length) {
            Some(e) => e,
            None => return None,
        };
        if end > available {
            return None;
        }
        let result = &self.bytes[self.offset..end];
        self.offset = end;
        Some(result)
    }

    fn u8(&mut self) -> (r: Option<u8>)
        requires
            old(self).offset <= old(self).bytes@.len(),
        ensures
            final(self).bytes@ == old(self).bytes@,
            final(self).offset <= final(self).bytes@.len(),
            old(self).offset + 1 <= old(self).bytes@.len() ==> r == Some(
                old(self).bytes@[old(self).offset as int],
            ) && final(self).offset == old(self).offset + 1,
            old(self).offset + 1 > old(self).bytes@.len() ==> r is None,
    {
        let s = match self.take(1) {
            Some(s) => s,
            None => return None,
        };
        match s.first() {
            Some(b) => Some(*b),
            None => None,
        }
    }

    fn u16(&mut self) -> (r: Option<u16>)
        requires
            old(self).offset <= old(self).bytes@.len(),
        ensures
            final(self).bytes@ == old(self).bytes@,
            final(self).offset <= final(self).bytes@.len(),
            old(self).offset + 2 <= old(self).bytes@.len() ==> r == Some(
                read16(old(self).bytes@, old(self).offset as int),
            ) && final(self).offset == old(self).offset + 2,
            old(self).offset + 2 > old(self).bytes@.len() ==> r is None,
    {
        let s = match self.take(2) {
            Some(s) => s,
            None => return None,
        };
        Some((s[0] as u16) | ((s[1] as u16) << 8))
    }

    fn u32(&mut self) -> (r: Option<u32>)
        requires
            old(self).offset <= old(self).bytes@.len(),
        ensures
            final(self).bytes@ == old(self).bytes@,
            final(self).offset <= final(self).bytes@.len(),
            old(self).offset + 4 <= old(self).bytes@.len() ==> r == Some(
                read32(old(self).bytes@, old(self).offset as int),
            ) && final(self).offset == old(self).offset + 4,
            old(self).offset + 4 > old(self).bytes@.len() ==> r is None,
    {
        let s = match self.take(4) {
            Some(s) => s,
            None => return None,
        };
        Some((s[0] as u32) | ((s[1] as u32) << 8) | ((s[2] as u32) << 16) | ((s[3] as u32) << 24))
    }

    fn u64(&mut self) -> (r: Option<u64>)
        requires
            old(self).offset <= old(self).bytes@.len(),
        ensures
            final(self).bytes@ == old(self).bytes@,
            final(self).offset <= final(self).bytes@.len(),
            old(self).offset + 8 <= old(self).bytes@.len() ==> r == Some(
                read64(old(self).bytes@, old(self).offset as int),
            ) && final(self).offset == old(self).offset + 8,
            old(self).offset + 8 > old(self).bytes@.len() ==> r is None,
    {
        let s = match self.take(8) {
            Some(s) => s,
            None => return None,
        };
        Some(
            (s[0] as u64) | ((s[1] as u64) << 8) | ((s[2] as u64) << 16) | ((s[3] as u64) << 24)
                | ((s[4] as u64) << 32) | ((s[5] as u64) << 40) | ((s[6] as u64) << 48) | ((
            s[7] as u64) << 56),
        )
    }

    fn finished(&self) -> (r: bool)
        ensures
            r == (self.offset == self.bytes@.len()),
    {
        self.offset == self.bytes.len()
    }
}

/// Reads `count` identifiers.
fn read_ids(cursor: &mut Cursor, count: usize) -> (r: Option<Vec<u32>>)
    requires
        old(cursor).offset <= old(cursor).bytes@.len(),
    ensures
        final(cursor).bytes@ == old(cursor).bytes@,
        final(cursor).offset <= final(cursor).bytes@.len(),
        old(cursor).offset + 4 * count <= old(cursor).bytes@.len() ==> {
            &&& r matches Some(v)
            &&& v@ == Seq::new(
                count as nat,
                |i: int| read32(old(cursor).bytes@, old(cursor).offset + 4 * i),
            )
            &&& final(cursor).offset == old(cursor).offset + 4 * count
        },
        old(cursor).offset + 4 * count > old(cursor).bytes@.len() ==> r is None,
{
    let ghost b = cursor.bytes@;
    let ghost start = cursor.offset as int;
    let mut ids: Vec<u32> = Vec::with_capacity(count);
    let mut i: usize = 0;
    while i < count
        invariant
            i <= count,
            cursor.bytes@ == b,
            b == old(cursor).bytes@,
            start == old(cursor).offset,
            cursor.offset == start + 4 * i,
            cursor.offset <= b.len(),
            ids@ == Seq::new(i as nat, |k: int| read32(b, start + 4 * k)),
        decreases count - i,
    {
        match cursor.u32() {
            Some(x) => {
                ids.push(x);
                assert(ids@ =~= Seq::new((i + 1) as nat, |k: int| read32(b, start + 4 * k)));
            },
            None => {
                return None;
            },
        }
        i = i + 1;
    }
    Some(ids)
}

/// Decodes a control message; see [`spec_decode`] for exactly what is accepted.
pub fn decode(bytes: &[u8]) -> (r: Option<ControlMessage>)
    ensures
        message_view(r) == spec_decode(bytes@),
{
    let ghost b = bytes@;
    let mut cursor = Cursor::new(bytes);
    let tag = match cursor.take(4) {
        Some(m) => m,
        None => return None,
    };
    if tag[0] != 0x4e || tag[1] != 0x41 || tag[2] != 0x31 || tag[3] != 0x21 {
        proof {
            assert(b.take(4)[0] == tag@[0]);
            assert(b.take(4)[1] == tag@[1]);
            assert(b.take(4)[2] == tag@[2]);
            assert(b.take(4)[3] == tag@[3]);
        }
        return None;
    }
    assert(b.len() >= 4 ==> b.take(4) =~= magic());
    let version = match cursor.u8() {
        Some(v) => v,
        None => return None,
    };
    if version != VERSION {
        return None;
    }
    let kind = match cursor.u8() {
        Some(k) => k,
        None => return None,
    };
    if kind == TYPE_HELLO {
        let sender = match cursor.u32() {
            Some(s) => s,
            None => return None,
        };
        let sequence = match cursor.u64() {
            Some(s) => s,
            None => return None,
        };
        if cursor.finished() {
            Some(ControlMessage::Hello(Hello { sender, sequence }))
        } else {
            None
        }
    } else if kind == TYPE_LSA {
        let origin = match cursor.u32() {
            Some(o) => o,
            None => return None,
        };
        let sequence = match cursor.u64() {
            Some(s) => s,
            None => return None,
        };
        let neighbor_count = match cursor.u16() {
            Some(n) => n as usize,
            None => return None,
        };
        if neighbor_count > MAX_LIST_ITEMS {
            return None;
        }
        let neighbors = match read_ids(&mut cursor, neighbor_count) {
            Some(v) => v,
            None => return None,
        };
        let customer_count = match cursor.u16() {
            Some(n) => n as usize,
            None => return None,
        };
        if customer_count > MAX_LIST_ITEMS {
            return None;
        }
        let customers = match read_ids(&mut cursor, customer_count) {
            Some(v) => v,
            None => return None,
        };
        if !cursor.finished() {
            return None;
        }
        let lsa = Lsa::new(origin, sequence, neighbors, customers);
        Some(ControlMessage::Lsa(lsa))
    } else {
        None
    }
}

// ---------------------------------------------------------------------------
// Laws of the format
// ---------------------------------------------------------------------------

proof fn lemma_le16(x: u16, b: Seq<u8>, at: int)
    requires
        0 <= at,
        at + 2 <= b.len(),
        b.subrange(at, at + 2) == le16(x),
    ensures
        read16(b, at) == x,
{
    let b0 = b[at];
    let b1 = b[at + 1];
    assert(b0 == le16(x)[0] && b1 == le16(x)[1]);
    assert(((b0 as u16) | ((b1 as u16) << 8)) == x) by (bit_vector)
        requires
            b0 == (x & 0xff) as u8,
            b1 == (x >> 8) as u8,
    ;
}

proof fn lemma_le32(x: u32, b: Seq<u8>, at: int)
    requires
        0 <= at,
        at + 4 <= b.len(),
        b.subrange(at, at + 4) == le32(x),
    ensures
        read32(b, at) == x,
{
    let b0 = b[at];
    let b1 = b[at + 1];
    let b2 = b[at + 2];
    let b3 = b[at + 3];
    assert(b0 == le32(x)[0] && b1 == le32(x)[1] && b2 == le32(x)[2] && b3 == le32(x)[3]);
    assert(((b0 as u32) | ((b1 as u32) << 8) | ((b2 as u32) << 16) | ((b3 as u32) << 24)) == x)
        by (bit_vector)
        requires
            b0 == (x & 0xff) as u8,
            b1 == ((x >> 8) & 0xff) as u8,
            b2 == ((x >> 16) & 0xff) as u8,
            b3 == (x >> 24) as u8,
    ;
}

proof fn lemma_le64(x: u64, b: Seq<u8>, at: int)
    requires
        0 <= at,
        at + 8 <= b.len(),
        b.subrange(at, at + 8) == le64(x),
    ensures
        read64(b, at) == x,
{
    let b0 = b[at];
    let b1 = b[at + 1];
    let b2 = b[at + 2];
    let b3 = b[at + 3];
    let b4 = b[at + 4];
    let b5 = b[at + 5];
    let b6 = b[at + 6];
    let b7 = b[at + 7];
    assert(b0 == le64(x)[0] && b1 == le64(x)[1] && b2 == le64(x)[2] && b3 == le64(x)[3]);
    assert(b4 == le64(x)[4] && b5 == le64(x)[5] && b6 == le64(x)[6] && b7 == le64(x)[7]);
    assert(((b0 as u64) | ((b1 as u64) << 8) | ((b2 as u64) << 16) | ((b3 as u64) << 24) | ((
    b4 as u64) << 32) | ((b5 as u64) << 40) | ((b6 as u64) << 48) | ((b7 as u64) << 56)) == x)
        by (bit_vector)
        requires
            b0 == (x & 0xff) as u8,
            b1 == ((x >> 8) & 0xff) as u8,
            b2 == ((x >> 16) & 0xff) as u8,
            b3 == ((x >> 24) & 0xff) as u8,
            b4 == ((x >> 32) & 0xff) as u8,
            b5 == ((x >> 40) & 0xff) as u8,
            b6 == ((x >> 48) & 0xff) as u8,
            b7 == (x >> 56) as u8,
    ;
}

proof fn lemma_ids_bytes(s: Seq<u32>)
    ensures
        ids_bytes(s).len() == 4 * s.len(),
        forall|i: int| 0 <= i < s.len() ==> #[trigger] ids_bytes(s).subrange(4 * i, 4 * i + 4) == le32(s[i]),
    decreases s.len(),
{
    if s.len() > 0 {
        let t = s.drop_last();
        lemma_ids_bytes(t);
        assert forall|i: int| 0 <= i < s.len() implies #[trigger] ids_bytes(s).subrange(4 * i, 4 * i + 4) == le32(s[i]) by {
            if i < t.len() {
                assert(ids_bytes(s).subrange(4 * i, 4 * i + 4) =~= ids_bytes(t).subrange(4 * i, 4 * i + 4));
                assert(t[i] == s[i]);
            } else {
                assert(ids_bytes(s).subrange(4 * i, 4 * i + 4) =~= le32(s.last()));
            }
        }
    }
}

/// Reading back the identifiers laid out by `ids_bytes` after `pre`.
proof fn lemma_read_ids(pre: Seq<u8>, s: Seq<u32>, post: Seq<u8>)
    ensures
        forall|i: int| 0 <= i < s.len() ==> #[trigger] read32(pre + ids_bytes(s) + post, pre.len() + 4 * i) == s[i],
{
    lemma_ids_bytes(s);
    let b = pre + ids_bytes(s) + post;
    assert forall|i: int| 0 <= i < s.len() implies #[trigger] read32(b, pre.len() + 4 * i) == s[i] by {
        assert(ids_bytes(s).subrange(4 * i, 4 * i + 4) == le32(s[i]));
        assert(b.subrange(pre.len() + 4 * i, pre.len() + 4 * i + 4) =~= ids_bytes(s).subrange(4 * i, 4 * i + 4));
        lemma_le32(s[i], b, pre.len() + 4 * i);
    }
}

/// Decoding an encoded HELLO gives back its sender and sequence.
pub proof fn lemma_hello_round_trip(sender: u32, sequence: u64)
    ensures
        spec_decode(hello_bytes(sender, sequence)) == Some(
            MessageView::Hello(Hello { sender, sequence }),
        ),
{
    let b = hello_bytes(sender, sequence);
    assert(b.take(4) =~= magic());
    assert(b.subrange(6, 10) =~= le32(sender));
    assert(b.subrange(10, 18) =~= le64(sequence));
    lemma_le32(sender, b, 6);
    lemma_le64(sequence, b, 10);
}

/// Decoding an encoded LSA gives back its canonical form.
pub proof fn lemma_lsa_round_trip(l: LsaView)
    requires
        l.neighbors.len() <= MAX_LIST_ITEMS,
        l.customers.len() <= MAX_LIST_ITEMS,
    ensures
        spec_decode(lsa_bytes(l)) == Some(
            MessageView::Lsa(canonical_lsa(l.origin, l.sequence, l.neighbors, l.customers)),
        ),
{
    let n = l.neighbors.len() as int;
    let m = l.customers.len() as int;
    let b = lsa_bytes(l);
    lemma_ids_bytes(l.neighbors);
    lemma_ids_bytes(l.customers);
    let p1 = header(TYPE_LSA) + le32(l.origin) + le64(l.sequence) + le16(n as u16);
    let mid = le16(m as u16) + ids_bytes(l.customers);
    let p2 = p1 + ids_bytes(l.neighbors) + le16(m as u16);
    assert(b =~= p1 + ids_bytes(l.neighbors) + mid);
    assert(b =~= p2 + ids_bytes(l.customers) + Seq::empty());
    assert(b.len() == 22 + 4 * n + 4 * m);
    assert(b.take(4) =~= magic());
    assert(b.subrange(6, 10) =~= le32(l.origin));
    assert(b.subrange(10, 18) =~= le64(l.sequence));
    assert(b.subrange(18, 20) =~= le16(n as u16));
    assert(b.subrange(20 + 4 * n, 22 + 4 * n) =~= le16(m as u16));
    lemma_le32(l.origin, b, 6);
    lemma_le64(l.sequence, b, 10);
    lemma_le16(n as u16, b, 18);
    lemma_le16(m as u16, b, 20 + 4 * n);
    lemma_read_ids(p1, l.neighbors, mid);
    lemma_read_ids(p2, l.customers, Seq::empty());
    assert(Seq::new(n as nat, |i: int| read32(b, 20 + 4 * i)) =~= l.neighbors);
    assert(Seq::new(m as nat, |i: int| read32(b, 22 + 4 * n + 4 * i)) =~= l.customers);
}

/// Decoding an encoded canonical LSA gives back exactly that LSA.
pub proof fn lemma_canonical_lsa_round_trip(l: LsaView)
    requires
        is_canonical(l),
        l.neighbors.len() <= MAX_LIST_ITEMS,
        l.customers.len() <= MAX_LIST_ITEMS,
    ensures
        spec_decode(lsa_bytes(l)) == Some(MessageView::Lsa(l)),
{
    lemma_lsa_round_trip(l);
    lemma_canonical_fixed_point(l);
}

proof fn lemma_read16_bytes(b: Seq<u8>, at: int)
    requires
        0 <= at,
        at + 2 <= b.len(),
    ensures
        le16(read16(b, at)) == b.subrange(at, at + 2),
{
    let b0 = b[at];
    let b1 = b[at + 1];
    let x = read16(b, at);
    assert((x & 0xff) as u8 == b0 && (x >> 8) as u8 == b1) by (bit_vector)
        requires
            x == (b0 as u16) | ((b1 as u16) << 8),
    ;
    assert(le16(x) =~= b.subrange(at, at + 2));
}

proof fn lemma_read32_bytes(b: Seq<u8>, at: int)
    requires
        0 <= at,
        at + 4 <= b.len(),
    ensures
        le32(read32(b, at)) == b.subrange(at, at + 4),
{
    let b0 = b[at];
    let b1 = b[at + 1];
    let b2 = b[at + 2];
    let b3 = b[at + 3];
    let x = read32(b, at);
    assert((x & 0xff) as u8 == b0 && ((x >> 8) & 0xff) as u8 == b1 && ((x >> 16) & 0xff) as u8 == b2
        && (x >> 24) as u8 == b3) by (bit_vector)
        requires
            x == (b0 as u32) | ((b1 as u32) << 8) | ((b2 as u32) << 16) | ((b3 as u32) << 24),
    ;
    assert(le32(x) =~= b.subrange(at, at + 4));
}

proof fn lemma_read64_bytes(b: Seq<u8>, at: int)
    requires
        0 <= at,
        at + 8 <= b.len(),
    ensures
        le64(read64(b, at)) == b.subrange(at, at + 8),
{
    let b0 = b[at];
    let b1 = b[at + 1];
    let b2 = b[at + 2];
    let b3 = b[at + 3];
    let b4 = b[at + 4];
    let b5 = b[at + 5];
    let b6 = b[at + 6];
    let b7 = b[at + 7];
    let x = read64(b, at);
    assert((x & 0xff) as u8 == b0 && ((x >> 8) & 0xff) as u8 == b1 && ((x >> 16) & 0xff) as u8 == b2
        && ((x >> 24) & 0xff) as u8 == b3 && ((x >> 32) & 0xff) as u8 == b4 && ((x >> 40) & 0xff) as u8
        == b5 && ((x >> 48) & 0xff) as u8 == b6 && (x >> 56) as u8 == b7) by (bit_vector)
        requires
            x == (b0 as u64) | ((b1 as u64) << 8) | ((b2 as u64) << 16) | ((b3 as u64) << 24) | ((
            b4 as u64) << 32) | ((b5 as u64) << 40) | ((b6 as u64) << 48) | ((b7 as u64) << 56),
    ;
    assert(le64(x) =~= b.subrange(at, at + 8));
}

/// The identifiers read from `n` consecutive 4-byte slots re-encode to exactly
/// those bytes.
proof fn lemma_ids_of_bytes(b: Seq<u8>, at: int, n: nat)
    requires
        0 <= at,
        at + 4 * n <= b.len(),
    ensures
        ids_bytes(Seq::new(n, |i: int| read32(b, at + 4 * i))) == b.subrange(at, at + 4 * n),
    decreases n,
{
    let s = Seq::new(n, |i: int| read32(b, at + 4 * i));
    if n == 0 {
        assert(ids_bytes(s) =~= b.subrange(at, at));
    } else {
        let k = (n - 1) as nat;
        lemma_ids_of_bytes(b, at, k);
        assert(s.drop_last() =~= Seq::new(k, |i: int| read32(b, at + 4 * i)));
        lemma_read32_bytes(b, at + 4 * k);
        assert(ids_bytes(s) =~= b.subrange(at, at + 4 * k) + b.subrange(at + 4 * k, at + 4 * k + 4));
        assert(ids_bytes(s) =~= b.subrange(at, at + 4 * n));
    }
}

/// Canonicalising never lengthens an advertisement's lists.
proof fn lemma_canonical_lengths(origin: u32, sequence: u64, neighbors: Seq<u32>, customers: Seq<u32>)
    ensures
        canonical_lsa(origin, sequence, neighbors, customers).neighbors.len() <= neighbors.len(),
        canonical_lsa(origin, sequence, neighbors, customers).customers.len() <= customers.len(),
{
    let sn = neighbors.to_set().remove(origin);
    let sc = customers.to_set();
    vstd::seq_lib::seq_to_set_is_finite(neighbors);
    vstd::seq_lib::seq_to_set_is_finite(customers);
    neighbors.lemma_cardinality_of_set();
    customers.lemma_cardinality_of_set();
    vstd::set_lib::lemma_len_subset(sn, neighbors.to_set());
    crate::ordered::lemma_sorted_ids_exists(sn);
    crate::ordered::lemma_sorted_ids_exists(sc);
    let rn = sorted_ids(sn);
    let rc = sorted_ids(sc);
    assert(rn.no_duplicates());
    assert(rc.no_duplicates());
    rn.unique_seq_to_set();
    rc.unique_seq_to_set();
}

/// Every HELLO the decoder accepts is exactly the encoding of what it returns.
pub proof fn lemma_accepted_hello_is_its_encoding(b: Seq<u8>, h: Hello)
    requires
        spec_decode(b) == Some(MessageView::Hello(h)),
    ensures
        b == hello_bytes(h.sender, h.sequence),
{
    lemma_read32_bytes(b, 6);
    lemma_read64_bytes(b, 10);
    assert(b.take(6) =~= header(TYPE_HELLO)) by {
        assert(b.take(4) == magic());
        assert(b.take(4)[0] == b[0] && b.take(4)[1] == b[1] && b.take(4)[2] == b[2] && b.take(4)[3] == b[3]);
    }
    assert(b =~= b.take(6) + b.subrange(6, 10) + b.subrange(10, 18));
}

/// Every LSA the decoder accepts is exactly the encoding of an advertisement
/// whose lists hold at most `MAX_LIST_ITEMS` entries each, and decodes to that
/// advertisement's canonical form, whose lists are no longer.
pub proof fn lemma_accepted_lsa_is_an_encoding(b: Seq<u8>, l: LsaView)
    requires
        spec_decode(b) == Some(MessageView::Lsa(l)),
    ensures
        exists|raw: LsaView| {
            &&& raw.neighbors.len() <= MAX_LIST_ITEMS
            &&& raw.customers.len() <= MAX_LIST_ITEMS
            &&& b == lsa_bytes(raw)
            &&& l == canonical_lsa(raw.origin, raw.sequence, raw.neighbors, raw.customers)
        },
        l.neighbors.len() <= MAX_LIST_ITEMS,
        l.customers.len() <= MAX_LIST_ITEMS,
{
    let n = read16(b, 18) as int;
    let m = read16(b, 20 + 4 * n) as int;
    let raw = LsaView {
        origin: read32(b, 6),
        sequence: read64(b, 10),
        neighbors: Seq::new(n as nat, |i: int| read32(b, 20 + 4 * i)),
        customers: Seq::new(m as nat, |i: int| read32(b, 22 + 4 * n + 4 * i)),
    };
    assert(b[5] == TYPE_LSA);
    lemma_read32_bytes(b, 6);
    lemma_read64_bytes(b, 10);
    lemma_read16_bytes(b, 18);
    lemma_read16_bytes(b, 20 + 4 * n);
    lemma_ids_of_bytes(b, 20, n as nat);
    lemma_ids_of_bytes(b, 22 + 4 * n, m as nat);
    assert(b.take(6) =~= header(TYPE_LSA)) by {
        assert(b.take(4) == magic());
        assert(b.take(4)[0] == b[0] && b.take(4)[1] == b[1] && b.take(4)[2] == b[2] && b.take(4)[3] == b[3]);
    }
    assert(read16(b, 18) == n as u16);
    assert(read16(b, 20 + 4 * n) == m as u16);
    assert(b =~= b.take(6) + b.subrange(6, 10) + b.subrange(10, 18) + b.subrange(18, 20)
        + b.subrange(20, 20 + 4 * n) + b.subrange(20 + 4 * n, 22 + 4 * n)
        + b.subrange(22 + 4 * n, 22 + 4 * n + 4 * m));
    assert(b == lsa_bytes(raw));
    lemma_canonical_lengths(raw.origin, raw.sequence, raw.neighbors, raw.customers);
}

/// A message's length is fixed by its header fields: no proper prefix of an
/// accepted message is accepted, and neither is an accepted message followed by
/// further bytes.
pub proof fn lemma_accepted_length_is_exact(b: Seq<u8>, c: Seq<u8>)
    requires
        spec_decode(b) is Some,
        spec_decode(c) is Some,
        b.len() <= c.len(),
        c.take(b.len() as int) == b,
    ensures
        b == c,
{
    assert(c.take(4) =~= b.take(4));
    assert(c[4] == b[4] && c[5] == b[5]);
    if b[5] == TYPE_LSA {
        assert(c[18] == b[18] && c[19] == b[19]);
        let n = read16(b, 18) as int;
        assert(read16(c, 18) as int == n);
        assert(c[20 + 4 * n] == b[20 + 4 * n] && c[21 + 4 * n] == b[21 + 4 * n]);
    }
    assert(b =~= c);
}

} // verus!
