//! The shared-memory protocol between the interposer and the resolver
//! sandbox: the request, the response and the framed list of address records.
use vstd::prelude::*;
use crate::bytes::{le_encode, le_decode, lemma_le_encode_len, push_le, read_le};
use crate::bytes::{lemma_le_decode_bound, lemma_pow256_values, lemma_le_roundtrip, pow256};
use crate::cstr::lemma_c_len_unique;
use crate::cstr::{c_len, c_prefix, copy_range, lemma_c_len_basics, scan_c_len, scan_c_len_at};

verus! {

/// Bytes reserved for the NUL-terminated host name.
pub const NODE_LEN: usize = 256;
/// Bytes reserved for the NUL-terminated service name.
pub const SERV_LEN: usize = 256;
/// Bytes reserved for a socket address in one record.
pub const AI_ADDR_MAX: usize = 128;
/// Bytes reserved for a canonical name in one record.
pub const AI_CANONNAME_MAX: usize = 256;
/// Size of the fixed record header.
pub const NODE_HEADER_SIZE: usize = 32;
/// Size of one framed record: header, address, canonical name, link.
pub const NODE_MAX_SIZE: usize = 424;
/// Size of the request at offset 0 of the shared region.
pub const REQUEST_SIZE: usize = 528;
/// Size of the response that follows the request.
pub const RESPONSE_SIZE: usize = 24;
/// Offset of the response.
pub const RESPONSE_OFFSET: usize = 528;
/// Offset of the framed record list.
pub const DATA_OFFSET: usize = 552;

/// Offset of the address bytes within a record.
pub const ADDR_FIELD: usize = 32;
/// Offset of the canonical name within a record.
pub const CANON_FIELD: usize = 160;
/// Offset of the link to the next record within a record.
pub const NEXT_FIELD: usize = 416;

/// One address record, as the resolver hands it over and as it is rebuilt.
pub struct AddrInfoEntry {
    pub ai_flags: i32,
    pub ai_family: i32,
    pub ai_socktype: i32,
    pub ai_protocol: i32,
    pub ai_addrlen: u32,
    /// The socket address bytes, or `None` for a null address.
    pub ai_addr: Option<Vec<u8>>,
    /// The canonical name bytes, or `None` for a null name.
    pub ai_canonname: Option<Vec<u8>>,
}

/// Mathematical model of an address record.
pub struct EntryModel {
    pub flags: i32,
    pub family: i32,
    pub socktype: i32,
    pub protocol: i32,
    pub addrlen: u32,
    pub addr: Option<Seq<u8>>,
    pub canon: Option<Seq<u8>>,
}

pub open spec fn opt_view(o: Option<Vec<u8>>) -> Option<Seq<u8>> {
    match o {
        Some(v) => Some(v@),
        None => None,
    }
}

impl View for AddrInfoEntry {
    type V = EntryModel;

    open spec fn view(&self) -> EntryModel {
        EntryModel {
            flags: self.ai_flags,
            family: self.ai_family,
            socktype: self.ai_socktype,
            protocol: self.ai_protocol,
            addrlen: self.ai_addrlen,
            addr: opt_view(self.ai_addr),
            canon: opt_view(self.ai_canonname),
        }
    }
}

pub open spec fn entries_view(v: Seq<AddrInfoEntry>) -> Seq<EntryModel> {
    v.map_values(|e: AddrInfoEntry| e@)
}

/// `s` with `t` written over it from position `at`.
pub open spec fn splice(s: Seq<u8>, at: int, t: Seq<u8>) -> Seq<u8> {
    s.subrange(0, at) + t + s.subrange(at + t.len(), s.len() as int)
}

/// The 32-byte record header: five 32-bit fields, padding and an unused link, all zero-filled.
pub open spec fn header_bytes(m: EntryModel) -> Seq<u8> {
    le_encode(m.flags as u32 as nat, 4) + le_encode(m.family as u32 as nat, 4) + le_encode(
        m.socktype as u32 as nat,
        4,
    ) + le_encode(m.protocol as u32 as nat, 4) + le_encode(m.addrlen as nat, 4) + le_encode(0, 4)
        + le_encode(0, 8)
}

/// The canonical name as it is framed: at most 255 bytes, up to its first NUL.
pub open spec fn canon_text(m: EntryModel) -> Seq<u8> {
    match m.canon {
        Some(c) => c_prefix(c, 255),
        None => Seq::empty(),
    }
}

/// The record carries address bytes.
pub open spec fn copies_addr(m: EntryModel) -> bool {
    m.addr is Some && m.addrlen > 0
}

/// The address bytes that a record carries.
pub open spec fn addr_text(m: EntryModel) -> Seq<u8> {
    m.addr.unwrap().take(m.addrlen as int)
}

/// `buf` with the record for `m` written at `off`, linking to `next`.
pub open spec fn write_node(buf: Seq<u8>, off: int, m: EntryModel, next: nat) -> Seq<u8> {
    let b1 = splice(buf, off, header_bytes(m));
    let b2 = if copies_addr(m) {
        splice(b1, off + 32, addr_text(m))
    } else {
        b1
    };
    let b3 = splice(b2, off + 160, canon_text(m).push(0));
    splice(b3, off + 416, le_encode(next, 8))
}

/// The link stored in record `i` of a list of `n` records.
pub open spec fn next_link(n: nat, i: nat) -> nat {
    if i + 1 == n {
        0
    } else {
        (i + 1) * 424
    }
}

/// `buf` with the first `k` records of `l` written at consecutive 424-byte slots.
pub open spec fn write_nodes(buf: Seq<u8>, l: Seq<EntryModel>, k: nat) -> Seq<u8>
    decreases k,
{
    if k == 0 {
        buf
    } else {
        write_node(
            write_nodes(buf, l, (k - 1) as nat),
            (k - 1) * 424,
            l[k - 1],
            next_link(l.len(), (k - 1) as nat),
        )
    }
}

/// Record `k` fits: its slot lies within `cap` bytes and its address length is framed.
pub open spec fn node_fits(l: Seq<EntryModel>, k: int, cap: nat) -> bool {
    (k + 1) * 424 <= cap && l[k].addrlen <= 128
}

pub open spec fn serialize_ok(l: Seq<EntryModel>, cap: nat) -> bool {
    forall|k: int| 0 <= k < l.len() ==> node_fits(l, k, cap)
}

/// The first record from `i` on that does not fit (`l.len()` if none).
pub open spec fn first_unfit(l: Seq<EntryModel>, cap: nat, i: nat) -> nat
    decreases l.len() - i,
{
    if i >= l.len() {
        l.len()
    } else if !node_fits(l, i as int, cap) {
        i
    } else {
        first_unfit(l, cap, i + 1)
    }
}

/// The buffer left behind when record `k` is the first that does not fit:
/// the records before it, and its header too when only its address length is at fault.
pub open spec fn failed_write(buf: Seq<u8>, l: Seq<EntryModel>, k: nat, cap: nat) -> Seq<u8> {
    if (k + 1) * 424 > cap {
        write_nodes(buf, l, k)
    } else {
        splice(write_nodes(buf, l, k), (k * 424) as int, header_bytes(l[k as int]))
    }
}

/// The address bytes of a record can be read for its address length.
pub open spec fn addr_readable(m: EntryModel) -> bool {
    m.addr is Some ==> m.addr.unwrap().len() >= (if m.addrlen <= 128 { m.addrlen as int } else { 0 })
}

pub proof fn lemma_first_unfit(l: Seq<EntryModel>, cap: nat, i: nat, k: nat)
    requires
        i <= k < l.len(),
        forall|j: int| i <= j < k ==> node_fits(l, j, cap),
        !node_fits(l, k as int, cap),
    ensures
        first_unfit(l, cap, i) == k,
    decreases k - i,
{
    if i < k {
        lemma_first_unfit(l, cap, i + 1, k);
    }
}

/// Writes `src[0..n]` into `buf` from position `at`.
fn write_at(buf: &mut Vec<u8>, at: usize, src: &Vec<u8>, n: usize)
    requires
        n <= src@.len(),
        at + n <= old(buf)@.len(),
    ensures
        final(buf)@ == splice(old(buf)@, at as int, src@.take(n as int)),
{
    let mut i: usize = 0;
    while i < n
        invariant
            i <= n <= src@.len(),
            at + n <= old(buf)@.len(),
            buf@.len() == old(buf)@.len(),
            buf@ == splice(old(buf)@, at as int, src@.take(i as int)),
        decreases n - i,
    {
        assert(at + i < buf.len());
        buf.set(at + i, src[i]);
        proof {
            assert(buf@ =~= splice(old(buf)@, at as int, src@.take(i + 1)));
        }
        i = i + 1;
    }
}

/// The fixed header of a framed record.
pub struct AddrInfoNodeHeader {
    pub ai_flags: i32,
    pub ai_family: i32,
    pub ai_socktype: i32,
    pub ai_protocol: i32,
    pub ai_addrlen: u32,
    /// Unused link field of the header, written as 0.
    pub next_offset: usize,
}

/// The bytes of a header: five 32-bit fields, four bytes of padding (zero)
/// and the 64-bit link field.
pub open spec fn node_header_bytes(h: AddrInfoNodeHeader) -> Seq<u8> {
    le_encode(h.ai_flags as u32 as nat, 4) + le_encode(h.ai_family as u32 as nat, 4) + le_encode(
        h.ai_socktype as u32 as nat,
        4,
    ) + le_encode(h.ai_protocol as u32 as nat, 4) + le_encode(h.ai_addrlen as nat, 4) + le_encode(0, 4)
        + le_encode(h.next_offset as nat, 8)
}

/// The header of a record: its scalar fields and a zero link.
pub fn node_header(e: &AddrInfoEntry) -> (h: AddrInfoNodeHeader)
    ensures
        h.ai_flags == e.ai_flags,
        h.ai_family == e.ai_family,
        h.ai_socktype == e.ai_socktype,
        h.ai_protocol == e.ai_protocol,
        h.ai_addrlen == e.ai_addrlen,
        h.next_offset == 0,
        node_header_bytes(h) == header_bytes(e@),
{
    AddrInfoNodeHeader {
        ai_flags: e.ai_flags,
        ai_family: e.ai_family,
        ai_socktype: e.ai_socktype,
        ai_protocol: e.ai_protocol,
        ai_addrlen: e.ai_addrlen,
        next_offset: 0,
    }
}

/// Frames a header into its `NODE_HEADER_SIZE` bytes.
pub fn encode_node_header(h: &AddrInfoNodeHeader) -> (v: Vec<u8>)
    ensures
        v@ == node_header_bytes(*h),
        v@.len() == NODE_HEADER_SIZE,
{
    let mut v: Vec<u8> = Vec::new();
    push_le(&mut v, h.ai_flags as u32 as u64, 4);
    push_le(&mut v, h.ai_family as u32 as u64, 4);
    push_le(&mut v, h.ai_socktype as u32 as u64, 4);
    push_le(&mut v, h.ai_protocol as u32 as u64, 4);
    push_le(&mut v, h.ai_addrlen as u64, 4);
    push_le(&mut v, 0, 4);
    push_le(&mut v, h.next_offset as u64, 8);
    proof {
        lemma_le_encode_len(h.ai_flags as u32 as nat, 4);
        lemma_le_encode_len(h.ai_family as u32 as nat, 4);
        lemma_le_encode_len(h.ai_socktype as u32 as nat, 4);
        lemma_le_encode_len(h.ai_protocol as u32 as nat, 4);
        lemma_le_encode_len(h.ai_addrlen as nat, 4);
        lemma_le_encode_len(0, 4);
        lemma_le_encode_len(h.next_offset as nat, 8);
    }
    v
}

fn header_vec(e: &AddrInfoEntry) -> (v: Vec<u8>)
    ensures
        v@ == header_bytes(e@),
{
    let h = node_header(e);
    encode_node_header(&h)
}

fn canon_vec(e: &AddrInfoEntry) -> (v: Vec<u8>)
    ensures
        v@ == canon_text(e@).push(0),
{
    let mut v: Vec<u8> = Vec::new();
    match &e.ai_canonname {
        Some(c) => {
            let k = scan_c_len(c.as_slice(), 255);
            proof {
                lemma_c_len_basics(c@, 255);
            }
            let mut i: usize = 0;
            while i < k
                invariant
                    i <= k,
                    k == c_len(c@, 255),
                    k <= c@.len(),
                    v@ == c@.take(i as int),
                decreases k - i,
            {
                v.push(c[i]);
                proof {
                    assert(v@ =~= c@.take(i + 1));
                }
                i = i + 1;
            }
        },
        None => {},
    }
    v.push(0);
    proof {
        assert(v@ =~= canon_text(e@).push(0));
    }
    v
}

proof fn lemma_canon_len(m: EntryModel)
    ensures
        canon_text(m).len() <= 255,
{
    if let Some(c) = m.canon {
        lemma_c_len_basics(c, 255);
    }
}

/// Frames the records of `head` into `base[0..capacity]`, one 424-byte slot
/// each, every slot linking to the next and the last to 0. Returns the bytes
/// used, or 0 when a record does not fit (its slot would pass `capacity`, or
/// its address is longer than 128 bytes); records framed before that one stay
/// written.
pub fn serialize_addrinfo_list(head: &Vec<AddrInfoEntry>, base: &mut Vec<u8>, capacity: usize) -> (r: usize)
    requires
        capacity <= old(base)@.len(),
        forall|i: int| 0 <= i < head@.len() ==> addr_readable(#[trigger] head@[i]@),
    ensures
        final(base)@.len() == old(base)@.len(),
        ({
            let l = entries_view(head@);
            &&& serialize_ok(l, capacity as nat) ==> r == l.len() * 424 && final(base)@ == write_nodes(
                old(base)@,
                l,
                l.len(),
            )
            &&& !serialize_ok(l, capacity as nat) ==> r == 0 && final(base)@ == failed_write(
                old(base)@,
                l,
                first_unfit(l, capacity as nat, 0),
                capacity as nat,
            )
        }),
{
    let ghost l = entries_view(head@);
    let ghost n = head@.len();
    let mut offset: usize = 0;
    let mut i: usize = 0;
    while i < head.len()
        invariant
            l == entries_view(head@),
            n == head@.len(),
            l.len() == n,
            i <= n,
            offset == i * 424,
            offset <= capacity,
            capacity <= old(base)@.len(),
            base@.len() == old(base)@.len(),
            base@ == write_nodes(old(base)@, l, i as nat),
            forall|j: int| 0 <= j < i ==> node_fits(l, j, capacity as nat),
            forall|j: int| 0 <= j < head@.len() ==> addr_readable(#[trigger] head@[j]@),
        decreases n - i,
    {
        if capacity - offset < NODE_MAX_SIZE {
            proof {
                assert(!node_fits(l, i as int, capacity as nat));
                lemma_first_unfit(l, capacity as nat, 0, i as nat);
            }
            return 0;
        }
        let e = &head[i];
        assert(l[i as int] == e@);
        let ghost b0 = base@;
        let hdr = header_vec(e);
        proof {
            lemma_le_encode_len(0, 4);
            lemma_le_encode_len(0, 8);
            lemma_le_encode_len(e.ai_flags as u32 as nat, 4);
            lemma_le_encode_len(e.ai_family as u32 as nat, 4);
            lemma_le_encode_len(e.ai_socktype as u32 as nat, 4);
            lemma_le_encode_len(e.ai_protocol as u32 as nat, 4);
            lemma_le_encode_len(e.ai_addrlen as nat, 4);
            assert(hdr@.take(32) =~= hdr@);
        }
        write_at(base, offset, &hdr, 32);
        let ghost b1 = base@;
        if e.ai_addrlen > 128 {
            proof {
                assert(!node_fits(l, i as int, capacity as nat));
                lemma_first_unfit(l, capacity as nat, 0, i as nat);
                assert(base@ =~= failed_write(old(base)@, l, i as nat, capacity as nat));
            }
            return 0;
        }
        let addrlen = e.ai_addrlen as usize;
        match &e.ai_addr {
            Some(a) => {
                if addrlen > 0 {
                    assert(addr_readable(head@[i as int]@));
                    write_at(base, offset + 32, a, addrlen);
                }
            },
            None => {},
        }
        let ghost b2 = base@;
        let c = canon_vec(e);
        proof {
            lemma_canon_len(e@);
            assert(c@.take(c@.len() as int) =~= c@);
        }
        write_at(base, offset + 160, &c, c.len());
        let ghost b3 = base@;
        let next: u64 = if i + 1 == head.len() {
            0
        } else {
            (offset + NODE_MAX_SIZE) as u64
        };
        let mut nv: Vec<u8> = Vec::new();
        push_le(&mut nv, next, 8);
        proof {
            lemma_le_encode_len(next as nat, 8);
            assert(nv@.take(8) =~= nv@);
        }
        write_at(base, offset + 416, &nv, 8);
        proof {
            assert(next as nat == next_link(n, i as nat));
            assert(base@ == write_node(b0, offset as int, l[i as int], next_link(n, i as nat)));
            assert(base@ == write_nodes(old(base)@, l, (i + 1) as nat));
        }
        offset = offset + NODE_MAX_SIZE;
        i = i + 1;
    }
    offset
}

/// The 32-bit field at `at`.
pub open spec fn field_u32(b: Seq<u8>, at: int) -> u32 {
    le_decode(b.subrange(at, at + 4)) as u32
}

/// The record framed at `off`: its fields, its address bytes (for a nonzero
/// length) and its canonical name, copied with the byte after it (the NUL,
/// or, when none lies within 256 bytes, the first byte of the link).
pub open spec fn parse_node(b: Seq<u8>, off: int) -> EntryModel {
    let addrlen = field_u32(b, off + 16);
    let clen = c_len(b.subrange(off + 160, off + 416), 256) + 1;
    EntryModel {
        flags: field_u32(b, off) as i32,
        family: field_u32(b, off + 4) as i32,
        socktype: field_u32(b, off + 8) as i32,
        protocol: field_u32(b, off + 12) as i32,
        addrlen,
        addr: if addrlen > 0 {
            Some(b.subrange(off + 32, off + 32 + addrlen))
        } else {
            None
        },
        canon: if clen > 1 {
            Some(b.subrange(off + 160, off + 160 + clen))
        } else {
            None
        },
    }
}

/// The records of the chain that starts at `off`. The chain ends where no
/// whole record is left, where an address length passes 128, or at a zero
/// link. `None` when more than `fuel` records would be read: the chain runs
/// in a cycle.
pub open spec fn parse_chain(b: Seq<u8>, off: nat, fuel: nat) -> Option<Seq<EntryModel>>
    decreases fuel,
{
    if off + 32 > b.len() || field_u32(b, off + 16 as int) > 128 || off + 424 > b.len() {
        Some(Seq::empty())
    } else if fuel == 0 {
        None
    } else {
        let next = le_decode(b.subrange(off + 416 as int, off + 424 as int));
        if next == 0 {
            Some(seq![parse_node(b, off as int)])
        } else {
            match parse_chain(b, next, (fuel - 1) as nat) {
                Some(rest) => Some(seq![parse_node(b, off as int)] + rest),
                None => None,
            }
        }
    }
}

/// The records framed in `b`, starting at offset 0.
pub open spec fn spec_deserialize(b: Seq<u8>) -> Option<Seq<EntryModel>> {
    parse_chain(b, 0, b.len())
}

pub open spec fn prepend(a: Seq<EntryModel>, o: Option<Seq<EntryModel>>) -> Option<Seq<EntryModel>> {
    match o {
        Some(r) => Some(a + r),
        None => None,
    }
}

fn read_u32_field(base: &[u8], len: usize, at: usize) -> (r: u32)
    requires
        at + 4 <= len <= base@.len(),
    ensures
        r == field_u32(base@.take(len as int), at as int),
{
    let x = read_le(base, at, 4);
    proof {
        let b = base@.take(len as int);
        assert(base@.subrange(at as int, at + 4) =~= b.subrange(at as int, at + 4));
        lemma_le_decode_bound(b.subrange(at as int, at + 4));
        lemma_pow256_values();
    }
    x as u32
}

fn parse_node_exec(base: &[u8], len: usize, off: usize) -> (e: AddrInfoEntry)
    requires
        off + 424 <= len <= base@.len(),
        field_u32(base@.take(len as int), off + 16) <= 128,
    ensures
        e@ == parse_node(base@.take(len as int), off as int),
{
    let ghost b = base@.take(len as int);
    let flags = #[verifier::truncate] (read_u32_field(base, len, off) as i32);
    let family = #[verifier::truncate] (read_u32_field(base, len, off + 4) as i32);
    let socktype = #[verifier::truncate] (read_u32_field(base, len, off + 8) as i32);
    let protocol = #[verifier::truncate] (read_u32_field(base, len, off + 12) as i32);
    let addrlen = read_u32_field(base, len, off + 16);
    let addr = if addrlen > 0 {
        let v = copy_range(base, off + 32, addrlen as usize);
        assert(v@ =~= b.subrange(off + 32, off + 32 + addrlen));
        Some(v)
    } else {
        None
    };
    let k = scan_c_len_at(base, off + 160, 256);
    assert(base@.subrange(off + 160, off + 160 + 256) =~= b.subrange(off + 160, off + 416));
    proof {
        lemma_c_len_basics(b.subrange(off + 160, off + 416), 256);
    }
    let canon = if k + 1 > 1 {
        proof {
            lemma_c_len_basics(b.subrange(off + 160, off + 416), 256);
        }
        let v = copy_range(base, off + 160, k + 1);
        assert(v@ =~= b.subrange(off + 160, off + 160 + k + 1));
        Some(v)
    } else {
        None
    };
    AddrInfoEntry {
        ai_flags: flags,
        ai_family: family,
        ai_socktype: socktype,
        ai_protocol: protocol,
        ai_addrlen: addrlen,
        ai_addr: addr,
        ai_canonname: canon,
    }
}

/// Rebuilds the records framed in `base[0..len]`, following the links from
/// offset 0. `None` when the links run in a cycle (the chain would never
/// end); an empty list when not even one record is framed.
pub fn deserialize_addrinfo_list(base: &[u8], len: usize) -> (r: Option<Vec<AddrInfoEntry>>)
    requires
        len <= base@.len(),
    ensures
        match r {
            Some(v) => spec_deserialize(base@.take(len as int)) == Some(entries_view(v@)),
            None => spec_deserialize(base@.take(len as int)) is None,
        },
{
    let ghost b = base@.take(len as int);
    let mut out: Vec<AddrInfoEntry> = Vec::new();
    let mut offset: usize = 0;
    let mut fuel: usize = len;
    let mut done = false;
    let ghost mut rest: Option<Seq<EntryModel>> = parse_chain(b, 0, len as nat);
    assert(entries_view(out@) =~= Seq::<EntryModel>::empty());
    assert(prepend(entries_view(out@), rest) =~= parse_chain(b, 0, len as nat));
    while !done
        invariant
            len <= base@.len(),
            b == base@.take(len as int),
            b.len() == len,
            spec_deserialize(b) == prepend(entries_view(out@), rest),
            !done ==> rest == parse_chain(b, offset as nat, fuel as nat),
            done ==> rest == Some(Seq::<EntryModel>::empty()),
            offset <= len,
        decreases fuel + (if done { 0int } else { 1int }),
    {
        if len - offset < 32 {
            done = true;
            proof {
                rest = Some(Seq::empty());
            }
        } else {
            let addrlen = read_u32_field(base, len, offset + 16);
            if addrlen > 128 || len - offset < NODE_MAX_SIZE {
                done = true;
                proof {
                    rest = Some(Seq::empty());
                }
            } else if fuel == 0 {
                return None;
            } else {
                let e = parse_node_exec(base, len, offset);
                let ghost acc = entries_view(out@);
                out.push(e);
                proof {
                    assert(entries_view(out@) =~= acc + seq![parse_node(b, offset as int)]);
                }
                let next = read_le(base, offset + 416, 8);
                assert(base@.subrange(offset + 416, offset + 424) =~= b.subrange(offset + 416, offset + 424));
                if next == 0 {
                    done = true;
                    proof {
                        assert(acc + seq![parse_node(b, offset as int)] + Seq::<EntryModel>::empty() =~= acc + seq![parse_node(b, offset as int)]);
                        rest = Some(Seq::empty());
                    }
                } else if next > len as u64 {
                    done = true;
                    proof {
                        let r2 = parse_chain(b, next as nat, (fuel - 1) as nat);
                        assert(r2 == Some(Seq::<EntryModel>::empty()));
                        assert(acc + (seq![parse_node(b, offset as int)] + Seq::<EntryModel>::empty()) =~= acc + seq![parse_node(b, offset as int)] + Seq::<EntryModel>::empty());
                        rest = Some(Seq::empty());
                    }
                } else {
                    proof {
                        let r2 = parse_chain(b, next as nat, (fuel - 1) as nat);
                        match r2 {
                            Some(rr) => {
                                assert(acc + (seq![parse_node(b, offset as int)] + rr) =~= acc + seq![parse_node(b, offset as int)] + rr);
                            },
                            None => {},
                        }
                        rest = r2;
                    }
                    offset = next as usize;
                    fuel = fuel - 1;
                }
            }
        }
    }
    proof {
        assert(entries_view(out@) + Seq::<EntryModel>::empty() =~= entries_view(out@));
    }
    Some(out)
}

/// What a framed record reads back as: the address cut to its length (none
/// for a zero length), the canonical name with its NUL (none when empty).
pub open spec fn roundtrip_entry(m: EntryModel) -> EntryModel {
    EntryModel {
        flags: m.flags,
        family: m.family,
        socktype: m.socktype,
        protocol: m.protocol,
        addrlen: m.addrlen,
        addr: if m.addrlen > 0 {
            Some(addr_text(m))
        } else {
            None
        },
        canon: if canon_text(m).len() > 0 {
            Some(canon_text(m).push(0))
        } else {
            None
        },
    }
}

/// Every record with a nonzero address length carries that many address bytes.
pub open spec fn addrs_present(l: Seq<EntryModel>) -> bool {
    forall|i: int|
        0 <= i < l.len() && (#[trigger] l[i]).addrlen > 0 ==> l[i].addr is Some && l[i].addr.unwrap().len()
            >= l[i].addrlen
}

proof fn lemma_i32_bits(x: i32)
    ensures
        (x as u32) as i32 == x,
{
    assert((x as u32) as i32 == x) by (bit_vector);
}

proof fn lemma_header_len(m: EntryModel)
    ensures
        header_bytes(m).len() == 32,
{
    lemma_le_encode_len(m.flags as u32 as nat, 4);
    lemma_le_encode_len(m.family as u32 as nat, 4);
    lemma_le_encode_len(m.socktype as u32 as nat, 4);
    lemma_le_encode_len(m.protocol as u32 as nat, 4);
    lemma_le_encode_len(m.addrlen as nat, 4);
    lemma_le_encode_len(0, 4);
    lemma_le_encode_len(0, 8);
}

/// Writing a record touches only its own 424-byte slot.
proof fn lemma_write_node_frame(buf: Seq<u8>, off: int, m: EntryModel, next: nat)
    requires
        0 <= off,
        off + 424 <= buf.len(),
        m.addrlen <= 128,
        copies_addr(m) ==> m.addr.unwrap().len() >= m.addrlen,
    ensures
        write_node(buf, off, m, next).len() == buf.len(),
        forall|j: int|
            0 <= j < buf.len() && (j < off || j >= off + 424) ==> #[trigger] write_node(buf, off, m, next)[j]
                == buf[j],
{
    lemma_header_len(m);
    lemma_canon_len(m);
    lemma_le_encode_len(next, 8);
}

/// The fields that a record's slot holds right after it is written.
proof fn lemma_write_node_fields(buf: Seq<u8>, off: int, m: EntryModel, next: nat)
    requires
        0 <= off,
        off + 424 <= buf.len(),
        m.addrlen <= 128,
        copies_addr(m) ==> m.addr.unwrap().len() >= m.addrlen,
    ensures
        ({
            let w = write_node(buf, off, m, next);
            &&& w.subrange(off, off + 32) == header_bytes(m)
            &&& copies_addr(m) ==> w.subrange(off + 32, off + 32 + m.addrlen) == addr_text(m)
            &&& w.subrange(off + 160, off + 161 + canon_text(m).len()) == canon_text(m).push(0)
            &&& w.subrange(off + 416, off + 424) == le_encode(next, 8)
        }),
{
    lemma_header_len(m);
    lemma_canon_len(m);
    lemma_le_encode_len(next, 8);
    let b1 = splice(buf, off, header_bytes(m));
    let b2 = if copies_addr(m) {
        splice(b1, off + 32, addr_text(m))
    } else {
        b1
    };
    let c = canon_text(m).push(0);
    let b3 = splice(b2, off + 160, c);
    let w = splice(b3, off + 416, le_encode(next, 8));
    assert(w.subrange(off + 416, off + 424) =~= le_encode(next, 8));
    assert(b3.subrange(off + 160, off + 161 + canon_text(m).len()) =~= c);
    assert(w.subrange(off + 160, off + 161 + canon_text(m).len()) =~= c);
    if copies_addr(m) {
        assert(b2.subrange(off + 32, off + 32 + m.addrlen) =~= addr_text(m));
        assert(w.subrange(off + 32, off + 32 + m.addrlen) =~= addr_text(m));
    }
    assert(b1.subrange(off, off + 32) =~= header_bytes(m));
    assert(w.subrange(off, off + 32) =~= header_bytes(m));
}

pub open spec fn entries_framable(l: Seq<EntryModel>) -> bool {
    &&& forall|i: int| 0 <= i < l.len() ==> (#[trigger] l[i]).addrlen <= 128
    &&& addrs_present(l)
}

/// Later records leave the slot of an earlier one as it was written.
proof fn lemma_write_nodes_frame(buf: Seq<u8>, l: Seq<EntryModel>, k: nat, i: nat)
    requires
        i < k <= l.len(),
        l.len() * 424 <= buf.len(),
        entries_framable(l),
    ensures
        write_nodes(buf, l, k).len() == buf.len(),
        forall|j: int|
            i * 424 <= j < i * 424 + 424 ==> #[trigger] write_nodes(buf, l, k)[j] == write_nodes(
                buf,
                l,
                i + 1,
            )[j],
    decreases k,
{
    lemma_write_nodes_len(buf, l, k);
    if k > i + 1 {
        lemma_write_nodes_frame(buf, l, (k - 1) as nat, i);
        let p = write_nodes(buf, l, (k - 1) as nat);
        let m = l[k - 1];
        assert(m.addrlen <= 128);
        assert(copies_addr(m) ==> m.addr.unwrap().len() >= m.addrlen);
        assert((k - 1) * 424 + 424 <= l.len() * 424) by (nonlinear_arith)
            requires
                k <= l.len(),
        ;
        assert(i * 424 + 424 <= (k - 1) * 424) by (nonlinear_arith)
            requires
                i + 1 <= k - 1,
        ;
        lemma_write_node_frame(p, (k - 1) * 424, m, next_link(l.len(), (k - 1) as nat));
    }
}

proof fn lemma_write_nodes_len(buf: Seq<u8>, l: Seq<EntryModel>, k: nat)
    requires
        k <= l.len(),
        l.len() * 424 <= buf.len(),
        entries_framable(l),
    ensures
        write_nodes(buf, l, k).len() == buf.len(),
    decreases k,
{
    if k > 0 {
        lemma_write_nodes_len(buf, l, (k - 1) as nat);
        let m = l[k - 1];
        assert(m.addrlen <= 128);
        assert((k - 1) * 424 + 424 <= l.len() * 424) by (nonlinear_arith)
            requires
                k <= l.len(),
        ;
        lemma_write_node_frame(
            write_nodes(buf, l, (k - 1) as nat),
            (k - 1) * 424,
            m,
            next_link(l.len(), (k - 1) as nat),
        );
    }
}

/// The slot of record `i` in a fully framed list holds that record's fields.
proof fn lemma_slot_fields(buf: Seq<u8>, l: Seq<EntryModel>, i: nat)
    requires
        i < l.len(),
        l.len() * 424 <= buf.len(),
        entries_framable(l),
    ensures
        ({
            let b = write_nodes(buf, l, l.len()).take((l.len() * 424) as int);
            let off = (i * 424) as int;
            let m = l[i as int];
            &&& off + 424 <= b.len()
            &&& b.subrange(off, off + 32) == header_bytes(m)
            &&& copies_addr(m) ==> b.subrange(off + 32, off + 32 + m.addrlen) == addr_text(m)
            &&& b.subrange(off + 160, off + 161 + canon_text(m).len()) == canon_text(m).push(0)
            &&& b.subrange(off + 416, off + 424) == le_encode(next_link(l.len(), i), 8)
        }),
{
    let n = l.len();
    let m = l[i as int];
    let off = (i * 424) as int;
    let b = write_nodes(buf, l, n).take((n * 424) as int);
    let w = write_nodes(buf, l, i + 1);
    assert(i * 424 + 424 <= n * 424) by (nonlinear_arith)
        requires
            i < n,
    ;
    lemma_write_nodes_len(buf, l, n);
    lemma_write_nodes_len(buf, l, i);
    if i + 1 < n {
        lemma_write_nodes_frame(buf, l, n, i);
    }
    assert(forall|j: int| off <= j < off + 424 ==> #[trigger] b[j] == w[j]);
    assert(m.addrlen <= 128);
    assert(copies_addr(m) ==> m.addr.unwrap().len() >= m.addrlen);
    lemma_write_node_fields(write_nodes(buf, l, i), off, m, next_link(n, i));
    lemma_header_len(m);
    lemma_canon_len(m);
    lemma_le_encode_len(next_link(n, i), 8);
    assert(b.subrange(off, off + 32) =~= w.subrange(off, off + 32));
    if copies_addr(m) {
        assert(b.subrange(off + 32, off + 32 + m.addrlen) =~= w.subrange(off + 32, off + 32 + m.addrlen));
    }
    let cl = canon_text(m).len();
    assert(b.subrange(off + 160, off + 161 + cl) =~= w.subrange(off + 160, off + 161 + cl));
    assert(b.subrange(off + 416, off + 424) =~= w.subrange(off + 416, off + 424));
}

/// The header fields read back as written.
proof fn lemma_decode_header(b: Seq<u8>, off: int, m: EntryModel)
    requires
        0 <= off,
        off + 32 <= b.len(),
        b.subrange(off, off + 32) == header_bytes(m),
    ensures
        field_u32(b, off) as i32 == m.flags,
        field_u32(b, off + 4) as i32 == m.family,
        field_u32(b, off + 8) as i32 == m.socktype,
        field_u32(b, off + 12) as i32 == m.protocol,
        field_u32(b, off + 16) == m.addrlen,
{
    let h = header_bytes(m);
    lemma_le_encode_len(m.flags as u32 as nat, 4);
    lemma_le_encode_len(m.family as u32 as nat, 4);
    lemma_le_encode_len(m.socktype as u32 as nat, 4);
    lemma_le_encode_len(m.protocol as u32 as nat, 4);
    lemma_le_encode_len(m.addrlen as nat, 4);
    lemma_le_encode_len(0, 4);
    lemma_le_encode_len(0, 8);
    lemma_pow256_values();
    assert(b.subrange(off, off + 4) =~= h.subrange(0, 4));
    assert(b.subrange(off + 4, off + 8) =~= h.subrange(4, 8));
    assert(b.subrange(off + 8, off + 12) =~= h.subrange(8, 12));
    assert(b.subrange(off + 12, off + 16) =~= h.subrange(12, 16));
    assert(b.subrange(off + 16, off + 20) =~= h.subrange(16, 20));
    assert(h.subrange(0, 4) =~= le_encode(m.flags as u32 as nat, 4));
    assert(h.subrange(4, 8) =~= le_encode(m.family as u32 as nat, 4));
    assert(h.subrange(8, 12) =~= le_encode(m.socktype as u32 as nat, 4));
    assert(h.subrange(12, 16) =~= le_encode(m.protocol as u32 as nat, 4));
    assert(h.subrange(16, 20) =~= le_encode(m.addrlen as nat, 4));
    lemma_le_roundtrip(m.flags as u32 as nat, 4);
    lemma_le_roundtrip(m.family as u32 as nat, 4);
    lemma_le_roundtrip(m.socktype as u32 as nat, 4);
    lemma_le_roundtrip(m.protocol as u32 as nat, 4);
    lemma_le_roundtrip(m.addrlen as nat, 4);
    lemma_i32_bits(m.flags);
    lemma_i32_bits(m.family);
    lemma_i32_bits(m.socktype);
    lemma_i32_bits(m.protocol);
}

/// The canonical name reads back up to and with the NUL written after it.
proof fn lemma_decode_canon(b: Seq<u8>, off: int, m: EntryModel)
    requires
        0 <= off,
        off + 416 <= b.len(),
        b.subrange(off + 160, off + 161 + canon_text(m).len()) == canon_text(m).push(0),
    ensures
        c_len(b.subrange(off + 160, off + 416), 256) == canon_text(m).len(),
{
    lemma_canon_len(m);
    let c = canon_text(m);
    let region = b.subrange(off + 160, off + 416);
    if let Some(cc) = m.canon {
        lemma_c_len_basics(cc, 255);
    }
    assert forall|j: int| 0 <= j < c.len() implies region[j] != 0 by {
        assert(region[j] == b.subrange(off + 160, off + 161 + c.len())[j]);
    }
    assert(region[c.len() as int] == b.subrange(off + 160, off + 161 + c.len())[c.len() as int]);
    lemma_c_len_unique(region, 256, c.len());
}

/// Reading back the record in slot `i` of a fully framed list.
proof fn lemma_parse_slot(buf: Seq<u8>, l: Seq<EntryModel>, i: nat)
    requires
        i < l.len(),
        l.len() * 424 <= buf.len(),
        buf.len() <= usize::MAX,
        entries_framable(l),
    ensures
        ({
            let b = write_nodes(buf, l, l.len()).take((l.len() * 424) as int);
            let off = (i * 424) as int;
            &&& parse_node(b, off) == roundtrip_entry(l[i as int])
            &&& field_u32(b, off + 16) == l[i as int].addrlen
            &&& le_decode(b.subrange(off + 416, off + 424)) == next_link(l.len(), i)
        }),
{
    let n = l.len();
    let m = l[i as int];
    let off = (i * 424) as int;
    let b = write_nodes(buf, l, n).take((n * 424) as int);
    lemma_slot_fields(buf, l, i);
    lemma_decode_header(b, off, m);
    lemma_decode_canon(b, off, m);
    let nl = next_link(n, i);
    assert(nl <= n * 424) by (nonlinear_arith)
        requires
            i < n,
            nl == (if i + 1 == n { 0 } else { (i + 1) * 424 }),
    ;
    lemma_pow256_values();
    lemma_le_roundtrip(nl, 8);
    assert(m.addrlen > 0 ==> copies_addr(m));
    assert(parse_node(b, off) =~= roundtrip_entry(m));
}

/// The chain from slot `i` reads back the remaining records.
proof fn lemma_parse_chain_from(buf: Seq<u8>, l: Seq<EntryModel>, i: nat, fuel: nat)
    requires
        i < l.len(),
        fuel >= l.len() - i,
        l.len() * 424 <= buf.len(),
        buf.len() <= usize::MAX,
        entries_framable(l),
    ensures
        parse_chain(write_nodes(buf, l, l.len()).take((l.len() * 424) as int), i * 424, fuel) == Some(
            l.subrange(i as int, l.len() as int).map_values(|m: EntryModel| roundtrip_entry(m)),
        ),
    decreases l.len() - i,
{
    let n = l.len();
    let b = write_nodes(buf, l, n).take((n * 424) as int);
    lemma_write_nodes_len(buf, l, n);
    lemma_parse_slot(buf, l, i);
    assert(i * 424 + 424 <= n * 424) by (nonlinear_arith)
        requires
            i < n,
    ;
    assert(l[i as int].addrlen <= 128);
    let e = parse_node(b, (i * 424) as int);
    let tail = l.subrange(i as int, n as int).map_values(|m: EntryModel| roundtrip_entry(m));
    if i + 1 == n {
        assert(tail =~= seq![e]);
    } else {
        assert((i + 1) * 424 == i * 424 + 424) by (nonlinear_arith);
        lemma_parse_chain_from(buf, l, i + 1, (fuel - 1) as nat);
        let rest = l.subrange(i + 1 as int, n as int).map_values(|m: EntryModel| roundtrip_entry(m));
        assert(tail =~= seq![e] + rest);
    }
}

/// Law: framing a list of records and reading the framed bytes back gives
/// every record again, in order, each as it is framed (`roundtrip_entry`):
/// same fields, the address cut to its length, the canonical name (at most
/// 255 bytes, up to its first NUL) followed by its NUL. It holds whenever the
/// list fits and every record with a nonzero address length carries its
/// address bytes.
pub proof fn law_serialize_then_deserialize(buf: Seq<u8>, l: Seq<EntryModel>, cap: nat)
    requires
        serialize_ok(l, cap),
        cap <= buf.len(),
        buf.len() <= usize::MAX,
        addrs_present(l),
    ensures
        spec_deserialize(write_nodes(buf, l, l.len()).take((l.len() * 424) as int)) == Some(
            l.map_values(|m: EntryModel| roundtrip_entry(m)),
        ),
{
    let n = l.len();
    if n == 0 {
        assert(l.map_values(|m: EntryModel| roundtrip_entry(m)) =~= Seq::<EntryModel>::empty());
    } else {
        assert(node_fits(l, n - 1, cap));
        assert forall|i: int| 0 <= i < n implies (#[trigger] l[i]).addrlen <= 128 by {
            assert(node_fits(l, i, cap));
        }
        lemma_write_nodes_len(buf, l, n);
        lemma_parse_chain_from(buf, l, 0, n * 424);
        assert(n * 424 >= n) by (nonlinear_arith);
        assert(l.subrange(0, n as int) =~= l);
        assert(0nat * 424 == 0);
    }
}

} // verus!
