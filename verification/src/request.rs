//! The request and response that cross the shared region, and the decisions
//! on both sides of the resolver sandbox.
use vstd::prelude::*;
use crate::bytes::{le_encode, le_decode, lemma_le_encode_len, lemma_le_roundtrip, lemma_pow256_values, push_le, read_le, lemma_le_decode_bound};
use crate::cstr::{c_len, c_prefix, lemma_c_len_basics, scan_c_len};
use crate::protocol::{DATA_OFFSET, NODE_LEN, SERV_LEN, REQUEST_SIZE, RESPONSE_SIZE};

verus! {

/// `AF_UNSPEC`: no address family preference.
pub const AF_UNSPEC: i32 = 0;
/// `ENOMEM` errno value.
pub const ENOMEM: i32 = 12;
/// `EAI_FAIL`: a non-recoverable lookup failure.
pub const EAI_FAIL: i32 = -4;
/// `EAI_MEMORY`: out of memory.
pub const EAI_MEMORY: i32 = -10;
/// `EAI_SYSTEM`: a system error, reported in errno.
pub const EAI_SYSTEM: i32 = -11;
/// Size of the shared region.
pub const SHM_SIZE: usize = 0x10000;

/// The scalar fields of the lookup hints; pointers do not cross the boundary.
#[derive(Clone, Copy, PartialEq, Eq, Structural)]
pub struct GetAddrInfoHints {
    pub ai_flags: i32,
    pub ai_family: i32,
    pub ai_socktype: i32,
    pub ai_protocol: i32,
}

/// The request at offset 0 of the shared region.
pub struct GetAddrInfoRequest {
    /// The host name, NUL-terminated within `NODE_LEN` bytes.
    pub node: Vec<u8>,
    /// The service name, NUL-terminated within `SERV_LEN` bytes.
    pub service: Vec<u8>,
    pub hints: GetAddrInfoHints,
}

/// The response that follows the request.
#[derive(Clone, Copy, PartialEq, Eq, Structural)]
pub struct GetAddrInfoResponse {
    pub result: i32,
    pub errno: i32,
    pub addrinfo_data_len: usize,
    pub addrinfo_data_offset: usize,
}

/// A name field: the name's bytes (at most `width - 1`, up to its first NUL), then zeros.
pub open spec fn name_field(name: Option<Seq<u8>>, width: nat) -> Seq<u8> {
    let text = match name {
        Some(s) => c_prefix(s, (width - 1) as nat),
        None => Seq::empty(),
    };
    text + Seq::new((width - text.len()) as nat, |i: int| 0u8)
}

pub open spec fn default_hints() -> GetAddrInfoHints {
    GetAddrInfoHints { ai_flags: 0, ai_family: AF_UNSPEC, ai_socktype: 0, ai_protocol: 0 }
}

fn name_field_exec(name: Option<&[u8]>, width: usize) -> (v: Vec<u8>)
    requires
        1 <= width <= 4096,
    ensures
        v@ == name_field(
            match name {
                Some(s) => Some(s@),
                None => None,
            },
            width as nat,
        ),
{
    let ghost nm = match name {
        Some(s) => Some(s@),
        None => None,
    };
    let mut v: Vec<u8> = Vec::new();
    match name {
        Some(s) => {
            let k = scan_c_len(s, width - 1);
            proof {
                lemma_c_len_basics(s@, (width - 1) as nat);
            }
            let mut i: usize = 0;
            while i < k
                invariant
                    i <= k <= s@.len(),
                    k == c_len(s@, (width - 1) as nat),
                    v@ == s@.take(i as int),
                decreases k - i,
            {
                v.push(s[i]);
                proof {
                    assert(v@ =~= s@.take(i + 1));
                }
                i = i + 1;
            }
        },
        None => {},
    }
    let ghost text = v@;
    proof {
        if let Some(s) = name {
            lemma_c_len_basics(s@, (width - 1) as nat);
        }
    }
    assert(v.len() < width);
    while v.len() < width
        invariant
            text.len() < width,
            v@.len() <= width,
            v@.len() >= text.len(),
            v@ == text + Seq::new((v@.len() - text.len()) as nat, |i: int| 0u8),
        decreases width - v@.len(),
    {
        v.push(0);
        proof {
            assert(v@ =~= text + Seq::new((v@.len() - text.len()) as nat, |i: int| 0u8));
        }
    }
    v
}

/// Builds the request from the lookup arguments: each name copied up to its
/// NUL, at most 255 bytes, and zero-filled; the scalar hint fields copied, or
/// the default hints (any family) for null hints.
pub fn build_request(node: Option<&[u8]>, service: Option<&[u8]>, hints: Option<GetAddrInfoHints>) -> (r: GetAddrInfoRequest)
    ensures
        r.node@ == name_field(
            match node {
                Some(s) => Some(s@),
                None => None,
            },
            NODE_LEN as nat,
        ),
        r.service@ == name_field(
            match service {
                Some(s) => Some(s@),
                None => None,
            },
            SERV_LEN as nat,
        ),
        r.hints == (match hints {
            Some(h) => h,
            None => default_hints(),
        }),
        hints is None ==> r.hints.ai_flags == 0 && r.hints.ai_family == 0 && r.hints.ai_socktype == 0
            && r.hints.ai_protocol == 0,
{
    let node_f = name_field_exec(node, NODE_LEN);
    let service_f = name_field_exec(service, SERV_LEN);
    let h = match hints {
        Some(h) => GetAddrInfoHints {
            ai_flags: h.ai_flags,
            ai_family: h.ai_family,
            ai_socktype: h.ai_socktype,
            ai_protocol: h.ai_protocol,
        },
        None => GetAddrInfoHints { ai_flags: 0, ai_family: AF_UNSPEC, ai_socktype: 0, ai_protocol: 0 },
    };
    GetAddrInfoRequest { node: node_f, service: service_f, hints: h }
}

pub open spec fn i32_bytes(x: i32) -> Seq<u8> {
    le_encode(x as u32 as nat, 4)
}

/// The request as it lies in the shared region.
pub open spec fn request_bytes(node: Seq<u8>, service: Seq<u8>, h: GetAddrInfoHints) -> Seq<u8> {
    node + service + i32_bytes(h.ai_flags) + i32_bytes(h.ai_family) + i32_bytes(h.ai_socktype) + i32_bytes(
        h.ai_protocol,
    )
}

/// The response as it lies in the shared region.
pub open spec fn response_bytes(r: GetAddrInfoResponse) -> Seq<u8> {
    i32_bytes(r.result) + i32_bytes(r.errno) + le_encode(r.addrinfo_data_len as nat, 8) + le_encode(
        r.addrinfo_data_offset as nat,
        8,
    )
}

/// Frames a request into its `REQUEST_SIZE` bytes.
pub fn encode_request(req: &GetAddrInfoRequest) -> (v: Vec<u8>)
    requires
        req.node@.len() == NODE_LEN,
        req.service@.len() == SERV_LEN,
    ensures
        v@ == request_bytes(req.node@, req.service@, req.hints),
        v@.len() == REQUEST_SIZE,
{
    let mut v: Vec<u8> = Vec::new();
    let mut i: usize = 0;
    while i < NODE_LEN
        invariant
            i <= NODE_LEN,
            req.node@.len() == NODE_LEN,
            v@ == req.node@.take(i as int),
        decreases NODE_LEN - i,
    {
        v.push(req.node[i]);
        proof {
            assert(v@ =~= req.node@.take(i + 1));
        }
        i = i + 1;
    }
    let mut j: usize = 0;
    while j < SERV_LEN
        invariant
            j <= SERV_LEN,
            req.node@.len() == NODE_LEN,
            req.service@.len() == SERV_LEN,
            v@ == req.node@ + req.service@.take(j as int),
        decreases SERV_LEN - j,
    {
        v.push(req.service[j]);
        proof {
            assert(v@ =~= req.node@ + req.service@.take(j + 1));
        }
        j = j + 1;
    }
    assert(req.node@.take(NODE_LEN as int) =~= req.node@);
    assert(req.service@.take(SERV_LEN as int) =~= req.service@);
    push_le(&mut v, req.hints.ai_flags as u32 as u64, 4);
    push_le(&mut v, req.hints.ai_family as u32 as u64, 4);
    push_le(&mut v, req.hints.ai_socktype as u32 as u64, 4);
    push_le(&mut v, req.hints.ai_protocol as u32 as u64, 4);
    proof {
        lemma_le_encode_len(req.hints.ai_flags as u32 as nat, 4);
        lemma_le_encode_len(req.hints.ai_family as u32 as nat, 4);
        lemma_le_encode_len(req.hints.ai_socktype as u32 as nat, 4);
        lemma_le_encode_len(req.hints.ai_protocol as u32 as nat, 4);
    }
    v
}

fn read_i32(b: &[u8], at: usize) -> (x: i32)
    requires
        at + 4 <= b@.len(),
    ensures
        x == le_decode(b@.subrange(at as int, at + 4)) as u32 as i32,
{
    let r = read_le(b, at, 4);
    proof {
        lemma_le_decode_bound(b@.subrange(at as int, at + 4));
        lemma_pow256_values();
    }
    #[verifier::truncate] (r as u32 as i32)
}

proof fn lemma_i32_bytes_roundtrip(x: i32)
    ensures
        i32_bytes(x).len() == 4,
        le_decode(i32_bytes(x)) as u32 as i32 == x,
{
    lemma_le_encode_len(x as u32 as nat, 4);
    lemma_pow256_values();
    lemma_le_roundtrip(x as u32 as nat, 4);
    assert((x as u32) as i32 == x) by (bit_vector);
}

/// Reads a request back from the first `REQUEST_SIZE` bytes of the shared region.
pub fn decode_request(b: &[u8]) -> (r: GetAddrInfoRequest)
    requires
        b@.len() >= REQUEST_SIZE,
    ensures
        r.node@ == b@.subrange(0, 256),
        r.service@ == b@.subrange(256, 512),
        r.hints.ai_flags == le_decode(b@.subrange(512, 516)) as u32 as i32,
        r.hints.ai_family == le_decode(b@.subrange(516, 520)) as u32 as i32,
        r.hints.ai_socktype == le_decode(b@.subrange(520, 524)) as u32 as i32,
        r.hints.ai_protocol == le_decode(b@.subrange(524, 528)) as u32 as i32,
{
    let node = crate::cstr::copy_range(b, 0, NODE_LEN);
    let service = crate::cstr::copy_range(b, NODE_LEN, SERV_LEN);
    let hints = GetAddrInfoHints {
        ai_flags: read_i32(b, 512),
        ai_family: read_i32(b, 516),
        ai_socktype: read_i32(b, 520),
        ai_protocol: read_i32(b, 524),
    };
    GetAddrInfoRequest { node, service, hints }
}

/// Law: a framed request reads back as the same request.
pub proof fn law_request_roundtrip(node: Seq<u8>, service: Seq<u8>, h: GetAddrInfoHints)
    requires
        node.len() == NODE_LEN,
        service.len() == SERV_LEN,
    ensures
        ({
            let b = request_bytes(node, service, h);
            &&& b.len() == REQUEST_SIZE
            &&& b.subrange(0, 256) == node
            &&& b.subrange(256, 512) == service
            &&& le_decode(b.subrange(512, 516)) as u32 as i32 == h.ai_flags
            &&& le_decode(b.subrange(516, 520)) as u32 as i32 == h.ai_family
            &&& le_decode(b.subrange(520, 524)) as u32 as i32 == h.ai_socktype
            &&& le_decode(b.subrange(524, 528)) as u32 as i32 == h.ai_protocol
        }),
{
    lemma_i32_bytes_roundtrip(h.ai_flags);
    lemma_i32_bytes_roundtrip(h.ai_family);
    lemma_i32_bytes_roundtrip(h.ai_socktype);
    lemma_i32_bytes_roundtrip(h.ai_protocol);
    let b = request_bytes(node, service, h);
    assert(b.subrange(0, 256) =~= node);
    assert(b.subrange(256, 512) =~= service);
    assert(b.subrange(512, 516) =~= i32_bytes(h.ai_flags));
    assert(b.subrange(516, 520) =~= i32_bytes(h.ai_family));
    assert(b.subrange(520, 524) =~= i32_bytes(h.ai_socktype));
    assert(b.subrange(524, 528) =~= i32_bytes(h.ai_protocol));
}

/// Frames a response into its `RESPONSE_SIZE` bytes.
pub fn encode_response(r: &GetAddrInfoResponse) -> (v: Vec<u8>)
    ensures
        v@ == response_bytes(*r),
        v@.len() == RESPONSE_SIZE,
{
    let mut v: Vec<u8> = Vec::new();
    push_le(&mut v, r.result as u32 as u64, 4);
    push_le(&mut v, r.errno as u32 as u64, 4);
    push_le(&mut v, r.addrinfo_data_len as u64, 8);
    push_le(&mut v, r.addrinfo_data_offset as u64, 8);
    proof {
        lemma_le_encode_len(r.result as u32 as nat, 4);
        lemma_le_encode_len(r.errno as u32 as nat, 4);
        lemma_le_encode_len(r.addrinfo_data_len as nat, 8);
        lemma_le_encode_len(r.addrinfo_data_offset as nat, 8);
    }
    v
}

/// Reads a response back from its `RESPONSE_SIZE` bytes; `None` when a
/// length or offset does not fit in a `usize`.
pub fn decode_response(b: &[u8]) -> (r: Option<GetAddrInfoResponse>)
    requires
        b@.len() >= RESPONSE_SIZE,
    ensures
        match r {
            Some(x) => {
                &&& x.result == le_decode(b@.subrange(0, 4)) as u32 as i32
                &&& x.errno == le_decode(b@.subrange(4, 8)) as u32 as i32
                &&& x.addrinfo_data_len == le_decode(b@.subrange(8, 16))
                &&& x.addrinfo_data_offset == le_decode(b@.subrange(16, 24))
            },
            None => le_decode(b@.subrange(8, 16)) > usize::MAX || le_decode(b@.subrange(16, 24)) > usize::MAX,
        },
{
    let result = read_i32(b, 0);
    let errno = read_i32(b, 4);
    let len = read_le(b, 8, 8);
    let off = read_le(b, 16, 8);
    if len > usize::MAX as u64 || off > usize::MAX as u64 {
        return None;
    }
    Some(GetAddrInfoResponse {
        result,
        errno,
        addrinfo_data_len: len as usize,
        addrinfo_data_offset: off as usize,
    })
}

/// Law: a framed response reads back as the same response.
pub proof fn law_response_roundtrip(r: GetAddrInfoResponse)
    ensures
        ({
            let b = response_bytes(r);
            &&& b.len() == RESPONSE_SIZE
            &&& le_decode(b.subrange(0, 4)) as u32 as i32 == r.result
            &&& le_decode(b.subrange(4, 8)) as u32 as i32 == r.errno
            &&& le_decode(b.subrange(8, 16)) == r.addrinfo_data_len
            &&& le_decode(b.subrange(16, 24)) == r.addrinfo_data_offset
        }),
{
    lemma_i32_bytes_roundtrip(r.result);
    lemma_i32_bytes_roundtrip(r.errno);
    lemma_pow256_values();
    lemma_le_encode_len(r.addrinfo_data_len as nat, 8);
    lemma_le_encode_len(r.addrinfo_data_offset as nat, 8);
    lemma_le_roundtrip(r.addrinfo_data_len as nat, 8);
    lemma_le_roundtrip(r.addrinfo_data_offset as nat, 8);
    let b = response_bytes(r);
    assert(b.subrange(0, 4) =~= i32_bytes(r.result));
    assert(b.subrange(4, 8) =~= i32_bytes(r.errno));
    assert(b.subrange(8, 16) =~= le_encode(r.addrinfo_data_len as nat, 8));
    assert(b.subrange(16, 24) =~= le_encode(r.addrinfo_data_offset as nat, 8));
}

/// The room the sandbox has for the framed records, after the response.
pub fn serialize_capacity() -> (c: usize)
    ensures
        c == SHM_SIZE - DATA_OFFSET,
{
    SHM_SIZE - DATA_OFFSET
}

/// The response the sandbox writes: the lookup's error and errno when the
/// lookup failed; `-1` with `ENOMEM` when the records did not fit (framed
/// length 0); else success with the framed length at `DATA_OFFSET`.
pub fn sandbox_response(ret: i32, err: i32, len: usize) -> (r: GetAddrInfoResponse)
    ensures
        ret != 0 ==> r == (GetAddrInfoResponse { result: ret, errno: err, addrinfo_data_len: 0, addrinfo_data_offset: 0 }),
        ret == 0 && len == 0 ==> r == (GetAddrInfoResponse { result: -1i32, errno: ENOMEM, addrinfo_data_len: 0, addrinfo_data_offset: 0 }),
        ret == 0 && len != 0 ==> r == (GetAddrInfoResponse { result: 0, errno: 0, addrinfo_data_len: len, addrinfo_data_offset: DATA_OFFSET }),
{
    if ret != 0 {
        GetAddrInfoResponse { result: ret, errno: err, addrinfo_data_len: 0, addrinfo_data_offset: 0 }
    } else if len == 0 {
        GetAddrInfoResponse { result: -1, errno: ENOMEM, addrinfo_data_len: 0, addrinfo_data_offset: 0 }
    } else {
        GetAddrInfoResponse { result: 0, errno: 0, addrinfo_data_len: len, addrinfo_data_offset: DATA_OFFSET }
    }
}

/// What the interposer does with the sandbox's answer.
#[derive(PartialEq, Eq, Structural)]
pub enum SandboxVerdict {
    /// Rebuild the records framed at this offset and length of the region.
    ReadRecords { offset: usize, len: usize },
    /// Fail with this lookup error, setting errno first when one is given.
    Fail { code: i32, errno: Option<i32> },
}

/// Decides on the sandbox's answer: a sandbox that did not exit with status 0
/// is a system error; a failed lookup is a system error with the sandbox's
/// errno; a record range that leaves the shared region is refused as a system
/// error; otherwise the records are read from the given range.
pub fn sandbox_verdict(exited_cleanly: bool, resp: GetAddrInfoResponse) -> (v: SandboxVerdict)
    ensures
        !exited_cleanly ==> v == (SandboxVerdict::Fail { code: EAI_SYSTEM, errno: None }),
        exited_cleanly && resp.result != 0 ==> v == (SandboxVerdict::Fail { code: EAI_SYSTEM, errno: Some(resp.errno) }),
        exited_cleanly && resp.result == 0 && resp.addrinfo_data_offset + resp.addrinfo_data_len > SHM_SIZE
            ==> v == (SandboxVerdict::Fail { code: EAI_SYSTEM, errno: None }),
        exited_cleanly && resp.result == 0 && resp.addrinfo_data_offset + resp.addrinfo_data_len <= SHM_SIZE
            ==> v == (SandboxVerdict::ReadRecords { offset: resp.addrinfo_data_offset, len: resp.addrinfo_data_len }),
{
    if !exited_cleanly {
        SandboxVerdict::Fail { code: EAI_SYSTEM, errno: None }
    } else if resp.result != 0 {
        SandboxVerdict::Fail { code: EAI_SYSTEM, errno: Some(resp.errno) }
    } else if resp.addrinfo_data_offset > SHM_SIZE || resp.addrinfo_data_len > SHM_SIZE - resp.addrinfo_data_offset {
        SandboxVerdict::Fail { code: EAI_SYSTEM, errno: None }
    } else {
        SandboxVerdict::ReadRecords { offset: resp.addrinfo_data_offset, len: resp.addrinfo_data_len }
    }
}

/// The code returned after reading the records: 0 with the records, or
/// `EAI_MEMORY` when there are none (a null list) or they run in a cycle.
pub fn records_outcome(records: &Option<Vec<crate::protocol::AddrInfoEntry>>) -> (code: i32)
    ensures
        code == (match records {
            Some(v) => if v@.len() > 0 { 0 } else { EAI_MEMORY },
            None => EAI_MEMORY,
        }),
{
    match records {
        Some(v) => if v.len() > 0 { 0 } else { EAI_MEMORY },
        None => EAI_MEMORY,
    }
}

/// The host name the sandbox looks up: the name field up to its NUL, or
/// none (a null name) when the field starts with a NUL. A field without a
/// NUL gives all of its bytes: the name never runs on past its field.
pub fn lookup_name(field: &Vec<u8>) -> (r: Option<Vec<u8>>)
    ensures
        field@.len() == 0 || field@[0] == 0 ==> r is None,
        field@.len() > 0 && field@[0] != 0 ==> r is Some && r.unwrap()@ == c_prefix(field@, field@.len()),
{
    if field.len() == 0 || field[0] == 0 {
        return None;
    }
    let k = scan_c_len(field.as_slice(), field.len());
    proof {
        lemma_c_len_basics(field@, field@.len());
    }
    Some(crate::cstr::copy_range(field.as_slice(), 0, k))
}

/// Law: a lookup with null hints states no preference: the request asks for
/// no flags, any family, any socket type and any protocol (all zero), so
/// records of every socket type come back.
pub proof fn law_null_hints_no_preference()
    ensures
        default_hints().ai_flags == 0,
        default_hints().ai_family == 0,
        default_hints().ai_socktype == 0,
        default_hints().ai_protocol == 0,
{
}

} // verus!
