use ironlung::protocol::{
    deserialize_addrinfo_list, encode_node_header, node_header, serialize_addrinfo_list,
    AddrInfoEntry, AddrInfoNodeHeader, AI_ADDR_MAX, AI_CANONNAME_MAX, DATA_OFFSET, NODE_HEADER_SIZE,
    NODE_MAX_SIZE, REQUEST_SIZE, RESPONSE_OFFSET, RESPONSE_SIZE,
};
use ironlung::request::{
    build_request, decode_request, decode_response, encode_request, encode_response,
    lookup_name, records_outcome, sandbox_response, sandbox_verdict, serialize_capacity,
    GetAddrInfoHints, GetAddrInfoResponse, SandboxVerdict, EAI_MEMORY, EAI_SYSTEM, ENOMEM,
};

const AF_INET: i32 = 2;
const SOCK_STREAM: i32 = 1;

#[test]
fn test_protocol_layout() {
    assert!(REQUEST_SIZE >= 256, "request has node+service+hints");
    assert!(NODE_MAX_SIZE <= 1024, "single node bounded");
    assert_eq!(NODE_HEADER_SIZE, core::mem::size_of::<AddrInfoNodeHeader>());
}

#[test]
fn test_deserialize_addrinfo_roundtrip() {
    // One node, AF_INET, sockaddr_in (16 bytes), canonname "x\0".
    let mut buf = [0u8; NODE_MAX_SIZE];
    let hdr = AddrInfoNodeHeader {
        ai_flags: 0,
        ai_family: AF_INET,
        ai_socktype: SOCK_STREAM,
        ai_protocol: 0,
        ai_addrlen: 16,
        next_offset: 0,
    };
    let bytes = encode_node_header(&hdr);
    buf[..NODE_HEADER_SIZE].copy_from_slice(&bytes);
    let canon_offset = NODE_HEADER_SIZE + AI_ADDR_MAX;
    buf[canon_offset] = b'x';
    buf[canon_offset + 1] = 0;
    let next_offset = canon_offset + AI_CANONNAME_MAX;
    buf[next_offset..next_offset + 8].copy_from_slice(&0usize.to_le_bytes());

    let result = deserialize_addrinfo_list(&buf, buf.len()).expect("no cycle");
    assert!(!result.is_empty(), "deserialize should return non-null");
    let ai = &result[0];
    assert_eq!(ai.ai_family, AF_INET);
    assert_eq!(ai.ai_socktype, SOCK_STREAM);
    assert_eq!(ai.ai_addrlen, 16);
    assert!(ai.ai_addr.is_some());
    assert!(ai.ai_canonname.is_some());
    assert_eq!(ai.ai_canonname.as_ref().unwrap()[0], b'x');
    assert_eq!(result.len(), 1);
}

fn entry(family: i32, addr: &[u8], canon: Option<&[u8]>) -> AddrInfoEntry {
    AddrInfoEntry {
        ai_flags: -7,
        ai_family: family,
        ai_socktype: SOCK_STREAM,
        ai_protocol: 6,
        ai_addrlen: addr.len() as u32,
        ai_addr: if addr.is_empty() { None } else { Some(addr.to_vec()) },
        ai_canonname: canon.map(|c| c.to_vec()),
    }
}

#[test]
fn serialize_then_deserialize_gives_records_back() {
    let list = vec![
        entry(AF_INET, &[2, 0, 0, 80, 127, 0, 0, 1, 0, 0, 0, 0, 0, 0, 0, 0], Some(b"localhost")),
        entry(10, &[7u8; 28], None),
        entry(AF_INET, &[], Some(b"")),
    ];
    let mut buf = vec![0xAAu8; 4096];
    let n = serialize_addrinfo_list(&list, &mut buf, 4096);
    assert_eq!(n, 3 * NODE_MAX_SIZE);
    assert_eq!(&buf[416..424], &424usize.to_le_bytes());
    assert_eq!(&buf[2 * 424 + 416..2 * 424 + 424], &0usize.to_le_bytes());
    let back = deserialize_addrinfo_list(&buf, n).expect("no cycle");
    assert_eq!(back.len(), 3);
    assert_eq!(back[0].ai_flags, -7);
    assert_eq!(back[0].ai_protocol, 6);
    assert_eq!(back[0].ai_addr.as_ref().unwrap(), &list[0].ai_addr.clone().unwrap());
    assert_eq!(back[0].ai_canonname.as_ref().unwrap(), &b"localhost\0".to_vec());
    assert_eq!(back[1].ai_family, 10);
    assert_eq!(back[1].ai_addr.as_ref().unwrap().len(), 28);
    assert!(back[1].ai_canonname.is_none());
    assert!(back[2].ai_addr.is_none());
    assert!(back[2].ai_canonname.is_none());
}

#[test]
fn serialize_refuses_what_does_not_fit() {
    let list = vec![entry(AF_INET, &[1u8; 16], None), entry(AF_INET, &[1u8; 16], None)];
    let mut buf = vec![0u8; 1000];
    assert_eq!(serialize_addrinfo_list(&list, &mut buf, 600), 0);
    let mut long = entry(AF_INET, &[1u8; 16], None);
    long.ai_addrlen = 129;
    long.ai_addr = None;
    let mut buf2 = vec![0u8; 1000];
    assert_eq!(serialize_addrinfo_list(&vec![long], &mut buf2, 1000), 0);
    // the header of the refused record was written
    assert_eq!(&buf2[16..20], &129u32.to_le_bytes());
    assert_eq!(serialize_addrinfo_list(&Vec::new(), &mut buf2, 1000), 0);
}

#[test]
fn canonical_name_is_cut_to_255_bytes() {
    let long_name = vec![b'a'; 300];
    let list = vec![entry(AF_INET, &[], Some(&long_name))];
    let mut buf = vec![0u8; 424];
    assert_eq!(serialize_addrinfo_list(&list, &mut buf, 424), 424);
    let back = deserialize_addrinfo_list(&buf, 424).unwrap();
    let mut expect = vec![b'a'; 255];
    expect.push(0);
    assert_eq!(back[0].ai_canonname.as_ref().unwrap(), &expect);
}

#[test]
fn deserialize_stops_and_detects_cycles() {
    let mut buf = vec![0u8; 424];
    // a link back to itself never ends
    buf[416..424].copy_from_slice(&0usize.to_le_bytes());
    buf[416] = 0;
    let list = vec![entry(AF_INET, &[], None), entry(AF_INET, &[], None)];
    let mut two = vec![0u8; 848];
    serialize_addrinfo_list(&list, &mut two, 848);
    two[424 + 416..424 + 424].copy_from_slice(&424usize.to_le_bytes());
    assert!(deserialize_addrinfo_list(&two, 848).is_none());
    // too short for one record
    assert_eq!(deserialize_addrinfo_list(&two, 31).unwrap().len(), 0);
    assert_eq!(deserialize_addrinfo_list(&two, 423).unwrap().len(), 0);
    // an address longer than 128 bytes ends the chain
    let mut bad = vec![0u8; 424];
    bad[16..20].copy_from_slice(&200u32.to_le_bytes());
    assert_eq!(deserialize_addrinfo_list(&bad, 424).unwrap().len(), 0);
}

#[test]
fn node_header_fields() {
    let e = entry(AF_INET, &[1, 2], None);
    let h = node_header(&e);
    assert_eq!(h.ai_addrlen, 2);
    assert_eq!(h.next_offset, 0);
    let b = encode_node_header(&h);
    assert_eq!(b.len(), 32);
    assert_eq!(&b[0..4], &(-7i32).to_le_bytes());
}

#[test]
fn request_framing() {
    let hints = GetAddrInfoHints { ai_flags: 1, ai_family: 2, ai_socktype: 3, ai_protocol: 4 };
    let r = build_request(Some(b"example.org"), None, Some(hints));
    assert_eq!(&r.node[..11], b"example.org");
    assert!(r.node[11..].iter().all(|&b| b == 0));
    assert_eq!(r.node.len(), 256);
    assert!(r.service.iter().all(|&b| b == 0));
    let bytes = encode_request(&r);
    assert_eq!(bytes.len(), REQUEST_SIZE);
    let back = decode_request(&bytes);
    assert_eq!(back.node, r.node);
    assert!(back.hints == hints);
    assert_eq!(lookup_name(&back.node), Some(b"example.org".to_vec()));
    assert_eq!(lookup_name(&back.service), None);
    let d = build_request(None, Some(b"http"), None);
    assert_eq!(d.hints.ai_family, 0);
    let long = vec![b'h'; 400];
    let l = build_request(Some(&long), None, None);
    assert_eq!(l.node[254], b'h');
    assert_eq!(l.node[255], 0);
}

#[test]
fn response_framing_and_decisions() {
    assert_eq!(RESPONSE_OFFSET, REQUEST_SIZE);
    assert_eq!(DATA_OFFSET, RESPONSE_OFFSET + RESPONSE_SIZE);
    assert_eq!(serialize_capacity(), 0x10000 - DATA_OFFSET);
    let ok = sandbox_response(0, 0, 848);
    assert!(ok == GetAddrInfoResponse { result: 0, errno: 0, addrinfo_data_len: 848, addrinfo_data_offset: DATA_OFFSET });
    let bytes = encode_response(&ok);
    assert_eq!(bytes.len(), RESPONSE_SIZE);
    assert!(decode_response(&bytes) == Some(ok));
    let failed = sandbox_response(-2, 11, 0);
    assert!(failed == GetAddrInfoResponse { result: -2, errno: 11, addrinfo_data_len: 0, addrinfo_data_offset: 0 });
    let full = sandbox_response(0, 0, 0);
    assert!(full == GetAddrInfoResponse { result: -1, errno: ENOMEM, addrinfo_data_len: 0, addrinfo_data_offset: 0 });
    assert!(sandbox_verdict(false, ok) == SandboxVerdict::Fail { code: EAI_SYSTEM, errno: None });
    assert!(sandbox_verdict(true, failed) == SandboxVerdict::Fail { code: EAI_SYSTEM, errno: Some(11) });
    assert!(sandbox_verdict(true, ok) == SandboxVerdict::ReadRecords { offset: DATA_OFFSET, len: 848 });
    let wild = GetAddrInfoResponse { result: 0, errno: 0, addrinfo_data_len: 0x10000, addrinfo_data_offset: DATA_OFFSET };
    assert!(sandbox_verdict(true, wild) == SandboxVerdict::Fail { code: EAI_SYSTEM, errno: None });
    assert_eq!(records_outcome(&None), EAI_MEMORY);
    assert_eq!(records_outcome(&Some(Vec::new())), EAI_MEMORY);
    assert_eq!(records_outcome(&Some(vec![entry(AF_INET, &[], None)])), 0);
}
