use dtls_client_hello::error::Error;
use dtls_client_hello::extension::{
    marshal_extensions, unmarshal_extensions, unmarshal_records, Extension,
};

fn supported_groups() -> Extension {
    Extension {
        extension_type: 0x000a,
        payload: vec![0x00, 0x06, 0x00, 0x1d, 0x00, 0x17, 0x00, 0x18],
    }
}

fn extended_master_secret() -> Extension {
    Extension { extension_type: 0x0017, payload: vec![] }
}

fn two_records() -> Vec<u8> {
    vec![
        0x00, 0x0a, 0x00, 0x08, 0x00, 0x06, 0x00, 0x1d, 0x00, 0x17, 0x00, 0x18, // 4 + 8
        0x00, 0x17, 0x00, 0x00, // 4 + 0
    ]
}

#[test]
fn test_record_exact_bytes() {
    let raw = supported_groups().marshal().unwrap();
    assert_eq!(raw, two_records()[..12].to_vec());
    assert_eq!(extended_master_secret().marshal().unwrap(), vec![0x00, 0x17, 0x00, 0x00]);
}

#[test]
fn test_record_length_is_big_endian() {
    let ext = Extension { extension_type: 0x1234, payload: vec![0xee; 0x0102] };
    let raw = ext.marshal().unwrap();
    assert_eq!(&raw[..4], &[0x12, 0x34, 0x01, 0x02]);
    assert_eq!(raw.len(), 4 + 0x0102);
    assert_eq!(Extension::unmarshal(&raw), Ok((ext, 4 + 0x0102)));
}

#[test]
fn test_record_decodes_from_front_and_reports_length() {
    let mut raw = two_records();
    raw.push(0x99);
    assert_eq!(Extension::unmarshal(&raw), Ok((supported_groups(), 12)));
    assert_eq!(Extension::unmarshal(&raw[12..]), Ok((extended_master_secret(), 4)));
}

#[test]
fn test_record_truncated() {
    let raw = supported_groups().marshal().unwrap();
    for cut in 0..raw.len() {
        assert_eq!(Extension::unmarshal(&raw[..cut]), Err(Error::Truncated));
    }
}

#[test]
fn test_record_payload_limit() {
    let ext = Extension { extension_type: 7, payload: vec![1; 0xffff] };
    let raw = ext.marshal().unwrap();
    assert_eq!(&raw[..4], &[0x00, 0x07, 0xff, 0xff]);
    assert_eq!(Extension::unmarshal(&raw), Ok((ext, 4 + 0xffff)));
    let ext = Extension { extension_type: 7, payload: vec![1; 0x10000] };
    assert_eq!(ext.marshal(), Err(Error::MalformedLength));
}

#[test]
fn test_two_extensions_in_one_sixteen_byte_block() {
    let block = two_records();
    assert_eq!(block.len(), 16);
    let exts = unmarshal_records(&block).unwrap();
    assert_eq!(exts.len(), 2);
    assert_eq!(exts[0].extension_type, 0x000a);
    assert_eq!(exts[0].payload.len(), 8);
    assert_eq!(exts[1].extension_type, 0x0017);
    assert_eq!(exts[1].payload.len(), 0);
    assert_eq!(exts, vec![supported_groups(), extended_master_secret()]);
}

#[test]
fn test_block_encodes_with_length_prefix() {
    let raw = marshal_extensions(&vec![supported_groups(), extended_master_secret()]).unwrap();
    let mut expected = vec![0x00, 0x10];
    expected.extend_from_slice(&two_records());
    assert_eq!(raw, expected);
    assert_eq!(
        unmarshal_extensions(&raw),
        Ok((vec![supported_groups(), extended_master_secret()], 18))
    );
}

#[test]
fn test_empty_block() {
    assert_eq!(marshal_extensions(&vec![]), Ok(vec![0x00, 0x00]));
    assert_eq!(unmarshal_extensions(&[0x00, 0x00]), Ok((vec![], 2)));
    assert_eq!(unmarshal_records(&[]), Some(vec![]));
}

#[test]
fn test_block_order_is_kept() {
    let exts = vec![extended_master_secret(), supported_groups(), extended_master_secret()];
    let raw = marshal_extensions(&exts).unwrap();
    assert_eq!(unmarshal_extensions(&raw), Ok((exts, 2 + 4 + 12 + 4)));
}

#[test]
fn test_block_leaves_following_bytes_alone() {
    let mut raw = vec![0x00, 0x10];
    raw.extend_from_slice(&two_records());
    raw.extend_from_slice(&[1, 2, 3]);
    assert_eq!(
        unmarshal_extensions(&raw),
        Ok((vec![supported_groups(), extended_master_secret()], 18))
    );
}

#[test]
fn test_block_truncated_by_one_byte() {
    let mut raw = vec![0x00, 0x10];
    raw.extend_from_slice(&two_records());
    raw.pop();
    assert_eq!(unmarshal_extensions(&raw), Err(Error::Truncated));
    assert_eq!(unmarshal_extensions(&[0x00]), Err(Error::Truncated));
    assert_eq!(unmarshal_extensions(&[]), Err(Error::Truncated));
}

#[test]
fn test_block_declared_one_byte_short() {
    let mut raw = vec![0x00, 0x0f];
    raw.extend_from_slice(&two_records()[..15]);
    assert_eq!(unmarshal_extensions(&raw), Err(Error::MalformedLength));
    assert_eq!(unmarshal_records(&two_records()[..15]), None);
}

#[test]
fn test_block_with_one_extra_trailing_byte() {
    let mut raw = vec![0x00, 0x11];
    raw.extend_from_slice(&two_records());
    raw.push(0x00);
    assert_eq!(unmarshal_extensions(&raw), Err(Error::MalformedLength));
    let mut block = two_records();
    block.push(0x00);
    assert_eq!(unmarshal_records(&block), None);
}

#[test]
fn test_record_that_overruns_the_block() {
    // The record declares eight payload bytes, the block holds four of them.
    let raw = vec![0x00, 0x08, 0x00, 0x0a, 0x00, 0x08, 0x00, 0x06, 0x00, 0x1d];
    assert_eq!(unmarshal_extensions(&raw), Err(Error::MalformedLength));
}

#[test]
fn test_block_size_limit() {
    let fits = vec![
        Extension { extension_type: 1, payload: vec![0; 0xffff - 8] },
        Extension { extension_type: 2, payload: vec![] },
    ];
    let raw = marshal_extensions(&fits).unwrap();
    assert_eq!(&raw[..2], &[0xff, 0xff]);
    assert_eq!(unmarshal_extensions(&raw), Ok((fits, 2 + 0xffff)));
    let too_long = vec![
        Extension { extension_type: 1, payload: vec![0; 0xffff - 8] },
        Extension { extension_type: 2, payload: vec![0] },
    ];
    assert_eq!(marshal_extensions(&too_long), Err(Error::MalformedLength));
}

#[test]
fn test_extension_equality() {
    assert_eq!(supported_groups(), supported_groups());
    assert_ne!(supported_groups(), extended_master_secret());
    let mut other = supported_groups();
    other.extension_type = 0x000b;
    assert_ne!(supported_groups(), other);
    let mut other = supported_groups();
    other.payload[7] = 0x19;
    assert_ne!(supported_groups(), other);
}
