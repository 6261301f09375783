use bmc_installer::error::Error;
use bmc_installer::ubi::headers::{
    ComputeCrc, Ec, OptionIntoBytes, ParseHeader, Vid, VolTableRecord, VolType,
};

#[test]
fn test_encode() {
    let ec = Ec::default();
    let vid = Vid::default();
    let vtbl = VolTableRecord {
        alignment: 1024,
        name: "example".to_string(),
        ..Default::default()
    };

    let mut buf = vec![0u8; 1024];

    ec.encode(&mut buf).unwrap();
    assert_eq!(Ec::decode(&buf), Some(ec));

    vid.encode(&mut buf).unwrap();
    assert_eq!(Vid::decode(&buf), Some(vid));

    let vec = vtbl.clone().into_bytes();
    assert_eq!(VolTableRecord::decode(&vec), Some(vtbl));
}

fn sample_ec() -> Ec {
    Ec {
        ec: 0x0102030405060708,
        vid_hdr_offset: 2048,
        data_offset: 4096,
        image_seq: 0x1234ABCD,
    }
}

fn sample_vid() -> Vid {
    Vid {
        vol_type: VolType::Static,
        copy_flag: false,
        compat: 5,
        vol_id: 0x7FFFEFFF,
        lnum: 3,
        data_size: 1024,
        used_ebs: 4,
        data_pad: 16,
        data_crc: 0x8d746e93,
        sqnum: 0x1122334455667788,
    }
}

#[test]
fn ec_header_on_flash() {
    let mut buf = vec![0xEEu8; 70];
    sample_ec().encode(&mut buf).unwrap();
    let mut expected = Vec::new();
    expected.extend_from_slice(b"UBI#");
    expected.extend_from_slice(&[1, 0, 0, 0]);
    expected.extend_from_slice(&[1, 2, 3, 4, 5, 6, 7, 8]);
    expected.extend_from_slice(&[0, 0, 8, 0]);
    expected.extend_from_slice(&[0, 0, 0x10, 0]);
    expected.extend_from_slice(&[0x12, 0x34, 0xAB, 0xCD]);
    expected.extend_from_slice(&[0; 32]);
    expected.extend_from_slice(&[0x6d, 0xd6, 0x8f, 0xcb]);
    // What lies behind the header is left alone.
    expected.extend_from_slice(&[0xEE; 6]);
    assert_eq!(buf, expected);
    assert_eq!(sample_ec().compute_crc(), 0x6dd68fcb);
}

#[test]
fn vid_header_on_flash() {
    let mut buf = vec![0u8; 64];
    sample_vid().encode(&mut buf).unwrap();
    let mut expected = Vec::new();
    expected.extend_from_slice(b"UBI!");
    expected.extend_from_slice(&[1, 2, 0, 5]);
    expected.extend_from_slice(&[0x7F, 0xFF, 0xEF, 0xFF]);
    expected.extend_from_slice(&[0, 0, 0, 3]);
    expected.extend_from_slice(&[0; 4]);
    expected.extend_from_slice(&[0, 0, 4, 0]);
    expected.extend_from_slice(&[0, 0, 0, 4]);
    expected.extend_from_slice(&[0, 0, 0, 16]);
    expected.extend_from_slice(&[0x8d, 0x74, 0x6e, 0x93]);
    expected.extend_from_slice(&[0; 4]);
    expected.extend_from_slice(&[0x11, 0x22, 0x33, 0x44, 0x55, 0x66, 0x77, 0x88]);
    expected.extend_from_slice(&[0; 12]);
    expected.extend_from_slice(&[0x30, 0x8f, 0xd9, 0x5b]);
    assert_eq!(buf, expected);
    assert_eq!(sample_vid().compute_crc(), 0x308fd95b);
}

#[test]
fn record_on_flash() {
    let record = VolTableRecord {
        reserved_pebs: 4,
        alignment: 1024,
        data_pad: 8,
        vol_type: VolType::Static,
        upd_marker: false,
        name: "example".to_string(),
        flags: 2,
    };
    let mut expected = Vec::new();
    expected.extend_from_slice(&[0, 0, 0, 4]);
    expected.extend_from_slice(&[0, 0, 4, 0]);
    expected.extend_from_slice(&[0, 0, 0, 8]);
    expected.extend_from_slice(&[2, 0]);
    expected.extend_from_slice(&[0, 7]);
    expected.extend_from_slice(b"example");
    expected.extend_from_slice(&[0; 121]);
    expected.push(2);
    expected.extend_from_slice(&[0; 23]);
    expected.extend_from_slice(&[0x99, 0x35, 0xca, 0xfc]);
    assert_eq!(expected.len(), 172);
    assert_eq!(record.compute_crc(), 0x9935cafc);
    assert_eq!(record.to_bytes(), expected);
    assert_eq!(Some(record.clone()).into_bytes(), expected);
    assert_eq!(record.into_bytes(), expected);
}

#[test]
fn empty_record_on_flash() {
    let mut expected = vec![0u8; 168];
    expected.extend_from_slice(&[0xf1, 0x16, 0xc3, 0x6b]);
    assert_eq!(VolTableRecord::none_into_bytes(), expected);
    assert_eq!(None::<VolTableRecord>.into_bytes(), expected);
    // An empty slot names no volume type, so it is no record.
    assert_eq!(VolTableRecord::decode(&expected), None);
}

#[test]
fn decode_after_encode_of_all_fields() {
    let mut buf = vec![0u8; 64];
    sample_ec().encode(&mut buf).unwrap();
    assert_eq!(Ec::decode(&buf), Some(sample_ec()));
    assert_eq!(<Ec as ParseHeader>::parse(&buf), Some(sample_ec()));
    let first = buf.clone();
    Ec::decode(&buf).unwrap().encode(&mut buf).unwrap();
    assert_eq!(buf, first);

    let mut vid = sample_vid();
    vid.copy_flag = true;
    vid.encode(&mut buf).unwrap();
    assert_eq!(Vid::decode(&buf), Some(vid));
    assert_eq!(<Vid as ParseHeader>::parse(&buf), Some(vid));
    let first = buf.clone();
    Vid::decode(&buf).unwrap().encode(&mut buf).unwrap();
    assert_eq!(buf, first);

    let record = VolTableRecord {
        reserved_pebs: u32::MAX,
        alignment: 7,
        data_pad: 3,
        vol_type: VolType::Dynamic,
        upd_marker: true,
        name: "gr\u{fc}n \u{2713}".to_string(),
        flags: 0x81,
    };
    let bytes = record.to_bytes();
    assert_eq!(VolTableRecord::decode(&bytes), Some(record.clone()));
    assert_eq!(VolTableRecord::decode(&bytes).unwrap().into_bytes(), bytes);
}

#[test]
fn decode_rejects_what_is_no_header() {
    let mut buf = vec![0u8; 64];
    sample_ec().encode(&mut buf).unwrap();
    // Not the other kind of header.
    assert_eq!(Vid::decode(&buf), None);
    // Too short.
    assert_eq!(Ec::decode(&buf[..63]), None);
    // Any byte of the header matters.
    for i in 0..64 {
        let mut broken = buf.clone();
        broken[i] ^= 0x01;
        assert_eq!(Ec::decode(&broken), None, "byte {}", i);
    }
    sample_vid().encode(&mut buf).unwrap();
    assert_eq!(Ec::decode(&buf), None);
    for i in 0..64 {
        let mut broken = buf.clone();
        broken[i] ^= 0x80;
        assert_eq!(Vid::decode(&broken), None, "byte {}", i);
    }
    // A version other than 1, with the checksum made right.
    let mut other = buf.clone();
    other[4] = 2;
    let crc = crc::Crc::<u32>::new(&crc::CRC_32_JAMCRC).checksum(&other[..60]);
    other[60..].copy_from_slice(&crc.to_be_bytes());
    assert_eq!(Vid::decode(&other), None);
    // A volume type that does not exist, with the checksum made right.
    let mut other = buf.clone();
    other[5] = 3;
    let crc = crc::Crc::<u32>::new(&crc::CRC_32_JAMCRC).checksum(&other[..60]);
    other[60..].copy_from_slice(&crc.to_be_bytes());
    assert_eq!(Vid::decode(&other), None);
}

#[test]
fn record_decode_rejects_bad_names() {
    let record = VolTableRecord {
        name: "rootfs".to_string(),
        vol_type: VolType::Static,
        ..Default::default()
    };
    let bytes = record.to_bytes();
    assert_eq!(VolTableRecord::decode(&bytes[..171]), None);
    let reseal = |bytes: &mut Vec<u8>| {
        let crc = crc::Crc::<u32>::new(&crc::CRC_32_JAMCRC).checksum(&bytes[..168]);
        bytes[168..].copy_from_slice(&crc.to_be_bytes());
    };
    // A name that is not UTF-8.
    let mut broken = bytes.clone();
    broken[16] = 0xFF;
    reseal(&mut broken);
    assert_eq!(VolTableRecord::decode(&broken), None);
    // A name longer than its field.
    let mut broken = bytes.clone();
    broken[14] = 0;
    broken[15] = 129;
    reseal(&mut broken);
    assert_eq!(VolTableRecord::decode(&broken), None);
    // A name that fills its field.
    let full = VolTableRecord {
        name: "x".repeat(128),
        ..Default::default()
    };
    assert_eq!(VolTableRecord::decode(&full.to_bytes()), Some(full));
}

#[test]
fn encode_needs_room() {
    let mut buf = vec![0u8; 63];
    assert_eq!(sample_ec().encode(&mut buf), Err(Error::BadInput));
    assert_eq!(sample_vid().encode(&mut buf), Err(Error::BadInput));
    assert_eq!(buf, vec![0u8; 63]);
}

#[test]
fn header_builders() {
    let ec = sample_ec();
    assert_eq!(ec.ec(9).ec, 9);
    assert_eq!(ec.ec(9).image_seq, ec.image_seq);
    assert_eq!(ec.inc_ec().ec, 0x0102030405060709);
    assert_eq!(sample_vid().sqnum(77).sqnum, 77);
    assert_eq!(sample_vid().sqnum(77).lnum, 3);
    assert_eq!(<Ec as ParseHeader>::get_magic(), b"UBI#");
    assert_eq!(<Vid as ParseHeader>::get_magic(), b"UBI!");
    assert_eq!(VolType::Dynamic.to_u8(), 1);
    assert_eq!(VolType::Static.to_u8(), 2);
    assert_eq!(VolType::from_u8(2), Some(VolType::Static));
    assert_eq!(VolType::from_u8(0), None);
    assert_eq!(VolType::default(), VolType::Dynamic);
}
