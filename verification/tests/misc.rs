use bmc_installer::error::{Error, InstallError};
use bmc_installer::image::erofs_size;
use bmc_installer::nand::mtd::{erase_info_user, mtd_info_user};
use bmc_installer::turing_pi::board_info::BoardInfo;
use bmc_installer::turing_pi::led::LedState;
use std::time::Duration;

fn superblock() -> Vec<u8> {
    let mut sb = vec![0u8; 3072];
    sb[0..4].copy_from_slice(&0xE0F5E1E2u32.to_le_bytes());
    sb[12] = 12;
    sb[36..40].copy_from_slice(&0x0001_0000u32.to_le_bytes());
    sb[4..8].copy_from_slice(&0x4ce9a21cu32.to_le_bytes());
    sb
}

#[test]
fn erofs_size_probe() {
    let sb = superblock();
    assert_eq!(erofs_size(&sb), Ok(0x1000_0000));
    // Corrupting any byte outside the checksum field fails.
    for i in (0..4).chain(8..3072) {
        let mut broken = sb.clone();
        broken[i] ^= 0x04;
        assert_eq!(erofs_size(&broken), Err(Error::BadInput), "byte {}", i);
    }
    // And so does a wrong checksum, and a wrong size.
    let mut broken = sb.clone();
    broken[5] ^= 1;
    assert_eq!(erofs_size(&broken), Err(Error::BadInput));
    assert_eq!(erofs_size(&sb[..3071]), Err(Error::BadInput));
    let mut long = sb.clone();
    long.push(0);
    assert_eq!(erofs_size(&long), Err(Error::BadInput));
}

fn sealed(mut sb: Vec<u8>) -> Vec<u8> {
    sb[4..8].fill(0);
    let algorithm = crc::Algorithm {
        xorout: 0,
        ..crc::CRC_32_ISCSI
    };
    let mut crc: u32 = 0xFFFF_FFFF;
    for byte in &sb {
        crc ^= *byte as u32;
        for _ in 0..8 {
            crc = if crc & 1 == 1 {
                (crc >> 1) ^ 0x82F6_3B78
            } else {
                crc >> 1
            };
        }
    }
    assert_eq!(algorithm.xorout, 0);
    sb[4..8].copy_from_slice(&crc.to_le_bytes());
    sb
}

#[test]
fn erofs_size_fails_on_overflow() {
    let mut sb = superblock();
    sb[12] = 63;
    sb[36..40].copy_from_slice(&1u32.to_le_bytes());
    assert_eq!(erofs_size(&sealed(sb.clone())), Ok(1 << 63));
    // Three blocks of 2^63 bytes do not fit 64 bits.
    sb[36..40].copy_from_slice(&3u32.to_le_bytes());
    assert_eq!(erofs_size(&sealed(sb.clone())), Err(Error::BadInput));
    // Nor do 0x10000 blocks of 2^60 bytes.
    sb[12] = 60;
    sb[36..40].copy_from_slice(&0x0001_0000u32.to_le_bytes());
    assert_eq!(erofs_size(&sealed(sb.clone())), Err(Error::BadInput));
    sb[12] = 47;
    assert_eq!(erofs_size(&sealed(sb.clone())), Ok(1 << 63));
    sb[12] = 48;
    assert_eq!(erofs_size(&sealed(sb.clone())), Err(Error::BadInput));
    sb[12] = 64;
    sb[36..40].copy_from_slice(&0u32.to_le_bytes());
    assert_eq!(erofs_size(&sealed(sb.clone())), Err(Error::BadInput));
    sb[12] = 0;
    sb[36..40].copy_from_slice(&0xFFFF_FFFFu32.to_le_bytes());
    assert_eq!(erofs_size(&sealed(sb.clone())), Ok(0xFFFF_FFFF));
    sb[12] = 32;
    assert_eq!(erofs_size(&sealed(sb)), Ok(0xFFFF_FFFF_0000_0000));
}

#[test]
fn install_error_codes() {
    assert_eq!(InstallError::EmptyBuffer.error_code(), 0);
    assert_eq!(InstallError::Anyhow.error_code(), 1);
    assert_eq!(InstallError::Io.error_code(), 2);
    assert_eq!(Error::FlashFull.describe(), "flash is full");
    assert_eq!(Error::BadBlock.describe(), "unhandled bad block encountered");
}

#[test]
fn led_states() {
    let d = Duration::from_millis(66);
    assert_eq!(LedState::On(d).get_duration(), d);
    assert_eq!(LedState::Off(d).get_duration(), d);
    assert_eq!(LedState::On(d).get_leds(), (true, [true; 4]));
    assert_eq!(LedState::Off(d).get_leds(), (false, [false; 4]));
    let custom = LedState::Custom(d, true, [false, true, false, false]);
    assert_eq!(custom.get_duration(), d);
    assert_eq!(custom.get_leds(), (true, [false, true, false, false]));
}

fn info(size: u32, erasesize: u32, writesize: u32) -> mtd_info_user {
    mtd_info_user {
        kind: 4,
        flags: 0,
        size,
        erasesize,
        writesize,
        oobsize: 64,
        padding: 0,
    }
}

#[test]
fn layout_from_mtd_info() {
    let layout = info(128 << 20, 128 << 10, 2048).try_into_layout().unwrap();
    assert_eq!(
        (layout.blocks, layout.pages_per_block, layout.bytes_per_page),
        (1024, 64, 2048)
    );
    // A write size of 1 stands for pages of 64 bytes.
    let layout = info(1 << 20, 1 << 16, 1).try_into_layout().unwrap();
    assert_eq!(
        (layout.blocks, layout.pages_per_block, layout.bytes_per_page),
        (16, 1024, 64)
    );
    assert!(info(1000, 300, 100).try_into_layout().is_err());
    assert!(info(900, 300, 200).try_into_layout().is_err());
    assert!(info(900, 0, 100).try_into_layout().is_err());
    assert!(info(900, 300, 0).try_into_layout().is_err());
    let region = erase_info_user {
        start: 4096,
        length: 2048,
    };
    assert_eq!(region.start + region.length, 6144);
}

#[test]
fn board_info_from_and_to_bytes() {
    let bytes: Vec<u8> = (1u8..=50).collect();
    let info = BoardInfo::from_bytes(&bytes).unwrap();
    assert_eq!(info.reserved, 0x0102);
    assert_eq!(info.crc32, 0x03040506);
    assert_eq!(info.hdr_version, 0x0708);
    assert_eq!(info.hw_version, 0x090A);
    assert_eq!(info.factory_date, 0x0B0C);
    assert_eq!(info.factory_serial, [13, 14, 15, 16, 17, 18, 19, 20]);
    assert_eq!(info.product_name[0], 21);
    assert_eq!(info.product_name[15], 36);
    assert_eq!(info.mac, [37, 38, 39, 40, 41, 42]);
    assert_eq!(info.to_bytes(), bytes[..42]);
    assert!(BoardInfo::from_bytes(&bytes[..41]).is_err());
}
