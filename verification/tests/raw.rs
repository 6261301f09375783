use bmc_installer::error::Error;
use bmc_installer::format::raw::{check_raw_block, update_raw_block, write_raw_image};
use bmc_installer::format::{is_boot0, purge_boot0};
use bmc_installer::nand::{Nand, NandBlock, NandLayout, PageUtil, SimNand};

const TEST_LAYOUT: NandLayout = NandLayout {
    blocks: 1,
    pages_per_block: 43,
    bytes_per_page: 128,
};

fn test_data() -> Vec<u8> {
    // 10 pages of data, 20 empty, 10 more of data
    (0..128 * 40)
        .map(|i: usize| match i / 128 {
            0..=9 => (i * 23) as u8,
            30..=39 => (i * 11) as u8,
            _ => 0xFF,
        })
        .collect()
}

#[test]
fn test_check_raw_block() {
    let mut nand = SimNand::new(TEST_LAYOUT);
    let block = nand.block(0).unwrap().unwrap();

    assert_eq!(check_raw_block(&*block, &[]), Some(0));
    assert_eq!(check_raw_block(&*block, &[0xFF, 0xFF]), Some(1));
    assert_eq!(check_raw_block(&*block, &[0xFF, 0x7F]), Some(0));

    // Generate a bunch of test data: 10 pages of data, 20 empty, 10 more of data
    let mut test_data = test_data();

    // Program only first 35 blocks
    block.program(0, &test_data[..35 * 128]).unwrap();

    assert_eq!(check_raw_block(&*block, &test_data[..128 * 5]), Some(5));
    assert_eq!(check_raw_block(&*block, &test_data[..128 * 15]), Some(15));
    assert_eq!(check_raw_block(&*block, &test_data), Some(35));

    test_data[25 * 128] = 0x00;
    assert_eq!(check_raw_block(&*block, &test_data), None);
}

#[test]
fn test_update_raw_block() {
    let mut nand = SimNand::new(TEST_LAYOUT);
    let block = nand.block(0).unwrap().unwrap();

    update_raw_block(block, &[]).unwrap();
    update_raw_block(block, &[0xAA]).unwrap();
}

#[test]
fn check_of_erased_pages_on_an_erased_block() {
    let mut nand = SimNand::new(TEST_LAYOUT);
    let block = nand.block(0).unwrap().unwrap();
    for k in [0usize, 1, 7, 8, 9, 42, 43] {
        assert_eq!(
            check_raw_block(&*block, &vec![0xFFu8; k * 128]),
            Some(k as u32)
        );
    }
    // More pages than the block has are never all in it.
    assert_eq!(check_raw_block(&*block, &vec![0xFFu8; 44 * 128]), None);
}

#[test]
fn any_flipped_byte_in_the_written_prefix_needs_an_erase() {
    let mut nand = SimNand::new(TEST_LAYOUT);
    let block = nand.block(0).unwrap().unwrap();
    let test_data = test_data();
    block.program(0, &test_data[..35 * 128]).unwrap();
    for at in [0usize, 127, 128, 9 * 128 + 5, 10 * 128, 29 * 128 + 127, 30 * 128, 35 * 128 - 1] {
        let mut changed = test_data.clone();
        changed[at] ^= 0x10;
        assert_eq!(check_raw_block(&*block, &changed), None, "byte {}", at);
    }
    // Behind the written prefix a difference is where the write resumes.
    let mut changed = test_data.clone();
    changed[35 * 128] ^= 0x10;
    assert_eq!(check_raw_block(&*block, &changed), Some(35));
}

#[test]
fn update_resumes_and_then_changes_nothing() {
    let mut nand = SimNand::new(TEST_LAYOUT);
    let test_data = test_data();
    {
        let block = nand.block(0).unwrap().unwrap();
        block.program(0, &test_data[..12 * 128]).unwrap();
        update_raw_block(block, &test_data[..40 * 128 - 3]).unwrap();
        assert_eq!(
            check_raw_block(&*block, &test_data[..40 * 128 - 3]),
            Some(40)
        );
        let mut out = vec![0u8; 43 * 128];
        block.read(0, &mut out).unwrap();
        assert_eq!(out[..40 * 128 - 3], test_data[..40 * 128 - 3]);
        assert!(out[40 * 128 - 3..].is_erased());
    }
    let image = nand.save().unwrap();
    update_raw_block(nand.block(0).unwrap().unwrap(), &test_data[..40 * 128 - 3]).unwrap();
    assert_eq!(nand.save().unwrap(), image);
    // Other data needs an erase, and gets it.
    let other = vec![0x42u8; 130];
    update_raw_block(nand.block(0).unwrap().unwrap(), &other).unwrap();
    let mut out = vec![0u8; 43 * 128];
    nand.block(0).unwrap().unwrap().read(0, &mut out).unwrap();
    assert_eq!(out[..130], other[..]);
    assert!(out[130..].is_erased());
    // Data that is longer than the block is refused.
    assert!(update_raw_block(nand.block(0).unwrap().unwrap(), &vec![1u8; 43 * 128 + 1]).is_err());
}

const IMAGE_LAYOUT: NandLayout = NandLayout {
    blocks: 8,
    pages_per_block: 4,
    bytes_per_page: 16,
};

fn image(blocks: usize, tail: usize) -> Vec<u8> {
    (0..blocks * 64 + tail).map(|i| (i * 7 + 1) as u8).collect()
}

fn block_bytes(nand: &mut SimNand, index: u32) -> Vec<u8> {
    let mut out = vec![0u8; 64];
    nand.block(index).unwrap().unwrap().read(0, &mut out).unwrap();
    out
}

#[test]
fn raw_image_twice_writes_once() {
    let mut nand = SimNand::new(IMAGE_LAYOUT);
    let data = image(3, 5);
    let mut source: &[u8] = &data;
    write_raw_image(&mut nand, &mut source, false).unwrap();
    assert!(source.is_empty());
    for j in 0..3 {
        assert_eq!(block_bytes(&mut nand, j), data[j as usize * 64..][..64]);
        assert_eq!(
            check_raw_block(&*nand.block(j).unwrap().unwrap(), &data[j as usize * 64..][..64]),
            Some(4)
        );
    }
    let last = block_bytes(&mut nand, 3);
    assert_eq!(last[..5], data[192..]);
    assert!(last[5..].is_erased());
    assert!(block_bytes(&mut nand, 4).is_erased());
    let written = nand.save().unwrap();
    let mut source: &[u8] = &data;
    write_raw_image(&mut nand, &mut source, false).unwrap();
    assert_eq!(nand.save().unwrap(), written);
}

#[test]
fn raw_image_resume() {
    // An image of two blocks; block 0 is programmed, block 1 only erased.
    let mut nand = SimNand::new(IMAGE_LAYOUT);
    let data = image(2, 0);
    nand.block(0).unwrap().unwrap().program(0, &data[..64]).unwrap();
    nand.block(1).unwrap().unwrap().erase().unwrap();
    let mut source: &[u8] = &data;
    write_raw_image(&mut nand, &mut source, false).unwrap();
    assert_eq!(block_bytes(&mut nand, 0), data[..64]);
    assert_eq!(block_bytes(&mut nand, 1), data[64..]);
    // Block 0 was not erased: it takes no write at its start.
    assert!(nand.block(0).unwrap().unwrap().program(0, &data[..16]).is_err());
}

#[test]
fn bad_block_tolerance() {
    let mut nand = SimNand::new(IMAGE_LAYOUT);
    nand.block(3).unwrap().unwrap().mark_bad().unwrap();
    let data = image(5, 0);
    let mut source: &[u8] = &data;
    write_raw_image(&mut nand, &mut source, true).unwrap();
    for (j, block) in [0u32, 1, 2, 4, 5].into_iter().enumerate() {
        assert_eq!(block_bytes(&mut nand, block), data[j * 64..][..64]);
    }
    assert!(nand.block(3).unwrap().is_none());
    assert!(block_bytes(&mut nand, 6).is_erased());
    // Without the tolerance the bad block is an error.
    let mut fresh = SimNand::new(IMAGE_LAYOUT);
    fresh.block(3).unwrap().unwrap().mark_bad().unwrap();
    let mut source: &[u8] = &data;
    assert_eq!(
        write_raw_image(&mut fresh, &mut source, false),
        Err(Error::BadBlock)
    );
    assert_eq!(block_bytes(&mut fresh, 2), data[128..][..64]);
    assert!(block_bytes(&mut fresh, 4).is_erased());
}

#[test]
fn raw_image_that_does_not_fit() {
    let mut nand = SimNand::new(IMAGE_LAYOUT);
    let data = image(8, 1);
    let mut source: &[u8] = &data;
    assert_eq!(write_raw_image(&mut nand, &mut source, true), Err(Error::Io));
    let empty: Vec<u8> = Vec::new();
    let mut fresh = SimNand::new(IMAGE_LAYOUT);
    let mut source: &[u8] = &empty;
    write_raw_image(&mut fresh, &mut source, false).unwrap();
    assert!(fresh.save().unwrap().is_erased());
}

fn boot0_header(spl: bool) -> Vec<u8> {
    let mut page = vec![0u8; 16];
    page[4..12].copy_from_slice(b"eGON.BT0");
    page.extend_from_slice(&[0u8; 48]);
    if spl {
        page[0x14..0x17].copy_from_slice(b"SPL");
    }
    page
}

#[test]
fn boot0_is_told_from_spl() {
    assert_eq!(is_boot0(&boot0_header(false)), Some(true));
    assert_eq!(is_boot0(&boot0_header(true)), Some(false));
    assert_eq!(is_boot0(&[0u8; 64]), Some(false));
    assert_eq!(is_boot0(&boot0_header(false)[..12]), None);
    assert_eq!(is_boot0(&boot0_header(false)[..22]), None);
    assert_eq!(is_boot0(&boot0_header(false)[..23]), Some(true));
    assert_eq!(is_boot0(&[0u8; 12]), Some(false));
    assert_eq!(is_boot0(&[0u8; 11]), None);
}

#[test]
fn purge_erases_boot0_only() {
    let layout = NandLayout {
        blocks: 4,
        pages_per_block: 4,
        bytes_per_page: 64,
    };
    let mut nand = SimNand::new(layout);
    nand.block(0).unwrap().unwrap().program(0, &boot0_header(false)).unwrap();
    nand.block(1).unwrap().unwrap().program(0, &boot0_header(true)).unwrap();
    nand.block(2).unwrap().unwrap().mark_bad().unwrap();
    nand.block(3).unwrap().unwrap().program(1, &boot0_header(false)).unwrap();
    assert_eq!(purge_boot0(&mut nand), Ok(true));
    let mut out = vec![0u8; 256];
    nand.block(0).unwrap().unwrap().read(0, &mut out).unwrap();
    assert!(out.is_erased());
    nand.block(1).unwrap().unwrap().read(0, &mut out).unwrap();
    assert_eq!(out[..64], boot0_header(true)[..]);
    nand.block(3).unwrap().unwrap().read(0, &mut out).unwrap();
    assert_eq!(out[64..128], boot0_header(false)[..]);
    assert_eq!(purge_boot0(&mut nand), Ok(false));
}

#[test]
fn raw_image_needs_a_good_block_for_each_piece() {
    let mut nand = SimNand::new(IMAGE_LAYOUT);
    for bad in [0u32, 2, 7] {
        nand.block(bad).unwrap().unwrap().mark_bad().unwrap();
    }
    // Five good blocks are left.
    let data = image(5, 0);
    let mut source: &[u8] = &data;
    write_raw_image(&mut nand, &mut source, true).unwrap();
    for (j, block) in [1u32, 3, 4, 5, 6].into_iter().enumerate() {
        assert_eq!(block_bytes(&mut nand, block), data[j * 64..][..64]);
    }
    let mut nand = SimNand::new(IMAGE_LAYOUT);
    for bad in [0u32, 2, 7] {
        nand.block(bad).unwrap().unwrap().mark_bad().unwrap();
    }
    let data = image(5, 1);
    let mut source: &[u8] = &data;
    assert!(write_raw_image(&mut nand, &mut source, true).is_err());
}

#[test]
fn raw_image_error_leaves_the_rest_alone() {
    let mut nand = SimNand::new(IMAGE_LAYOUT);
    nand.block(1).unwrap().unwrap().mark_bad().unwrap();
    nand.block(5)
        .unwrap()
        .unwrap()
        .program(2, &[0x33u8; 16])
        .unwrap();
    let data = image(3, 0);
    let mut source: &[u8] = &data;
    assert_eq!(
        write_raw_image(&mut nand, &mut source, false),
        Err(Error::BadBlock)
    );
    // The piece before the bad block is written, and nothing behind it is
    // touched.
    assert_eq!(block_bytes(&mut nand, 0), data[..64]);
    assert!(nand.block(1).unwrap().is_none());
    assert!(block_bytes(&mut nand, 2).is_erased());
    let kept = block_bytes(&mut nand, 5);
    assert!(kept[..32].is_erased());
    assert_eq!(kept[32..48], [0x33u8; 16]);
    assert!(kept[48..].is_erased());
}

#[test]
fn raw_image_passes_over_bad_blocks_only() {
    let mut nand = SimNand::new(IMAGE_LAYOUT);
    nand.block(0).unwrap().unwrap().mark_bad().unwrap();
    let data = image(2, 3);
    // Block 2 holds the second piece already, block 3 a part of the third.
    nand.block(2).unwrap().unwrap().program(0, &data[64..128]).unwrap();
    let before = nand.save().unwrap();
    let mut source: &[u8] = &data;
    write_raw_image(&mut nand, &mut source, true).unwrap();
    assert!(nand.block(0).unwrap().is_none());
    assert_eq!(block_bytes(&mut nand, 1), data[..64]);
    assert_eq!(block_bytes(&mut nand, 2), data[64..128]);
    let last = block_bytes(&mut nand, 3);
    assert_eq!(last[..3], data[128..]);
    assert!(last[3..].is_erased());
    let after = nand.save().unwrap();
    // Nothing but blocks 1 and 3 has changed.
    assert_eq!(after[..64], before[..64]);
    assert_eq!(after[128..192], before[128..192]);
    assert_eq!(after[256..], before[256..]);
}

#[test]
fn check_of_no_data_matches_at_once() {
    let mut nand = SimNand::new(IMAGE_LAYOUT);
    nand.block(0).unwrap().unwrap().program(1, &[7u8; 16]).unwrap();
    assert_eq!(check_raw_block(&*nand.block(0).unwrap().unwrap(), &[]), Some(0));
}
