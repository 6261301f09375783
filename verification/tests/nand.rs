use bmc_installer::nand::{Nand, NandBlock, NandLayout, PageUtil, SimNand};

const TEST_LAYOUT: NandLayout = NandLayout {
    blocks: 8,
    pages_per_block: 16,
    bytes_per_page: 256,
};

#[test]
fn test_sim_block() {
    let mut nand = SimNand::new(TEST_LAYOUT);
    assert!(nand.block(0).unwrap().is_some());
    assert!(nand.block(TEST_LAYOUT.blocks - 1).unwrap().is_some());
    assert!(nand.block(TEST_LAYOUT.blocks).is_err());
}

#[test]
fn test_sim_mark_bad() {
    let mut nand = SimNand::new(TEST_LAYOUT);
    assert!(nand.block(0).unwrap().is_some());
    nand.block(0).unwrap().unwrap().mark_bad().unwrap();
    assert!(nand.block(0).unwrap().is_none());
}

#[test]
fn test_sim_read_write() {
    let mut nand = SimNand::new(TEST_LAYOUT);

    let data_in = vec![0xA5u8; nand.get_layout().bytes_per_page];
    let mut data_out = data_in.clone();

    let block = nand.block(0).unwrap().unwrap();
    block.program(2, &data_in).unwrap();
    assert!(block.program(1, &data_in).is_err());

    block.read(1, &mut data_out).unwrap();
    assert!(data_out.is_erased());

    block.read(2, &mut data_out).unwrap();
    assert_eq!(data_out, data_in);

    block.read(3, &mut data_out).unwrap();
    assert!(data_out.is_erased());
}

#[test]
fn test_sim_load() {
    let mut nand = SimNand::new(TEST_LAYOUT);
    let size = nand.get_layout().bytes_per_page * nand.get_layout().pages_per_block as usize;
    let image = vec![0x55u8; size * nand.get_layout().blocks as usize];
    nand.load(&image).unwrap();

    let mut buf = vec![0u8; size];

    let block = nand.block(0).unwrap().unwrap();
    block.read(0, &mut buf).unwrap();

    assert!(buf.iter().all(|&x| x == 0x55u8));
}

#[test]
fn sim_geometry() {
    let mut nand = SimNand::new(TEST_LAYOUT);
    let block = nand.block(3).unwrap().unwrap();
    assert_eq!(block.page_count(), 16);
    assert_eq!(block.page_size(), 256);
}

#[test]
fn sim_erased_page_is_no_op() {
    let mut nand = SimNand::new(TEST_LAYOUT);
    let erased = vec![0xFFu8; 256];
    let data = vec![0x12u8; 256];
    let block = nand.block(1).unwrap().unwrap();
    // An erased page freezes nothing.
    block.program(5, &erased).unwrap();
    block.program(2, &data).unwrap();
    // A programmed page freezes itself and the pages before it.
    assert!(block.program(2, &data).is_err());
    assert!(block.program(0, &erased).is_err());
    block.program(3, &erased).unwrap();
    let mut out = vec![0u8; 256];
    block.read(2, &mut out).unwrap();
    assert_eq!(out, data);
    block.erase().unwrap();
    block.read(2, &mut out).unwrap();
    assert!(out.is_erased());
    block.program(0, &data).unwrap();
}

#[test]
fn sim_program_stops_at_the_end() {
    let mut nand = SimNand::new(TEST_LAYOUT);
    let data = vec![0x34u8; 3 * 256];
    let block = nand.block(0).unwrap().unwrap();
    // Two pages fit behind page 14; the third does not.
    assert!(block.program(14, &data).is_err());
    let mut out = vec![0u8; 2 * 256];
    block.read(14, &mut out).unwrap();
    assert!(out.iter().all(|&x| x == 0x34));
    // Neither does anything fit behind the block.
    assert!(block.read(15, &mut out).is_err());
    assert!(block.read(16, &mut out[..256]).is_err());
}

#[test]
fn sim_rejects_cut_pages() {
    let mut nand = SimNand::new(TEST_LAYOUT);
    let block = nand.block(0).unwrap().unwrap();
    let data = vec![0x77u8; 300];
    assert!(block.program(0, &data).is_err());
    let mut out = vec![0u8; 256];
    block.read(0, &mut out).unwrap();
    assert!(out.iter().all(|&x| x == 0x77));
    let mut short = vec![0u8; 100];
    assert!(block.read(0, &mut short).is_err());
    // Nothing is asked of the block by an empty buffer.
    block.program(0, &[]).unwrap();
    block.read(0, &mut []).unwrap();
}

#[test]
fn sim_save_marks_bad_blocks() {
    let layout = NandLayout {
        blocks: 3,
        pages_per_block: 2,
        bytes_per_page: 4,
    };
    let mut nand = SimNand::new(layout);
    nand.block(0)
        .unwrap()
        .unwrap()
        .program(0, &[1, 2, 3, 4])
        .unwrap();
    nand.block(1).unwrap().unwrap().mark_bad().unwrap();
    let image = nand.save().unwrap();
    assert_eq!(
        image,
        vec![
            1, 2, 3, 4, 0xFF, 0xFF, 0xFF, 0xFF, 0xBD, 0xBD, 0xBD, 0xBD, 0xBD, 0xBD, 0xBD, 0xBD,
            0xFF, 0xFF, 0xFF, 0xFF, 0xFF, 0xFF, 0xFF, 0xFF,
        ]
    );
}

#[test]
fn sim_load_then_save() {
    let layout = NandLayout {
        blocks: 2,
        pages_per_block: 2,
        bytes_per_page: 4,
    };
    let mut nand = SimNand::new(layout);
    nand.block(1).unwrap().unwrap().mark_bad().unwrap();
    let image: Vec<u8> = (0u8..16).collect();
    nand.load(&image).unwrap();
    // Loading clears the marks.
    assert!(nand.block(1).unwrap().is_some());
    assert_eq!(nand.save().unwrap(), image);
    // A block that holds data takes no second load.
    assert!(nand.load(&image).is_err());
    // An image that is too short fails.
    let mut fresh = SimNand::new(layout);
    assert!(fresh.load(&image[..15]).is_err());
}
