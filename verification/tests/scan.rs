use bmc_installer::nand::{Nand, NandBlock, NandLayout, SimNand};
use bmc_installer::ubi::format::{
    compute_prototype, counters_in_range, erase_action, migrate_superblock_action, plan_format,
    FormatAction,
};
use bmc_installer::ubi::headers::{Ec, Vid};
use bmc_installer::ubi::format::FormatAction::{Erase, Ignore, Write};
use bmc_installer::ubi::scan::BlockContent;
use bmc_installer::ubi::scan::BlockContent::{Bad, EcData, EcErased, Erased, Garbage, RawVid};
use bmc_installer::ubi::scan_blocks;

const TEST_LAYOUT: NandLayout = NandLayout {
    blocks: 16,
    pages_per_block: 16,
    bytes_per_page: 128,
};

#[test]
fn test_scan() {
    let mut nand = SimNand::new(TEST_LAYOUT);

    // Confirm that, on a fresh NAND, every block scans as "erased"
    let blocks = scan_blocks(&mut nand).unwrap();
    assert_eq!(blocks.len(), nand.get_layout().blocks as usize);
    assert!(blocks.iter().all(|&x| x == BlockContent::Erased));

    // Now modify several blocks for various states:
    let desired_content = [
        Bad,
        Erased,
        EcErased(Default::default()),
        EcData(Default::default(), None),
        RawVid(Default::default()),
        Garbage,
        EcErased(Default::default()),
        Erased,
        Garbage,
        EcData(Default::default(), Some(Default::default())),
        Erased,
        Bad,
        RawVid(Default::default()),
    ];

    let mut buf = vec![0; nand.get_layout().bytes_per_page];
    for (i, content) in desired_content.iter().enumerate() {
        let block = nand.block(i as u32).unwrap().unwrap();
        match content {
            Bad => block.mark_bad().unwrap(),
            Erased => block.erase().unwrap(),
            EcErased(ec) => {
                ec.encode(&mut buf).unwrap();
                block.program(0, &buf).unwrap();
            }
            EcData(ec, vid) => {
                ec.encode(&mut buf).unwrap();
                block.program(0, &buf).unwrap();
                if let Some(vid) = vid {
                    vid.encode(&mut buf).unwrap();
                    block.program(1, &buf).unwrap();
                }
                buf.fill(0xAA);
                block.program(i as u32, &buf).unwrap();
            }
            RawVid(vid) => {
                vid.encode(&mut buf).unwrap();
                block.program(0, &buf).unwrap();
            }
            Garbage => {
                buf.fill(0xAA);
                block.program(i as u32, &buf).unwrap();
            }
        }
    }

    // Now scan it again
    let blocks = scan_blocks(&mut nand).unwrap();
    assert_eq!(blocks[..desired_content.len()], desired_content);
}

#[test]
fn test_format_blank() {
    let mut nand = SimNand::new(TEST_LAYOUT);

    let mut ebt = scan_blocks(&mut nand).unwrap();
    bmc_installer::ubi::format::format(&mut nand, &mut ebt).unwrap();

    // Make sure `format` updated `ebt`:
    let ebt2 = scan_blocks(&mut nand).unwrap();
    assert_eq!(ebt, ebt2);
}

fn proto() -> Ec {
    Ec {
        ec: 1,
        vid_hdr_offset: 128,
        data_offset: 256,
        image_seq: 0,
    }
}

#[test]
fn blank_nand_install() {
    let mut nand = SimNand::new(TEST_LAYOUT);
    let mut ebt = scan_blocks(&mut nand).unwrap();
    bmc_installer::ubi::format::format(&mut nand, &mut ebt).unwrap();
    assert_eq!(ebt, vec![BlockContent::EcErased(proto()); 16]);
    assert_eq!(scan_blocks(&mut nand).unwrap(), ebt);
}

fn write_block(nand: &mut SimNand, index: u32, ec: Option<Ec>, vid_at: Option<u32>, data_at: Option<u32>) {
    let size = nand.get_layout().bytes_per_page;
    let block = nand.block(index).unwrap().unwrap();
    let mut buf = vec![0u8; size];
    if let Some(ec) = ec {
        ec.encode(&mut buf).unwrap();
        block.program(0, &buf).unwrap();
    }
    if let Some(page) = vid_at {
        let mut buf = vec![0u8; size];
        Vid::default().sqnum(index as u64).encode(&mut buf).unwrap();
        block.program(page, &buf).unwrap();
    }
    if let Some(page) = data_at {
        block.program(page, &vec![0x5Au8; size]).unwrap();
    }
}

#[test]
fn legacy_layout_migration() {
    let mut nand = SimNand::new(TEST_LAYOUT);
    let old = Ec {
        ec: 5,
        vid_hdr_offset: 256,
        data_offset: 512,
        image_seq: 0x99,
    };
    for pair in 0..8 {
        write_block(&mut nand, 2 * pair, Some(old), Some(1), Some(2));
        write_block(&mut nand, 2 * pair + 1, None, Some(0), None);
    }
    let mut ebt = scan_blocks(&mut nand).unwrap();
    for pair in 0..8 {
        assert_eq!(
            ebt[2 * pair],
            BlockContent::EcData(old, Some(Vid::default().sqnum(2 * pair as u64)))
        );
        assert_eq!(
            ebt[2 * pair + 1],
            BlockContent::RawVid(Vid::default().sqnum(2 * pair as u64 + 1))
        );
    }
    bmc_installer::ubi::format::format(&mut nand, &mut ebt).unwrap();
    let new = Ec {
        ec: 0,
        vid_hdr_offset: 128,
        data_offset: 256,
        image_seq: 0x99,
    };
    for pair in 0..8 {
        assert_eq!(ebt[2 * pair], BlockContent::EcErased(new.ec(6)));
        assert_eq!(ebt[2 * pair + 1], BlockContent::EcErased(new.ec(6)));
    }
    assert_eq!(scan_blocks(&mut nand).unwrap(), ebt);
}

#[test]
fn migration_copies_the_counter_to_an_erased_odd_block() {
    let mut nand = SimNand::new(NandLayout {
        blocks: 4,
        pages_per_block: 8,
        bytes_per_page: 128,
    });
    let old = Ec {
        ec: 5,
        vid_hdr_offset: 128,
        data_offset: 256,
        image_seq: 7,
    };
    write_block(&mut nand, 0, Some(old), None, Some(2));
    write_block(&mut nand, 2, Some(old.ec(40)), None, None);
    write_block(&mut nand, 3, None, Some(0), None);
    let mut ebt = scan_blocks(&mut nand).unwrap();
    assert_eq!(ebt[1], BlockContent::Erased);
    bmc_installer::ubi::format::format(&mut nand, &mut ebt).unwrap();
    assert_eq!(
        ebt,
        vec![
            BlockContent::EcErased(old.ec(6)),
            BlockContent::EcErased(old.ec(5)),
            BlockContent::EcErased(old.ec(40)),
            BlockContent::EcErased(old.ec(41)),
        ]
    );
    assert_eq!(scan_blocks(&mut nand).unwrap(), ebt);
}

#[test]
fn format_twice_changes_nothing() {
    let mut nand = SimNand::new(TEST_LAYOUT);
    let a = Ec {
        ec: 10,
        vid_hdr_offset: 128,
        data_offset: 256,
        image_seq: 3,
    };
    let b = Ec {
        ec: 20,
        vid_hdr_offset: 64,
        data_offset: 128,
        image_seq: 4,
    };
    write_block(&mut nand, 0, Some(a), None, None);
    write_block(&mut nand, 1, Some(a), Some(1), Some(2));
    write_block(&mut nand, 2, Some(b), None, None);
    write_block(&mut nand, 3, None, None, Some(5));
    write_block(&mut nand, 4, Some(a.ec(31)), None, None);
    nand.block(5).unwrap().unwrap().mark_bad().unwrap();
    let mut ebt = scan_blocks(&mut nand).unwrap();
    bmc_installer::ubi::format::format(&mut nand, &mut ebt).unwrap();
    let first = scan_blocks(&mut nand).unwrap();
    assert_eq!(first, ebt);
    // The mean of 10, 10, 20 and 31 is 17.75, which rounds to 18.
    let p = a.ec(18);
    assert_eq!(ebt[0], BlockContent::EcErased(a));
    assert_eq!(ebt[1], BlockContent::EcErased(a.ec(11)));
    assert_eq!(ebt[2], BlockContent::EcErased(p.ec(21)));
    assert_eq!(ebt[3], BlockContent::EcErased(p));
    assert_eq!(ebt[4], BlockContent::EcErased(a.ec(31)));
    assert_eq!(ebt[5], BlockContent::Bad);
    assert_eq!(ebt[6], BlockContent::EcErased(p));
    let image = nand.save().unwrap();
    bmc_installer::ubi::format::format(&mut nand, &mut ebt).unwrap();
    assert_eq!(ebt, first);
    assert_eq!(nand.save().unwrap(), image);
    assert_eq!(scan_blocks(&mut nand).unwrap(), first);
}

#[test]
fn scan_looks_at_the_first_pages_only_behind_an_ec_header() {
    let mut nand = SimNand::new(TEST_LAYOUT);
    let ec = proto();
    // Data in page 3 is seen, data in page 4 is not.
    write_block(&mut nand, 0, Some(ec), None, Some(3));
    write_block(&mut nand, 1, Some(ec), None, Some(4));
    // A VID header counts in page 1 only.
    write_block(&mut nand, 2, Some(ec), Some(2), None);
    write_block(&mut nand, 3, Some(ec), Some(1), None);
    // Without an EC header every page is looked at.
    write_block(&mut nand, 4, None, None, Some(15));
    let ebt = scan_blocks(&mut nand).unwrap();
    assert_eq!(ebt[0], BlockContent::EcData(ec, None));
    assert_eq!(ebt[1], BlockContent::EcErased(ec));
    assert_eq!(ebt[2], BlockContent::EcData(ec, None));
    assert_eq!(
        ebt[3],
        BlockContent::EcData(ec, Some(Vid::default().sqnum(3)))
    );
    assert_eq!(ebt[4], BlockContent::Garbage);
    let block = nand.block(3).unwrap().unwrap();
    assert_eq!(
        BlockContent::scan_block(&*block),
        Ok(BlockContent::EcData(ec, Some(Vid::default().sqnum(3))))
    );
}

#[test]
fn prototype_is_mean_and_mode() {
    let layout = TEST_LAYOUT;
    let e = |ec: u64, image_seq: u32| Ec {
        ec,
        vid_hdr_offset: 1,
        data_offset: 2,
        image_seq,
    };
    assert_eq!(compute_prototype(layout, &[]), Ok(proto()));
    assert_eq!(
        compute_prototype(layout, &[BlockContent::Erased, BlockContent::Bad]),
        Ok(proto())
    );
    let blocks = [
        BlockContent::EcErased(e(1, 7)),
        BlockContent::EcData(e(2, 9), None),
        BlockContent::RawVid(Vid::default()),
        BlockContent::EcErased(e(2, 9)),
        BlockContent::EcErased(e(1, 7)),
        BlockContent::Garbage,
        BlockContent::EcErased(e(1, 8)),
    ];
    // The sum is 7 and the count 5: (7 + 2) / 5 = 1. Of the two image
    // sequence numbers with two votes, the one seen first wins.
    assert_eq!(
        compute_prototype(layout, &blocks),
        Ok(Ec {
            ec: 1,
            vid_hdr_offset: 128,
            data_offset: 256,
            image_seq: 7
        })
    );
    // (3 + 1) / 2 = 2: a half rounds up.
    let blocks = [
        BlockContent::EcErased(e(1, 1)),
        BlockContent::EcErased(e(2, 2)),
        BlockContent::EcErased(e(0, 2)),
    ];
    assert_eq!(compute_prototype(layout, &blocks).unwrap().image_seq, 2);
    assert_eq!(
        compute_prototype(layout, &blocks[..2]).unwrap().ec,
        2
    );
    // Counters whose sum does not fit 64 bits.
    let blocks = [
        BlockContent::EcErased(e(u64::MAX, 1)),
        BlockContent::EcErased(e(u64::MAX - 1, 1)),
    ];
    assert_eq!(compute_prototype(layout, &blocks).unwrap().ec, u64::MAX);
    assert!(!counters_in_range(&blocks));
    assert!(counters_in_range(&blocks[1..]));
    // A page whose offsets do not fit their fields.
    let huge = NandLayout {
        blocks: 1,
        pages_per_block: 1,
        bytes_per_page: 0x8000_0000,
    };
    assert!(compute_prototype(huge, &[]).is_err());
}

#[test]
fn actions_follow_the_tables() {
    let p = proto();
    let same = p.ec(9);
    let other = Ec {
        ec: 9,
        vid_hdr_offset: 64,
        data_offset: 128,
        image_seq: 0,
    };
    let vid = Vid::default();
    assert_eq!(erase_action(Bad, p), Ignore);
    assert_eq!(erase_action(EcErased(same), p), Ignore);
    assert_eq!(erase_action(Erased, p), Write(p));
    assert_eq!(erase_action(EcErased(other), p), Erase(p.ec(10)));
    assert_eq!(erase_action(EcData(same, Some(vid)), p), Erase(p.ec(10)));
    assert_eq!(erase_action(RawVid(vid), p), Erase(p));
    assert_eq!(erase_action(Garbage, p), Erase(p));

    let even = EcData(p.ec(3), None);
    for (odd, action) in [
        (Bad, Ignore),
        (EcErased(same), Ignore),
        (EcErased(other), Erase(p.ec(10))),
        (EcData(same, None), Erase(p.ec(10))),
        (Erased, Write(p.ec(3))),
        (RawVid(vid), Erase(p.ec(4))),
        (Garbage, Erase(p.ec(4))),
    ] {
        assert_eq!(
            migrate_superblock_action(even, odd, p),
            [Erase(p.ec(4)), action]
        );
        assert_eq!(
            migrate_superblock_action(EcErased(other.ec(3)), odd, p)[1],
            action
        );
    }
    for even in [Bad, Erased, RawVid(vid), Garbage] {
        assert_eq!(migrate_superblock_action(even, Erased, p)[1], Write(p));
        assert_eq!(migrate_superblock_action(even, RawVid(vid), p)[1], Erase(p));
        assert_eq!(migrate_superblock_action(even, Garbage, p)[1], Erase(p));
        assert_eq!(migrate_superblock_action(even, Bad, p)[1], Ignore);
    }
}

#[test]
fn migration_leaves_the_legacy_blocks_for_last() {
    let p = proto();
    let vid = Vid::default();
    let ebt = [
        Garbage,
        Erased,
        EcData(p.ec(2), None),
        RawVid(vid),
        EcErased(p.ec(8)),
        Erased,
        RawVid(vid),
        Garbage,
        Garbage,
    ];
    let work: Vec<(u32, FormatAction)> = plan_format(&ebt, p).into_iter().collect();
    assert_eq!(
        work,
        vec![
            (8, Erase(p)),
            (5, Write(p.ec(8))),
            (1, Write(p)),
            (0, Erase(p)),
            (2, Erase(p.ec(3))),
            (3, Erase(p.ec(3))),
            (6, Erase(p)),
            (7, Erase(p)),
        ]
    );
    // Without a migration the blocks are taken in their order.
    let work: Vec<(u32, FormatAction)> = plan_format(&ebt[..3], p).into_iter().collect();
    assert_eq!(
        work,
        vec![(0, Erase(p)), (1, Write(p)), (2, Erase(p.ec(3)))]
    );
}

#[test]
fn execute_records_what_it_did() {
    let mut nand = SimNand::new(TEST_LAYOUT);
    let p = proto();
    let block = nand.block(0).unwrap().unwrap();
    let mut content = BlockContent::Erased;
    FormatAction::Ignore.execute(block, &mut content).unwrap();
    assert_eq!(content, BlockContent::Erased);
    FormatAction::Write(p).execute(block, &mut content).unwrap();
    assert_eq!(content, BlockContent::EcErased(p));
    // A header that cannot be written without an erase counts the erase.
    FormatAction::Write(p.ec(7)).execute(block, &mut content).unwrap();
    assert_eq!(content, BlockContent::EcErased(p.ec(8)));
    FormatAction::Erase(p.ec(3)).execute(block, &mut content).unwrap();
    assert_eq!(content, BlockContent::EcErased(p.ec(3)));
    assert_eq!(
        BlockContent::scan_block(&*block),
        Ok(BlockContent::EcErased(p.ec(3)))
    );
}

#[test]
fn format_needs_pages_that_hold_a_header() {
    let mut nand = SimNand::new(NandLayout {
        blocks: 2,
        pages_per_block: 4,
        bytes_per_page: 32,
    });
    let mut ebt = scan_blocks(&mut nand).unwrap();
    assert_eq!(
        bmc_installer::ubi::format::format(&mut nand, &mut ebt),
        Err(bmc_installer::error::Error::BadInput)
    );
}

#[test]
fn format_leaves_a_matching_block_alone() {
    let mut nand = SimNand::new(TEST_LAYOUT);
    let ec = Ec {
        ec: 4,
        vid_hdr_offset: 128,
        data_offset: 256,
        image_seq: 0,
    };
    // Data behind the pages that a scan looks at shows whether the block
    // was erased.
    write_block(&mut nand, 2, Some(ec), None, Some(9));
    write_block(&mut nand, 5, Some(ec.ec(8)), None, Some(9));
    let mut ebt = scan_blocks(&mut nand).unwrap();
    assert_eq!(ebt[2], BlockContent::EcErased(ec));
    let mut before = vec![0u8; 16 * 128];
    nand.block(2).unwrap().unwrap().read(0, &mut before).unwrap();
    bmc_installer::ubi::format::format(&mut nand, &mut ebt).unwrap();
    assert_eq!(ebt[2], BlockContent::EcErased(ec));
    assert_eq!(ebt[5], BlockContent::EcErased(ec.ec(8)));
    // The mean of 4 and 8.
    assert_eq!(ebt[0], BlockContent::EcErased(ec.ec(6)));
    let mut after = vec![0u8; 16 * 128];
    nand.block(2).unwrap().unwrap().read(0, &mut after).unwrap();
    assert_eq!(after, before);
    assert_eq!(after[9 * 128], 0x5A);
}

#[test]
fn format_notices_a_block_that_went_bad_unseen() {
    let mut nand = SimNand::new(TEST_LAYOUT);
    let mut ebt = scan_blocks(&mut nand).unwrap();
    nand.block(4).unwrap().unwrap().mark_bad().unwrap();
    assert_eq!(
        bmc_installer::ubi::format::format(&mut nand, &mut ebt),
        Err(bmc_installer::error::Error::Internal)
    );
    // The blocks before it are formatted by then, the others are not.
    assert_eq!(ebt[3], BlockContent::EcErased(proto()));
    assert_eq!(ebt[4], BlockContent::Erased);
    assert_eq!(ebt[5], BlockContent::Erased);
}

#[test]
fn migration_takes_a_last_block_without_a_partner() {
    let mut nand = SimNand::new(NandLayout {
        blocks: 3,
        pages_per_block: 8,
        bytes_per_page: 128,
    });
    write_block(&mut nand, 0, None, Some(0), None);
    write_block(&mut nand, 2, None, None, Some(3));
    let mut ebt = scan_blocks(&mut nand).unwrap();
    assert_eq!(
        ebt,
        vec![RawVid(Vid::default().sqnum(0)), Erased, Garbage]
    );
    let p = proto();
    let work: Vec<(u32, FormatAction)> = plan_format(&ebt, p).into_iter().collect();
    assert_eq!(work, vec![(2, Erase(p)), (0, Erase(p)), (1, Write(p))]);
    bmc_installer::ubi::format::format(&mut nand, &mut ebt).unwrap();
    assert_eq!(ebt, vec![EcErased(p); 3]);
    assert_eq!(scan_blocks(&mut nand).unwrap(), ebt);
    // A second run finds nothing to do.
    let image = nand.save().unwrap();
    bmc_installer::ubi::format::format(&mut nand, &mut ebt).unwrap();
    assert_eq!(ebt, vec![EcErased(p); 3]);
    assert_eq!(nand.save().unwrap(), image);
}

#[test]
fn an_interrupted_migration_still_shows_the_superblock_layout() {
    let mut nand = SimNand::new(NandLayout {
        blocks: 6,
        pages_per_block: 8,
        bytes_per_page: 128,
    });
    write_block(&mut nand, 1, None, Some(0), None);
    write_block(&mut nand, 2, None, None, Some(3));
    let mut ebt = scan_blocks(&mut nand).unwrap();
    // Block 4 goes bad behind the table's back, so that the run stops there.
    nand.block(4).unwrap().unwrap().mark_bad().unwrap();
    assert_eq!(
        bmc_installer::ubi::format::format(&mut nand, &mut ebt),
        Err(bmc_installer::error::Error::Internal)
    );
    // The pair that tells of the old layout has not been touched.
    assert_eq!(ebt[0], Erased);
    assert_eq!(ebt[1], RawVid(Vid::default().sqnum(1)));
    assert_eq!(ebt[5], EcErased(proto()));
}
