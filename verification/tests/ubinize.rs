use bmc_installer::error::Error;
use bmc_installer::nand::{Nand, NandBlock, NandLayout, PageUtil, SimNand};
use bmc_installer::ubi::headers::{Ec, Vid, VolTableRecord, VolType};
use bmc_installer::ubi::place::BlockPicker;
use bmc_installer::ubi::scan::BlockContent;
use bmc_installer::ubi::ubinize::{BasicVolume, LayoutVolume, Ubinizer, Volume, VolumeData};
use bmc_installer::ubi::{scan_blocks, write_volumes};

#[test]
fn test_basic_volume() {
    let image = vec![0x11u8; 8192];
    let x = BasicVolume::new(VolType::Static)
        .image(&image[..])
        .size(4096);
    let mut d = x.into_data(1024, 7);

    let mut data = Vec::with_capacity(1024);
    for i in 0..4 {
        let vid = d.next_block(&mut data).unwrap().unwrap();

        assert_eq!(
            vid,
            Vid {
                vol_type: VolType::Static,
                copy_flag: false,
                compat: 0,
                vol_id: 7,
                lnum: i,
                data_size: 1024,
                used_ebs: 4,
                data_pad: 0,
                data_crc: 0x8d746e93,
                sqnum: vid.sqnum, // not tested
            }
        );

        assert_eq!(data.len(), 1024 * (i + 1) as usize);
        assert!(data.iter().all(|&b| b == 0x11));
    }
    assert_eq!(d.next_block(&mut data).unwrap(), None);

    let record = d.into_vtbl_record();
    assert_eq!(
        record,
        VolTableRecord {
            reserved_pebs: 4,
            alignment: 1,
            vol_type: VolType::Static,
            ..Default::default()
        }
    );
}

#[test]
fn dynamic_volume_counts_its_blocks() {
    let image: Vec<u8> = (0..2500u32).map(|i| i as u8).collect();
    let volume = BasicVolume::new(VolType::Dynamic)
        .image(&image[..])
        .name("data".to_string())
        .autoresize()
        .align(1000);
    assert_eq!(volume.get_vol_id(), None);
    assert_eq!(volume.estimate_blocks(1024), 0);
    let mut d = volume.into_data(1024, 3);
    let mut data = vec![9u8; 2];
    for (i, len) in [1000usize, 1000, 500].into_iter().enumerate() {
        let vid = d.next_block(&mut data).unwrap().unwrap();
        assert_eq!(
            vid,
            Vid {
                vol_type: VolType::Dynamic,
                vol_id: 3,
                lnum: i as u32,
                data_pad: 24,
                ..Default::default()
            }
        );
        assert_eq!(data[..2], [9, 9]);
        assert_eq!(data[2..], image[i * 1000..i * 1000 + len]);
        data.truncate(2);
    }
    assert_eq!(d.next_block(&mut data).unwrap(), None);
    assert_eq!(
        d.into_vtbl_record(),
        VolTableRecord {
            reserved_pebs: 3,
            alignment: 1000,
            data_pad: 24,
            vol_type: VolType::Dynamic,
            upd_marker: false,
            name: "data".to_string(),
            flags: 1,
        }
    );
}

#[test]
fn volume_without_an_image() {
    let volume: BasicVolume<&[u8]> = BasicVolume::new(VolType::Dynamic)
        .id(0)
        .name("uboot-env".to_string())
        .size(65536);
    assert_eq!(volume.get_vol_id(), Some(0));
    assert_eq!(volume.estimate_blocks(1024), 64);
    assert_eq!(volume.estimate_blocks(65535), 2);
    let mut d = volume.into_data(1024, 0);
    let mut data = Vec::new();
    assert_eq!(d.next_block(&mut data).unwrap(), None);
    assert_eq!(d.into_vtbl_record().reserved_pebs, 0);
    let volume: BasicVolume<&[u8]> = BasicVolume::new(VolType::Static).skipcheck().size(1025);
    assert_eq!(volume.estimate_blocks(1024), 2);
    let record = volume.into_data(1024, 1).into_vtbl_record();
    assert_eq!(record.reserved_pebs, 2);
    assert_eq!(record.flags, 2);
}

#[test]
fn layout_volume_hands_out_ids() {
    let mut layout = LayoutVolume::new(172 * 3 + 100);
    assert_eq!(layout.allocate_id(), Some(0));
    assert!(layout.is_id_available(2));
    assert!(!layout.is_id_available(3));
    layout.store_record(0, VolTableRecord::default());
    assert!(!layout.is_id_available(0));
    assert_eq!(layout.allocate_id(), Some(1));
    layout.store_record(2, VolTableRecord::default());
    layout.store_record(1, VolTableRecord::default());
    assert_eq!(layout.allocate_id(), None);
    assert_eq!(layout.get_vol_id(), Some(0x7FFFEFFF));
    assert_eq!(layout.estimate_blocks(1024), 2);
    // No more slots than there can be volumes.
    let wide = LayoutVolume::new(172 * 200);
    assert!(wide.is_id_available(127));
    assert!(!wide.is_id_available(128));
}

fn drain(ubinizer: &mut Ubinizer<&[u8]>) -> Vec<(Vid, Vec<u8>)> {
    let mut blocks = Vec::new();
    let mut data = Vec::new();
    while let Some(vid) = ubinizer.next_block(&mut data).unwrap() {
        blocks.push((vid, data.clone()));
        data.clear();
    }
    assert_eq!(ubinizer.next_block(&mut data).unwrap(), None);
    blocks
}

#[test]
fn ubinizer_yields_the_volumes_and_then_the_layout() {
    let rootfs = vec![0x11u8; 1000];
    let env = vec![0x22u8; 10];
    let volumes = vec![
        BasicVolume::new(VolType::Dynamic)
            .id(1)
            .name("uboot-env".to_string())
            .image(&env[..]),
        BasicVolume::new(VolType::Static)
            .name("rootfs".to_string())
            .skipcheck()
            .size(1000)
            .image(&rootfs[..]),
        // The slot that it asks for is taken.
        BasicVolume::new(VolType::Dynamic).id(1).name("spare".to_string()),
    ];
    assert_eq!(Ubinizer::estimate_blocks(&volumes, 516), 2 + 0 + 2 + 0);
    let mut ubinizer = Ubinizer::new(volumes, 516);
    let blocks = drain(&mut ubinizer);
    assert_eq!(blocks.len(), 5);
    // Sequence numbers count the blocks.
    for (k, (vid, _)) in blocks.iter().enumerate() {
        assert_eq!(vid.sqnum, k as u64 + 1);
    }
    assert_eq!(
        blocks[0],
        (
            Vid {
                vol_type: VolType::Dynamic,
                vol_id: 1,
                lnum: 0,
                sqnum: 1,
                ..Default::default()
            },
            env.clone()
        )
    );
    for (lnum, (from, len)) in [(0usize, 516usize), (516, 484)].into_iter().enumerate() {
        let crc = crc::Crc::<u32>::new(&crc::CRC_32_JAMCRC).checksum(&rootfs[from..from + len]);
        assert_eq!(
            blocks[1 + lnum],
            (
                Vid {
                    vol_type: VolType::Static,
                    vol_id: 0,
                    lnum: lnum as u32,
                    data_size: len as u32,
                    used_ebs: 2,
                    data_crc: crc,
                    sqnum: lnum as u64 + 2,
                    ..Default::default()
                },
                rootfs[from..from + len].to_vec()
            )
        );
    }
    // The layout volume: two blocks with the same payload.
    for lnum in 0..2u32 {
        assert_eq!(
            blocks[3 + lnum as usize].0,
            Vid {
                vol_type: VolType::Dynamic,
                compat: 5,
                vol_id: 0x7FFFEFFF,
                lnum,
                sqnum: lnum as u64 + 4,
                ..Default::default()
            }
        );
    }
    assert_eq!(blocks[3].1, blocks[4].1);
    let table = &blocks[3].1;
    assert_eq!(table.len(), 3 * 172);
    assert_eq!(
        VolTableRecord::decode(&table[..172]),
        Some(VolTableRecord {
            reserved_pebs: 2,
            alignment: 1,
            vol_type: VolType::Static,
            name: "rootfs".to_string(),
            flags: 2,
            ..Default::default()
        })
    );
    assert_eq!(
        VolTableRecord::decode(&table[172..344]),
        Some(VolTableRecord {
            reserved_pebs: 1,
            alignment: 1,
            vol_type: VolType::Dynamic,
            name: "uboot-env".to_string(),
            ..Default::default()
        })
    );
    // The volume whose slot was taken got the lowest free one.
    assert_eq!(
        VolTableRecord::decode(&table[344..]),
        Some(VolTableRecord {
            reserved_pebs: 0,
            alignment: 1,
            vol_type: VolType::Dynamic,
            name: "spare".to_string(),
            ..Default::default()
        })
    );
}

#[test]
fn ubinizer_without_volumes() {
    let mut ubinizer: Ubinizer<&[u8]> = Ubinizer::new(Vec::new(), 172 * 2);
    let blocks = drain(&mut ubinizer);
    assert_eq!(blocks.len(), 2);
    let mut empty = VolTableRecord::none_into_bytes();
    empty.extend(VolTableRecord::none_into_bytes());
    assert_eq!(blocks[0].1, empty);
    assert_eq!(blocks[1].1, empty);
}

fn ec(ec: u64) -> BlockContent {
    BlockContent::EcErased(Ec {
        ec,
        vid_hdr_offset: 64,
        data_offset: 128,
        image_seq: 0,
    })
}

fn order(ebt: &[BlockContent]) -> Vec<u32> {
    let mut picker = BlockPicker::new(ebt);
    let mut blocks = Vec::new();
    while let Some(block) = picker.next_block() {
        blocks.push(block);
    }
    assert_eq!(picker.next_block(), None);
    blocks
}

#[test]
fn blocks_are_picked_at_the_percentile() {
    assert_eq!(order(&[]), Vec::<u32>::new());
    assert_eq!(order(&[BlockContent::Erased, BlockContent::Bad]), Vec::<u32>::new());
    // Eight blocks: the threshold is 2. The bucket of counter 1 holds one
    // block, which leaves 1 for the bucket of counter 2. Of the six blocks
    // that are left the threshold is 1, and so on.
    let ebt = [
        ec(5),
        ec(2),
        BlockContent::Garbage,
        ec(1),
        ec(2),
        ec(9),
        ec(5),
        ec(5),
        ec(7),
    ];
    assert_eq!(order(&ebt), vec![1, 4, 3, 0, 6, 7, 8, 5]);
    // Twelve blocks of three counters: the threshold is 3, which the
    // first bucket of two does not meet.
    let ebt = [
        ec(1),
        ec(1),
        ec(3),
        ec(3),
        ec(3),
        ec(3),
        ec(3),
        ec(2),
        ec(2),
        ec(2),
        ec(2),
        ec(2),
    ];
    assert_eq!(order(&ebt), vec![7, 8, 9, 10, 11, 0, 1, 2, 3, 4, 5, 6]);
}

const LAYOUT: NandLayout = NandLayout {
    blocks: 12,
    pages_per_block: 6,
    bytes_per_page: 64,
};

fn formatted() -> (SimNand, Vec<BlockContent>) {
    let mut nand = SimNand::new(LAYOUT);
    let mut ebt = scan_blocks(&mut nand).unwrap();
    bmc_installer::ubi::format::format(&mut nand, &mut ebt).unwrap();
    (nand, ebt)
}

#[test]
fn volumes_are_written_and_scanned_back() {
    let (mut nand, mut ebt) = formatted();
    nand.block(0).unwrap().unwrap().mark_bad().unwrap();
    ebt[0] = BlockContent::Bad;
    let rootfs: Vec<u8> = (0..600u32).map(|i| (i % 251) as u8).collect();
    let volumes = vec![
        BasicVolume::new(VolType::Static)
            .name("rootfs".to_string())
            .size(600)
            .image(&rootfs[..]),
    ];
    write_volumes(&mut nand, &mut ebt, volumes).unwrap();
    assert_eq!(scan_blocks(&mut nand).unwrap(), ebt);
    let written: Vec<(u32, Vid)> = ebt
        .iter()
        .enumerate()
        .filter_map(|(i, content)| match content {
            BlockContent::EcData(_, Some(vid)) => Some((i as u32, *vid)),
            _ => None,
        })
        .collect();
    // All blocks have the counter 1, so they are taken in their order.
    assert_eq!(
        written.iter().map(|(i, _)| *i).collect::<Vec<u32>>(),
        vec![1, 2, 3, 4, 5]
    );
    assert_eq!(
        written.iter().map(|(_, vid)| vid.sqnum).collect::<Vec<u64>>(),
        vec![1, 2, 3, 4, 5]
    );
    assert_eq!(
        written.iter().map(|(_, vid)| (vid.vol_id, vid.lnum)).collect::<Vec<(u32, u32)>>(),
        vec![(0, 0), (0, 1), (0, 2), (0x7FFFEFFF, 0), (0x7FFFEFFF, 1)]
    );
    // What is on flash: the headers in pages 0 and 1, the payload behind.
    let mut block_bytes = vec![0u8; 6 * 64];
    nand.block(3).unwrap().unwrap().read(0, &mut block_bytes).unwrap();
    assert_eq!(Ec::decode(&block_bytes), ebt[3].ec_of_test());
    assert_eq!(Vid::decode(&block_bytes[64..]), Some(written[2].1));
    assert_eq!(block_bytes[128..128 + 88], rootfs[512..]);
    assert!(block_bytes[128 + 88..].is_erased());
    let mut layout_a = vec![0u8; 6 * 64];
    nand.block(4).unwrap().unwrap().read(0, &mut layout_a).unwrap();
    let mut layout_b = vec![0u8; 6 * 64];
    nand.block(5).unwrap().unwrap().read(0, &mut layout_b).unwrap();
    assert_eq!(layout_a[128..], layout_b[128..]);
    assert_eq!(
        VolTableRecord::decode(&layout_a[128..]).unwrap().name,
        "rootfs"
    );
}

trait EcOf {
    fn ec_of_test(&self) -> Option<Ec>;
}

impl EcOf for BlockContent {
    fn ec_of_test(&self) -> Option<Ec> {
        match self {
            BlockContent::EcErased(ec) => Some(*ec),
            BlockContent::EcData(ec, _) => Some(*ec),
            _ => None,
        }
    }
}

#[test]
fn a_block_that_refuses_is_erased_and_tried_again() {
    let (mut nand, mut ebt) = formatted();
    // Block 0 holds data that the table does not know of.
    nand.block(0).unwrap().unwrap().program(3, &[0x33u8; 64]).unwrap();
    let volumes: Vec<BasicVolume<&[u8]>> = Vec::new();
    write_volumes(&mut nand, &mut ebt, volumes).unwrap();
    match ebt[0] {
        BlockContent::EcData(ec, Some(vid)) => {
            assert_eq!(ec.ec, 2);
            assert_eq!(vid.lnum, 0);
        }
        other => panic!("{:?}", other),
    }
    assert_eq!(scan_blocks(&mut nand).unwrap(), ebt);
}

#[test]
fn flash_full() {
    let (mut nand, mut ebt) = formatted();
    let big = vec![0x44u8; 256 * 11];
    let volumes = vec![BasicVolume::new(VolType::Dynamic).image(&big[..])];
    assert_eq!(
        write_volumes(&mut nand, &mut ebt, volumes),
        Err(Error::FlashFull)
    );
    assert_eq!(scan_blocks(&mut nand).unwrap(), ebt);
    // A page that holds no header.
    let mut small = SimNand::new(NandLayout {
        blocks: 4,
        pages_per_block: 8,
        bytes_per_page: 32,
    });
    let mut ebt = scan_blocks(&mut small).unwrap();
    let volumes: Vec<BasicVolume<&[u8]>> = Vec::new();
    assert_eq!(
        write_volumes(&mut small, &mut ebt, volumes),
        Err(Error::BadInput)
    );
}

#[test]
fn logical_blocks_go_to_the_picked_blocks() {
    let mut nand = SimNand::new(LAYOUT);
    // Erase counters that a format leaves alone.
    let counters = [9u64, 3, 3, 7, 1, 3, 9, 9, 5, 5, 5, 2];
    for (i, &counter) in counters.iter().enumerate() {
        let mut page = vec![0u8; 64];
        Ec {
            ec: counter,
            vid_hdr_offset: 64,
            data_offset: 128,
            image_seq: 0,
        }
        .encode(&mut page)
        .unwrap();
        nand.block(i as u32).unwrap().unwrap().program(0, &page).unwrap();
    }
    let mut ebt = scan_blocks(&mut nand).unwrap();
    bmc_installer::ubi::format::format(&mut nand, &mut ebt).unwrap();
    for (i, &counter) in counters.iter().enumerate() {
        assert_eq!(ebt[i].ec_of_test().unwrap().ec, counter);
    }
    let expected = order(&ebt);
    assert_eq!(expected, vec![1, 2, 5, 11, 8, 9, 10, 4, 3, 0, 6, 7]);
    let data = vec![0x66u8; 256 * 4 + 1];
    let volumes = vec![BasicVolume::new(VolType::Dynamic).image(&data[..])];
    write_volumes(&mut nand, &mut ebt, volumes).unwrap();
    let mut written: Vec<(u64, u32)> = ebt
        .iter()
        .enumerate()
        .filter_map(|(i, content)| match content {
            BlockContent::EcData(_, Some(vid)) => Some((vid.sqnum, i as u32)),
            _ => None,
        })
        .collect();
    written.sort();
    assert_eq!(
        written.iter().map(|(_, block)| *block).collect::<Vec<u32>>(),
        expected[..7]
    );
    assert_eq!(scan_blocks(&mut nand).unwrap(), ebt);
}
