//! Building a UBI image from volumes.
//!
//! The user hands over a series of volumes. Told the size of an erase
//! block, the [`Ubinizer`] goes through them and yields, for each logical
//! erase block, its VID header and its payload. It also takes care of
//! synthesizing the layout volume, which comes last.

use crate::error::Error;
use crate::nand::append_bytes;
use crate::ubi::headers::{
    slot_encodable, slot_image, slot_view, ubi_crc, ubi_crc_of, Vid, VolTableRecord,
    VolTableRecordView, VolType, UBI_VOL_NAME_SIZE, UBI_VTBL_RECORD_SIZE,
};
use crate::util::ReadExt;
use std::collections::VecDeque;
use vstd::prelude::*;

verus! {

/// The volume ID of the layout volume.
pub const UBI_LAYOUT_VOLUME_ID: u32 = 0x7FFFEFFF;

/// The number of erase blocks that the layout volume takes.
pub const UBI_LAYOUT_VOLUME_EBS: u32 = 2;

/// The compatibility byte of the layout volume.
pub const UBI_LAYOUT_VOLUME_COMPAT: u8 = 5;

/// The most volumes that an image can hold.
pub const UBI_MAX_VOLUMES: usize = 128;

/// How many records the volume table holds where an erase block has
/// `eb_size` bytes: as many as fit, and no more than there can be volumes.
pub open spec fn table_slots(eb_size: u32) -> nat {
    if eb_size as nat / (UBI_VTBL_RECORD_SIZE as nat) <= UBI_MAX_VOLUMES {
        eb_size as nat / (UBI_VTBL_RECORD_SIZE as nat)
    } else {
        UBI_MAX_VOLUMES as nat
    }
}

/// The volume table on flash: its slots in ID order.
pub open spec fn table_bytes(table: Seq<Option<VolTableRecordView>>) -> Seq<u8>
    decreases table.len(),
{
    if table.len() == 0 {
        Seq::empty()
    } else {
        table_bytes(table.drop_last()) + slot_image(table.last())
    }
}

/// The lowest free slot of the table from `from` on.
pub open spec fn first_free(table: Seq<Option<VolTableRecordView>>, from: int) -> Option<u32>
    decreases table.len() - from,
{
    if from >= table.len() {
        None
    } else if table[from] is None {
        Some(from as u32)
    } else {
        first_free(table, from + 1)
    }
}

/// Whether slot `id` of the table exists and is free.
pub open spec fn slot_free(table: Seq<Option<VolTableRecordView>>, id: u32) -> bool {
    id < table.len() && table[id as int] is None
}

/// The volume ID that a volume gets which asks for `wanted`: that ID where
/// its slot is free, else the lowest free slot.
pub open spec fn assigned_id(table: Seq<Option<VolTableRecordView>>, wanted: Option<u32>) -> Option<
    u32,
> {
    if wanted is Some && slot_free(table, wanted->Some_0) {
        wanted
    } else {
        first_free(table, 0)
    }
}

/// The number of free slots of the table.
pub open spec fn free_slots(table: Seq<Option<VolTableRecordView>>) -> nat
    decreases table.len(),
{
    if table.len() == 0 {
        0
    } else {
        free_slots(table.drop_last()) + if table.last() is None {
            1nat
        } else {
            0
        }
    }
}

/// The table takes 172 bytes for each slot.
pub proof fn lemma_table_bytes_len(table: Seq<Option<VolTableRecordView>>)
    requires
        forall|i: int| 0 <= i < table.len() ==> slot_encodable(#[trigger] table[i]),
    ensures
        table_bytes(table).len() == table.len() * UBI_VTBL_RECORD_SIZE,
    decreases table.len(),
{
    if table.len() > 0 {
        assert forall|i: int| 0 <= i < table.drop_last().len() implies slot_encodable(
            #[trigger] table.drop_last()[i],
        ) by {
            assert(table.drop_last()[i] == table[i]);
        }
        lemma_table_bytes_len(table.drop_last());
        assert(slot_encodable(table[table.len() - 1]));
        crate::ubi::headers::lemma_slot_image_len(table.last());
        assert((table.len() - 1) * UBI_VTBL_RECORD_SIZE + UBI_VTBL_RECORD_SIZE == table.len()
            * UBI_VTBL_RECORD_SIZE) by (nonlinear_arith);
    }
}

/// What `first_free` finds is a free slot, and there is one to find where
/// any slot from `from` on is free.
pub proof fn lemma_first_free(table: Seq<Option<VolTableRecordView>>, from: int)
    requires
        0 <= from,
        table.len() <= u32::MAX,
    ensures
        first_free(table, from) is Some ==> from <= first_free(table, from)->Some_0 && slot_free(
            table,
            first_free(table, from)->Some_0,
        ),
        first_free(table, from) is None ==> forall|i: int|
            from <= i < table.len() ==> (#[trigger] table[i]) is Some,
    decreases table.len() - from,
{
    if from < table.len() && table[from] is Some {
        lemma_first_free(table, from + 1);
    }
}

/// A table without a free slot counts none, and filling a free slot takes
/// one from the count.
pub proof fn lemma_free_slots(table: Seq<Option<VolTableRecordView>>, id: int, record: VolTableRecordView)
    requires
        0 <= id < table.len(),
        table[id] is None,
    ensures
        free_slots(table) > 0,
        free_slots(table.update(id, Some(record))) == free_slots(table) - 1,
    decreases table.len(),
{
    let filled = table.update(id, Some(record));
    if id == table.len() - 1 {
        assert(filled.drop_last() =~= table.drop_last());
    } else {
        assert(table.drop_last()[id] == table[id]);
        lemma_free_slots(table.drop_last(), id, record);
        assert(filled.drop_last() =~= table.drop_last().update(id, Some(record)));
    }
}

/// A table in which every slot is taken has no free slots.
pub proof fn lemma_no_free_slots(table: Seq<Option<VolTableRecordView>>)
    requires
        forall|i: int| 0 <= i < table.len() ==> (#[trigger] table[i]) is Some,
    ensures
        free_slots(table) == 0,
    decreases table.len(),
{
    if table.len() > 0 {
        assert(table.last() == table[table.len() - 1]);
        assert forall|i: int| 0 <= i < table.drop_last().len() implies (
        #[trigger] table.drop_last()[i]) is Some by {
            assert(table.drop_last()[i] == table[i]);
        }
        lemma_no_free_slots(table.drop_last());
    }
}

/// An empty table has as many free slots as it has slots.
pub proof fn lemma_empty_table(n: nat)
    ensures
        free_slots(Seq::new(n, |i: int| None::<VolTableRecordView>)) == n,
    decreases n,
{
    if n > 0 {
        let table = Seq::new(n, |i: int| None::<VolTableRecordView>);
        assert(table.drop_last() =~= Seq::new((n - 1) as nat, |i: int| None::<VolTableRecordView>));
        lemma_empty_table((n - 1) as nat);
    }
}

/// The VID header of logical block `lnum` of the layout volume, without
/// its sequence number.
pub open spec fn layout_vid(lnum: u32) -> Vid {
    Vid {
        vol_type: VolType::Dynamic,
        copy_flag: false,
        compat: UBI_LAYOUT_VOLUME_COMPAT,
        vol_id: UBI_LAYOUT_VOLUME_ID,
        lnum,
        data_size: 0,
        used_ebs: 0,
        data_pad: 0,
        data_crc: 0,
        sqnum: 0,
    }
}

/// The internal volume that describes the layout of the volumes on flash.
pub struct LayoutVolume {
    records: Vec<Option<VolTableRecord>>,
}

impl LayoutVolume {
    /// The volume table, slot by slot.
    pub closed spec fn table(&self) -> Seq<Option<VolTableRecordView>> {
        Seq::new(self.records@.len(), |i: int| slot_view(self.records@[i]))
    }

    /// The table has no more slots than there can be volumes, and every
    /// record in it fits its on-flash form.
    pub open spec fn wf(&self) -> bool {
        &&& self.table().len() <= UBI_MAX_VOLUMES
        &&& forall|i: int| 0 <= i < self.table().len() ==> slot_encodable(#[trigger] self.table()[i])
    }

    /// Begin building a new layout volume. The EB size must be known ahead
    /// of time.
    pub fn new(eb_size: u32) -> (r: Self)
        ensures
            r.wf(),
            r.table() == Seq::new(table_slots(eb_size), |i: int| None::<VolTableRecordView>),
    {
        let fit = eb_size as usize / UBI_VTBL_RECORD_SIZE;
        let record_count = if fit <= UBI_MAX_VOLUMES {
            fit
        } else {
            UBI_MAX_VOLUMES
        };
        let mut records: Vec<Option<VolTableRecord>> = Vec::new();
        while records.len() < record_count
            invariant
                records@.len() <= record_count,
                forall|i: int| 0 <= i < records@.len() ==> (#[trigger] records@[i]) is None,
            decreases record_count - records@.len(),
        {
            records.push(None);
        }
        let r = Self { records };
        assert(r.table() =~= Seq::new(table_slots(eb_size), |i: int| None::<VolTableRecordView>));
        r
    }

    /// Attempt to allocate some unused volume ID, from the record slots
    /// that are still available.
    ///
    /// The ID is not considered unavailable until `store_record` is called.
    pub fn allocate_id(&self) -> (r: Option<u32>)
        requires
            self.wf(),
        ensures
            r == first_free(self.table(), 0),
    {
        let mut i: usize = 0;
        while i < self.records.len()
            invariant
                self.wf(),
                i <= self.records@.len(),
                first_free(self.table(), 0) == first_free(self.table(), i as int),
            decreases self.records@.len() - i,
        {
            if self.records[i].is_none() {
                return Some(i as u32);
            }
            i += 1;
        }
        None
    }

    /// Confirm that a volume ID is available.
    pub fn is_id_available(&self, id: u32) -> (r: bool)
        ensures
            r == slot_free(self.table(), id),
    {
        (id as usize) < self.records.len() && self.records[id as usize].is_none()
    }

    /// Store a volume table record in the slot `id`, which must be
    /// available.
    pub fn store_record(&mut self, id: u32, record: VolTableRecord)
        requires
            old(self).wf(),
            slot_free(old(self).table(), id),
            record@.encodable(),
        ensures
            final(self).wf(),
            final(self).table() == old(self).table().update(id as int, Some(record@)),
    {
        self.records.set(id as usize, Some(record));
        assert(self.table() =~= old(self).table().update(id as int, Some(record@)));
    }

    /// Begin reading the data of the layout volume: the volume table.
    pub fn into_data(self, eb_size: u32, vol_id: u32) -> (r: LayoutVolumeData)
        requires
            self.wf(),
            self.table().len() * UBI_VTBL_RECORD_SIZE <= eb_size,
            vol_id == UBI_LAYOUT_VOLUME_ID,
        ensures
            r.wf(),
            r.payload() == table_bytes(self.table()),
            r.lnum() == 0,
    {
        let vid = Vid {
            vol_type: VolType::Dynamic,
            copy_flag: false,
            compat: UBI_LAYOUT_VOLUME_COMPAT,
            vol_id: UBI_LAYOUT_VOLUME_ID,
            lnum: 0,
            data_size: 0,
            used_ebs: 0,
            data_pad: 0,
            data_crc: 0,
            sqnum: 0,
        };
        let mut data: Vec<u8> = Vec::new();
        let mut i: usize = 0;
        assert(self.table().take(0) =~= Seq::empty());
        while i < self.records.len()
            invariant
                self.wf(),
                i <= self.records@.len(),
                data@ == table_bytes(self.table().take(i as int)),
            decreases self.records@.len() - i,
        {
            let bytes = match &self.records[i] {
                Some(record) => {
                    assert(slot_encodable(self.table()[i as int]));
                    record.to_bytes()
                },
                None => VolTableRecord::none_into_bytes(),
            };
            append_bytes(&mut data, bytes.as_slice());
            proof {
                assert(self.table().take(i + 1).drop_last() =~= self.table().take(i as int));
            }
            i += 1;
        }
        assert(self.table().take(self.records@.len() as int) =~= self.table());
        LayoutVolumeData { vid, data }
    }

    /// The volume ID that the layout volume has to get.
    pub fn get_vol_id(&self) -> (r: Option<u32>)
        ensures
            r == Some(UBI_LAYOUT_VOLUME_ID),
    {
        Some(UBI_LAYOUT_VOLUME_ID)
    }

    /// How many blocks the layout volume occupies.
    pub fn estimate_blocks(&self, eb_size: u32) -> (r: u32)
        ensures
            r == UBI_LAYOUT_VOLUME_EBS,
    {
        UBI_LAYOUT_VOLUME_EBS
    }
}

/// The data of the layout volume: two copies of the volume table.
pub struct LayoutVolumeData {
    vid: Vid,
    data: Vec<u8>,
}

impl LayoutVolumeData {
    /// The volume table on flash.
    pub closed spec fn payload(&self) -> Seq<u8> {
        self.data@
    }

    /// How many blocks have been yielded.
    pub closed spec fn lnum(&self) -> u32 {
        self.vid.lnum
    }

    /// The header of the block to come, of which only `lnum` changes.
    pub closed spec fn wf(&self) -> bool {
        self.vid == layout_vid(self.vid.lnum)
    }

    /// The next block of the layout volume, appended to `data`: one of the
    /// two copies of the volume table, or `None` after these.
    pub fn next_block(&mut self, data: &mut Vec<u8>) -> (r: Result<Option<Vid>, Error>)
        requires
            old(self).wf(),
        ensures
            final(self).wf(),
            final(self).payload() == old(self).payload(),
            r is Ok,
            old(self).lnum() < UBI_LAYOUT_VOLUME_EBS ==> {
                &&& r == Ok::<Option<Vid>, Error>(Some(layout_vid(old(self).lnum())))
                &&& final(self).lnum() == old(self).lnum() + 1
                &&& final(data)@ == old(data)@ + old(self).payload()
            },
            old(self).lnum() >= UBI_LAYOUT_VOLUME_EBS ==> {
                &&& r == Ok::<Option<Vid>, Error>(None)
                &&& final(self).lnum() == old(self).lnum()
                &&& final(data)@ == old(data)@
            },
    {
        if self.vid.lnum >= UBI_LAYOUT_VOLUME_EBS {
            return Ok(None);
        }
        let vid = self.vid;
        self.vid.lnum = self.vid.lnum + 1;
        append_bytes(data, self.data.as_slice());
        Ok(Some(vid))
    }
}

/// `a` divided by `b`, rounded up.
pub open spec fn ceil_div(a: nat, b: nat) -> nat {
    ((a + b - 1) / (b as int)) as nat
}

/// Rounding up adds one to the quotient where there is a remainder.
pub proof fn lemma_ceil_div(a: nat, b: nat)
    requires
        b > 0,
    ensures
        ceil_div(a, b) == a / b + if a % b == 0 {
            0nat
        } else {
            1
        },
        a == 0 <==> ceil_div(a, b) == 0,
        a > b ==> ceil_div((a - b) as nat, b) == ceil_div(a, b) - 1,
        0 < a <= b ==> ceil_div(a, b) == 1,
{
    let q = a as int / b as int;
    let r = a as int % b as int;
    assert(a == q * b + r && 0 <= r < b && q >= 0) by (nonlinear_arith)
        requires
            q == a as int / b as int,
            r == a as int % b as int,
            b > 0,
            a >= 0,
    ;
    assert((a + b - 1) / (b as int) == q + if r == 0 {
        0int
    } else {
        1int
    }) by (nonlinear_arith)
        requires
            a == q * b + r,
            0 <= r < b,
            q >= 0,
    ;
    if a > b {
        let a2 = a - b;
        assert((a2 + b - 1) / (b as int) == (a + b - 1) / (b as int) - 1) by (nonlinear_arith)
            requires
                a2 == a - b,
                b > 0,
                a2 >= 0,
        ;
    }
    if 0 < a <= b {
        assert((a + b - 1) / (b as int) == 1) by (nonlinear_arith)
            requires
                0 < a <= b,
        ;
    }
}

/// The bytes of `left` that go into the `k`-th block of `leb_size` bytes.
pub open spec fn leb_chunk(left: Seq<u8>, leb_size: u32, k: int) -> Seq<u8> {
    left.subrange(
        k * leb_size,
        if (k + 1) * leb_size <= left.len() {
            (k + 1) * leb_size
        } else {
            left.len() as int
        },
    )
}

/// The VID header of a block of a volume: the volume's header with the
/// number of the block and, for a static volume, the size and the checksum
/// of the payload.
pub open spec fn block_vid(template: Vid, lnum: u32, payload: Seq<u8>) -> Vid {
    match template.vol_type {
        VolType::Static => Vid {
            lnum,
            data_size: payload.len() as u32,
            data_crc: ubi_crc_of(payload),
            ..template
        },
        VolType::Dynamic => Vid { lnum, ..template },
    }
}

/// The blocks that a volume yields whose data still to come is `left`:
/// each a VID header, without its sequence number, and a payload.
pub open spec fn blocks_of(template: Vid, leb_size: u32, left: Seq<u8>) -> Seq<(Vid, Seq<u8>)> {
    Seq::new(
        ceil_div(left.len(), leb_size as nat),
        |k: int|
            (
                block_vid(template, (template.lnum + k) as u32, leb_chunk(left, leb_size, k)),
                leb_chunk(left, leb_size, k),
            ),
    )
}

/// After the first block, the blocks of what is left are the other blocks.
pub proof fn lemma_blocks_of_rest(template: Vid, leb_size: u32, left: Seq<u8>)
    requires
        leb_size > 0,
        left.len() > 0,
        template.lnum < u32::MAX,
    ensures
        blocks_of(template, leb_size, left).len() > 0,
        blocks_of(template, leb_size, left)[0] == (
            block_vid(template, template.lnum, leb_chunk(left, leb_size, 0)),
            leb_chunk(left, leb_size, 0),
        ),
        blocks_of(
            Vid { lnum: (template.lnum + 1) as u32, ..template },
            leb_size,
            left.skip(leb_chunk(left, leb_size, 0).len() as int),
        ) == blocks_of(template, leb_size, left).drop_first(),
{
    let first = leb_chunk(left, leb_size, 0);
    let rest = left.skip(first.len() as int);
    let next = Vid { lnum: (template.lnum + 1) as u32, ..template };
    lemma_ceil_div(left.len(), leb_size as nat);
    lemma_ceil_div(rest.len(), leb_size as nat);
    let a = blocks_of(next, leb_size, rest);
    let b = blocks_of(template, leb_size, left).drop_first();
    assert(a.len() == b.len());
    assert forall|k: int| 0 <= k < a.len() implies a[k] == b[k] by {
        assert((k + 1) * leb_size == k * leb_size + leb_size && (k + 2) * leb_size == k * leb_size
            + 2 * leb_size && k * leb_size >= 0) by (nonlinear_arith)
            requires
                k >= 0,
                leb_size > 0,
        ;
        lemma_ceil_bound(rest.len(), leb_size as nat, k);
        assert(leb_chunk(rest, leb_size, k) =~= leb_chunk(left, leb_size, k + 1));
    }
    assert(a =~= b);
}

/// The `k`-th of the blocks that `a` bytes fill begins inside these bytes.
pub proof fn lemma_ceil_bound(a: nat, b: nat, k: int)
    requires
        b > 0,
        0 <= k < ceil_div(a, b),
    ensures
        k * b < a,
{
    assert(k * b < a) by (nonlinear_arith)
        requires
            b > 0,
            0 <= k < (a + b - 1) / (b as int),
            a >= 0,
    ;
}

/// What a volume is made from: its type, the ID and the size that were
/// asked for, if any, its name, flags and alignment, and the bytes of its
/// image, if it has one.
pub struct VolumeSpec {
    pub vol_type: VolType,
    pub id: Option<u32>,
    pub size: Option<u64>,
    pub name: Seq<char>,
    pub flags: u8,
    pub alignment: u32,
    pub image: Option<Seq<u8>>,
}

impl VolumeSpec {
    /// The bytes left unused at the end of each erase block, so that a
    /// logical block is a multiple of the alignment.
    pub open spec fn data_pad(self, eb_size: u32) -> u32 {
        (eb_size % self.alignment) as u32
    }

    /// The size of a logical block.
    pub open spec fn leb_size(self, eb_size: u32) -> u32 {
        (eb_size - eb_size % self.alignment) as u32
    }

    /// How many blocks the size that was asked for takes; none where no
    /// size was asked for.
    pub open spec fn estimate(self, eb_size: u32) -> nat {
        ceil_div(
            match self.size {
                Some(bytes) => bytes as nat,
                None => 0,
            },
            self.leb_size(eb_size) as nat,
        )
    }

    /// Whether the volume can be laid out in erase blocks of `eb_size`
    /// bytes: a logical block is not empty, the name fits its field, a
    /// static volume has a size, and the size takes a number of blocks that
    /// fits its field.
    pub open spec fn fits(self, eb_size: u32) -> bool {
        &&& 0 < self.alignment <= eb_size
        &&& vstd::utf8::encode_utf8(self.name).len() <= UBI_VOL_NAME_SIZE
        &&& self.vol_type is Static ==> self.size is Some
        &&& self.estimate(eb_size) <= u32::MAX
    }

    /// The most bytes that are read from the image: the size that was asked
    /// for, or as many as can be counted.
    pub open spec fn limit(self) -> u64 {
        match self.size {
            Some(bytes) => bytes,
            None => u64::MAX,
        }
    }

    /// Whether the blocks that the volume yields can be counted in the
    /// field for their number. A volume with a size that fits can.
    pub open spec fn countable(self, eb_size: u32) -> bool {
        ceil_div(self.payload().len(), self.leb_size(eb_size) as nat) <= u32::MAX
    }

    /// The bytes of the volume that are written: those of the image, up to
    /// the limit.
    pub open spec fn payload(self) -> Seq<u8> {
        match self.image {
            None => Seq::empty(),
            Some(bytes) => if self.limit() <= bytes.len() {
                bytes.take(self.limit() as int)
            } else {
                bytes
            },
        }
    }

    /// The number of blocks that a static volume declares: those that its
    /// size takes. A dynamic volume declares none.
    pub open spec fn used_ebs(self, eb_size: u32) -> u32 {
        match self.vol_type {
            VolType::Dynamic => 0,
            VolType::Static => self.estimate(eb_size) as u32,
        }
    }

    /// The VID header of the volume, under the ID `vol_id`, before any
    /// block.
    pub open spec fn template(self, eb_size: u32, vol_id: u32) -> Vid {
        Vid {
            vol_type: self.vol_type,
            copy_flag: false,
            compat: 0,
            vol_id,
            lnum: 0,
            data_size: 0,
            used_ebs: self.used_ebs(eb_size),
            data_pad: self.data_pad(eb_size),
            data_crc: 0,
            sqnum: 0,
        }
    }

    /// The blocks that the volume yields under the ID `vol_id`.
    pub open spec fn blocks(self, eb_size: u32, vol_id: u32) -> Seq<(Vid, Seq<u8>)> {
        blocks_of(self.template(eb_size, vol_id), self.leb_size(eb_size), self.payload())
    }

    /// The volume table record of the volume. It reserves the blocks that
    /// the volume declares, or else those that it yields.
    pub open spec fn record(self, eb_size: u32) -> VolTableRecordView {
        VolTableRecordView {
            reserved_pebs: if self.used_ebs(eb_size) != 0 {
                self.used_ebs(eb_size)
            } else {
                ceil_div(self.payload().len(), self.leb_size(eb_size) as nat) as u32
            },
            alignment: self.alignment,
            data_pad: self.data_pad(eb_size),
            vol_type: self.vol_type,
            upd_marker: false,
            name: self.name,
            flags: self.flags,
        }
    }
}

/// A UBI volume to be written to flash.
pub trait Volume: Sized {
    type Data: VolumeData;

    /// Whether the volume can be laid out in erase blocks of `eb_size`
    /// bytes. An implementation that does not say when has no such size,
    /// and no contract speaks of it.
    open spec fn fits_spec(&self, eb_size: u32) -> bool {
        false
    }

    /// Begin reading the data for the volume, chunked so as to fit within
    /// a given erase block size.
    fn into_data(self, eb_size: u32, vol_id: u32) -> (r: Self::Data)
        requires
            self.fits_spec(eb_size),
        ensures
            r.inv(),
    ;

    /// The volume ID that this volume would like to use, if any. The
    /// caller may supply another to `into_data`, especially if there is a
    /// conflict.
    fn get_vol_id(&self) -> Option<u32>;

    /// Estimate how many blocks this volume will occupy at the given
    /// `eb_size`.
    fn estimate_blocks(&self, eb_size: u32) -> u32
        requires
            self.fits_spec(eb_size),
    ;
}

/// A provider of data for a single volume of an image.
pub trait VolumeData: Sized {
    /// The implementation's own consistency condition. An implementation
    /// that states none has none, and no contract speaks of it.
    open spec fn inv(&self) -> bool {
        false
    }

    /// Try to determine the next block that should be written as part of
    /// this volume.
    ///
    /// The block's data is appended to `data`, so space for headers may be
    /// reserved by the caller. The result is the block's VID header, with
    /// no sequence number in particular, or `None` if there are no further
    /// blocks.
    fn next_block(&mut self, data: &mut Vec<u8>) -> (r: Result<Option<Vid>, Error>)
        requires
            old(self).inv(),
        ensures
            final(self).inv(),
            final(data)@.len() >= old(data)@.len(),
            final(data)@.take(old(data)@.len() as int) == old(data)@,
            r == Ok::<Option<Vid>, Error>(None) ==> final(data)@ == old(data)@,
    ;

    /// Generate a volume table record for this volume. This is done after
    /// the blocks, because the size of the volume may not be known before.
    fn into_vtbl_record(self) -> (r: VolTableRecord)
        requires
            self.inv(),
        ensures
            r@.encodable(),
    ;
}

/// A volume that is not internal, the contents of which come from an
/// image or are initially blank.
pub struct BasicVolume<R: ReadExt> {
    image: Option<R>,
    vtype: VolType,
    id: Option<u32>,
    size: Option<u64>,
    name: String,
    flags: u8,
    alignment: u32,
}

/// The flag of a volume that grows to take the free space.
pub const UBI_VTBL_AUTORESIZE_FLG: u8 = 0x01;

/// The flag of a static volume whose checksums are not verified when it is
/// opened.
pub const UBI_VTBL_SKIP_CRC_CHECK_FLG: u8 = 0x02;

impl<R: ReadExt> View for BasicVolume<R> {
    type V = VolumeSpec;

    closed spec fn view(&self) -> VolumeSpec {
        VolumeSpec {
            vol_type: self.vtype,
            id: self.id,
            size: self.size,
            name: self.name@,
            flags: self.flags,
            alignment: self.alignment,
            image: match self.image {
                Some(source) => Some(source.pending()),
                None => None,
            },
        }
    }
}

impl<R: ReadExt> BasicVolume<R> {
    /// Whether the contracts speak of the source of the image, if there is
    /// one.
    pub closed spec fn sound(&self) -> bool {
        match self.image {
            Some(source) => source.sound(),
            None => true,
        }
    }

    /// Whether the source of the image, if there is one, promises never to
    /// fail.
    pub closed spec fn unfailing(&self) -> bool {
        match self.image {
            Some(source) => source.unfailing(),
            None => true,
        }
    }

    /// Begin creating a new `BasicVolume`, of a given type: without an
    /// image, an ID or a size, with an empty name, no flags and an
    /// alignment of 1.
    pub fn new(vtype: VolType) -> (r: Self)
        ensures
            r@ == (VolumeSpec {
                vol_type: vtype,
                id: None,
                size: None,
                name: Seq::empty(),
                flags: 0,
                alignment: 1,
                image: None,
            }),
            r.unfailing(),
            r.sound(),
    {
        Self {
            image: None,
            vtype,
            id: None,
            size: None,
            name: String::new(),
            flags: 0,
            alignment: 1,
        }
    }

    /// Change the source of the volume's contents.
    pub fn image(self, image: R) -> (r: Self)
        ensures
            r@ == (VolumeSpec { image: Some(image.pending()), ..self@ }),
            r.unfailing() == image.unfailing(),
            r.sound() == image.sound(),
    {
        let mut r = self;
        r.image = Some(image);
        r
    }

    /// Change the ID assigned to the volume from a default of
    /// auto-assigned. It is ignored where it cannot be had.
    pub fn id(self, id: u32) -> (r: Self)
        ensures
            r@ == (VolumeSpec { id: Some(id), ..self@ }),
            r.unfailing() == self.unfailing(),
            r.sound() == self.sound(),
    {
        let mut r = self;
        r.id = Some(id);
        r
    }

    /// Set the size, in bytes, allocated to the volume: no more than this
    /// is read from the image.
    pub fn size(self, bytes: u64) -> (r: Self)
        ensures
            r@ == (VolumeSpec { size: Some(bytes), ..self@ }),
            r.unfailing() == self.unfailing(),
            r.sound() == self.sound(),
    {
        let mut r = self;
        r.size = Some(bytes);
        r
    }

    /// Set the name of the volume.
    pub fn name(self, name: String) -> (r: Self)
        ensures
            r@ == (VolumeSpec { name: name@, ..self@ }),
            r.unfailing() == self.unfailing(),
            r.sound() == self.sound(),
    {
        let mut r = self;
        r.name = name;
        r
    }

    /// Set the UBI "autoresize" flag.
    pub fn autoresize(self) -> (r: Self)
        ensures
            r@ == (VolumeSpec { flags: self@.flags | UBI_VTBL_AUTORESIZE_FLG, ..self@ }),
            r.unfailing() == self.unfailing(),
            r.sound() == self.sound(),
    {
        let mut r = self;
        r.flags = r.flags | UBI_VTBL_AUTORESIZE_FLG;
        r
    }

    /// Set the UBI "skip CRC check" flag.
    pub fn skipcheck(self) -> (r: Self)
        ensures
            r@ == (VolumeSpec { flags: self@.flags | UBI_VTBL_SKIP_CRC_CHECK_FLG, ..self@ }),
            r.unfailing() == self.unfailing(),
            r.sound() == self.sound(),
    {
        let mut r = self;
        r.flags = r.flags | UBI_VTBL_SKIP_CRC_CHECK_FLG;
        r
    }

    /// Set the alignment of the volume. All LEBs will be a multiple of
    /// this size, and will therefore begin at offsets that are multiples
    /// of this size.
    pub fn align(self, alignment: u32) -> (r: Self)
        requires
            alignment > 0,
        ensures
            r@ == (VolumeSpec { alignment, ..self@ }),
            r.unfailing() == self.unfailing(),
            r.sound() == self.sound(),
    {
        let mut r = self;
        r.alignment = alignment;
        r
    }
}

impl<R: ReadExt> Volume for BasicVolume<R> {
    type Data = BasicVolumeData<R>;

    open spec fn fits_spec(&self, eb_size: u32) -> bool {
        self@.fits(eb_size) && self.sound()
    }

    fn into_data(self, eb_size: u32, vol_id: u32) -> (r: BasicVolumeData<R>)
        ensures
            r.template() == self@.template(eb_size, vol_id),
            r.leb_size() == self@.leb_size(eb_size),
            r.left() == self@.payload(),
            r.record()@ == (VolTableRecordView {
                reserved_pebs: self@.used_ebs(eb_size),
                ..self@.record(eb_size)
            }),
            r.unfailing() == self.unfailing(),
            r.sound() == self.sound(),
    {
        // Compute this volume's layout, now that `eb_size` is known.
        let used_ebs = match self.vtype {
            VolType::Dynamic => 0,
            VolType::Static => self.estimate_blocks(eb_size),
        };
        let data_pad = eb_size % self.alignment;
        let leb_size = eb_size - data_pad;
        let vid = Vid {
            vol_type: self.vtype,
            copy_flag: false,
            compat: 0,
            vol_id,
            lnum: 0,
            data_size: 0,
            used_ebs,
            data_pad,
            data_crc: 0,
            sqnum: 0,
        };
        let record = VolTableRecord {
            reserved_pebs: used_ebs,
            alignment: self.alignment,
            data_pad,
            vol_type: self.vtype,
            upd_marker: false,
            name: self.name,
            flags: self.flags,
        };
        // If a size was provided, no more than that size is read from the
        // image.
        let limit = match self.size {
            Some(bytes) => bytes,
            None => u64::MAX,
        };
        let r = BasicVolumeData { image: self.image, limit, leb_size, vid, record };
        proof {
            assert(usize::MAX <= u64::MAX);
            assert(r.left() =~= self@.payload());
        }
        r
    }

    fn get_vol_id(&self) -> (r: Option<u32>)
        ensures
            r == self@.id,
    {
        self.id
    }

    fn estimate_blocks(&self, eb_size: u32) -> (r: u32)
        ensures
            r == self@.estimate(eb_size),
    {
        let data_pad = eb_size % self.alignment;
        let leb_size = eb_size - data_pad;
        let size = match self.size {
            Some(bytes) => bytes,
            None => 0,
        };
        proof {
            lemma_ceil_div(size as nat, leb_size as nat);
        }
        let whole = size / leb_size as u64;
        if size % leb_size as u64 == 0 {
            whole as u32
        } else {
            (whole + 1) as u32
        }
    }
}

/// The data of a [`BasicVolume`].
pub struct BasicVolumeData<R: ReadExt> {
    image: Option<R>,
    limit: u64,
    leb_size: u32,
    vid: Vid,
    record: VolTableRecord,
}

impl<R: ReadExt> BasicVolumeData<R> {
    /// The VID header of the volume; its `lnum` is the number of the block
    /// to come.
    pub closed spec fn template(&self) -> Vid {
        self.vid
    }

    /// The size of a logical block.
    pub closed spec fn leb_size(&self) -> u32 {
        self.leb_size
    }

    /// The volume table record as it was made up at the start.
    pub closed spec fn record(&self) -> VolTableRecord {
        self.record
    }

    /// Whether the contracts speak of the source of the image, if there is
    /// one.
    pub closed spec fn sound(&self) -> bool {
        match self.image {
            Some(source) => source.sound(),
            None => true,
        }
    }

    /// The bytes of the volume that are still to be written.
    pub closed spec fn left(&self) -> Seq<u8> {
        match self.image {
            None => Seq::empty(),
            Some(source) => if self.limit <= source.pending().len() {
                source.pending().take(self.limit as int)
            } else {
                source.pending()
            },
        }
    }

    /// Whether the source of the image, if there is one, promises never to
    /// fail.
    pub closed spec fn unfailing(&self) -> bool {
        match self.image {
            Some(source) => source.unfailing(),
            None => true,
        }
    }

    /// Whether the blocks that are still to come can be counted.
    pub open spec fn countable(&self) -> bool {
        self.template().lnum + ceil_div(self.left().len(), self.leb_size() as nat) <= u32::MAX
    }

    /// The blocks that are still to come.
    pub open spec fn blocks_left(&self) -> Seq<(Vid, Seq<u8>)> {
        blocks_of(self.template(), self.leb_size(), self.left())
    }

    /// The volume table record of the volume once its blocks are out: where
    /// the record reserves no blocks, it gets those that were yielded.
    pub open spec fn final_record(&self) -> VolTableRecordView {
        if self.record()@.reserved_pebs == 0 {
            VolTableRecordView {
                reserved_pebs: (self.template().lnum + self.blocks_left().len()) as u32,
                ..self.record()@
            }
        } else {
            self.record()@
        }
    }
}

impl<R: ReadExt> VolumeData for BasicVolumeData<R> {
    open spec fn inv(&self) -> bool {
        &&& self.leb_size() > 0
        &&& self.record()@.encodable()
        &&& self.sound()
    }

    /// Fails where the source of the image fails, or where the blocks can
    /// be counted no further (`Internal`).
    fn next_block(&mut self, data: &mut Vec<u8>) -> (r: Result<Option<Vid>, Error>)
        ensures
            final(self).leb_size() == old(self).leb_size(),
            final(self).record() == old(self).record(),
            final(self).unfailing() == old(self).unfailing(),
            r matches Ok(None) ==> {
                &&& old(self).left().len() == 0
                &&& final(self).left().len() == 0
                &&& final(self).template() == old(self).template()
            },
            r matches Ok(Some(vid)) ==> {
                &&& old(self).left().len() > 0
                &&& old(self).template().lnum < u32::MAX
                &&& final(data)@ == old(data)@ + leb_chunk(old(self).left(), old(self).leb_size(), 0)
                &&& vid == block_vid(
                    old(self).template(),
                    old(self).template().lnum,
                    leb_chunk(old(self).left(), old(self).leb_size(), 0),
                )
                &&& final(self).template() == (Vid {
                    lnum: (old(self).template().lnum + 1) as u32,
                    ..old(self).template()
                })
                &&& final(self).left() == old(self).left().skip(
                    leb_chunk(old(self).left(), old(self).leb_size(), 0).len() as int,
                )
            },
            old(self).unfailing() && (old(self).left().len() == 0 || old(self).template().lnum
                < u32::MAX) ==> r is Ok,
    {
        let ghost left = self.left();
        let ghost before = data@;
        let leb = self.leb_size;
        let want: usize = if (leb as u64) <= self.limit {
            leb as usize
        } else {
            self.limit as usize
        };
        let old_len = data.len();
        let got: usize;
        match &mut self.image {
            None => {
                return Ok(None);
            },
            Some(image) => {
                let ghost pending = image.pending();
                match image.read_to_vec(data, want) {
                    Err(e) => {
                        return Err(e);
                    },
                    Ok(()) => {},
                }
                got = data.len() - old_len;
                proof {
                    assert(leb_chunk(left, leb, 0) =~= pending.take(
                        crate::util::taken(pending, want),
                    ));
                }
            },
        }
        self.limit = self.limit - got as u64;
        proof {
            assert(self.left() =~= left.skip(got as int));
        }
        if got == 0 {
            assert(data@ =~= before);
            return Ok(None);
        }
        if self.vid.lnum == u32::MAX {
            return Err(Error::Internal);
        }
        let mut vid = self.vid;
        self.vid.lnum = self.vid.lnum + 1;
        if let VolType::Static = vid.vol_type {
            let new_data = vstd::slice::slice_subrange(data.as_slice(), old_len, data.len());
            assert(new_data@ =~= leb_chunk(left, leb, 0));
            vid.data_size = got as u32;
            vid.data_crc = ubi_crc(new_data);
        }
        Ok(Some(vid))
    }

    fn into_vtbl_record(self) -> (r: VolTableRecord)
        ensures
            r@ == (if self.record()@.reserved_pebs == 0 {
                VolTableRecordView { reserved_pebs: self.template().lnum, ..self.record()@ }
            } else {
                self.record()@
            }),
    {
        let mut record = self.record;
        if record.reserved_pebs == 0 {
            record.reserved_pebs = self.vid.lnum;
        }
        record
    }
}

/// The blocks of the layout volume from block `lnum` on: the volume table,
/// in each of its two blocks.
pub open spec fn layout_blocks(table: Seq<u8>, lnum: u32) -> Seq<(Vid, Seq<u8>)> {
    Seq::new(
        if lnum < UBI_LAYOUT_VOLUME_EBS {
            (UBI_LAYOUT_VOLUME_EBS - lnum) as nat
        } else {
            0
        },
        |k: int| (layout_vid((lnum + k) as u32), table),
    )
}

/// The blocks of an image that is made from `volumes`, where the volume
/// table holds `table` so far: the blocks of each volume in turn, under the
/// ID that it is assigned, and then those of the layout volume, which by
/// then holds the records of them all. The headers are without their
/// sequence numbers.
pub open spec fn emit(
    volumes: Seq<VolumeSpec>,
    table: Seq<Option<VolTableRecordView>>,
    eb_size: u32,
) -> Seq<(Vid, Seq<u8>)>
    decreases volumes.len(),
{
    if volumes.len() == 0 {
        layout_blocks(table_bytes(table), 0)
    } else {
        match assigned_id(table, volumes[0].id) {
            Some(id) => volumes[0].blocks(eb_size, id) + emit(
                volumes.drop_first(),
                table.update(id as int, Some(volumes[0].record(eb_size))),
                eb_size,
            ),
            None => Seq::empty(),
        }
    }
}

/// The blocks of the image that is made from `volumes` for erase blocks of
/// `eb_size` bytes, in the order in which they are written. The header of
/// the `k`-th block has the sequence number `k + 1`.
pub open spec fn image_of(volumes: Seq<VolumeSpec>, eb_size: u32) -> Seq<(Vid, Seq<u8>)> {
    let blocks = emit(
        volumes,
        Seq::new(table_slots(eb_size), |i: int| None::<VolTableRecordView>),
        eb_size,
    );
    Seq::new(blocks.len(), |k: int| (blocks[k].0.with_sqnum((k + 1) as u64), blocks[k].1))
}

/// The number of blocks that the volumes are estimated to take, with those
/// of the layout volume.
pub open spec fn total_estimate(volumes: Seq<VolumeSpec>, eb_size: u32) -> nat
    decreases volumes.len(),
{
    if volumes.len() == 0 {
        UBI_LAYOUT_VOLUME_EBS as nat
    } else {
        total_estimate(volumes.drop_last(), eb_size) + volumes.last().estimate(eb_size)
    }
}

/// The data of the volume that a [`Ubinizer`] is working on.
pub enum CurrentData<R: ReadExt> {
    /// No volume has been begun, or the last one has been finished.
    Idle,
    /// A volume of the user.
    Basic(BasicVolumeData<R>),
    /// The layout volume.
    Layout(LayoutVolumeData),
}

/// Given a sequence of volumes, and the EB size (the size of a block minus
/// the pages of the EC and VID headers), yields one by one the blocks that
/// must be written in order to image the flash.
pub struct Ubinizer<R: ReadExt> {
    volumes: VecDeque<BasicVolume<R>>,
    eb_size: u32,
    layout: Option<LayoutVolume>,
    sqnum: u64,
    current_id: u32,
    current_data: CurrentData<R>,
}

/// What the volumes of a queue are made from.
pub open spec fn volume_specs<R: ReadExt>(volumes: Seq<BasicVolume<R>>) -> Seq<VolumeSpec> {
    Seq::new(volumes.len(), |i: int| volumes[i]@)
}

impl<R: ReadExt> Ubinizer<R> {
    /// The sequence number of the last block that was yielded.
    pub closed spec fn sqnum_spec(&self) -> u64 {
        self.sqnum
    }

    /// The size of an erase block, without the pages of the headers.
    pub closed spec fn eb_size_spec(&self) -> u32 {
        self.eb_size
    }

    /// The volume table as it stands.
    closed spec fn table(&self) -> Seq<Option<VolTableRecordView>> {
        match self.layout {
            Some(layout) => layout.table(),
            None => Seq::empty(),
        }
    }

    /// The blocks that are still to come, the headers without their
    /// sequence numbers.
    pub closed spec fn rest(&self) -> Seq<(Vid, Seq<u8>)> {
        match self.current_data {
            CurrentData::Idle => match self.layout {
                Some(layout) => emit(volume_specs(self.volumes@), layout.table(), self.eb_size),
                None => Seq::empty(),
            },
            CurrentData::Basic(data) => data.blocks_left() + emit(
                volume_specs(self.volumes@),
                self.table().update(self.current_id as int, Some(data.final_record())),
                self.eb_size,
            ),
            CurrentData::Layout(data) => layout_blocks(data.payload(), data.lnum()),
        }
    }

    /// Whether no source of an image can fail.
    pub closed spec fn unfailing(&self) -> bool {
        &&& forall|i: int| 0 <= i < self.volumes@.len() ==> (#[trigger] self.volumes@[i]).unfailing()
        &&& match self.current_data {
            CurrentData::Basic(data) => data.unfailing(),
            _ => true,
        }
    }

    /// Whether the blocks that are still to come can be counted: those of
    /// each volume in the field for the number of a block, and all of them
    /// in the sequence numbers that are left.
    pub closed spec fn countable(&self) -> bool {
        &&& self.sqnum + self.rest().len() <= u64::MAX
        &&& forall|i: int|
            0 <= i < self.volumes@.len() ==> (#[trigger] self.volumes@[i])@.countable(self.eb_size)
        &&& match self.current_data {
            CurrentData::Basic(data) => data.countable(),
            _ => true,
        }
    }

    /// The representation invariant.
    pub closed spec fn wf(&self) -> bool {
        &&& forall|i: int|
            0 <= i < self.volumes@.len() ==> (#[trigger] self.volumes@[i]).fits_spec(self.eb_size)
        &&& match self.layout {
            Some(layout) => {
                &&& layout.wf()
                &&& layout.table().len() == table_slots(self.eb_size)
                &&& free_slots(layout.table()) >= self.volumes@.len() + match self.current_data {
                    CurrentData::Basic(_) => 1nat,
                    _ => 0,
                }
                &&& !(self.current_data is Layout)
            },
            None => self.volumes@.len() == 0 && !(self.current_data is Basic),
        }
        &&& match self.current_data {
            CurrentData::Idle => true,
            CurrentData::Basic(data) => {
                &&& data.inv()
                &&& data.leb_size() <= self.eb_size
                &&& slot_free(self.table(), self.current_id)
                &&& data.final_record().encodable()
            },
            CurrentData::Layout(data) => data.wf() && data.payload().len() <= self.eb_size,
        }
    }

    /// Estimate how many blocks the `Ubinizer` will yield, for a given
    /// collection of volumes.
    pub fn estimate_blocks(volumes: &[BasicVolume<R>], eb_size: u32) -> (r: u32)
        requires
            forall|i: int| 0 <= i < volumes@.len() ==> (#[trigger] volumes@[i]).fits_spec(eb_size),
            total_estimate(volume_specs(volumes@), eb_size) <= u32::MAX,
        ensures
            r == total_estimate(volume_specs(volumes@), eb_size),
    {
        let ghost specs = volume_specs(volumes@);
        let mut total: u32 = UBI_LAYOUT_VOLUME_EBS;
        let mut i: usize = 0;
        assert(specs.take(0) =~= Seq::empty());
        while i < volumes.len()
            invariant
                i <= volumes@.len(),
                specs == volume_specs(volumes@),
                forall|j: int| 0 <= j < volumes@.len() ==> (#[trigger] volumes@[j]).fits_spec(eb_size),
                total_estimate(specs, eb_size) <= u32::MAX,
                total == total_estimate(specs.take(i as int), eb_size),
            decreases volumes@.len() - i,
        {
            proof {
                assert(specs.take(i + 1).drop_last() =~= specs.take(i as int));
                lemma_estimate_grows(specs, eb_size, i + 1);
            }
            total = total + volumes[i].estimate_blocks(eb_size);
            i += 1;
        }
        assert(specs.take(volumes@.len() as int) =~= specs);
        total
    }

    /// Create a new `Ubinizer`, which will build an image with the given
    /// volumes that fits in flash with a given EB size. There must be no
    /// more volumes than the volume table has slots.
    pub fn new(volumes: Vec<BasicVolume<R>>, eb_size: u32) -> (r: Self)
        requires
            volumes@.len() <= table_slots(eb_size),
            forall|i: int| 0 <= i < volumes@.len() ==> (#[trigger] volumes@[i]).fits_spec(eb_size),
        ensures
            r.wf(),
            r.eb_size_spec() == eb_size,
            r.sqnum_spec() == 0,
            r.rest() == emit(
                volume_specs(volumes@),
                Seq::new(table_slots(eb_size), |i: int| None::<VolTableRecordView>),
                eb_size,
            ),
            r.unfailing() == (forall|i: int|
                0 <= i < volumes@.len() ==> (#[trigger] volumes@[i]).unfailing()),
            r.countable() == (r.rest().len() <= u64::MAX && forall|i: int|
                0 <= i < volumes@.len() ==> (#[trigger] volumes@[i])@.countable(eb_size)),
    {
        let ghost all = volumes@;
        let mut volumes = volumes;
        let mut queue: VecDeque<BasicVolume<R>> = VecDeque::new();
        assert(volumes@ + queue@ =~= all);
        while volumes.len() > 0
            invariant
                volumes@ + queue@ == all,
            decreases volumes@.len(),
        {
            let ghost before = volumes@;
            match volumes.pop() {
                Some(volume) => {
                    queue.push_front(volume);
                    assert(volumes@ + queue@ =~= all) by {
                        assert(before =~= volumes@ + seq![volume]);
                    }
                },
                None => {},
            }
        }
        assert(queue@ =~= all);
        let layout = LayoutVolume::new(eb_size);
        proof {
            lemma_empty_table(table_slots(eb_size));
        }
        Self {
            volumes: queue,
            eb_size,
            layout: Some(layout),
            sqnum: 0,
            current_id: 0,
            current_data: CurrentData::Idle,
        }
    }

    /// Pull the next volume, or the layout volume once the others are
    /// through, and begin reading its data.
    fn next_volume(&mut self) -> (r: Result<(), Error>)
        requires
            old(self).wf(),
            old(self).current_data is Idle,
        ensures
            final(self).wf(),
            final(self).rest() == old(self).rest(),
            final(self).sqnum == old(self).sqnum,
            final(self).eb_size == old(self).eb_size,
            old(self).unfailing() ==> final(self).unfailing(),
            old(self).countable() ==> final(self).countable(),
            r is Ok,
            final(self).current_data is Idle ==> final(self).rest().len() == 0,
            old(self).layout is None ==> final(self).current_data is Idle,
            final(self).measure() < old(self).measure() || final(self).current_data is Idle,
    {
        let ghost specs = volume_specs(self.volumes@);
        let ghost queue = self.volumes@;
        match self.volumes.pop_front() {
            Some(volume) => {
                proof {
                    assert(volume == queue[0]);
                    assert(volume.fits_spec(self.eb_size));
                    assert(volume_specs(self.volumes@) =~= specs.drop_first());
                    assert(volume@ == specs[0]);
                    assert forall|i: int| 0 <= i < self.volumes@.len() implies (
                    #[trigger] self.volumes@[i]).fits_spec(self.eb_size) && (self.volumes@[i].unfailing()
                        == queue[i + 1].unfailing()) by {
                        assert(self.volumes@[i] == queue[i + 1]);
                    }
                    if volume.unfailing() && (forall|i: int|
                        0 <= i < self.volumes@.len() ==> (
                        #[trigger] self.volumes@[i]).unfailing()) {
                        assert forall|i: int| 0 <= i < queue.len() implies (
                        #[trigger] queue[i]).unfailing() by {
                            if i > 0 {
                                assert(self.volumes@[i - 1] == queue[i]);
                            }
                        }
                    }
                    if forall|i: int| 0 <= i < queue.len() ==> (#[trigger] queue[i]).unfailing() {
                        assert(queue[0].unfailing());
                        assert forall|i: int| 0 <= i < self.volumes@.len() implies (
                        #[trigger] self.volumes@[i]).unfailing() by {
                            assert(queue[i + 1].unfailing());
                        }
                    }
                    if forall|i: int|
                        0 <= i < queue.len() ==> (#[trigger] queue[i])@.countable(self.eb_size) {
                        assert(queue[0]@.countable(self.eb_size));
                        assert forall|i: int| 0 <= i < self.volumes@.len() implies (
                        #[trigger] self.volumes@[i])@.countable(self.eb_size) by {
                            assert(queue[i + 1]@.countable(self.eb_size));
                        }
                    }
                }
                // Allocate a volume ID.
                let mut vol_id = volume.get_vol_id();
                match &self.layout {
                    Some(layout) => {
                        let wanted_free = match vol_id {
                            Some(id) => layout.is_id_available(id),
                            None => false,
                        };
                        if !wanted_free {
                            vol_id = layout.allocate_id();
                        }
                        proof {
                            lemma_first_free(layout.table(), 0);
                            if first_free(layout.table(), 0) is None {
                                lemma_no_free_slots(layout.table());
                            }
                        }
                    },
                    None => {},
                }
                match vol_id {
                    None => Err(Error::Internal),
                    Some(id) => {
                        self.current_id = id;
                        let ghost spec = volume@;
                        let data = volume.into_data(self.eb_size, id);
                        proof {
                            lemma_ceil_div(spec.payload().len(), spec.leb_size(self.eb_size) as nat);
                            assert(data.final_record() == spec.record(self.eb_size));
                            assert(data.blocks_left() == spec.blocks(self.eb_size, id));
                        }
                        self.current_data = CurrentData::Basic(data);
                        Ok(())
                    },
                }
            },
            None => {
                assert(specs =~= Seq::empty());
                match self.layout.take() {
                    Some(layout) => {
                        proof {
                            assert(layout.table().len() * UBI_VTBL_RECORD_SIZE <= self.eb_size)
                                by (nonlinear_arith)
                                requires
                                    layout.table().len() <= self.eb_size as nat / (
                                    UBI_VTBL_RECORD_SIZE as nat),
                            ;
                        }
                        proof {
                            lemma_table_bytes_len(layout.table());
                        }
                        self.current_id = UBI_LAYOUT_VOLUME_ID;
                        let data = layout.into_data(self.eb_size, UBI_LAYOUT_VOLUME_ID);
                        self.current_data = CurrentData::Layout(data);
                    },
                    None => {},
                }
                Ok(())
            },
        }
    }

    /// What bounds the work that is left before a block is yielded.
    closed spec fn measure(&self) -> nat {
        2 * self.volumes@.len() + match self.layout {
            Some(_) => 2nat,
            None => 0,
        } + match self.current_data {
            CurrentData::Idle => 0nat,
            _ => 1,
        }
    }

    /// Whether the volume that is being worked on has no block left.
    closed spec fn exhausted(&self) -> bool {
        match self.current_data {
            CurrentData::Idle => true,
            CurrentData::Basic(data) => data.left().len() == 0,
            CurrentData::Layout(data) => data.lnum() >= UBI_LAYOUT_VOLUME_EBS,
        }
    }

    /// Whether the blocks of each volume can be counted.
    closed spec fn countable_but_sqnum(&self) -> bool {
        &&& forall|i: int|
            0 <= i < self.volumes@.len() ==> (#[trigger] self.volumes@[i])@.countable(self.eb_size)
        &&& match self.current_data {
            CurrentData::Basic(data) => data.countable(),
            _ => true,
        }
    }

    /// Take the next block from the volume that is being worked on, if it
    /// has one left.
    fn pull(&mut self, data: &mut Vec<u8>) -> (r: Result<Option<Vid>, Error>)
        requires
            old(self).wf(),
        ensures
            final(self).wf(),
            final(self).eb_size == old(self).eb_size,
            final(self).sqnum == old(self).sqnum,
            old(self).unfailing() ==> final(self).unfailing(),
            old(self).unfailing() && old(self).countable() ==> r is Ok,
            old(self).countable() && (r matches Ok(Some(_))) ==> final(self).sqnum + 1
                + final(self).rest().len() <= u64::MAX && final(self).countable_but_sqnum(),
            old(self).countable() && r == Ok::<Option<Vid>, Error>(None)
                ==> final(self).countable(),
            final(self).measure() == old(self).measure(),
            final(data)@.len() >= old(data)@.len(),
            final(data)@.take(old(data)@.len() as int) == old(data)@,
            r matches Ok(Some(vid)) ==> {
                &&& old(self).rest().len() > 0
                &&& vid == old(self).rest()[0].0
                &&& final(data)@ == old(data)@ + old(self).rest()[0].1
                &&& old(self).rest()[0].1.len() <= old(self).eb_size
                &&& final(self).rest() == old(self).rest().drop_first()
            },
            r matches Ok(None) ==> {
                &&& final(self).exhausted()
                &&& final(self).rest() == old(self).rest()
                &&& final(data)@ == old(data)@
                &&& (old(self).current_data is Idle) == (final(self).current_data is Idle)
            },
    {
        let ghost before = data@;
        match &mut self.current_data {
            CurrentData::Idle => {
                assert(data@.take(before.len() as int) =~= before);
                Ok(None)
            },
            CurrentData::Basic(volume_data) => {
                let ghost held = *volume_data;
                proof {
                    lemma_ceil_div(held.left().len(), held.leb_size() as nat);
                }
                let next = match volume_data.next_block(data) {
                    Err(e) => {
                        return Err(e);
                    },
                    Ok(next) => next,
                };
                proof {
                    lemma_ceil_div(held.left().len(), held.leb_size() as nat);
                    lemma_ceil_div(volume_data.left().len(), held.leb_size() as nat);
                    if next is Some {
                        lemma_blocks_of_rest(held.template(), held.leb_size(), held.left());
                    } else {
                        assert(volume_data.blocks_left() =~= held.blocks_left());
                    }
                    assert(volume_data.final_record() == held.final_record());
                }
                Ok(next)
            },
            CurrentData::Layout(layout_data) => {
                let ghost held = *layout_data;
                let next = match layout_data.next_block(data) {
                    Err(e) => {
                        return Err(e);
                    },
                    Ok(next) => next,
                };
                proof {
                    assert(data@.take(before.len() as int) =~= before);
                    if next is Some {
                        assert(layout_blocks(layout_data.payload(), layout_data.lnum())
                            =~= layout_blocks(held.payload(), held.lnum()).drop_first());
                    }
                }
                Ok(next)
            },
        }
    }

    /// Lay the volume that is through aside; the record of a volume of the
    /// user goes into the volume table.
    fn retire(&mut self)
        requires
            old(self).wf(),
            old(self).exhausted(),
        ensures
            final(self).wf(),
            final(self).eb_size == old(self).eb_size,
            final(self).sqnum == old(self).sqnum,
            old(self).unfailing() ==> final(self).unfailing(),
            old(self).countable() ==> final(self).countable(),
            final(self).rest() == old(self).rest(),
            final(self).current_data is Idle,
            !(old(self).current_data is Idle) ==> final(self).measure() < old(self).measure(),
            final(self).measure() <= old(self).measure(),
    {
        let mut finished = CurrentData::Idle;
        std::mem::swap(&mut self.current_data, &mut finished);
        match finished {
            CurrentData::Basic(volume_data) => {
                if let Some(layout) = &mut self.layout {
                    proof {
                        lemma_ceil_div(volume_data.left().len(), volume_data.leb_size() as nat);
                        lemma_free_slots(
                            layout.table(),
                            self.current_id as int,
                            volume_data.final_record(),
                        );
                    }
                    let record = volume_data.into_vtbl_record();
                    layout.store_record(self.current_id, record);
                }
            },
            CurrentData::Layout(layout_data) => {
                assert(layout_blocks(layout_data.payload(), layout_data.lnum()).len() == 0);
                assert(layout_blocks(layout_data.payload(), layout_data.lnum()) =~= Seq::empty());
            },
            CurrentData::Idle => {},
        }
    }

    /// Yield the next block of the image, or `None` if this is the end of
    /// the image.
    ///
    /// The block's data is appended to `data`, so space for headers may be
    /// reserved by the caller.
    ///
    /// Fails where the source of an image fails, or where the blocks can be
    /// counted no further (`Internal`).
    pub fn next_block(&mut self, data: &mut Vec<u8>) -> (r: Result<Option<Vid>, Error>)
        requires
            old(self).wf(),
        ensures
            final(self).wf(),
            final(self).eb_size_spec() == old(self).eb_size_spec(),
            old(self).unfailing() ==> final(self).unfailing(),
            final(data)@.len() >= old(data)@.len(),
            final(data)@.take(old(data)@.len() as int) == old(data)@,
            r matches Ok(Some(vid)) ==> {
                &&& old(self).rest().len() > 0
                &&& vid == old(self).rest()[0].0.with_sqnum(vid.sqnum)
                &&& vid.sqnum == old(self).sqnum_spec() + 1
                &&& final(self).sqnum_spec() == vid.sqnum
                &&& final(data)@ == old(data)@ + old(self).rest()[0].1
                &&& old(self).rest()[0].1.len() <= old(self).eb_size_spec()
                &&& final(self).rest() == old(self).rest().drop_first()
            },
            r matches Ok(None) ==> {
                &&& old(self).rest().len() == 0
                &&& final(self).rest().len() == 0
                &&& final(self).sqnum_spec() == old(self).sqnum_spec()
                &&& final(data)@ == old(data)@
            },
            old(self).countable() && r is Ok ==> final(self).countable(),
            old(self).unfailing() && old(self).countable() ==> r is Ok,
            r is Err ==> final(self).sqnum_spec() == old(self).sqnum_spec(),
    {
        loop
            invariant
                self.wf(),
                self.eb_size == old(self).eb_size,
                self.sqnum == old(self).sqnum,
                old(self).unfailing() ==> self.unfailing(),
                old(self).countable() ==> self.countable(),
                self.rest() == old(self).rest(),
                data@ == old(data)@,
            decreases self.measure(),
        {
            if let CurrentData::Idle = self.current_data {
                match self.next_volume() {
                    Err(e) => {
                        assert(data@.take(data@.len() as int) =~= data@);
                        return Err(e);
                    },
                    Ok(()) => {},
                }
            }
            // As long as the current volume provides blocks, just keep
            // consuming it.

            match self.pull(data) {
                Err(e) => {
                    return Err(e);
                },
                Ok(Some(vid)) => {
                    if self.sqnum == u64::MAX {
                        return Err(Error::Internal);
                    }
                    self.sqnum = self.sqnum + 1;
                    return Ok(Some(vid.sqnum(self.sqnum)));
                },
                Ok(None) => {},
            }
            if let CurrentData::Idle = self.current_data {
                // End of all blocks.
                return Ok(None);
            }
            // The current volume is through; the next round of the loop
            // starts on a fresh one.

            self.retire();
        }
    }
}

/// The estimate of some of the volumes is no more than that of all.
proof fn lemma_estimate_grows(volumes: Seq<VolumeSpec>, eb_size: u32, n: int)
    requires
        0 <= n <= volumes.len(),
    ensures
        total_estimate(volumes.take(n), eb_size) <= total_estimate(volumes, eb_size),
    decreases volumes.len() - n,
{
    if n < volumes.len() {
        lemma_estimate_grows(volumes, eb_size, n + 1);
        assert(volumes.take(n + 1).drop_last() =~= volumes.take(n));
    } else {
        assert(volumes.take(n) =~= volumes);
    }
}

/// The sequence numbers of the blocks of an image are strictly increasing
/// in the order in which the blocks are written.
pub proof fn lemma_sqnum_increasing(volumes: Seq<VolumeSpec>, eb_size: u32, k1: int, k2: int)
    requires
        0 <= k1 < k2 < image_of(volumes, eb_size).len(),
        image_of(volumes, eb_size).len() <= u64::MAX,
    ensures
        image_of(volumes, eb_size)[k1].0.sqnum < image_of(volumes, eb_size)[k2].0.sqnum,
{
}

/// The blocks of a volume are numbered from 0 on, without a gap; those of
/// a static volume whose image holds all the bytes of its size are as many
/// as the volume declares in their headers.
pub proof fn lemma_volume_lnums(volume: VolumeSpec, eb_size: u32, vol_id: u32, k: int)
    requires
        volume.fits(eb_size),
        volume.blocks(eb_size, vol_id).len() <= u32::MAX,
        0 <= k < volume.blocks(eb_size, vol_id).len(),
    ensures
        volume.blocks(eb_size, vol_id)[k].0.lnum == k,
        volume.blocks(eb_size, vol_id)[k].0.vol_id == vol_id,
        volume.blocks(eb_size, vol_id)[k].0.used_ebs == volume.used_ebs(eb_size),
        volume.vol_type is Static && volume.image is Some && volume.image->Some_0.len()
            >= volume.size->Some_0 ==> volume.blocks(eb_size, vol_id).len() == volume.used_ebs(
            eb_size,
        ),
{
}

/// The layout volume comes last in an image, in exactly two blocks with
/// the same payload, the volume table; no block before them belongs to it.
pub proof fn lemma_layout_last(
    volumes: Seq<VolumeSpec>,
    table: Seq<Option<VolTableRecordView>>,
    eb_size: u32,
)
    requires
        table.len() <= UBI_MAX_VOLUMES,
        free_slots(table) >= volumes.len(),
    ensures
        emit(volumes, table, eb_size).len() >= 2,
        ({
            let blocks = emit(volumes, table, eb_size);
            let n = blocks.len() as int;
            &&& blocks[n - 2].0 == layout_vid(0)
            &&& blocks[n - 1].0 == layout_vid(1)
            &&& blocks[n - 2].1 == blocks[n - 1].1
            &&& forall|k: int| 0 <= k < n - 2 ==> (#[trigger] blocks[k]).0.vol_id < UBI_MAX_VOLUMES
        }),
    decreases volumes.len(),
{
    if volumes.len() > 0 {
        lemma_first_free(table, 0);
        if first_free(table, 0) is None {
            lemma_no_free_slots(table);
        }
        let id = assigned_id(table, volumes[0].id)->Some_0;
        let record = volumes[0].record(eb_size);
        lemma_free_slots(table, id as int, record);
        lemma_layout_last(volumes.drop_first(), table.update(id as int, Some(record)), eb_size);
    }
}

} // verus!
