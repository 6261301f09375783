//! The UBI erase-counter header, volume-identifier header and volume table
//! record: what they hold, how they lie on flash, and how they are checked
//! when read back.

use crate::error::Error;
use crate::nand::{patched, window};
use crate::ubi::bytes::{
    be16, be16_at, be32, be32_at, be64, be64_at, lemma_be16_at, lemma_be32_at, lemma_be64_at,
    push_be16, push_be32, push_be64, push_zeros, read_be16, read_be32, read_be64, zeros,
};
use vstd::prelude::*;

verus! {

/// The only header version there is.
pub const UBI_VERSION: u8 = 1;

/// Bytes in an erase-counter header.
pub const UBI_EC_HDR_SIZE: usize = 64;

/// Bytes in a volume-identifier header.
pub const UBI_VID_HDR_SIZE: usize = 64;

/// Bytes in a volume table record.
pub const UBI_VTBL_RECORD_SIZE: usize = 172;

/// Bytes that a volume table record sets aside for the volume's name.
pub const UBI_VOL_NAME_SIZE: usize = 128;

/// `UBI#`, which opens an erase-counter header.
pub open spec fn ec_magic() -> Seq<u8> {
    seq![0x55u8, 0x42u8, 0x49u8, 0x23u8]
}

/// `UBI!`, which opens a volume-identifier header.
pub open spec fn vid_magic() -> Seq<u8> {
    seq![0x55u8, 0x42u8, 0x49u8, 0x21u8]
}

/// The CRC-32 that UBI uses (polynomial 0x04C11DB7, initial value
/// 0xFFFFFFFF, reflected, no final xor) of `bytes`, as the `crc` crate
/// computes it.
pub uninterp spec fn ubi_crc_of(bytes: Seq<u8>) -> u32;

/// Calls `crc::Crc::<u32>::checksum` with the algorithm
/// `crc::CRC_32_JAMCRC`. The result depends on the bytes alone; the contract
/// gives it its name.
#[verifier::external_body]
pub(crate) fn ubi_crc(bytes: &[u8]) -> (r: u32)
    ensures
        r == ubi_crc_of(bytes@),
{
    crc::Crc::<u32>::new(&crc::CRC_32_JAMCRC).checksum(bytes)
}

/// `fields` followed by its checksum: a whole header as it lies on flash.
pub open spec fn sealed(fields: Seq<u8>) -> Seq<u8> {
    fields + be32(ubi_crc_of(fields))
}

/// Whether the last four bytes of the first `size` bytes of `buf` hold the
/// checksum of the bytes before them.
pub open spec fn seal_intact(buf: Seq<u8>, size: int) -> bool {
    be32_at(buf, size - 4) == ubi_crc_of(buf.subrange(0, size - 4))
}

/// A sealed header passes the checksum test, whatever follows it.
pub proof fn lemma_sealed_intact(fields: Seq<u8>, rest: Seq<u8>)
    ensures
        seal_intact(sealed(fields) + rest, fields.len() as int + 4),
{
    let buf = sealed(fields) + rest;
    let n = fields.len() as int;
    assert(buf.subrange(0, n) =~= fields);
    assert(buf.subrange(n, n + 4) =~= be32(ubi_crc_of(fields)));
    lemma_be32_at(buf, n, ubi_crc_of(fields));
}

/// Check the checksum of the header in the first `size` bytes of `buf`.
fn check_seal(buf: &[u8], size: usize) -> (r: bool)
    requires
        4 <= size <= buf@.len(),
    ensures
        r == seal_intact(buf@, size as int),
{
    let covered = vstd::slice::slice_subrange(buf, 0, size - 4);
    read_be32(buf, size - 4) == ubi_crc(covered)
}

/// Computing the checksum that closes a header.
pub trait ComputeCrc {
    /// Whether the header fits its on-flash form.
    spec fn encodable(&self) -> bool;

    /// The header as it lies on flash, without its checksum field.
    spec fn crc_input(&self) -> Seq<u8>;

    /// The checksum over every byte of the header but the checksum field.
    fn compute_crc(&self) -> (r: u32)
        requires
            self.encodable(),
        ensures
            r == ubi_crc_of(self.crc_input()),
    ;
}

/// Parsing a header that opens with a magic number from a byte slice, with
/// the magic, the version and the checksum verified.
pub trait ParseHeader: Sized {
    /// The four bytes that open this kind of header.
    spec fn magic_spec() -> Seq<u8>;

    /// What `parse` returns: the header in the first bytes of `buf`, if
    /// there is a sound one.
    spec fn parse_spec(buf: Seq<u8>) -> Option<Self>;

    /// The four bytes that open this kind of header.
    fn get_magic() -> (r: &'static [u8])
        ensures
            r@ == Self::magic_spec(),
    ;

    /// The header in the first bytes of `buf`; `None` where the magic, the
    /// version or the checksum is wrong, or `buf` is too short.
    fn parse(buf: &[u8]) -> (r: Option<Self>)
        ensures
            r == Self::parse_spec(buf@),
    ;
}

/// The fields of an erase-counter header that this library works with.
#[derive(Debug, Eq, PartialEq, Copy, Clone, Structural)]
pub struct Ec {
    pub ec: u64,
    pub vid_hdr_offset: u32,
    pub data_offset: u32,
    pub image_seq: u32,
}

impl Default for Ec {
    fn default() -> (r: Ec)
        ensures
            r == (Ec { ec: 0, vid_hdr_offset: 0, data_offset: 0, image_seq: 0 }),
    {
        Ec { ec: 0, vid_hdr_offset: 0, data_offset: 0, image_seq: 0 }
    }
}

impl Ec {
    /// This header with another erase counter.
    pub open spec fn with_ec(self, ec: u64) -> Ec {
        Ec { ec, ..self }
    }

    /// Whether two headers agree in all but the erase counter.
    pub open spec fn same_layout(self, other: Ec) -> bool {
        &&& self.vid_hdr_offset == other.vid_hdr_offset
        &&& self.data_offset == other.data_offset
        &&& self.image_seq == other.image_seq
    }

    /// The header on flash, without its checksum.
    pub open spec fn fields(self) -> Seq<u8> {
        ec_magic() + seq![UBI_VERSION] + zeros(3) + be64(self.ec) + be32(self.vid_hdr_offset)
            + be32(self.data_offset) + be32(self.image_seq) + zeros(32)
    }

    /// The header on flash: 64 bytes.
    pub open spec fn image(self) -> Seq<u8> {
        sealed(self.fields())
    }

    /// The header that the first 64 bytes of `buf` hold, if they open with
    /// the magic and the version and close with the right checksum.
    pub open spec fn parsed(buf: Seq<u8>) -> Option<Ec> {
        if buf.len() >= UBI_EC_HDR_SIZE && window(buf, 0, 4) == ec_magic() && buf[4]
            == UBI_VERSION && seal_intact(buf, UBI_EC_HDR_SIZE as int) {
            Some(
                Ec {
                    ec: be64_at(buf, 8),
                    vid_hdr_offset: be32_at(buf, 16),
                    data_offset: be32_at(buf, 20),
                    image_seq: be32_at(buf, 24),
                },
            )
        } else {
            None
        }
    }

    /// Change the erase counter of this EC header.
    pub fn ec(self, ec: u64) -> (r: Ec)
        ensures
            r == self.with_ec(ec),
    {
        let mut r = self;
        r.ec = ec;
        r
    }

    /// Increment the erase counter of this EC header.
    pub fn inc_ec(self) -> (r: Ec)
        requires
            self.ec < u64::MAX,
        ensures
            r == self.with_ec((self.ec + 1) as u64),
    {
        let mut r = self;
        r.ec = r.ec + 1;
        r
    }

    /// The header as it is written to flash, without its checksum.
    fn field_bytes(self) -> (r: Vec<u8>)
        ensures
            r@ == self.fields(),
    {
        let mut v: Vec<u8> = Vec::new();
        v.push(0x55);
        v.push(0x42);
        v.push(0x49);
        v.push(0x23);
        assert(v@ =~= ec_magic());
        v.push(UBI_VERSION);
        assert(v@ =~= ec_magic() + seq![UBI_VERSION]);
        push_zeros(&mut v, 3);
        push_be64(&mut v, self.ec);
        push_be32(&mut v, self.vid_hdr_offset);
        push_be32(&mut v, self.data_offset);
        push_be32(&mut v, self.image_seq);
        push_zeros(&mut v, 32);
        v
    }

    /// Convert from a byte slice.
    pub fn decode(bytes: &[u8]) -> (r: Option<Ec>)
        ensures
            r == Ec::parsed(bytes@),
    {
        if bytes.len() < UBI_EC_HDR_SIZE {
            return None;
        }
        if !(bytes[0] == 0x55 && bytes[1] == 0x42 && bytes[2] == 0x49 && bytes[3] == 0x23) {
            assert(window(bytes@, 0, 4)[0] == bytes@[0]);
            assert(window(bytes@, 0, 4)[1] == bytes@[1]);
            assert(window(bytes@, 0, 4)[2] == bytes@[2]);
            assert(window(bytes@, 0, 4)[3] == bytes@[3]);
            return None;
        }
        assert(window(bytes@, 0, 4) =~= ec_magic());
        if bytes[4] != UBI_VERSION {
            return None;
        }
        if !check_seal(bytes, UBI_EC_HDR_SIZE) {
            return None;
        }
        Some(
            Ec {
                ec: read_be64(bytes, 8),
                vid_hdr_offset: read_be32(bytes, 16),
                data_offset: read_be32(bytes, 20),
                image_seq: read_be32(bytes, 24),
            },
        )
    }

    /// Write into the first 64 bytes of a byte slice; fails, and writes
    /// nothing, where the slice is shorter.
    pub fn encode(self, out_bytes: &mut [u8]) -> (r: Result<(), Error>)
        ensures
            old(out_bytes)@.len() < UBI_EC_HDR_SIZE <==> r is Err,
            r is Err ==> r == Err::<(), Error>(Error::BadInput) && final(out_bytes)@ == old(
                out_bytes,
            )@,
            r is Ok ==> final(out_bytes)@ == patched(old(out_bytes)@, 0, self.image()),
    {
        let mut image = self.field_bytes();
        let crc = ubi_crc(image.as_slice());
        push_be32(&mut image, crc);
        copy_into(out_bytes, image.as_slice())
    }
}

/// Overwrite the first bytes of `out` with `image`; fails, and writes
/// nothing, where `out` is shorter than `image`.
fn copy_into(out: &mut [u8], image: &[u8]) -> (r: Result<(), Error>)
    ensures
        old(out)@.len() < image@.len() <==> r is Err,
        r is Err ==> r == Err::<(), Error>(Error::BadInput) && final(out)@ == old(out)@,
        r is Ok ==> final(out)@ == patched(old(out)@, 0, image@),
{
    if out.len() < image.len() {
        return Err(Error::BadInput);
    }
    let ghost before = out@;
    let mut i: usize = 0;
    assert(out@ =~= patched(before, 0, image@.subrange(0, 0)));
    while i < image.len()
        invariant
            i <= image@.len(),
            image@.len() <= out@.len(),
            out@.len() == before.len(),
            out@ == patched(before, 0, image@.subrange(0, i as int)),
        decreases image@.len() - i,
    {
        out[i] = image[i];
        i += 1;
        assert(out@ =~= patched(before, 0, image@.subrange(0, i as int)));
    }
    assert(image@.subrange(0, i as int) =~= image@);
    Ok(())
}

impl ComputeCrc for Ec {
    open spec fn encodable(&self) -> bool {
        true
    }

    open spec fn crc_input(&self) -> Seq<u8> {
        self.fields()
    }

    fn compute_crc(&self) -> (r: u32) {
        let fields = self.field_bytes();
        ubi_crc(fields.as_slice())
    }
}

impl ParseHeader for Ec {
    open spec fn magic_spec() -> Seq<u8> {
        ec_magic()
    }

    open spec fn parse_spec(buf: Seq<u8>) -> Option<Ec> {
        Ec::parsed(buf)
    }

    fn get_magic() -> (r: &'static [u8]) {
        let r: &'static [u8] = &[0x55u8, 0x42u8, 0x49u8, 0x23u8];
        assert(r@ =~= ec_magic());
        r
    }

    fn parse(buf: &[u8]) -> (r: Option<Ec>) {
        Ec::decode(buf)
    }
}

/// Where the fields of an encoded erase-counter header lie, whatever
/// follows the header.
pub proof fn lemma_ec_image(h: Ec, rest: Seq<u8>)
    ensures
        h.image().len() == UBI_EC_HDR_SIZE,
        window(h.image() + rest, 0, 4) == ec_magic(),
        (h.image() + rest)[4] == UBI_VERSION,
        be64_at(h.image() + rest, 8) == h.ec,
        be32_at(h.image() + rest, 16) == h.vid_hdr_offset,
        be32_at(h.image() + rest, 20) == h.data_offset,
        be32_at(h.image() + rest, 24) == h.image_seq,
        seal_intact(h.image() + rest, UBI_EC_HDR_SIZE as int),
{
    let buf = h.image() + rest;
    assert(window(buf, 0, 4) =~= ec_magic());
    assert(buf.subrange(8, 16) =~= be64(h.ec));
    lemma_be64_at(buf, 8, h.ec);
    assert(buf.subrange(16, 20) =~= be32(h.vid_hdr_offset));
    lemma_be32_at(buf, 16, h.vid_hdr_offset);
    assert(buf.subrange(20, 24) =~= be32(h.data_offset));
    lemma_be32_at(buf, 20, h.data_offset);
    assert(buf.subrange(24, 28) =~= be32(h.image_seq));
    lemma_be32_at(buf, 24, h.image_seq);
    lemma_sealed_intact(h.fields(), rest);
}

/// Decoding an encoded erase-counter header gives the header back; what
/// follows the header in the buffer does not matter.
pub proof fn lemma_ec_decode_encode(h: Ec, rest: Seq<u8>)
    ensures
        Ec::parsed(h.image() + rest) == Some(h),
{
    lemma_ec_image(h, rest);
}

/// Encoding what was decoded from an encoded erase-counter header gives the
/// same bytes again.
pub proof fn lemma_ec_encode_decode(b: Seq<u8>, h: Ec)
    requires
        b == h.image(),
    ensures
        Ec::parsed(b) is Some,
        Ec::parsed(b)->Some_0.image() == b,
{
    lemma_ec_decode_encode(h, Seq::empty());
    assert(h.image() + Seq::<u8>::empty() =~= h.image());
}

/// The UBI volume types.
#[derive(Debug, Eq, PartialEq, Copy, Clone, Structural)]
pub enum VolType {
    /// A volume that may be read and written in random order.
    Dynamic,
    /// A volume that is read-only after it is initially written, except for
    /// whole-volume updates.
    Static,
}

impl Default for VolType {
    fn default() -> (r: VolType)
        ensures
            r == VolType::Dynamic,
    {
        VolType::Dynamic
    }
}

impl VolType {
    /// The byte that stands for this volume type on flash.
    pub open spec fn code(self) -> u8 {
        match self {
            VolType::Dynamic => 1,
            VolType::Static => 2,
        }
    }

    /// The volume type that a byte on flash stands for, if any.
    pub open spec fn of_code(value: u8) -> Option<VolType> {
        if value == 1 {
            Some(VolType::Dynamic)
        } else if value == 2 {
            Some(VolType::Static)
        } else {
            None
        }
    }

    /// The byte that stands for this volume type on flash.
    pub fn to_u8(self) -> (r: u8)
        ensures
            r == self.code(),
    {
        match self {
            VolType::Dynamic => 1,
            VolType::Static => 2,
        }
    }

    /// The volume type that a byte on flash stands for, if any.
    pub fn from_u8(value: u8) -> (r: Option<VolType>)
        ensures
            r == VolType::of_code(value),
    {
        if value == 1 {
            Some(VolType::Dynamic)
        } else if value == 2 {
            Some(VolType::Static)
        } else {
            None
        }
    }
}

/// The byte that stands for a flag on flash.
pub open spec fn flag_byte(flag: bool) -> u8 {
    if flag {
        1
    } else {
        0
    }
}

/// The fields of a volume-identifier header that this library works with.
#[derive(Debug, Eq, PartialEq, Copy, Clone, Structural)]
pub struct Vid {
    /// The type of volume.
    pub vol_type: VolType,
    /// Whether this PEB was written as a copy of another, for wear-leveling
    /// purposes.
    pub copy_flag: bool,
    /// For internal volumes, flags indicating how UBI should handle the
    /// volume.
    pub compat: u8,
    /// The ID of the volume, and entry in the volume table.
    pub vol_id: u32,
    /// The offset of the LEB within this volume.
    pub lnum: u32,
    /// For `Static` volumes and copied LEBs, the number of bytes written at
    /// the same time as the VID header, which are thus included in
    /// `data_crc`; otherwise 0.
    pub data_size: u32,
    /// The number of LEBs used by this volume, or 0 if this volume is
    /// `Dynamic`.
    pub used_ebs: u32,
    /// The number of bytes unused at the end of the PEB, to cut the LEB down
    /// to a multiple of the requested volume alignment size.
    pub data_pad: u32,
    /// The CRC of the first `data_size` bytes of the LEB, or 0 when unused.
    pub data_crc: u32,
    /// A unique counter greater than any other VID header written, for
    /// resolving `vol_id:lnum` collisions.
    pub sqnum: u64,
}

impl Default for Vid {
    fn default() -> (r: Vid)
        ensures
            r == Vid::blank(),
    {
        Vid {
            vol_type: VolType::Dynamic,
            copy_flag: false,
            compat: 0,
            vol_id: 0,
            lnum: 0,
            data_size: 0,
            used_ebs: 0,
            data_pad: 0,
            data_crc: 0,
            sqnum: 0,
        }
    }
}

impl Vid {
    /// The header of a dynamic volume with every number zero.
    pub open spec fn blank() -> Vid {
        Vid {
            vol_type: VolType::Dynamic,
            copy_flag: false,
            compat: 0,
            vol_id: 0,
            lnum: 0,
            data_size: 0,
            used_ebs: 0,
            data_pad: 0,
            data_crc: 0,
            sqnum: 0,
        }
    }

    /// This header with another sequence number.
    pub open spec fn with_sqnum(self, sqnum: u64) -> Vid {
        Vid { sqnum, ..self }
    }

    /// The header on flash, without its checksum.
    pub open spec fn fields(self) -> Seq<u8> {
        vid_magic() + seq![UBI_VERSION, self.vol_type.code(), flag_byte(self.copy_flag), self.compat]
            + be32(self.vol_id) + be32(self.lnum) + zeros(4) + be32(self.data_size) + be32(
            self.used_ebs,
        ) + be32(self.data_pad) + be32(self.data_crc) + zeros(4) + be64(self.sqnum) + zeros(12)
    }

    /// The header on flash: 64 bytes.
    pub open spec fn image(self) -> Seq<u8> {
        sealed(self.fields())
    }

    /// The header that the first 64 bytes of `buf` hold, if they open with
    /// the magic and the version, close with the right checksum and name a
    /// volume type that exists. Any nonzero byte sets the copy flag.
    pub open spec fn parsed(buf: Seq<u8>) -> Option<Vid> {
        if buf.len() >= UBI_VID_HDR_SIZE && window(buf, 0, 4) == vid_magic() && buf[4]
            == UBI_VERSION && seal_intact(buf, UBI_VID_HDR_SIZE as int) && VolType::of_code(
            buf[5],
        ) is Some {
            Some(
                Vid {
                    vol_type: VolType::of_code(buf[5])->Some_0,
                    copy_flag: buf[6] != 0,
                    compat: buf[7],
                    vol_id: be32_at(buf, 8),
                    lnum: be32_at(buf, 12),
                    data_size: be32_at(buf, 20),
                    used_ebs: be32_at(buf, 24),
                    data_pad: be32_at(buf, 28),
                    data_crc: be32_at(buf, 32),
                    sqnum: be64_at(buf, 40),
                },
            )
        } else {
            None
        }
    }

    /// Change the sequence number for this `Vid`.
    pub fn sqnum(self, sqnum: u64) -> (r: Vid)
        ensures
            r == self.with_sqnum(sqnum),
    {
        let mut r = self;
        r.sqnum = sqnum;
        r
    }

    /// The header as it is written to flash, without its checksum.
    fn field_bytes(self) -> (r: Vec<u8>)
        ensures
            r@ == self.fields(),
    {
        let mut v: Vec<u8> = Vec::new();
        v.push(0x55);
        v.push(0x42);
        v.push(0x49);
        v.push(0x21);
        assert(v@ =~= vid_magic());
        v.push(UBI_VERSION);
        v.push(self.vol_type.to_u8());
        v.push(if self.copy_flag { 1 } else { 0 });
        v.push(self.compat);
        assert(v@ =~= vid_magic() + seq![
            UBI_VERSION,
            self.vol_type.code(),
            flag_byte(self.copy_flag),
            self.compat,
        ]);
        push_be32(&mut v, self.vol_id);
        push_be32(&mut v, self.lnum);
        push_zeros(&mut v, 4);
        push_be32(&mut v, self.data_size);
        push_be32(&mut v, self.used_ebs);
        push_be32(&mut v, self.data_pad);
        push_be32(&mut v, self.data_crc);
        push_zeros(&mut v, 4);
        push_be64(&mut v, self.sqnum);
        push_zeros(&mut v, 12);
        v
    }

    /// Convert from a byte slice.
    pub fn decode(bytes: &[u8]) -> (r: Option<Vid>)
        ensures
            r == Vid::parsed(bytes@),
    {
        if bytes.len() < UBI_VID_HDR_SIZE {
            return None;
        }
        if !(bytes[0] == 0x55 && bytes[1] == 0x42 && bytes[2] == 0x49 && bytes[3] == 0x21) {
            assert(window(bytes@, 0, 4)[0] == bytes@[0]);
            assert(window(bytes@, 0, 4)[1] == bytes@[1]);
            assert(window(bytes@, 0, 4)[2] == bytes@[2]);
            assert(window(bytes@, 0, 4)[3] == bytes@[3]);
            return None;
        }
        assert(window(bytes@, 0, 4) =~= vid_magic());
        if bytes[4] != UBI_VERSION {
            return None;
        }
        if !check_seal(bytes, UBI_VID_HDR_SIZE) {
            return None;
        }
        let vol_type = match VolType::from_u8(bytes[5]) {
            Some(t) => t,
            None => {
                return None;
            },
        };
        Some(
            Vid {
                vol_type,
                copy_flag: bytes[6] != 0,
                compat: bytes[7],
                vol_id: read_be32(bytes, 8),
                lnum: read_be32(bytes, 12),
                data_size: read_be32(bytes, 20),
                used_ebs: read_be32(bytes, 24),
                data_pad: read_be32(bytes, 28),
                data_crc: read_be32(bytes, 32),
                sqnum: read_be64(bytes, 40),
            },
        )
    }

    /// Write into the first 64 bytes of a byte slice; fails, and writes
    /// nothing, where the slice is shorter.
    pub fn encode(self, out_bytes: &mut [u8]) -> (r: Result<(), Error>)
        ensures
            old(out_bytes)@.len() < UBI_VID_HDR_SIZE <==> r is Err,
            r is Err ==> r == Err::<(), Error>(Error::BadInput) && final(out_bytes)@ == old(
                out_bytes,
            )@,
            r is Ok ==> final(out_bytes)@ == patched(old(out_bytes)@, 0, self.image()),
    {
        let mut image = self.field_bytes();
        let crc = ubi_crc(image.as_slice());
        push_be32(&mut image, crc);
        copy_into(out_bytes, image.as_slice())
    }
}

impl ComputeCrc for Vid {
    open spec fn encodable(&self) -> bool {
        true
    }

    open spec fn crc_input(&self) -> Seq<u8> {
        self.fields()
    }

    fn compute_crc(&self) -> (r: u32) {
        let fields = self.field_bytes();
        ubi_crc(fields.as_slice())
    }
}

impl ParseHeader for Vid {
    open spec fn magic_spec() -> Seq<u8> {
        vid_magic()
    }

    open spec fn parse_spec(buf: Seq<u8>) -> Option<Vid> {
        Vid::parsed(buf)
    }

    fn get_magic() -> (r: &'static [u8]) {
        let r: &'static [u8] = &[0x55u8, 0x42u8, 0x49u8, 0x21u8];
        assert(r@ =~= vid_magic());
        r
    }

    fn parse(buf: &[u8]) -> (r: Option<Vid>) {
        Vid::decode(buf)
    }
}

/// Where the fields of an encoded volume-identifier header lie, whatever
/// follows the header.
pub proof fn lemma_vid_image(h: Vid, rest: Seq<u8>)
    ensures
        h.image().len() == UBI_VID_HDR_SIZE,
        window(h.image() + rest, 0, 4) == vid_magic(),
        (h.image() + rest)[4] == UBI_VERSION,
        (h.image() + rest)[5] == h.vol_type.code(),
        (h.image() + rest)[6] == flag_byte(h.copy_flag),
        (h.image() + rest)[7] == h.compat,
        be32_at(h.image() + rest, 8) == h.vol_id,
        be32_at(h.image() + rest, 12) == h.lnum,
        be32_at(h.image() + rest, 20) == h.data_size,
        be32_at(h.image() + rest, 24) == h.used_ebs,
        be32_at(h.image() + rest, 28) == h.data_pad,
        be32_at(h.image() + rest, 32) == h.data_crc,
        be64_at(h.image() + rest, 40) == h.sqnum,
        seal_intact(h.image() + rest, UBI_VID_HDR_SIZE as int),
{
    let buf = h.image() + rest;
    assert(window(buf, 0, 4) =~= vid_magic());
    assert(buf.subrange(8, 12) =~= be32(h.vol_id));
    lemma_be32_at(buf, 8, h.vol_id);
    assert(buf.subrange(12, 16) =~= be32(h.lnum));
    lemma_be32_at(buf, 12, h.lnum);
    assert(buf.subrange(20, 24) =~= be32(h.data_size));
    lemma_be32_at(buf, 20, h.data_size);
    assert(buf.subrange(24, 28) =~= be32(h.used_ebs));
    lemma_be32_at(buf, 24, h.used_ebs);
    assert(buf.subrange(28, 32) =~= be32(h.data_pad));
    lemma_be32_at(buf, 28, h.data_pad);
    assert(buf.subrange(32, 36) =~= be32(h.data_crc));
    lemma_be32_at(buf, 32, h.data_crc);
    assert(buf.subrange(40, 48) =~= be64(h.sqnum));
    lemma_be64_at(buf, 40, h.sqnum);
    lemma_sealed_intact(h.fields(), rest);
}

/// Decoding an encoded volume-identifier header gives the header back; what
/// follows the header in the buffer does not matter.
pub proof fn lemma_vid_decode_encode(h: Vid, rest: Seq<u8>)
    ensures
        Vid::parsed(h.image() + rest) == Some(h),
{
    lemma_vid_image(h, rest);
}

/// Encoding what was decoded from an encoded volume-identifier header gives
/// the same bytes again.
pub proof fn lemma_vid_encode_decode(b: Seq<u8>, h: Vid)
    requires
        b == h.image(),
    ensures
        Vid::parsed(b) is Some,
        Vid::parsed(b)->Some_0.image() == b,
{
    lemma_vid_decode_encode(h, Seq::empty());
    assert(h.image() + Seq::<u8>::empty() =~= h.image());
}

/// A buffer that opens with an encoded erase-counter header does not decode
/// as a volume-identifier header, and the other way round: the magic
/// numbers differ.
pub proof fn lemma_magic_apart(ec: Ec, vid: Vid, rest: Seq<u8>)
    ensures
        Vid::parsed(ec.image() + rest) is None,
        Ec::parsed(vid.image() + rest) is None,
{
    lemma_ec_image(ec, rest);
    lemma_vid_image(vid, rest);
    assert(ec_magic()[3] != vid_magic()[3]);
}

/// Calls `String::from_utf8` on a copy of `bytes`. It succeeds exactly on
/// valid UTF-8, and the string it returns then holds the characters that
/// the bytes encode.
#[verifier::external_body]
fn utf8_to_string(bytes: &[u8]) -> (r: Option<String>)
    ensures
        r is Some <==> vstd::utf8::valid_utf8(bytes@),
        r is Some ==> r->Some_0@ == vstd::utf8::decode_utf8(bytes@),
{
    String::from_utf8(bytes.to_vec()).ok()
}

/// The fields of a volume table record that this library works with.
#[derive(Debug, Eq, PartialEq, Clone)]
pub struct VolTableRecord {
    /// The total number of PEBs allocated to this volume.
    pub reserved_pebs: u32,
    /// All LEBs in this volume will be a multiple of this size.
    pub alignment: u32,
    /// The number of bytes reserved from the end of each PEB to ensure
    /// alignment.
    pub data_pad: u32,
    /// The type of volume.
    pub vol_type: VolType,
    /// Set to `true` during a whole-volume update, so that if interrupted,
    /// it's possible to detect that the volume is corrupt.
    pub upd_marker: bool,
    /// The name of the volume: any UTF-8 string of at most 128 bytes.
    pub name: String,
    /// Any flags set on this volume.
    pub flags: u8,
}

/// What a volume table record holds, with the name as its characters.
pub struct VolTableRecordView {
    pub reserved_pebs: u32,
    pub alignment: u32,
    pub data_pad: u32,
    pub vol_type: VolType,
    pub upd_marker: bool,
    pub name: Seq<char>,
    pub flags: u8,
}

impl View for VolTableRecord {
    type V = VolTableRecordView;

    open spec fn view(&self) -> VolTableRecordView {
        VolTableRecordView {
            reserved_pebs: self.reserved_pebs,
            alignment: self.alignment,
            data_pad: self.data_pad,
            vol_type: self.vol_type,
            upd_marker: self.upd_marker,
            name: self.name@,
            flags: self.flags,
        }
    }
}

impl VolTableRecordView {
    /// The record of a dynamic volume without a name, every number zero.
    pub open spec fn blank() -> VolTableRecordView {
        VolTableRecordView {
            reserved_pebs: 0,
            alignment: 0,
            data_pad: 0,
            vol_type: VolType::Dynamic,
            upd_marker: false,
            name: Seq::empty(),
            flags: 0,
        }
    }

    /// The name as it is stored: in UTF-8.
    pub open spec fn name_bytes(self) -> Seq<u8> {
        vstd::utf8::encode_utf8(self.name)
    }

    /// Whether the name fits the bytes set aside for it.
    pub open spec fn encodable(self) -> bool {
        self.name_bytes().len() <= UBI_VOL_NAME_SIZE
    }

    /// The record on flash, without its checksum.
    pub open spec fn fields(self) -> Seq<u8> {
        be32(self.reserved_pebs) + be32(self.alignment) + be32(self.data_pad) + seq![
            self.vol_type.code(),
            flag_byte(self.upd_marker),
        ] + be16(self.name_bytes().len() as u16) + self.name_bytes() + zeros(
            (UBI_VOL_NAME_SIZE - self.name_bytes().len()) as nat,
        ) + seq![self.flags] + zeros(23)
    }

    /// The record on flash: 172 bytes.
    pub open spec fn image(self) -> Seq<u8> {
        sealed(self.fields())
    }

    /// The record that the first 172 bytes of `buf` hold, if they close
    /// with the right checksum, name a volume type that exists, and hold a
    /// name of at most 128 bytes of valid UTF-8.
    pub open spec fn parsed(buf: Seq<u8>) -> Option<VolTableRecordView> {
        if buf.len() >= UBI_VTBL_RECORD_SIZE && seal_intact(buf, UBI_VTBL_RECORD_SIZE as int)
            && VolType::of_code(buf[12]) is Some && be16_at(buf, 14) <= UBI_VOL_NAME_SIZE
            && vstd::utf8::valid_utf8(buf.subrange(16, 16 + be16_at(buf, 14))) {
            Some(
                VolTableRecordView {
                    reserved_pebs: be32_at(buf, 0),
                    alignment: be32_at(buf, 4),
                    data_pad: be32_at(buf, 8),
                    vol_type: VolType::of_code(buf[12])->Some_0,
                    upd_marker: buf[13] != 0,
                    name: vstd::utf8::decode_utf8(buf.subrange(16, 16 + be16_at(buf, 14))),
                    flags: buf[144],
                },
            )
        } else {
            None
        }
    }
}

/// An empty slot of the volume table on flash: zeros, with their checksum.
pub open spec fn empty_record_image() -> Seq<u8> {
    sealed(zeros((UBI_VTBL_RECORD_SIZE - 4) as nat))
}

/// What a slot of the volume table holds on flash.
pub open spec fn slot_image(slot: Option<VolTableRecordView>) -> Seq<u8> {
    match slot {
        Some(record) => record.image(),
        None => empty_record_image(),
    }
}

/// A slot of the volume table, with the record as its view.
pub open spec fn slot_view(slot: Option<VolTableRecord>) -> Option<VolTableRecordView> {
    match slot {
        Some(record) => Some(record@),
        None => None,
    }
}

/// Whether the record in a slot, if there is one, fits its on-flash form.
pub open spec fn slot_encodable(slot: Option<VolTableRecordView>) -> bool {
    match slot {
        Some(record) => record.encodable(),
        None => true,
    }
}

impl Default for VolTableRecord {
    fn default() -> (r: VolTableRecord)
        ensures
            r@ == VolTableRecordView::blank(),
    {
        VolTableRecord {
            reserved_pebs: 0,
            alignment: 0,
            data_pad: 0,
            vol_type: VolType::Dynamic,
            upd_marker: false,
            name: String::new(),
            flags: 0,
        }
    }
}

impl VolTableRecord {
    /// The record as it is written to flash, without its checksum.
    fn field_bytes(&self) -> (r: Vec<u8>)
        requires
            self@.encodable(),
        ensures
            r@ == self@.fields(),
    {
        let name = self.name.as_str().as_bytes();
        let name_len = name.len();
        let mut v: Vec<u8> = Vec::new();
        assert(v@ =~= Seq::<u8>::empty());
        push_be32(&mut v, self.reserved_pebs);
        assert(v@ =~= be32(self.reserved_pebs));
        push_be32(&mut v, self.alignment);
        push_be32(&mut v, self.data_pad);
        let ghost head = v@;
        v.push(self.vol_type.to_u8());
        v.push(if self.upd_marker { 1 } else { 0 });
        assert(v@ =~= head + seq![self.vol_type.code(), flag_byte(self.upd_marker)]);
        push_be16(&mut v, name_len as u16);
        crate::nand::append_bytes(&mut v, name);
        push_zeros(&mut v, UBI_VOL_NAME_SIZE - name_len);
        let ghost named = v@;
        v.push(self.flags);
        assert(v@ =~= named + seq![self.flags]);
        push_zeros(&mut v, 23);
        v
    }

    /// Convert from a byte slice.
    pub fn decode(bytes: &[u8]) -> (r: Option<VolTableRecord>)
        ensures
            match r {
                Some(record) => VolTableRecordView::parsed(bytes@) == Some(record@),
                None => VolTableRecordView::parsed(bytes@) is None,
            },
    {
        if bytes.len() < UBI_VTBL_RECORD_SIZE {
            return None;
        }
        if !check_seal(bytes, UBI_VTBL_RECORD_SIZE) {
            return None;
        }
        let vol_type = match VolType::from_u8(bytes[12]) {
            Some(t) => t,
            None => {
                return None;
            },
        };
        let name_len = read_be16(bytes, 14) as usize;
        if name_len > UBI_VOL_NAME_SIZE {
            return None;
        }
        let name = match utf8_to_string(vstd::slice::slice_subrange(bytes, 16, 16 + name_len)) {
            Some(s) => s,
            None => {
                return None;
            },
        };
        Some(
            VolTableRecord {
                reserved_pebs: read_be32(bytes, 0),
                alignment: read_be32(bytes, 4),
                data_pad: read_be32(bytes, 8),
                vol_type,
                upd_marker: bytes[13] != 0,
                name,
                flags: bytes[144],
            },
        )
    }

    /// The record as it lies on flash.
    pub fn to_bytes(&self) -> (r: Vec<u8>)
        requires
            self@.encodable(),
        ensures
            r@ == self@.image(),
    {
        let mut image = self.field_bytes();
        let crc = ubi_crc(image.as_slice());
        push_be32(&mut image, crc);
        image
    }

    /// Write into a `Vec<u8>`.
    pub fn into_bytes(self) -> (r: Vec<u8>)
        requires
            self@.encodable(),
        ensures
            r@ == self@.image(),
    {
        self.to_bytes()
    }

    /// Represent an empty entry in the volume table.
    pub fn none_into_bytes() -> (r: Vec<u8>)
        ensures
            r@ == empty_record_image(),
    {
        let mut image: Vec<u8> = Vec::new();
        assert(image@ =~= Seq::<u8>::empty());
        push_zeros(&mut image, UBI_VTBL_RECORD_SIZE - 4);
        assert(image@ =~= zeros((UBI_VTBL_RECORD_SIZE - 4) as nat));
        let crc = ubi_crc(image.as_slice());
        push_be32(&mut image, crc);
        image
    }
}

impl ComputeCrc for VolTableRecord {
    open spec fn encodable(&self) -> bool {
        self@.encodable()
    }

    open spec fn crc_input(&self) -> Seq<u8> {
        self@.fields()
    }

    fn compute_crc(&self) -> (r: u32) {
        let fields = self.field_bytes();
        ubi_crc(fields.as_slice())
    }
}

/// Turning a slot of the volume table, filled or empty, into its bytes.
pub trait OptionIntoBytes {
    /// Whether the slot's record, if there is one, fits its on-flash form.
    spec fn encodable(&self) -> bool;

    /// The slot on flash.
    spec fn bytes_spec(&self) -> Seq<u8>;

    fn into_bytes(self) -> (r: Vec<u8>)
        requires
            self.encodable(),
        ensures
            r@ == self.bytes_spec(),
    ;
}

impl OptionIntoBytes for Option<VolTableRecord> {
    open spec fn encodable(&self) -> bool {
        slot_encodable(slot_view(*self))
    }

    open spec fn bytes_spec(&self) -> Seq<u8> {
        slot_image(slot_view(*self))
    }

    fn into_bytes(self) -> (r: Vec<u8>) {
        match self {
            Some(x) => x.into_bytes(),
            None => VolTableRecord::none_into_bytes(),
        }
    }
}

/// Every slot of the volume table takes 172 bytes on flash.
pub proof fn lemma_slot_image_len(slot: Option<VolTableRecordView>)
    requires
        slot_encodable(slot),
    ensures
        slot_image(slot).len() == UBI_VTBL_RECORD_SIZE,
{
}

/// Decoding an encoded volume table record gives the record back; what
/// follows the record in the buffer does not matter.
pub proof fn lemma_record_decode_encode(v: VolTableRecordView, rest: Seq<u8>)
    requires
        v.encodable(),
    ensures
        VolTableRecordView::parsed(v.image() + rest) == Some(v),
{
    let buf = v.image() + rest;
    let n = v.name_bytes().len() as int;
    assert(buf.subrange(0, 4) =~= be32(v.reserved_pebs));
    lemma_be32_at(buf, 0, v.reserved_pebs);
    assert(buf.subrange(4, 8) =~= be32(v.alignment));
    lemma_be32_at(buf, 4, v.alignment);
    assert(buf.subrange(8, 12) =~= be32(v.data_pad));
    lemma_be32_at(buf, 8, v.data_pad);
    assert(buf[12] == v.vol_type.code());
    assert(buf[13] == flag_byte(v.upd_marker));
    assert(buf.subrange(14, 16) =~= be16(n as u16));
    lemma_be16_at(buf, 14, n as u16);
    assert(buf.subrange(16, 16 + n) =~= v.name_bytes());
    assert(buf[144] == v.flags);
    vstd::utf8::encode_utf8_valid_utf8(v.name);
    vstd::utf8::encode_utf8_decode_utf8(v.name);
    lemma_sealed_intact(v.fields(), rest);
}

/// Encoding what was decoded from an encoded volume table record gives the
/// same bytes again.
pub proof fn lemma_record_encode_decode(b: Seq<u8>, v: VolTableRecordView)
    requires
        v.encodable(),
        b == v.image(),
    ensures
        VolTableRecordView::parsed(b) is Some,
        VolTableRecordView::parsed(b)->Some_0.image() == b,
{
    lemma_record_decode_encode(v, Seq::empty());
    assert(v.image() + Seq::<u8>::empty() =~= v.image());
}

} // verus!
