//! On-disk record types of the image, and the layout that the records follow.
//!
//! Every integer is stored little-endian and records are packed, so none of
//! them needs any alignment.
use vstd::prelude::*;

verus! {

broadcast use vstd::array::group_array_axioms;

/// Little-endian value of the two bytes of `b` starting at `at`.
pub open spec fn le16(b: Seq<u8>, at: int) -> int {
    b[at] + 256 * b[at + 1]
}

/// Little-endian value of the four bytes of `b` starting at `at`.
pub open spec fn le32(b: Seq<u8>, at: int) -> int {
    le16(b, at) + 0x1_0000 * le16(b, at + 2)
}

/// Little-endian value of the eight bytes of `b` starting at `at`.
pub open spec fn le64(b: Seq<u8>, at: int) -> int {
    le32(b, at) + 0x1_0000_0000 * le32(b, at + 4)
}

/// A `u16` stored as two little-endian bytes.
#[derive(Clone, Copy, Default, Debug)]
pub struct U16([u8; 2]);

/// A `u32` stored as four little-endian bytes.
#[derive(Clone, Copy, Default, Debug)]
pub struct U32([u8; 4]);

/// A `u64` stored as eight little-endian bytes.
#[derive(Clone, Copy, Default, Debug)]
pub struct U64([u8; 8]);

impl U16 {
    /// The integer that the bytes encode.
    pub closed spec fn spec_get(&self) -> u16 {
        le16(self.0@, 0) as u16
    }

    /// The bytes, lowest first.
    pub closed spec fn bytes(&self) -> Seq<u8> {
        self.0@
    }

    pub fn get(&self) -> (res: u16)
        ensures
            res == self.spec_get(),
            res == le16(self.bytes(), 0),
    {
        self.0[0] as u16 + self.0[1] as u16 * 256
    }

    pub fn new(primitive: u16) -> (res: Self)
        ensures
            res.spec_get() == primitive,
            res.bytes().len() == 2,
            le16(res.bytes(), 0) == primitive,
    {
        let b0 = (primitive % 256) as u8;
        let b1 = (primitive / 256) as u8;
        let res = U16([b0, b1]);
        assert(res.0@[0] == b0 && res.0@[1] == b1);
        res
    }

    pub fn set(&mut self, primitive: u16)
        ensures
            final(self).spec_get() == primitive,
    {
        *self = Self::new(primitive);
    }

    /// Builds the value from two bytes read off an image.
    pub fn from_bytes_at(b: &[u8], at: usize) -> (res: Self)
        requires
            at + 2 <= b@.len(),
        ensures
            res.bytes() == b@.subrange(at as int, at + 2),
            res.spec_get() == le16(b@, at as int),
    {
        let res = U16([b[at], b[at + 1]]);
        assert(res.0@ =~= b@.subrange(at as int, at + 2));
        res
    }
}

impl U32 {
    /// The integer that the bytes encode.
    pub closed spec fn spec_get(&self) -> u32 {
        le32(self.0@, 0) as u32
    }

    /// The bytes, lowest first.
    pub closed spec fn bytes(&self) -> Seq<u8> {
        self.0@
    }

    pub fn get(&self) -> (res: u32)
        ensures
            res == self.spec_get(),
            res == le32(self.bytes(), 0),
    {
        self.0[0] as u32 + self.0[1] as u32 * 0x100 + self.0[2] as u32 * 0x1_0000 + self.0[3] as u32
            * 0x100_0000
    }

    pub fn new(primitive: u32) -> (res: Self)
        ensures
            res.spec_get() == primitive,
            res.bytes().len() == 4,
            le32(res.bytes(), 0) == primitive,
    {
        let b0 = (primitive % 0x100) as u8;
        let b1 = (primitive / 0x100 % 0x100) as u8;
        let b2 = (primitive / 0x1_0000 % 0x100) as u8;
        let b3 = (primitive / 0x100_0000) as u8;
        let res = U32([b0, b1, b2, b3]);
        assert(res.0@[0] == b0 && res.0@[1] == b1 && res.0@[2] == b2 && res.0@[3] == b3);
        res
    }

    pub fn set(&mut self, primitive: u32)
        ensures
            final(self).spec_get() == primitive,
    {
        *self = Self::new(primitive);
    }

    /// Builds the value from four bytes read off an image.
    pub fn from_bytes_at(b: &[u8], at: usize) -> (res: Self)
        requires
            at + 4 <= b@.len(),
        ensures
            res.bytes() == b@.subrange(at as int, at + 4),
            res.spec_get() == le32(b@, at as int),
    {
        let res = U32([b[at], b[at + 1], b[at + 2], b[at + 3]]);
        assert(res.0@ =~= b@.subrange(at as int, at + 4));
        res
    }
}

impl U64 {
    /// The integer that the bytes encode.
    pub closed spec fn spec_get(&self) -> u64 {
        le64(self.0@, 0) as u64
    }

    /// The bytes, lowest first.
    pub closed spec fn bytes(&self) -> Seq<u8> {
        self.0@
    }

    pub fn get(&self) -> (res: u64)
        ensures
            res == self.spec_get(),
            res == le64(self.bytes(), 0),
    {
        let lo = self.0[0] as u64 + self.0[1] as u64 * 0x100 + self.0[2] as u64 * 0x1_0000
            + self.0[3] as u64 * 0x100_0000;
        let hi = self.0[4] as u64 + self.0[5] as u64 * 0x100 + self.0[6] as u64 * 0x1_0000
            + self.0[7] as u64 * 0x100_0000;
        lo + hi * 0x1_0000_0000
    }

    pub fn new(primitive: u64) -> (res: Self)
        ensures
            res.spec_get() == primitive,
            res.bytes().len() == 8,
            le64(res.bytes(), 0) == primitive,
    {
        let lo = primitive % 0x1_0000_0000;
        let hi = primitive / 0x1_0000_0000;
        let b0 = (lo % 0x100) as u8;
        let b1 = (lo / 0x100 % 0x100) as u8;
        let b2 = (lo / 0x1_0000 % 0x100) as u8;
        let b3 = (lo / 0x100_0000) as u8;
        let b4 = (hi % 0x100) as u8;
        let b5 = (hi / 0x100 % 0x100) as u8;
        let b6 = (hi / 0x1_0000 % 0x100) as u8;
        let b7 = (hi / 0x100_0000) as u8;
        let res = U64([b0, b1, b2, b3, b4, b5, b6, b7]);
        assert(res.0@[0] == b0 && res.0@[1] == b1 && res.0@[2] == b2 && res.0@[3] == b3);
        assert(res.0@[4] == b4 && res.0@[5] == b5 && res.0@[6] == b6 && res.0@[7] == b7);
        res
    }

    pub fn set(&mut self, primitive: u64)
        ensures
            final(self).spec_get() == primitive,
    {
        *self = Self::new(primitive);
    }

    /// Builds the value from eight bytes read off an image.
    pub fn from_bytes_at(b: &[u8], at: usize) -> (res: Self)
        requires
            at + 8 <= b@.len(),
        ensures
            res.bytes() == b@.subrange(at as int, at + 8),
            res.spec_get() == le64(b@, at as int),
    {
        let res = U64(
            [b[at], b[at + 1], b[at + 2], b[at + 3], b[at + 4], b[at + 5], b[at + 6], b[at + 7]],
        );
        assert(res.0@ =~= b@.subrange(at as int, at + 8));
        res
    }
}


/// Base-`k` digits are unique.
proof fn lemma_digits(a0: int, a1: int, b0: int, b1: int, k: int)
    by (nonlinear_arith)
    requires
        0 <= a0 < k,
        0 <= b0 < k,
        a0 + k * a1 == b0 + k * b1,
    ensures
        a0 == b0,
        a1 == b1,
{
}

/// Equal two-byte values at `i` and `j` have equal bytes.
proof fn lemma_le16_unique(x: Seq<u8>, i: int, y: Seq<u8>, j: int)
    requires
        0 <= i && i + 2 <= x.len(),
        0 <= j && j + 2 <= y.len(),
        le16(x, i) == le16(y, j),
    ensures
        x[i] == y[j] && x[i + 1] == y[j + 1],
{
    lemma_digits(x[i] as int, x[i + 1] as int, y[j] as int, y[j + 1] as int, 256);
}

/// Equal four-byte values at `i` and `j` have equal bytes.
proof fn lemma_le32_unique(x: Seq<u8>, i: int, y: Seq<u8>, j: int)
    requires
        0 <= i && i + 4 <= x.len(),
        0 <= j && j + 4 <= y.len(),
        le32(x, i) == le32(y, j),
    ensures
        x[i] == y[j] && x[i + 1] == y[j + 1],
        x[i + 2] == y[j + 2] && x[i + 3] == y[j + 3],
{
    lemma_digits(le16(x, i), le16(x, i + 2), le16(y, j), le16(y, j + 2), 0x1_0000);
    lemma_le16_unique(x, i, y, j);
    lemma_le16_unique(x, i + 2, y, j + 2);
}

/// Two stored values that encode the same integer are the same bytes.
pub proof fn lemma_u16_unique(a: U16, b: U16)
    requires
        a.spec_get() == b.spec_get(),
    ensures
        a == b,
{
    lemma_le16_unique(a.0@, 0, b.0@, 0);
    assert(a.0 =~= b.0);
}

/// Two stored values that encode the same integer are the same bytes.
pub proof fn lemma_u32_unique(a: U32, b: U32)
    requires
        a.spec_get() == b.spec_get(),
    ensures
        a == b,
{
    lemma_le32_unique(a.0@, 0, b.0@, 0);
    assert(a.0 =~= b.0);
}

/// Two stored values that encode the same integer are the same bytes.
pub proof fn lemma_u64_unique(a: U64, b: U64)
    requires
        a.spec_get() == b.spec_get(),
    ensures
        a == b,
{
    let (x, y) = (a.0@, b.0@);
    lemma_digits(le32(x, 0), le32(x, 4), le32(y, 0), le32(y, 4), 0x1_0000_0000);
    lemma_le32_unique(x, 0, y, 0);
    lemma_le32_unique(x, 4, y, 4);
    assert(a.0 =~= b.0);
}

impl From<u16> for U16 {
    fn from(primitive: u16) -> (res: Self) {
        let res = Self::new(primitive);
        proof {
            lemma_u16_unique(res, choose|w: U16| w.spec_get() == primitive);
        }
        res
    }
}

impl vstd::std_specs::convert::FromSpecImpl<u16> for U16 {
    open spec fn obeys_from_spec() -> bool {
        true
    }

    open spec fn from_spec(v: u16) -> Self {
        choose|w: U16| w.spec_get() == v
    }
}

impl From<U16> for u16 {
    fn from(wrapper: U16) -> (res: Self) {
        wrapper.get()
    }
}

impl vstd::std_specs::convert::FromSpecImpl<U16> for u16 {
    open spec fn obeys_from_spec() -> bool {
        true
    }

    open spec fn from_spec(v: U16) -> Self {
        v.spec_get()
    }
}


impl From<u32> for U32 {
    fn from(primitive: u32) -> (res: Self) {
        let res = Self::new(primitive);
        proof {
            lemma_u32_unique(res, choose|w: U32| w.spec_get() == primitive);
        }
        res
    }
}

impl vstd::std_specs::convert::FromSpecImpl<u32> for U32 {
    open spec fn obeys_from_spec() -> bool {
        true
    }

    open spec fn from_spec(v: u32) -> Self {
        choose|w: U32| w.spec_get() == v
    }
}

impl From<U32> for u32 {
    fn from(wrapper: U32) -> (res: Self) {
        wrapper.get()
    }
}

impl vstd::std_specs::convert::FromSpecImpl<U32> for u32 {
    open spec fn obeys_from_spec() -> bool {
        true
    }

    open spec fn from_spec(v: U32) -> Self {
        v.spec_get()
    }
}

impl From<u64> for U64 {
    fn from(primitive: u64) -> (res: Self) {
        let res = Self::new(primitive);
        proof {
            lemma_u64_unique(res, choose|w: U64| w.spec_get() == primitive);
        }
        res
    }
}

impl vstd::std_specs::convert::FromSpecImpl<u64> for U64 {
    open spec fn obeys_from_spec() -> bool {
        true
    }

    open spec fn from_spec(v: u64) -> Self {
        choose|w: U64| w.spec_get() == v
    }
}

impl From<U64> for u64 {
    fn from(wrapper: U64) -> (res: Self) {
        wrapper.get()
    }
}

impl vstd::std_specs::convert::FromSpecImpl<U64> for u64 {
    open spec fn obeys_from_spec() -> bool {
        true
    }

    open spec fn from_spec(v: U64) -> Self {
        v.spec_get()
    }
}

/// Length in bytes of the magic number that opens an image.
pub const MAGIC_LEN: usize = 8;

/// The magic number that opens every image: the ASCII bytes of `RedoxFtw`.
pub const MAGIC: [u8; 8] = [0x52, 0x65, 0x64, 0x6f, 0x78, 0x46, 0x74, 0x77];

/// The magic number as a sequence.
pub open spec fn magic_bytes() -> Seq<u8> {
    seq![0x52u8, 0x65, 0x64, 0x6f, 0x78, 0x46, 0x74, 0x77]
}

/// Bits of `type_and_mode` that hold the permission mode.
pub const MODE_MASK: u32 = 0xFFF;

/// Shift of the permission mode within `type_and_mode`.
pub const MODE_SHIFT: u8 = 0;

/// Shift of the inode type within `type_and_mode`.
pub const TYPE_SHIFT: u8 = 28;

/// Bits of `type_and_mode` that hold the inode type.
pub const TYPE_MASK: u32 = 0xF000_0000;

/// Size in bytes of a [`Header`] record.
pub const HEADER_LEN: usize = 26;

/// Size in bytes of an [`InodeHeader`] record.
pub const INODE_HEADER_LEN: usize = 20;

/// Size in bytes of a [`DirEntry`] record.
pub const DIR_ENTRY_LEN: usize = 8;

/// The magic number of an image.
#[derive(Clone, Copy, Debug, Eq, PartialEq)]
pub struct Magic(pub [u8; MAGIC_LEN]);

/// A byte offset into the image.
#[derive(Clone, Copy, Debug)]
pub struct Offset(pub U32);

/// A length in bytes.
#[derive(Clone, Copy, Debug)]
pub struct Length(pub U32);

/// A point in time, seconds and nanoseconds.
#[derive(Clone, Copy, Debug)]
pub struct Timespec {
    pub sec: U64,
    pub nsec: U32,
}

/// The record at the start of an image.
///
/// Layout: magic at 0 (8 bytes), inode table offset at 8 (4), creation time
/// seconds at 12 (8), nanoseconds at 20 (4), inode count at 24 (2).
#[derive(Clone, Copy, Debug)]
pub struct Header {
    pub magic: Magic,
    pub inode_table_offset: Offset,
    pub creation_time: Timespec,
    pub inode_count: U16,
}

/// One record of the inode table.
///
/// Layout: type and mode at 0, data length at 4, data offset at 8, uid at 12,
/// gid at 16; four bytes each.
#[derive(Clone, Copy, Debug)]
pub struct InodeHeader {
    pub type_and_mode: U32,
    pub length: U32,
    pub offset: Offset,
    pub uid: U32,
    pub gid: U32,
}

/// The kinds of inode that the type bits name; every other bit pattern is
/// reserved.
#[derive(Clone, Copy, Debug, PartialEq, Eq, Structural)]
pub enum InodeType {
    /// Type bits 0.
    RegularFile,
    /// Type bits 1.
    Dir,
}

/// One record of a directory's data.
///
/// Layout: inode at 0 (2 bytes), name length at 2 (2), name offset at 4 (4).
#[derive(Clone, Copy, Debug)]
pub struct DirEntry {
    pub inode: U16,
    pub name_len: U16,
    pub name_offset: Offset,
}

impl Timespec {
    /// `t` holds the creation time stored in `b` at `at`.
    pub open spec fn decodes(self, b: Seq<u8>, at: int) -> bool {
        &&& self.sec.spec_get() == le64(b, at)
        &&& self.nsec.spec_get() == le32(b, at + 8)
    }
}

impl Header {
    /// `self` holds the header record stored at the start of `b`.
    pub open spec fn decodes(self, b: Seq<u8>) -> bool {
        &&& self.magic.0@ == b.subrange(0, 8)
        &&& self.inode_table_offset.0.spec_get() == le32(b, 8)
        &&& self.creation_time.decodes(b, 12)
        &&& self.inode_count.spec_get() == le16(b, 24)
    }

    /// Reads the header record at the start of `b`.
    pub fn from_record(b: &[u8]) -> (res: Self)
        requires
            b@.len() >= HEADER_LEN,
        ensures
            res.decodes(b@),
    {
        let magic = Magic([b[0], b[1], b[2], b[3], b[4], b[5], b[6], b[7]]);
        assert(magic.0@ =~= b@.subrange(0, 8));
        Header {
            magic,
            inode_table_offset: Offset(U32::from_bytes_at(b, 8)),
            creation_time: Timespec { sec: U64::from_bytes_at(b, 12), nsec: U32::from_bytes_at(b, 20) },
            inode_count: U16::from_bytes_at(b, 24),
        }
    }
}

impl InodeHeader {
    /// `self` holds the inode record stored in `b` at `at`.
    pub open spec fn decodes(self, b: Seq<u8>, at: int) -> bool {
        &&& self.type_and_mode.spec_get() == le32(b, at)
        &&& self.length.spec_get() == le32(b, at + 4)
        &&& self.offset.0.spec_get() == le32(b, at + 8)
        &&& self.uid.spec_get() == le32(b, at + 12)
        &&& self.gid.spec_get() == le32(b, at + 16)
    }

    /// Reads the inode record at the start of `b`.
    pub fn from_record(b: &[u8]) -> (res: Self)
        requires
            b@.len() >= INODE_HEADER_LEN,
        ensures
            res.decodes(b@, 0),
    {
        InodeHeader {
            type_and_mode: U32::from_bytes_at(b, 0),
            length: U32::from_bytes_at(b, 4),
            offset: Offset(U32::from_bytes_at(b, 8)),
            uid: U32::from_bytes_at(b, 12),
            gid: U32::from_bytes_at(b, 16),
        }
    }
}

impl DirEntry {
    /// `self` holds the directory entry stored in `b` at `at`.
    pub open spec fn decodes(self, b: Seq<u8>, at: int) -> bool {
        &&& self.inode.spec_get() == le16(b, at)
        &&& self.name_len.spec_get() == le16(b, at + 2)
        &&& self.name_offset.0.spec_get() == le32(b, at + 4)
    }

    /// Reads the directory entry at the start of `b`.
    pub fn from_record(b: &[u8]) -> (res: Self)
        requires
            b@.len() >= DIR_ENTRY_LEN,
        ensures
            res.decodes(b@, 0),
    {
        DirEntry {
            inode: U16::from_bytes_at(b, 0),
            name_len: U16::from_bytes_at(b, 2),
            name_offset: Offset(U32::from_bytes_at(b, 4)),
        }
    }
}


/// Offset of the inode table that the header of `img` records.
pub open spec fn table_offset(img: Seq<u8>) -> int {
    le32(img, 8)
}

/// Number of inodes that the header of `img` records.
pub open spec fn image_inode_count(img: Seq<u8>) -> int {
    le16(img, 24)
}

/// Offset in `img` of the record of inode `i`.
pub open spec fn inode_record_start(img: Seq<u8>, i: int) -> int {
    table_offset(img) + INODE_HEADER_LEN * i
}

/// What the image's reader checks before it reads anything else: the header
/// fits, the length fits in 32 bits, the magic number matches, and the inode
/// table starts after the header and ends within the image.
pub open spec fn valid_image(img: Seq<u8>) -> bool {
    &&& HEADER_LEN <= img.len() <= u32::MAX
    &&& img.subrange(0, MAGIC_LEN as int) == magic_bytes()
    &&& table_offset(img) >= HEADER_LEN
    &&& table_offset(img) + INODE_HEADER_LEN * image_inode_count(img) <= img.len()
}

/// In a valid image the record of every inode below the count lies, whole,
/// within the image and after the header.
pub proof fn lemma_inode_records_in_image(img: Seq<u8>, i: int)
    requires
        valid_image(img),
        0 <= i < image_inode_count(img),
    ensures
        HEADER_LEN <= inode_record_start(img, i),
        inode_record_start(img, i) + INODE_HEADER_LEN <= img.len(),
{
}


/// Which images the reader takes, read off the raw bytes: the header fits,
/// the length fits in 32 bits, the image opens with the ASCII bytes of
/// `RedoxFtw`, and the inode table (count at byte 24, 20 bytes per record)
/// starts anywhere at or after the header's 26 bytes (offset at byte 8) and
/// ends within the image. No other image is taken, and every such image is,
/// wherever after the header its table starts.
pub proof fn law_valid_image_by_bytes(img: Seq<u8>)
    ensures
        valid_image(img) <==> {
            &&& 26 <= img.len() <= 0xFFFF_FFFF
            &&& img[0] == 0x52 && img[1] == 0x65 && img[2] == 0x64 && img[3] == 0x6f
            &&& img[4] == 0x78 && img[5] == 0x46 && img[6] == 0x74 && img[7] == 0x77
            &&& img[8] + 0x100 * img[9] + 0x1_0000 * img[10] + 0x100_0000 * img[11] >= 26
            &&& img[8] + 0x100 * img[9] + 0x1_0000 * img[10] + 0x100_0000 * img[11] + 20 * (img[24]
                + 0x100 * img[25]) <= img.len()
        },
{
    if img.len() >= 8 {
        if img.subrange(0, 8) == magic_bytes() {
            assert(img.subrange(0, 8)[0] == img[0]);
            assert(img.subrange(0, 8)[7] == img[7]);
        }
        if img[0] == 0x52 && img[1] == 0x65 && img[2] == 0x64 && img[3] == 0x6f && img[4] == 0x78
            && img[5] == 0x46 && img[6] == 0x74 && img[7] == 0x77 {
            assert(img.subrange(0, 8) =~= magic_bytes());
        }
    }
}

} // verus!
