//! A small read-only initial filesystem image, meant to be loaded into memory
//! by a bootloader and read in place.
pub mod record;
pub mod shell;
pub mod task;
pub mod types;

use crate::record::read_record;
use crate::types::{
    image_inode_count, inode_record_start, magic_bytes, table_offset, valid_image,
    DirEntry, Header, InodeHeader, InodeType, Timespec, DIR_ENTRY_LEN, HEADER_LEN,
    INODE_HEADER_LEN, MAGIC, MAGIC_LEN, MODE_MASK, TYPE_MASK, TYPE_SHIFT,
};
use vstd::slice::slice_subrange;
use vstd::prelude::*;

verus! {

/// The image is invalid or corrupt.
#[derive(Clone, Copy, Debug)]
pub struct Error;

impl Error {
    /// The message that describes the error.
    pub fn to_string(&self) -> (res: String)
        ensures
            res@ == "invalid or corrupt initfs"@,
    {
        String::from_str("invalid or corrupt initfs")
    }
}

type Result<T> = core::result::Result<T, Error>;

/// A view of an image held in memory.
#[derive(Clone, Copy)]
pub struct InitFs<'initfs> {
    base: &'initfs [u8],
}

/// The number of an inode: its index in the inode table.
#[derive(Clone, Copy, Debug, Eq, Hash, Ord, PartialEq, PartialOrd, Structural)]
pub struct Inode(u16);

impl Inode {
    /// The index that the inode number stands for.
    pub closed spec fn id(self) -> u16 {
        self.0
    }
}

/// Reads the header record at the start of `base`.
fn read_header(base: &[u8]) -> (res: Header)
    requires
        base@.len() >= HEADER_LEN,
    ensures
        res.decodes(base@),
{
    let mut rec = [0u8; 26];
    match read_record(base, 0, &mut rec) {
        Ok(()) => {
            let h = Header::from_record(&rec);
            assert(h.magic.0@ =~= base@.subrange(0, 8));
            h
        },
        Err(_) => vstd::pervasive::unreached(),
    }
}

/// Whether `magic` is the magic number of an image.
fn magic_is_valid(magic: &[u8; MAGIC_LEN]) -> (res: bool)
    ensures
        res == (magic@ == magic_bytes()),
{
    let expected = MAGIC;
    assert(expected@ =~= magic_bytes());
    let mut i: usize = 0;
    while i < MAGIC_LEN
        invariant
            i <= MAGIC_LEN,
            expected@ == magic_bytes(),
            forall|k: int| 0 <= k < i ==> magic@[k] == expected@[k],
        decreases MAGIC_LEN - i,
    {
        if magic[i] != expected[i] {
            return false;
        }
        i = i + 1;
    }
    assert(magic@ =~= magic_bytes());
    true
}

impl<'initfs> InitFs<'initfs> {
    #[verifier::type_invariant]
    closed spec fn wf(self) -> bool {
        valid_image(self.base@)
    }

    /// The bytes of the image.
    pub closed spec fn image(self) -> Seq<u8> {
        self.base@
    }

    /// Checks the header of `base` and, where it is sound, gives a view of
    /// the image.
    pub fn new(base: &'initfs [u8]) -> (res: Result<Self>)
        ensures
            res is Ok <==> valid_image(base@),
            res matches Ok(fs) ==> fs.image() == base@,
    {
        if base.len() < HEADER_LEN {
            return Err(Error);
        }
        if base.len() > u32::MAX as usize {
            return Err(Error);
        }
        let header = read_header(base);
        if !magic_is_valid(&header.magic.0) {
            return Err(Error);
        }
        let inode_table_offset = header.inode_table_offset.0.get();
        if inode_table_offset < Self::header_len_8() as u32 {
            return Err(Error);
        }
        let inode_table_size = Self::table_size(header.inode_count.get());
        let inode_table_end = match inode_table_offset.checked_add(inode_table_size) {
            Some(end) => end,
            None => return Err(Error),
        };
        if inode_table_end > base.len() as u32 {
            return Err(Error);
        }
        Ok(InitFs { base })
    }

    /// The time at which the image was made.
    pub fn image_creation_time(&self) -> (res: Timespec)
        ensures
            res.decodes(self.image(), 12),
    {
        self.get_header_assume_valid().creation_time
    }

    fn get_header_assume_valid(&self) -> (res: Header)
        ensures
            res.decodes(self.image()),
    {
        proof {
            use_type_invariant(self);
        }
        read_header(self.base)
    }

    /// The header record of the image.
    pub fn header(&self) -> (res: Header)
        ensures
            res.decodes(self.image()),
    {
        self.get_header_assume_valid()
    }

    fn header_len_8() -> (res: u8)
        ensures
            res == HEADER_LEN,
    {
        HEADER_LEN as u8
    }

    fn inode_struct_len_8() -> (res: u8)
        ensures
            res == INODE_HEADER_LEN,
    {
        INODE_HEADER_LEN as u8
    }

    /// Size in bytes of an inode table of `count` records.
    fn table_size(count: u16) -> (res: u32)
        ensures
            res == INODE_HEADER_LEN * count,
    {
        let struct_size = Self::inode_struct_len_8() as u32;
        assert(struct_size == 20);
        count as u32 * struct_size
    }

    fn inode_table_offset_usize(&self) -> (res: usize)
        ensures
            res == table_offset(self.image()),
    {
        self.get_header_assume_valid().inode_table_offset.0.get() as usize
    }

    fn inode_table_size(&self) -> (res: u32)
        ensures
            res == INODE_HEADER_LEN * image_inode_count(self.image()),
    {
        Self::table_size(self.get_header_assume_valid().inode_count.get())
    }

    fn inode_table_end_usize(&self) -> (res: usize)
        ensures
            res == table_offset(self.image()) + INODE_HEADER_LEN * image_inode_count(self.image()),
    {
        proof {
            use_type_invariant(self);
        }
        self.inode_table_offset_usize() + self.inode_table_size() as usize
    }

    fn inode_table_range(&self) -> (res: core::ops::Range<usize>)
        ensures
            res.start == table_offset(self.image()),
            res.end == table_offset(self.image()) + INODE_HEADER_LEN * image_inode_count(self.image()),
    {
        self.inode_table_offset_usize()..self.inode_table_end_usize()
    }

    /// The bytes of the inode table.
    fn inode_table(&self) -> (res: &'initfs [u8])
        ensures
            res@ == self.image().subrange(
                table_offset(self.image()),
                table_offset(self.image()) + INODE_HEADER_LEN * image_inode_count(self.image()),
            ),
    {
        proof {
            use_type_invariant(self);
        }
        let range = self.inode_table_range();
        slice_subrange(self.base, range.start, range.end)
    }

    /// The inode that the root directory has: the first of the table.
    pub fn root_inode() -> (res: Inode)
        ensures
            res.id() == 0,
    {
        Inode(0)
    }

    /// Every inode of the image, in order.
    pub fn all_inodes(&self) -> (res: Vec<Inode>)
        ensures
            res@.len() == image_inode_count(self.image()),
            forall|i: int| 0 <= i < res@.len() ==> #[trigger] res@[i].id() == i,
    {
        let count = self.inode_count();
        let mut res: Vec<Inode> = Vec::new();
        let mut i: u16 = 0;
        while i < count
            invariant
                i <= count,
                count == image_inode_count(self.image()),
                res@.len() == i,
                forall|k: int| 0 <= k < res@.len() ==> #[trigger] res@[k].id() == k,
            decreases count - i,
        {
            res.push(Inode(i));
            i = i + 1;
        }
        res
    }

    /// The number of inodes in the image.
    pub fn inode_count(&self) -> (res: u16)
        ensures
            res == image_inode_count(self.image()),
    {
        self.get_header_assume_valid().inode_count.get()
    }

    /// The inode numbered `inode`, if the inode table holds one.
    pub fn get_inode(&self, inode: Inode) -> (res: Option<InodeStruct<'initfs>>)
        ensures
            res is Some <==> inode.id() < image_inode_count(self.image()),
            res matches Some(s) ==> s.fs() == *self && s.header().decodes(
                self.image(),
                inode_record_start(self.image(), inode.id() as int),
            ),
    {
        proof {
            use_type_invariant(self);
        }
        let inode_usize = inode.0 as usize;
        let table = self.inode_table();
        if inode_usize >= self.inode_count() as usize {
            return None;
        }
        let start = inode_usize * INODE_HEADER_LEN;
        let mut rec = [0u8; 20];
        match read_record(table, start, &mut rec) {
            Ok(()) => {
                let header = InodeHeader::from_record(&rec);
                let ghost at = inode_record_start(self.image(), inode.id() as int);
                assert(rec@ =~= self.image().subrange(at, at + INODE_HEADER_LEN));
                Some(InodeStruct { initfs: *self, inode: header })
            },
            Err(_) => None,
        }
    }
}

/// An inode of an image, with its record.
#[derive(Clone, Copy)]
pub struct InodeStruct<'initfs> {
    initfs: InitFs<'initfs>,
    inode: InodeHeader,
}

impl<'initfs> InodeStruct<'initfs> {
    /// The image that the inode belongs to.
    pub closed spec fn fs(self) -> InitFs<'initfs> {
        self.initfs
    }

    /// The record of the inode.
    pub closed spec fn header(self) -> InodeHeader {
        self.inode
    }

    /// The inode's data: the bytes of the image that its record points at,
    /// or `None` where they do not lie within the image.
    pub open spec fn spec_data(self) -> Option<Seq<u8>> {
        let start = self.header().offset.0.spec_get() as int;
        let end = start + self.header().length.spec_get();
        if end <= self.fs().image().len() {
            Some(self.fs().image().subrange(start, end))
        } else {
            None
        }
    }

    /// The type bits of the inode's record.
    pub open spec fn type_bits(self) -> int {
        self.header().type_and_mode.spec_get() as int / 0x1000_0000
    }

    fn data(&self) -> (res: Result<&'initfs [u8]>)
        ensures
            res is Ok <==> self.spec_data() is Some,
            res matches Ok(d) ==> d@ == self.spec_data()->0,
    {
        let start = self.inode.offset.0.get() as usize;
        let length = self.inode.length.get() as usize;
        let base_len = self.initfs.base.len();
        let end = match start.checked_add(length) {
            Some(end) => end,
            None => return Err(Error),
        };
        if end <= base_len {
            Ok(slice_subrange(self.initfs.base, start, end))
        } else {
            Err(Error)
        }
    }

    /// The permission bits: the low twelve bits of the type-and-mode field.
    pub fn mode(&self) -> (res: u16)
        ensures
            res == self.header().type_and_mode.spec_get() % 0x1000,
    {
        let raw = self.inode.type_and_mode.get();
        assert(raw & 0xFFF == raw % 0x1000) by (bit_vector);
        (raw & MODE_MASK) as u16
    }

    /// The owner's user id.
    pub fn uid(&self) -> (res: u32)
        ensures
            res == self.header().uid.spec_get(),
    {
        self.inode.uid.get()
    }

    /// The owner's group id.
    pub fn gid(&self) -> (res: u32)
        ensures
            res == self.header().gid.spec_get(),
    {
        self.inode.gid.get()
    }

    fn ty(&self) -> (res: Option<InodeType>)
        ensures
            res == Some(InodeType::RegularFile) <==> self.type_bits() == 0,
            res == Some(InodeType::Dir) <==> self.type_bits() == 1,
            res is None <==> self.type_bits() > 1,
    {
        let tm = self.inode.type_and_mode.get();
        assert((tm & 0xF000_0000) >> 28u8 == tm / 0x1000_0000) by (bit_vector);
        let raw = (tm & TYPE_MASK) >> TYPE_SHIFT;
        if raw == 1 {
            Some(InodeType::Dir)
        } else if raw == 0 {
            Some(InodeType::RegularFile)
        } else {
            None
        }
    }

    /// What the inode is, by the type bits of its record.
    pub fn kind(&self) -> (res: InodeKind<'initfs>)
        ensures
            match res {
                InodeKind::Dir(d) => self.type_bits() == 1 && d.spec_inode() == *self,
                InodeKind::File(f) => self.type_bits() == 0 && f.spec_inode() == *self,
                InodeKind::Unknown => self.type_bits() > 1,
            },
    {
        match self.ty() {
            Some(InodeType::Dir) => InodeKind::Dir(InodeDir { inner: *self }),
            Some(InodeType::RegularFile) => InodeKind::File(InodeFile { inner: *self }),
            None => InodeKind::Unknown,
        }
    }
}

/// What an inode is.
#[derive(Clone, Copy)]
pub enum InodeKind<'initfs> {
    File(InodeFile<'initfs>),
    Dir(InodeDir<'initfs>),
    Unknown,
}

/// An inode whose type bits name a regular file.
#[derive(Clone, Copy)]
pub struct InodeFile<'initfs> {
    inner: InodeStruct<'initfs>,
}

impl<'initfs> InodeFile<'initfs> {
    /// The inode that the file is.
    pub closed spec fn spec_inode(self) -> InodeStruct<'initfs> {
        self.inner
    }

    pub fn inode(self) -> (res: InodeStruct<'initfs>)
        ensures
            res == self.spec_inode(),
    {
        self.inner
    }

    /// The file's contents.
    pub fn data(&self) -> (res: Result<&'initfs [u8]>)
        ensures
            res is Ok <==> self.spec_inode().spec_data() is Some,
            res matches Ok(d) ==> d@ == self.spec_inode().spec_data()->0,
    {
        self.inner.data()
    }
}

/// An inode whose type bits name a directory.
#[derive(Clone, Copy)]
pub struct InodeDir<'initfs> {
    inner: InodeStruct<'initfs>,
}

impl<'initfs> InodeDir<'initfs> {
    /// The inode that the directory is.
    pub closed spec fn spec_inode(self) -> InodeStruct<'initfs> {
        self.inner
    }

    /// The number of whole entries in the directory's data, if its data lies
    /// within the image.
    pub open spec fn spec_entry_count(self) -> Option<int> {
        match self.spec_inode().spec_data() {
            Some(d) => Some(d.len() as int / DIR_ENTRY_LEN as int),
            None => None,
        }
    }

    pub fn inode(self) -> (res: InodeStruct<'initfs>)
        ensures
            res == self.spec_inode(),
    {
        self.inner
    }

    /// The number of entries.
    pub fn entry_count(&self) -> (res: Result<u32>)
        ensures
            res is Ok <==> self.spec_entry_count() is Some,
            res matches Ok(n) ==> n == self.spec_entry_count()->0,
    {
        proof {
            use_type_invariant(self.inner.initfs);
        }
        let len = self.entries()?.len() / DIR_ENTRY_LEN;
        // The data lies within the image, whose length fits in a u32.
        Ok(len as u32)
    }

    /// The entry at index `idx`, if there is one.
    pub fn get_entry(&self, idx: u32) -> (res: Result<Option<Entry<'initfs>>>)
        ensures
            res is Ok <==> self.spec_entry_count() is Some,
            res matches Ok(e) ==> (e is Some <==> idx < self.spec_entry_count()->0),
            res matches Ok(Some(e)) ==> e.fs() == self.spec_inode().fs() && e.record().decodes(
                self.spec_inode().spec_data()->0,
                DIR_ENTRY_LEN * idx,
            ),
    {
        let idx = idx as usize;
        let entries = self.entries()?;
        if idx >= entries.len() / DIR_ENTRY_LEN {
            return Ok(None);
        }
        let mut rec = [0u8; 8];
        match read_record(entries, idx * DIR_ENTRY_LEN, &mut rec) {
            Ok(()) => {
                let entry = DirEntry::from_record(&rec);
                let ghost data = self.spec_inode().spec_data()->0;
                let ghost at = DIR_ENTRY_LEN * idx;
                assert(rec@ =~= data.subrange(at, at + DIR_ENTRY_LEN));
                Ok(Some(Entry { initfs: self.inner.initfs, entry }))
            },
            Err(_) => Ok(None),
        }
    }

    /// The bytes of the directory's whole entries.
    fn entries(&self) -> (res: Result<&'initfs [u8]>)
        ensures
            res is Ok <==> self.spec_inode().spec_data() is Some,
            res matches Ok(e) ==> e@ == self.spec_inode().spec_data()->0.take(
                DIR_ENTRY_LEN * (self.spec_inode().spec_data()->0.len() as int / DIR_ENTRY_LEN as int),
            ),
    {
        let bytes = self.inner.data()?;
        let whole = bytes.len() / DIR_ENTRY_LEN * DIR_ENTRY_LEN;
        Ok(slice_subrange(bytes, 0, whole))
    }
}

/// An entry of a directory.
#[derive(Clone, Copy)]
pub struct Entry<'initfs> {
    initfs: InitFs<'initfs>,
    entry: DirEntry,
}

impl<'initfs> Entry<'initfs> {
    /// The image that the entry belongs to.
    pub closed spec fn fs(self) -> InitFs<'initfs> {
        self.initfs
    }

    /// The record of the entry.
    pub closed spec fn record(self) -> DirEntry {
        self.entry
    }

    /// The entry's name: the bytes of the image that its record points at, or
    /// `None` where they do not lie within the image.
    pub open spec fn spec_name(self) -> Option<Seq<u8>> {
        let start = self.record().name_offset.0.spec_get() as int;
        let end = start + self.record().name_len.spec_get();
        if end <= self.fs().image().len() {
            Some(self.fs().image().subrange(start, end))
        } else {
            None
        }
    }

    /// The inode that the entry names.
    pub fn inode(&self) -> (res: Inode)
        ensures
            res.id() == self.record().inode.spec_get(),
    {
        Inode(self.entry.inode.get())
    }

    /// The entry's name.
    pub fn name(&self) -> (res: Result<&'initfs [u8]>)
        ensures
            res is Ok <==> self.spec_name() is Some,
            res matches Ok(n) ==> n@ == self.spec_name()->0,
    {
        let name_offset = self.entry.name_offset.0.get() as usize;
        let name_length = self.entry.name_len.get() as usize;
        let base_len = self.initfs.base.len();
        let name_end = match name_offset.checked_add(name_length) {
            Some(end) => end,
            None => return Err(Error),
        };
        if name_end <= base_len {
            Ok(slice_subrange(self.initfs.base, name_offset, name_end))
        } else {
            Err(Error)
        }
    }
}


/// A directory's entries are its data cut into whole records: as many as
/// fit, with fewer than one record's worth of bytes left over.
pub proof fn law_entries_fill_data(dir: InodeDir)
    ensures
        dir.spec_entry_count() is Some <==> dir.spec_inode().spec_data() is Some,
        dir.spec_inode().spec_data() matches Some(d) ==> {
            let n = dir.spec_entry_count()->0;
            &&& DIR_ENTRY_LEN * n <= d.len()
            &&& d.len() < DIR_ENTRY_LEN * (n + 1)
        },
{
}

/// In a valid image the number of a directory's entries fits in a `u32`.
pub proof fn law_entry_count_fits_u32(dir: InodeDir)
    requires
        valid_image(dir.spec_inode().fs().image()),
    ensures
        dir.spec_entry_count() matches Some(n) ==> 0 <= n <= u32::MAX,
{
}

/// An inode's data, where it lies within the image, is exactly as long as
/// its record says and starts where its record says.
pub proof fn law_data_as_recorded(s: InodeStruct)
    ensures
        s.spec_data() matches Some(d) ==> {
            &&& d.len() == s.header().length.spec_get()
            &&& forall|k: int|
                0 <= k < d.len() ==> #[trigger] d[k] == s.fs().image()[s.header().offset.0.spec_get()
                    + k]
        },
{
}

/// An entry's name, where it lies within the image, is exactly as long as
/// its record says and starts where its record says.
pub proof fn law_name_as_recorded(e: Entry)
    ensures
        e.spec_name() matches Some(n) ==> {
            &&& n.len() == e.record().name_len.spec_get()
            &&& forall|k: int|
                0 <= k < n.len() ==> #[trigger] n[k] == e.fs().image()[e.record().name_offset.0.spec_get()
                    + k]
        },
{
}

/// The type bits of a record take one of sixteen values, so an inode is a
/// file (bits 0), a directory (bits 1) or of no known kind (the other
/// fourteen); its mode takes the low twelve bits.
pub proof fn law_type_bits_range(s: InodeStruct)
    ensures
        0 <= s.type_bits() < 16,
{
}

} // verus!
