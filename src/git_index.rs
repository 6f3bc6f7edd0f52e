//! Reading and patching a git index (version 2): a file header, a run of
//! entries, each an entry header followed by its NUL-padded name, and a footer.
use vstd::prelude::*;
use vstd::slice::slice_subrange;

verus! {

/// Bytes in the file header: magic, version and entry count.
pub const FILE_HEADER_SIZE: usize = 12;

/// Bytes in an entry header, up to and including its flags.
pub const ENTRY_HEADER_SIZE: usize = 62;

/// Bytes in a content hash.
pub const HASH_SIZE: usize = 20;

/// The index format version this parser reads.
pub const INDEX_VERSION: u32 = 2;

/// The big-endian 32-bit integer stored at `at`.
pub open spec fn be_u32(b: Seq<u8>, at: int) -> u32 {
    (b[at] as int * 0x1000000 + b[at + 1] as int * 0x10000 + b[at + 2] as int * 0x100 + b[at
        + 3] as int) as u32
}

/// The big-endian 16-bit integer stored at `at`.
pub open spec fn be_u16(b: Seq<u8>, at: int) -> u16 {
    (b[at] as int * 0x100 + b[at + 1] as int) as u16
}

/// The four bytes of `x`, most significant first.
pub open spec fn be_bytes(x: u32) -> Seq<u8> {
    seq![
        (x / 0x1000000) as u8,
        (x / 0x10000 % 0x100) as u8,
        (x / 0x100 % 0x100) as u8,
        (x % 0x100) as u8,
    ]
}

/// Reads the big-endian 32-bit integer at `at`.
pub fn read_be_u32(b: &[u8], at: usize) -> (r: u32)
    requires
        at + 4 <= b@.len(),
    ensures
        r == be_u32(b@, at as int),
{
    let x = (b[at] as u32) * 0x1000000 + (b[at + 1] as u32) * 0x10000 + (b[at + 2] as u32) * 0x100
        + (b[at + 3] as u32);
    x
}

/// Reads the big-endian 16-bit integer at `at`.
pub fn read_be_u16(b: &[u8], at: usize) -> (r: u16)
    requires
        at + 2 <= b@.len(),
    ensures
        r == be_u16(b@, at as int),
{
    (b[at] as u16) * 0x100 + (b[at + 1] as u16)
}


/// The header at the start of an index.
pub struct FileHeader {
    pub magic: [u8; 4],
    pub version: u32,
    pub entry_count: u32,
}

impl FileHeader {
    /// The header holds the fields stored at the start of `b`.
    pub open spec fn decoded_from(&self, b: Seq<u8>) -> bool {
        &&& self.magic@ == b.subrange(0, 4)
        &&& self.version == be_u32(b, 4)
        &&& self.entry_count == be_u32(b, 8)
    }

    /// Decodes the fields of a file header from its bytes.
    pub fn read_from(b: &[u8]) -> (r: FileHeader)
        requires
            b@.len() >= FILE_HEADER_SIZE,
        ensures
            r.decoded_from(b@),
    {
        let r = FileHeader {
            magic: [b[0], b[1], b[2], b[3]],
            version: read_be_u32(b, 4),
            entry_count: read_be_u32(b, 8),
        };
        assert(r.magic@ =~= b@.subrange(0, 4));
        r
    }
}

/// The fixed-size part of an index entry. Times and ids are kept as stored.
pub struct EntryHeader {
    pub ctime_s: i32,
    pub ctime_ns: i32,
    pub mtime_s: i32,
    pub mtime_ns: i32,
    pub dev: u32,
    pub ino: u32,
    pub mode: u32,
    pub uid: u32,
    pub gid: u32,
    pub size: u32,
    pub sha1: Vec<u8>,
    pub flags: u16,
}

/// Offset of the size field within an entry header.
pub const SIZE_FIELD: usize = 36;

/// Offset of the hash field within an entry header.
pub const HASH_FIELD: usize = 40;

impl EntryHeader {
    /// The header holds the fields of the entry header stored at `at`.
    pub open spec fn decoded_from(&self, b: Seq<u8>, at: int) -> bool {
        &&& self.ctime_s == be_u32(b, at) as i32
        &&& self.ctime_ns == be_u32(b, at + 4) as i32
        &&& self.mtime_s == be_u32(b, at + 8) as i32
        &&& self.mtime_ns == be_u32(b, at + 12) as i32
        &&& self.dev == be_u32(b, at + 16)
        &&& self.ino == be_u32(b, at + 20)
        &&& self.mode == be_u32(b, at + 24)
        &&& self.uid == be_u32(b, at + 28)
        &&& self.gid == be_u32(b, at + 32)
        &&& self.size == be_u32(b, at + 36)
        &&& self.sha1@ == b.subrange(at + 40, at + 60)
        &&& self.flags == be_u16(b, at + 60)
    }

    /// Decodes the fields of an entry header from its bytes.
    pub fn read_from(b: &[u8]) -> (r: EntryHeader)
        requires
            b@.len() >= ENTRY_HEADER_SIZE,
        ensures
            r.decoded_from(b@, 0),
    {
        let mut sha1: Vec<u8> = Vec::new();
        let mut i: usize = HASH_FIELD;
        while i < HASH_FIELD + HASH_SIZE
            invariant
                HASH_FIELD <= i <= HASH_FIELD + HASH_SIZE,
                b@.len() >= ENTRY_HEADER_SIZE,
                sha1@ == b@.subrange(HASH_FIELD as int, i as int),
            decreases HASH_FIELD + HASH_SIZE - i,
        {
            sha1.push(b[i]);
            i = i + 1;
            assert(sha1@ =~= b@.subrange(HASH_FIELD as int, i as int));
        }
        EntryHeader {
            ctime_s: read_be_u32(b, 0) as i32,
            ctime_ns: read_be_u32(b, 4) as i32,
            mtime_s: read_be_u32(b, 8) as i32,
            mtime_ns: read_be_u32(b, 12) as i32,
            dev: read_be_u32(b, 16),
            ino: read_be_u32(b, 20),
            mode: read_be_u32(b, 24),
            uid: read_be_u32(b, 28),
            gid: read_be_u32(b, 32),
            size: read_be_u32(b, SIZE_FIELD),
            sha1,
            flags: read_be_u16(b, 60),
        }
    }
}

/// A cursor over the unread part of a byte slice; each read takes bytes off
/// its front.
pub struct SliceReader<'a>(pub &'a [u8]);

impl<'a> SliceReader<'a> {
    /// The bytes not read yet.
    pub open spec fn rest(&self) -> Seq<u8> {
        self.0@
    }

    /// Iterates over the bytes not read yet.
    pub fn iter(&self) -> (r: std::slice::Iter<'a, u8>)
        ensures
            r == self.0.iter(),
    {
        self.0.iter()
    }

    /// The number of bytes not read yet.
    pub fn len(&self) -> (r: usize)
        ensures
            r == self.rest().len(),
    {
        self.0.len()
    }

    /// Takes the next `n` bytes, or nothing if fewer are left.
    pub fn take_front(&mut self, n: usize) -> (r: Option<&'a [u8]>)
        ensures
            old(self).rest().len() >= n ==> r is Some && r.unwrap()@ == old(self).rest().subrange(
                0,
                n as int,
            ) && final(self).rest() == old(self).rest().subrange(n as int, old(self).rest().len() as int),
            old(self).rest().len() < n ==> r is None && final(self).rest() == old(self).rest(),
    {
        if self.0.len() >= n {
            let whole = self.0;
            let prefix = slice_subrange(whole, 0, n);
            self.0 = slice_subrange(whole, n, whole.len());
            Some(prefix)
        } else {
            None
        }
    }
}

/// `x` rounded up to a multiple of `increment`.
pub open spec fn round_up_spec(x: int, increment: int) -> int {
    (x + (increment - 1)) / increment * increment
}

/// A multiple of `increment` rounded up from `x` lies in `[x, x + increment)`.
pub proof fn lemma_round_up_bounds(x: int, increment: int)
    requires
        x >= 0,
        increment > 0,
    ensures
        x <= round_up_spec(x, increment) < x + increment,
        round_up_spec(x, increment) % increment == 0,
{
    let q = (x + increment - 1) / increment;
    let m = (x + increment - 1) % increment;
    assert(x + increment - 1 == q * increment + m && 0 <= m < increment) by (nonlinear_arith)
        requires
            increment > 0,
            q == (x + increment - 1) / increment,
            m == (x + increment - 1) % increment,
    ;
    assert((q * increment) % increment == 0) by (nonlinear_arith)
        requires
            increment > 0,
    ;
}

/// Rounds `x` up to a multiple of `increment`.
pub fn round_up(x: usize, increment: usize) -> (r: usize)
    requires
        increment > 0,
        x + increment - 1 <= usize::MAX,
    ensures
        r == round_up_spec(x as int, increment as int),
{
    proof {
        lemma_round_up_bounds(x as int, increment as int);
    }
    (x + (increment - 1)) / increment * increment
}

/// The position of the first NUL byte of `b` at or after `from`.
pub open spec fn first_nul(b: Seq<u8>, from: int) -> Option<int>
    decreases b.len() - from,
{
    if from < 0 || from >= b.len() {
        None
    } else if b[from] == 0 {
        Some(from)
    } else {
        first_nul(b, from + 1)
    }
}

/// The first NUL at or after `from` is a NUL, and none comes before it.
pub proof fn lemma_first_nul(b: Seq<u8>, from: int)
    requires
        0 <= from,
    ensures
        first_nul(b, from) matches Some(p) ==> from <= p < b.len() && b[p] == 0 && forall|j: int|
            from <= j < p ==> b[j] != 0,
        first_nul(b, from) is None ==> forall|j: int| from <= j < b.len() ==> b[j] != 0,
    decreases b.len() - from,
{
    if from < b.len() && b[from] != 0 {
        lemma_first_nul(b, from + 1);
    }
}

/// The name of a name field fits, with its first padding byte, in the field,
/// and the field fits in the buffer.
pub proof fn lemma_name_field(b: Seq<u8>)
    ensures
        name_field(b) matches Some((n, size)) ==> 0 <= n < size <= b.len(),
{
    lemma_first_nul(b, 0);
    if let Some(n) = first_nul(b, 0) {
        lemma_round_up_bounds(n + ENTRY_HEADER_SIZE + 1, 8);
    }
}

/// The bytes that a name of `n` bytes takes in an entry: the name and its NUL
/// padding, which brings the entry, header included, to a multiple of eight
/// bytes with at least one NUL.
pub open spec fn padded_name_size(n: int) -> int {
    round_up_spec(n + ENTRY_HEADER_SIZE + 1, 8) - ENTRY_HEADER_SIZE
}

/// The name field at the front of `b`, as the name's length and the bytes
/// the field takes; nothing if there is no NUL, the padding runs past the
/// end, or a padding byte is not NUL.
pub open spec fn name_field(b: Seq<u8>) -> Option<(int, int)> {
    match first_nul(b, 0) {
        None => None,
        Some(n) => {
            let size = padded_name_size(n);
            if size <= b.len() && (forall|j: int| n <= j < size ==> b[j] == 0) {
                Some((n, size))
            } else {
                None
            }
        },
    }
}

/// The bytes a name field at the front of `b` takes, if `b` has a NUL and
/// room for the padding, whether or not the padding is all NUL.
pub open spec fn field_extent(b: Seq<u8>) -> Option<int> {
    match first_nul(b, 0) {
        None => None,
        Some(n) => if padded_name_size(n) <= b.len() {
            Some(padded_name_size(n))
        } else {
            None
        },
    }
}

/// A field takes at least one byte and fits in the buffer; a well-formed
/// name field takes the same bytes.
pub proof fn lemma_field_extent(b: Seq<u8>)
    ensures
        field_extent(b) matches Some(size) ==> 0 < size <= b.len(),
        name_field(b) matches Some((n, size)) ==> field_extent(b) == Some(size),
{
    lemma_first_nul(b, 0);
    if let Some(n) = first_nul(b, 0) {
        lemma_round_up_bounds(n + ENTRY_HEADER_SIZE + 1, 8);
    }
}

/// Takes the NUL-padded name at the front of the reader and returns the name
/// without its padding. The reader is left as it was if there is no NUL or
/// the padding runs past the end; otherwise it moves past the whole field,
/// also when a padding byte is not NUL.
pub fn take_name<'a>(reader: &mut SliceReader<'a>) -> (r: Option<&'a [u8]>)
    requires
        // the name lies behind a file header and an entry header in one buffer
        old(reader).rest().len() + FILE_HEADER_SIZE + ENTRY_HEADER_SIZE <= usize::MAX,
    ensures
        match name_field(old(reader).rest()) {
            None => r is None,
            Some((n, size)) => {
                &&& r is Some
                &&& r.unwrap()@ == old(reader).rest().subrange(0, n)
            },
        },
        match field_extent(old(reader).rest()) {
            None => final(reader).rest() == old(reader).rest(),
            Some(size) => final(reader).rest() == old(reader).rest().subrange(
                size,
                old(reader).rest().len() as int,
            ),
        },
{
    let bytes = reader.0;
    let len = bytes.len();
    let mut nul_pos: usize = 0;
    while nul_pos < len && bytes[nul_pos] != 0
        invariant
            nul_pos <= len,
            len == bytes@.len(),
            first_nul(bytes@, nul_pos as int) == first_nul(bytes@, 0),
        decreases len - nul_pos,
    {
        nul_pos = nul_pos + 1;
    }
    if nul_pos == len {
        proof {
            lemma_first_nul(bytes@, 0);
        }
        return None;
    }
    assert(first_nul(bytes@, 0) == Some(nul_pos as int));
    let header_size = ENTRY_HEADER_SIZE;
    proof {
        lemma_round_up_bounds(nul_pos + header_size + 1, 8);
    }
    let size = round_up(nul_pos + header_size + 1, 8) - header_size;
    let field = match reader.take_front(size) {
        Some(f) => f,
        None => {
            return None;
        },
    };
    let text_bytes = slice_subrange(field, 0, nul_pos);
    let mut i: usize = nul_pos;
    while i < size
        invariant
            nul_pos <= i <= size,
            size <= bytes@.len(),
            size == padded_name_size(nul_pos as int),
            first_nul(bytes@, 0) == Some(nul_pos as int),
            text_bytes@ == bytes@.subrange(0, nul_pos as int),
            reader.rest() == bytes@.subrange(size as int, bytes@.len() as int),
            field@.len() == size,
            field@ == bytes@.subrange(0, size as int),
            bytes@ == old(reader).rest(),
            forall|j: int| nul_pos <= j < i ==> field@[j] == 0,
        decreases size - i,
    {
        if field[i] != 0 {
            assert(bytes@[i as int] != 0);
            assert(name_field(bytes@) is None);
            return None;
        }
        i = i + 1;
    }
    assert(forall|j: int| nul_pos <= j < size ==> bytes@[j] == 0) by {
        assert(forall|j: int| nul_pos <= j < size ==> field@[j] == bytes@[j]);
    }
    assert(name_field(bytes@) == Some((nul_pos as int, size as int)));
    Some(text_bytes)
}

/// The entry whose header starts at `pos`: the length of its name and the
/// position where the next entry starts.
pub open spec fn entry_at(b: Seq<u8>, pos: int) -> Option<(int, int)> {
    if pos < 0 || pos + ENTRY_HEADER_SIZE > b.len() {
        None
    } else {
        match name_field(b.subrange(pos + ENTRY_HEADER_SIZE, b.len() as int)) {
            None => None,
            Some((n, size)) => Some((n, pos + ENTRY_HEADER_SIZE + size)),
        }
    }
}

/// Where the first `count` entries of an index start, one after the other
/// behind the file header, and where the last of them ends.
pub open spec fn entry_offsets(b: Seq<u8>, count: nat) -> Option<(Seq<int>, int)>
    decreases count,
{
    if count == 0 {
        Some((Seq::empty(), FILE_HEADER_SIZE as int))
    } else {
        match entry_offsets(b, (count - 1) as nat) {
            None => None,
            Some((offsets, end)) => match entry_at(b, end) {
                None => None,
                Some((_, next)) => Some((offsets.push(end), next)),
            },
        }
    }
}

/// The layout of a well-formed index: where each entry starts and where the
/// footer starts. Nothing if the header is short, the version is not 2, or
/// one of the entries the header counts is malformed.
pub open spec fn index_layout(b: Seq<u8>) -> Option<(Seq<int>, int)> {
    if b.len() < FILE_HEADER_SIZE || be_u32(b, 4) != INDEX_VERSION {
        None
    } else {
        entry_offsets(b, be_u32(b, 8) as nat)
    }
}

/// Once an entry is malformed, so is every longer run of entries.
pub proof fn lemma_entry_offsets_fail(b: Seq<u8>, k: nat, count: nat)
    requires
        k <= count,
        entry_offsets(b, k) is None,
    ensures
        entry_offsets(b, count) is None,
    decreases count - k,
{
    if k < count {
        lemma_entry_offsets_fail(b, k, (count - 1) as nat);
    }
}

/// An entry header decoded from the bytes at `at` of a larger buffer.
proof fn lemma_entry_header_within(h: EntryHeader, b: Seq<u8>, at: int)
    requires
        0 <= at,
        at + ENTRY_HEADER_SIZE <= b.len(),
        h.decoded_from(b.subrange(at, at + ENTRY_HEADER_SIZE), 0),
    ensures
        h.decoded_from(b, at),
{
    let s = b.subrange(at, at + ENTRY_HEADER_SIZE);
    assert forall|j: int| 0 <= j < ENTRY_HEADER_SIZE implies s[j] == b[at + j] by {}
    assert(s.subrange(40, 60) =~= b.subrange(at + 40, at + 60));
}

/// An entry of a parsed index: its header and its name without padding.
pub struct ViewEntry<'a> {
    pub header: EntryHeader,
    pub name: &'a [u8],
}

impl<'a> ViewEntry<'a> {
    /// The entry holds what the entry starting at `at` stores.
    pub open spec fn decoded_from(&self, b: Seq<u8>, at: int) -> bool {
        &&& self.header.decoded_from(b, at)
        &&& entry_at(b, at) is Some
        &&& self.name@ == b.subrange(
            at + ENTRY_HEADER_SIZE,
            at + ENTRY_HEADER_SIZE + entry_at(b, at).unwrap().0,
        )
    }
}

/// A parsed index: its header, its entries in order, and the bytes behind
/// the last entry.
pub struct IndexView<'a> {
    pub header: FileHeader,
    pub entries: Vec<ViewEntry<'a>>,
    pub footer: &'a [u8],
}

impl<'a> IndexView<'a> {
    /// The view describes the index stored in `b`.
    pub open spec fn decoded_from(&self, b: Seq<u8>) -> bool {
        match index_layout(b) {
            None => false,
            Some((offsets, end)) => {
                &&& self.header.decoded_from(b)
                &&& self.entries@.len() == offsets.len()
                &&& forall|i: int|
                    0 <= i < offsets.len() ==> #[trigger] self.entries@[i].decoded_from(
                        b,
                        offsets[i],
                    )
                &&& self.footer@ == b.subrange(end, b.len() as int)
            },
        }
    }
}

/// Parses an index of version 2. Names and footer are borrowed from `bin`.
pub fn parse<'a>(bin: &'a [u8]) -> (r: Option<IndexView<'a>>)
    ensures
        r is Some <==> index_layout(bin@) is Some,
        r matches Some(v) ==> v.decoded_from(bin@),
{
    let total = bin.len();
    let mut reader = SliceReader(bin);
    let head_bytes = match reader.take_front(FILE_HEADER_SIZE) {
        Some(h) => h,
        None => {
            return None;
        },
    };
    let header = FileHeader::read_from(head_bytes);
    assert(be_u32(head_bytes@, 4) == be_u32(bin@, 4));
    assert(be_u32(head_bytes@, 8) == be_u32(bin@, 8));
    assert(header.magic@ =~= bin@.subrange(0, 4));
    if header.version != INDEX_VERSION {
        return None;
    }
    let count = header.entry_count;
    let mut entries: Vec<ViewEntry<'a>> = Vec::new();
    let mut k: u32 = 0;
    let ghost mut offsets: Seq<int> = Seq::empty();
    let ghost mut pos: int = FILE_HEADER_SIZE as int;
    while k < count
        invariant
            k <= count,
            count == be_u32(bin@, 8),
            total == bin@.len(),
            index_layout(bin@) == entry_offsets(bin@, count as nat),
            header.decoded_from(bin@),
            FILE_HEADER_SIZE <= pos <= bin@.len(),
            reader.rest() == bin@.subrange(pos, bin@.len() as int),
            entry_offsets(bin@, k as nat) == Some((offsets, pos)),
            entries@.len() == k,
            offsets.len() == k,
            forall|i: int| 0 <= i < k ==> #[trigger] entries@[i].decoded_from(bin@, offsets[i]),
        decreases count - k,
    {
        let entry_bytes = match reader.take_front(ENTRY_HEADER_SIZE) {
            Some(e) => e,
            None => {
                proof {
                    lemma_entry_offsets_fail(bin@, (k + 1) as nat, count as nat);
                }
                return None;
            },
        };
        let entry_header = EntryHeader::read_from(entry_bytes);
        proof {
            assert(entry_bytes@ =~= bin@.subrange(pos, pos + ENTRY_HEADER_SIZE));
            lemma_entry_header_within(entry_header, bin@, pos);
            assert(reader.rest() =~= bin@.subrange(pos + ENTRY_HEADER_SIZE, bin@.len() as int));
        }
        let name = match take_name(&mut reader) {
            Some(n) => n,
            None => {
                proof {
                    lemma_entry_offsets_fail(bin@, (k + 1) as nat, count as nat);
                }
                return None;
            },
        };
        proof {
            let (n, size) = name_field(bin@.subrange(pos + ENTRY_HEADER_SIZE, bin@.len() as int)).unwrap();
            lemma_name_field(bin@.subrange(pos + ENTRY_HEADER_SIZE, bin@.len() as int));
            assert(name@ =~= bin@.subrange(pos + ENTRY_HEADER_SIZE, pos + ENTRY_HEADER_SIZE + n));
            assert(reader.rest() =~= bin@.subrange(pos + ENTRY_HEADER_SIZE + size, bin@.len() as int));
            offsets = offsets.push(pos);
            pos = pos + ENTRY_HEADER_SIZE + size;
        }
        entries.push(ViewEntry { header: entry_header, name });
        k = k + 1;
    }
    let footer = reader.0;
    Some(IndexView { header, entries, footer })
}

/// A run of bytes in a buffer, by its start and length.
#[derive(Clone, Copy, Debug, PartialEq, Eq)]
pub struct Span {
    pub start: usize,
    pub len: usize,
}

/// A cursor over the unread part of a buffer that is to be patched. Each read
/// takes bytes off its front and returns where they lie in the whole buffer,
/// so that the caller can write there afterwards.
pub struct SliceReaderMut<'a> {
    /// The bytes not read yet.
    pub rest: &'a [u8],
    /// Where `rest` starts in the whole buffer.
    pub offset: usize,
}

impl<'a> SliceReaderMut<'a> {
    /// The bytes not read yet.
    pub open spec fn rest(&self) -> Seq<u8> {
        self.rest@
    }

    /// The reader's positions fit in a `usize`.
    pub open spec fn wf(&self) -> bool {
        self.offset + self.rest@.len() <= usize::MAX
    }

    /// Iterates over the bytes not read yet.
    pub fn iter(&self) -> (r: std::slice::Iter<'a, u8>)
        ensures
            r == self.rest.iter(),
    {
        self.rest.iter()
    }

    /// The number of bytes not read yet.
    pub fn len(&self) -> (r: usize)
        ensures
            r == self.rest().len(),
    {
        self.rest.len()
    }

    /// Takes the next `n` bytes and returns where they lie, or nothing if
    /// fewer are left.
    pub fn take_front(&mut self, n: usize) -> (r: Option<Span>)
        requires
            old(self).wf(),
        ensures
            final(self).wf(),
            old(self).rest().len() >= n ==> r == Some(Span { start: old(self).offset, len: n })
                && final(self).rest() == old(self).rest().subrange(
                n as int,
                old(self).rest().len() as int,
            ) && final(self).offset == old(self).offset + n,
            old(self).rest().len() < n ==> r is None && *final(self) == *old(self),
    {
        if self.rest.len() >= n {
            let whole = self.rest;
            let start = self.offset;
            self.rest = slice_subrange(whole, n, whole.len());
            self.offset = start + n;
            Some(Span { start, len: n })
        } else {
            None
        }
    }
}

/// Takes the NUL-padded name at the front of the reader and returns where
/// the name, without its padding, lies. The reader moves as `take_name`
/// moves a reader over the same bytes.
pub fn take_name_mut<'a>(reader: &mut SliceReaderMut<'a>) -> (r: Option<Span>)
    requires
        old(reader).wf(),
        // the name lies behind a file header and an entry header in one buffer
        old(reader).rest().len() + FILE_HEADER_SIZE + ENTRY_HEADER_SIZE <= usize::MAX,
    ensures
        final(reader).wf(),
        match name_field(old(reader).rest()) {
            None => r is None,
            Some((n, _)) => r == Some(Span { start: old(reader).offset, len: n as usize }),
        },
        match field_extent(old(reader).rest()) {
            None => *final(reader) == *old(reader),
            Some(size) => {
                &&& final(reader).rest() == old(reader).rest().subrange(
                    size,
                    old(reader).rest().len() as int,
                )
                &&& final(reader).offset == old(reader).offset + size
            },
        },
{
    let mut plain = SliceReader(reader.rest);
    let before = plain.len();
    let taken = take_name(&mut plain);
    proof {
        lemma_name_field(old(reader).rest());
        lemma_field_extent(old(reader).rest());
    }
    let start = reader.offset;
    let size = before - plain.len();
    if size > 0 {
        reader.rest = plain.0;
        reader.offset = start + size;
    }
    match taken {
        None => None,
        Some(text) => Some(Span { start, len: text.len() }),
    }
}

/// An entry of an index to be patched: its header, where the header starts,
/// and where its name lies.
pub struct ViewEntryMut {
    pub header: EntryHeader,
    pub at: usize,
    pub name: Span,
}

impl ViewEntryMut {
    /// The entry describes the entry starting at `at`.
    pub open spec fn decoded_from(&self, b: Seq<u8>, at: int) -> bool {
        &&& self.at == at
        &&& self.header.decoded_from(b, at)
        &&& entry_at(b, at) is Some
        &&& self.name == Span {
            start: (at + ENTRY_HEADER_SIZE) as usize,
            len: entry_at(b, at).unwrap().0 as usize,
        }
    }
}

/// An index to be patched: its header, its entries in order, and where the
/// footer lies.
pub struct IndexViewMut {
    pub header: FileHeader,
    pub entries: Vec<ViewEntryMut>,
    pub footer: Span,
}

impl IndexViewMut {
    /// The view describes the index stored in `b`.
    pub open spec fn decoded_from(&self, b: Seq<u8>) -> bool {
        match index_layout(b) {
            None => false,
            Some((offsets, end)) => {
                &&& self.header.decoded_from(b)
                &&& self.entries@.len() == offsets.len()
                &&& forall|i: int|
                    0 <= i < offsets.len() ==> #[trigger] self.entries@[i].decoded_from(
                        b,
                        offsets[i],
                    )
                &&& self.footer == Span { start: end as usize, len: (b.len() - end) as usize }
            },
        }
    }
}

/// Parses an index of version 2 and returns where each part lies, so that
/// fields can be rewritten in place.
pub fn parse_mut(bin: &[u8]) -> (r: Option<IndexViewMut>)
    ensures
        r is Some <==> index_layout(bin@) is Some,
        r matches Some(v) ==> v.decoded_from(bin@),
{
    let total = bin.len();
    let mut reader = SliceReaderMut { rest: bin, offset: 0 };
    if reader.take_front(FILE_HEADER_SIZE).is_none() {
        return None;
    }
    let header = FileHeader::read_from(bin);
    assert(header.magic@ =~= bin@.subrange(0, 4));
    if header.version != INDEX_VERSION {
        return None;
    }
    let count = header.entry_count;
    let mut entries: Vec<ViewEntryMut> = Vec::new();
    let mut k: u32 = 0;
    let ghost mut offsets: Seq<int> = Seq::empty();
    while k < count
        invariant
            k <= count,
            count == be_u32(bin@, 8),
            total == bin@.len(),
            index_layout(bin@) == entry_offsets(bin@, count as nat),
            header.decoded_from(bin@),
            reader.wf(),
            FILE_HEADER_SIZE <= reader.offset <= bin@.len(),
            reader.rest() == bin@.subrange(reader.offset as int, bin@.len() as int),
            entry_offsets(bin@, k as nat) == Some((offsets, reader.offset as int)),
            entries@.len() == k,
            offsets.len() == k,
            forall|i: int| 0 <= i < k ==> #[trigger] entries@[i].decoded_from(bin@, offsets[i]),
        decreases count - k,
    {
        let ghost pos = reader.offset as int;
        let at = match reader.take_front(ENTRY_HEADER_SIZE) {
            Some(span) => span.start,
            None => {
                proof {
                    lemma_entry_offsets_fail(bin@, (k + 1) as nat, count as nat);
                }
                return None;
            },
        };
        let entry_header = EntryHeader::read_from(slice_subrange(bin, at, at + ENTRY_HEADER_SIZE));
        proof {
            lemma_entry_header_within(entry_header, bin@, pos);
            assert(reader.rest() =~= bin@.subrange(pos + ENTRY_HEADER_SIZE, bin@.len() as int));
        }
        let name = match take_name_mut(&mut reader) {
            Some(n) => n,
            None => {
                proof {
                    lemma_entry_offsets_fail(bin@, (k + 1) as nat, count as nat);
                }
                return None;
            },
        };
        proof {
            lemma_name_field(bin@.subrange(pos + ENTRY_HEADER_SIZE, bin@.len() as int));
            assert(reader.rest() =~= bin@.subrange(reader.offset as int, bin@.len() as int));
            offsets = offsets.push(pos);
        }
        entries.push(ViewEntryMut { header: entry_header, at, name });
        k = k + 1;
    }
    let footer = Span { start: reader.offset, len: reader.len() };
    Some(IndexViewMut { header, entries, footer })
}

/// `b` with `w` written over it from `at` on.
pub open spec fn overwrite(b: Seq<u8>, at: int, w: Seq<u8>) -> Seq<u8> {
    b.subrange(0, at) + w + b.subrange(at + w.len(), b.len() as int)
}

/// The name of the entry starting at `at`.
pub open spec fn entry_name(b: Seq<u8>, at: int) -> Seq<u8> {
    b.subrange(at + ENTRY_HEADER_SIZE, at + ENTRY_HEADER_SIZE + entry_at(b, at).unwrap().0)
}

/// The size and hash fields of an entry, as stored.
pub open spec fn size_and_hash(size: u32, hash: Seq<u8>) -> Seq<u8> {
    be_bytes(size) + hash
}

/// The index `b` after the size and hash fields of each entry among
/// `offsets` whose name is `name` were replaced by `field`, entry by entry.
pub open spec fn patch_entries(b: Seq<u8>, offsets: Seq<int>, name: Seq<u8>, field: Seq<u8>) -> Seq<
    u8,
>
    decreases offsets.len(),
{
    if offsets.len() == 0 {
        b
    } else {
        let before = patch_entries(b, offsets.drop_last(), name, field);
        let at = offsets.last();
        if entry_name(b, at) == name {
            overwrite(before, at + SIZE_FIELD, field)
        } else {
            before
        }
    }
}

/// Whether two byte strings are equal.
pub fn same_bytes(a: &[u8], b: &[u8]) -> (r: bool)
    ensures
        r == (a@ == b@),
{
    if a.len() != b.len() {
        return false;
    }
    let mut i: usize = 0;
    while i < a.len()
        invariant
            i <= a@.len(),
            a@.len() == b@.len(),
            a@.subrange(0, i as int) == b@.subrange(0, i as int),
        decreases a@.len() - i,
    {
        if a[i] != b[i] {
            assert(a@[i as int] != b@[i as int]);
            return false;
        }
        assert(a@.subrange(0, i + 1) =~= a@.subrange(0, i as int).push(a@[i as int]));
        assert(b@.subrange(0, i + 1) =~= b@.subrange(0, i as int).push(b@[i as int]));
        i = i + 1;
    }
    assert(a@ =~= a@.subrange(0, i as int));
    assert(b@ =~= b@.subrange(0, i as int));
    true
}

/// Writes `w` over `buf` from `at` on.
pub fn write_at(buf: &mut Vec<u8>, at: usize, w: &[u8])
    requires
        at + w@.len() <= old(buf)@.len(),
    ensures
        final(buf)@ == overwrite(old(buf)@, at as int, w@),
{
    let n = buf.len();
    let mut i: usize = 0;
    while i < w.len()
        invariant
            i <= w@.len(),
            n == buf@.len(),
            at + w@.len() <= buf@.len(),
            buf@.len() == old(buf)@.len(),
            forall|j: int|
                0 <= j < buf@.len() ==> #[trigger] buf@[j] == if at <= j < at + i {
                    w@[j - at]
                } else {
                    old(buf)@[j]
                },
        decreases w@.len() - i,
    {
        buf.set(at + i, w[i]);
        i = i + 1;
    }
    assert(buf@ =~= overwrite(old(buf)@, at as int, w@));
}

/// The stored form of a 32-bit integer: four bytes, most significant first.
pub fn be_bytes_of(x: u32) -> (r: Vec<u8>)
    ensures
        r@ == be_bytes(x),
{
    let r = vec![
        (x / 0x1000000) as u8,
        (x / 0x10000 % 0x100) as u8,
        (x / 0x100 % 0x100) as u8,
        (x % 0x100) as u8,
    ];
    assert(r@ =~= be_bytes(x));
    r
}

/// Sets the size and hash of every entry named `name` in the index held in
/// `b`. Nothing is written if `b` does not hold a well-formed index.
pub fn patch_index(b: &mut Vec<u8>, name: &[u8], new_size: u32, new_hash: &[u8]) -> (r: Option<()>)
    requires
        new_hash@.len() == HASH_SIZE,
    ensures
        r is Some <==> index_layout(old(b)@) is Some,
        r is None ==> final(b)@ == old(b)@,
        r is Some ==> final(b)@ == patch_entries(
            old(b)@,
            index_layout(old(b)@).unwrap().0,
            name@,
            size_and_hash(new_size, new_hash@),
        ),
{
    let view = match parse_mut(b.as_slice()) {
        Some(v) => v,
        None => {
            return None;
        },
    };
    let total = b.len();
    let ghost orig = b@;
    let ghost offsets = index_layout(orig).unwrap().0;
    let mut hits: Vec<bool> = Vec::new();
    let mut k: usize = 0;
    while k < view.entries.len()
        invariant
            b@ == orig,
            total == orig.len(),
            view.decoded_from(orig),
            offsets == index_layout(orig).unwrap().0,
            k <= view.entries@.len(),
            hits@.len() == k,
            forall|i: int|
                0 <= i < k ==> #[trigger] hits@[i] == (entry_name(orig, offsets[i]) == name@),
        decreases view.entries@.len() - k,
    {
        let span = view.entries[k].name;
        proof {
            assert(view.entries@[k as int].decoded_from(orig, offsets[k as int]));
            lemma_name_field(orig.subrange(offsets[k as int] + ENTRY_HEADER_SIZE, orig.len() as int));
        }
        let entry_name = slice_subrange(b.as_slice(), span.start, span.start + span.len);
        hits.push(same_bytes(entry_name, name));
        k = k + 1;
    }
    let mut field = be_bytes_of(new_size);
    let mut i: usize = 0;
    while i < new_hash.len()
        invariant
            i <= new_hash@.len(),
            field@ == be_bytes(new_size) + new_hash@.subrange(0, i as int),
        decreases new_hash@.len() - i,
    {
        field.push(new_hash[i]);
        i = i + 1;
        assert(field@ =~= be_bytes(new_size) + new_hash@.subrange(0, i as int));
    }
    assert(new_hash@.subrange(0, new_hash@.len() as int) =~= new_hash@);
    assert(field@.len() == 24);
    let mut k: usize = 0;
    while k < view.entries.len()
        invariant
            view.decoded_from(orig),
            offsets == index_layout(orig).unwrap().0,
            k <= view.entries@.len(),
            hits@.len() == view.entries@.len(),
            forall|i: int|
                0 <= i < hits@.len() ==> #[trigger] hits@[i] == (entry_name(orig, offsets[i])
                    == name@),
            field@ == size_and_hash(new_size, new_hash@),
            field@.len() == 24,
            total == orig.len(),
            b@.len() == orig.len(),
            b@ == patch_entries(orig, offsets.take(k as int), name@, field@),
        decreases view.entries@.len() - k,
    {
        let at = view.entries[k].at;
        proof {
            assert(view.entries@[k as int].decoded_from(orig, offsets[k as int]));
            assert(offsets.take(k + 1).drop_last() =~= offsets.take(k as int));
            lemma_name_field(orig.subrange(offsets[k as int] + ENTRY_HEADER_SIZE, orig.len() as int));
        }
        if hits[k] {
            write_at(b, at + SIZE_FIELD, field.as_slice());
        }
        k = k + 1;
    }
    assert(offsets.take(offsets.len() as int) =~= offsets);
    Some(())
}

} // verus!
