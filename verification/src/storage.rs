//! Writers that encode bytes and readers that decode them, and the block
//! and file interfaces of the table store.

use vstd::prelude::*;

use vstd::std_specs::cmp::{PartialEqSpec, PartialOrdSpec};
use crate::common::{Key, convert_u8_array_to_usize, convert_usize_to_u8_array, le_bytes, le_value, pow256};

verus! {

/// The error of an I/O operation.
#[verifier::external_type_specification]
#[verifier::external_body]
pub struct ExIoError(std::io::Error);

/// A sink of encoded bytes.
pub trait EncoderWriter {
    /// Everything written so far.
    spec fn written(&self) -> Seq<u8>;

    /// Writes to this sink cannot fail.
    spec fn never_fails(&self) -> bool;

    /// Appends `buf`.
    fn write(&mut self, buf: &[u8]) -> (r: Result<(), std::io::Error>)
        ensures
            r is Ok ==> final(self).written() == old(self).written() + buf@,
            old(self).never_fails() ==> r is Ok && final(self).never_fails(),
    ;

    /// Appends the four little-endian bytes of `size`.
    fn write_size(&mut self, size: usize) -> (r: Result<(), std::io::Error>)
        ensures
            r is Ok ==> final(self).written() == old(self).written() + le_bytes(size as nat),
            old(self).never_fails() ==> r is Ok && final(self).never_fails(),
    ;

    /// Pushes buffered bytes on.
    fn flush(&mut self) -> (r: Result<(), std::io::Error>)
        ensures
            r is Ok ==> final(self).written() == old(self).written(),
            old(self).never_fails() ==> r is Ok && final(self).never_fails(),
    ;
}

/// A source of bytes to decode.
pub trait DecoderReader {
    /// The bytes not read yet.
    spec fn unread(&self) -> Seq<u8>;

    /// Reads four bytes as a little-endian number (which needs a 64-bit `usize`).
    fn read_size(&mut self) -> (r: usize)
        requires
            old(self).unread().len() >= 4,
            pow256(4) <= usize::MAX,
        ensures
            r == le_value(old(self).unread().take(4)),
            final(self).unread() == old(self).unread().skip(4),
    ;

    /// Reads the next `size` bytes.
    fn read(&mut self, size: usize) -> (r: &[u8])
        requires
            size <= old(self).unread().len(),
        ensures
            r@ == old(self).unread().take(size as int),
            final(self).unread() == old(self).unread().skip(size as int),
    ;
}

/// Bytes encoded into memory.
pub struct EncoderWriterMemoryImp {
    v: Vec<u8>,
}

impl EncoderWriterMemoryImp {
    /// An empty buffer.
    pub fn new() -> (r: Self)
        ensures
            r.written() == Seq::<u8>::empty(),
            r.never_fails(),
    {
        EncoderWriterMemoryImp { v: Vec::new() }
    }

    /// The bytes written.
    pub fn to_vec(self) -> (r: Vec<u8>)
        ensures
            r@ == self.written(),
    {
        self.v
    }
}

impl EncoderWriter for EncoderWriterMemoryImp {
    closed spec fn written(&self) -> Seq<u8> {
        self.v@
    }

    closed spec fn never_fails(&self) -> bool {
        true
    }

    fn write(&mut self, buf: &[u8]) -> (r: Result<(), std::io::Error>) {
        let mut i: usize = 0;
        while i < buf.len()
            invariant
                i <= buf@.len(),
                self.v@ == old(self).v@ + buf@.take(i as int),
            decreases buf@.len() - i,
        {
            self.v.push(buf[i]);
            i += 1;
            assert(self.v@ =~= old(self).v@ + buf@.take(i as int));
        }
        assert(buf@.take(buf@.len() as int) =~= buf@);
        Ok(())
    }

    fn write_size(&mut self, size: usize) -> (r: Result<(), std::io::Error>) {
        let u8_size = convert_usize_to_u8_array(size);
        let mut i: usize = 0;
        while i < 4
            invariant
                i <= 4,
                u8_size@ == le_bytes(size as nat),
                self.v@ == old(self).v@ + u8_size@.take(i as int),
            decreases 4 - i,
        {
            self.v.push(u8_size[i]);
            i += 1;
            assert(self.v@ =~= old(self).v@ + u8_size@.take(i as int));
        }
        assert(u8_size@.take(4) =~= u8_size@);
        Ok(())
    }

    fn flush(&mut self) -> (r: Result<(), std::io::Error>) {
        Ok(())
    }
}

/// Bytes decoded from memory, read from the front.
pub struct DecoderReaderMemoryImp {
    v: Vec<u8>,
    index: usize,
}

impl DecoderReaderMemoryImp {
    #[verifier::type_invariant]
    spec fn index_in_bounds(&self) -> bool {
        self.index <= self.v@.len()
    }

    /// A reader of `v` from its first byte.
    pub fn new(v: Vec<u8>) -> (r: Self)
        ensures
            r.unread() == v@,
    {
        let r = DecoderReaderMemoryImp { v, index: 0 };
        assert(r.v@.skip(0) =~= r.v@);
        r
    }
}

impl DecoderReader for DecoderReaderMemoryImp {
    closed spec fn unread(&self) -> Seq<u8> {
        self.v@.skip(self.index as int)
    }

    fn read_size(&mut self) -> (r: usize) {
        proof {
            use_type_invariant(&*self);
        }
        let total = self.v.len();
        assert(self.index + 4 <= total);
        let a = &self.v.as_slice()[self.index..self.index + 4];
        assert(a@ =~= old(self).unread().take(4));
        self.index += 4;
        assert(self.unread() =~= old(self).unread().skip(4));
        convert_u8_array_to_usize(a)
    }

    fn read(&mut self, size: usize) -> (r: &[u8]) {
        proof {
            use_type_invariant(&*self);
        }
        let total = self.v.len();
        assert(self.index + size <= total);
        let res = &self.v.as_slice()[self.index..self.index + size];
        assert(res@ =~= old(self).unread().take(size as int));
        self.index += size;
        assert(self.unread() =~= old(self).unread().skip(size as int));
        res
    }
}

/// Where a block of a table file starts and which keys it spans.
pub struct BlockMeta<K: Key> {
    start: K,
    end: K,
    offset: usize,
}

impl<K: Key> BlockMeta<K> {
    /// The block at `offset` spanning `start` to `end`.
    pub fn new(start: K, end: K, offset: usize) -> (r: Self)
        ensures
            r.spec_start() == start,
            r.spec_end() == end,
            r.spec_offset() == offset,
    {
        BlockMeta { start, end, offset }
    }

    pub closed spec fn spec_start(&self) -> K {
        self.start
    }

    pub closed spec fn spec_end(&self) -> K {
        self.end
    }

    pub closed spec fn spec_offset(&self) -> usize {
        self.offset
    }

    /// The first and the last key of the block.
    pub fn range(&self) -> (r: (&K, &K))
        ensures
            *r.0 == self.spec_start(),
            *r.1 == self.spec_end(),
    {
        (&self.start, &self.end)
    }

    pub fn start(&self) -> (r: &K)
        ensures
            *r == self.spec_start(),
    {
        &self.start
    }

    pub fn end(&self) -> (r: &K)
        ensures
            *r == self.spec_end(),
    {
        &self.end
    }

    pub fn offset(&self) -> (r: &usize)
        ensures
            *r == self.spec_offset(),
    {
        &self.offset
    }
}

/// Two block descriptions are equal when their first and last keys are.
impl<K: Key> PartialEq for BlockMeta<K> {
    fn eq(&self, other: &Self) -> (r: bool) {
        self.start.eq(&other.start) && self.end.eq(&other.end)
    }
}

impl<K: Key> vstd::std_specs::cmp::PartialEqSpecImpl for BlockMeta<K> {
    open spec fn obeys_eq_spec() -> bool {
        K::obeys_eq_spec()
    }

    open spec fn eq_spec(&self, other: &Self) -> bool {
        self.spec_start().eq_spec(&other.spec_start()) && self.spec_end().eq_spec(&other.spec_end())
    }
}

/// Block descriptions are ordered by their first keys.
impl<K: Key> PartialOrd for BlockMeta<K> {
    fn partial_cmp(&self, other: &Self) -> (r: Option<core::cmp::Ordering>) {
        self.start.partial_cmp(&other.start)
    }
}

impl<K: Key> vstd::std_specs::cmp::PartialOrdSpecImpl for BlockMeta<K> {
    open spec fn obeys_partial_cmp_spec() -> bool {
        K::obeys_partial_cmp_spec()
    }

    open spec fn partial_cmp_spec(&self, other: &Self) -> Option<core::cmp::Ordering> {
        self.spec_start().partial_cmp_spec(&other.spec_start())
    }
}

/// Law: two block descriptions are equal exactly when their first keys are
/// equal and their last keys are equal, whatever their offsets, and they are
/// ordered as their first keys are.
pub proof fn law_block_meta_compare<K: Key>(a: BlockMeta<K>, b: BlockMeta<K>)
    ensures
        a.eq_spec(&b) <==> (a.spec_start().eq_spec(&b.spec_start()) && a.spec_end().eq_spec(&b.spec_end())),
        BlockMeta::<K>::obeys_eq_spec() == K::obeys_eq_spec(),
        a.partial_cmp_spec(&b) == a.spec_start().partial_cmp_spec(&b.spec_start()),
        BlockMeta::<K>::obeys_partial_cmp_spec() == K::obeys_partial_cmp_spec(),
{
}

/// A file read in chunks.
pub trait StorageReader {
    /// The next chunk and its length.
    fn read(&mut self) -> (&Vec<u8>, usize);

    /// The chunk of `size` bytes at `offset` and its length.
    fn read_at(&mut self, offset: usize, size: usize) -> (&Vec<u8>, usize);
}

/// A file written in chunks.
pub trait StorageWriter {
    fn append(&mut self, data: &[u8]);

    fn write(&mut self, offset: usize, data: &[u8]);

    fn flush(&mut self);
}

} // verus!
