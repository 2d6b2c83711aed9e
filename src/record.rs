use vstd::prelude::*;
use crate::accum::{fed_in_order, lemma_fed_in_order_is_concatenation, DigestSet, Digests};
use crate::hexfmt::is_lower_hex;
use crate::pathname::{extension, extension_of, file_name, file_name_of};

verus! {

/// A modification time as seconds and nanoseconds since the Unix epoch.
#[derive(Clone, Copy, Debug, PartialEq, Eq, Structural)]
pub struct Timestamp {
    pub secs: u64,
    pub nanos: u32,
}

/// What the file system reports about one entry, before any content is read.
pub struct FileMeta {
    pub path: String,
    pub is_dir: bool,
    pub size: u64,
    pub mod_time: Timestamp,
    pub permissions: u32,
}

/// One entry of the inventory.
pub struct FileData {
    pub file_path: String,
    pub file_name: String,
    pub extension: String,
    pub size: u64,
    pub mod_time: Timestamp,
    pub is_dir: bool,
    pub permissions: u32,
    pub md5: String,
    pub sha1: String,
    pub sha256: String,
}

impl FileData {
    /// All three digest fields are empty.
    pub open spec fn digests_empty(self) -> bool {
        &&& self.md5@.len() == 0
        &&& self.sha1@.len() == 0
        &&& self.sha256@.len() == 0
    }

    /// All three digest fields are lower-case hex of their fixed lengths.
    pub open spec fn digests_full(self) -> bool {
        &&& is_lower_hex(self.md5@, 32)
        &&& is_lower_hex(self.sha1@, 40)
        &&& is_lower_hex(self.sha256@, 64)
    }

    /// A directory carries no digests; any other entry carries all three.
    pub open spec fn well_formed(self) -> bool {
        if self.is_dir {
            self.digests_empty()
        } else {
            self.digests_full()
        }
    }

    /// This is the record of the entry `meta` whose content was `content`.
    pub open spec fn describes(self, meta: FileMeta, content: Seq<u8>) -> bool {
        &&& self.file_path@ == meta.path@
        &&& self.file_name@ == file_name_of(meta.path@)
        &&& self.extension@ == extension_of(file_name_of(meta.path@))
        &&& self.size == (if meta.is_dir { 0 } else { meta.size })
        &&& self.mod_time == meta.mod_time
        &&& self.is_dir == meta.is_dir
        &&& self.permissions == meta.permissions
        &&& if meta.is_dir {
            self.digests_empty()
        } else {
            Digests { md5: self.md5, sha1: self.sha1, sha256: self.sha256 }.of(content)
        }
    }
}

/// A record is never emitted with a mix of empty and populated digests:
/// exactly one of "all empty" and "all well-formed hex" holds.
pub proof fn lemma_digests_never_mixed(r: FileData)
    requires
        r.well_formed(),
    ensures
        r.digests_empty() != r.digests_full(),
{
}

/// The byte sequences that a list of read buffers holds.
pub open spec fn chunks_view(chunks: Seq<Vec<u8>>) -> Seq<Seq<u8>> {
    chunks.map_values(|v: Vec<u8>| v@)
}

/// How a file's content is split into reads does not matter: two runs over
/// the same entry whose reads concatenate to the same bytes, each fed in
/// order to a freshly opened processor, give the same record.
pub proof fn lemma_record_independent_of_chunking(
    meta: FileMeta,
    a: Seq<Seq<u8>>,
    b: Seq<Seq<u8>>,
    ra: FileData,
    rb: FileData,
)
    requires
        a.flatten() == b.flatten(),
        ra.describes(meta, fed_in_order(Seq::empty(), a)),
        rb.describes(meta, fed_in_order(Seq::empty(), b)),
    ensures
        ra.md5@ == rb.md5@,
        ra.sha1@ == rb.sha1@,
        ra.sha256@ == rb.sha256@,
        ra.file_path@ == rb.file_path@,
        ra.file_name@ == rb.file_name@,
        ra.extension@ == rb.extension@,
        ra.size == rb.size,
        ra.mod_time == rb.mod_time,
        ra.is_dir == rb.is_dir,
        ra.permissions == rb.permissions,
{
    lemma_fed_in_order_is_concatenation(a);
    lemma_fed_in_order_is_concatenation(b);
}

/// Builds the record of one entry while its content streams through.
pub struct FileProcessor {
    meta: FileMeta,
    digests: DigestSet,
}

impl FileProcessor {
    /// The entry being processed.
    pub closed spec fn meta(&self) -> FileMeta {
        self.meta
    }

    /// The content fed so far.
    pub closed spec fn fed(&self) -> Seq<u8> {
        self.digests@
    }

    /// The accumulators agree on what they have consumed.
    pub closed spec fn wf(&self) -> bool {
        self.digests.wf()
    }

    /// Starts processing the entry `meta`, with no content read yet.
    pub fn open(meta: FileMeta) -> (r: FileProcessor)
        ensures
            r.wf(),
            r.meta() == meta,
            r.fed() == Seq::<u8>::empty(),
    {
        FileProcessor { meta, digests: DigestSet::new() }
    }

    /// Whether the entry's content is to be read: a directory's is not.
    pub fn wants_content(&self) -> (r: bool)
        ensures
            r == !self.meta().is_dir,
    {
        !self.meta.is_dir
    }

    /// Feeds the next chunk of the entry's content, in reading order.
    pub fn feed(&mut self, chunk: &[u8])
        requires
            old(self).wf(),
            !old(self).meta().is_dir,
        ensures
            final(self).wf(),
            final(self).meta() == old(self).meta(),
            final(self).fed() == old(self).fed() + chunk@,
    {
        self.digests.feed(chunk);
    }

    /// Feeds each of `chunks`, in order, as successive reads would.
    pub fn feed_chunks(&mut self, chunks: &Vec<Vec<u8>>)
        requires
            old(self).wf(),
            !old(self).meta().is_dir,
        ensures
            final(self).wf(),
            final(self).meta() == old(self).meta(),
            final(self).fed() == fed_in_order(old(self).fed(), chunks_view(chunks@)),
    {
        let ghost start = self.fed();
        let mut i: usize = 0;
        while i < chunks.len()
            invariant
                i <= chunks@.len(),
                self.wf(),
                self.meta() == old(self).meta(),
                !self.meta().is_dir,
                self.fed() == fed_in_order(start, chunks_view(chunks@.subrange(0, i as int))),
            decreases chunks@.len() - i,
        {
            let ghost before = chunks_view(chunks@.subrange(0, i as int));
            self.feed(chunks[i].as_slice());
            i = i + 1;
            let ghost after = chunks_view(chunks@.subrange(0, i as int));
            assert(after.drop_last() =~= before);
            assert(after.last() == chunks@[i - 1]@);
        }
        assert(chunks@.subrange(0, chunks@.len() as int) =~= chunks@);
    }

    /// Finishes the entry: the record of its metadata and the content fed.
    pub fn finish(self) -> (r: FileData)
        requires
            self.wf(),
        ensures
            r.describes(self.meta(), self.fed()),
            r.well_formed(),
    {
        let FileProcessor { meta, digests } = self;
        let name = file_name(meta.path.as_str());
        let ext = extension(name.as_str());
        if meta.is_dir {
            FileData {
                file_path: meta.path,
                file_name: name,
                extension: ext,
                size: 0,
                mod_time: meta.mod_time,
                is_dir: true,
                permissions: meta.permissions,
                md5: String::new(),
                sha1: String::new(),
                sha256: String::new(),
            }
        } else {
            let d = digests.finalize();
            FileData {
                file_path: meta.path,
                file_name: name,
                extension: ext,
                size: meta.size,
                mod_time: meta.mod_time,
                is_dir: false,
                permissions: meta.permissions,
                md5: d.md5,
                sha1: d.sha1,
                sha256: d.sha256,
            }
        }
    }
}

} // verus!
