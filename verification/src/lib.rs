//! Whole-file loading: accumulate the byte chunks of a sequential read, in
//! order and without transformation, into one owned buffer.
//!
//! The I/O itself (opening a file, reading chunks, releasing the handle) is
//! outside this library; callers hand each chunk to [`FileContents`] as it
//! arrives and take the finished buffer back. What is verified here is the
//! accumulation: the final buffer is exactly the concatenation of the chunks,
//! byte for byte and in original order.

use vstd::prelude::*;
use vstd::slice::*;

verus! {

/// The concatenation, in order, of a sequence of byte chunks: what one
/// sequential read of a whole file yields when `chunks` are the successive
/// reads, first to last.
pub open spec fn concat_all(chunks: Seq<Seq<u8>>) -> Seq<u8>
    decreases chunks.len(),
{
    if chunks.len() == 0 {
        Seq::empty()
    } else {
        concat_all(chunks.drop_last()) + chunks.last()
    }
}

/// The complete byte sequence produced by one whole-file read: an ordered
/// sequence of bytes, owned by the caller, with no invariant beyond its
/// length being the number of bytes accumulated so far.
pub struct FileContents {
    bytes: Vec<u8>,
}

impl View for FileContents {
    type V = Seq<u8>;

    closed spec fn view(&self) -> Seq<u8> {
        self.bytes@
    }
}

impl FileContents {
    /// An empty buffer, the state before any chunk has been read.
    pub fn new() -> (c: Self)
        ensures
            c@ == Seq::<u8>::empty(),
    {
        let c = FileContents { bytes: Vec::new() };
        proof {
            assert(c.bytes@ =~= Seq::<u8>::empty());
        }
        c
    }

    /// The number of bytes accumulated so far.
    pub fn len(&self) -> (n: usize)
        ensures
            n == self@.len(),
    {
        self.bytes.len()
    }

    /// True exactly when nothing has been accumulated.
    pub fn is_empty(&self) -> (r: bool)
        ensures
            r == (self@.len() == 0),
    {
        self.bytes.is_empty()
    }

    /// Appends the first `count` bytes of `chunk`, in order, after what is
    /// already accumulated. `count` is the number of bytes the last read
    /// produced; the rest of `chunk` is whatever the read left untouched.
    pub fn append_chunk(&mut self, chunk: &[u8], count: usize)
        requires
            count <= chunk@.len(),
        ensures
            final(self)@ == old(self)@ + chunk@.take(count as int),
    {
        let mut i: usize = 0;
        proof {
            assert(self@ =~= old(self)@ + chunk@.take(0));
        }
        while i < count
            invariant
                i <= count,
                count <= chunk@.len(),
                self@ == old(self)@ + chunk@.take(i as int),
            decreases count - i,
        {
            let b: u8 = *slice_index_get(chunk, i);
            self.bytes.push(b);
            proof {
                assert(self@ =~= old(self)@ + chunk@.take(i as int + 1));
            }
            i = i + 1;
        }
        proof {
            assert(self@ =~= old(self)@ + chunk@.take(count as int));
        }
    }

    /// Hands the accumulated bytes to the caller, unchanged.
    pub fn into_bytes(self) -> (v: Vec<u8>)
        ensures
            v@ == self@,
    {
        self.bytes
    }

    /// The byte at position `i` of the accumulated contents.
    pub fn byte_at(&self, i: usize) -> (b: u8)
        requires
            i < self@.len(),
        ensures
            b == self@[i as int],
    {
        self.bytes[i]
    }

    /// Byte-for-byte comparison: true exactly when the two buffers hold the
    /// same bytes in the same order.
    pub fn eq_bytes(&self, other: &FileContents) -> (r: bool)
        ensures
            r == (self@ == other@),
    {
        if self.bytes.len() != other.bytes.len() {
            return false;
        }
        let n: usize = self.bytes.len();
        let mut i: usize = 0;
        while i < n
            invariant
                i <= n,
                n == self@.len(),
                n == other@.len(),
                forall|j: int| 0 <= j < i ==> self@[j] == other@[j],
            decreases n - i,
        {
            if self.bytes[i] != other.bytes[i] {
                return false;
            }
            i = i + 1;
        }
        proof {
            assert(self@ =~= other@);
        }
        true
    }
}

/// Extending the accumulated prefix of a read by one more chunk appends
/// exactly that chunk's bytes.
proof fn lemma_concat_all_take_step(chunks: Seq<Seq<u8>>, i: int)
    requires
        0 <= i < chunks.len(),
    ensures
        concat_all(chunks.take(i + 1)) == concat_all(chunks.take(i)) + chunks[i],
{
    let front = chunks.take(i + 1);
    assert(front.drop_last() =~= chunks.take(i));
    assert(front.last() == chunks[i]);
}

/// The total number of bytes in a sequence of chunks.
pub open spec fn total_len(chunks: Seq<Seq<u8>>) -> nat
    decreases chunks.len(),
{
    if chunks.len() == 0 {
        0
    } else {
        total_len(chunks.drop_last()) + chunks.last().len()
    }
}

/// Nothing is truncated and nothing is added: a whole-file read of `chunks`
/// yields exactly as many bytes as the reads produced together.
pub proof fn lemma_loaded_len(chunks: Seq<Seq<u8>>)
    ensures
        concat_all(chunks).len() == total_len(chunks),
    decreases chunks.len(),
{
    if chunks.len() > 0 {
        lemma_loaded_len(chunks.drop_last());
    }
}

/// A file whose bytes arrive in a single read comes back exactly: no
/// transformation, matching length and byte-for-byte equality.
pub proof fn lemma_single_read_exact(content: Seq<u8>)
    ensures
        concat_all(seq![content]) == content,
{
    let chunks = seq![content];
    assert(chunks.drop_last() =~= Seq::<Seq<u8>>::empty());
    assert(chunks.last() == content);
    assert(concat_all(chunks.drop_last()) == Seq::<u8>::empty());
    assert(Seq::<u8>::empty() + content =~= content);
}

/// Loading is a function of the bytes read alone: two reads of an unmodified
/// file see the same chunk contents, hence yield identical buffers.
pub proof fn lemma_load_deterministic(first: Seq<Seq<u8>>, second: Seq<Seq<u8>>)
    requires
        first == second,
    ensures
        concat_all(first) == concat_all(second),
{
}

/// Accumulates a whole read at once: the result holds exactly the
/// concatenation of `chunks`, byte for byte and in original order.
pub fn accumulate(chunks: &Vec<Vec<u8>>) -> (c: FileContents)
    ensures
        c@ == concat_all(chunks.deep_view()),
{
    let ghost model: Seq<Seq<u8>> = chunks.deep_view();
    let mut c = FileContents::new();
    let mut i: usize = 0;
    proof {
        assert(chunks.deep_view().take(0) =~= Seq::<Seq<u8>>::empty());
    }
    while i < chunks.len()
        invariant
            i <= chunks.len(),
            model == chunks.deep_view(),
            model.len() == chunks@.len(),
            forall|j: int| 0 <= j < model.len() ==> model[j] == chunks@[j]@,
            c@ == concat_all(model.take(i as int)),
        decreases chunks.len() - i,
    {
        let chunk: &Vec<u8> = &chunks[i];
        let n: usize = chunk.len();
        c.append_chunk(chunk.as_slice(), n);
        proof {
            assert(chunk@.take(n as int) =~= model[i as int]);
            lemma_concat_all_take_step(model, i as int);
        }
        i = i + 1;
    }
    proof {
        assert(model.take(model.len() as int) =~= model);
    }
    c
}

} // verus!
