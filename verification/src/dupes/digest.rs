//! Digests of file contents.
//!
//! The bytes are read elsewhere; what is hashed, when a digest counts and when
//! reading stops is decided here.

use vstd::prelude::*;

verus! {

/// Bytes read from each end of a file during the cheap stage.
pub const WINDOW: u64 = 16384;

/// At or below this size the window stage is pointless, so hash the whole file.
pub const SMALL_FILE: u64 = 65536;

/// Bytes asked for with each read of a whole file.
pub const READ_BUF: usize = 262144;

pub type Digest = [u8; 32];

/// The hash state of `blake3`.
#[verifier::external_type_specification]
#[verifier::external_body]
pub struct ExHasher(blake3::Hasher);

/// The bytes that a hash state has taken in.
pub uninterp spec fn absorbed(h: blake3::Hasher) -> Seq<u8>;

/// Whether a hash state came from `Hasher::new` and so starts at the beginning
/// of its input.
pub uninterp spec fn from_start(h: blake3::Hasher) -> bool;

/// The `BLAKE3` hash of a string of bytes.
pub uninterp spec fn blake3_hash(input: Seq<u8>) -> Seq<u8>;

/// `blake3::Hasher::new` gives a state that has taken in nothing.
#[verifier::external_body]
fn new_hasher() -> (h: blake3::Hasher)
    ensures
        from_start(h),
        absorbed(h) == Seq::<u8>::empty(),
{
    blake3::Hasher::new()
}

/// `blake3::Hasher::update` takes in `bytes` behind what was taken in before.
/// The hash is defined for inputs of less than two to the sixty-fourth bytes.
#[verifier::external_body]
fn absorb(h: &mut blake3::Hasher, bytes: &[u8])
    requires
        from_start(*old(h)),
        absorbed(*old(h)).len() + bytes@.len() <= u64::MAX,
    ensures
        from_start(*final(h)),
        absorbed(*final(h)) == absorbed(*old(h)) + bytes@,
{
    h.update(bytes);
}

/// `blake3::Hasher::finalize` gives the hash of everything taken in.
#[verifier::external_body]
fn finalized(h: &blake3::Hasher) -> (d: [u8; 32])
    requires
        from_start(*h),
    ensures
        d@ == blake3_hash(absorbed(*h)),
{
    *h.finalize().as_bytes()
}

/// The eight bytes of `n`, least significant first.
pub open spec fn le_bytes(n: u64) -> Seq<u8> {
    Seq::new(8, |i: int| le_byte(n, i))
}

pub open spec fn le_byte(n: u64, i: int) -> u8
    decreases i,
{
    if i <= 0 {
        (n % 256) as u8
    } else {
        le_byte(n / 256, i - 1)
    }
}

fn size_bytes(n: u64) -> (r: Vec<u8>)
    ensures
        r@ == le_bytes(n),
{
    let mut out: Vec<u8> = Vec::new();
    let mut rest: u64 = n;
    let mut k: usize = 0;
    while k < 8
        invariant
            k <= 8,
            out@.len() == k,
            forall|i: int| 0 <= i < k ==> #[trigger] out@[i] == le_byte(n, i),
            forall|i: int| k <= i < 8 ==> #[trigger] le_byte(n, i) == le_byte(rest, i - k),
        decreases 8 - k,
    {
        proof {
            assert(le_byte(n, k as int) == le_byte(rest, 0));
            assert forall|i: int| k + 1 <= i < 8 implies #[trigger] le_byte(n, i) == le_byte(rest / 256, i - (k + 1)) by {
                assert(le_byte(n, i) == le_byte(rest, i - k));
            }
        }
        out.push((rest % 256) as u8);
        rest = rest / 256;
        k = k + 1;
    }
    assert(out@ =~= le_bytes(n));
    out
}

/// What the windows of a file of `size` bytes are hashed as: the size, so that
/// a short file cannot collide with the head of a longer one, and the windows.
pub open spec fn window_input(size: u64, head: Seq<u8>, tail: Seq<u8>) -> Seq<u8> {
    le_bytes(size) + head + tail
}

/// Digest of the first and last [`WINDOW`] bytes, with the size mixed in.
pub fn hash_windows(size: u64, head: &[u8], tail: &[u8]) -> (d: [u8; 32])
    requires
        head@.len() == WINDOW,
        tail@.len() == WINDOW,
    ensures
        d@ == blake3_hash(window_input(size, head@, tail@)),
{
    let mut h = new_hasher();
    let prefix = size_bytes(size);
    absorb(&mut h, prefix.as_slice());
    absorb(&mut h, head);
    absorb(&mut h, tail);
    proof {
        assert(Seq::<u8>::empty() + le_bytes(size) =~= le_bytes(size));
    }
    finalized(&h)
}

/// Where the last window of a file starts.
pub open spec fn tail_at(size: u64) -> Option<u64> {
    if size >= WINDOW {
        Some((size - WINDOW) as u64)
    } else {
        None
    }
}

/// The file still has the expected size and its bytes are on this disk.
pub open spec fn fit_to_read(before: FileStamp, size: u64) -> bool {
    before.len == size && !before.cloud
}

/// Where the last window of a file starts; files that the windows would cover
/// have none.
pub fn tail_offset(size: u64) -> (r: Option<u64>)
    ensures
        r == tail_at(size),
        r == (if size >= WINDOW {
            Some((size - WINDOW) as u64)
        } else {
            None
        }),
{
    if size >= WINDOW {
        Some(size - WINDOW)
    } else {
        None
    }
}

/// What the metadata of a file says about its contents.
#[derive(Clone, Copy, Debug)]
pub struct FileStamp {
    pub len: u64,
    /// Modification time in nanoseconds since the epoch, if it is known.
    pub modified: Option<i128>,
    /// Its bytes live in the cloud, not here.
    pub cloud: bool,
}

/// Length and modification time are the same.
pub open spec fn same_stamp(before: FileStamp, after: FileStamp) -> bool {
    before.len == after.len && before.modified == after.modified
}

pub fn unchanged(before: &FileStamp, after: &FileStamp) -> (r: bool)
    ensures
        r == same_stamp(*before, *after),
        r <==> before.len == after.len && before.modified == after.modified,
{
    let same_time = match (before.modified, after.modified) {
        (Some(a), Some(b)) => a == b,
        (None, None) => true,
        _ => false,
    };
    before.len == after.len && same_time
}

/// Whether a file may be read: it still has the expected size and its bytes are
/// on this disk.
pub fn readable(before: &FileStamp, size: u64) -> (r: bool)
    ensures
        r == fit_to_read(*before, size),
        r == (before.len == size && !before.cloud),
{
    before.len == size && !before.cloud
}

/// What one read of a file gave.
pub enum Read {
    /// The end of the file.
    End,
    Bytes(Vec<u8>),
    /// Nothing was read, but reading again may work.
    Interrupted,
    Failed,
}

/// What to do after a read.
#[derive(Clone, Copy, PartialEq, Eq, Debug, Structural)]
pub enum Next {
    ReadMore,
    /// Everything was read.
    Finish,
    /// There will be no digest.
    GiveUp,
}

/// A whole file on its way through the hash.
pub struct FileHash {
    pub hasher: blake3::Hasher,
    pub fed: u64,
}

impl FileHash {
    pub open spec fn wf(self) -> bool {
        from_start(self.hasher) && absorbed(self.hasher).len() == self.fed
    }

    /// The bytes taken in so far.
    pub open spec fn taken(self) -> Seq<u8> {
        absorbed(self.hasher)
    }

    pub fn new() -> (f: Self)
        ensures
            f.wf(),
            f.taken() == Seq::<u8>::empty(),
    {
        FileHash { hasher: new_hasher(), fed: 0 }
    }

    /// Takes in what one read gave. A cancelled run gives up whatever was read.
    pub fn step(&mut self, cancelled: bool, read: Read) -> (next: Next)
        requires
            old(self).wf(),
        ensures
            final(self).wf(),
            next == step_outcome(*old(self), cancelled, read),
            cancelled || read is Failed ==> next == Next::GiveUp,
            !cancelled && read is End ==> next == Next::Finish,
            !cancelled && read is Interrupted ==> next == Next::ReadMore,
            !cancelled && read is Bytes && next == Next::GiveUp ==> old(self).taken().len() + read->0@.len() > u64::MAX,
            final(self).taken() == (match read {
                Read::Bytes(b) => if next == Next::ReadMore {
                    old(self).taken() + b@
                } else {
                    old(self).taken()
                },
                _ => old(self).taken(),
            }),
    {
        if cancelled {
            return Next::GiveUp;
        }
        match read {
            Read::End => Next::Finish,
            Read::Bytes(b) => {
                let n: u64 = b.len() as u64;
                if n > u64::MAX - self.fed {
                    return Next::GiveUp;
                }
                absorb(&mut self.hasher, b.as_slice());
                self.fed = self.fed + n;
                Next::ReadMore
            },
            Read::Interrupted => Next::ReadMore,
            Read::Failed => Next::GiveUp,
        }
    }

    /// The digest of the file, unless it changed while it was read.
    pub fn finish(&self, before: &FileStamp, after: Option<FileStamp>) -> (d: Option<[u8; 32]>)
        requires
            self.wf(),
        ensures
            match d {
                Some(x) => after is Some && same_stamp(*before, after->0) && x@ == blake3_hash(self.taken()),
                None => after is None || !same_stamp(*before, after->0),
            },
            d is Some <==> after is Some && after->0.len == before.len && after->0.modified == before.modified,
    {
        match after {
            Some(a) => if unchanged(before, &a) {
                Some(finalized(&self.hasher))
            } else {
                None
            },
            None => None,
        }
    }
}

/// What follows from a read.
pub open spec fn step_outcome(f: FileHash, cancelled: bool, read: Read) -> Next {
    if cancelled {
        Next::GiveUp
    } else {
        match read {
            Read::End => Next::Finish,
            Read::Bytes(b) => if f.fed + b@.len() <= u64::MAX {
                Next::ReadMore
            } else {
                Next::GiveUp
            },
            Read::Interrupted => Next::ReadMore,
            Read::Failed => Next::GiveUp,
        }
    }
}

} // verus!
