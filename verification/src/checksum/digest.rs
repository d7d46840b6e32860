//! The digest provider: SHA-1 over a stream of bytes, given as lower-case
//! hexadecimal.

use vstd::prelude::*;
use crypto::digest::Digest;
use crypto::sha1::Sha1;

verus! {

#[verifier::external_type_specification]
#[verifier::external_body]
pub struct ExSha1(Sha1);

/// The SHA-1 digest of `data`, as forty hexadecimal digits.
pub uninterp spec fn sha1_hex(data: Seq<u8>) -> Seq<char>;

/// The bytes that a hasher has taken since it was made or last reset.
pub uninterp spec fn sha1_taken(h: Sha1) -> Seq<u8>;

/// Whether a hasher has given a result since it was made or last reset.
pub uninterp spec fn sha1_closed(h: Sha1) -> bool;

/// The most bytes that one digest can cover: the hasher counts its input in
/// bits, in 64 bits.
pub const MAX_INPUT: u64 = 0x1fff_ffff_ffff_ffff;

/// Whether `c` is a lower-case hexadecimal digit.
pub open spec fn is_hex_digit(c: char) -> bool {
    ('0' <= c <= '9') || ('a' <= c <= 'f')
}

/// A text of forty lower-case hexadecimal digits.
pub open spec fn is_sha1_hex(s: Seq<char>) -> bool {
    &&& s.len() == 40
    &&& forall|i: int| 0 <= i < s.len() ==> is_hex_digit(#[trigger] s[i])
}

/// `Sha1::new` gives a hasher in its initial state: it has taken nothing
/// and given no result.
#[verifier::external_body]
fn sha1_new() -> (h: Sha1)
    ensures
        sha1_taken(h) == Seq::<u8>::empty(),
        !sha1_closed(h),
{
    Sha1::new()
}

/// `Digest::reset` on a `Sha1` puts the hasher back into its initial state.
#[verifier::external_body]
fn sha1_reset(h: &mut Sha1)
    ensures
        sha1_taken(*final(h)) == Seq::<u8>::empty(),
        !sha1_closed(*final(h)),
{
    h.reset()
}

/// `Digest::input` on a `Sha1` takes `msg` after what the hasher has taken
/// so far. It panics once a result was given, and where the count of bits
/// taken would pass 64 bits: both are left out.
#[verifier::external_body]
fn sha1_input(h: &mut Sha1, msg: &[u8])
    requires
        !sha1_closed(*old(h)),
        sha1_taken(*old(h)).len() + msg@.len() <= MAX_INPUT,
    ensures
        sha1_taken(*final(h)) == sha1_taken(*old(h)) + msg@,
        !sha1_closed(*final(h)),
{
    h.input(msg)
}

/// `Digest::result_str` on a `Sha1` gives the digest of what the hasher has
/// taken: twenty bytes, each written as two lower-case hexadecimal digits.
/// The hasher keeps what it has taken and counts as closed from then on.
#[verifier::external_body]
fn sha1_result_str(h: &mut Sha1) -> (hex: String)
    ensures
        hex@ == sha1_hex(sha1_taken(*old(h))),
        is_sha1_hex(hex@),
        sha1_taken(*final(h)) == sha1_taken(*old(h)),
        sha1_closed(*final(h)),
{
    h.result_str()
}

/// A digest in the making. It takes the bytes of one file in chunks of any
/// size, gives their digest, and is reset for the next file.
pub struct Hasher {
    sha: Sha1,
    taken: u64,
    closed: bool,
}

impl Hasher {
    /// The counters say what the hasher holds.
    pub closed spec fn wf(&self) -> bool {
        &&& self.taken == sha1_taken(self.sha).len()
        &&& self.taken <= MAX_INPUT
        &&& self.closed == sha1_closed(self.sha)
    }

    /// The bytes taken since the hasher was made or last reset.
    pub closed spec fn input(&self) -> Seq<u8> {
        sha1_taken(self.sha)
    }

    /// Whether the digest was given since the hasher was made or last reset.
    pub closed spec fn finished(&self) -> bool {
        self.closed
    }

    /// A hasher that has taken nothing.
    pub fn new() -> (h: Hasher)
        ensures
            h.wf(),
            h.input() == Seq::<u8>::empty(),
            !h.finished(),
    {
        Hasher { sha: sha1_new(), taken: 0, closed: false }
    }

    /// Forgets what was taken, for the next file.
    pub fn reset(&mut self)
        ensures
            final(self).wf(),
            final(self).input() == Seq::<u8>::empty(),
            !final(self).finished(),
    {
        sha1_reset(&mut self.sha);
        self.taken = 0;
        self.closed = false;
    }

    /// The number of bytes taken.
    pub fn len(&self) -> (n: u64)
        requires
            self.wf(),
        ensures
            n == self.input().len(),
    {
        self.taken
    }

    /// Whether the digest was given.
    pub fn is_finished(&self) -> (done: bool)
        ensures
            done == self.finished(),
    {
        self.closed
    }

    /// Takes `chunk` after the bytes taken so far. A hasher that has given
    /// its digest, or that would hold more than `MAX_INPUT` bytes, takes
    /// nothing and says so.
    pub fn update(&mut self, chunk: &[u8]) -> (taken: bool)
        requires
            old(self).wf(),
        ensures
            final(self).wf(),
            taken == (!old(self).finished() && old(self).input().len() + chunk@.len()
                <= MAX_INPUT),
            taken ==> final(self).input() == old(self).input() + chunk@,
            taken ==> !final(self).finished(),
            !taken ==> *final(self) == *old(self),
    {
        if self.closed {
            return false;
        }
        let n = chunk.len();
        if n as u64 > MAX_INPUT - self.taken {
            return false;
        }
        sha1_input(&mut self.sha, chunk);
        self.taken = self.taken + n as u64;
        true
    }

    /// The digest of the bytes taken, in hexadecimal. The hasher takes no
    /// more until it is reset.
    pub fn finish(&mut self) -> (hex: String)
        requires
            old(self).wf(),
        ensures
            final(self).wf(),
            hex@ == sha1_hex(old(self).input()),
            is_sha1_hex(hex@),
            final(self).input() == old(self).input(),
            final(self).finished(),
    {
        let hex = sha1_result_str(&mut self.sha);
        self.closed = true;
        hex
    }
}

/// The digest of `content`, or nothing where `content` is longer than
/// `MAX_INPUT`.
pub fn digest(content: &[u8]) -> (hex: Option<String>)
    ensures
        hex is Some == (content@.len() <= MAX_INPUT),
        hex matches Some(h) ==> h@ == sha1_hex(content@) && is_sha1_hex(h@),
{
    let mut hasher = Hasher::new();
    if hasher.update(content) {
        assert(Seq::<u8>::empty() + content@ == content@);
        Some(hasher.finish())
    } else {
        None
    }
}

} // verus!
