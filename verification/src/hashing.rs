//! Content hashing with XXH3 (64 bit), and the name of the sync manifest
//! of a pair of directories.
use vstd::prelude::*;
use vstd::string::StringExecFns;

use xxhash_rust::xxh3::Xxh3;

use crate::numfmt::{hex_lower, push_char, push_hex};

verus! {

#[verifier::external_type_specification]
#[verifier::external_body]
pub struct ExXxh3(Xxh3);

/// The bytes fed so far to a streaming XXH3 hasher.
pub uninterp spec fn xxh3_input(h: Xxh3) -> Seq<u8>;

/// The one-shot 64-bit XXH3 hash of `data` with the default secret.
pub uninterp spec fn xxh3_64_of(data: Seq<u8>) -> u64;

/// `Xxh3::new`: a hasher with the default seed that has been fed nothing.
#[verifier::external_body]
fn xxh3_new() -> (h: Xxh3)
    ensures
        xxh3_input(h) == Seq::<u8>::empty(),
{
    Xxh3::new()
}

/// `Xxh3::update`: feeds `chunk` after what the hasher was fed before.
#[verifier::external_body]
fn xxh3_update(h: &mut Xxh3, chunk: &[u8])
    ensures
        xxh3_input(*final(h)) == xxh3_input(*old(h)) + chunk@,
{
    h.update(chunk);
}

/// `Xxh3::digest`: the 64-bit XXH3 hash of everything fed so far, the same
/// as the one-shot hash of those bytes (a hasher made by `Xxh3::new` has the
/// default seed and secret of `xxh3_64`); the hasher is unchanged.
#[verifier::external_body]
fn xxh3_digest(h: &Xxh3) -> (r: u64)
    ensures
        r == xxh3_64_of(xxh3_input(*h)),
{
    h.digest()
}

/// `xxhash_rust::xxh3::xxh3_64`: the one-shot hash of `data`.
#[verifier::external_body]
fn xxh3_64(data: &[u8]) -> (r: u64)
    ensures
        r == xxh3_64_of(data@),
{
    xxhash_rust::xxh3::xxh3_64(data)
}

/// A hasher of file content, fed chunk by chunk as the file is read.
pub struct ContentHasher {
    state: Xxh3,
}

impl View for ContentHasher {
    type V = Seq<u8>;

    /// The bytes fed so far.
    closed spec fn view(&self) -> Seq<u8> {
        xxh3_input(self.state)
    }
}

impl ContentHasher {
    pub fn new() -> (h: Self)
        ensures
            h@ == Seq::<u8>::empty(),
    {
        ContentHasher { state: xxh3_new() }
    }

    /// Feeds the next chunk of content.
    pub fn update(&mut self, chunk: &[u8])
        ensures
            final(self)@ == old(self)@ + chunk@,
    {
        xxh3_update(&mut self.state, chunk);
    }

    /// The XXH3 digest of all content fed so far: the one-shot XXH3 hash
    /// of that content, however it was split into chunks.
    pub fn digest(&self) -> (r: u64)
        ensures
            r == xxh3_64_of(self@),
    {
        xxh3_digest(&self.state)
    }
}

/// The text that identifies a pair of directories: `source:destination`.
pub open spec fn manifest_key(source: Seq<char>, destination: Seq<char>) -> Seq<char> {
    source + seq![':'] + destination
}

/// The manifest file name for a key hash: its lower-case hexadecimal digits
/// and `.manifest`.
pub open spec fn manifest_name(hash: u64) -> Seq<char> {
    hex_lower(hash as nat) + seq!['.', 'm', 'a', 'n', 'i', 'f', 'e', 's', 't']
}

/// The manifest file name for a key hash (see `manifest_name`).
pub fn manifest_name_for_hash(hash: u64) -> (r: String)
    ensures
        r@ == manifest_name(hash),
{
    let mut s = String::new();
    push_hex(&mut s, hash);
    push_char(&mut s, '.');
    push_char(&mut s, 'm');
    push_char(&mut s, 'a');
    push_char(&mut s, 'n');
    push_char(&mut s, 'i');
    push_char(&mut s, 'f');
    push_char(&mut s, 'e');
    push_char(&mut s, 's');
    push_char(&mut s, 't');
    assert(s@ =~= manifest_name(hash));
    s
}

/// The manifest file name of the directory pair shown as `source` and
/// `destination`: named by the XXH3 hash of the UTF-8 bytes of
/// `source:destination`.
pub fn manifest_file_name(source: &str, destination: &str) -> (r: String)
    ensures
        r@ == manifest_name(
            xxh3_64_of(vstd::utf8::encode_utf8(manifest_key(source@, destination@))),
        ),
{
    let mut key = String::new();
    key.append(source);
    push_char(&mut key, ':');
    key.append(destination);
    assert(key@ =~= manifest_key(source@, destination@));
    let bytes = key.as_str().as_bytes();
    let h = xxh3_64(bytes);
    manifest_name_for_hash(h)
}

}
