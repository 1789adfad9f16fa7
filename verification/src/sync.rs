//! Cutting a pushed file into the chunks that travel over SFTP.
//!
//! A file push streams its source in bounded chunks; sending the chunks in
//! order writes the source byte for byte to the destination.

use vstd::prelude::*;
use vstd::seq_lib::*;
use vstd::slice::{slice_subrange, slice_to_vec};

verus! {

/// A pushed file travels in chunks of at most this many bytes.
pub const CHUNK_LEN: usize = 8192;

/// The byte sequences a list of chunks holds.
pub open spec fn chunk_views(chunks: Seq<Vec<u8>>) -> Seq<Seq<u8>> {
    chunks.map_values(|c: Vec<u8>| c@)
}

/// Cuts `content` into the chunks a file push sends, in order: every chunk
/// but the last holds exactly `CHUNK_LEN` bytes, the last holds the
/// non-empty remainder, and concatenating them gives `content` back
/// unchanged.
pub fn file_chunks(content: &Vec<u8>) -> (r: Vec<Vec<u8>>)
    ensures
        chunk_views(r@).flatten() == content@,
        forall|i: int| 0 <= i < r@.len() ==> 1 <= (#[trigger] r@[i])@.len() <= CHUNK_LEN,
        forall|i: int| 0 <= i < r@.len() - 1 ==> (#[trigger] r@[i])@.len() == CHUNK_LEN,
        content@.len() == 0 ==> r@.len() == 0,
{
    let mut r: Vec<Vec<u8>> = Vec::new();
    let mut pos: usize = 0;
    while pos < content.len()
        invariant
            0 <= pos <= content@.len(),
            chunk_views(r@).flatten() == content@.take(pos as int),
            forall|i: int| 0 <= i < r@.len() ==> 1 <= (#[trigger] r@[i])@.len() <= CHUNK_LEN,
            forall|i: int| 0 <= i < r@.len() - 1 ==> (#[trigger] r@[i])@.len() == CHUNK_LEN,
            pos < content@.len() ==> forall|i: int|
                0 <= i < r@.len() ==> (#[trigger] r@[i])@.len() == CHUNK_LEN,
            pos == 0 ==> r@.len() == 0,
        decreases content@.len() - pos,
    {
        let end = if content.len() - pos > CHUNK_LEN {
            pos + CHUNK_LEN
        } else {
            content.len()
        };
        let chunk: Vec<u8> = slice_to_vec(slice_subrange(content.as_slice(), pos, end));
        proof {
            chunk_views(r@).lemma_flatten_push(chunk@);
            assert(chunk_views(r@.push(chunk)) =~= chunk_views(r@).push(chunk@));
            assert(content@.take(pos as int) + content@.subrange(pos as int, end as int)
                =~= content@.take(end as int));
        }
        r.push(chunk);
        pos = end;
    }
    proof {
        assert(content@.take(content@.len() as int) =~= content@);
    }
    r
}

} // verus!
