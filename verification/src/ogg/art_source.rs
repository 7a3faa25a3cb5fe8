//! Where the raw bytes of embedded pictures come from during synthesis.

use crate::error::FormatError;
use crate::error::Result;
use std::collections::HashMap;
use vstd::prelude::*;

verus! {

broadcast use vstd::std_specs::hash::group_hash_axioms;

/// `image` is there and holds `[offset, offset + len)`.
pub open spec fn holds_window(image: Option<Seq<u8>>, offset: int, len: int) -> bool {
    image is Some && offset + len <= image->0.len()
}

/// A source of raw art bytes used during synthesis to compute page CRCs. `offset` and
/// `buf.len()` are in raw-image coordinates; a read past the stored image is an error,
/// surfaced as `FormatError::ArtRead`.
pub trait ArtSource {
    /// The image stored under `art_id`.
    closed spec fn image(&self, art_id: i64) -> Option<Seq<u8>> {
        arbitrary()
    }

    /// A read of stored bytes never fails, and any other is answered with the id of the
    /// image.
    closed spec fn is_reliable(&self) -> bool {
        arbitrary()
    }

    fn read_window(&self, art_id: i64, offset: u64, buf: &mut [u8]) -> (r: Result<()>)
        ensures
            final(buf)@.len() == old(buf)@.len(),
            r is Ok ==> holds_window(
                self.image(art_id),
                offset as int,
                old(buf)@.len() as int,
            ) && final(buf)@ == self.image(art_id)->0.subrange(
                offset as int,
                offset + old(buf)@.len(),
            ),
            self.is_reliable() && holds_window(
                self.image(art_id),
                offset as int,
                old(buf)@.len() as int,
            ) ==> r is Ok,
            self.is_reliable() && r is Err ==> r->Err_0 == (FormatError::ArtRead { art_id }),
    ;
}

/// In-memory `ArtSource` over an `art_id -> image bytes` map.
pub struct MapArtSource {
    images: HashMap<i64, Vec<u8>>,
}

/// The last image listed under `art_id`.
pub open spec fn last_listed(images: Seq<(i64, Vec<u8>)>, art_id: i64) -> Option<Seq<u8>>
    decreases images.len(),
{
    if images.len() == 0 {
        None
    } else if images.last().0 == art_id {
        Some(images.last().1@)
    } else {
        last_listed(images.drop_last(), art_id)
    }
}

/// The image that a map holds under `art_id`.
spec fn stored(images: Map<i64, Vec<u8>>, art_id: i64) -> Option<Seq<u8>> {
    if images.dom().contains(art_id) {
        Some(images[art_id]@)
    } else {
        None
    }
}

impl MapArtSource {
    /// A source over `images`; of several images under one id, the last is kept.
    pub fn new(images: Vec<(i64, Vec<u8>)>) -> (r: MapArtSource)
        ensures
            forall|id: i64| #[trigger] r.image(id) == last_listed(images@, id),
    {
        let mut left = images;
        let mut map: HashMap<i64, Vec<u8>> = HashMap::new();
        while left.len() > 0
            invariant
                forall|id: i64|
                    #[trigger]
                    last_listed(images@, id) == if map@.dom().contains(id) {
                        stored(map@, id)
                    } else {
                        last_listed(left@, id)
                    },
            decreases left@.len(),
        {
            let ghost before = left@;
            match left.pop() {
                Some((id, data)) => {
                    assert(left@ =~= before.drop_last());
                    if !map.contains_key(&id) {
                        map.insert(id, data);
                    }
                },
                None => {},
            }
        }
        MapArtSource { images: map }
    }
}

impl Default for MapArtSource {
    fn default() -> (r: MapArtSource)
        ensures
            forall|id: i64| #[trigger] r.image(id) is None,
    {
        MapArtSource { images: HashMap::new() }
    }
}

impl ArtSource for MapArtSource {
    closed spec fn image(&self, art_id: i64) -> Option<Seq<u8>> {
        stored(self.images@, art_id)
    }

    open spec fn is_reliable(&self) -> bool {
        true
    }

    fn read_window(&self, art_id: i64, offset: u64, buf: &mut [u8]) -> (r: Result<()>)
        ensures
            r is Err ==> r->Err_0 == (FormatError::ArtRead { art_id }) && final(buf)@ == old(
                buf,
            )@,
    {
        let img: &Vec<u8> = match self.images.get(&art_id) {
            Some(v) => v,
            None => {
                return Err(FormatError::ArtRead { art_id });
            },
        };
        let n: usize = buf.len();
        let total: usize = img.len();
        if offset > total as u64 || n > total - offset as usize {
            return Err(FormatError::ArtRead { art_id });
        }
        let start: usize = offset as usize;
        let mut i: usize = 0;
        while i < n
            invariant
                i <= n == buf@.len(),
                n == old(buf)@.len(),
                start + n <= total == img@.len(),
                forall|k: int| 0 <= k < i ==> buf@[k] == img@[start + k],
            decreases n - i,
        {
            let b: u8 = img[start + i];
            buf[i] = b;
            i = i + 1;
        }
        assert(buf@ =~= img@.subrange(start as int, start + n));
        Ok(())
    }
}

} // verus!
