//! Cover resolution policy: a cached cover wins outright; an embedded
//! cover is used when it is large enough to be sound; the bundled
//! default image is the fallback; and only when even that is missing
//! does resolution fail.

use vstd::prelude::*;
use crate::model::LibError;

verus! {

/// Embedded covers smaller than this many bytes are treated as
/// corrupt placeholders and replaced by the default image.
pub const MIN_COVER_BYTES: usize = 1024;

/// The bytes chosen for a book's cover and whether they must be
/// persisted to the cover cache file: a cached cover is returned as
/// it is; otherwise the embedded cover when it has at least the
/// minimum size, else the bundled default; the choice fails only
/// when nothing at all is available.
pub open spec fn spec_resolve_cover(
    cached: Option<Seq<u8>>,
    extracted: Option<Seq<u8>>,
    default_cover: Option<Seq<u8>>,
) -> Result<(Seq<u8>, bool), LibError> {
    if cached is Some {
        Ok((cached->0, false))
    } else if extracted is Some && extracted->0.len() >= MIN_COVER_BYTES {
        Ok((extracted->0, true))
    } else if default_cover is Some {
        Ok((default_cover->0, true))
    } else {
        Err(LibError::Cover)
    }
}

/// Choose a book's cover bytes. `cached` is what the cover cache file
/// holds, if it exists; `extracted` what the book embeds, if
/// anything; `default_cover` the bundled default image, if the
/// install still has it. The flag in the result says whether the
/// bytes are new and must be written to the cache file, so that the
/// next call finds them cached and extracts nothing.
pub fn resolve_cover(
    cached: Option<Vec<u8>>,
    extracted: Option<Vec<u8>>,
    default_cover: Option<Vec<u8>>,
) -> (r: Result<(Vec<u8>, bool), LibError>)
    ensures
        ({
            let s = spec_resolve_cover(
                cached.deep_view(),
                extracted.deep_view(),
                default_cover.deep_view(),
            );
            match r {
                Ok(p) => s == Ok::<(Seq<u8>, bool), LibError>((p.0@, p.1)),
                Err(e) => s == Err::<(Seq<u8>, bool), LibError>(e),
            }
        }),
{
    if let Some(c) = cached {
        proof {
            assert(c.deep_view() =~= c@);
        }
        return Ok((c, false));
    }
    if let Some(x) = extracted {
        proof {
            assert(x.deep_view() =~= x@);
        }
        if x.len() >= MIN_COVER_BYTES {
            return Ok((x, true));
        }
    }
    match default_cover {
        Some(d) => {
            proof {
                assert(d.deep_view() =~= d@);
            }
            Ok((d, true))
        },
        None => Err(LibError::Cover),
    }
}

/// Law: once a cover has been persisted, every later resolution
/// returns exactly the cached bytes and asks for no extraction and
/// no further write, whatever the book or the install then offer.
pub proof fn lemma_cover_second_call_is_cached(
    b: Seq<u8>,
    extracted: Option<Seq<u8>>,
    default_cover: Option<Seq<u8>>,
)
    ensures
        spec_resolve_cover(Some(b), extracted, default_cover) == Ok::<(Seq<u8>, bool), LibError>(
            (b, false),
        ),
{
}

} // verus!
