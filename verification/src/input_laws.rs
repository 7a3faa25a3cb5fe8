//! Checked inputs and what errors say.

use crate::error::FormatError;
use crate::input::BlobLen;
use crate::input::PictureType;
use crate::layout::LayoutError;
use crate::number_laws::is_signed_decimal_of;
use crate::number_laws::signed_decimal_is_text;
use vstd::prelude::*;
use vstd::string::*;

verus! {

/// There are picture types from 0 to 20, and each is the number it was made of.
pub proof fn picture_types_are_numbers(v: u32, r: Option<PictureType>, n: u32, zero: PictureType)
    requires
        call_ensures(PictureType::new, (v,), r),
        r is Some ==> call_ensures(PictureType::get, (r->0,), n),
        call_ensures(PictureType::zero, (), zero),
    ensures
        r is Some <==> v < 21,
        r is Some ==> n == v,
        zero.code() == 0,
{
}

/// Every length but zero is one, and is the number it was made of.
pub proof fn lengths_are_numbers(v: u64, r: Option<BlobLen>, n: u64)
    requires
        call_ensures(BlobLen::new, (v,), r),
        r is Some ==> call_ensures(BlobLen::get, (r->0,), n),
    ensures
        r is None <==> v == 0,
        r is Some ==> n == v,
{
}

/// Errors that carry something say it behind what they are.
pub proof fn errors_say_what_they_carry(e: &FormatError, r: String, l: &LayoutError, m: &str)
    requires
        call_ensures(FormatError::message, (e,), r),
        call_ensures(LayoutError::message, (l,), m),
    ensures
        match *e {
            FormatError::Mp4Tracks(s) => r@ == "not a supported MP4/M4A file: "@ + s@,
            FormatError::InvalidLayout(x) => x == *l ==> r@
                == "synthesized region layout violates producer invariants: "@ + m@,
            FormatError::ProducerBug(s) => r@ == "producer invariant violated: "@ + s@,
            FormatError::ArtRead { art_id } => {
                let p = "art bytes could not be read: "@;
                &&& r@.len() > p.len()
                &&& r@.take(p.len() as int) == p
                &&& is_signed_decimal_of(r@.skip(p.len() as int), art_id as int)
            },
            _ => true,
        },
{
    if let FormatError::ArtRead { art_id } = *e {
        let p = "art bytes could not be read: "@;
        signed_decimal_is_text(art_id as int);
        assert(r@.take(p.len() as int) =~= p);
        assert(r@.skip(p.len() as int) =~= crate::text::signed_decimal(art_id as int));
    }
}

} // verus!
