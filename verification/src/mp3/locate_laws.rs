//! Where the audio of an MP3 file lies, whatever tags stand around it.

use crate::error::FormatError;
use crate::error::Result;
use crate::id3v2_laws::begins_as_tag;
use crate::id3v2_laws::declared_size;
use crate::mp3::locate::bounded_agrees_with_whole;
use crate::mp3::locate::locate_audio;
use crate::mp3::locate::locate_audio_bounded;
use crate::mp3::locate::Mp3Bounds;
use crate::probe::Extent;
use vstd::prelude::*;

verus! {

/// Audio begins with an MPEG frame sync: eleven set bits.
pub open spec fn begins_as_audio(audio: Seq<u8>) -> bool {
    audio.len() >= 2 && audio[0] == 255 && audio[1] / 32 == 7
}

/// The bytes end in an ID3v1 trailer: 128 bytes that begin with `TAG`.
pub open spec fn ends_in_trailer(d: Seq<u8>) -> bool {
    d.len() >= 128 && d[d.len() - 128] == 0x54 && d[d.len() - 127] == 0x41 && d[d.len() - 126]
        == 0x47
}

/// What an ID3v1 trailer looks like.
pub open spec fn is_trailer(t: Seq<u8>) -> bool {
    t.len() == 128 && ends_in_trailer(t)
}

/// How many bytes a leading tag takes: its header, the body that the header declares, whatever
/// the version, and ten more where the footer flag is set.
pub open spec fn leading_tag_len(t: Seq<u8>) -> int {
    10 + declared_size(t) + if t[5] / 16 % 2 == 1 {
        10int
    } else {
        0
    }
}

/// A leading tag, of any version and any size, is skipped whole, an ID3v1 trailer is left off,
/// and what lies between is the audio. The tag is reported with its extent.
pub proof fn audio_lies_between_the_tags(
    data: &[u8],
    tag: Seq<u8>,
    audio: Seq<u8>,
    trailer: Seq<u8>,
    r: Result<Mp3Bounds>,
)
    requires
        begins_as_tag(tag),
        tag.len() == leading_tag_len(tag),
        begins_as_audio(audio),
        is_trailer(trailer) || (trailer.len() == 0 && !ends_in_trailer(audio)),
        data@ == tag + audio + trailer,
        call_ensures(locate_audio, (data,), r),
    ensures
        match r {
            Ok(b) => {
                &&& b.audio_offset == tag.len()
                &&& b.audio_length == audio.len()
                &&& b.id3v2_tags@.len() == 1
                &&& b.id3v2_tags@[0].start == 0
                &&& b.id3v2_tags@[0].end == tag.len()
            },
            Err(_) => false,
        },
{
    let d = data@;
    let n = tag.len() as int;
    assert(d[0] == tag[0] && d[1] == tag[1] && d[2] == tag[2] && d[5] == tag[5] && d[6] == tag[6]
        && d[7] == tag[7] && d[8] == tag[8] && d[9] == tag[9]);
    assert(d[n] == audio[0] && d[n + 1] == audio[1]);
    trailer_seen(d, tag, audio, trailer);
}

/// A file without a leading tag is audio from its first byte on.
pub proof fn untagged_audio_begins_the_file(
    data: &[u8],
    audio: Seq<u8>,
    trailer: Seq<u8>,
    r: Result<Mp3Bounds>,
)
    requires
        begins_as_audio(audio),
        is_trailer(trailer) || (trailer.len() == 0 && !ends_in_trailer(audio)),
        data@ == audio + trailer,
        call_ensures(locate_audio, (data,), r),
    ensures
        match r {
            Ok(b) => b.audio_offset == 0 && b.audio_length == audio.len() && b.id3v2_tags@.len() == 0,
            Err(_) => false,
        },
{
    let d = data@;
    let none = Seq::<u8>::empty();
    assert(d[0] == audio[0] && d[1] == audio[1]);
    assert(none + audio + trailer =~= d);
    trailer_seen(d, none, audio, trailer);
}

proof fn trailer_seen(d: Seq<u8>, tag: Seq<u8>, audio: Seq<u8>, trailer: Seq<u8>)
    requires
        begins_as_audio(audio),
        is_trailer(trailer) || (trailer.len() == 0 && !ends_in_trailer(audio)),
        d == tag + audio + trailer,
    ensures
        crate::mp3::locate::audio_end(d, tag.len() as int) == tag.len() + audio.len(),
{
    let n = (tag.len() + audio.len()) as int;
    if trailer.len() == 128 {
        assert(d[n] == trailer[0] && d[n + 1] == trailer[1] && d[n + 2] == trailer[2]);
    } else if audio.len() >= 128 {
        let k = audio.len() - 128;
        let p = d.len() - 128;
        assert(d[p] == audio[k] && d[p + 1] == audio[k + 1] && d[p + 2] == audio[k + 2]);
    }
}

/// A tag that claims more than the file holds makes the file malformed, and one that is not
/// followed by a frame sync leaves no MP3.
pub proof fn no_audio_is_told(data: &[u8], r: Result<Mp3Bounds>)
    requires
        call_ensures(locate_audio, (data,), r),
    ensures
        ({
            let start = if begins_as_tag(data@) {
                leading_tag_len(data@)
            } else {
                0
            };
            &&& start > data@.len() ==> r == Err::<Mp3Bounds, FormatError>(FormatError::Malformed)
            &&& start <= data@.len() && !begins_as_audio(data@.skip(start)) ==> r == Err::<
                Mp3Bounds,
                FormatError,
            >(FormatError::NotMp3)
            &&& start <= data@.len() && begins_as_audio(data@.skip(start)) ==> r is Ok
        }),
{
    let start = if begins_as_tag(data@) {
        leading_tag_len(data@)
    } else {
        0
    };
    if start + 2 <= data@.len() {
        let a = data@.skip(start);
        assert(a[0] == data@[start] && a[1] == data@[start + 1]);
    }
}

/// A look at a front of the file, with its last 128 bytes at hand, tells what a look at the
/// whole file tells, or asks for more of the file.
pub proof fn bounded_look_agrees(
    data: &[u8],
    prefix: &[u8],
    file_len: u64,
    tail: Option<&[u8; 128]>,
    whole: Result<Mp3Bounds>,
    r: Result<Extent<Mp3Bounds>>,
)
    requires
        file_len == data@.len(),
        prefix@.len() <= data@.len(),
        prefix@ == data@.take(prefix@.len() as int),
        match tail {
            Some(t) => data@.len() >= 128 && t@ == data@.skip(data@.len() - 128),
            None => data@.len() < 128,
        },
        call_ensures(locate_audio, (data,), whole),
        call_ensures(locate_audio_bounded, (prefix, file_len, tail), r),
    ensures
        match r {
            Ok(Extent::Complete(b)) => match whole {
                Ok(w) => b.audio_offset == w.audio_offset && b.audio_length == w.audio_length
                    && b.id3v2_tags@.len() == w.id3v2_tags@.len() && (b.id3v2_tags@.len() == 1
                    ==> b.id3v2_tags@[0] == w.id3v2_tags@[0]),
                Err(_) => false,
            },
            Ok(Extent::NeedMore { up_to }) => prefix@.len() < up_to <= file_len,
            Err(e) => whole == Err::<Mp3Bounds, FormatError>(e),
        },
        prefix@.len() == data@.len() ==> !(r matches Ok(Extent::NeedMore { .. })),
{
    bounded_agrees_with_whole(data@, prefix@.len() as int);
    if data@.len() >= 128 {
        assert(crate::mp3::locate::tail_view(tail) == Some(data@.skip(data@.len() - 128)));
    }
}

} // verus!
