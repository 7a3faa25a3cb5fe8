//! A re-tagged MP4 file reads back: its `ilst` holds what went in, no keyed metadata is kept,
//! and its audio is the backing file's.

use crate::bytes::be32;
use crate::bytes::be32_bytes;
use crate::input::ArtInput;
use crate::input::BinaryTagInput;
use crate::input::TagInput;
use crate::layout::empty_draft;
use crate::layout::with_bytes;
use crate::layout::with_stream;
use crate::layout::DraftModel;
use crate::layout::SegView;
use crate::mp4::atoms::art_bytes;
use crate::mp4::atoms::art_front;
use crate::mp4::atoms::binary_front;
use crate::mp4::atoms::boxed_bytes;
use crate::mp4::atoms::freeform_head;
use crate::mp4::atoms::freeform_parts;
use crate::mp4::atoms::ilst_adds;
use crate::mp4::atoms::ilst_bytes;
use crate::mp4::atoms::itunes_hdlr;
use crate::mp4::atoms::tag_atoms;
use crate::mp4::atoms::udta_adds;
use crate::mp4::atoms::udta_front;
use crate::mp4::atoms::with_art_datas;
use crate::mp4::atoms::with_binary_atoms;
use crate::mp4::atoms::with_ilst;
use crate::mp4::atoms::with_udta;
use crate::mp4::boxes::boxes_end;
use crate::mp4::boxes::box_at;
use crate::mp4::boxes::boxes;
use crate::mp4::boxes::boxes_from;
use crate::mp4::boxes::boxes_lie_inside;
use crate::mp4::boxes::declared;
use crate::mp4::boxes::first_payload;
use crate::mp4::boxes::of_kind;
use crate::mp4::boxes::payloads;
use crate::mp4::boxes::BoxModel;
use crate::mp4::boxes::APPL;
use crate::mp4::boxes::COVR;
use crate::mp4::boxes::DATA;
use crate::mp4::boxes::FREEFORM;
use crate::mp4::boxes::HDLR;
use crate::mp4::boxes::ILST;
use crate::mp4::boxes::MDIR;
use crate::mp4::boxes::MDTA;
use crate::mp4::boxes::META;
use crate::mp4::boxes::MOOV;
use crate::mp4::boxes::TRAK;
use crate::mp4::boxes::UDTA;
use crate::mp4::keyed::children_of_meta;
use crate::mp4::keyed::is_keyed;
use crate::mp4::kids::bodies;
use crate::mp4::kids::bodies_concat;
use crate::mp4::kids::first_body;
use crate::mp4::kids::first_body_concat;
use crate::mp4::kids::first_payload_is_first_body;
use crate::mp4::kids::kids;
use crate::mp4::kids::kids_concat;
use crate::mp4::kids::kids_of_box;
use crate::mp4::kids::kids_of_resized;
use crate::mp4::kids::no_kids;
use crate::mp4::kids::payloads_are_bodies;
use crate::mp4::kids::sealed;
use crate::mp4::kids::sealed_concat;
use crate::mp4::kids::sealed_from;
use crate::mp4::kids::single_body;
use crate::mp4::laws::art_boxes;
use crate::mp4::laws::binaries_back;
use crate::mp4::laws::binary_atom;
use crate::mp4::laws::binary_atoms;
use crate::mp4::laws::binary_body;
use crate::mp4::laws::covr_atom;
use crate::mp4::laws::groups_back;
use crate::mp4::laws::ilst_contents;
use crate::mp4::laws::ilst_reads_back;
use crate::mp4::laws::images_back;
use crate::mp4::offsets::every_chunk_offset_moves;
use crate::mp4::offsets::patched;
use crate::mp4::offsets::Patched;
use crate::mp4::read::file_binaries;
use crate::mp4::read::file_images;
use crate::mp4::read::first_plain;
use crate::mp4::read::ilst_of;
use crate::mp4::read::ilst_pairs;
use crate::mp4::strip::drops;
use crate::mp4::strip::kept_movie;
use crate::mp4::strip::movie_child;
use crate::mp4::strip::movie_children;
use crate::mp4::strip::stripped_track;
use crate::mp4::strip::MAX_BOX;
use crate::mp4::structure::Mp4Scan;
use crate::mp4::synth::audio_shift;
use crate::mp4::synth::carried_chapters;
use crate::mp4::synth::movie_of;
use crate::mp4::synth::mp4_draft;
use crate::mp4::synth::mp4_segments;
use crate::mp4::synth::new_moov_size;
use crate::serving::segment_bytes;
use crate::serving::served_bytes;
use crate::serving::served_draft;
use crate::serving::served_draft_adds_up;
use crate::serving::sources_hold;
use crate::serving::Sources;
use crate::text::utf8;
use vstd::prelude::*;

verus! {

/// The framing of a binary value, followed by the value, is the whole atom.
proof fn binary_front_and_value(mean: Seq<char>, name: Seq<char>, payload: Seq<u8>)
    ensures
        binary_front(mean, name, payload.len() as int) + payload == binary_atom(
            mean,
            name,
            payload,
        ),
{
    let head = freeform_head(mean, name);
    let n = payload.len() as int;
    let z = be32_bytes(0);
    let body = binary_body(payload);
    assert(DATA@.len() == 4);
    assert(body.len() == 8 + n);
    let data = boxed_bytes(DATA@, body);
    assert(data =~= be32_bytes(16 + n) + DATA@ + z + z + payload);
    assert(data.len() == 16 + n);
    let inner = head + data;
    assert(inner.len() == head.len() + 16 + n);
    let s = be32_bytes(8 + head.len() + 16 + n);
    assert(binary_atom(mean, name, payload) =~= s + FREEFORM@ + inner);
    assert(s + FREEFORM@ + head + be32_bytes(16 + n) + DATA@ + z + z + payload =~= s + FREEFORM@ + (
    head + (be32_bytes(16 + n) + DATA@ + z + z + payload)));
}

/// Drafted binary values are served as their atoms.
#[verifier::spinoff_prover]
#[verifier::rlimit(60)]
proof fn binary_atoms_served(d: DraftModel, tags: Seq<BinaryTagInput>, src: Sources)
    requires
        forall|i: int|
            0 <= i < tags.len() ==> (src.payloads)((#[trigger] tags[i]).payload_id).len()
                == tags[i].len,
    ensures
        served_draft(src, with_binary_atoms(d, tags)) == served_draft(src, d) + binary_atoms(
            tags,
            src,
        ),
    decreases tags.len(),
{
    if tags.len() == 0 {
        assert(served_draft(src, d) + Seq::<u8>::empty() =~= served_draft(src, d));
    } else {
        let f = tags.drop_last();
        let bt = tags.last();
        assert(tags[tags.len() - 1] == bt);
        assert forall|i: int| 0 <= i < f.len() implies (src.payloads)(
            (#[trigger] f[i]).payload_id,
        ).len() == f[i].len by {
            assert(f[i] == tags[i]);
        }
        binary_atoms_served(d, f, src);
        match freeform_parts(utf8(bt.key@)) {
            Some((mean, name)) if bt.len > 0 => {
                let p = (src.payloads)(bt.payload_id);
                let h = binary_front(mean, name, bt.len as int);
                let s = SegView::BinaryTag { payload_id: bt.payload_id, len: bt.len as int };
                let x = with_binary_atoms(d, f);
                binary_front_and_value(mean, name, p);
                served_draft_adds_up(src, x, h, s);
                served_draft_adds_up(src, with_bytes(x, h), h, s);
                assert(served_draft(src, d) + binary_atoms(f, src) + h + p =~= served_draft(src, d)
                    + (binary_atoms(f, src) + (h + p)));
            },
            _ => {},
        }
    }
}

/// Drafted images are served as their boxes.
proof fn art_boxes_served(d: DraftModel, arts: Seq<ArtInput>, src: Sources)
    requires
        forall|i: int|
            0 <= i < arts.len() ==> (src.art)((#[trigger] arts[i]).art_id).len()
                == arts[i].data_len,
    ensures
        served_draft(src, with_art_datas(d, arts)) == served_draft(src, d) + art_boxes(arts, src),
        art_boxes(arts, src).len() == art_bytes(arts),
    decreases arts.len(),
{
    if arts.len() == 0 {
        assert(served_draft(src, d) + Seq::<u8>::empty() =~= served_draft(src, d));
    } else {
        let f = arts.drop_last();
        let art = arts.last();
        assert(arts[arts.len() - 1] == art);
        assert forall|i: int| 0 <= i < f.len() implies (src.art)((#[trigger] f[i]).art_id).len()
            == f[i].data_len by {
            assert(f[i] == arts[i]);
        }
        art_boxes_served(d, f, src);
        if art.data_len > 0 {
            let p = (src.art)(art.art_id);
            let h = art_front(art);
            let s = SegView::ArtImage { art_id: art.art_id, len: art.data_len as int };
            let x = with_art_datas(d, f);
            served_draft_adds_up(src, x, h, s);
            served_draft_adds_up(src, with_bytes(x, h), h, s);
            let b = boxed_bytes(DATA@, crate::mp4::laws::art_body(art, src));
            assert(DATA@.len() == 4);
            assert(h + p =~= b);
            assert(served_draft(src, d) + art_boxes(f, src) + h + p =~= served_draft(src, d) + (
            art_boxes(f, src) + (h + p)));
        }
    }
}

/// The drafted contents of an `ilst` are served as the contents.
#[verifier::spinoff_prover]
#[verifier::rlimit(60)]
proof fn ilst_served(
    d: DraftModel,
    tags: Seq<TagInput>,
    binary_tags: Seq<BinaryTagInput>,
    arts: Seq<ArtInput>,
    src: Sources,
)
    requires
        sources_hold(src, binary_tags, arts),
    ensures
        served_draft(src, with_ilst(d, tags, binary_tags, arts)) == served_draft(src, d)
            + ilst_contents(tags, binary_tags, arts, src),
{
    let t = tag_atoms(tags);
    let s = SegView::Inline(t);
    let d1 = with_bytes(d, t);
    let d2 = with_binary_atoms(d1, binary_tags);
    served_draft_adds_up(src, d, t, s);
    binary_atoms_served(d1, binary_tags, src);
    let b = binary_atoms(binary_tags, src);
    let v = served_draft(src, d);
    if art_bytes(arts) == 0 {
        assert(v + t + b =~= v + (t + b + Seq::<u8>::empty()));
    } else {
        let c = be32_bytes(8 + art_bytes(arts)) + COVR@;
        served_draft_adds_up(src, d2, c, s);
        art_boxes_served(with_bytes(d2, c), arts, src);
        let a = art_boxes(arts, src);
        assert(c + a =~= covr_atom(arts, src));
        assert(v + t + b + c + a =~= v + (t + b + (c + a)));
    }
}

/// The `meta` payload of regenerated user data.
pub open spec fn meta_body(contents: Seq<u8>) -> Seq<u8> {
    be32_bytes(0) + itunes_hdlr() + boxed_bytes(ILST@, contents)
}

/// The payload of regenerated user data.
pub open spec fn udta_body(contents: Seq<u8>, chapters: Seq<u8>) -> Seq<u8> {
    boxed_bytes(META@, meta_body(contents)) + chapters
}

/// The front of user data, followed by the contents of the `ilst` and the chapters, is the
/// whole box.
proof fn udta_front_and_contents(contents: Seq<u8>, chapters: Seq<u8>)
    ensures
        udta_front(contents.len() as int, chapters.len() as int) + contents + chapters
            == boxed_bytes(UDTA@, udta_body(contents, chapters)),
{
    let n = contents.len() as int;
    let t = chapters.len() as int;
    assert(UDTA@.len() == 4 && META@.len() == 4 && ILST@.len() == 4);
    let h = itunes_hdlr();
    assert(h.len() == 33) by {
        assert(HDLR@.len() == 4 && MDIR@.len() == 4 && APPL@.len() == 4);
    }
    let i = boxed_bytes(ILST@, contents);
    assert(i =~= be32_bytes(8 + n) + ILST@ + contents);
    let mb = meta_body(contents);
    assert(mb.len() == 4 + 33 + (8 + n));
    let m = boxed_bytes(META@, mb);
    assert(m =~= be32_bytes(8 + (4 + 33 + (8 + n))) + META@ + mb);
    let u = udta_body(contents, chapters);
    assert(u.len() == 8 + (4 + 33 + (8 + n)) + t);
    let a = be32_bytes(8 + (8 + (4 + 33 + (8 + n))) + t);
    let b = be32_bytes(8 + (4 + 33 + (8 + n)));
    let z = be32_bytes(0);
    let c = be32_bytes(8 + n);
    assert(boxed_bytes(UDTA@, u) =~= a + UDTA@ + u);
    joined_nine(a, UDTA@, b, META@, z, h, c, ILST@, contents, chapters);
}

/// Ten sequences joined in either order.
proof fn joined_nine(
    a: Seq<u8>,
    u: Seq<u8>,
    b: Seq<u8>,
    m: Seq<u8>,
    z: Seq<u8>,
    h: Seq<u8>,
    c: Seq<u8>,
    i: Seq<u8>,
    x: Seq<u8>,
    y: Seq<u8>,
)
    ensures
        a + u + b + m + z + h + c + i + x + y == a + u + (b + m + (z + h + (c + i + x)) + y),
{
    assert(c + i + x =~= c + (i + x));
    let l = a + u + b + m + z + h + c + i + x + y;
    let r = a + u + (b + m + (z + h + (c + i + x)) + y);
    assert(l =~= r);
}

/// Drafted user data is served as its box.
#[verifier::spinoff_prover]
#[verifier::rlimit(60)]
proof fn udta_served(
    d: DraftModel,
    tags: Seq<TagInput>,
    binary_tags: Seq<BinaryTagInput>,
    arts: Seq<ArtInput>,
    chapters: Seq<u8>,
    src: Sources,
)
    requires
        sources_hold(src, binary_tags, arts),
    ensures
        served_draft(src, with_udta(d, tags, binary_tags, arts, chapters)) == served_draft(src, d)
            + boxed_bytes(
            UDTA@,
            udta_body(ilst_contents(tags, binary_tags, arts, src), chapters),
        ),
        ilst_contents(tags, binary_tags, arts, src).len() == ilst_bytes(tags, binary_tags, arts),
{
    let contents = ilst_contents(tags, binary_tags, arts, src);
    contents_len(tags, binary_tags, arts, src);
    let f = udta_front(ilst_bytes(tags, binary_tags, arts), chapters.len() as int);
    let s = SegView::Inline(f);
    served_draft_adds_up(src, d, f, s);
    ilst_served(with_bytes(d, f), tags, binary_tags, arts, src);
    served_draft_adds_up(
        src,
        with_ilst(with_bytes(d, f), tags, binary_tags, arts),
        chapters,
        s,
    );
    udta_front_and_contents(contents, chapters);
    let v = served_draft(src, d);
    assert(v + f + contents + chapters =~= v + (f + contents + chapters));
}

/// The contents of an `ilst` have the length that was counted.
proof fn contents_len(
    tags: Seq<TagInput>,
    binary_tags: Seq<BinaryTagInput>,
    arts: Seq<ArtInput>,
    src: Sources,
)
    requires
        sources_hold(src, binary_tags, arts),
    ensures
        ilst_contents(tags, binary_tags, arts, src).len() == ilst_bytes(tags, binary_tags, arts),
{
    ilst_adds(empty_draft(), tags, binary_tags, arts);
    binary_atoms_count(binary_tags, src);
    art_boxes_served(empty_draft(), arts, src);
    assert(COVR@.len() == 4);
}

proof fn binary_atoms_count(tags: Seq<BinaryTagInput>, src: Sources)
    requires
        forall|i: int|
            0 <= i < tags.len() ==> (src.payloads)((#[trigger] tags[i]).payload_id).len()
                == tags[i].len,
    ensures
        binary_atoms(tags, src).len() == crate::mp4::atoms::binary_atom_bytes(tags),
    decreases tags.len(),
{
    let none = empty_draft();
    if tags.len() > 0 {
        let f = tags.drop_last();
        let bt = tags.last();
        assert(tags[tags.len() - 1] == bt);
        assert forall|i: int| 0 <= i < f.len() implies (src.payloads)(
            (#[trigger] f[i]).payload_id,
        ).len() == f[i].len by {
            assert(f[i] == tags[i]);
        }
        binary_atoms_count(f, src);
        match freeform_parts(utf8(bt.key@)) {
            Some((mean, name)) if bt.len > 0 => {
                let h = binary_front(mean, name, bt.len as int);
                let s = SegView::BinaryTag { payload_id: bt.payload_id, len: bt.len as int };
                binary_front_and_value(mean, name, (src.payloads)(bt.payload_id));
                let x = with_binary_atoms(none, f);
                crate::layout::draft_bytes_add_up(x, h, s);
                crate::layout::draft_bytes_add_up(with_bytes(x, h), h, s);
            },
            _ => {},
        }
    } else {
        crate::layout::draft_bytes_add_up(none, Seq::empty(), SegView::Inline(Seq::empty()));
    }
}

/// The `meta` of regenerated user data is no keyed metadata, and its `ilst` is the one
/// written.
pub proof fn meta_body_reads(contents: Seq<u8>)
    requires
        meta_body(contents).len() <= MAX_BOX,
    ensures
        !is_keyed(meta_body(contents)),
        first_payload(children_of_meta(meta_body(contents)), ILST@) == Some(contents),
{
    let mb = meta_body(contents);
    let h = itunes_hdlr();
    let hb = Seq::new(8, |i: int| 0u8) + MDIR@ + APPL@ + Seq::new(9, |i: int| 0u8);
    let i = boxed_bytes(ILST@, contents);
    let z = be32_bytes(0);
    assert(HDLR@.len() == 4 && MDIR@.len() == 4 && APPL@.len() == 4 && ILST@.len() == 4
        && MDTA@.len() == 4);
    assert(HDLR@[0] == 0x68 && ILST@[0] == 0x69 && MDIR@[2] == 0x69 && MDTA@[2] == 0x74);
    crate::bytes::be32_round_trip(0);
    assert(mb[0] == z[0] && mb[1] == z[1] && mb[2] == z[2] && mb[3] == z[3]);
    assert(be32(mb, 0) == be32(z, 0));
    let c = h + i;
    assert(mb.skip(4) =~= c);
    kids_of_box(HDLR@, hb);
    kids_of_box(ILST@, contents);
    kids_concat(h, i);
    first_body_concat(kids(h), kids(i), HDLR@);
    first_body_concat(kids(h), kids(i), ILST@);
    single_body(HDLR@, hb, HDLR@);
    single_body(HDLR@, hb, ILST@);
    single_body(ILST@, contents, ILST@);
    first_payload_is_first_body(c, HDLR@);
    first_payload_is_first_body(c, ILST@);
    assert(hb.subrange(8, 12) =~= MDIR@);
}

/// Regenerated user data reads back: its `ilst` is the one written.
proof fn udta_body_reads(contents: Seq<u8>, chapters: Seq<u8>)
    requires
        udta_body(contents, chapters).len() <= MAX_BOX,
    ensures
        match first_plain(payloads(udta_body(contents, chapters), META@)) {
            Some(meta) => first_payload(children_of_meta(meta), ILST@) == Some(contents),
            None => false,
        },
{
    let mb = meta_body(contents);
    let m = boxed_bytes(META@, mb);
    let u = m + chapters;
    assert(META@.len() == 4);
    meta_body_reads(contents);
    kids_of_box(META@, mb);
    kids_concat(m, chapters);
    bodies_concat(kids(m), kids(chapters), META@);
    single_body(META@, mb, META@);
    payloads_are_bodies(u, META@);
    let ps = payloads(u, META@);
    assert(ps[0] == mb);
}

/// A box as it stands in `d`, by itself.
pub proof fn verbatim_box(d: Seq<u8>, b: BoxModel)
    requires
        0 <= b.start,
        box_at(d, b.start) == Some(b),
    ensures
        kids(b.bytes(d)) == seq![(b.kind, b.payload(d))],
        be32(d, b.start) != 0 ==> sealed(b.bytes(d)),
        boxes(b.bytes(d)) == seq![
            BoxModel { kind: b.kind, start: 0, header: b.header, total: b.total },
        ],
        boxes_end(b.bytes(d), 0) == b.total,
        b.bytes(d).len() == b.total,
{
    reveal(kids);
    reveal(sealed);
    let x = b.bytes(d);
    let y = d.skip(b.start);
    let n = b.total;
    assert(y[0] == d[b.start] && y[1] == d[b.start + 1] && y[2] == d[b.start + 2] && y[3]
        == d[b.start + 3]);
    assert(x[0] == y[0] && x[1] == y[1] && x[2] == y[2] && x[3] == y[3]);
    if be32(y, 0) == 1 {
        assert(x[8] == y[8] && x[9] == y[9] && x[10] == y[10] && x[11] == y[11] && x[12] == y[12]
            && x[13] == y[13] && x[14] == y[14] && x[15] == y[15]);
    }
    assert(declared(x, n) == Some((b.header, n)));
    assert(x.skip(0) =~= x);
    assert(x.subrange(4, 8) =~= b.kind);
    let c = BoxModel { kind: x.subrange(4, 8), start: 0, header: b.header, total: n };
    assert(box_at(x, 0) == Some(c));
    assert(box_at(x, n) is None) by {
        assert(x.skip(n).len() == 0);
    }
    assert(boxes_from(x, n) =~= Seq::empty());
    assert(boxes(x) =~= seq![c]);
    assert(c.payload(x) =~= b.payload(d));
    assert(kids(x) =~= seq![(b.kind, b.payload(d))]);
    assert(sealed_from(x, n));
    assert(boxes_end(x, n) == n);
}

/// Every box of a run is the box at its place.
pub proof fn run_places(d: Seq<u8>, p: int, i: int)
    requires
        0 <= p,
        0 <= i < boxes_from(d, p).len(),
    ensures
        box_at(d, boxes_from(d, p)[i].start) == Some(boxes_from(d, p)[i]),
        boxes_from(d, p)[i].start >= p,
    decreases d.len() - p,
{
    let b = box_at(d, p)->0;
    if i > 0 {
        run_places(d, b.end(), i - 1);
        assert(boxes_from(d, p)[i] == boxes_from(d, b.end())[i - 1]);
    } else {
        assert(boxes_from(d, p)[0] == b);
    }
}

/// The child is kept as it stands: it is neither dropped nor rewritten.
pub open spec fn kept_verbatim(b: BoxModel, d: Seq<u8>) -> bool {
    b.kind != UDTA@ && b.kind != TRAK@ && !drops(b, d)
}

/// Every child of `d` that is kept as it stands says its size.
pub open spec fn sized(d: Seq<u8>) -> bool {
    forall|i: int|
        0 <= i < boxes(d).len() && kept_verbatim(#[trigger] boxes(d)[i], d) ==> be32(
            d,
            boxes(d)[i].start,
        ) != 0
}

/// What is kept of the first `n` children of a movie is sealed, holds no user data, and none
/// of its `meta` is keyed metadata.
pub proof fn kept_children_stand(d: Seq<u8>, n: int)
    requires
        sized(d),
        0 <= n <= boxes(d).len(),
        movie_children(boxes(d).take(n), d).len() <= MAX_BOX,
    ensures
        sealed(movie_children(boxes(d).take(n), d)),
        first_body(kids(movie_children(boxes(d).take(n), d)), UDTA@) is None,
        forall|i: int|
            0 <= i < bodies(kids(movie_children(boxes(d).take(n), d)), META@).len() ==> !is_keyed(
                #[trigger] bodies(kids(movie_children(boxes(d).take(n), d)), META@)[i],
            ),
    decreases n,
{
    let s = boxes(d).take(n);
    let all = movie_children(s, d);
    if n == 0 {
        no_kids(all);
        assert(bodies(kids(all), META@) =~= Seq::empty());
    } else {
        let f = boxes(d).take(n - 1);
        assert(s.drop_last() =~= f);
        let b = s.last();
        assert(b == boxes(d)[n - 1]);
        run_places(d, 0, n - 1);
        boxes_lie_inside(d, 0);
        assert(b.inside(d));
        let a = movie_children(f, d);
        let c = movie_child(b, d);
        assert(all =~= a + c);
        kept_children_stand(d, n - 1);
        assert(UDTA@.len() == 4 && META@.len() == 4 && TRAK@.len() == 4);
        assert(TRAK@[0] == 0x74 && META@[0] == 0x6d && UDTA@[0] == 0x75);
        if b.kind == UDTA@ || drops(b, d) {
            assert(a + c =~= a);
        } else {
            let payload = if b.kind == TRAK@ {
                stripped_track(b.payload(d))
            } else {
                b.payload(d)
            };
            if b.kind == TRAK@ {
                kids_of_resized(b.header, b.kind, payload);
            } else {
                verbatim_box(d, b);
            }
            assert(kids(c) == seq![(b.kind, payload)]);
            kids_concat(a, c);
            sealed_concat(a, c);
            first_body_concat(kids(a), kids(c), UDTA@);
            bodies_concat(kids(a), kids(c), META@);
            single_body(b.kind, payload, UDTA@);
            single_body(b.kind, payload, META@);
            let x = bodies(kids(a), META@);
            let y = bodies(kids(c), META@);
            assert forall|i: int| 0 <= i < bodies(kids(all), META@).len() implies !is_keyed(
                #[trigger] bodies(kids(all), META@)[i],
            ) by {
                if i < x.len() {
                    assert(bodies(kids(all), META@)[i] == x[i]);
                } else {
                    assert(bodies(kids(all), META@)[i] == y[i - x.len()]);
                }
            }
        }
    }
}

/// Bytes that agree with sealed boxes on every box header hold the same boxes.
proof fn same_headers_same_boxes(d: Seq<u8>, x: Seq<u8>, p: int)
    requires
        0 <= p <= d.len(),
        d.len() == x.len(),
        sealed_from(d, p),
        forall|i: int, q: int|
            0 <= i < boxes_from(d, p).len() && (#[trigger] boxes_from(d, p)[i]).start <= q
                < boxes_from(d, p)[i].body() ==> #[trigger] x[q] == d[q],
    ensures
        sealed_from(x, p),
        boxes_from(x, p) == boxes_from(d, p),
    decreases d.len() - p,
{
    if p < d.len() {
        let b = box_at(d, p)->0;
        let s = boxes_from(d, p);
        assert(s[0] == b);
        let u = d.skip(p);
        let v = x.skip(p);
        assert forall|q: int| p <= q < b.body() implies x[q] == d[q] by {
            assert(s[0].start <= q < s[0].body());
        }
        assert(u[0] == v[0] && u[1] == v[1] && u[2] == v[2] && u[3] == v[3]) by {
            assert(u[0] == d[p] && u[1] == d[p + 1] && u[2] == d[p + 2] && u[3] == d[p + 3]);
        }
        if be32(u, 0) == 1 {
            assert(b.header == 16);
            assert(u[8] == d[p + 8] && u[9] == d[p + 9] && u[10] == d[p + 10] && u[11] == d[p + 11]
                && u[12] == d[p + 12] && u[13] == d[p + 13] && u[14] == d[p + 14] && u[15] == d[p
                + 15]);
            assert(u[8] == v[8] && u[9] == v[9] && u[10] == v[10] && u[11] == v[11] && u[12]
                == v[12] && u[13] == v[13] && u[14] == v[14] && u[15] == v[15]);
        }
        assert(x.subrange(p + 4, p + 8) =~= d.subrange(p + 4, p + 8)) by {
            assert(x[p + 4] == d[p + 4] && x[p + 5] == d[p + 5] && x[p + 6] == d[p + 6] && x[p + 7]
                == d[p + 7]);
        }
        assert(box_at(x, p) == Some(b));
        let rest = boxes_from(d, b.end());
        assert forall|i: int, q: int|
            0 <= i < rest.len() && (#[trigger] rest[i]).start <= q
                < rest[i].body() implies #[trigger] x[q] == d[q] by {
            assert(s[i + 1] == rest[i]);
        }
        same_headers_same_boxes(d, x, b.end());
    } else {
        assert(boxes_from(x, p) =~= boxes_from(d, p)) by {
            assert(x.skip(p).len() == 0);
            assert(d.skip(p).len() == 0);
        }
    }
}

/// Patched chunk offsets leave the children in place: the patched bytes are sealed and hold
/// no user data.
pub proof fn patched_children_stand(kept: Seq<u8>, delta: int, x: Seq<u8>)
    requires
        sealed(kept),
        first_body(kids(kept), UDTA@) is None,
        patched(kept, delta) == Patched::Done(x),
    ensures
        sealed(x),
        x.len() == kept.len(),
        boxes(x) == boxes(kept),
        first_body(kids(x), UDTA@) is None,
{
    reveal(kids);
    reveal(sealed);
    every_chunk_offset_moves(kept, delta, x);
    let s = boxes(kept);
    let traks = of_kind(s, TRAK@);
    boxes_lie_inside(kept, 0);
    crate::mp4::offsets::run_is_ordered(kept, 0);
    assert forall|i: int, q: int|
        0 <= i < boxes_from(kept, 0).len() && (#[trigger] boxes_from(kept, 0)[i]).start <= q
            < boxes_from(kept, 0)[i].body() implies #[trigger] x[q] == kept[q] by {
        assert(s[i].inside(kept));
        crate::mp4::offsets::header_is_outside(s, TRAK@, i, q);
        crate::mp4::structure::of_kind_inside(s, kept, TRAK@);
        crate::mp4::offsets::outside_is_off_tables(kept, traks, q);
    }
    same_headers_same_boxes(kept, x, 0);
    same_kinds(kids(kept), kids(x), UDTA@);
}

/// Lists of children with the same types agree on what is missing.
proof fn same_kinds(a: Seq<(Seq<u8>, Seq<u8>)>, b: Seq<(Seq<u8>, Seq<u8>)>, kind: Seq<u8>)
    requires
        a.len() == b.len(),
        forall|i: int| 0 <= i < a.len() ==> (#[trigger] a[i]).0 == b[i].0,
        first_body(a, kind) is None,
    ensures
        first_body(b, kind) is None,
    decreases a.len(),
{
    if a.len() > 0 {
        let x = a.drop_first();
        let y = b.drop_first();
        assert(a[0].0 == b[0].0);
        assert forall|i: int| 0 <= i < x.len() implies (#[trigger] x[i]).0 == y[i].0 by {
            assert(x[i] == a[i + 1] && y[i] == b[i + 1]);
        }
        same_kinds(x, y, kind);
    }
}

/// What a file holds in front of its audio, streamed payloads in place: the `ftyp` box and
/// the regenerated `moov`.
pub open spec fn served_front(
    ftyp: Seq<u8>,
    kept: Seq<u8>,
    contents: Seq<u8>,
    chapters: Seq<u8>,
) -> Seq<u8> {
    ftyp + boxed_bytes(MOOV@, kept + boxed_bytes(UDTA@, udta_body(contents, chapters)))
}

/// A file with a regenerated `moov` in front reads back: its `ilst` is the one written.
#[verifier::spinoff_prover]
#[verifier::rlimit(60)]
pub proof fn front_reads(
    ftyp: Seq<u8>,
    kept: Seq<u8>,
    contents: Seq<u8>,
    chapters: Seq<u8>,
    rest: Seq<u8>,
)
    requires
        sealed(ftyp),
        first_body(kids(ftyp), MOOV@) is None,
        sealed(kept),
        first_body(kids(kept), UDTA@) is None,
        8 + kept.len() + 8 + udta_body(contents, chapters).len() <= MAX_BOX,
    ensures
        ilst_of(served_front(ftyp, kept, contents, chapters) + rest) == Some(contents),
        first_payload(served_front(ftyp, kept, contents, chapters) + rest, MOOV@) == Some(
            kept + boxed_bytes(UDTA@, udta_body(contents, chapters)),
        ),
{
    let ub = udta_body(contents, chapters);
    let u = boxed_bytes(UDTA@, ub);
    let movie = kept + u;
    let m = boxed_bytes(MOOV@, movie);
    let file = served_front(ftyp, kept, contents, chapters) + rest;
    assert(UDTA@.len() == 4 && MOOV@.len() == 4);
    assert(file =~= ftyp + (m + rest));
    udta_body_reads(contents, chapters);
    kids_of_box(UDTA@, ub);
    kids_concat(kept, u);
    first_body_concat(kids(kept), kids(u), UDTA@);
    single_body(UDTA@, ub, UDTA@);
    first_payload_is_first_body(movie, UDTA@);
    kids_of_box(MOOV@, movie);
    kids_concat(m, rest);
    kids_concat(ftyp, m + rest);
    first_body_concat(kids(m), kids(rest), MOOV@);
    first_body_concat(kids(ftyp), kids(m + rest), MOOV@);
    single_body(MOOV@, movie, MOOV@);
    first_payload_is_first_body(file, MOOV@);
}

/// A synthesized file is served as its front, the `mdat` header and the backing audio.
pub proof fn file_served(
    scan: Mp4Scan,
    movie: Seq<u8>,
    kept: Seq<u8>,
    tags: Seq<TagInput>,
    binary_tags: Seq<BinaryTagInput>,
    arts: Seq<ArtInput>,
    src: Sources,
)
    requires
        sources_hold(src, binary_tags, arts),
        kept.len() == kept_movie(movie).len(),
    ensures
        ({
            let contents = ilst_contents(tags, binary_tags, arts, src);
            let chapters = carried_chapters(movie);
            let audio = src.backing.subrange(
                scan.mdat_payload_offset as int,
                scan.mdat_payload_offset + scan.mdat_payload_len,
            );
            &&& served_bytes(src, mp4_segments(scan, movie, kept, tags, binary_tags, arts))
                == served_front(scan.ftyp@, kept, contents, chapters) + (scan.mdat_header@ + audio)
            &&& 8 + kept.len() + 8 + udta_body(contents, chapters).len() == new_moov_size(
                movie,
                tags,
                binary_tags,
                arts,
            )
        }),
{
    let contents = ilst_contents(tags, binary_tags, arts, src);
    let chapters = carried_chapters(movie);
    let size = new_moov_size(movie, tags, binary_tags, arts);
    let head = scan.ftyp@ + be32_bytes(size) + MOOV@ + kept;
    let s = SegView::Inline(head);
    let d0 = with_bytes(empty_draft(), head);
    let d1 = with_udta(d0, tags, binary_tags, arts, chapters);
    let d2 = with_bytes(d1, scan.mdat_header@);
    let audio = SegView::BackingAudio {
        offset: scan.mdat_payload_offset as int,
        len: scan.mdat_payload_len as int,
    };
    served_draft_adds_up(src, empty_draft(), head, s);
    udta_served(d0, tags, binary_tags, arts, chapters, src);
    served_draft_adds_up(src, d1, scan.mdat_header@, s);
    served_draft_adds_up(src, d2, scan.mdat_header@, audio);
    served_draft_adds_up(src, with_stream(d2, audio), scan.mdat_header@, audio);
    let u = boxed_bytes(UDTA@, udta_body(contents, chapters));
    udta_body_len(contents, chapters);
    assert(8 + (kept + u).len() == size);
    let a = segment_bytes(src, audio);
    let h = scan.mdat_header@;
    assert(Seq::<u8>::empty() + head =~= head);
    front_joined(scan.ftyp@, be32_bytes(size), MOOV@, kept, u, h, a);
}

/// How long the payload of user data is.
pub proof fn udta_body_len(contents: Seq<u8>, chapters: Seq<u8>)
    ensures
        udta_body(contents, chapters).len() == 53 + contents.len() + chapters.len(),
        boxed_bytes(UDTA@, udta_body(contents, chapters)).len() == 61 + contents.len()
            + chapters.len(),
{
    assert(UDTA@.len() == 4 && META@.len() == 4 && ILST@.len() == 4 && HDLR@.len() == 4
        && MDIR@.len() == 4 && APPL@.len() == 4);
}

/// Seven sequences joined in either order.
proof fn front_joined(
    f: Seq<u8>,
    z: Seq<u8>,
    m: Seq<u8>,
    k: Seq<u8>,
    u: Seq<u8>,
    h: Seq<u8>,
    a: Seq<u8>,
)
    ensures
        f + z + m + k + u + h + a == f + (z + m + (k + u)) + (h + a),
{
    assert(f + z + m + k + u + h + a =~= f + (z + m + (k + u)) + (h + a));
}

/// A re-tagged MP4 file reads back. Its `ilst` holds the text tags, the binary values and the
/// images that went in and nothing else, and behind the `mdat` header comes the backing
/// file's audio.
///
/// The file's `ftyp` and every child of its `moov` that is kept as it stands must say their
/// size: one that leaves it open ("extends to end") would swallow what is put behind it. User
/// data, keyed metadata and tracks may leave theirs open: they are dropped, or written anew.
#[verifier::spinoff_prover]
#[verifier::rlimit(60)]
pub proof fn synthesized_file_reads_back(
    scan: Mp4Scan,
    movie: Seq<u8>,
    kept: Seq<u8>,
    tags: Seq<TagInput>,
    binary_tags: Seq<BinaryTagInput>,
    arts: Seq<ArtInput>,
    src: Sources,
)
    requires
        movie_of(scan.moov@) == Some(movie),
        new_moov_size(movie, tags, binary_tags, arts) <= MAX_BOX,
        patched(kept_movie(movie), audio_shift(scan, movie, tags, binary_tags, arts))
            == Patched::Done(kept),
        sized(movie),
        sealed(scan.ftyp@),
        first_body(kids(scan.ftyp@), MOOV@) is None,
        sources_hold(src, binary_tags, arts),
        scan.mdat_payload_offset + scan.mdat_payload_len <= src.backing.len(),
    ensures
        ({
            let file = served_bytes(
                src,
                mp4_segments(scan, movie, kept, tags, binary_tags, arts),
            );
            let header = served_draft(
                src,
                mp4_draft(scan, movie, kept, tags, binary_tags, arts),
            );
            &&& ilst_pairs(file) == groups_back(crate::groups::groups_of(tags, false))
            &&& file_binaries(file) == binaries_back(binary_tags, src)
            &&& images_back(arts, src).len() > 0 ==> file_images(file) == images_back(arts, src)
            &&& file.skip(header.len() as int) == src.backing.subrange(
                scan.mdat_payload_offset as int,
                scan.mdat_payload_offset + scan.mdat_payload_len,
            )
        }),
{
    let contents = ilst_contents(tags, binary_tags, arts, src);
    let chapters = carried_chapters(movie);
    let audio = src.backing.subrange(
        scan.mdat_payload_offset as int,
        scan.mdat_payload_offset + scan.mdat_payload_len,
    );
    udta_adds(empty_draft(), tags, binary_tags, arts, chapters);
    assert(boxes(movie).take(boxes(movie).len() as int) =~= boxes(movie));
    kept_children_stand(movie, boxes(movie).len() as int);
    patched_children_stand(
        kept_movie(movie),
        audio_shift(scan, movie, tags, binary_tags, arts),
        kept,
    );
    file_served(scan, movie, kept, tags, binary_tags, arts, src);
    front_reads(scan.ftyp@, kept, contents, chapters, scan.mdat_header@ + audio);
    ilst_reads_back(tags, binary_tags, arts, src);
    let d = mp4_draft(scan, movie, kept, tags, binary_tags, arts);
    let s = SegView::BackingAudio {
        offset: scan.mdat_payload_offset as int,
        len: scan.mdat_payload_len as int,
    };
    served_draft_adds_up(src, d, Seq::empty(), s);
    served_draft_adds_up(src, with_stream(d, s), Seq::empty(), s);
    let header = served_draft(src, d);
    assert((header + audio).skip(header.len() as int) =~= audio);
}

} // verus!
