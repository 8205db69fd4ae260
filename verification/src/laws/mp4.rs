//! What is read from an MP4 file and written to it.

use vstd::prelude::*;
use vstd::utf8::encode_utf8;

use crate::bytes::{be16, be32, be32_bytes, be64};
use crate::metadata::mp4::{
    all_bytes, all_proper, all_small, all_told, boxed, boxes_at, bytes_of, container, found,
    found_in, growth, media_after, movie_duration, movie_times, new_moov, patched, place_of, proper,
    replaced, replaced_in, span_at, steady, tag_number, tag_text, target_ilst, text_tag,
    with_lyrics, with_user_lyrics, written_moov, Mp4, Node, Outcome, Span,
};
use crate::metadata::AudioFormat;
use crate::types::Track;

verus! {

/// The number that four letters stand for.
pub open spec fn letters(a: char, b: char, c: char, d: char) -> int {
    ((a as int * 256 + b as int) * 256 + c as int) * 256 + d as int
}

/// The boxes that hold other boxes are those with one of these names, and every tag whose name
/// starts with the byte of the copyright sign.
pub proof fn law_containers(kind: u32)
    ensures
        container(kind) <==> kind as int / 0x100_0000 == 0xa9 || kind == letters('m', 'o', 'o', 'v')
            || kind == letters('t', 'r', 'a', 'k') || kind == letters('m', 'd', 'i', 'a') || kind
            == letters('m', 'i', 'n', 'f') || kind == letters('s', 't', 'b', 'l') || kind
            == letters('u', 'd', 't', 'a') || kind == letters('i', 'l', 's', 't') || kind
            == letters('e', 'd', 't', 's') || kind == letters('m', 'e', 't', 'a') || kind
            == letters('-', '-', '-', '-') || kind == letters('t', 'r', 'k', 'n') || kind
            == letters('d', 'i', 's', 'k') || kind == letters('c', 'p', 'i', 'l') || kind
            == letters('t', 'm', 'p', 'o') || kind == letters('p', 'g', 'a', 'p'),
{
}

/// A box starts with its size and its name, four bytes each. A size of zero reaches to the end, and
/// a size of one announces a size of eight bytes behind the name.
pub proof fn law_box_span(b: Seq<u8>, pos: int)
    requires
        0 <= pos,
        pos + 16 <= b.len() <= u64::MAX,
    ensures
        ({
            let size = be32(b, pos);
            let kind = be32(b, pos + 4) as u32;
            &&& size == 0 ==> span_at(b, pos) == Outcome::Found(
                Span { kind, from: pos + 8, end: b.len() as int },
            )
            &&& 8 <= size && pos + size <= b.len() ==> span_at(b, pos) == Outcome::Found(
                Span { kind, from: pos + 8, end: pos + size },
            )
            &&& size == 1 && 16 <= be64(b, pos + 8) && pos + be64(b, pos + 8) <= b.len()
                ==> span_at(b, pos) == Outcome::Found(
                Span { kind, from: pos + 16, end: pos + be64(b, pos + 8) },
            )
        }),
{
    reveal(span_at);
}

/// A box is written as its size, its name and its payload; a `meta` box has four zeros before its
/// payload.
pub proof fn law_box_bytes(kind: u32, payload: Seq<u8>, children: Seq<Node>)
    ensures
        kind != letters('m', 'e', 't', 'a') ==> bytes_of(Node::Leaf { kind, payload })
            == be32_bytes((8 + payload.len()) as int) + be32_bytes(kind as int) + payload,
        kind != letters('m', 'e', 't', 'a') ==> bytes_of(Node::Container { kind, children })
            == be32_bytes((8 + all_bytes(children).len()) as int) + be32_bytes(kind as int)
            + all_bytes(children),
        kind == letters('m', 'e', 't', 'a') ==> bytes_of(Node::Container { kind, children })
            == be32_bytes((12 + all_bytes(children).len()) as int) + be32_bytes(kind as int) + (seq![
            0u8,
            0,
            0,
            0,
        ] + all_bytes(children)),
        children.len() > 0 ==> all_bytes(children) == bytes_of(children[0]) + all_bytes(
            children.subrange(1, children.len() as int),
        ),
{
}

/// The four bytes before the children of a `meta` box are passed over, whatever they are, and a box
/// whose children cannot be read is read without them.
pub proof fn law_box_contents(flags: Seq<u8>, children: Seq<Node>, kind: u32, payload: Seq<u8>)
    requires
        flags.len() == 4,
        all_proper(children),
        all_small(children),
        all_bytes(children).len() < 0xffff_0000,
        container(kind),
        kind != letters('m', 'e', 't', 'a'),
        payload.len() < 0xffff_0000,
        boxes_at(payload, 0) is Refused,
    ensures
        boxes_at(
            boxed(letters('m', 'e', 't', 'a') as u32, flags + all_bytes(children)),
            0,
        ) == Outcome::Found(
            seq![Node::Container { kind: letters('m', 'e', 't', 'a') as u32, children }],
        ),
        boxes_at(boxed(kind, payload), 0) == Outcome::Found(
            seq![Node::Container { kind, children: seq![] }],
        ),
{
    let none = Seq::<u8>::empty();
    let meta = letters('m', 'e', 't', 'a') as u32;
    let inside = flags + all_bytes(children);
    let b = boxed(meta, inside);
    let c = boxed(kind, payload);
    crate::metadata::mp4::lemma_span_back(none, meta, inside, none);
    crate::metadata::mp4::lemma_span_back(none, kind, payload, none);
    assert(none + b + none =~= b);
    assert(none + c + none =~= c);
    assert(crate::metadata::mp4::inner(meta, inside) =~= all_bytes(children));
    crate::metadata::mp4::law_boxes_round_trip(none, children);
    assert(none + all_bytes(children) =~= all_bytes(children));
    assert(b.len() == 8 + inside.len() && c.len() == 8 + payload.len());
    assert(boxes_at(b, b.len() as int) == Outcome::Found(Seq::<Node>::empty()));
    assert(boxes_at(c, c.len() as int) == Outcome::Found(Seq::<Node>::empty()));
    assert(seq![Node::Container { kind: meta, children }] + Seq::<Node>::empty() =~= seq![
        Node::Container { kind: meta, children },
    ]);
    assert(seq![Node::Container { kind, children: seq![] }] + Seq::<Node>::empty() =~= seq![
        Node::Container { kind, children: seq![] },
    ]);
}

/// A text tag holds one `data` box: flags that say UTF-8, four zeros, and the whole text.
pub proof fn law_text_tag_bytes(kind: u32, text: Seq<char>)
    requires
        kind != letters('m', 'e', 't', 'a'),
    ensures
        ({
            let t = encode_utf8(text);
            bytes_of(text_tag(kind, text)) == be32_bytes((24 + t.len()) as int) + be32_bytes(
                kind as int,
            ) + (be32_bytes((16 + t.len()) as int) + seq![0x64u8, 0x61, 0x74, 0x61] + (seq![
                0u8,
                0,
                0,
                1,
                0,
                0,
                0,
                0,
            ] + t))
        }),
{
    let t = encode_utf8(text);
    let payload = seq![0u8, 0, 0, 1, 0, 0, 0, 0] + t;
    let leaf = Node::Leaf { kind: crate::metadata::mp4::DATA, payload };
    let list = seq![leaf];
    assert(list.subrange(1, 1) =~= Seq::<Node>::empty());
    assert(all_bytes(list.subrange(1, 1)) =~= Seq::<u8>::empty());
    assert(all_bytes(list) =~= bytes_of(leaf));
    assert(be32_bytes(crate::metadata::mp4::DATA as int) =~= seq![0x64u8, 0x61, 0x74, 0x61]);
}

/// A tag with one `data` box, with this payload.
pub open spec fn tag_with(kind: u32, payload: Seq<u8>) -> Node {
    Node::Container { kind, children: seq![Node::Leaf { kind: 0x6461_7461, payload }] }
}

proof fn lemma_data(kind: u32, payload: Seq<u8>)
    requires
        kind != 0x6461_7461,
    ensures
        crate::metadata::mp4::data_of(tag_with(kind, payload)) == Some(payload),
{
    let list = seq![Node::Leaf { kind: 0x6461_7461, payload }];
    assert(found(list[0], 0x6461_7461) == Some(list[0]));
    assert(found_in(list, 0x6461_7461) == Some(list[0]));
}

/// The text of a tag is what follows the first eight bytes of its `data` box, where that is not
/// empty, and the number of a track tag is the two bytes there.
pub proof fn law_tag_read(kind: u32, head: Seq<u8>, text: Seq<char>, n: u16, rest: Seq<u8>)
    requires
        kind != 0x6461_7461,
        head.len() == 8,
        rest.len() >= 2,
    ensures
        text.len() > 0 ==> tag_text(tag_with(kind, head + encode_utf8(text))) == Some(text),
        tag_text(tag_with(kind, head)) is None,
        tag_number(
            tag_with(kind, head + seq![(n / 256) as u8, (n % 256) as u8] + rest),
        ) == Some(n as int),
{
    let one = head + encode_utf8(text);
    let two = head + seq![(n / 256) as u8, (n % 256) as u8] + rest;
    lemma_data(kind, one);
    lemma_data(kind, head);
    lemma_data(kind, two);
    crate::text::lemma_as_text(text);
    assert(one.subrange(8, one.len() as int) =~= encode_utf8(text));
    if text.len() > 0 {
        crate::laws::http::lemma_encode_filled(text);
    }
    assert(be16(two, 8) == n);
}

/// The movie header tells the time scale and the duration behind two times, which take four bytes
/// each in version 0 and eight in version 1.
pub proof fn law_movie_times(p: Seq<u8>)
    ensures
        p.len() >= 24 && p[0] == 0 ==> movie_times(p) == Some((be32(p, 12), be32(p, 16))),
        p.len() >= 36 && p[0] == 1 ==> movie_times(p) == Some((be32(p, 20), be64(p, 24))),
        p.len() < 24 || p[0] > 1 || (p[0] == 1 && p.len() < 36) ==> movie_times(p) is None,
{
}

/// A movie plays as many seconds as its duration takes at its time scale.
pub proof fn law_movie_duration(moov: Node, p: Seq<u8>, scale: int, duration: int)
    requires
        found(moov, 0x6d76_6864) == Some(Node::Leaf { kind: 0x6d76_6864, payload: p }),
        movie_times(p) == Some((scale, duration)),
        scale > 0,
        0 <= duration < scale * 0x1_0000_0000,
    ensures
        movie_duration(moov) == duration / scale,
{
    vstd::arithmetic::div_mod::lemma_multiply_divide_lt(duration, scale, 0x1_0000_0000);
    vstd::arithmetic::div_mod::lemma_div_pos_is_pos(duration, scale);
}

/// A box is found among its siblings, and among their descendants, in the order of the file.
pub proof fn law_box_found(list: Seq<Node>, target: u32, i: int)
    requires
        0 <= i < list.len(),
        list[i].kind() == target,
        forall|j: int| 0 <= j < i ==> found(#[trigger] list[j], target) is None,
    ensures
        found_in(list, target) == Some(list[i]),
    decreases i,
{
    if i > 0 {
        let rest = list.subrange(1, list.len() as int);
        assert(found(list[0], target) is None);
        assert forall|j: int| 0 <= j < i - 1 implies found(#[trigger] rest[j], target) is None by {
            assert(rest[j] == list[j + 1]);
        }
        assert(rest[i - 1] == list[i]);
        law_box_found(rest, target, i - 1);
    }
}

/// What holds no box of a name has none to be found.
pub proof fn law_box_not_found(list: Seq<Node>, target: u32)
    requires
        forall|j: int| 0 <= j < list.len() ==> found(#[trigger] list[j], target) is None,
    ensures
        found_in(list, target) is None,
    decreases list.len(),
{
    if list.len() > 0 {
        let rest = list.subrange(1, list.len() as int);
        assert(found(list[0], target) is None);
        assert forall|j: int| 0 <= j < rest.len() implies found(#[trigger] rest[j], target) is None by {
            assert(rest[j] == list[j + 1]);
        }
        law_box_not_found(rest, target);
    }
}

proof fn lemma_told_others(track: Track, tags: Seq<Node>, kind: u32)
    requires
        forall|j: int| 0 <= j < tags.len() ==> (#[trigger] tags[j]).kind() != kind,
    ensures
        ({
            let t = all_told(track, tags);
            &&& kind == 0xa96e_616d ==> t.title == track.title
            &&& kind == 0xa941_5254 ==> t.artist == track.artist
            &&& kind == 0xa961_6c62 ==> t.album == track.album
            &&& kind == 0x7472_6b6e ==> t.track_number == track.track_number
            &&& t.duration == track.duration && t.filepath == track.filepath
        }),
    decreases tags.len(),
{
    if tags.len() > 0 {
        let rest = tags.drop_first();
        assert(tags[0].kind() != kind);
        assert forall|j: int| 0 <= j < rest.len() implies (#[trigger] rest[j]).kind() != kind by {
            assert(rest[j] == tags[j + 1]);
        }
        lemma_told_others(crate::metadata::mp4::told(track, tags[0]), rest, kind);
    }
}

/// Title, artist, album and track number are those of the `©nam`, `©ART`, `©alb` and `trkn` tags.
pub proof fn law_movie_tags(track: Track, tags: Seq<Node>, i: int)
    requires
        0 <= i < tags.len(),
        forall|j: int| i < j < tags.len() ==> (#[trigger] tags[j]).kind() != tags[i].kind(),
    ensures
        ({
            let t = all_told(track, tags);
            let kind = tags[i].kind();
            &&& kind == 0xa96e_616d ==> t.title == tag_text(tags[i])
            &&& kind == 0xa941_5254 ==> t.artist == tag_text(tags[i])
            &&& kind == 0xa961_6c62 ==> t.album == tag_text(tags[i])
            &&& kind == 0x7472_6b6e && tag_number(tags[i]) is Some ==> t.track_number
                == tag_number(tags[i])->0 as u32
            &&& kind == 0x7472_6b6e && tag_number(tags[i]) is None ==> t.track_number == 0
            &&& t.duration == track.duration && t.filepath == track.filepath
        }),
    decreases tags.len(),
{
    let rest = tags.drop_first();
    let next = crate::metadata::mp4::told(track, tags[0]);
    if i == 0 {
        assert forall|j: int| 0 <= j < rest.len() implies (#[trigger] rest[j]).kind()
            != tags[0].kind() by {
            assert(rest[j] == tags[j + 1]);
        }
        lemma_told_others(next, rest, tags[0].kind());
    } else {
        assert(rest[i - 1] == tags[i]);
        assert forall|j: int| i - 1 < j < rest.len() implies (#[trigger] rest[j]).kind() != rest[i
            - 1].kind() by {
            assert(rest[j] == tags[j + 1]);
        }
        law_movie_tags(next, rest, i - 1);
    }
}

/// The metadata of an MP4 file are those of its first `moov` box: what the tags in its first `ilst`
/// box tell, and its duration.
pub proof fn law_mp4_metadata(b: Seq<u8>, filepath: Seq<char>, top: Seq<Node>, i: int)
    requires
        boxes_at(b, 0) == Outcome::Found(top),
        0 <= i < top.len(),
        top[i].kind() == letters('m', 'o', 'o', 'v'),
        forall|j: int| 0 <= j < i ==> (#[trigger] top[j]).kind() != letters('m', 'o', 'o', 'v'),
    ensures
        ({
            let none = Track {
                title: None,
                artist: None,
                album: None,
                track_number: 0,
                duration: movie_duration(top[i]) as u32,
                filepath,
            };
            Mp4::metadata(b, filepath) matches Ok(t) && t == (match found(
                top[i],
                letters('i', 'l', 's', 't') as u32,
            ) {
                Some(Node::Container { children, .. }) => all_told(none, children),
                _ => none,
            })
        }),
{
    lemma_first_place(top, letters('m', 'o', 'o', 'v') as u32, i);
}

proof fn lemma_first_place(list: Seq<Node>, kind: u32, i: int)
    requires
        0 <= i < list.len(),
        list[i].kind() == kind,
        forall|j: int| 0 <= j < i ==> (#[trigger] list[j]).kind() != kind,
    ensures
        place_of(list, kind) == Some(i),
{
    crate::metadata::mp4::lemma_place(list, kind);
    if let Some(k) = place_of(list, kind) {
        if k < i {
            assert(list[k].kind() != kind);
        }
    }
}

/// A sync with `force` writes every file with a place for lyrics. One without leaves a file alone
/// exactly if the first `ilst` box in its first `udta` box has a `©lyr` tag with a text.
pub proof fn law_mp4_overwrites(b: Seq<u8>, lyrics: Seq<char>, top: Seq<Node>, i: int, ilst: Node)
    requires
        boxes_at(b, 0) == Outcome::Found(top),
        0 <= i < top.len(),
        top[i].kind() == letters('m', 'o', 'o', 'v'),
        forall|j: int| 0 <= j < i ==> (#[trigger] top[j]).kind() != letters('m', 'o', 'o', 'v'),
        target_ilst(top[i]) == Some(ilst),
    ensures
        Mp4::edited(b, lyrics, true) matches Ok(Some(_)),
        Mp4::edited(b, lyrics, false) == (if exists|k: int|
            0 <= k < ilst.children().len() && (#[trigger] ilst.children()[k]).kind() == 0xa96c_7972
                && tag_text(ilst.children()[k]) is Some {
            Ok::<Option<Seq<u8>>, Seq<char>>(None)
        } else {
            Mp4::edited(b, lyrics, true)
        }),
{
    lemma_first_place(top, letters('m', 'o', 'o', 'v') as u32, i);
}

/// Lyrics can be put into a file whose boxes can be read and that has a place for them, as long as
/// every chunk offset stays a number that can be written where the media follow.
pub proof fn law_mp4_possible(
    b: Seq<u8>,
    lyrics: Seq<char>,
    force: bool,
    top: Seq<Node>,
    i: int,
)
    requires
        boxes_at(b, 0) == Outcome::Found(top),
        0 <= i < top.len(),
        top[i].kind() == letters('m', 'o', 'o', 'v'),
        forall|j: int| 0 <= j < i ==> (#[trigger] top[j]).kind() != letters('m', 'o', 'o', 'v'),
        target_ilst(top[i]) is Some,
        (forall|j: int|
            i < j < top.len() ==> (#[trigger] top[j]).kind() != letters('m', 'd', 'a', 't'))
            || steady(
            new_moov(top[i], lyrics),
            bytes_of(new_moov(top[i], lyrics)).len() - bytes_of(top[i]).len(),
        ),
    ensures
        Mp4::readable(b),
        Mp4::editable(b, lyrics, force),
{
    lemma_first_place(top, letters('m', 'o', 'o', 'v') as u32, i);
    if steady(new_moov(top[i], lyrics), growth(top[i], lyrics)) {
        crate::metadata::mp4::lemma_steady_patchable(
            new_moov(top[i], lyrics),
            growth(top[i], lyrics),
        );
    }
}

/// Where lyrics go: into the first `ilst` box of the first `udta` box, or into a new one where there
/// is none.
pub proof fn law_lyrics_place(moov: Node, udta: Node, ilst: Node)
    requires
        moov is Container,
        moov.kind() == letters('m', 'o', 'o', 'v'),
    ensures
        found(moov, 0x7564_7461) == Some(udta) && found(moov, 0x696c_7374) is Some && found(
            udta,
            0x696c_7374,
        ) == Some(ilst) ==> target_ilst(moov) == Some(ilst),
        found(moov, 0x7564_7461) is None && found(moov, 0x696c_7374) is None ==> target_ilst(moov)
            == Some(Node::Container { kind: 0x696c_7374, children: seq![] }),
{
    if found(moov, 0x7564_7461) is None && found(moov, 0x696c_7374) is None {
        let none = Seq::<Node>::empty();
        let empty = Node::Container { kind: 0x696c_7374, children: none };
        let fresh = Node::Container { kind: 0x7564_7461, children: seq![empty] };
        assert(crate::metadata::mp4::empty_box(0x696c_7374) == empty);
        crate::metadata::mp4::lemma_found_push(moov.children(), fresh, 0x7564_7461);
        crate::metadata::mp4::lemma_found_push(moov.children(), fresh, 0x696c_7374);
        assert(found(empty, 0x696c_7374) == Some(empty));
        assert(found_in(seq![empty], 0x696c_7374) == Some(empty));
    }
}

/// The `ilst` box of the written `moov` box holds the old tags but for `©lyr`, in their order, and
/// then a `©lyr` tag with the whole text.
pub proof fn law_lyrics_tag(moov: Node, lyrics: Seq<char>, ilst: Node)
    requires
        proper(moov),
        moov.kind() == letters('m', 'o', 'o', 'v'),
        target_ilst(moov) == Some(ilst),
    ensures
        found(new_moov(moov, lyrics), 0x7564_7461) matches Some(udta) && found(
            udta,
            0x696c_7374,
        ) matches Some(new) && {
            let tags = new.children();
            &&& tags.len() > 0
            &&& tags.drop_last() == ilst.children().filter(|t: Node| t.kind() != 0xa96c_7972)
            &&& tags.last() == tag_with(
                0xa96c_7972,
                seq![0u8, 0, 0, 1, 0, 0, 0, 0] + encode_utf8(lyrics),
            )
        },
{
    crate::metadata::mp4::lemma_new_moov(moov, lyrics);
    let new = with_lyrics(ilst, lyrics);
    assert(ilst is Container);
    assert(new.children().drop_last() =~= ilst.children().filter(
        |t: Node| t.kind() != 0xa96c_7972,
    ));
}

proof fn lemma_replaced_at(
    list: Seq<Node>,
    target: u32,
    edit: spec_fn(Node) -> Node,
    u: int,
)
    requires
        0 <= u < list.len(),
        found(list[u], target) is Some,
        forall|j: int| 0 <= j < u ==> found(#[trigger] list[j], target) is None,
    ensures
        replaced_in(list, target, edit) == list.update(u, replaced(list[u], target, edit)),
    decreases u,
{
    let rest = list.subrange(1, list.len() as int);
    if u == 0 {
        assert(seq![replaced(list[0], target, edit)] + rest =~= list.update(
            0,
            replaced(list[0], target, edit),
        ));
    } else {
        assert(found(list[0], target) is None);
        assert forall|j: int| 0 <= j < u - 1 implies found(#[trigger] rest[j], target) is None by {
            assert(rest[j] == list[j + 1]);
        }
        assert(rest[u - 1] == list[u]);
        lemma_replaced_at(rest, target, edit, u - 1);
        assert(seq![list[0]] + rest.update(u - 1, replaced(list[u], target, edit)) =~= list.update(
            u,
            replaced(list[u], target, edit),
        ));
    }
}

/// Nothing in the `moov` box changes but its `udta` box: every other child stays as it is and where
/// it is, and where there is no `udta` box one is added at the end.
pub proof fn law_moov_kept(moov: Node, lyrics: Seq<char>, u: int, j: int)
    requires
        moov is Container,
        moov.kind() == letters('m', 'o', 'o', 'v'),
        0 <= j < moov.children().len(),
    ensures
        ({
            let old_boxes = moov.children();
            let new = new_moov(moov, lyrics);
            &&& 0 <= u < old_boxes.len() && old_boxes[u].kind() == 0x7564_7461 && (forall|k: int|
                0 <= k < u ==> found(#[trigger] old_boxes[k], 0x7564_7461) is None) ==> {
                &&& new.kind() == moov.kind()
                &&& new.children().len() == old_boxes.len()
                &&& j != u ==> new.children()[j] == old_boxes[j]
                &&& new.children()[u] == with_user_lyrics(
                    old_boxes[u],
                    found(moov, 0x696c_7374) is None,
                    lyrics,
                )
            }
            &&& (forall|k: int|
                0 <= k < old_boxes.len() ==> found(#[trigger] old_boxes[k], 0x7564_7461) is None)
                ==> {
                &&& new.kind() == moov.kind()
                &&& new.children().len() == old_boxes.len() + 1
                &&& new.children()[j] == old_boxes[j]
            }
        }),
{
    let list = moov.children();
    let start = crate::metadata::mp4::with_udta(moov);
    let add = crate::metadata::mp4::lacks_ilst(moov);
    let edit = |n: Node| with_user_lyrics(n, add, lyrics);
    if 0 <= u < list.len() && list[u].kind() == 0x7564_7461 && (forall|k: int|
        0 <= k < u ==> found(#[trigger] list[k], 0x7564_7461) is None) {
        law_box_found(list, 0x7564_7461, u);
        lemma_replaced_at(list, 0x7564_7461, edit, u);
    }
    if forall|k: int| 0 <= k < list.len() ==> found(#[trigger] list[k], 0x7564_7461) is None {
        law_box_not_found(list, 0x7564_7461);
        let all = start.children();
        let last = list.len() as int;
        assert(all.drop_last() =~= list);
        assert(all[last].kind() == 0x7564_7461);
        assert forall|k: int| 0 <= k < last implies found(#[trigger] all[k], 0x7564_7461) is None by {
            assert(all[k] == list[k]);
        }
        lemma_replaced_at(all, 0x7564_7461, edit, last);
    }
}

/// An `ilst` box with lyrics has its old tags but for `©lyr`, in their order, and then the new one.
pub proof fn law_ilst_edited(kind: u32, tags: Seq<Node>, lyrics: Seq<char>)
    ensures
        with_lyrics(Node::Container { kind, children: tags }, lyrics) == (Node::Container {
            kind,
            children: tags.filter(|t: Node| t.kind() != 0xa96c_7972).push(
                tag_with(
                    0xa96c_7972,
                    seq![0u8, 0, 0, 1, 0, 0, 0, 0] + encode_utf8(lyrics),
                ),
            ),
        }),
{
}

/// Nothing in the `udta` box changes but its `ilst` box, whether that stands in it directly or in a
/// box such as `meta`; where there is none, one is added at the end.
pub proof fn law_udta_kept(udta: Node, lyrics: Seq<char>, u: int, w: int)
    requires
        udta is Container,
        udta.kind() == 0x7564_7461,
    ensures
        ({
            let list = udta.children();
            let new = with_user_lyrics(udta, false, lyrics);
            let first = 0 <= u < list.len() && forall|k: int|
                0 <= k < u ==> found(#[trigger] list[k], 0x696c_7374) is None;
            let inner = list[u].children();
            &&& first && list[u].kind() == 0x696c_7374 ==> new == (Node::Container {
                kind: 0x7564_7461,
                children: list.update(u, with_lyrics(list[u], lyrics)),
            })
            &&& first && list[u] is Container && list[u].kind() != 0x696c_7374 && 0 <= w
                < inner.len() && inner[w].kind() == 0x696c_7374 && (forall|k: int|
                0 <= k < w ==> found(#[trigger] inner[k], 0x696c_7374) is None) ==> new == (
            Node::Container {
                kind: 0x7564_7461,
                children: list.update(
                    u,
                    Node::Container {
                        kind: list[u].kind(),
                        children: inner.update(w, with_lyrics(inner[w], lyrics)),
                    },
                ),
            })
            &&& (forall|k: int|
                0 <= k < list.len() ==> found(#[trigger] list[k], 0x696c_7374) is None)
                ==> with_user_lyrics(udta, true, lyrics) == (Node::Container {
                kind: 0x7564_7461,
                children: list.push(
                    with_lyrics(Node::Container { kind: 0x696c_7374, children: seq![] }, lyrics),
                ),
            })
        }),
{
    let list = udta.children();
    let edit = |n: Node| with_lyrics(n, lyrics);
    let first = 0 <= u < list.len() && forall|k: int|
        0 <= k < u ==> found(#[trigger] list[k], 0x696c_7374) is None;
    let inner = list[u].children();
    if first && list[u].kind() == 0x696c_7374 {
        lemma_replaced_at(list, 0x696c_7374, edit, u);
    }
    if first && list[u] is Container && list[u].kind() != 0x696c_7374 && 0 <= w < inner.len()
        && inner[w].kind() == 0x696c_7374 && (forall|k: int|
        0 <= k < w ==> found(#[trigger] inner[k], 0x696c_7374) is None) {
        law_box_found(inner, 0x696c_7374, w);
        lemma_replaced_at(inner, 0x696c_7374, edit, w);
        lemma_replaced_at(list, 0x696c_7374, edit, u);
    }
    if forall|k: int| 0 <= k < list.len() ==> found(#[trigger] list[k], 0x696c_7374) is None {
        let empty = Node::Container { kind: 0x696c_7374, children: Seq::<Node>::empty() };
        let all = list.push(empty);
        let last = list.len() as int;
        assert(crate::metadata::mp4::empty_box(0x696c_7374) == empty);
        assert forall|k: int| 0 <= k < last implies found(#[trigger] all[k], 0x696c_7374) is None by {
            assert(all[k] == list[k]);
        }
        assert(all[last] == empty);
        lemma_replaced_at(all, 0x696c_7374, edit, last);
        assert(all.update(last, with_lyrics(empty, lyrics)) =~= list.push(
            with_lyrics(empty, lyrics),
        ));
    }
}

/// Chunk offsets move exactly where an `mdat` box comes behind the `moov` box, and by as many bytes
/// as the `moov` box grows.
pub proof fn law_offsets_follow(top: Seq<Node>, i: int, lyrics: Seq<char>, k: int)
    requires
        0 <= i < top.len(),
    ensures
        i < k < top.len() && top[k].kind() == letters('m', 'd', 'a', 't') ==> written_moov(
            top,
            i,
            lyrics,
        ) == patched(
            new_moov(top[i], lyrics),
            bytes_of(new_moov(top[i], lyrics)).len() - bytes_of(top[i]).len(),
        ),
        (forall|j: int|
            i < j < top.len() ==> (#[trigger] top[j]).kind() != letters('m', 'd', 'a', 't'))
            ==> written_moov(top, i, lyrics) == new_moov(top[i], lyrics),
{
    if i < k < top.len() && top[k].kind() == letters('m', 'd', 'a', 't') {
        assert(media_after(top, i));
    }
}

} // verus!
