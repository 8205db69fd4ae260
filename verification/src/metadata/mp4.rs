//! MP4 / M4A metadata reader/writer.
//!
//! An MP4 file is a tree of "boxes" (also called "atoms"), each prefixed by
//! a 4-byte big-endian size and a 4-byte type. Tags live inside the `ilst`
//! box, which is usually at `moov / udta / ilst`:
//!
//! ```text
//! moov
//! ├─ mvhd            (timescale + duration → playback length)
//! ├─ trak / mdia / mdhd (per-track duration, alternate source)
//! └─ udta
//!    └─ ilst
//!       ├─ ©nam      (title, as a `data` sub-box with UTF-8 text)
//!       ├─ ©ART      (artist)
//!       ├─ ©alb      (album)
//!       ├─ trkn      (track number: 8-byte binary payload)
//!       └─ ©lyr      (lyrics, the box that is embedded)
//! ```
//!
//! Editing `ilst` changes the size of `ilst` → `udta` → `moov`. When `moov`
//! sits *before* `mdat` in the file (less common but legal), growing `moov`
//! shifts `mdat`'s byte offset, which invalidates every chunk offset in
//! every `stco`/`co64` table. That case is detected and the offsets are
//! patched by the size delta so the file stays playable.
//!
//! A box type is the number that its four bytes make up, most significant first.

use vstd::prelude::*;
use vstd::slice::slice_subrange;
use vstd::utf8::{decode_utf8, encode_utf8, valid_utf8};

use crate::bytes::{
    append_bytes, be16, be32, be32_bytes, be64, be64_bytes, copy_range, push_be32, push_be64,
    read_be16, read_be32, read_be64,
};
use crate::metadata::{blank, blank_track, edit_agrees, AudioFormat, Edit, MetaError};
use crate::text::utf8_text;
use crate::types::{text_view, Track, TrackMeta};

verus! {

/// The MP4 format.
pub struct Mp4;

pub const MOOV: u32 = 0x6d6f_6f76;

pub const TRAK: u32 = 0x7472_616b;

pub const MDIA: u32 = 0x6d64_6961;

pub const MINF: u32 = 0x6d69_6e66;

pub const STBL: u32 = 0x7374_626c;

pub const UDTA: u32 = 0x7564_7461;

pub const ILST: u32 = 0x696c_7374;

pub const EDTS: u32 = 0x6564_7473;

pub const META: u32 = 0x6d65_7461;

/// `----`.
pub const FREE_FORM: u32 = 0x2d2d_2d2d;

pub const TRKN: u32 = 0x7472_6b6e;

pub const DISK: u32 = 0x6469_736b;

pub const CPIL: u32 = 0x6370_696c;

pub const TMPO: u32 = 0x746d_706f;

pub const PGAP: u32 = 0x7067_6170;

pub const DATA: u32 = 0x6461_7461;

pub const MVHD: u32 = 0x6d76_6864;

pub const MDAT: u32 = 0x6d64_6174;

pub const STCO: u32 = 0x7374_636f;

pub const CO64: u32 = 0x636f_3634;

/// `©nam`.
pub const TITLE: u32 = 0xa96e_616d;

/// `©ART`.
pub const ARTIST: u32 = 0xa941_5254;

/// `©alb`.
pub const ALBUM: u32 = 0xa961_6c62;

/// `©lyr`.
pub const LYRICS: u32 = 0xa96c_7972;

/// Whether the payload of a box is itself a list of boxes.
///
/// Inside `ilst`, every tag atom (`©nam`, `©ART`, `©alb`, `©lyr`, `trkn`,
/// `----`, ...) is also a container holding a `data` sub-box. iTunes tag
/// atom names either start with the `©` byte (`0xA9`) or are one of the
/// short all-lowercase names (`trkn`, `disk`, `cpil`, ...), so those are
/// containers too.
pub open spec fn container(kind: u32) -> bool {
    ||| kind == MOOV
    ||| kind == TRAK
    ||| kind == MDIA
    ||| kind == MINF
    ||| kind == STBL
    ||| kind == UDTA
    ||| kind == ILST
    ||| kind == EDTS
    ||| kind == META
    ||| 0xa900_0000 <= kind < 0xaa00_0000
    ||| kind == FREE_FORM
    ||| kind == TRKN
    ||| kind == DISK
    ||| kind == CPIL
    ||| kind == TMPO
    ||| kind == PGAP
}

/// Tells whether the payload of a box is itself a list of boxes.
pub fn is_container(kind: u32) -> (r: bool)
    ensures
        r == container(kind),
{
    kind == MOOV || kind == TRAK || kind == MDIA || kind == MINF || kind == STBL || kind == UDTA
        || kind == ILST || kind == EDTS || kind == META || (0xa900_0000 <= kind && kind
        < 0xaa00_0000) || kind == FREE_FORM || kind == TRKN || kind == DISK || kind == CPIL || kind
        == TMPO || kind == PGAP
}

/// A parseable, mutable box tree. Leaves carry their raw payload; container
/// nodes carry their parsed children. Working on a tree (rather than raw
/// bytes) lets any box be resized, with parent sizes recomputed automatically
/// during serialisation.
pub enum Tree {
    Leaf { box_type: u32, payload: Vec<u8> },
    Container { box_type: u32, children: Vec<Tree> },
}

/// What a [`Tree`] holds.
pub enum Node {
    Leaf { kind: u32, payload: Seq<u8> },
    Container { kind: u32, children: Seq<Node> },
}

impl Node {
    /// The type of the box.
    pub open spec fn kind(self) -> u32 {
        match self {
            Node::Leaf { kind, .. } => kind,
            Node::Container { kind, .. } => kind,
        }
    }

    /// The boxes in the box.
    pub open spec fn children(self) -> Seq<Node> {
        match self {
            Node::Leaf { .. } => seq![],
            Node::Container { children, .. } => children,
        }
    }
}

impl Tree {
    /// What the tree holds.
    pub open spec fn node(self) -> Node
        decreases self,
    {
        match self {
            Tree::Leaf { box_type, payload } => Node::Leaf { kind: box_type, payload: payload@ },
            Tree::Container { box_type, children } => Node::Container {
                kind: box_type,
                children: nodes(children@),
            },
        }
    }

    /// The type of the box.
    pub fn box_type(&self) -> (r: u32)
        ensures
            r == self.node().kind(),
    {
        match self {
            Tree::Leaf { box_type, .. } => *box_type,
            Tree::Container { box_type, .. } => *box_type,
        }
    }
}

/// What a list of trees holds.
pub open spec fn nodes(list: Seq<Tree>) -> Seq<Node>
    decreases list,
{
    if list.len() == 0 {
        seq![]
    } else {
        seq![list[0].node()] + nodes(list.subrange(1, list.len() as int))
    }
}

/// A list of trees holds what each of them holds.
proof fn lemma_nodes(list: Seq<Tree>)
    ensures
        nodes(list).len() == list.len(),
        forall|i: int| 0 <= i < list.len() ==> #[trigger] nodes(list)[i] == list[i].node(),
    decreases list.len(),
{
    if list.len() > 0 {
        let rest = list.subrange(1, list.len() as int);
        lemma_nodes(rest);
        assert forall|i: int| 0 <= i < list.len() implies #[trigger] nodes(list)[i]
            == list[i].node() by {
            if i > 0 {
                assert(nodes(list)[i] == nodes(rest)[i - 1]);
                assert(rest[i - 1] == list[i]);
            }
        }
    }
}

/// Adding a tree adds what it holds.
proof fn lemma_nodes_push(list: Seq<Tree>, tree: Tree)
    ensures
        nodes(list.push(tree)) == nodes(list).push(tree.node()),
{
    lemma_nodes(list);
    lemma_nodes(list.push(tree));
    assert(nodes(list.push(tree)) =~= nodes(list).push(tree.node()));
}

/// What comes of reading a box.
pub enum Outcome<T> {
    /// It was read.
    Found(T),
    /// It is refused with this message.
    Refused(Seq<char>),
    /// Its size is smaller than its header, or too large for an offset.
    Overrun,
}

/// Where a box stands: its type, and the bounds of its payload.
pub struct Span {
    pub kind: u32,
    pub from: int,
    pub end: int,
}

/// The box at `pos`. A size of zero reaches to the end, a size of one announces a 64-bit size.
#[verifier::opaque]
pub open spec fn span_at(b: Seq<u8>, pos: int) -> Outcome<Span> {
    let size = be32(b, pos);
    let header: int = if size == 1 {
        16
    } else {
        8
    };
    let total = if size == 0 {
        b.len() - pos
    } else if size == 1 {
        be64(b, pos + 8)
    } else {
        size
    };
    if pos + 8 > b.len() {
        Outcome::Refused("truncated MP4 box header"@)
    } else if size == 1 && pos + 16 > b.len() {
        Outcome::Refused("truncated MP4 largesize"@)
    } else if pos + total > u64::MAX {
        Outcome::Overrun
    } else if pos + total > b.len() {
        Outcome::Refused("MP4 box extends past EOF"@)
    } else if total < header {
        Outcome::Overrun
    } else {
        Outcome::Found(
            Span { kind: be32(b, pos + 4) as u32, from: pos + header, end: pos + total },
        )
    }
}

/// The part of a container's payload that holds its children: the `meta` box starts with a
/// 4-byte version/flags field.
pub open spec fn inner(kind: u32, payload: Seq<u8>) -> Seq<u8> {
    if kind == META && payload.len() >= 4 {
        payload.subrange(4, payload.len() as int)
    } else {
        payload
    }
}

/// The sibling boxes from `pos` on. A container whose payload is refused has no children.
pub open spec fn boxes_at(b: Seq<u8>, pos: int) -> Outcome<Seq<Node>>
    decreases b.len(), b.len() - pos,
{
    if pos < 0 || pos >= b.len() {
        Outcome::Found(seq![])
    } else {
        match span_at(b, pos) {
            Outcome::Refused(message) => Outcome::Refused(message),
            Outcome::Overrun => Outcome::Overrun,
            Outcome::Found(span) => if span.from <= pos || span.end < span.from
                || span.end > b.len() {
                Outcome::Overrun
            } else {
                let payload = b.subrange(span.from, span.end);
                if container(span.kind) {
                    match boxes_at(inner(span.kind, payload), 0) {
                        Outcome::Found(children) => followed(
                            Node::Container { kind: span.kind, children },
                            boxes_at(b, span.end),
                        ),
                        Outcome::Refused(_) => followed(
                            Node::Container { kind: span.kind, children: seq![] },
                            boxes_at(b, span.end),
                        ),
                        Outcome::Overrun => Outcome::Overrun,
                    }
                } else {
                    followed(
                        Node::Leaf { kind: span.kind, payload },
                        boxes_at(b, span.end),
                    )
                }
            },
        }
    }
}

/// `rest`, where there are any boxes, with `first` before them.
pub open spec fn followed(first: Node, rest: Outcome<Seq<Node>>) -> Outcome<Seq<Node>> {
    prefixed(seq![first], rest)
}

/// `rest`, where there are any boxes, with others before them.
pub open spec fn prefixed(done: Seq<Node>, rest: Outcome<Seq<Node>>) -> Outcome<Seq<Node>> {
    match rest {
        Outcome::Found(list) => Outcome::Found(done + list),
        Outcome::Refused(message) => Outcome::Refused(message),
        Outcome::Overrun => Outcome::Overrun,
    }
}

/// Why boxes were not read.
pub enum Failure {
    /// They are refused.
    Refused(MetaError),
    /// A size is smaller than the header, or too large for an offset.
    Overrun,
}

/// Finds the type and the payload of the box at `pos`.
pub fn parse_box(bytes: &[u8], pos: usize) -> (r: Result<(u32, usize, usize), Failure>)
    ensures
        match (r, span_at(bytes@, pos as int)) {
            (Ok((kind, from, end)), Outcome::Found(span)) => span.kind == kind && span.from == from
                && span.end == end && pos < from <= end <= bytes.len(),
            (Err(Failure::Refused(e)), Outcome::Refused(message)) => e.0@ == message,
            (Err(Failure::Overrun), Outcome::Overrun) => true,
            _ => false,
        },
{
    proof {
        reveal(span_at);
    }
    let n: usize = bytes.len();
    let room: usize = if pos < n {
        n - pos
    } else {
        0
    };
    if room < 8 {
        return Err(Failure::Refused(MetaError::new("truncated MP4 box header")));
    }
    let size: u32 = read_be32(bytes, pos);
    let kind: u32 = read_be32(bytes, pos + 4);
    if size == 0 {
        return Ok((kind, pos + 8, n));
    }
    if size == 1 {
        if room < 16 {
            return Err(Failure::Refused(MetaError::new("truncated MP4 largesize")));
        }
        let large: u64 = read_be64(bytes, pos + 8);
        if large > u64::MAX - pos as u64 {
            return Err(Failure::Overrun);
        }
        if large > room as u64 {
            return Err(Failure::Refused(MetaError::new("MP4 box extends past EOF")));
        }
        if large < 16 {
            return Err(Failure::Overrun);
        }
        return Ok((kind, pos + 16, pos + large as usize));
    }
    if size as u64 > u64::MAX - pos as u64 {
        return Err(Failure::Overrun);
    }
    if size as u64 > room as u64 {
        return Err(Failure::Refused(MetaError::new("MP4 box extends past EOF")));
    }
    if size < 8 {
        return Err(Failure::Overrun);
    }
    Ok((kind, pos + 8, pos + size as usize))
}

/// Parses a flat byte range into a list of sibling boxes (top-level or the children of a
/// container), recursing into containers.
pub fn parse_boxes(bytes: &[u8]) -> (r: Result<Vec<Tree>, Failure>)
    ensures
        match (r, boxes_at(bytes@, 0)) {
            (Ok(list), Outcome::Found(all)) => nodes(list@) == all,
            (Err(Failure::Refused(e)), Outcome::Refused(message)) => e.0@ == message,
            (Err(Failure::Overrun), Outcome::Overrun) => true,
            _ => false,
        },
    decreases bytes.len(),
{
    let mut list: Vec<Tree> = Vec::new();
    let mut pos: usize = 0;
    proof {
        assert(nodes(list@) =~= seq![]);
        if let Outcome::Found(all) = boxes_at(bytes@, 0) {
            assert(nodes(list@) + all =~= all);
        }
    }
    while pos < bytes.len()
        invariant
            pos <= bytes.len(),
            prefixed(nodes(list@), boxes_at(bytes@, pos as int)) == boxes_at(bytes@, 0),
        decreases bytes.len() - pos,
    {
        let ghost done = nodes(list@);
        let (kind, from, end) = match parse_box(bytes, pos) {
            Ok(found) => found,
            Err(e) => return Err(e),
        };
        let payload = slice_subrange(bytes, from, end);
        let tree = if is_container(kind) {
            let body = if kind == META && payload.len() >= 4 {
                slice_subrange(payload, 4, payload.len())
            } else {
                payload
            };
            assert(body@ == inner(kind, payload@));
            match parse_boxes(body) {
                Ok(children) => Tree::Container { box_type: kind, children },
                Err(Failure::Refused(_)) => {
                    let none: Vec<Tree> = Vec::new();
                    assert(nodes(none@) =~= seq![]);
                    Tree::Container { box_type: kind, children: none }
                },
                Err(Failure::Overrun) => return Err(Failure::Overrun),
            }
        } else {
            Tree::Leaf { box_type: kind, payload: copy_range(payload, 0, payload.len()) }
        };
        proof {
            assert(payload@.subrange(0, payload@.len() as int) =~= payload@);
            lemma_nodes_push(list@, tree);
            let first = tree.node();
            if let Outcome::Found(rest) = boxes_at(bytes@, end as int) {
                assert(done + (seq![first] + rest) =~= done.push(first) + rest);
            }
        }
        list.push(tree);
        pos = end;
    }
    assert(nodes(list@) + Seq::<Node>::empty() =~= nodes(list@));
    Ok(list)
}

/// The payload of a box as it is written: `meta` boxes start with a 4-byte version/flags field,
/// which is zero.
pub open spec fn framed(kind: u32, payload: Seq<u8>) -> Seq<u8> {
    if kind == META {
        seq![0u8, 0, 0, 0] + payload
    } else {
        payload
    }
}

/// A box with a size (its low 32 bits) before it.
pub open spec fn boxed(kind: u32, payload: Seq<u8>) -> Seq<u8> {
    be32_bytes((8 + payload.len()) as int) + be32_bytes(kind as int) + payload
}

/// The bytes of a box and its children.
pub open spec fn bytes_of(node: Node) -> Seq<u8>
    decreases node,
{
    match node {
        Node::Leaf { kind, payload } => boxed(kind, framed(kind, payload)),
        Node::Container { kind, children } => boxed(kind, framed(kind, all_bytes(children))),
    }
}

/// The bytes of boxes one after the other.
pub open spec fn all_bytes(list: Seq<Node>) -> Seq<u8>
    decreases list,
{
    if list.len() == 0 {
        seq![]
    } else {
        bytes_of(list[0]) + all_bytes(list.subrange(1, list.len() as int))
    }
}

/// Serialises a node (and its children) into size-prefixed bytes.
pub fn serialize(tree: &Tree) -> (r: Vec<u8>)
    ensures
        r@ == bytes_of(tree.node()),
    decreases tree,
{
    let kind: u32 = tree.box_type();
    let mut payload: Vec<u8> = Vec::new();
    if kind == META {
        payload.push(0);
        payload.push(0);
        payload.push(0);
        payload.push(0);
    }
    match tree {
        Tree::Leaf { payload: content, .. } => {
            append_bytes(&mut payload, content);
            assert(payload@ =~= framed(kind, content@));
        },
        Tree::Container { children, .. } => {
            let content = serialize_all(children);
            append_bytes(&mut payload, &content);
            assert(payload@ =~= framed(kind, content@));
        },
    }
    let mut out: Vec<u8> = Vec::new();
    let total: u64 = ((payload.len() as u128 + 8) % 0x1_0000_0000) as u64;
    push_be32(&mut out, total);
    push_be32(&mut out, kind as u64);
    append_bytes(&mut out, &payload);
    proof {
        crate::bytes::lemma_be32_low((8 + payload@.len()) as int);
        assert(out@ =~= boxed(kind, payload@));
    }
    out
}

/// Serialises boxes one after the other.
pub fn serialize_all(list: &Vec<Tree>) -> (r: Vec<u8>)
    ensures
        r@ == all_bytes(nodes(list@)),
    decreases list,
{
    let mut out: Vec<u8> = Vec::new();
    let ghost all = nodes(list@);
    let mut i: usize = 0;
    proof {
        lemma_nodes(list@);
        assert(all.skip(0) =~= all);
        assert(out@ + all_bytes(all) =~= all_bytes(all));
    }
    while i < list.len()
        invariant
            i <= list@.len(),
            all == nodes(list@),
            all.len() == list@.len(),
            forall|j: int| 0 <= j < list@.len() ==> #[trigger] all[j] == list@[j].node(),
            out@ + all_bytes(all.skip(i as int)) == all_bytes(all),
        decreases list@.len() - i,
    {
        let ghost done = out@;
        let ghost rest = all.skip(i as int);
        assert(rest[0] == list@[i as int].node());
        assert(rest.subrange(1, rest.len() as int) =~= all.skip(i + 1));
        let bytes = serialize(&list[i]);
        append_bytes(&mut out, &bytes);
        assert(done + (bytes@ + all_bytes(all.skip(i + 1))) =~= out@ + all_bytes(all.skip(i + 1)));
        i = i + 1;
    }
    assert(all.skip(i as int) =~= seq![]);
    assert(out@ + Seq::<u8>::empty() =~= out@);
    out
}

/// The box itself, or else its first descendant, of a type.
pub open spec fn found(node: Node, target: u32) -> Option<Node>
    decreases node,
{
    if node.kind() == target {
        Some(node)
    } else {
        match node {
            Node::Leaf { .. } => None,
            Node::Container { children, .. } => found_in(children, target),
        }
    }
}

/// The first box of a type in boxes and their descendants.
pub open spec fn found_in(list: Seq<Node>, target: u32) -> Option<Node>
    decreases list,
{
    if list.len() == 0 {
        None
    } else {
        match found(list[0], target) {
            Some(node) => Some(node),
            None => found_in(list.subrange(1, list.len() as int), target),
        }
    }
}

/// Recursive search for the first descendant matching `target`.
pub fn find(tree: &Tree, target: u32) -> (r: Option<&Tree>)
    ensures
        match r {
            Some(t) => found(tree.node(), target) == Some(t.node()),
            None => found(tree.node(), target) is None,
        },
    decreases tree,
{
    if tree.box_type() == target {
        return Some(tree);
    }
    match tree {
        Tree::Leaf { .. } => None,
        Tree::Container { children, .. } => find_in(children, target),
    }
}

/// Search in boxes and their descendants.
pub fn find_in(list: &Vec<Tree>, target: u32) -> (r: Option<&Tree>)
    ensures
        match r {
            Some(t) => found_in(nodes(list@), target) == Some(t.node()),
            None => found_in(nodes(list@), target) is None,
        },
    decreases list,
{
    let ghost all = nodes(list@);
    let mut i: usize = 0;
    proof {
        lemma_nodes(list@);
        assert(all.skip(0) =~= all);
    }
    while i < list.len()
        invariant
            i <= list@.len(),
            all == nodes(list@),
            all.len() == list@.len(),
            forall|j: int| 0 <= j < list@.len() ==> #[trigger] all[j] == list@[j].node(),
            found_in(all, target) == found_in(all.skip(i as int), target),
        decreases list@.len() - i,
    {
        let ghost rest = all.skip(i as int);
        assert(rest[0] == list@[i as int].node());
        assert(rest.subrange(1, rest.len() as int) =~= all.skip(i + 1));
        if let Some(t) = find(&list[i], target) {
            return Some(t);
        }
        i = i + 1;
    }
    assert(all.skip(i as int) =~= seq![]);
    None
}

/// The payload of the `data` sub-box in a tag atom.
pub open spec fn data_of(tag: Node) -> Option<Seq<u8>> {
    match found(tag, DATA) {
        Some(Node::Leaf { payload, .. }) => Some(payload),
        _ => None,
    }
}

/// Finds the `data` sub-box inside an `ilst` tag atom and returns its payload.
pub fn data_box_payload(tag: &Tree) -> (r: Option<&Vec<u8>>)
    ensures
        match r {
            Some(payload) => data_of(tag.node()) == Some(payload@),
            None => data_of(tag.node()) is None,
        },
{
    match find(tag, DATA) {
        Some(Tree::Leaf { payload, .. }) => Some(payload),
        _ => None,
    }
}

/// The text of a tag atom, unless it is empty or not valid UTF-8. The payload of its `data`
/// sub-box is `[4-byte flags][4-byte reserved][text]`.
pub open spec fn tag_text(tag: Node) -> Option<Seq<char>> {
    match data_of(tag) {
        Some(payload) => {
            let text = payload.subrange(8, payload.len() as int);
            if payload.len() > 8 && valid_utf8(text) {
                Some(decode_utf8(text))
            } else {
                None
            }
        },
        None => None,
    }
}

/// Extracts UTF-8 text from an `ilst` tag atom.
pub fn read_text_tag(tag: &Tree) -> (r: Option<String>)
    ensures
        text_view(r) == tag_text(tag.node()),
{
    match data_box_payload(tag) {
        Some(payload) => if payload.len() <= 8 {
            None
        } else {
            utf8_text(slice_subrange(payload, 8, payload.len()))
        },
        None => None,
    }
}

/// The number in a `trkn` tag:
/// 4 flags + 4 reserved + track(u16 BE) + total(u16 BE) + 4 reserved.
pub open spec fn tag_number(tag: Node) -> Option<int> {
    match data_of(tag) {
        Some(payload) => if payload.len() >= 12 {
            Some(be16(payload, 8))
        } else {
            None
        },
        None => None,
    }
}

/// Parses the `trkn` tag.
pub fn read_trkn(tag: &Tree) -> (r: Option<u32>)
    ensures
        match r {
            Some(n) => tag_number(tag.node()) == Some(n as int),
            None => tag_number(tag.node()) is None,
        },
{
    match data_box_payload(tag) {
        Some(payload) => if payload.len() < 12 {
            None
        } else {
            Some(read_be16(payload, 8) as u32)
        },
        None => None,
    }
}

/// A text tag atom containing a UTF-8 `data` sub-box.
pub open spec fn text_tag(kind: u32, text: Seq<char>) -> Node {
    Node::Container {
        kind,
        children: seq![
            Node::Leaf { kind: DATA, payload: seq![0u8, 0, 0, 1, 0, 0, 0, 0] + encode_utf8(text) },
        ],
    }
}

/// Builds an `ilst` text tag atom containing a UTF-8 `data` sub-box.
pub fn build_text_tag(kind: u32, text: &str) -> (r: Tree)
    ensures
        r.node() == text_tag(kind, text@),
{
    let mut payload: Vec<u8> = vec![0, 0, 0, 1, 0, 0, 0, 0];
    assert(payload@ =~= seq![0u8, 0, 0, 1, 0, 0, 0, 0]);
    append_bytes(&mut payload, text.as_bytes());
    let leaf = Tree::Leaf { box_type: DATA, payload };
    let ghost leaf_node = leaf.node();
    let children = vec![leaf];
    proof {
        lemma_nodes(children@);
        assert(nodes(children@) =~= seq![leaf_node]);
    }
    Tree::Container { box_type: kind, children }
}

/// Timescale and duration in an `mvhd` payload of version 0 (32-bit times) or 1 (64-bit times).
pub open spec fn movie_times(payload: Seq<u8>) -> Option<(int, int)> {
    if payload.len() >= 24 && payload[0] == 0 {
        Some((be32(payload, 12), be32(payload, 16)))
    } else if payload.len() >= 36 && payload[0] == 1 {
        Some((be32(payload, 20), be64(payload, 24)))
    } else {
        None
    }
}

/// Parses an `mvhd` payload for `(timescale, duration)`.
pub fn parse_mvhd(payload: &[u8]) -> (r: Option<(u32, u64)>)
    ensures
        match r {
            Some((timescale, duration)) => movie_times(payload@) == Some(
                (timescale as int, duration as int),
            ),
            None => movie_times(payload@) is None,
        },
{
    if payload.len() >= 24 && payload[0] == 0 {
        Some((read_be32(payload, 12), read_be32(payload, 16) as u64))
    } else if payload.len() >= 36 && payload[0] == 1 {
        Some((read_be32(payload, 20), read_be64(payload, 24)))
    } else {
        None
    }
}

/// The first box of a type among siblings.
pub open spec fn place_of(list: Seq<Node>, kind: u32) -> Option<int>
    decreases list.len(),
{
    if list.len() == 0 {
        None
    } else if list[0].kind() == kind {
        Some(0)
    } else {
        match place_of(list.drop_first(), kind) {
            Some(i) => Some(i + 1),
            None => None,
        }
    }
}

/// Finds the first box of a type among siblings.
pub fn position(list: &Vec<Tree>, kind: u32) -> (r: Option<usize>)
    ensures
        match r {
            Some(i) => place_of(nodes(list@), kind) == Some(i as int) && i < list.len(),
            None => place_of(nodes(list@), kind) is None,
        },
{
    let ghost all = nodes(list@);
    let mut i: usize = 0;
    proof {
        lemma_nodes(list@);
        assert(all.skip(0) =~= all);
    }
    while i < list.len()
        invariant
            i <= list@.len(),
            all == nodes(list@),
            all.len() == list@.len(),
            forall|j: int| 0 <= j < list@.len() ==> #[trigger] all[j] == list@[j].node(),
            place_of(all, kind) == (match place_of(all.skip(i as int), kind) {
                Some(k) => Some(k + i),
                None => None,
            }),
        decreases list@.len() - i,
    {
        assert(all.skip(i as int)[0] == list@[i as int].node());
        assert(all.skip(i as int).drop_first() =~= all.skip(i + 1));
        if list[i].box_type() == kind {
            return Some(i);
        }
        i = i + 1;
    }
    assert(all.skip(i as int) =~= seq![]);
    None
}

/// `track` with what a tag atom says of it.
pub open spec fn told(track: Track, tag: Node) -> Track {
    if tag.kind() == TITLE {
        Track { title: tag_text(tag), ..track }
    } else if tag.kind() == ARTIST {
        Track { artist: tag_text(tag), ..track }
    } else if tag.kind() == ALBUM {
        Track { album: tag_text(tag), ..track }
    } else if tag.kind() == TRKN {
        Track {
            track_number: match tag_number(tag) {
                Some(n) => n as u32,
                None => 0,
            },
            ..track
        }
    } else {
        track
    }
}

/// `track` with what tag atoms, one after the other, say of it.
pub open spec fn all_told(track: Track, tags: Seq<Node>) -> Track
    decreases tags.len(),
{
    if tags.len() == 0 {
        track
    } else {
        all_told(told(track, tags[0]), tags.drop_first())
    }
}

/// Takes over what a tag atom says of a track.
pub fn tell(track: &mut TrackMeta, tag: &Tree)
    ensures
        final(track)@ == told(old(track)@, tag.node()),
{
    let kind: u32 = tag.box_type();
    if kind == TITLE {
        track.title = read_text_tag(tag);
    } else if kind == ARTIST {
        track.artist = read_text_tag(tag);
    } else if kind == ALBUM {
        track.album = read_text_tag(tag);
    } else if kind == TRKN {
        track.track_number = match read_trkn(tag) {
            Some(n) => n,
            None => 0,
        };
    }
}

/// The duration that the `mvhd` box in a `moov` box gives, in seconds.
pub open spec fn movie_duration(moov: Node) -> int {
    match found(moov, MVHD) {
        Some(Node::Leaf { payload, .. }) => match movie_times(payload) {
            Some((timescale, duration)) => if timescale > 0 {
                duration / timescale % 0x1_0000_0000
            } else {
                0
            },
            None => 0,
        },
        _ => 0,
    }
}

/// What a `moov` box says of a track.
pub open spec fn movie_track(moov: Node, filepath: Seq<char>) -> Track {
    let track = Track { duration: movie_duration(moov) as u32, ..blank(filepath) };
    match found(moov, ILST) {
        Some(Node::Container { children, .. }) => all_told(track, children),
        _ => track,
    }
}

/// Reads what a `moov` box says of a track.
pub fn read_movie(moov: &Tree, filepath: &str) -> (r: TrackMeta)
    ensures
        r@ == movie_track(moov.node(), filepath@),
{
    let mut track = blank_track(filepath);
    if let Some(Tree::Leaf { payload, .. }) = find(moov, MVHD) {
        if let Some((timescale, duration)) = parse_mvhd(payload) {
            if timescale > 0 {
                track.duration = (duration / (timescale as u64) % 0x1_0000_0000) as u32;
            }
        }
    }
    if let Some(Tree::Container { children, .. }) = find(moov, ILST) {
        let ghost all = nodes(children@);
        let ghost start = track@;
        let mut i: usize = 0;
        proof {
            lemma_nodes(children@);
            assert(all.skip(0) =~= all);
        }
        while i < children.len()
            invariant
                i <= children@.len(),
                all == nodes(children@),
                all.len() == children@.len(),
                forall|j: int|
                    0 <= j < children@.len() ==> #[trigger] all[j] == children@[j].node(),
                all_told(track@, all.skip(i as int)) == all_told(start, all),
            decreases children@.len() - i,
        {
            assert(all.skip(i as int)[0] == children@[i as int].node());
            assert(all.skip(i as int).drop_first() =~= all.skip(i + 1));
            tell(&mut track, &children[i]);
            i = i + 1;
        }
        assert(all.skip(i as int) =~= seq![]);
    }
    track
}

/// A box with its first descendant of a type (or the box itself) replaced.
pub open spec fn replaced(node: Node, target: u32, edit: spec_fn(Node) -> Node) -> Node
    decreases node,
{
    if node.kind() == target {
        edit(node)
    } else {
        match node {
            Node::Leaf { .. } => node,
            Node::Container { kind, children } => Node::Container {
                kind,
                children: replaced_in(children, target, edit),
            },
        }
    }
}

/// Boxes with the first one of a type, among them and their descendants, replaced.
pub open spec fn replaced_in(list: Seq<Node>, target: u32, edit: spec_fn(Node) -> Node) -> Seq<Node>
    decreases list,
{
    if list.len() == 0 {
        seq![]
    } else {
        let rest = list.subrange(1, list.len() as int);
        if found(list[0], target) is Some {
            seq![replaced(list[0], target, edit)] + rest
        } else {
            seq![list[0]] + replaced_in(rest, target, edit)
        }
    }
}

/// An `ilst` box with `lyrics` in place of any lyrics it held.
pub open spec fn with_lyrics(ilst: Node, lyrics: Seq<char>) -> Node {
    match ilst {
        Node::Leaf { .. } => ilst,
        Node::Container { kind, children } => Node::Container {
            kind,
            children: children.filter(|t: Node| t.kind() != LYRICS).push(text_tag(LYRICS, lyrics)),
        },
    }
}

/// An empty container.
pub open spec fn empty_box(kind: u32) -> Node {
    Node::Container { kind, children: seq![] }
}

/// A box with one more child.
pub open spec fn with_child(node: Node, child: Node) -> Node {
    match node {
        Node::Leaf { .. } => node,
        Node::Container { kind, children } => Node::Container { kind, children: children.push(child) },
    }
}

/// A `udta` box, with a new `ilst` box in it or without, with `lyrics` in its first `ilst` box.
pub open spec fn with_user_lyrics(udta: Node, add: bool, lyrics: Seq<char>) -> Node {
    replaced(
        if add {
            with_child(udta, empty_box(ILST))
        } else {
            udta
        },
        ILST,
        |n: Node| with_lyrics(n, lyrics),
    )
}

/// Replacing a tree replaces what it holds.
proof fn lemma_nodes_update(list: Seq<Tree>, i: int, tree: Tree)
    requires
        0 <= i < list.len(),
    ensures
        nodes(list.update(i, tree)) == nodes(list).update(i, tree.node()),
{
    lemma_nodes(list);
    lemma_nodes(list.update(i, tree));
    assert(nodes(list.update(i, tree)) =~= nodes(list).update(i, tree.node()));
}

/// Removing a tree removes what it holds.
proof fn lemma_nodes_remove(list: Seq<Tree>, i: int)
    requires
        0 <= i < list.len(),
    ensures
        nodes(list.remove(i)) == nodes(list).remove(i),
{
    lemma_nodes(list);
    lemma_nodes(list.remove(i));
    assert(nodes(list.remove(i)) =~= nodes(list).remove(i));
}

/// Removes the lyrics tags from a list.
fn drop_lyrics(children: &mut Vec<Tree>)
    ensures
        nodes(final(children)@) == nodes(old(children)@).filter(|t: Node| t.kind() != LYRICS),
{
    let ghost all = nodes(children@);
    let ghost stays = |t: Node| t.kind() != LYRICS;
    let ghost mut k: int = 0;
    let mut i: usize = 0;
    proof {
        lemma_nodes(children@);
        assert(all.take(0).filter(stays) =~= seq![]) by {
            reveal(Seq::filter);
        }
        assert(nodes(children@) =~= all.take(0).filter(stays) + all.skip(0));
    }
    while i < children.len()
        invariant
            0 <= k <= all.len(),
            stays == (|t: Node| t.kind() != LYRICS),
            i == all.take(k).filter(stays).len(),
            i <= children@.len(),
            nodes(children@) == all.take(k).filter(stays) + all.skip(k),
        decreases all.len() - k,
    {
        proof {
            lemma_nodes(children@);
            assert(children@.len() == i + all.len() - k);
            assert(nodes(children@)[i as int] == all.skip(k)[0]);
            assert(all.take(k + 1) =~= all.take(k).push(all[k]));
            all.take(k).lemma_filter_push(all[k], stays);
        }
        if children[i].box_type() == LYRICS {
            proof {
                lemma_nodes_remove(children@, i as int);
                assert(nodes(children@).remove(i as int) =~= all.take(k + 1).filter(stays)
                    + all.skip(k + 1));
            }
            children.remove(i);
        } else {
            assert(nodes(children@) =~= all.take(k + 1).filter(stays) + all.skip(k + 1));
            i = i + 1;
        }
        proof {
            k = k + 1;
        }
    }
    proof {
        lemma_nodes(children@);
        assert(all.skip(k) =~= seq![]);
        assert(all.take(k) =~= all);
        assert(nodes(children@) =~= all.filter(stays));
    }
}

/// Puts `lyrics` in place of any lyrics that an `ilst` box holds.
fn put_lyrics(ilst: &mut Tree, lyrics: &str)
    ensures
        final(ilst).node() == with_lyrics(old(ilst).node(), lyrics@),
{
    match ilst {
        Tree::Leaf { .. } => {},
        Tree::Container { children, .. } => {
            drop_lyrics(children);
            let tag = build_text_tag(LYRICS, lyrics);
            proof {
                lemma_nodes_push(children@, tag);
            }
            children.push(tag);
        },
    }
}

/// Puts `lyrics` into the first `ilst` box of a tree.
fn put_in_first_ilst(tree: &mut Tree, lyrics: &str)
    ensures
        final(tree).node() == replaced(
            old(tree).node(),
            ILST,
            |n: Node| with_lyrics(n, lyrics@),
        ),
    decreases *old(tree),
{
    if tree.box_type() == ILST {
        put_lyrics(tree, lyrics);
        return;
    }
    match tree {
        Tree::Leaf { .. } => {},
        Tree::Container { children, .. } => {
            put_in_ilst_of(children, lyrics);
        },
    }
}

/// Puts `lyrics` into the first `ilst` box of a list of trees.
fn put_in_ilst_of(list: &mut Vec<Tree>, lyrics: &str)
    ensures
        nodes(final(list)@) == replaced_in(
            nodes(old(list)@),
            ILST,
            |n: Node| with_lyrics(n, lyrics@),
        ),
    decreases *old(list),
{
    let ghost all = nodes(list@);
    let ghost edit = |n: Node| with_lyrics(n, lyrics@);
    let mut i: usize = 0;
    proof {
        lemma_nodes(list@);
        assert(all.skip(0) =~= all);
        assert(all.take(0) + replaced_in(all, ILST, edit) =~= replaced_in(all, ILST, edit));
    }
    while i < list.len()
        invariant
            i <= list@.len(),
            list@ == old(list)@,
            all == nodes(list@),
            all.len() == list@.len(),
            forall|j: int| 0 <= j < list@.len() ==> #[trigger] all[j] == list@[j].node(),
            edit == (|n: Node| with_lyrics(n, lyrics@)),
            all.take(i as int) + replaced_in(all.skip(i as int), ILST, edit) == replaced_in(
                all,
                ILST,
                edit,
            ),
        decreases list@.len() - i,
    {
        let ghost rest = all.skip(i as int);
        assert(rest[0] == list@[i as int].node());
        assert(rest.subrange(1, rest.len() as int) =~= all.skip(i + 1));
        if find(&list[i], ILST).is_some() {
            put_in_first_ilst(&mut list[i], lyrics);
            proof {
                lemma_nodes_update(old(list)@, i as int, list@[i as int]);
                assert(list@ =~= old(list)@.update(i as int, list@[i as int]));
                assert(nodes(list@) =~= all.take(i as int) + (seq![list@[i as int].node()] + all.skip(
                    i + 1,
                )));
            }
            return;
        }
        assert(all.take(i as int) + (seq![rest[0]] + replaced_in(all.skip(i + 1), ILST, edit))
            =~= all.take(i + 1) + replaced_in(all.skip(i + 1), ILST, edit));
        i = i + 1;
    }
    assert(all.skip(i as int) =~= seq![]);
    assert(all.take(i as int) + Seq::<Node>::empty() =~= all);
}

/// Adds a child to a container.
fn add_child(tree: &mut Tree, child: Tree)
    ensures
        final(tree).node() == with_child(old(tree).node(), child.node()),
{
    match tree {
        Tree::Leaf { .. } => {},
        Tree::Container { children, .. } => {
            proof {
                lemma_nodes_push(children@, child);
            }
            children.push(child);
        },
    }
}

/// Makes an empty container.
fn new_box(kind: u32) -> (r: Tree)
    ensures
        r.node() == empty_box(kind),
{
    let children: Vec<Tree> = Vec::new();
    assert(nodes(children@) =~= seq![]);
    Tree::Container { box_type: kind, children }
}

/// Puts `lyrics` into the first `udta` box of a tree.
fn put_in_first_udta(tree: &mut Tree, add: bool, lyrics: &str)
    ensures
        final(tree).node() == replaced(
            old(tree).node(),
            UDTA,
            |n: Node| with_user_lyrics(n, add, lyrics@),
        ),
    decreases *old(tree),
{
    if tree.box_type() == UDTA {
        if add {
            add_child(tree, new_box(ILST));
        }
        put_in_first_ilst(tree, lyrics);
        return;
    }
    match tree {
        Tree::Leaf { .. } => {},
        Tree::Container { children, .. } => {
            put_in_udta_of(children, add, lyrics);
        },
    }
}

/// Puts `lyrics` into the first `udta` box of a list of trees.
fn put_in_udta_of(list: &mut Vec<Tree>, add: bool, lyrics: &str)
    ensures
        nodes(final(list)@) == replaced_in(
            nodes(old(list)@),
            UDTA,
            |n: Node| with_user_lyrics(n, add, lyrics@),
        ),
    decreases *old(list),
{
    let ghost all = nodes(list@);
    let ghost edit = |n: Node| with_user_lyrics(n, add, lyrics@);
    let mut i: usize = 0;
    proof {
        lemma_nodes(list@);
        assert(all.skip(0) =~= all);
        assert(all.take(0) + replaced_in(all, UDTA, edit) =~= replaced_in(all, UDTA, edit));
    }
    while i < list.len()
        invariant
            i <= list@.len(),
            list@ == old(list)@,
            all == nodes(list@),
            all.len() == list@.len(),
            forall|j: int| 0 <= j < list@.len() ==> #[trigger] all[j] == list@[j].node(),
            edit == (|n: Node| with_user_lyrics(n, add, lyrics@)),
            all.take(i as int) + replaced_in(all.skip(i as int), UDTA, edit) == replaced_in(
                all,
                UDTA,
                edit,
            ),
        decreases list@.len() - i,
    {
        let ghost rest = all.skip(i as int);
        assert(rest[0] == list@[i as int].node());
        assert(rest.subrange(1, rest.len() as int) =~= all.skip(i + 1));
        if find(&list[i], UDTA).is_some() {
            put_in_first_udta(&mut list[i], add, lyrics);
            proof {
                lemma_nodes_update(old(list)@, i as int, list@[i as int]);
                assert(list@ =~= old(list)@.update(i as int, list@[i as int]));
                assert(nodes(list@) =~= all.take(i as int) + (seq![list@[i as int].node()] + all.skip(
                    i + 1,
                )));
            }
            return;
        }
        assert(all.take(i as int) + (seq![rest[0]] + replaced_in(all.skip(i + 1), UDTA, edit))
            =~= all.take(i + 1) + replaced_in(all.skip(i + 1), UDTA, edit));
        i = i + 1;
    }
    assert(all.skip(i as int) =~= seq![]);
    assert(all.take(i as int) + Seq::<Node>::empty() =~= all);
}

/// The number of whole entries of `width` bytes that a chunk offset table has.
pub open spec fn entry_count(payload: Seq<u8>, width: int) -> int {
    let room = (payload.len() - 8) / width;
    if be32(payload, 4) <= room {
        be32(payload, 4)
    } else {
        room
    }
}

/// A 32-bit chunk offset moved by `delta`, not below zero.
pub open spec fn moved32(v: int, delta: int) -> int {
    if v + delta < 0 {
        0
    } else {
        (v + delta) % 0x1_0000_0000
    }
}

/// A 64-bit number as a two's complement number.
pub open spec fn signed(v: int) -> int {
    if v >= 0x8000_0000_0000_0000 {
        v - 0x1_0000_0000_0000_0000
    } else {
        v
    }
}

/// A 64-bit chunk offset moved by `delta`, not below zero.
pub open spec fn moved64(v: int, delta: int) -> int {
    if signed(v) + delta < 0 {
        0
    } else {
        (signed(v) + delta) % 0x1_0000_0000_0000_0000
    }
}

/// The entries of an `stco` table from `i` up to `n`, moved by `delta`.
pub open spec fn moved_entries32(payload: Seq<u8>, i: int, n: int, delta: int) -> Seq<u8>
    decreases n - i,
{
    if i >= n {
        seq![]
    } else {
        be32_bytes(moved32(be32(payload, 8 + 4 * i), delta)) + moved_entries32(
            payload,
            i + 1,
            n,
            delta,
        )
    }
}

/// The entries of a `co64` table from `i` up to `n`, moved by `delta`.
pub open spec fn moved_entries64(payload: Seq<u8>, i: int, n: int, delta: int) -> Seq<u8>
    decreases n - i,
{
    if i >= n {
        seq![]
    } else {
        be64_bytes(moved64(be64(payload, 8 + 8 * i), delta)) + moved_entries64(
            payload,
            i + 1,
            n,
            delta,
        )
    }
}

/// A chunk offset table with its entries moved by `delta`.
pub open spec fn moved_table(kind: u32, payload: Seq<u8>, delta: int) -> Seq<u8> {
    let n = payload.len() as int;
    if delta == 0 {
        payload
    } else if kind == STCO && n >= 8 {
        let count = entry_count(payload, 4);
        payload.subrange(0, 8) + moved_entries32(payload, 0, count, delta) + payload.subrange(
            8 + 4 * count,
            n,
        )
    } else if kind == CO64 && n >= 8 {
        let count = entry_count(payload, 8);
        payload.subrange(0, 8) + moved_entries64(payload, 0, count, delta) + payload.subrange(
            8 + 8 * count,
            n,
        )
    } else {
        payload
    }
}

/// A box with the chunk offsets in it moved by `delta`.
pub open spec fn patched(node: Node, delta: int) -> Node
    decreases node,
{
    match node {
        Node::Leaf { kind, payload } => Node::Leaf {
            kind,
            payload: moved_table(kind, payload, delta),
        },
        Node::Container { kind, children } => Node::Container {
            kind,
            children: all_patched(children, delta),
        },
    }
}

/// Boxes with the chunk offsets in them moved by `delta`.
pub open spec fn all_patched(list: Seq<Node>, delta: int) -> Seq<Node>
    decreases list,
{
    if list.len() == 0 {
        seq![]
    } else {
        seq![patched(list[0], delta)] + all_patched(list.subrange(1, list.len() as int), delta)
    }
}

/// Whether the 64-bit chunk offsets in a table can be moved by `delta`.
pub open spec fn movable(kind: u32, payload: Seq<u8>, delta: int) -> bool {
    kind == CO64 && payload.len() >= 8 ==> forall|i: int|
        0 <= i < entry_count(payload, 8) ==> i64::MIN <= signed(
            #[trigger] be64(payload, 8 + 8 * i),
        ) + delta <= i64::MAX
}

/// Whether all 64-bit chunk offsets in a box can be moved by `delta`.
pub open spec fn patchable(node: Node, delta: int) -> bool
    decreases node,
{
    match node {
        Node::Leaf { kind, payload } => movable(kind, payload, delta),
        Node::Container { kind, children } => all_patchable(children, delta),
    }
}

/// Whether all 64-bit chunk offsets in boxes can be moved by `delta`.
pub open spec fn all_patchable(list: Seq<Node>, delta: int) -> bool
    decreases list,
{
    if list.len() == 0 {
        true
    } else {
        patchable(list[0], delta) && all_patchable(list.subrange(1, list.len() as int), delta)
    }
}

/// Counts the whole entries of a chunk offset table.
fn count_entries(payload: &Vec<u8>, width: usize) -> (n: usize)
    requires
        payload@.len() >= 8,
        width == 4 || width == 8,
    ensures
        n == entry_count(payload@, width as int),
        8 + n * width <= payload.len(),
{
    let room: usize = (payload.len() - 8) / width;
    let count: u32 = read_be32(payload, 4);
    if count as u64 <= room as u64 {
        count as usize
    } else {
        room
    }
}

/// Moves the entries of an `stco` table by `delta`.
fn move_table32(payload: &Vec<u8>, delta: i128) -> (r: Vec<u8>)
    requires
        -0x1_0000_0000_0000_0000 <= delta <= 0x1_0000_0000_0000_0000,
        delta != 0,
        payload@.len() >= 8,
    ensures
        r@ == moved_table(STCO, payload@, delta as int),
{
    let count: usize = count_entries(payload, 4);
    let mut out = copy_range(payload, 0, 8);
    let ghost head = out@;
    let ghost all = moved_entries32(payload@, 0, count as int, delta as int);
    let mut i: usize = 0;
    assert(head + all =~= out@ + all);
    while i < count
        invariant
            -0x1_0000_0000_0000_0000 <= delta <= 0x1_0000_0000_0000_0000,
            i <= count,
            8 + count * 4 <= payload.len(),
            out@ + moved_entries32(payload@, i as int, count as int, delta as int) == head + all,
        decreases count - i,
    {
        let ghost done = out@;
        let v: i128 = read_be32(payload, 8 + 4 * i) as i128 + delta;
        let n: u64 = if v < 0 {
            0
        } else {
            (v % 0x1_0000_0000) as u64
        };
        push_be32(&mut out, n);
        let ghost entry = be32_bytes(n as int);
        let ghost rest = moved_entries32(payload@, i + 1, count as int, delta as int);
        assert(n == moved32(be32(payload@, 8 + 4 * i), delta as int));
        assert(done + (entry + rest) =~= out@ + rest);
        i = i + 1;
    }
    assert(out@ =~= head + all);
    append_bytes(&mut out, slice_subrange(payload, 8 + 4 * count, payload.len()));
    out
}

/// Moves the entries of a `co64` table by `delta`.
fn move_table64(payload: &Vec<u8>, delta: i128) -> (r: Vec<u8>)
    requires
        -0x1_0000_0000_0000_0000 <= delta <= 0x1_0000_0000_0000_0000,
        delta != 0,
        payload@.len() >= 8,
    ensures
        r@ == moved_table(CO64, payload@, delta as int),
{
    let count: usize = count_entries(payload, 8);
    let mut out = copy_range(payload, 0, 8);
    let ghost head = out@;
    let ghost all = moved_entries64(payload@, 0, count as int, delta as int);
    let mut i: usize = 0;
    assert(head + all =~= out@ + all);
    while i < count
        invariant
            -0x1_0000_0000_0000_0000 <= delta <= 0x1_0000_0000_0000_0000,
            i <= count,
            8 + count * 8 <= payload.len(),
            out@ + moved_entries64(payload@, i as int, count as int, delta as int) == head + all,
        decreases count - i,
    {
        let ghost done = out@;
        let v: i128 = as_signed(read_be64(payload, 8 + 8 * i)) + delta;
        let n: u64 = if v < 0 {
            0
        } else {
            (v % 0x1_0000_0000_0000_0000) as u64
        };
        push_be64(&mut out, n);
        let ghost entry = be64_bytes(n as int);
        let ghost rest = moved_entries64(payload@, i + 1, count as int, delta as int);
        assert(n == moved64(be64(payload@, 8 + 8 * i), delta as int));
        assert(done + (entry + rest) =~= out@ + rest);
        i = i + 1;
    }
    assert(out@ =~= head + all);
    append_bytes(&mut out, slice_subrange(payload, 8 + 8 * count, payload.len()));
    out
}

/// Reads a 64-bit number as a two's complement number.
fn as_signed(v: u64) -> (r: i128)
    ensures
        r == signed(v as int),
        -0x8000_0000_0000_0000 <= r <= 0x7fff_ffff_ffff_ffff,
{
    if v >= 0x8000_0000_0000_0000 {
        v as i128 - 0x1_0000_0000_0000_0000
    } else {
        v as i128
    }
}

/// Walks every `stco`/`co64` table under a tree and adds `delta` to each chunk offset. Used when
/// a growing `moov` shifts `mdat`.
pub fn patch_chunk_offsets(tree: &mut Tree, delta: i128)
    requires
        -0x1_0000_0000_0000_0000 <= delta <= 0x1_0000_0000_0000_0000,
        patchable(old(tree).node(), delta as int),
    ensures
        final(tree).node() == patched(old(tree).node(), delta as int),
    decreases *old(tree),
{
    match tree {
        Tree::Leaf { box_type, payload } => {
            if delta != 0 && *box_type == STCO && payload.len() >= 8 {
                let table = move_table32(payload, delta);
                *payload = table;
            } else if delta != 0 && *box_type == CO64 && payload.len() >= 8 {
                let table = move_table64(payload, delta);
                *payload = table;
            }
        },
        Tree::Container { children, .. } => {
            patch_all(children, delta);
        },
    }
}

/// Adds `delta` to each chunk offset under a list of trees.
fn patch_all(list: &mut Vec<Tree>, delta: i128)
    requires
        -0x1_0000_0000_0000_0000 <= delta <= 0x1_0000_0000_0000_0000,
        all_patchable(nodes(old(list)@), delta as int),
    ensures
        nodes(final(list)@) == all_patched(nodes(old(list)@), delta as int),
    decreases *old(list),
{
    let ghost all = nodes(list@);
    let ghost goal = all_patched(all, delta as int);
    let mut i: usize = 0;
    proof {
        lemma_nodes(list@);
        assert(all.skip(0) =~= all);
        assert(all.take(0) + goal =~= goal);
    }
    while i < list.len()
        invariant
            -0x1_0000_0000_0000_0000 <= delta <= 0x1_0000_0000_0000_0000,
            i <= list@.len(),
            all == nodes(old(list)@),
            all.len() == list@.len(),
            list@.len() == old(list)@.len(),
            goal == all_patched(all, delta as int),
            forall|j: int| i <= j < list@.len() ==> #[trigger] list@[j] == old(list)@[j],
            forall|j: int| 0 <= j < list@.len() ==> #[trigger] all[j] == old(list)@[j].node(),
            all_patchable(all.skip(i as int), delta as int),
            nodes(list@).take(i as int) + all_patched(all.skip(i as int), delta as int) == goal,
        decreases list@.len() - i,
    {
        let ghost rest = all.skip(i as int);
        let ghost before = list@;
        let ghost next = all_patched(all.skip(i + 1), delta as int);
        assert(rest[0] == old(list)@[i as int].node());
        assert(rest.subrange(1, rest.len() as int) =~= all.skip(i + 1));
        patch_chunk_offsets(&mut list[i], delta);
        proof {
            assert(list@ =~= before.update(i as int, list@[i as int]));
            lemma_nodes_update(before, i as int, list@[i as int]);
            lemma_nodes(before);
            assert(nodes(before).take(i as int) + (seq![list@[i as int].node()] + next) =~= nodes(
                list@,
            ).take(i + 1) + next);
        }
        i = i + 1;
    }
    proof {
        lemma_nodes(list@);
        assert(all.skip(i as int) =~= seq![]);
        assert(nodes(list@).take(i as int) + Seq::<Node>::empty() =~= nodes(list@));
    }
}

/// Tells whether the entries of a `co64` table can be moved by `delta`.
fn can_move(payload: &Vec<u8>, delta: i128) -> (r: bool)
    requires
        -0x1_0000_0000_0000_0000 <= delta <= 0x1_0000_0000_0000_0000,
        payload@.len() >= 8,
    ensures
        r == movable(CO64, payload@, delta as int),
{
    let count: usize = count_entries(payload, 8);
    let mut i: usize = 0;
    while i < count
        invariant
            -0x1_0000_0000_0000_0000 <= delta <= 0x1_0000_0000_0000_0000,
            i <= count,
            payload@.len() >= 8,
            count == entry_count(payload@, 8),
            8 + count * 8 <= payload.len(),
            forall|j: int|
                0 <= j < i ==> i64::MIN <= signed(#[trigger] be64(payload@, 8 + 8 * j)) + delta
                    <= i64::MAX,
        decreases count - i,
    {
        let v: i128 = as_signed(read_be64(payload, 8 + 8 * i)) + delta;
        if v < i64::MIN as i128 || v > i64::MAX as i128 {
            assert(!(i64::MIN <= signed(be64(payload@, 8 + 8 * i)) + delta <= i64::MAX));
            return false;
        }
        i = i + 1;
    }
    true
}

/// Tells whether all 64-bit chunk offsets in a tree can be moved by `delta`.
fn can_patch(tree: &Tree, delta: i128) -> (r: bool)
    requires
        -0x1_0000_0000_0000_0000 <= delta <= 0x1_0000_0000_0000_0000,
    ensures
        r == patchable(tree.node(), delta as int),
    decreases tree,
{
    match tree {
        Tree::Leaf { box_type, payload } => {
            if *box_type != CO64 || payload.len() < 8 {
                true
            } else {
                can_move(payload, delta)
            }
        },
        Tree::Container { children, .. } => can_patch_all(children, delta),
    }
}

/// Tells whether all 64-bit chunk offsets in a list of trees can be moved by `delta`.
fn can_patch_all(list: &Vec<Tree>, delta: i128) -> (r: bool)
    requires
        -0x1_0000_0000_0000_0000 <= delta <= 0x1_0000_0000_0000_0000,
    ensures
        r == all_patchable(nodes(list@), delta as int),
    decreases list,
{
    let ghost all = nodes(list@);
    let mut i: usize = 0;
    proof {
        lemma_nodes(list@);
        assert(all.skip(0) =~= all);
    }
    while i < list.len()
        invariant
            -0x1_0000_0000_0000_0000 <= delta <= 0x1_0000_0000_0000_0000,
            i <= list@.len(),
            all == nodes(list@),
            all.len() == list@.len(),
            forall|j: int| 0 <= j < list@.len() ==> #[trigger] all[j] == list@[j].node(),
            all_patchable(all, delta as int) == all_patchable(all.skip(i as int), delta as int),
        decreases list@.len() - i,
    {
        let ghost rest = all.skip(i as int);
        assert(rest[0] == list@[i as int].node());
        assert(rest.subrange(1, rest.len() as int) =~= all.skip(i + 1));
        if !can_patch(&list[i], delta) {
            return false;
        }
        i = i + 1;
    }
    assert(all.skip(i as int) =~= seq![]);
    true
}

/// A `moov` box with a `udta` box in it: the one it has, or a new one with an empty `ilst` box.
pub open spec fn with_udta(moov: Node) -> Node {
    if found(moov, UDTA) is Some {
        moov
    } else {
        with_child(moov, Node::Container { kind: UDTA, children: seq![empty_box(ILST)] })
    }
}

/// Whether a `moov` box has no `ilst` box, even with a `udta` box in it.
pub open spec fn lacks_ilst(moov: Node) -> bool {
    found(with_udta(moov), ILST) is None
}

/// The `ilst` box into which lyrics go: the first one in the first `udta` box, or a new one.
pub open spec fn target_ilst(moov: Node) -> Option<Node> {
    match found(with_udta(moov), UDTA) {
        Some(udta) => found(
            if lacks_ilst(moov) {
                with_child(udta, empty_box(ILST))
            } else {
                udta
            },
            ILST,
        ),
        None => None,
    }
}

/// Whether an `ilst` box holds lyrics.
pub open spec fn holds_lyrics(ilst: Node) -> bool {
    exists|i: int|
        0 <= i < ilst.children().len() && (#[trigger] ilst.children()[i]).kind() == LYRICS
            && tag_text(ilst.children()[i]) is Some
}

/// A `moov` box with `lyrics` in it.
pub open spec fn new_moov(moov: Node, lyrics: Seq<char>) -> Node {
    replaced(
        with_udta(moov),
        UDTA,
        |n: Node| with_user_lyrics(n, lacks_ilst(moov), lyrics),
    )
}

/// By how much a `moov` box grows when `lyrics` are put into it.
pub open spec fn growth(moov: Node, lyrics: Seq<char>) -> int {
    bytes_of(new_moov(moov, lyrics)).len() - bytes_of(moov).len()
}

/// Whether an `mdat` box stands after place `i`.
pub open spec fn media_after(top: Seq<Node>, i: int) -> bool {
    exists|j: int| i < j < top.len() && (#[trigger] top[j]).kind() == MDAT
}

/// The boxes of a file, whose `moov` box is number `i`, with `lyrics` in them. Where the `mdat`
/// box comes later, the chunk offsets move with it.
pub open spec fn new_boxes(top: Seq<Node>, i: int, lyrics: Seq<char>) -> Seq<Node> {
    let moov = new_moov(top[i], lyrics);
    top.update(
        i,
        if media_after(top, i) {
            patched(moov, growth(top[i], lyrics))
        } else {
            moov
        },
    )
}

/// Tells whether an `ilst` box holds lyrics.
fn has_lyrics(ilst: &Tree) -> (r: bool)
    ensures
        r == holds_lyrics(ilst.node()),
{
    match ilst {
        Tree::Leaf { .. } => false,
        Tree::Container { children, .. } => {
            let ghost all = nodes(children@);
            let mut i: usize = 0;
            proof {
                lemma_nodes(children@);
            }
            while i < children.len()
                invariant
                    i <= children@.len(),
                    all == nodes(children@),
                    all.len() == children@.len(),
                    forall|j: int|
                        0 <= j < children@.len() ==> #[trigger] all[j] == children@[j].node(),
                    forall|j: int|
                        0 <= j < i ==> !((#[trigger] all[j]).kind() == LYRICS && tag_text(
                            all[j],
                        ) is Some),
                    all == ilst.node().children(),
                decreases children@.len() - i,
            {
                assert(all[i as int] == children@[i as int].node());
                if children[i].box_type() == LYRICS && read_text_tag(&children[i]).is_some() {
                    return true;
                }
                i = i + 1;
            }
            false
        },
    }
}

/// Tells whether an `mdat` box stands after place `i`.
fn is_media_after(top: &Vec<Tree>, i: usize) -> (r: bool)
    requires
        i < top.len(),
    ensures
        r == media_after(nodes(top@), i as int),
{
    let ghost all = nodes(top@);
    let mut j: usize = i + 1;
    proof {
        lemma_nodes(top@);
    }
    while j < top.len()
        invariant
            i < j <= top@.len(),
            all == nodes(top@),
            all.len() == top@.len(),
            forall|k: int| 0 <= k < top@.len() ==> #[trigger] all[k] == top@[k].node(),
            forall|k: int| i < k < j ==> (#[trigger] all[k]).kind() != MDAT,
        decreases top@.len() - j,
    {
        assert(all[j as int] == top@[j as int].node());
        if top[j].box_type() == MDAT {
            return true;
        }
        j = j + 1;
    }
    false
}

/// What a box lacks, none of its descendants has.
proof fn lemma_found_within(node: Node, a: u32, b: u32)
    requires
        found(node, a) is Some,
        found(node, b) is None,
    ensures
        found(found(node, a)->0, b) is None,
    decreases node,
{
    if node.kind() != a {
        if let Node::Container { children, .. } = node {
            lemma_found_in_within(children, a, b);
        }
    }
}

proof fn lemma_found_in_within(list: Seq<Node>, a: u32, b: u32)
    requires
        found_in(list, a) is Some,
        found_in(list, b) is None,
    ensures
        found(found_in(list, a)->0, b) is None,
    decreases list,
{
    if list.len() > 0 {
        if found(list[0], a) is Some {
            lemma_found_within(list[0], a, b);
        } else {
            lemma_found_in_within(list.subrange(1, list.len() as int), a, b);
        }
    }
}

/// A box that is added last is found last.
pub proof fn lemma_found_push(list: Seq<Node>, child: Node, target: u32)
    ensures
        found_in(list.push(child), target) == (match found_in(list, target) {
            Some(node) => Some(node),
            None => found(child, target),
        }),
    decreases list.len(),
{
    let all = list.push(child);
    if list.len() == 0 {
        assert(all[0] == child);
        assert(all.subrange(1, 1) =~= seq![]);
        assert(found_in(all.subrange(1, 1), target) is None);
    } else {
        let rest = list.subrange(1, list.len() as int);
        assert(all[0] == list[0]);
        assert(all.subrange(1, all.len() as int) =~= rest.push(child));
        lemma_found_push(rest, child, target);
    }
}

/// What comes of putting lyrics into a `moov` box.
enum Step {
    /// It already has lyrics.
    Kept,
    /// There is no `ilst` box where it belongs.
    Missing,
    /// It was done.
    Edited,
}

/// Puts `lyrics` into a `moov` box, unless it has lyrics already and `force` is not set.
fn edit_moov(moov: &mut Tree, lyrics: &str, force: bool) -> (r: Step)
    ensures
        ({
            let target = target_ilst(old(moov).node());
            match r {
                Step::Missing => target is None,
                Step::Kept => target is Some && !force && holds_lyrics(target->0),
                Step::Edited => target is Some && (force || !holds_lyrics(target->0))
                    && final(moov).node() == new_moov(old(moov).node(), lyrics@),
            }
        }),
{
    if find(moov, UDTA).is_none() {
        let mut udta = new_box(UDTA);
        add_child(&mut udta, new_box(ILST));
        assert(udta.node().children() =~= seq![empty_box(ILST)]);
        add_child(moov, udta);
    }
    let ghost start = moov.node();
    assert(start == with_udta(old(moov).node()));
    let add = find(moov, ILST).is_none();
    match find(moov, UDTA) {
        Some(udta) => {
            if add {
                proof {
                    lemma_found_within(start, UDTA, ILST);
                }
                match udta {
                    Tree::Leaf { .. } => return Step::Missing,
                    Tree::Container { children, .. } => {
                        proof {
                            lemma_found_push(nodes(children@), empty_box(ILST), ILST);
                        }
                    },
                }
            } else {
                match find(udta, ILST) {
                    Some(ilst) => if !force && has_lyrics(ilst) {
                        return Step::Kept;
                    },
                    None => return Step::Missing,
                }
            }
        },
        None => return Step::Missing,
    }
    put_in_first_udta(moov, add, lyrics);
    Step::Edited
}

/// How far an edit gets before the boxes are written down.
enum Plan {
    /// The result is there already.
    Finished(Result<Edit, MetaError>),
    /// A box size or a chunk offset is out of range, or there is no `ilst` box where it belongs.
    Broken,
    /// These are the boxes.
    Ready(Vec<Tree>),
}

/// Takes an edit as far as the new boxes.
fn plan(bytes: &[u8], lyrics: &str, force: bool) -> (r: Plan)
    ensures
        match r {
            Plan::Finished(result) => Mp4::editable(bytes@, lyrics@, force) && edit_agrees(
                result,
                Mp4::edited(bytes@, lyrics@, force),
            ),
            Plan::Broken => !Mp4::editable(bytes@, lyrics@, force),
            Plan::Ready(top) => Mp4::editable(bytes@, lyrics@, force) && Mp4::edited(
                bytes@,
                lyrics@,
                force,
            ) == Ok::<Option<Seq<u8>>, Seq<char>>(Some(all_bytes(nodes(top@)))),
        },
{
    let mut top = match parse_boxes(bytes) {
        Ok(top) => top,
        Err(Failure::Refused(e)) => return Plan::Finished(Err(e)),
        Err(Failure::Overrun) => return Plan::Broken,
    };
    let ghost old_top = top@;
    let ghost all = nodes(top@);
    let i: usize = match position(&top, MOOV) {
        Some(i) => i,
        None => return Plan::Finished(Err(MetaError::new("MP4 missing moov box"))),
    };
    proof {
        lemma_nodes(top@);
        assert(all[i as int] == top@[i as int].node());
    }
    let old_size: usize = serialize(&top[i]).len();
    let after = is_media_after(&top, i);
    match edit_moov(&mut top[i], lyrics, force) {
        Step::Kept => return Plan::Finished(Ok(Edit::Unchanged)),
        Step::Missing => return Plan::Broken,
        Step::Edited => {},
    }
    let new_size: usize = serialize(&top[i]).len();
    if after {
        let delta: i128 = new_size as i128 - old_size as i128;
        if !can_patch(&top[i], delta) {
            return Plan::Broken;
        }
        patch_chunk_offsets(&mut top[i], delta);
    }
    proof {
        assert(top@ =~= old_top.update(i as int, top@[i as int]));
        lemma_nodes_update(old_top, i as int, top@[i as int]);
    }
    Plan::Ready(top)
}

impl AudioFormat for Mp4 {
    open spec fn readable(b: Seq<u8>) -> bool {
        boxes_at(b, 0) !is Overrun
    }

    open spec fn metadata(b: Seq<u8>, filepath: Seq<char>) -> Result<Track, Seq<char>> {
        match boxes_at(b, 0) {
            Outcome::Found(top) => match place_of(top, MOOV) {
                Some(i) => Ok(movie_track(top[i], filepath)),
                None => Err("MP4 missing moov box"@),
            },
            Outcome::Refused(message) => Err(message),
            Outcome::Overrun => Err(seq![]),
        }
    }

    open spec fn editable(b: Seq<u8>, lyrics: Seq<char>, force: bool) -> bool {
        match boxes_at(b, 0) {
            Outcome::Found(top) => match place_of(top, MOOV) {
                Some(i) => match target_ilst(top[i]) {
                    Some(ilst) => {
                        ||| !force && holds_lyrics(ilst)
                        ||| !media_after(top, i)
                        ||| patchable(new_moov(top[i], lyrics), growth(top[i], lyrics))
                    },
                    None => false,
                },
                None => true,
            },
            Outcome::Refused(_) => true,
            Outcome::Overrun => false,
        }
    }

    open spec fn edited(b: Seq<u8>, lyrics: Seq<char>, force: bool) -> Result<
        Option<Seq<u8>>,
        Seq<char>,
    > {
        match boxes_at(b, 0) {
            Outcome::Found(top) => match place_of(top, MOOV) {
                Some(i) => if !force && holds_lyrics(target_ilst(top[i])->0) {
                    Ok(None)
                } else {
                    Ok(Some(all_bytes(new_boxes(top, i, lyrics))))
                },
                None => Err("MP4 missing moov box"@),
            },
            Outcome::Refused(message) => Err(message),
            Outcome::Overrun => Err(seq![]),
        }
    }

    fn can_read(bytes: &[u8]) -> (r: bool) {
        match parse_boxes(bytes) {
            Err(Failure::Overrun) => false,
            _ => true,
        }
    }

    fn can_sync(bytes: &[u8], lyrics: &str, force: bool) -> (r: bool) {
        match plan(bytes, lyrics, force) {
            Plan::Broken => false,
            _ => true,
        }
    }

    fn read_metadata(bytes: &[u8], filepath: &str) -> (r: Result<TrackMeta, MetaError>) {
        let top = match parse_boxes(bytes) {
            Ok(top) => top,
            Err(Failure::Refused(e)) => return Err(e),
            Err(Failure::Overrun) => return Err(MetaError::new("")),
        };
        match position(&top, MOOV) {
            Some(i) => {
                proof {
                    lemma_nodes(top@);
                    assert(nodes(top@)[i as int] == top@[i as int].node());
                }
                Ok(read_movie(&top[i], filepath))
            },
            None => Err(MetaError::new("MP4 missing moov box")),
        }
    }

    fn sync_lyrics(bytes: &[u8], lyrics: &str, force: bool) -> (r: Result<Edit, MetaError>) {
        match plan(bytes, lyrics, force) {
            Plan::Finished(result) => result,
            Plan::Broken => Ok(Edit::Unchanged),
            Plan::Ready(top) => Ok(Edit::Rewritten(serialize_all(&top))),
        }
    }
}

/// Whether a box is a container exactly if its type says so, and so are its descendants.
pub open spec fn proper(node: Node) -> bool
    decreases node,
{
    match node {
        Node::Leaf { kind, .. } => !container(kind),
        Node::Container { kind, children } => container(kind) && all_proper(children),
    }
}

/// Whether boxes, and their descendants, are containers exactly if their types say so.
pub open spec fn all_proper(list: Seq<Node>) -> bool
    decreases list,
{
    if list.len() == 0 {
        true
    } else {
        proper(list[0]) && all_proper(list.subrange(1, list.len() as int))
    }
}

/// Whether each box has a size that fits in 32 bits.
pub open spec fn all_small(list: Seq<Node>) -> bool {
    forall|i: int| 0 <= i < list.len() ==> bytes_of(#[trigger] list[i]).len() < 0x1_0000_0000
}

proof fn lemma_proper_at(list: Seq<Node>, i: int)
    requires
        all_proper(list),
        0 <= i < list.len(),
    ensures
        proper(list[i]),
    decreases list.len(),
{
    if i > 0 {
        let rest = list.subrange(1, list.len() as int);
        lemma_proper_at(rest, i - 1);
        assert(rest[i - 1] == list[i]);
    }
}

proof fn lemma_all_proper(list: Seq<Node>)
    requires
        forall|i: int| 0 <= i < list.len() ==> proper(#[trigger] list[i]),
    ensures
        all_proper(list),
    decreases list.len(),
{
    if list.len() > 0 {
        let rest = list.subrange(1, list.len() as int);
        assert forall|i: int| 0 <= i < rest.len() implies proper(#[trigger] rest[i]) by {
            assert(rest[i] == list[i + 1]);
        }
        lemma_all_proper(rest);
    }
}

/// What was parsed is made of proper boxes.
proof fn lemma_boxes_proper(b: Seq<u8>, pos: int)
    requires
        boxes_at(b, pos) is Found,
    ensures
        all_proper(boxes_at(b, pos)->Found_0),
    decreases b.len(), b.len() - pos,
{
    if 0 <= pos < b.len() {
        let span = span_at(b, pos)->Found_0;
        let payload = b.subrange(span.from, span.end);
        let all = boxes_at(b, pos)->Found_0;
        let rest = boxes_at(b, span.end)->Found_0;
        lemma_boxes_proper(b, span.end);
        assert(all.subrange(1, all.len() as int) =~= rest);
        if container(span.kind) {
            if boxes_at(inner(span.kind, payload), 0) is Found {
                lemma_boxes_proper(inner(span.kind, payload), 0);
            }
            assert(all_proper(Seq::empty()));
            assert(all_proper(all[0].children()));
        }
        assert(proper(all[0]));
    } else {
        assert(all_proper(Seq::empty()));
    }
}

/// The bytes of a list are at least as many as those of each of its boxes.
proof fn lemma_bytes_len(list: Seq<Node>, i: int)
    requires
        0 <= i < list.len(),
    ensures
        bytes_of(list[i]).len() <= all_bytes(list).len(),
    decreases list.len(),
{
    if i > 0 {
        let rest = list.subrange(1, list.len() as int);
        lemma_bytes_len(rest, i - 1);
        assert(rest[i - 1] == list[i]);
    }
}

/// One box is found again where it was written.
pub proof fn lemma_span_back(before: Seq<u8>, kind: u32, payload: Seq<u8>, after: Seq<u8>)
    requires
        8 + payload.len() < 0x1_0000_0000,
        before.len() + 8 + payload.len() + after.len() <= u64::MAX,
    ensures
        span_at(before + boxed(kind, payload) + after, before.len() as int) == Outcome::<
            Span,
        >::Found(
            Span {
                kind,
                from: (before.len() + 8) as int,
                end: (before.len() + 8 + payload.len()) as int,
            },
        ),
        (before + boxed(kind, payload) + after).subrange(
            (before.len() + 8) as int,
            (before.len() + 8 + payload.len()) as int,
        ) == payload,
{
    reveal(span_at);
    let b = before + boxed(kind, payload) + after;
    let pos = before.len() as int;
    let n = (8 + payload.len()) as int;
    let size = be32_bytes(n);
    let name = be32_bytes(kind as int);
    assert(be32(b, pos) == n) by {
        crate::bytes::lemma_be32_round_trip(n);
        assert(b[pos] == size[0] && b[pos + 1] == size[1] && b[pos + 2] == size[2] && b[pos + 3]
            == size[3]);
    }
    assert(be32(b, pos + 4) == kind) by {
        crate::bytes::lemma_be32_round_trip(kind as int);
        assert(b[pos + 4] == name[0] && b[pos + 5] == name[1] && b[pos + 6] == name[2] && b[pos + 7]
            == name[3]);
    }
    assert(b.subrange(pos + 8, pos + n) =~= payload);
}

/// One box is parsed where it was written, if its children are.
proof fn lemma_box_back(before: Seq<u8>, node: Node, after: Seq<u8>)
    requires
        proper(node),
        bytes_of(node).len() < 0x1_0000_0000,
        before.len() + bytes_of(node).len() + after.len() <= u64::MAX,
        node is Container ==> boxes_at(all_bytes(node.children()), 0) == Outcome::Found(
            node.children(),
        ),
    ensures
        boxes_at(before + bytes_of(node) + after, before.len() as int) == followed(
            node,
            boxes_at(
                before + bytes_of(node) + after,
                (before.len() + bytes_of(node).len()) as int,
            ),
        ),
{
    let b = before + bytes_of(node) + after;
    let kind = node.kind();
    let payload = match node {
        Node::Leaf { payload, .. } => payload,
        Node::Container { children, .. } => all_bytes(children),
    };
    let body = framed(kind, payload);
    assert(bytes_of(node) == boxed(kind, body));
    assert(boxed(kind, body).len() == 8 + body.len());
    lemma_span_back(before, kind, body, after);
    if let Node::Container { children, .. } = node {
        assert(inner(kind, body) =~= all_bytes(children));
    }
}

/// Boxes are read back from the bytes they were written as.
#[verifier::spinoff_prover]
#[verifier::rlimit(40)]
pub proof fn law_boxes_round_trip(before: Seq<u8>, list: Seq<Node>)
    requires
        all_proper(list),
        all_small(list),
        before.len() + all_bytes(list).len() <= u64::MAX,
    ensures
        boxes_at(before + all_bytes(list), before.len() as int) == Outcome::Found(list),
    decreases list,
{
    let b = before + all_bytes(list);
    if list.len() == 0 {
        assert(b.len() == before.len());
        assert(list =~= seq![]);
    } else {
        let first = list[0];
        let rest = list.subrange(1, list.len() as int);
        let next = before + bytes_of(first);
        assert(proper(first));
        assert(all_small(rest)) by {
            assert forall|i: int| 0 <= i < rest.len() implies bytes_of(#[trigger] rest[i]).len()
                < 0x1_0000_0000 by {
                assert(rest[i] == list[i + 1]);
            }
        }
        if let Node::Container { children, .. } = first {
            assert(all_proper(children));
            lemma_inner_small(first);
            law_boxes_round_trip(Seq::empty(), children);
            assert(Seq::<u8>::empty() + all_bytes(children) =~= all_bytes(children));
        }
        lemma_box_back(before, first, all_bytes(rest));
        law_boxes_round_trip(next, rest);
        assert(b =~= next + all_bytes(rest));
        assert(b =~= before + bytes_of(first) + all_bytes(rest));
        assert(seq![first] + rest =~= list);
    }
}

/// The children of a small container are small.
proof fn lemma_inner_small(node: Node)
    requires
        node is Container,
        bytes_of(node).len() < 0x1_0000_0000,
    ensures
        all_small(node.children()),
        all_bytes(node.children()).len() < 0x1_0000_0000,
{
    let children = node.children();
    assert forall|i: int| 0 <= i < children.len() implies bytes_of(#[trigger] children[i]).len()
        < 0x1_0000_0000 by {
        lemma_bytes_len(children, i);
    }
}

/// The box that was replaced is found in place of the old one.
proof fn lemma_replaced_found(node: Node, target: u32, edit: spec_fn(Node) -> Node)
    requires
        found(node, target) is Some,
        edit(found(node, target)->0).kind() == target,
    ensures
        found(replaced(node, target, edit), target) == Some(edit(found(node, target)->0)),
        replaced(node, target, edit).kind() == node.kind(),
    decreases node,
{
    if node.kind() != target {
        if let Node::Container { children, .. } = node {
            lemma_replaced_in_found(children, target, edit);
        }
    }
}

proof fn lemma_replaced_in_found(list: Seq<Node>, target: u32, edit: spec_fn(Node) -> Node)
    requires
        found_in(list, target) is Some,
        edit(found_in(list, target)->0).kind() == target,
    ensures
        found_in(replaced_in(list, target, edit), target) == Some(edit(found_in(list, target)->0)),
    decreases list,
{
    if list.len() > 0 {
        let rest = list.subrange(1, list.len() as int);
        let all = replaced_in(list, target, edit);
        if found(list[0], target) is Some {
            lemma_replaced_found(list[0], target, edit);
            assert(all[0] == replaced(list[0], target, edit));
        } else {
            lemma_replaced_in_found(rest, target, edit);
            assert(all[0] == list[0]);
            assert(all.subrange(1, all.len() as int) =~= replaced_in(rest, target, edit));
        }
    }
}

/// Another box is found as before, where the replaced one gives the same answer as before and is
/// not part of it.
proof fn lemma_others_found(node: Node, target: u32, other: u32, edit: spec_fn(Node) -> Node)
    requires
        other != target,
        found(node, target) is Some,
        edit(found(node, target)->0).kind() == target,
        found(edit(found(node, target)->0), other) == found(found(node, target)->0, other),
        found(node, other) matches Some(y) ==> found(y, target) is None,
    ensures
        found(replaced(node, target, edit), other) == found(node, other),
    decreases node,
{
    if node.kind() != target {
        if let Node::Container { children, .. } = node {
            lemma_others_found_in(children, target, other, edit);
        }
    }
}

proof fn lemma_others_found_in(list: Seq<Node>, target: u32, other: u32, edit: spec_fn(Node) -> Node)
    requires
        other != target,
        found_in(list, target) is Some,
        edit(found_in(list, target)->0).kind() == target,
        found(edit(found_in(list, target)->0), other) == found(found_in(list, target)->0, other),
        found_in(list, other) matches Some(y) ==> found(y, target) is None,
    ensures
        found_in(replaced_in(list, target, edit), other) == found_in(list, other),
    decreases list,
{
    if list.len() > 0 {
        let rest = list.subrange(1, list.len() as int);
        let all = replaced_in(list, target, edit);
        if found(list[0], target) is Some {
            lemma_others_found(list[0], target, other, edit);
            assert(all[0] == replaced(list[0], target, edit));
            assert(all.subrange(1, all.len() as int) =~= rest);
        } else {
            assert(all[0] == list[0]);
            assert(all.subrange(1, all.len() as int) =~= replaced_in(rest, target, edit));
            if found(list[0], other) is None {
                lemma_others_found_in(rest, target, other, edit);
            }
        }
    }
}

/// Another box is found as before, or is the one in the replaced box.
proof fn lemma_other_or_new(node: Node, target: u32, other: u32, edit: spec_fn(Node) -> Node)
    requires
        other != target,
        found(node, target) is Some,
        edit(found(node, target)->0).kind() == target,
        found(edit(found(node, target)->0), other) is Some,
        found(found(node, target)->0, other) is Some || found(node, other) is None,
        found(node, other) matches Some(y) ==> found(y, target) is None,
    ensures
        found(replaced(node, target, edit), other) == found(node, other) || (found(
            replaced(node, target, edit),
            other,
        ) == found(edit(found(node, target)->0), other) && found(node, other) == found(
            found(node, target)->0,
            other,
        )),
    decreases node,
{
    if node.kind() != target {
        if let Node::Container { children, .. } = node {
            lemma_other_or_new_in(children, target, other, edit);
        }
    }
}

proof fn lemma_other_or_new_in(list: Seq<Node>, target: u32, other: u32, edit: spec_fn(Node) -> Node)
    requires
        other != target,
        found_in(list, target) is Some,
        edit(found_in(list, target)->0).kind() == target,
        found(edit(found_in(list, target)->0), other) is Some,
        found(found_in(list, target)->0, other) is Some || found_in(list, other) is None,
        found_in(list, other) matches Some(y) ==> found(y, target) is None,
    ensures
        found_in(replaced_in(list, target, edit), other) == found_in(list, other) || (found_in(
            replaced_in(list, target, edit),
            other,
        ) == found(edit(found_in(list, target)->0), other) && found_in(list, other) == found(
            found_in(list, target)->0,
            other,
        )),
    decreases list,
{
    if list.len() > 0 {
        let rest = list.subrange(1, list.len() as int);
        let all = replaced_in(list, target, edit);
        if found(list[0], target) is Some {
            if found(list[0], other) is None {
                lemma_found_within(list[0], target, other);
            }
            lemma_other_or_new(list[0], target, other, edit);
            assert(all[0] == replaced(list[0], target, edit));
            assert(all.subrange(1, all.len() as int) =~= rest);
        } else {
            assert(all[0] == list[0]);
            assert(all.subrange(1, all.len() as int) =~= replaced_in(rest, target, edit));
            if found(list[0], other) is None {
                lemma_other_or_new_in(rest, target, other, edit);
            }
        }
    }
}

/// What is found has the type that was looked for.
proof fn lemma_found_kind(node: Node, target: u32)
    ensures
        found(node, target) matches Some(x) ==> x.kind() == target && (proper(node) ==> proper(x)),
    decreases node,
{
    if node.kind() != target {
        if let Node::Container { children, .. } = node {
            lemma_found_in_kind(children, target);
        }
    }
}

proof fn lemma_found_in_kind(list: Seq<Node>, target: u32)
    ensures
        found_in(list, target) matches Some(x) ==> x.kind() == target && (all_proper(list)
            ==> proper(x)),
    decreases list,
{
    if list.len() > 0 {
        lemma_found_kind(list[0], target);
        lemma_found_in_kind(list.subrange(1, list.len() as int), target);
    }
}

/// A replacement by a proper box keeps boxes proper.
proof fn lemma_replaced_proper(node: Node, target: u32, edit: spec_fn(Node) -> Node)
    requires
        proper(node),
        found(node, target) matches Some(x) ==> proper(edit(x)),
    ensures
        proper(replaced(node, target, edit)),
    decreases node,
{
    if node.kind() != target {
        if let Node::Container { children, .. } = node {
            lemma_replaced_in_proper(children, target, edit);
        }
    }
}

proof fn lemma_replaced_in_proper(list: Seq<Node>, target: u32, edit: spec_fn(Node) -> Node)
    requires
        all_proper(list),
        found_in(list, target) matches Some(x) ==> proper(edit(x)),
    ensures
        all_proper(replaced_in(list, target, edit)),
    decreases list,
{
    if list.len() > 0 {
        let rest = list.subrange(1, list.len() as int);
        let all = replaced_in(list, target, edit);
        if found(list[0], target) is Some {
            lemma_replaced_proper(list[0], target, edit);
            assert(all[0] == replaced(list[0], target, edit));
            assert(all.subrange(1, all.len() as int) =~= rest);
        } else {
            lemma_replaced_in_proper(rest, target, edit);
            assert(all[0] == list[0]);
            assert(all.subrange(1, all.len() as int) =~= replaced_in(rest, target, edit));
        }
    }
}

proof fn lemma_push_proper(list: Seq<Node>, node: Node)
    requires
        all_proper(list),
        proper(node),
    ensures
        all_proper(list.push(node)),
{
    assert forall|i: int| 0 <= i < list.push(node).len() implies proper(
        #[trigger] list.push(node)[i],
    ) by {
        if i < list.len() {
            lemma_proper_at(list, i);
        }
    }
    lemma_all_proper(list.push(node));
}

proof fn lemma_filter_proper(list: Seq<Node>, stays: spec_fn(Node) -> bool)
    requires
        all_proper(list),
    ensures
        all_proper(list.filter(stays)),
    decreases list.len(),
{
    reveal(Seq::filter);
    if list.len() > 0 {
        let part = list.drop_last();
        assert forall|i: int| 0 <= i < part.len() implies proper(#[trigger] part[i]) by {
            lemma_proper_at(list, i);
        }
        lemma_all_proper(part);
        lemma_filter_proper(part, stays);
        lemma_proper_at(list, list.len() - 1);
        lemma_push_proper(part.filter(stays), list.last());
    }
}

proof fn lemma_tag_proper(lyrics: Seq<char>)
    ensures
        proper(text_tag(LYRICS, lyrics)),
{
    let tag = text_tag(LYRICS, lyrics);
    let children = tag.children();
    assert(proper(children[0]));
    lemma_all_proper(children);
}

/// The tag that is written gives the lyrics back.
proof fn lemma_tag_back(lyrics: Seq<char>)
    ensures
        lyrics.len() > 0 ==> tag_text(text_tag(LYRICS, lyrics)) == Some(lyrics),
        found(text_tag(LYRICS, lyrics), MVHD) is None,
        found(text_tag(LYRICS, lyrics), UDTA) is None,
{
    let tag = text_tag(LYRICS, lyrics);
    let children = tag.children();
    let payload = seq![0u8, 0, 0, 1, 0, 0, 0, 0] + encode_utf8(lyrics);
    assert(children[0] == Node::Leaf { kind: DATA, payload });
    assert(found(children[0], DATA) == Some(children[0]));
    assert(found_in(children, DATA) == Some(children[0]));
    assert(payload.subrange(8, payload.len() as int) =~= encode_utf8(lyrics));
    crate::text::lemma_as_text(lyrics);
    if lyrics.len() > 0 && encode_utf8(lyrics).len() == 0 {
        assert(encode_utf8(lyrics) =~= Seq::<u8>::empty());
        crate::text::lemma_as_text(Seq::empty());
        assert(encode_utf8(Seq::<char>::empty()) =~= Seq::<u8>::empty());
    }
    let rest = children.subrange(1, 1);
    assert(rest =~= seq![]);
    assert(found(children[0], MVHD) is None && found(children[0], UDTA) is None);
    assert(found_in(rest, MVHD) is None && found_in(rest, UDTA) is None);
    assert(found_in(children, MVHD) is None && found_in(children, UDTA) is None);
}

/// Boxes that stay after a filter answer as before, where the dropped ones hold nothing.
proof fn lemma_filter_found(list: Seq<Node>, stays: spec_fn(Node) -> bool, target: u32)
    requires
        forall|i: int|
            0 <= i < list.len() && !stays(#[trigger] list[i]) ==> found(list[i], target) is None,
    ensures
        found_in(list.filter(stays), target) == found_in(list, target),
    decreases list.len(),
{
    reveal(Seq::filter);
    if list.len() > 0 {
        let part = list.drop_last();
        assert forall|i: int| 0 <= i < part.len() && !stays(#[trigger] part[i]) implies found(
            part[i],
            target,
        ) is None by {
            assert(part[i] == list[i]);
        }
        lemma_filter_found(part, stays, target);
        lemma_found_push(part, list.last(), target);
        lemma_found_push(part.filter(stays), list.last(), target);
        assert(part.push(list.last()) =~= list);
        assert(list[list.len() - 1] == list.last());
    }
}

/// The other tags say the same of a track once lyrics are put in.
proof fn lemma_told_kept(track: Track, tags: Seq<Node>, lyrics: Seq<char>)
    ensures
        all_told(
            track,
            tags.filter(|t: Node| t.kind() != LYRICS).push(text_tag(LYRICS, lyrics)),
        ) == all_told(track, tags),
{
    let stays = |t: Node| t.kind() != LYRICS;
    lemma_told_push(track, tags.filter(stays), text_tag(LYRICS, lyrics));
    lemma_told_filter(track, tags, stays);
}

proof fn lemma_told_push(track: Track, tags: Seq<Node>, tag: Node)
    ensures
        all_told(track, tags.push(tag)) == told(all_told(track, tags), tag),
    decreases tags.len(),
{
    if tags.len() == 0 {
        assert(tags.push(tag).drop_first() =~= seq![]);
        assert(all_told(told(track, tag), tags.push(tag).drop_first()) == told(track, tag));
    } else {
        assert(tags.push(tag).drop_first() =~= tags.drop_first().push(tag));
        lemma_told_push(told(track, tags[0]), tags.drop_first(), tag);
    }
}

proof fn lemma_told_filter(track: Track, tags: Seq<Node>, stays: spec_fn(Node) -> bool)
    requires
        stays == (|t: Node| t.kind() != LYRICS),
    ensures
        all_told(track, tags.filter(stays)) == all_told(track, tags),
    decreases tags.len(),
{
    reveal(Seq::filter);
    if tags.len() > 0 {
        let part = tags.drop_last();
        lemma_told_filter(track, part, stays);
        lemma_told_push(track, part, tags.last());
        lemma_told_push(track, part.filter(stays), tags.last());
        assert(part.push(tags.last()) =~= tags);
    }
}

/// Moved chunk offsets do not change what is found, but for the offsets.
proof fn lemma_patched_found(node: Node, delta: int, target: u32)
    ensures
        patched(node, delta).kind() == node.kind(),
        found(patched(node, delta), target) == (match found(node, target) {
            Some(x) => Some(patched(x, delta)),
            None => None,
        }),
    decreases node,
{
    if node.kind() != target {
        if let Node::Container { children, .. } = node {
            lemma_patched_found_in(children, delta, target);
        }
    }
}

proof fn lemma_patched_found_in(list: Seq<Node>, delta: int, target: u32)
    ensures
        found_in(all_patched(list, delta), target) == (match found_in(list, target) {
            Some(x) => Some(patched(x, delta)),
            None => None,
        }),
    decreases list,
{
    let all = all_patched(list, delta);
    if list.len() > 0 {
        let rest = list.subrange(1, list.len() as int);
        lemma_patched_found(list[0], delta, target);
        lemma_patched_found_in(rest, delta, target);
        assert(all[0] == patched(list[0], delta));
        assert(all.subrange(1, all.len() as int) =~= all_patched(rest, delta));
    } else {
        assert(all =~= seq![]);
    }
}

proof fn lemma_all_patched(list: Seq<Node>, delta: int)
    ensures
        all_patched(list, delta).len() == list.len(),
        forall|i: int|
            0 <= i < list.len() ==> #[trigger] all_patched(list, delta)[i] == patched(
                list[i],
                delta,
            ),
    decreases list.len(),
{
    if list.len() > 0 {
        let rest = list.subrange(1, list.len() as int);
        let all = all_patched(list, delta);
        lemma_all_patched(rest, delta);
        assert forall|i: int| 0 <= i < list.len() implies #[trigger] all[i] == patched(
            list[i],
            delta,
        ) by {
            if i > 0 {
                assert(all[i] == all_patched(rest, delta)[i - 1]);
                assert(rest[i - 1] == list[i]);
            }
        }
    }
}

/// A tag says the same once chunk offsets have moved.
proof fn lemma_patched_tag(tag: Node, delta: int)
    ensures
        data_of(patched(tag, delta)) == data_of(tag),
        patched(tag, delta).kind() == tag.kind(),
{
    lemma_patched_found(tag, delta, DATA);
    lemma_found_kind(tag, DATA);
}

proof fn lemma_patched_told(track: Track, tags: Seq<Node>, delta: int)
    ensures
        all_told(track, all_patched(tags, delta)) == all_told(track, tags),
    decreases tags.len(),
{
    lemma_all_patched(tags, delta);
    let all = all_patched(tags, delta);
    if tags.len() > 0 {
        let rest = tags.subrange(1, tags.len() as int);
        lemma_patched_tag(tags[0], delta);
        assert(all[0] == patched(tags[0], delta));
        assert(all.drop_first() =~= all_patched(rest, delta));
        assert(tags.drop_first() =~= rest);
        lemma_patched_told(told(track, tags[0]), rest, delta);
    }
}

/// A movie says the same once its chunk offsets have moved.
proof fn lemma_patched_movie(moov: Node, delta: int, filepath: Seq<char>)
    ensures
        movie_track(patched(moov, delta), filepath) == movie_track(moov, filepath),
{
    lemma_patched_found(moov, delta, MVHD);
    lemma_found_kind(moov, MVHD);
    lemma_patched_found(moov, delta, ILST);
    if let Some(Node::Container { children, .. }) = found(moov, ILST) {
        let track = Track { duration: movie_duration(moov) as u32, ..blank(filepath) };
        lemma_patched_told(track, children, delta);
    }
}

proof fn lemma_patched_proper(node: Node, delta: int)
    requires
        proper(node),
    ensures
        proper(patched(node, delta)),
    decreases node,
{
    if let Node::Container { children, .. } = node {
        lemma_all_patched_proper(children, delta);
    }
}

proof fn lemma_all_patched_proper(list: Seq<Node>, delta: int)
    requires
        all_proper(list),
    ensures
        all_proper(all_patched(list, delta)),
    decreases list,
{
    if list.len() > 0 {
        let rest = list.subrange(1, list.len() as int);
        let all = all_patched(list, delta);
        lemma_patched_proper(list[0], delta);
        lemma_all_patched_proper(rest, delta);
        assert(all[0] == patched(list[0], delta));
        assert(all.subrange(1, all.len() as int) =~= all_patched(rest, delta));
    }
}

/// An `ilst` box with lyrics in it is still a proper one, and hides no movie header.
proof fn lemma_with_lyrics(ilst: Node, lyrics: Seq<char>)
    requires
        proper(ilst),
        ilst.kind() == ILST,
    ensures
        proper(with_lyrics(ilst, lyrics)),
        with_lyrics(ilst, lyrics).kind() == ILST,
        (forall|i: int|
            0 <= i < ilst.children().len() && (#[trigger] ilst.children()[i]).kind() == LYRICS
                ==> found(ilst.children()[i], MVHD) is None) ==> found(
            with_lyrics(ilst, lyrics),
            MVHD,
        ) == found(ilst, MVHD),
{
    let children = ilst.children();
    let stays = |t: Node| t.kind() != LYRICS;
    lemma_filter_proper(children, stays);
    lemma_tag_proper(lyrics);
    lemma_tag_back(lyrics);
    lemma_push_proper(children.filter(stays), text_tag(LYRICS, lyrics));
    if forall|i: int|
        0 <= i < children.len() && (#[trigger] children[i]).kind() == LYRICS ==> found(
            children[i],
            MVHD,
        ) is None {
        lemma_filter_found(children, stays, MVHD);
        lemma_found_push(children.filter(stays), text_tag(LYRICS, lyrics), MVHD);
    }
}

/// Whether none of the lyrics tags in an `ilst` box hides a movie header.
pub open spec fn plain_lyrics(ilst: Node) -> bool {
    forall|i: int|
        0 <= i < ilst.children().len() && (#[trigger] ilst.children()[i]).kind() == LYRICS ==> found(
            ilst.children()[i],
            MVHD,
        ) is None
}

/// A `udta` box with lyrics in it is still a proper one, and holds them in its first `ilst` box.
#[verifier::spinoff_prover]
#[verifier::rlimit(40)]
proof fn lemma_user_lyrics(udta: Node, add: bool, lyrics: Seq<char>)
    requires
        proper(udta),
        udta.kind() == UDTA,
        ({
            let start = if add {
                with_child(udta, empty_box(ILST))
            } else {
                udta
            };
            found(start, ILST) is Some
        }),
    ensures
        ({
            let start = if add {
                with_child(udta, empty_box(ILST))
            } else {
                udta
            };
            let ilst = found(start, ILST)->0;
            let new = with_user_lyrics(udta, add, lyrics);
            &&& proper(ilst)
            &&& ilst.kind() == ILST
            &&& proper(new)
            &&& new.kind() == UDTA
            &&& found(new, ILST) == Some(with_lyrics(ilst, lyrics))
            &&& plain_lyrics(ilst) ==> found(new, MVHD) == found(udta, MVHD)
        }),
{
    let start = if add {
        with_child(udta, empty_box(ILST))
    } else {
        udta
    };
    let edit = |n: Node| with_lyrics(n, lyrics);
    assert(all_proper(Seq::empty()));
    if add {
        lemma_push_proper(udta.children(), empty_box(ILST));
        lemma_found_push(udta.children(), empty_box(ILST), MVHD);
        assert(found_in(Seq::empty(), MVHD) is None);
        assert(found(empty_box(ILST), MVHD) is None);
    }
    assert(proper(start));
    assert(start.kind() == UDTA);
    assert(found(start, MVHD) == found(udta, MVHD));
    let ilst = found(start, ILST)->0;
    lemma_found_kind(start, ILST);
    lemma_with_lyrics(ilst, lyrics);
    lemma_replaced_found(start, ILST, edit);
    lemma_replaced_proper(start, ILST, edit);
    if plain_lyrics(ilst) {
        lemma_leaf_alone(start, MVHD, ILST);
        lemma_others_found(start, ILST, MVHD, edit);
    }
}

/// A box that is no container has nothing in it.
proof fn lemma_leaf_alone(node: Node, kind: u32, other: u32)
    requires
        proper(node),
        !container(kind),
        other != kind,
    ensures
        found(node, kind) matches Some(y) ==> found(y, other) is None,
{
    lemma_found_kind(node, kind);
}

/// Whether the metadata of a `moov` box do not stand in the way of lyrics: the first `ilst` box
/// has no `udta` box in it, and no lyrics tag hides a movie header.
pub open spec fn tidy(moov: Node) -> bool {
    &&& found(moov, ILST) matches Some(ilst) ==> found(ilst, UDTA) is None
    &&& target_ilst(moov) matches Some(ilst) ==> plain_lyrics(ilst)
}

/// A `moov` box with a `udta` box in it is still a proper one and says the same.
#[verifier::spinoff_prover]
#[verifier::rlimit(40)]
proof fn lemma_with_udta(moov: Node)
    requires
        proper(moov),
        moov.kind() == MOOV,
    ensures
        proper(with_udta(moov)),
        with_udta(moov).kind() == MOOV,
        found(with_udta(moov), UDTA) is Some,
        found(with_udta(moov), MVHD) == found(moov, MVHD),
        found(moov, UDTA) is Some ==> with_udta(moov) == moov,
        found(moov, UDTA) is None ==> (found(moov, ILST) is Some && found(with_udta(moov), ILST)
            == found(moov, ILST)) || (found(moov, ILST) is None && found(with_udta(moov), ILST)
            == Some(empty_box(ILST))),
{
    if found(moov, UDTA) is None {
        let children = moov.children();
        let inside = seq![empty_box(ILST)];
        let udta = Node::Container { kind: UDTA, children: inside };
        let none = Seq::<Node>::empty();
        assert(all_proper(none));
        assert(proper(empty_box(ILST)));
        lemma_all_proper(inside);
        lemma_push_proper(children, udta);
        lemma_found_push(children, udta, UDTA);
        lemma_found_push(children, udta, MVHD);
        lemma_found_push(children, udta, ILST);
        assert(inside.subrange(1, 1) =~= none);
        assert(found_in(none, MVHD) is None);
        assert(found(inside[0], MVHD) is None);
        assert(found_in(inside, MVHD) is None);
        assert(found(udta, MVHD) is None);
        assert(found(inside[0], ILST) == Some(empty_box(ILST)));
        assert(found_in(inside, ILST) == Some(empty_box(ILST)));
        assert(found(udta, ILST) == Some(empty_box(ILST)));
    }
}

/// A `moov` box with lyrics in it is still a proper one, and holds them where they are looked for.
pub proof fn lemma_new_moov(moov: Node, lyrics: Seq<char>)
    requires
        proper(moov),
        moov.kind() == MOOV,
        target_ilst(moov) is Some,
    ensures
        proper(new_moov(moov, lyrics)),
        new_moov(moov, lyrics).kind() == MOOV,
        found(new_moov(moov, lyrics), UDTA) is Some,
        found(found(new_moov(moov, lyrics), UDTA)->0, ILST) == Some(
            with_lyrics(target_ilst(moov)->0, lyrics),
        ),
        found(new_moov(moov, lyrics), ILST) is Some,
        proper(target_ilst(moov)->0),
        target_ilst(moov)->0.kind() == ILST,
{
    let start = with_udta(moov);
    let add = lacks_ilst(moov);
    let udta = found(start, UDTA)->0;
    let edit = |n: Node| with_user_lyrics(n, add, lyrics);
    let new = new_moov(moov, lyrics);
    lemma_with_udta(moov);
    lemma_found_kind(start, UDTA);
    lemma_user_lyrics(udta, add, lyrics);
    lemma_replaced_found(start, UDTA, edit);
    lemma_replaced_proper(start, UDTA, edit);
    if found(new, ILST) is None {
        lemma_found_within(new, UDTA, ILST);
    }
}

/// A `moov` box with lyrics in it says the same of the track.
#[verifier::spinoff_prover]
#[verifier::rlimit(40)]
proof fn lemma_movie_kept(moov: Node, lyrics: Seq<char>, filepath: Seq<char>)
    requires
        proper(moov),
        moov.kind() == MOOV,
        target_ilst(moov) is Some,
        tidy(moov),
    ensures
        movie_track(new_moov(moov, lyrics), filepath) == movie_track(moov, filepath),
{
    let start = with_udta(moov);
    let add = lacks_ilst(moov);
    let udta = found(start, UDTA)->0;
    let ilst = target_ilst(moov)->0;
    let edit = |n: Node| with_user_lyrics(n, add, lyrics);
    let new = new_moov(moov, lyrics);
    lemma_with_udta(moov);
    lemma_found_kind(start, UDTA);
    lemma_user_lyrics(udta, add, lyrics);
    lemma_leaf_alone(start, MVHD, UDTA);
    lemma_others_found(start, UDTA, MVHD, edit);
    assert(found(new, MVHD) == found(moov, MVHD));
    let track = Track { duration: movie_duration(moov) as u32, ..blank(filepath) };
    assert(found(empty_box(ILST), UDTA) is None) by {
        assert(found_in(Seq::empty(), UDTA) is None);
    }
    lemma_other_or_new(start, UDTA, ILST, edit);
    lemma_told_kept(track, ilst.children(), lyrics);
    assert(all_told(track, Seq::empty()) == track);
    lemma_found_kind(start, ILST);
    lemma_found_kind(moov, ILST);
    if add {
        lemma_found_within(start, UDTA, ILST);
        lemma_found_push(udta.children(), empty_box(ILST), ILST);
        assert(ilst == empty_box(ILST));
    }
}

/// The text of the first lyrics tag in an `ilst` box.
pub open spec fn lyrics_in(ilst: Node) -> Option<Seq<char>> {
    match place_of(ilst.children(), LYRICS) {
        Some(i) => tag_text(ilst.children()[i]),
        None => None,
    }
}

/// The lyrics of a file.
pub open spec fn lyrics_of(b: Seq<u8>) -> Option<Seq<char>> {
    match boxes_at(b, 0) {
        Outcome::Found(top) => match place_of(top, MOOV) {
            Some(i) => match target_ilst(top[i]) {
                Some(ilst) => lyrics_in(ilst),
                None => None,
            },
            None => None,
        },
        _ => None,
    }
}

pub proof fn lemma_place(list: Seq<Node>, kind: u32)
    ensures
        match place_of(list, kind) {
            Some(i) => 0 <= i < list.len() && list[i].kind() == kind && forall|j: int|
                0 <= j < i ==> (#[trigger] list[j]).kind() != kind,
            None => forall|j: int| 0 <= j < list.len() ==> (#[trigger] list[j]).kind() != kind,
        },
    decreases list.len(),
{
    if list.len() > 0 && list[0].kind() != kind {
        let rest = list.drop_first();
        lemma_place(rest, kind);
        assert forall|j: int|
            0 <= j < (match place_of(rest, kind) {
                Some(i) => i + 1,
                None => list.len() as int,
            }) implies (#[trigger] list[j]).kind() != kind by {
            if j > 0 {
                assert(rest[j - 1] == list[j]);
            }
        }
    }
}

/// The lyrics that are put into an `ilst` box are those that it holds.
proof fn lemma_lyrics_in(ilst: Node, lyrics: Seq<char>)
    requires
        ilst is Container,
    ensures
        lyrics.len() > 0 ==> lyrics_in(with_lyrics(ilst, lyrics)) == Some(lyrics),
        lyrics.len() > 0 ==> holds_lyrics(with_lyrics(ilst, lyrics)),
{
    broadcast use vstd::seq_lib::group_filter_ensures;

    let stays = |t: Node| t.kind() != LYRICS;
    let kept = ilst.children().filter(stays);
    let tag = text_tag(LYRICS, lyrics);
    let all = with_lyrics(ilst, lyrics).children();
    assert(all == kept.push(tag));
    lemma_tag_back(lyrics);
    lemma_place(all, LYRICS);
    assert(all[kept.len() as int] == tag);
    assert forall|j: int| 0 <= j < kept.len() implies (#[trigger] all[j]).kind() != LYRICS by {
        assert(all[j] == kept[j]);
        assert(stays(kept[j]));
    }
}

#[verifier::spinoff_prover]
#[verifier::rlimit(40)]
proof fn lemma_patched_lyrics(ilst: Node, delta: int)
    requires
        ilst is Container,
    ensures
        lyrics_in(patched(ilst, delta)) == lyrics_in(ilst),
        holds_lyrics(ilst) ==> holds_lyrics(patched(ilst, delta)),
{
    let children = ilst.children();
    let all = patched(ilst, delta).children();
    lemma_all_patched(children, delta);
    lemma_place(children, LYRICS);
    lemma_place(all, LYRICS);
    assert forall|i: int| 0 <= i < children.len() implies (#[trigger] all[i]).kind()
        == children[i].kind() && tag_text(all[i]) == tag_text(children[i]) by {
        lemma_patched_tag(children[i], delta);
    }
    if let Some(i) = place_of(children, LYRICS) {
        assert(all[i].kind() == LYRICS);
        if let Some(j) = place_of(all, LYRICS) {
            assert(children[j].kind() == LYRICS);
        }
    } else {
        if let Some(j) = place_of(all, LYRICS) {
            assert(children[j].kind() == LYRICS);
        }
    }
    if holds_lyrics(ilst) {
        let i = choose|i: int|
            0 <= i < children.len() && (#[trigger] children[i]).kind() == LYRICS && tag_text(
                children[i],
            ) is Some;
        assert(all[i].kind() == LYRICS);
    }
}

/// Moving chunk offsets keeps the size of a table.
proof fn lemma_table_len(kind: u32, payload: Seq<u8>, delta: int)
    ensures
        moved_table(kind, payload, delta).len() == payload.len(),
{
    if payload.len() >= 8 && delta != 0 {
        if kind == STCO {
            lemma_entries_len(payload, 0, entry_count(payload, 4), delta);
        } else if kind == CO64 {
            lemma_entries_len(payload, 0, entry_count(payload, 8), delta);
        }
    }
}

proof fn lemma_entries_len(payload: Seq<u8>, i: int, n: int, delta: int)
    ensures
        i <= n ==> moved_entries32(payload, i, n, delta).len() == 4 * (n - i),
        i <= n ==> moved_entries64(payload, i, n, delta).len() == 8 * (n - i),
    decreases n - i,
{
    if i < n {
        lemma_entries_len(payload, i + 1, n, delta);
    }
}

/// Moving chunk offsets keeps the size of a box.
proof fn lemma_patched_len(node: Node, delta: int)
    ensures
        bytes_of(patched(node, delta)).len() == bytes_of(node).len(),
    decreases node,
{
    match node {
        Node::Leaf { kind, payload } => {
            lemma_table_len(kind, payload, delta);
        },
        Node::Container { children, .. } => {
            lemma_all_patched_len(children, delta);
        },
    }
}

proof fn lemma_all_patched_len(list: Seq<Node>, delta: int)
    ensures
        all_bytes(all_patched(list, delta)).len() == all_bytes(list).len(),
    decreases list,
{
    let all = all_patched(list, delta);
    if list.len() > 0 {
        let rest = list.subrange(1, list.len() as int);
        lemma_patched_len(list[0], delta);
        lemma_all_patched_len(rest, delta);
        assert(all[0] == patched(list[0], delta));
        assert(all.subrange(1, all.len() as int) =~= all_patched(rest, delta));
    } else {
        assert(all =~= seq![]);
    }
}

/// The `moov` box of a file that was written.
pub open spec fn written_moov(top: Seq<Node>, i: int, lyrics: Seq<char>) -> Node {
    new_boxes(top, i, lyrics)[i]
}

/// What the `moov` box of a file that was written holds.
proof fn lemma_written_moov(top: Seq<Node>, i: int, lyrics: Seq<char>, filepath: Seq<char>)
    requires
        0 <= i < top.len(),
        proper(top[i]),
        top[i].kind() == MOOV,
        target_ilst(top[i]) is Some,
    ensures
        ({
            let moov = written_moov(top, i, lyrics);
            &&& proper(moov)
            &&& moov.kind() == MOOV
            &&& target_ilst(moov) is Some
            &&& lyrics.len() > 0 ==> lyrics_in(target_ilst(moov)->0) == Some(lyrics)
            &&& lyrics.len() > 0 ==> holds_lyrics(target_ilst(moov)->0)
            &&& tidy(top[i]) ==> movie_track(moov, filepath) == movie_track(top[i], filepath)
            &&& bytes_of(moov).len() == bytes_of(top[i]).len() + growth(top[i], lyrics)
        }),
{
    let plain = new_moov(top[i], lyrics);
    let delta = growth(top[i], lyrics);
    let ilst = target_ilst(top[i])->0;
    lemma_new_moov(top[i], lyrics);
    lemma_with_lyrics(ilst, lyrics);
    lemma_lyrics_in(ilst, lyrics);
    if tidy(top[i]) {
        lemma_movie_kept(top[i], lyrics, filepath);
    }
    if media_after(top, i) {
        let udta = found(plain, UDTA)->0;
        lemma_patched_found(plain, delta, UDTA);
        lemma_patched_found(plain, delta, ILST);
        lemma_patched_found(udta, delta, ILST);
        lemma_patched_proper(plain, delta);
        lemma_patched_movie(plain, delta, filepath);
        lemma_patched_lyrics(with_lyrics(ilst, lyrics), delta);
        lemma_patched_len(plain, delta);
    }
}

/// A file into which lyrics were written can be read and gives them back; its other metadata are
/// as before, and a further sync without `force` leaves it alone.
///
/// This holds as long as each box at the top of the file stays below 4 GiB, so that its size can
/// be told in 32 bits. Empty lyrics are not told from none.
#[verifier::spinoff_prover]
#[verifier::rlimit(40)]
pub proof fn law_mp4_read_back(
    b: Seq<u8>,
    lyrics: Seq<char>,
    force: bool,
    later: Seq<char>,
    filepath: Seq<char>,
)
    requires
        Mp4::editable(b, lyrics, force),
        Mp4::edited(b, lyrics, force) matches Ok(Some(_)),
        Mp4::edited(b, lyrics, force)->Ok_0->0.len() <= u64::MAX,
        ({
            let top = boxes_at(b, 0)->Found_0;
            all_small(new_boxes(top, place_of(top, MOOV)->0, lyrics))
        }),
    ensures
        ({
            let out = Mp4::edited(b, lyrics, force)->Ok_0->0;
            let top = boxes_at(b, 0)->Found_0;
            let i = place_of(top, MOOV)->0;
            &&& boxes_at(out, 0) == Outcome::Found(new_boxes(top, i, lyrics))
            &&& Mp4::readable(out)
            &&& lyrics.len() > 0 ==> lyrics_of(out) == Some(lyrics)
            &&& lyrics.len() > 0 ==> Mp4::editable(out, later, false) && Mp4::edited(
                out,
                later,
                false,
            ) == Ok::<Option<Seq<u8>>, Seq<char>>(None)
            &&& tidy(top[i]) ==> Mp4::metadata(out, filepath) == Mp4::metadata(b, filepath)
        }),
{
    let out = Mp4::edited(b, lyrics, force)->Ok_0->0;
    let top = boxes_at(b, 0)->Found_0;
    let i = place_of(top, MOOV)->0;
    let new = new_boxes(top, i, lyrics);
    lemma_boxes_proper(b, 0);
    lemma_place(top, MOOV);
    lemma_proper_at(top, i);
    lemma_written_moov(top, i, lyrics, filepath);
    assert forall|j: int| 0 <= j < new.len() implies proper(#[trigger] new[j]) by {
        if j != i {
            lemma_proper_at(top, j);
            assert(new[j] == top[j]);
        }
    }
    lemma_all_proper(new);
    law_boxes_round_trip(Seq::empty(), new);
    assert(Seq::<u8>::empty() + all_bytes(new) =~= out);
    lemma_place(new, MOOV);
    assert(place_of(new, MOOV) == Some(i)) by {
        assert(new[i].kind() == MOOV);
        if let Some(k) = place_of(new, MOOV) {
            if k < i {
                assert(new[k] == top[k]);
            }
        }
    }
}

proof fn lemma_bytes_split(list: Seq<Node>, i: int)
    requires
        0 <= i <= list.len(),
    ensures
        all_bytes(list) == all_bytes(list.take(i)) + all_bytes(list.skip(i)),
    decreases i,
{
    if i == 0 {
        assert(list.take(0) =~= seq![]);
        assert(list.skip(0) =~= list);
        assert(Seq::<u8>::empty() + all_bytes(list) =~= all_bytes(list));
    } else {
        let rest = list.subrange(1, list.len() as int);
        lemma_bytes_split(rest, i - 1);
        let part = list.take(i);
        assert(part[0] == list[0]);
        assert(part.subrange(1, part.len() as int) =~= rest.take(i - 1));
        assert(list.skip(i) =~= rest.skip(i - 1));
        let first = bytes_of(list[0]);
        assert(first + (all_bytes(rest.take(i - 1)) + all_bytes(rest.skip(i - 1))) =~= (first
            + all_bytes(rest.take(i - 1))) + all_bytes(rest.skip(i - 1)));
    }
}

/// Where box number `j` at the top of a file starts; behind the last box, where it ends.
pub open spec fn box_start(b: Seq<u8>, j: int) -> int
    decreases j,
{
    if j <= 0 {
        0
    } else {
        span_at(b, box_start(b, j - 1))->Found_0.end
    }
}

/// Where the payload of box number `j` at the top of a file starts.
pub open spec fn payload_start(b: Seq<u8>, j: int) -> int {
    span_at(b, box_start(b, j))->Found_0.from
}

/// Whether each of the first `n` boxes at the top of a file is as long as it is when it is written
/// again. A box with a 64-bit size is not, nor is a box with children that are lost.
pub open spec fn same_sizes(b: Seq<u8>, n: int) -> bool {
    let top = boxes_at(b, 0)->Found_0;
    forall|j: int|
        0 <= j < n ==> box_start(b, j + 1) - box_start(b, j) == bytes_of(#[trigger] top[j]).len()
}

/// The boxes from number `j` on are those that are read from where it starts.
proof fn lemma_boxes_from(b: Seq<u8>, j: int)
    requires
        boxes_at(b, 0) is Found,
        0 <= j <= boxes_at(b, 0)->Found_0.len(),
    ensures
        0 <= box_start(b, j) <= b.len(),
        boxes_at(b, box_start(b, j)) == Outcome::Found(boxes_at(b, 0)->Found_0.skip(j)),
    decreases j,
{
    let top = boxes_at(b, 0)->Found_0;
    if j == 0 {
        assert(top.skip(0) =~= top);
    } else {
        lemma_boxes_from(b, j - 1);
        let pos = box_start(b, j - 1);
        let here = top.skip(j - 1);
        assert(here.len() > 0);
        let span = span_at(b, pos)->Found_0;
        let rest = boxes_at(b, span.end)->Found_0;
        assert(here.subrange(1, here.len() as int) =~= rest);
        assert(top.skip(j) =~= rest);
    }
}

/// Box number `j`, where it stands.
proof fn lemma_box_here(b: Seq<u8>, j: int)
    requires
        boxes_at(b, 0) is Found,
        0 <= j < boxes_at(b, 0)->Found_0.len(),
    ensures
        ({
            let node = boxes_at(b, 0)->Found_0[j];
            let from = payload_start(b, j);
            let end = box_start(b, j + 1);
            &&& 0 <= box_start(b, j) < from <= end <= b.len()
            &&& node is Leaf ==> node->Leaf_payload == b.subrange(from, end)
        }),
{
    let top = boxes_at(b, 0)->Found_0;
    lemma_boxes_from(b, j);
    lemma_boxes_from(b, j + 1);
    assert(top.skip(j)[0] == top[j]);
    assert(top.skip(j).len() > 0);
}

/// Boxes that keep their lengths start where they are written.
proof fn lemma_start_kept(b: Seq<u8>, j: int)
    requires
        boxes_at(b, 0) is Found,
        0 <= j <= boxes_at(b, 0)->Found_0.len(),
        same_sizes(b, j),
    ensures
        box_start(b, j) == all_bytes(boxes_at(b, 0)->Found_0.take(j)).len(),
    decreases j,
{
    let top = boxes_at(b, 0)->Found_0;
    if j == 0 {
        assert(top.take(0) =~= seq![]);
    } else {
        lemma_start_kept(b, j - 1);
        lemma_bytes_split(top.take(j), j - 1);
        assert(top.take(j).take(j - 1) =~= top.take(j - 1));
        lemma_single_bytes(top.take(j).skip(j - 1));
        assert(top.take(j).skip(j - 1)[0] == top[j - 1]);
    }
}

proof fn lemma_single_bytes(list: Seq<Node>)
    requires
        list.len() == 1,
    ensures
        all_bytes(list) == bytes_of(list[0]),
{
    let rest = list.subrange(1, 1);
    assert(rest =~= seq![]);
    assert(all_bytes(rest) =~= seq![]);
    assert(all_bytes(list) =~= bytes_of(list[0]));
}

/// With one box replaced, the bytes are as many more as that box has more.
proof fn lemma_update_len(list: Seq<Node>, i: int, node: Node)
    requires
        0 <= i < list.len(),
    ensures
        all_bytes(list.update(i, node)).len() == all_bytes(list).len() - bytes_of(list[i]).len()
            + bytes_of(node).len(),
    decreases list.len(),
{
    let new = list.update(i, node);
    let rest = list.subrange(1, list.len() as int);
    let new_rest = new.subrange(1, new.len() as int);
    if i == 0 {
        assert(new_rest =~= rest);
    } else {
        lemma_update_len(rest, i - 1, node);
        assert(new_rest =~= rest.update(i - 1, node));
    }
}

/// The media keep their place: the payload of a box before `moov` stays where it is, and that of a
/// box after it moves by as much as the `moov` box grows. So a chunk offset into an `mdat` box
/// before `moov` stays right, and one into an `mdat` box after it is right again once it has moved
/// by that much.
///
/// This is said of box number `k`, which has no children, where it and the boxes before it keep
/// their lengths. It may be a last box whose size is left open, and the flags of a `meta` box in
/// `moov` may be set.
#[verifier::spinoff_prover]
#[verifier::rlimit(40)]
pub proof fn law_mp4_media_kept(b: Seq<u8>, lyrics: Seq<char>, force: bool, k: int)
    requires
        Mp4::editable(b, lyrics, force),
        Mp4::edited(b, lyrics, force) matches Ok(Some(_)),
        0 <= k < boxes_at(b, 0)->Found_0.len(),
        boxes_at(b, 0)->Found_0[k] is Leaf,
        same_sizes(b, k + 1),
    ensures
        ({
            let out = Mp4::edited(b, lyrics, force)->Ok_0->0;
            let top = boxes_at(b, 0)->Found_0;
            let i = place_of(top, MOOV)->0;
            let shift = if k < i {
                0
            } else {
                growth(top[i], lyrics)
            };
            let from = payload_start(b, k);
            let end = box_start(b, k + 1);
            &&& 0 <= from <= end <= b.len()
            &&& 0 <= from + shift
            &&& end + shift <= out.len()
            &&& top[k] == Node::Leaf { kind: top[k].kind(), payload: b.subrange(from, end) }
            &&& out.subrange(from + shift, end + shift) == b.subrange(from, end)
        }),
{
    let out = Mp4::edited(b, lyrics, force)->Ok_0->0;
    let top = boxes_at(b, 0)->Found_0;
    let i = place_of(top, MOOV)->0;
    let new = new_boxes(top, i, lyrics);
    let delta = growth(top[i], lyrics);
    lemma_boxes_proper(b, 0);
    lemma_place(top, MOOV);
    lemma_proper_at(top, i);
    lemma_proper_at(top, k);
    lemma_written_moov(top, i, lyrics, seq![]);
    lemma_box_here(b, k);
    lemma_start_kept(b, k);
    let start = box_start(b, k);
    let from = payload_start(b, k);
    let end = box_start(b, k + 1);
    let payload = b.subrange(from, end);
    let bytes = boxed(top[k].kind(), payload);
    assert(bytes_of(top[k]) == bytes);
    assert(from == start + 8);
    assert(k != i);
    let shift = if k < i {
        0
    } else {
        delta
    };
    let head = all_bytes(new.take(k));
    if k < i {
        assert(new.take(k) =~= top.take(k));
    } else {
        lemma_update_len(top.take(k), i, new[i]);
        assert(new.take(k) =~= top.take(k).update(i, new[i]));
    }
    assert(head.len() == start + shift);
    lemma_bytes_split(new, k);
    let tail = new.skip(k);
    assert(tail[0] == top[k]);
    let last = all_bytes(tail.subrange(1, tail.len() as int));
    assert(out == head + (bytes + last));
    assert(out.subrange(from + shift, end + shift) =~= payload);
}

/// Boxes keep their lengths in a file that holds them as this library writes them, with sizes that
/// fit in 32 bits.
pub proof fn law_written_sizes(list: Seq<Node>)
    requires
        all_proper(list),
        all_small(list),
        all_bytes(list).len() <= u64::MAX,
    ensures
        boxes_at(all_bytes(list), 0) == Outcome::Found(list),
        same_sizes(all_bytes(list), list.len() as int),
{
    let b = all_bytes(list);
    law_boxes_round_trip(Seq::empty(), list);
    assert(Seq::<u8>::empty() + b =~= b);
    assert forall|j: int| 0 <= j < list.len() implies box_start(b, j + 1) - box_start(b, j)
        == bytes_of(#[trigger] list[j]).len() by {
        lemma_written_start(list, j);
        lemma_written_start(list, j + 1);
        lemma_bytes_split(list.take(j + 1), j);
        assert(list.take(j + 1).take(j) =~= list.take(j));
        lemma_single_bytes(list.take(j + 1).skip(j));
        assert(list.take(j + 1).skip(j)[0] == list[j]);
    }
}

#[verifier::spinoff_prover]
#[verifier::rlimit(40)]
proof fn lemma_written_start(list: Seq<Node>, j: int)
    requires
        all_small(list),
        all_bytes(list).len() <= u64::MAX,
        0 <= j <= list.len(),
    ensures
        box_start(all_bytes(list), j) == all_bytes(list.take(j)).len(),
    decreases j,
{
    let b = all_bytes(list);
    if j == 0 {
        assert(list.take(0) =~= seq![]);
    } else {
        lemma_written_start(list, j - 1);
        let node = list[j - 1];
        let head = all_bytes(list.take(j - 1));
        let last = all_bytes(list.skip(j));
        let payload = match node {
            Node::Leaf { kind, payload } => framed(kind, payload),
            Node::Container { kind, children } => framed(kind, all_bytes(children)),
        };
        let bytes = boxed(node.kind(), payload);
        assert(bytes_of(node) == bytes);
        lemma_bytes_split(list, j);
        lemma_bytes_split(list.take(j), j - 1);
        assert(list.take(j).take(j - 1) =~= list.take(j - 1));
        lemma_single_bytes(list.take(j).skip(j - 1));
        assert(list.take(j).skip(j - 1)[0] == node);
        assert(b == head + bytes + last);
        assert(bytes.len() == 8 + payload.len());
        lemma_span_back(head, node.kind(), payload, last);
    }
}

/// Everything before and after the `moov` box stays as it is, box headers and all, and what comes
/// after it moves by as much as the `moov` box grows.
///
/// This holds for a file whose boxes are written as this library writes them: with 32-bit sizes
/// that are not left open, and with zero flags in `meta` boxes.
#[verifier::spinoff_prover]
#[verifier::rlimit(40)]
pub proof fn law_mp4_rest_kept(b: Seq<u8>, lyrics: Seq<char>, force: bool)
    requires
        Mp4::editable(b, lyrics, force),
        Mp4::edited(b, lyrics, force) matches Ok(Some(_)),
        all_bytes(boxes_at(b, 0)->Found_0) == b,
    ensures
        ({
            let out = Mp4::edited(b, lyrics, force)->Ok_0->0;
            let top = boxes_at(b, 0)->Found_0;
            let i = place_of(top, MOOV)->0;
            let start = all_bytes(top.take(i)).len() as int;
            let end = start + bytes_of(top[i]).len();
            let delta = growth(top[i], lyrics);
            &&& 0 <= start <= end <= b.len()
            &&& out.len() == b.len() + delta
            &&& forall|v: int| 0 <= v < start ==> #[trigger] out[v] == b[v]
            &&& forall|v: int| end <= v < b.len() ==> out[v + delta] == #[trigger] b[v]
            &&& written_moov(top, i, lyrics) == (if media_after(top, i) {
                patched(new_moov(top[i], lyrics), delta)
            } else {
                new_moov(top[i], lyrics)
            })
        }),
{
    let out = Mp4::edited(b, lyrics, force)->Ok_0->0;
    let top = boxes_at(b, 0)->Found_0;
    let i = place_of(top, MOOV)->0;
    let new = new_boxes(top, i, lyrics);
    let delta = growth(top[i], lyrics);
    lemma_boxes_proper(b, 0);
    lemma_place(top, MOOV);
    lemma_proper_at(top, i);
    lemma_written_moov(top, i, lyrics, seq![]);
    lemma_bytes_split(top, i);
    lemma_bytes_split(new, i);
    assert(new.take(i) =~= top.take(i));
    let old_tail = top.skip(i);
    let new_tail = new.skip(i);
    assert(old_tail[0] == top[i]);
    assert(new_tail[0] == new[i]);
    let rest = top.skip(i + 1);
    assert(old_tail.subrange(1, old_tail.len() as int) =~= rest);
    assert(new_tail.subrange(1, new_tail.len() as int) =~= rest);
    let head = all_bytes(top.take(i));
    let last = all_bytes(rest);
    assert(b == head + (bytes_of(top[i]) + last));
    assert(out == head + (bytes_of(new[i]) + last));
    let end = (head.len() + bytes_of(top[i]).len()) as int;
    assert forall|v: int| end <= v < b.len() implies out[v + delta] == #[trigger] b[v] by {
        assert(b[v] == last[v - end]);
        assert(out[v + delta] == last[v - end]);
    }
}

proof fn lemma_entry32(payload: Seq<u8>, i: int, n: int, delta: int, j: int)
    requires
        0 <= i <= j < n,
        8 + 4 * n <= payload.len(),
    ensures
        moved_entries32(payload, i, n, delta).subrange(4 * (j - i), 4 * (j - i) + 4) == be32_bytes(
            moved32(be32(payload, 8 + 4 * j), delta),
        ),
    decreases n - i,
{
    let all = moved_entries32(payload, i, n, delta);
    let first = be32_bytes(moved32(be32(payload, 8 + 4 * i), delta));
    let rest = moved_entries32(payload, i + 1, n, delta);
    lemma_entries_len(payload, i, n, delta);
    lemma_entries_len(payload, i + 1, n, delta);
    assert(all == first + rest);
    if i == j {
        assert(all.subrange(0, 4) =~= first);
    } else {
        lemma_entry32(payload, i + 1, n, delta, j);
        assert(all.subrange(4 * (j - i), 4 * (j - i) + 4) =~= rest.subrange(
            4 * (j - i - 1),
            4 * (j - i - 1) + 4,
        ));
    }
}

/// Each chunk offset in an `stco` table moves by `delta`, as far as it stays a 32-bit number; the
/// number of entries stays.
#[verifier::spinoff_prover]
#[verifier::rlimit(40)]
pub proof fn law_chunk_offset_moves(payload: Seq<u8>, delta: int, j: int)
    requires
        payload.len() >= 8,
        0 <= j < entry_count(payload, 4),
        0 <= be32(payload, 8 + 4 * j) + delta < 0x1_0000_0000,
    ensures
        be32(moved_table(STCO, payload, delta), 8 + 4 * j) == be32(payload, 8 + 4 * j) + delta,
        entry_count(moved_table(STCO, payload, delta), 4) == entry_count(payload, 4),
{
    let n = entry_count(payload, 4);
    let all = moved_entries32(payload, 0, n, delta);
    let new = moved_table(STCO, payload, delta);
    let value = be32(payload, 8 + 4 * j) + delta;
    let at = 8 + 4 * j;
    lemma_table_len(STCO, payload, delta);
    if delta != 0 {
        lemma_entries_len(payload, 0, n, delta);
        let head = payload.subrange(0, 8);
        let tail = payload.subrange(8 + 4 * n, payload.len() as int);
        assert(new == head + all + tail);
        assert(be32(new, at) == value) by {
            let part = all.subrange(4 * j, 4 * j + 4);
            lemma_entry32(payload, 0, n, delta, j);
            assert(moved32(be32(payload, at), delta) == value);
            crate::bytes::lemma_be32_round_trip(value);
            assert(new[at] == part[0] && new[at + 1] == part[1] && new[at + 2] == part[2] && new[at
                + 3] == part[3]);
            crate::bytes::lemma_be32_same(new, at, part, 0);
        }
        assert(be32(new, 4) == be32(payload, 4)) by {
            assert(new[4] == head[4] && new[5] == head[5] && new[6] == head[6] && new[7] == head[7]);
            crate::bytes::lemma_be32_same(new, 4, payload, 4);
        }
    }
}

proof fn lemma_entry64(payload: Seq<u8>, i: int, n: int, delta: int, j: int)
    requires
        0 <= i <= j < n,
        8 + 8 * n <= payload.len(),
    ensures
        moved_entries64(payload, i, n, delta).subrange(8 * (j - i), 8 * (j - i) + 8) == be64_bytes(
            moved64(be64(payload, 8 + 8 * j), delta),
        ),
    decreases n - i,
{
    let all = moved_entries64(payload, i, n, delta);
    let first = be64_bytes(moved64(be64(payload, 8 + 8 * i), delta));
    let rest = moved_entries64(payload, i + 1, n, delta);
    lemma_entries_len(payload, i, n, delta);
    lemma_entries_len(payload, i + 1, n, delta);
    assert(all == first + rest);
    if i == j {
        assert(all.subrange(0, 8) =~= first);
    } else {
        lemma_entry64(payload, i + 1, n, delta, j);
        assert(all.subrange(8 * (j - i), 8 * (j - i) + 8) =~= rest.subrange(
            8 * (j - i - 1),
            8 * (j - i - 1) + 8,
        ));
    }
}

/// Each chunk offset in a `co64` table moves by `delta`, as far as it stays below 2^63; the
/// number of entries stays.
#[verifier::spinoff_prover]
#[verifier::rlimit(60)]
pub proof fn law_large_chunk_offset_moves(payload: Seq<u8>, delta: int, j: int)
    requires
        payload.len() >= 8,
        0 <= j < entry_count(payload, 8),
        be64(payload, 8 + 8 * j) < 0x8000_0000_0000_0000,
        0 <= be64(payload, 8 + 8 * j) + delta < 0x8000_0000_0000_0000,
    ensures
        be64(moved_table(CO64, payload, delta), 8 + 8 * j) == be64(payload, 8 + 8 * j) + delta,
        entry_count(moved_table(CO64, payload, delta), 8) == entry_count(payload, 8),
{
    let n = entry_count(payload, 8);
    let all = moved_entries64(payload, 0, n, delta);
    let new = moved_table(CO64, payload, delta);
    let at = 8 + 8 * j;
    let value = be64(payload, at) + delta;
    lemma_table_len(CO64, payload, delta);
    if delta != 0 {
        lemma_entries_len(payload, 0, n, delta);
        let head = payload.subrange(0, 8);
        let tail = payload.subrange(8 + 8 * n, payload.len() as int);
        assert(new == head + all + tail);
        assert(be64(new, at) == value) by {
            let part = all.subrange(8 * j, 8 * j + 8);
            lemma_entry64(payload, 0, n, delta, j);
            assert(moved64(be64(payload, at), delta) == value);
            crate::bytes::lemma_be64_round_trip(value);
            assert forall|k: int| 0 <= k < 8 implies #[trigger] part[k] == new[at + k] by {}
            assert(new[at] == part[0] && new[at + 1] == part[1] && new[at + 2] == part[2] && new[at
                + 3] == part[3]);
            assert(new[at + 4] == part[4] && new[at + 5] == part[5] && new[at + 6] == part[6]
                && new[at + 7] == part[7]);
            crate::bytes::lemma_be32_same(new, at, part, 0);
            crate::bytes::lemma_be32_same(new, at + 4, part, 4);
        }
        assert(be32(new, 4) == be32(payload, 4)) by {
            assert(new[4] == head[4] && new[5] == head[5] && new[6] == head[6] && new[7] == head[7]);
            crate::bytes::lemma_be32_same(new, 4, payload, 4);
        }
    }
}

/// The chunk offset tables in a box, in order, each with its type.
pub open spec fn tables(node: Node) -> Seq<(u32, Seq<u8>)>
    decreases node,
{
    match node {
        Node::Leaf { kind, payload } => if kind == STCO || kind == CO64 {
            seq![(kind, payload)]
        } else {
            seq![]
        },
        Node::Container { children, .. } => all_tables(children),
    }
}

/// The chunk offset tables in boxes.
pub open spec fn all_tables(list: Seq<Node>) -> Seq<(u32, Seq<u8>)>
    decreases list,
{
    if list.len() == 0 {
        seq![]
    } else {
        tables(list[0]) + all_tables(list.subrange(1, list.len() as int))
    }
}

/// A chunk offset table with its type, its entries moved by `delta`.
pub open spec fn moved_pair(t: (u32, Seq<u8>), delta: int) -> (u32, Seq<u8>) {
    (t.0, moved_table(t.0, t.1, delta))
}

/// The number of entries of a chunk offset table.
pub open spec fn chunk_count(t: (u32, Seq<u8>)) -> int {
    entry_count(
        t.1,
        if t.0 == STCO {
            4
        } else {
            8
        },
    )
}

/// Entry `j` of a chunk offset table.
pub open spec fn chunk_offset(t: (u32, Seq<u8>), j: int) -> int {
    if t.0 == STCO {
        be32(t.1, 8 + 4 * j)
    } else {
        be64(t.1, 8 + 8 * j)
    }
}

/// One more than the largest chunk offset that can be moved to.
pub open spec fn chunk_bound(t: (u32, Seq<u8>)) -> int {
    if t.0 == STCO {
        0x1_0000_0000
    } else {
        0x8000_0000_0000_0000
    }
}

proof fn lemma_tables_push(list: Seq<Node>, child: Node)
    ensures
        all_tables(list.push(child)) == all_tables(list) + tables(child),
    decreases list.len(),
{
    let all = list.push(child);
    let tail = all.subrange(1, all.len() as int);
    if list.len() == 0 {
        assert(tail =~= seq![]);
        assert(all_tables(tail) =~= seq![]);
        assert(all_tables(all) =~= all_tables(list) + tables(child));
    } else {
        let rest = list.subrange(1, list.len() as int);
        assert(tail =~= rest.push(child));
        lemma_tables_push(rest, child);
        assert(all_tables(all) =~= all_tables(list) + tables(child));
    }
}

/// The tables in a patched box are the old ones with their entries moved.
proof fn lemma_patched_tables(node: Node, delta: int)
    ensures
        tables(patched(node, delta)) == tables(node).map_values(
            |t: (u32, Seq<u8>)| moved_pair(t, delta),
        ),
    decreases node,
{
    let f = |t: (u32, Seq<u8>)| moved_pair(t, delta);
    match node {
        Node::Leaf { kind, payload } => {
            assert(tables(patched(node, delta)) =~= tables(node).map_values(f));
        },
        Node::Container { children, .. } => {
            lemma_all_patched_tables(children, delta);
        },
    }
}

proof fn lemma_all_patched_tables(list: Seq<Node>, delta: int)
    ensures
        all_tables(all_patched(list, delta)) == all_tables(list).map_values(
            |t: (u32, Seq<u8>)| moved_pair(t, delta),
        ),
    decreases list,
{
    let f = |t: (u32, Seq<u8>)| moved_pair(t, delta);
    let all = all_patched(list, delta);
    if list.len() == 0 {
        assert(all_tables(all) =~= all_tables(list).map_values(f));
    } else {
        let rest = list.subrange(1, list.len() as int);
        lemma_patched_tables(list[0], delta);
        lemma_all_patched_tables(rest, delta);
        assert(all.subrange(1, all.len() as int) =~= all_patched(rest, delta));
        assert(all_tables(all) =~= all_tables(list).map_values(f));
    }
}

/// Where the replacement holds the same tables, so does the whole.
proof fn lemma_replaced_tables(node: Node, target: u32, edit: spec_fn(Node) -> Node)
    requires
        found(node, target) is Some,
        tables(edit(found(node, target)->0)) == tables(found(node, target)->0),
    ensures
        tables(replaced(node, target, edit)) == tables(node),
    decreases node,
{
    if node.kind() != target {
        if let Node::Container { children, .. } = node {
            lemma_replaced_in_tables(children, target, edit);
        }
    }
}

proof fn lemma_replaced_in_tables(list: Seq<Node>, target: u32, edit: spec_fn(Node) -> Node)
    requires
        found_in(list, target) is Some,
        tables(edit(found_in(list, target)->0)) == tables(found_in(list, target)->0),
    ensures
        all_tables(replaced_in(list, target, edit)) == all_tables(list),
    decreases list,
{
    if list.len() > 0 {
        let rest = list.subrange(1, list.len() as int);
        let new = replaced_in(list, target, edit);
        if found(list[0], target) is Some {
            lemma_replaced_tables(list[0], target, edit);
            assert(new.subrange(1, new.len() as int) =~= rest);
        } else {
            lemma_replaced_in_tables(rest, target, edit);
            assert(new.subrange(1, new.len() as int) =~= replaced_in(rest, target, edit));
        }
    }
}

proof fn lemma_filter_tables(list: Seq<Node>, stays: spec_fn(Node) -> bool)
    requires
        forall|i: int|
            0 <= i < list.len() && !stays(#[trigger] list[i]) ==> tables(list[i]).len() == 0,
    ensures
        all_tables(list.filter(stays)) == all_tables(list),
    decreases list.len(),
{
    reveal(Seq::filter);
    if list.len() > 0 {
        let part = list.drop_last();
        assert forall|i: int| 0 <= i < part.len() && !stays(#[trigger] part[i]) implies tables(
            part[i],
        ).len() == 0 by {
            assert(part[i] == list[i]);
        }
        lemma_filter_tables(part, stays);
        lemma_tables_push(part, list.last());
        lemma_tables_push(part.filter(stays), list.last());
        assert(part.push(list.last()) =~= list);
        assert(list[list.len() - 1] == list.last());
        if !stays(list.last()) {
            assert(all_tables(part) + tables(list.last()) =~= all_tables(part));
        }
    }
}

/// Whether none of the lyrics tags in an `ilst` box hides a chunk offset table.
pub open spec fn tables_apart(ilst: Node) -> bool {
    forall|i: int|
        0 <= i < ilst.children().len() && (#[trigger] ilst.children()[i]).kind() == LYRICS
            ==> tables(ilst.children()[i]).len() == 0
}

proof fn lemma_lyrics_tables(ilst: Node, lyrics: Seq<char>)
    requires
        tables_apart(ilst),
    ensures
        tables(with_lyrics(ilst, lyrics)) == tables(ilst),
{
    if let Node::Container { children, .. } = ilst {
        let stays = |t: Node| t.kind() != LYRICS;
        let tag = text_tag(LYRICS, lyrics);
        let inside = tag.children();
        assert forall|i: int| 0 <= i < children.len() && !stays(#[trigger] children[i]) implies tables(
            children[i],
        ).len() == 0 by {
            assert(ilst.children()[i] == children[i]);
        }
        lemma_filter_tables(children, stays);
        lemma_tables_push(children.filter(stays), tag);
        assert(inside.subrange(1, 1) =~= seq![]);
        assert(all_tables(inside.subrange(1, 1)) =~= seq![]);
        assert(tables(inside[0]) =~= seq![]);
        assert(tables(tag) =~= seq![]);
        assert(all_tables(children) + tables(tag) =~= all_tables(children));
    }
}

proof fn lemma_child_tables(node: Node, child: Node)
    requires
        tables(child).len() == 0,
    ensures
        tables(with_child(node, child)) == tables(node),
{
    if let Node::Container { children, .. } = node {
        lemma_tables_push(children, child);
        assert(all_tables(children) + tables(child) =~= all_tables(children));
    }
}

/// A `moov` box with lyrics in it has the same chunk offset tables.
#[verifier::spinoff_prover]
#[verifier::rlimit(40)]
proof fn lemma_moov_tables(moov: Node, lyrics: Seq<char>)
    requires
        target_ilst(moov) is Some,
        tables_apart(target_ilst(moov)->0),
    ensures
        tables(new_moov(moov, lyrics)) == tables(moov),
{
    let start = with_udta(moov);
    let add = lacks_ilst(moov);
    let udta = found(start, UDTA)->0;
    let inner_edit = |n: Node| with_lyrics(n, lyrics);
    let edit = |n: Node| with_user_lyrics(n, add, lyrics);
    let none = Seq::<Node>::empty();
    let inside = seq![empty_box(ILST)];
    assert(all_tables(none) =~= seq![]);
    assert(tables(empty_box(ILST)) =~= seq![]);
    assert(inside.subrange(1, 1) =~= none);
    assert(all_tables(inside) =~= seq![]);
    lemma_child_tables(moov, Node::Container { kind: UDTA, children: inside });
    lemma_child_tables(udta, empty_box(ILST));
    let target = if add {
        with_child(udta, empty_box(ILST))
    } else {
        udta
    };
    lemma_lyrics_tables(target_ilst(moov)->0, lyrics);
    lemma_replaced_tables(target, ILST, inner_edit);
    lemma_replaced_tables(start, UDTA, edit);
}

/// Every chunk is found again: what a chunk offset in the new file points at is what the old one
/// pointed at. This goes for chunks after a `moov` box that is followed by media, whose offsets
/// move, and for chunks before a `moov` box that is not, whose offsets stay.
///
/// As in the law on media, box number `k`, into which the chunk offset points, and the boxes before
/// it keep their lengths. The new offset has to fit, and the lyrics tags that are replaced hold no
/// tables.
#[verifier::spinoff_prover]
#[verifier::rlimit(40)]
pub proof fn law_chunks_found_again(
    b: Seq<u8>,
    lyrics: Seq<char>,
    force: bool,
    t: int,
    j: int,
    k: int,
)
    requires
        Mp4::editable(b, lyrics, force),
        Mp4::edited(b, lyrics, force) matches Ok(Some(_)),
        0 <= k < boxes_at(b, 0)->Found_0.len(),
        boxes_at(b, 0)->Found_0[k] is Leaf,
        same_sizes(b, k + 1),
        ({
            let top = boxes_at(b, 0)->Found_0;
            let i = place_of(top, MOOV)->0;
            let table = tables(top[i])[t];
            let v = chunk_offset(table, j);
            &&& tables_apart(target_ilst(top[i])->0)
            &&& 0 <= t < tables(top[i]).len()
            &&& table.1.len() >= 8
            &&& 0 <= j < chunk_count(table)
            &&& payload_start(b, k) <= v < box_start(b, k + 1)
            &&& if media_after(top, i) {
                k > i && v < chunk_bound(table) && v + growth(top[i], lyrics) < chunk_bound(table)
            } else {
                k < i
            }
        }),
    ensures
        ({
            let out = Mp4::edited(b, lyrics, force)->Ok_0->0;
            let top = boxes_at(b, 0)->Found_0;
            let i = place_of(top, MOOV)->0;
            let old_table = tables(top[i])[t];
            let new_table = tables(written_moov(top, i, lyrics))[t];
            &&& tables(written_moov(top, i, lyrics)).len() == tables(top[i]).len()
            &&& chunk_count(new_table) == chunk_count(old_table)
            &&& 0 <= chunk_offset(new_table, j) < out.len()
            &&& out[chunk_offset(new_table, j)] == b[chunk_offset(old_table, j)]
        }),
{
    let out = Mp4::edited(b, lyrics, force)->Ok_0->0;
    let top = boxes_at(b, 0)->Found_0;
    let i = place_of(top, MOOV)->0;
    let delta = growth(top[i], lyrics);
    let table = tables(top[i])[t];
    let v = chunk_offset(table, j);
    let from = payload_start(b, k);
    let end = box_start(b, k + 1);
    let shift = if k < i {
        0
    } else {
        delta
    };
    law_mp4_media_kept(b, lyrics, force, k);
    assert(out[v + shift] == b[v]) by {
        assert(out.subrange(from + shift, end + shift)[v - from] == out[v + shift]);
        assert(b.subrange(from, end)[v - from] == b[v]);
    }
    lemma_place(top, MOOV);
    lemma_written_entry(top, i, lyrics, t, j);
}

/// The tables of the written `moov` box, and entry `j` of table `t` in it: it moves where media
/// follow, and stays where none do.
proof fn lemma_written_entry(top: Seq<Node>, i: int, lyrics: Seq<char>, t: int, j: int)
    requires
        0 <= i < top.len(),
        target_ilst(top[i]) is Some,
        tables_apart(target_ilst(top[i])->0),
        0 <= t < tables(top[i]).len(),
        tables(top[i])[t].1.len() >= 8,
        0 <= j < chunk_count(tables(top[i])[t]),
        media_after(top, i) ==> {
            let table = tables(top[i])[t];
            let v = chunk_offset(table, j);
            v < chunk_bound(table) && 0 <= v + growth(top[i], lyrics) < chunk_bound(table)
        },
    ensures
        ({
            let old_table = tables(top[i])[t];
            let new_table = tables(written_moov(top, i, lyrics))[t];
            &&& tables(written_moov(top, i, lyrics)).len() == tables(top[i]).len()
            &&& chunk_count(new_table) == chunk_count(old_table)
            &&& chunk_offset(new_table, j) == chunk_offset(old_table, j) + (if media_after(top, i) {
                growth(top[i], lyrics)
            } else {
                0
            })
        }),
{
    let delta = growth(top[i], lyrics);
    let table = tables(top[i])[t];
    lemma_moov_tables(top[i], lyrics);
    if media_after(top, i) {
        lemma_patched_tables(new_moov(top[i], lyrics), delta);
        lemma_table_kinds(top[i], t);
        if table.0 == STCO {
            law_chunk_offset_moves(table.1, delta, j);
        } else {
            law_large_chunk_offset_moves(table.1, delta, j);
        }
    }
}

proof fn lemma_table_kinds(node: Node, t: int)
    requires
        0 <= t < tables(node).len(),
    ensures
        tables(node)[t].0 == STCO || tables(node)[t].0 == CO64,
    decreases node,
{
    if let Node::Container { children, .. } = node {
        lemma_all_table_kinds(children, t);
    }
}

proof fn lemma_all_table_kinds(list: Seq<Node>, t: int)
    requires
        0 <= t < all_tables(list).len(),
    ensures
        all_tables(list)[t].0 == STCO || all_tables(list)[t].0 == CO64,
    decreases list,
{
    if list.len() > 0 {
        let n = tables(list[0]).len() as int;
        if t < n {
            lemma_table_kinds(list[0], t);
        } else {
            lemma_all_table_kinds(list.subrange(1, list.len() as int), t - n);
        }
    }
}

/// Whether each entry of a chunk offset table is a file offset that can be moved by `delta` without
/// being clamped at zero or wrapping.
pub open spec fn in_range(kind: u32, payload: Seq<u8>, delta: int) -> bool {
    payload.len() >= 8 ==> {
        &&& kind == STCO ==> forall|j: int|
            0 <= j < entry_count(payload, 4) ==> 0 <= #[trigger] be32(payload, 8 + 4 * j) + delta
                < 0x1_0000_0000
        &&& kind == CO64 ==> forall|j: int|
            0 <= j < entry_count(payload, 8) ==> be64(payload, 8 + 8 * j) < 0x8000_0000_0000_0000
                && 0 <= #[trigger] be64(payload, 8 + 8 * j) + delta < 0x8000_0000_0000_0000
    }
}

/// Whether every chunk offset in a box can be moved by `delta` without being clamped or wrapping.
pub open spec fn steady(node: Node, delta: int) -> bool
    decreases node,
{
    match node {
        Node::Leaf { kind, payload } => in_range(kind, payload, delta),
        Node::Container { children, .. } => all_steady(children, delta),
    }
}

/// Whether every chunk offset in boxes can be moved by `delta` without being clamped or wrapping.
pub open spec fn all_steady(list: Seq<Node>, delta: int) -> bool
    decreases list,
{
    if list.len() == 0 {
        true
    } else {
        steady(list[0], delta) && all_steady(list.subrange(1, list.len() as int), delta)
    }
}

/// An `stco` table with its entries moved, also where they stay.
spec fn table32(p: Seq<u8>, delta: int) -> Seq<u8> {
    let c = entry_count(p, 4);
    p.subrange(0, 8) + moved_entries32(p, 0, c, delta) + p.subrange(8 + 4 * c, p.len() as int)
}

/// A `co64` table with its entries moved, also where they stay.
spec fn table64(p: Seq<u8>, delta: int) -> Seq<u8> {
    let c = entry_count(p, 8);
    p.subrange(0, 8) + moved_entries64(p, 0, c, delta) + p.subrange(8 + 8 * c, p.len() as int)
}

#[verifier::spinoff_prover]
#[verifier::rlimit(40)]
proof fn lemma_unmoved32(p: Seq<u8>, i: int, n: int)
    requires
        0 <= i <= n,
        8 + 4 * n <= p.len(),
    ensures
        moved_entries32(p, i, n, 0) == p.subrange(8 + 4 * i, 8 + 4 * n),
    decreases n - i,
{
    if i < n {
        lemma_unmoved32(p, i + 1, n);
        crate::bytes::lemma_be32_rewrite(p, 8 + 4 * i);
        assert(p.subrange(8 + 4 * i, 8 + 4 * i + 4) + p.subrange(8 + 4 * (i + 1), 8 + 4 * n)
            =~= p.subrange(8 + 4 * i, 8 + 4 * n));
    } else {
        assert(p.subrange(8 + 4 * i, 8 + 4 * n) =~= seq![]);
    }
}

#[verifier::spinoff_prover]
proof fn lemma_entry_unmoved64(p: Seq<u8>, at: int)
    requires
        0 <= at,
        at + 8 <= p.len(),
        be64(p, at) < 0x8000_0000_0000_0000,
    ensures
        be64_bytes(moved64(be64(p, at), 0)) == p.subrange(at, at + 8),
{
    crate::bytes::lemma_be64_rewrite(p, at);
    assert(moved64(be64(p, at), 0) == be64(p, at));
}

#[verifier::spinoff_prover]
#[verifier::rlimit(40)]
proof fn lemma_unmoved64(p: Seq<u8>, i: int, n: int)
    requires
        0 <= i <= n,
        8 + 8 * n <= p.len(),
        forall|j: int|
            0 <= j < n ==> #[trigger] be64(p, 8 + 8 * j) < 0x8000_0000_0000_0000,
    ensures
        moved_entries64(p, i, n, 0) == p.subrange(8 + 8 * i, 8 + 8 * n),
    decreases n - i,
{
    if i < n {
        lemma_unmoved64(p, i + 1, n);
        assert(be64(p, 8 + 8 * i) < 0x8000_0000_0000_0000);
        lemma_entry_unmoved64(p, 8 + 8 * i);
        assert(p.subrange(8 + 8 * i, 8 + 8 * i + 8) + p.subrange(8 + 8 * (i + 1), 8 + 8 * n)
            =~= p.subrange(8 + 8 * i, 8 + 8 * n));
    } else {
        assert(p.subrange(8 + 8 * i, 8 + 8 * n) =~= seq![]);
    }
}

proof fn lemma_room(p: Seq<u8>, width: int)
    requires
        p.len() >= 8,
        width == 4 || width == 8,
    ensures
        0 <= entry_count(p, width),
        8 + width * entry_count(p, width) <= p.len(),
{
    crate::bytes::lemma_be32_rewrite(p, 4);
}

proof fn lemma_table32(p: Seq<u8>, delta: int)
    requires
        p.len() >= 8,
    ensures
        moved_table(STCO, p, delta) == table32(p, delta),
{
    let c = entry_count(p, 4);
    lemma_room(p, 4);
    if delta == 0 {
        lemma_unmoved32(p, 0, c);
        assert(table32(p, 0) =~= p);
    }
}

proof fn lemma_table64(p: Seq<u8>, delta: int)
    requires
        p.len() >= 8,
        forall|j: int|
            0 <= j < entry_count(p, 8) ==> #[trigger] be64(p, 8 + 8 * j) < 0x8000_0000_0000_0000,
    ensures
        moved_table(CO64, p, delta) == table64(p, delta),
{
    lemma_room(p, 8);
    if delta == 0 {
        lemma_unmoved64(p, 0, entry_count(p, 8));
        assert(table64(p, 0) =~= p);
    }
}

proof fn lemma_entries_twice32(p: Seq<u8>, q: Seq<u8>, i: int, n: int, d: int, e: int)
    requires
        0 <= i,
        forall|j: int|
            0 <= j < n ==> #[trigger] be32(q, 8 + 4 * j) == be32(p, 8 + 4 * j) + d,
    ensures
        moved_entries32(q, i, n, e) == moved_entries32(p, i, n, d + e),
    decreases n - i,
{
    if i < n {
        lemma_entries_twice32(p, q, i + 1, n, d, e);
        assert(be32(q, 8 + 4 * i) == be32(p, 8 + 4 * i) + d);
    }
}

proof fn lemma_entries_twice64(p: Seq<u8>, q: Seq<u8>, i: int, n: int, d: int, e: int)
    requires
        0 <= i,
        forall|j: int|
            0 <= j < n ==> #[trigger] be64(q, 8 + 8 * j) == be64(p, 8 + 8 * j) + d && be64(
                p,
                8 + 8 * j,
            ) < 0x8000_0000_0000_0000 && be64(q, 8 + 8 * j) < 0x8000_0000_0000_0000,
    ensures
        moved_entries64(q, i, n, e) == moved_entries64(p, i, n, d + e),
    decreases n - i,
{
    if i < n {
        lemma_entries_twice64(p, q, i + 1, n, d, e);
        assert(be64(q, 8 + 8 * i) == be64(p, 8 + 8 * i) + d);
    }
}

/// Moving the entries of a table twice moves them by the sum.
#[verifier::spinoff_prover]
#[verifier::rlimit(40)]
proof fn lemma_table_twice(kind: u32, p: Seq<u8>, d: int, e: int)
    requires
        in_range(kind, p, d),
    ensures
        moved_table(kind, moved_table(kind, p, d), e) == moved_table(kind, p, d + e),
        movable(kind, moved_table(kind, p, d), e) == movable(kind, p, d + e),
{
    let q = moved_table(kind, p, d);
    lemma_table_len(kind, p, d);
    if p.len() >= 8 && kind == STCO {
        let c = entry_count(p, 4);
        lemma_room(p, 4);
        assert forall|j: int| 0 <= j < c implies #[trigger] be32(q, 8 + 4 * j) == be32(p, 8 + 4 * j)
            + d by {
            assert(0 <= be32(p, 8 + 4 * j) + d < 0x1_0000_0000);
            law_chunk_offset_moves(p, d, j);
        }
        lemma_table32(p, d);
        lemma_entries_len(p, 0, c, d);
        assert(q.subrange(0, 8) =~= p.subrange(0, 8));
        assert(q[4] == p[4] && q[5] == p[5] && q[6] == p[6] && q[7] == p[7]) by {
            assert(q.subrange(0, 8)[4] == p.subrange(0, 8)[4]);
            assert(q.subrange(0, 8)[5] == p.subrange(0, 8)[5]);
            assert(q.subrange(0, 8)[6] == p.subrange(0, 8)[6]);
            assert(q.subrange(0, 8)[7] == p.subrange(0, 8)[7]);
        }
        assert(entry_count(q, 4) == c);
        assert(q.subrange(8 + 4 * c, q.len() as int) =~= p.subrange(8 + 4 * c, p.len() as int));
        lemma_table32(q, e);
        lemma_table32(p, d + e);
        lemma_entries_twice32(p, q, 0, c, d, e);
    } else if p.len() >= 8 && kind == CO64 {
        let c = entry_count(p, 8);
        lemma_room(p, 8);
        assert forall|j: int| 0 <= j < c implies #[trigger] be64(q, 8 + 8 * j) == be64(p, 8 + 8 * j)
            + d && be64(p, 8 + 8 * j) < 0x8000_0000_0000_0000 && be64(q, 8 + 8 * j)
            < 0x8000_0000_0000_0000 by {
            assert(0 <= be64(p, 8 + 8 * j) + d < 0x8000_0000_0000_0000);
            law_large_chunk_offset_moves(p, d, j);
        }
        lemma_table64(p, d);
        lemma_entries_len(p, 0, c, d);
        assert(q.subrange(0, 8) =~= p.subrange(0, 8));
        assert(q[4] == p[4] && q[5] == p[5] && q[6] == p[6] && q[7] == p[7]) by {
            assert(q.subrange(0, 8)[4] == p.subrange(0, 8)[4]);
            assert(q.subrange(0, 8)[5] == p.subrange(0, 8)[5]);
            assert(q.subrange(0, 8)[6] == p.subrange(0, 8)[6]);
            assert(q.subrange(0, 8)[7] == p.subrange(0, 8)[7]);
        }
        assert(entry_count(q, 8) == c);
        assert(q.subrange(8 + 8 * c, q.len() as int) =~= p.subrange(8 + 8 * c, p.len() as int));
        lemma_entries_twice64(p, q, 0, c, d, e);
        lemma_table64(p, d + e);
        lemma_table64(q, e);
        if movable(CO64, p, d + e) {
            assert forall|j: int| 0 <= j < c implies i64::MIN <= signed(
                #[trigger] be64(q, 8 + 8 * j),
            ) + e <= i64::MAX by {
                assert(signed(be64(p, 8 + 8 * j)) + (d + e) <= i64::MAX);
            }
        }
        if movable(CO64, q, e) {
            assert forall|j: int| 0 <= j < c implies i64::MIN <= signed(
                #[trigger] be64(p, 8 + 8 * j),
            ) + (d + e) <= i64::MAX by {
                assert(signed(be64(q, 8 + 8 * j)) + e <= i64::MAX);
                assert(be64(q, 8 + 8 * j) == be64(p, 8 + 8 * j) + d);
            }
        }
    }
}

/// Moving the chunk offsets in a box twice moves them by the sum.
proof fn lemma_patched_twice(node: Node, d: int, e: int)
    requires
        steady(node, d),
    ensures
        patched(patched(node, d), e) == patched(node, d + e),
        patchable(patched(node, d), e) == patchable(node, d + e),
    decreases node,
{
    match node {
        Node::Leaf { kind, payload } => {
            lemma_table_twice(kind, payload, d, e);
        },
        Node::Container { children, .. } => {
            lemma_all_patched_twice(children, d, e);
        },
    }
}

proof fn lemma_all_patched_twice(list: Seq<Node>, d: int, e: int)
    requires
        all_steady(list, d),
    ensures
        all_patched(all_patched(list, d), e) == all_patched(list, d + e),
        all_patchable(all_patched(list, d), e) == all_patchable(list, d + e),
    decreases list,
{
    if list.len() > 0 {
        let rest = list.subrange(1, list.len() as int);
        let all = all_patched(list, d);
        lemma_patched_twice(list[0], d, e);
        lemma_all_patched_twice(rest, d, e);
        assert(all[0] == patched(list[0], d));
        assert(all.subrange(1, all.len() as int) =~= all_patched(rest, d));
    }
}

/// Chunk offsets that are moved by nothing stay.
proof fn lemma_patched_by_nothing(node: Node)
    ensures
        patched(node, 0) == node,
    decreases node,
{
    if let Node::Container { children, .. } = node {
        lemma_all_patched_by_nothing(children);
    }
}

proof fn lemma_all_patched_by_nothing(list: Seq<Node>)
    ensures
        all_patched(list, 0) == list,
    decreases list,
{
    if list.len() > 0 {
        let rest = list.subrange(1, list.len() as int);
        lemma_patched_by_nothing(list[0]);
        lemma_all_patched_by_nothing(rest);
        assert(seq![list[0]] + rest =~= list);
    } else {
        assert(all_patched(list, 0) =~= list);
    }
}

pub proof fn lemma_steady_patchable(node: Node, d: int)
    requires
        steady(node, d),
    ensures
        patchable(node, d),
        patchable(node, 0),
    decreases node,
{
    if let Node::Container { children, .. } = node {
        lemma_all_steady_patchable(children, d);
    }
}

proof fn lemma_all_steady_patchable(list: Seq<Node>, d: int)
    requires
        all_steady(list, d),
    ensures
        all_patchable(list, d),
        all_patchable(list, 0),
    decreases list,
{
    if list.len() > 0 {
        lemma_steady_patchable(list[0], d);
        lemma_all_steady_patchable(list.subrange(1, list.len() as int), d);
    }
}

/// Whether two boxes differ in nothing but the contents of chunk offset tables: they have the same
/// types, the same nesting and payloads of the same lengths.
pub open spec fn alike(a: Node, b: Node) -> bool
    decreases a,
{
    match (a, b) {
        (Node::Leaf { kind: k, payload: p }, Node::Leaf { kind: l, payload: q }) => {
            &&& k == l
            &&& p.len() == q.len()
            &&& k != STCO && k != CO64 ==> p == q
        },
        (
            Node::Container { kind: k, children: c },
            Node::Container { kind: l, children: d },
        ) => k == l && all_alike(c, d),
        _ => false,
    }
}

/// Whether boxes differ in nothing but the contents of chunk offset tables.
pub open spec fn all_alike(a: Seq<Node>, b: Seq<Node>) -> bool
    decreases a,
{
    if a.len() == 0 {
        b.len() == 0
    } else {
        &&& b.len() > 0
        &&& alike(a[0], b[0])
        &&& all_alike(a.subrange(1, a.len() as int), b.subrange(1, b.len() as int))
    }
}

/// Moving the chunk offsets of a box changes nothing but the contents of its chunk offset tables.
pub proof fn law_only_tables_change(node: Node, delta: int)
    ensures
        alike(node, patched(node, delta)),
    decreases node,
{
    match node {
        Node::Leaf { kind, payload } => {
            lemma_table_len(kind, payload, delta);
        },
        Node::Container { children, .. } => {
            lemma_all_alike(children, delta);
        },
    }
}

proof fn lemma_all_alike(list: Seq<Node>, delta: int)
    ensures
        all_alike(list, all_patched(list, delta)),
    decreases list,
{
    if list.len() > 0 {
        let rest = list.subrange(1, list.len() as int);
        let all = all_patched(list, delta);
        law_only_tables_change(list[0], delta);
        lemma_all_alike(rest, delta);
        assert(all[0] == patched(list[0], delta));
        assert(all.subrange(1, all.len() as int) =~= all_patched(rest, delta));
    }
}

/// Moving the chunk offsets of a box by `delta` and back restores it, where none is clamped or
/// wraps on the way. Both moves can be made.
pub proof fn law_offsets_moved_back(node: Node, delta: int)
    requires
        steady(node, delta),
    ensures
        patchable(node, delta),
        patchable(patched(node, delta), -delta),
        patched(patched(node, delta), -delta) == node,
{
    lemma_steady_patchable(node, delta);
    lemma_patched_twice(node, delta, -delta);
    lemma_patched_by_nothing(node);
}

/// A replacement depends on what becomes of the box that is replaced.
proof fn lemma_replaced_same(
    node: Node,
    target: u32,
    edit: spec_fn(Node) -> Node,
    other: spec_fn(Node) -> Node,
)
    requires
        found(node, target) is Some,
        edit(found(node, target)->0) == other(found(node, target)->0),
    ensures
        replaced(node, target, edit) == replaced(node, target, other),
    decreases node,
{
    if node.kind() != target {
        if let Node::Container { children, .. } = node {
            lemma_replaced_in_same(children, target, edit, other);
        }
    }
}

proof fn lemma_replaced_in_same(
    list: Seq<Node>,
    target: u32,
    edit: spec_fn(Node) -> Node,
    other: spec_fn(Node) -> Node,
)
    requires
        found_in(list, target) is Some,
        edit(found_in(list, target)->0) == other(found_in(list, target)->0),
    ensures
        replaced_in(list, target, edit) == replaced_in(list, target, other),
    decreases list,
{
    if list.len() > 0 {
        if found(list[0], target) is Some {
            lemma_replaced_same(list[0], target, edit, other);
        } else {
            lemma_replaced_in_same(list.subrange(1, list.len() as int), target, edit, other);
        }
    }
}

/// Two replacements, one after the other, are one.
proof fn lemma_replaced_twice(
    node: Node,
    target: u32,
    first: spec_fn(Node) -> Node,
    second: spec_fn(Node) -> Node,
)
    requires
        found(node, target) is Some,
        first(found(node, target)->0).kind() == target,
    ensures
        replaced(replaced(node, target, first), target, second) == replaced(
            node,
            target,
            |n: Node| second(first(n)),
        ),
    decreases node,
{
    if node.kind() != target {
        if let Node::Container { children, .. } = node {
            lemma_replaced_in_twice(children, target, first, second);
        }
    }
}

proof fn lemma_replaced_in_twice(
    list: Seq<Node>,
    target: u32,
    first: spec_fn(Node) -> Node,
    second: spec_fn(Node) -> Node,
)
    requires
        found_in(list, target) is Some,
        first(found_in(list, target)->0).kind() == target,
    ensures
        replaced_in(replaced_in(list, target, first), target, second) == replaced_in(
            list,
            target,
            |n: Node| second(first(n)),
        ),
    decreases list,
{
    if list.len() > 0 {
        let rest = list.subrange(1, list.len() as int);
        let new = replaced_in(list, target, first);
        if found(list[0], target) is Some {
            lemma_replaced_twice(list[0], target, first, second);
            lemma_replaced_found(list[0], target, first);
            assert(new[0] == replaced(list[0], target, first));
            assert(new.subrange(1, new.len() as int) =~= rest);
        } else {
            lemma_replaced_in_twice(rest, target, first, second);
            assert(new[0] == list[0]);
            assert(new.subrange(1, new.len() as int) =~= replaced_in(rest, target, first));
        }
    }
}

/// Lyrics put into an `ilst` box twice are those of the second time.
proof fn lemma_lyrics_twice(ilst: Node, first: Seq<char>, second: Seq<char>)
    ensures
        with_lyrics(with_lyrics(ilst, first), second) == with_lyrics(ilst, second),
{
    if let Node::Container { children, .. } = ilst {
        let stays = |t: Node| t.kind() != LYRICS;
        let kept = children.filter(stays);
        kept.lemma_filter_push(text_tag(LYRICS, first), stays);
        lemma_filter_again(children);
    }
}

proof fn lemma_filter_again(list: Seq<Node>)
    ensures
        list.filter(|t: Node| t.kind() != LYRICS).filter(|t: Node| t.kind() != LYRICS)
            == list.filter(|t: Node| t.kind() != LYRICS),
    decreases list.len(),
{
    let stays = |t: Node| t.kind() != LYRICS;
    reveal(Seq::filter);
    if list.len() > 0 {
        let part = list.drop_last();
        lemma_filter_again(part);
        if stays(list.last()) {
            let kept = part.filter(stays);
            assert(list.filter(stays) == kept.push(list.last()));
            kept.lemma_filter_push(list.last(), stays);
        }
    }
}

/// Lyrics put into a `moov` box twice are those of the second time.
#[verifier::spinoff_prover]
#[verifier::rlimit(40)]
proof fn lemma_moov_twice(moov: Node, first: Seq<char>, second: Seq<char>)
    requires
        proper(moov),
        moov.kind() == MOOV,
        target_ilst(moov) is Some,
    ensures
        new_moov(new_moov(moov, first), second) == new_moov(moov, second),
{
    let start = with_udta(moov);
    let add = lacks_ilst(moov);
    let udta = found(start, UDTA)->0;
    let once = new_moov(moov, first);
    let edit = |n: Node| with_user_lyrics(n, add, first);
    let again = |n: Node| with_user_lyrics(n, false, second);
    let direct = |n: Node| with_user_lyrics(n, add, second);
    let both = |n: Node| again(edit(n));
    lemma_new_moov(moov, first);
    lemma_with_udta(moov);
    lemma_found_kind(start, UDTA);
    lemma_user_lyrics(udta, add, first);
    lemma_replaced_twice(start, UDTA, edit, again);
    let target = if add {
        with_child(udta, empty_box(ILST))
    } else {
        udta
    };
    let inner_first = |n: Node| with_lyrics(n, first);
    let inner_second = |n: Node| with_lyrics(n, second);
    let inner_both = |n: Node| inner_second(inner_first(n));
    let ilst = found(target, ILST)->0;
    lemma_with_lyrics(ilst, first);
    lemma_replaced_twice(target, ILST, inner_first, inner_second);
    lemma_lyrics_twice(ilst, first, second);
    lemma_replaced_same(target, ILST, inner_both, inner_second);
    assert(both(udta) == direct(udta));
    lemma_replaced_same(start, UDTA, both, direct);
    assert(with_udta(once) == once);
    assert(!lacks_ilst(once));
}

/// A replacement and moved chunk offsets do not depend on their order.
proof fn lemma_patched_replaced(
    node: Node,
    target: u32,
    before: spec_fn(Node) -> Node,
    after: spec_fn(Node) -> Node,
    delta: int,
)
    requires
        found(node, target) is Some,
        patched(before(found(node, target)->0), delta) == after(
            patched(found(node, target)->0, delta),
        ),
    ensures
        patched(replaced(node, target, before), delta) == replaced(
            patched(node, delta),
            target,
            after,
        ),
    decreases node,
{
    lemma_patched_found(node, delta, target);
    if node.kind() != target {
        if let Node::Container { children, .. } = node {
            lemma_patched_replaced_in(children, target, before, after, delta);
        }
    }
}

proof fn lemma_patched_replaced_in(
    list: Seq<Node>,
    target: u32,
    before: spec_fn(Node) -> Node,
    after: spec_fn(Node) -> Node,
    delta: int,
)
    requires
        found_in(list, target) is Some,
        patched(before(found_in(list, target)->0), delta) == after(
            patched(found_in(list, target)->0, delta),
        ),
    ensures
        all_patched(replaced_in(list, target, before), delta) == replaced_in(
            all_patched(list, delta),
            target,
            after,
        ),
    decreases list,
{
    if list.len() > 0 {
        let rest = list.subrange(1, list.len() as int);
        let new = replaced_in(list, target, before);
        let moved = all_patched(list, delta);
        lemma_patched_found(list[0], delta, target);
        assert(moved[0] == patched(list[0], delta));
        assert(moved.subrange(1, moved.len() as int) =~= all_patched(rest, delta));
        if found(list[0], target) is Some {
            lemma_patched_replaced(list[0], target, before, after, delta);
            assert(new[0] == replaced(list[0], target, before));
            assert(new.subrange(1, new.len() as int) =~= rest);
        } else {
            lemma_patched_replaced_in(rest, target, before, after, delta);
            assert(new[0] == list[0]);
            assert(new.subrange(1, new.len() as int) =~= replaced_in(rest, target, before));
        }
    }
}

proof fn lemma_patched_push(list: Seq<Node>, node: Node, delta: int)
    ensures
        all_patched(list.push(node), delta) == all_patched(list, delta).push(patched(node, delta)),
{
    lemma_all_patched(list, delta);
    lemma_all_patched(list.push(node), delta);
    assert(all_patched(list.push(node), delta) =~= all_patched(list, delta).push(
        patched(node, delta),
    ));
}

proof fn lemma_patched_filter(list: Seq<Node>, delta: int)
    ensures
        all_patched(list.filter(|t: Node| t.kind() != LYRICS), delta) == all_patched(
            list,
            delta,
        ).filter(|t: Node| t.kind() != LYRICS),
    decreases list.len(),
{
    let stays = |t: Node| t.kind() != LYRICS;
    reveal(Seq::filter);
    if list.len() == 0 {
        assert(all_patched(list, delta) =~= seq![]);
        assert(all_patched(list.filter(stays), delta) =~= seq![]);
    } else {
        let part = list.drop_last();
        let last = list.last();
        lemma_patched_filter(part, delta);
        assert(part.push(last) =~= list);
        lemma_patched_push(part, last, delta);
        lemma_patched_found(last, delta, LYRICS);
        all_patched(part, delta).lemma_filter_push(patched(last, delta), stays);
        part.lemma_filter_push(last, stays);
        lemma_patched_push(part.filter(stays), last, delta);
    }
}

/// Lyrics and moved chunk offsets do not depend on their order.
proof fn lemma_patched_with_lyrics(ilst: Node, lyrics: Seq<char>, delta: int)
    ensures
        patched(with_lyrics(ilst, lyrics), delta) == with_lyrics(patched(ilst, delta), lyrics),
{
    if let Node::Container { children, .. } = ilst {
        let stays = |t: Node| t.kind() != LYRICS;
        let tag = text_tag(LYRICS, lyrics);
        lemma_patched_filter(children, delta);
        lemma_patched_push(children.filter(stays), tag, delta);
        assert(patched(tag, delta) == tag) by {
            lemma_all_patched(tag.children(), delta);
            assert(all_patched(tag.children(), delta) =~= tag.children());
        }
    }
}

/// Lyrics can be put into a `moov` box before or after its chunk offsets are moved.
proof fn lemma_patched_new_moov(moov: Node, lyrics: Seq<char>, delta: int)
    requires
        found(moov, UDTA) is Some,
        found(moov, ILST) is Some,
        found(found(moov, UDTA)->0, ILST) is Some,
    ensures
        patched(new_moov(moov, lyrics), delta) == new_moov(patched(moov, delta), lyrics),
{
    let edit = |n: Node| with_user_lyrics(n, false, lyrics);
    let inner_edit = |n: Node| with_lyrics(n, lyrics);
    let udta = found(moov, UDTA)->0;
    lemma_patched_found(moov, delta, UDTA);
    lemma_patched_found(moov, delta, ILST);
    lemma_patched_with_lyrics(found(udta, ILST)->0, lyrics, delta);
    lemma_patched_replaced(udta, ILST, inner_edit, inner_edit, delta);
    lemma_patched_replaced(moov, UDTA, edit, edit, delta);
    assert(!lacks_ilst(moov));
    assert(!lacks_ilst(patched(moov, delta)));
}

/// A forced overwrite leaves no trace of earlier lyrics: a further sync with `force` can be made
/// and gives what it would have given on the file as it was before.
///
/// Like the law on reading back, this holds as long as each box at the top of the file stays below
/// 4 GiB. Where chunk offsets move, those that stay in the file must not be clamped at zero or
/// wrap when the first lyrics are written.
#[verifier::spinoff_prover]
#[verifier::rlimit(40)]
pub proof fn law_mp4_overwritten(b: Seq<u8>, lyrics: Seq<char>, force: bool, later: Seq<char>)
    requires
        Mp4::editable(b, lyrics, force),
        Mp4::edited(b, lyrics, force) matches Ok(Some(_)),
        Mp4::edited(b, lyrics, force)->Ok_0->0.len() <= u64::MAX,
        Mp4::editable(b, later, true),
        ({
            let top = boxes_at(b, 0)->Found_0;
            let i = place_of(top, MOOV)->0;
            &&& all_small(new_boxes(top, i, lyrics))
            &&& media_after(top, i) ==> steady(
                new_moov(top[i], later),
                growth(top[i], lyrics),
            )
        }),
    ensures
        ({
            let out = Mp4::edited(b, lyrics, force)->Ok_0->0;
            &&& Mp4::editable(out, later, true)
            &&& Mp4::edited(out, later, true) == Mp4::edited(b, later, true)
        }),
{
    let out = Mp4::edited(b, lyrics, force)->Ok_0->0;
    let top = boxes_at(b, 0)->Found_0;
    let i = place_of(top, MOOV)->0;
    let new = new_boxes(top, i, lyrics);
    let once = new_moov(top[i], lyrics);
    let twice = new_moov(top[i], later);
    let d = growth(top[i], lyrics);
    law_mp4_read_back(b, lyrics, force, later, seq![]);
    lemma_boxes_proper(b, 0);
    lemma_place(top, MOOV);
    lemma_proper_at(top, i);
    lemma_written_moov(top, i, lyrics, seq![]);
    lemma_new_moov(top[i], lyrics);
    lemma_moov_twice(top[i], lyrics, later);
    lemma_place(new, MOOV);
    assert(place_of(new, MOOV) == Some(i)) by {
        assert(new[i].kind() == MOOV);
        if let Some(k) = place_of(new, MOOV) {
            if k < i {
                assert(new[k] == top[k]);
            }
        }
    }
    assert(media_after(new, i) == media_after(top, i)) by {
        assert forall|j: int| i < j < top.len() implies new[j] == top[j] by {}
        if media_after(top, i) {
            let j = choose|j: int| i < j < top.len() && (#[trigger] top[j]).kind() == MDAT;
            assert(new[j].kind() == MDAT);
        }
        if media_after(new, i) {
            let j = choose|j: int| i < j < new.len() && (#[trigger] new[j]).kind() == MDAT;
            assert(top[j].kind() == MDAT);
        }
    }
    if media_after(top, i) {
        let e = growth(new[i], later);
        lemma_patched_new_moov(once, later, d);
        assert(new_moov(new[i], later) == patched(twice, d));
        lemma_patched_len(twice, d);
        assert(d + e == growth(top[i], later));
        lemma_patched_twice(twice, d, e);
    }
    assert(new_boxes(new, i, later) =~= new_boxes(top, i, later));
}

} // verus!
