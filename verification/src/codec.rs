//! The snapshot codec: one binary blob holding the arena, the edge
//! table, the position overlay and the view parameters, restored exactly
//! — identities included, so overlay entries and index keys survive a
//! reload. Decoding a malformed or truncated blob fails cleanly, and a
//! failed load never touches in-memory state (decoding builds a fresh
//! value; the caller replaces its state only on success).

use vstd::prelude::*;

use crate::graph::Graph;
use crate::graph::ID;
use crate::graph::Kind;
use crate::graph::parts_valid;
use crate::state::Camera;
use crate::state::Coord;
use crate::state::GraphState;
use crate::table::entry_keys_distinct;

verus! {

/// The error a malformed or incompatible snapshot surfaces.
#[derive(Clone, Copy, Debug, PartialEq, Eq)]
pub struct DecodeError;

/// A `u64` as eight little-endian bytes.
pub open spec fn u64_le(x: u64) -> Seq<u8> {
    seq![
        (x & 0xff) as u8,
        ((x >> 8) & 0xff) as u8,
        ((x >> 16) & 0xff) as u8,
        ((x >> 24) & 0xff) as u8,
        ((x >> 32) & 0xff) as u8,
        ((x >> 40) & 0xff) as u8,
        ((x >> 48) & 0xff) as u8,
        ((x >> 56) & 0xff) as u8,
    ]
}

/// The `u64` read from eight little-endian bytes at `p`.
pub open spec fn u64_at(b: Seq<u8>, p: int) -> u64 {
    (b[p] as u64) | ((b[p + 1] as u64) << 8) | ((b[p + 2] as u64) << 16) | ((b[p + 3] as u64)
        << 24) | ((b[p + 4] as u64) << 32) | ((b[p + 5] as u64) << 40) | ((b[p + 6] as u64) << 48)
        | ((b[p + 7] as u64) << 56)
}

/// Reading back the eight bytes of `u64_le(x)` yields `x`.
proof fn lemma_u64_round_trip(b: Seq<u8>, p: int, x: u64)
    requires
        0 <= p,
        p + 8 <= b.len(),
        forall|i: int| 0 <= i < 8 ==> b[p + i] == u64_le(x)[i],
    ensures
        u64_at(b, p) == x,
{
    assert(b[p + 0] == u64_le(x)[0] && u64_le(x)[0] == (x & 0xff) as u8);
    assert(b[p + 1] == u64_le(x)[1] && u64_le(x)[1] == ((x >> 8) & 0xff) as u8);
    assert(b[p + 2] == u64_le(x)[2] && u64_le(x)[2] == ((x >> 16) & 0xff) as u8);
    assert(b[p + 3] == u64_le(x)[3] && u64_le(x)[3] == ((x >> 24) & 0xff) as u8);
    assert(b[p + 4] == u64_le(x)[4] && u64_le(x)[4] == ((x >> 32) & 0xff) as u8);
    assert(b[p + 5] == u64_le(x)[5] && u64_le(x)[5] == ((x >> 40) & 0xff) as u8);
    assert(b[p + 6] == u64_le(x)[6] && u64_le(x)[6] == ((x >> 48) & 0xff) as u8);
    assert(b[p + 7] == u64_le(x)[7] && u64_le(x)[7] == ((x >> 56) & 0xff) as u8);
    assert((((x & 0xff) as u8) as u64) | (((((x >> 8) & 0xff) as u8) as u64) << 8) | (((((x >> 16)
        & 0xff) as u8) as u64) << 16) | (((((x >> 24) & 0xff) as u8) as u64) << 24) | (((((x >> 32)
        & 0xff) as u8) as u64) << 32) | (((((x >> 40) & 0xff) as u8) as u64) << 40) | (((((x >> 48)
        & 0xff) as u8) as u64) << 48) | (((((x >> 56) & 0xff) as u8) as u64) << 56) == x)
        by (bit_vector);
}

fn push_u64(buf: &mut Vec<u8>, x: u64)
    ensures
        final(buf)@ == old(buf)@ + u64_le(x),
{
    proof {
        assert((x & 0xff) < 256 && ((x >> 8) & 0xff) < 256 && ((x >> 16) & 0xff) < 256 && ((x
            >> 24) & 0xff) < 256 && ((x >> 32) & 0xff) < 256 && ((x >> 40) & 0xff) < 256 && ((x
            >> 48) & 0xff) < 256 && ((x >> 56) & 0xff) < 256) by (bit_vector);
    }
    buf.push((x & 0xff) as u8);
    buf.push(((x >> 8) & 0xff) as u8);
    buf.push(((x >> 16) & 0xff) as u8);
    buf.push(((x >> 24) & 0xff) as u8);
    buf.push(((x >> 32) & 0xff) as u8);
    buf.push(((x >> 40) & 0xff) as u8);
    buf.push(((x >> 48) & 0xff) as u8);
    buf.push(((x >> 56) & 0xff) as u8);
    proof {
        assert(final(buf)@ =~= old(buf)@ + u64_le(x));
    }
}

fn read_u64(data: &[u8], pos: usize) -> (r: u64)
    requires
        pos + 8 <= data@.len(),
    ensures
        r == u64_at(data@, pos as int),
{
    (data[pos] as u64) | ((data[pos + 1] as u64) << 8) | ((data[pos + 2] as u64) << 16) | ((
    data[pos + 3] as u64) << 24) | ((data[pos + 4] as u64) << 32) | ((data[pos + 5] as u64) << 40)
        | ((data[pos + 6] as u64) << 48) | ((data[pos + 7] as u64) << 56)
}

/// One element record: identity, kind tag, and for an edge its
/// endpoints.
pub open spec fn elem_bytes(id: ID, k: Kind) -> Seq<u8> {
    match k {
        Kind::Plain => u64_le(id) + seq![0u8],
        Kind::Relation { source, target } => u64_le(id) + seq![1u8] + u64_le(source) + u64_le(
            target,
        ),
    }
}

/// The element list, record by record.
pub open spec fn elems_bytes(s: Seq<(ID, Kind)>) -> Seq<u8>
    decreases s.len(),
{
    if s.len() == 0 {
        Seq::empty()
    } else {
        elem_bytes(s[0].0, s[0].1) + elems_bytes(s.drop_first())
    }
}

proof fn lemma_elems_bytes_concat(a: Seq<(ID, Kind)>, b: Seq<(ID, Kind)>)
    ensures
        elems_bytes(a + b) == elems_bytes(a) + elems_bytes(b),
    decreases a.len(),
{
    if a.len() == 0 {
        assert(a + b =~= b);
        assert(elems_bytes(a) + elems_bytes(b) =~= elems_bytes(b));
    } else {
        assert((a + b).drop_first() =~= a.drop_first() + b);
        lemma_elems_bytes_concat(a.drop_first(), b);
        assert((a + b)[0] == a[0]);
        assert(elems_bytes(a + b) =~= elems_bytes(a) + elems_bytes(b));
    }
}

/// One overlay record: identity and the two coordinate components.
pub open spec fn pos_bytes(id: ID, c: Coord) -> Seq<u8> {
    u64_le(id) + u64_le(c.x) + u64_le(c.y)
}

/// The overlay list, record by record.
pub open spec fn poss_bytes(s: Seq<(ID, Coord)>) -> Seq<u8>
    decreases s.len(),
{
    if s.len() == 0 {
        Seq::empty()
    } else {
        pos_bytes(s[0].0, s[0].1) + poss_bytes(s.drop_first())
    }
}

proof fn lemma_poss_bytes_concat(a: Seq<(ID, Coord)>, b: Seq<(ID, Coord)>)
    ensures
        poss_bytes(a + b) == poss_bytes(a) + poss_bytes(b),
    decreases a.len(),
{
    if a.len() == 0 {
        assert(a + b =~= b);
        assert(poss_bytes(a) + poss_bytes(b) =~= poss_bytes(b));
    } else {
        assert((a + b).drop_first() =~= a.drop_first() + b);
        lemma_poss_bytes_concat(a.drop_first(), b);
        assert((a + b)[0] == a[0]);
        assert(poss_bytes(a + b) =~= poss_bytes(a) + poss_bytes(b));
    }
}

/// The four bytes every snapshot blob starts with; an incompatible or
/// foreign buffer fails on them.
pub open spec fn snap_magic() -> Seq<u8> {
    seq![0x45u8, 0x47u8, 0x53u8, 0x31u8]
}

/// The four bytes a graph-only blob starts with.
pub open spec fn graph_magic() -> Seq<u8> {
    seq![0x45u8, 0x47u8, 0x47u8, 0x31u8]
}

/// The graph section: allocation counter, element count, element
/// records.
pub open spec fn graph_body_bytes(next: ID, s: Seq<(ID, Kind)>) -> Seq<u8> {
    u64_le(next) + u64_le(s.len() as u64) + elems_bytes(s)
}

/// A whole graph-only blob.
pub open spec fn graph_blob_bytes(next: ID, s: Seq<(ID, Kind)>) -> Seq<u8> {
    graph_magic() + graph_body_bytes(next, s)
}

/// A whole snapshot blob: graph section, overlay section, view
/// parameters.
pub open spec fn snap_blob_bytes(
    next: ID,
    s: Seq<(ID, Kind)>,
    ps: Seq<(ID, Coord)>,
    cam: Camera,
) -> Seq<u8> {
    snap_magic() + graph_body_bytes(next, s) + u64_le(ps.len() as u64) + poss_bytes(ps) + u64_le(
        cam.offset_x,
    ) + u64_le(cam.offset_y) + u64_le(cam.zoom)
}

/// Parse one element record; `None` on truncation or an unknown tag.
pub open spec fn parse_elem(b: Seq<u8>, p: int) -> Option<((ID, Kind), int)> {
    if p + 9 <= b.len() {
        let id = u64_at(b, p);
        if b[p + 8] == 0u8 {
            Some(((id, Kind::Plain), p + 9))
        } else if b[p + 8] == 1u8 {
            if p + 25 <= b.len() {
                Some(
                    (
                        (
                            id,
                            Kind::Relation {
                                source: u64_at(b, p + 9),
                                target: u64_at(b, p + 17),
                            },
                        ),
                        p + 25,
                    ),
                )
            } else {
                None
            }
        } else {
            None
        }
    } else {
        None
    }
}

/// Parse `n` element records.
pub open spec fn parse_elems(b: Seq<u8>, p: int, n: nat) -> Option<(Seq<(ID, Kind)>, int)>
    decreases n,
{
    if n == 0 {
        Some((Seq::empty(), p))
    } else {
        match parse_elem(b, p) {
            Option::None => None,
            Option::Some((e, p2)) => match parse_elems(b, p2, (n - 1) as nat) {
                Option::None => None,
                Option::Some((s, p3)) => Some((seq![e] + s, p3)),
            },
        }
    }
}

/// Parse one overlay record; `None` on truncation.
pub open spec fn parse_pos(b: Seq<u8>, p: int) -> Option<((ID, Coord), int)> {
    if p + 24 <= b.len() {
        Some(((u64_at(b, p), Coord { x: u64_at(b, p + 8), y: u64_at(b, p + 16) }), p + 24))
    } else {
        None
    }
}

/// Parse `n` overlay records.
pub open spec fn parse_poss(b: Seq<u8>, p: int, n: nat) -> Option<(Seq<(ID, Coord)>, int)>
    decreases n,
{
    if n == 0 {
        Some((Seq::empty(), p))
    } else {
        match parse_pos(b, p) {
            Option::None => None,
            Option::Some((e, p2)) => match parse_poss(b, p2, (n - 1) as nat) {
                Option::None => None,
                Option::Some((s, p3)) => Some((seq![e] + s, p3)),
            },
        }
    }
}

/// Parse the graph section.
pub open spec fn parse_graph_body(b: Seq<u8>, p: int) -> Option<((ID, Seq<(ID, Kind)>), int)> {
    if p + 16 <= b.len() {
        let next = u64_at(b, p);
        let n = u64_at(b, p + 8);
        match parse_elems(b, p + 16, n as nat) {
            Option::None => None,
            Option::Some((s, p2)) => Some(((next, s), p2)),
        }
    } else {
        None
    }
}

/// What a graph-only blob decodes to, or `None` when it is malformed,
/// truncated, carries trailing bytes, or describes an invalid arena.
pub open spec fn parse_graph_blob(b: Seq<u8>) -> Option<(ID, Seq<(ID, Kind)>)> {
    if b.len() >= 4 && b.subrange(0, 4) == graph_magic() {
        match parse_graph_body(b, 4) {
            Option::None => None,
            Option::Some(((next, s), p2)) => if p2 == b.len() && parts_valid(next, s) {
                Some((next, s))
            } else {
                None
            },
        }
    } else {
        None
    }
}

/// The decoded form of a snapshot blob.
pub ghost struct Snap {
    pub next: ID,
    pub elems: Seq<(ID, Kind)>,
    pub positions: Seq<(ID, Coord)>,
    pub camera: Camera,
}

/// What a snapshot blob decodes to, or `None` when it is malformed,
/// truncated, carries trailing bytes, or describes an invalid state.
pub open spec fn parse_snapshot(b: Seq<u8>) -> Option<Snap> {
    if b.len() >= 4 && b.subrange(0, 4) == snap_magic() {
        match parse_graph_body(b, 4) {
            Option::None => None,
            Option::Some(((next, s), p2)) => if p2 + 8 <= b.len() {
                match parse_poss(b, p2 + 8, u64_at(b, p2) as nat) {
                    Option::None => None,
                    Option::Some((ps, p3)) => if p3 + 24 == b.len() && parts_valid(next, s)
                        && entry_keys_distinct(ps) {
                        Some(
                            Snap {
                                next,
                                elems: s,
                                positions: ps,
                                camera: Camera {
                                    offset_x: u64_at(b, p3),
                                    offset_y: u64_at(b, p3 + 8),
                                    zoom: u64_at(b, p3 + 16),
                                },
                            },
                        )
                    } else {
                        None
                    },
                }
            } else {
                None
            },
        }
    } else {
        None
    }
}

fn encode_elems(buf: &mut Vec<u8>, elems: &Vec<(ID, Kind)>)
    ensures
        final(buf)@ == old(buf)@ + elems_bytes(elems@),
{
    let n = elems.len();
    let mut i: usize = 0;
    while i < n
        invariant
            0 <= i <= n,
            n == elems@.len(),
            buf@ == old(buf)@ + elems_bytes(elems@.subrange(0, i as int)),
        decreases n - i,
    {
        let ghost pre = elems@.subrange(0, i as int);
        let (id, k) = elems[i];
        match k {
            Kind::Plain => {
                push_u64(buf, id);
                buf.push(0u8);
            },
            Kind::Relation { source, target } => {
                push_u64(buf, id);
                buf.push(1u8);
                push_u64(buf, source);
                push_u64(buf, target);
            },
        }
        proof {
            assert(elems@.subrange(0, i + 1) =~= pre + seq![elems@[i as int]]);
            lemma_elems_bytes_concat(pre, seq![elems@[i as int]]);
            assert(elems_bytes(seq![elems@[i as int]]) =~= elem_bytes(id, k)) by {
                assert(seq![elems@[i as int]].drop_first() =~= Seq::<(ID, Kind)>::empty());
                assert(elems_bytes(Seq::<(ID, Kind)>::empty()) =~= Seq::<u8>::empty());
                assert(seq![elems@[i as int]][0] == (id, k));
            }
            assert(buf@ =~= old(buf)@ + elems_bytes(elems@.subrange(0, i + 1)));
        }
        i = i + 1;
    }
    proof {
        assert(elems@.subrange(0, n as int) =~= elems@);
    }
}

fn encode_poss(buf: &mut Vec<u8>, ps: &Vec<(ID, Coord)>)
    ensures
        final(buf)@ == old(buf)@ + poss_bytes(ps@),
{
    let n = ps.len();
    let mut i: usize = 0;
    while i < n
        invariant
            0 <= i <= n,
            n == ps@.len(),
            buf@ == old(buf)@ + poss_bytes(ps@.subrange(0, i as int)),
        decreases n - i,
    {
        let ghost pre = ps@.subrange(0, i as int);
        let (id, c) = ps[i];
        push_u64(buf, id);
        push_u64(buf, c.x);
        push_u64(buf, c.y);
        proof {
            assert(ps@.subrange(0, i + 1) =~= pre + seq![ps@[i as int]]);
            lemma_poss_bytes_concat(pre, seq![ps@[i as int]]);
            assert(poss_bytes(seq![ps@[i as int]]) =~= pos_bytes(id, c)) by {
                assert(seq![ps@[i as int]].drop_first() =~= Seq::<(ID, Coord)>::empty());
                assert(poss_bytes(Seq::<(ID, Coord)>::empty()) =~= Seq::<u8>::empty());
                assert(seq![ps@[i as int]][0] == (id, c));
            }
            assert(buf@ =~= old(buf)@ + poss_bytes(ps@.subrange(0, i + 1)));
        }
        i = i + 1;
    }
    proof {
        assert(ps@.subrange(0, n as int) =~= ps@);
    }
}

fn encode_graph_body(buf: &mut Vec<u8>, g: &Graph)
    ensures
        final(buf)@ == old(buf)@ + graph_body_bytes(g.id_bound(), g.elems_seq()),
{
    push_u64(buf, g.next_value());
    let elems = g.elems_list();
    push_u64(buf, elems.len() as u64);
    encode_elems(buf, &elems);
    proof {
        assert(buf@ =~= old(buf)@ + graph_body_bytes(g.id_bound(), g.elems_seq()));
    }
}

fn parse_elems_exec(data: &[u8], start: usize, n: u64) -> (r: Option<(Vec<(ID, Kind)>, usize)>)
    requires
        start <= data@.len(),
    ensures
        r matches Some((elems, pos)) ==> parse_elems(data@, start as int, n as nat) == Some(
            (elems@, pos as int),
        ) && pos <= data@.len(),
        r == None::<(Vec<(ID, Kind)>, usize)> ==> parse_elems(data@, start as int, n as nat)
            == None::<(Seq<(ID, Kind)>, int)>,
{
    let mut elems: Vec<(ID, Kind)> = Vec::new();
    let mut pos: usize = start;
    let mut i: u64 = 0;
    while i < n
        invariant
            i <= n,
            pos <= data@.len(),
            parse_elems(data@, start as int, n as nat) == (match parse_elems(
                data@,
                pos as int,
                (n - i) as nat,
            ) {
                Option::None => None::<(Seq<(ID, Kind)>, int)>,
                Option::Some((s, p)) => Some((elems@ + s, p)),
            }),
        decreases n - i,
    {
        let ghost rem = (n - i) as nat;
        if data.len() - pos < 9 {
            proof {
                assert(parse_elem(data@, pos as int) == None::<((ID, Kind), int)>);
            }
            return None;
        }
        let id = read_u64(data, pos);
        let tag = data[pos + 8];
        if tag == 0 {
            let ghost pre = elems@;
            elems.push((id, Kind::Plain));
            proof {
                assert(parse_elem(data@, pos as int) == Some(((id, Kind::Plain), pos + 9)));
                assert(elems@ =~= pre + seq![(id, Kind::Plain)]);
                assert forall|s2: Seq<(ID, Kind)>|
                    #[trigger] (pre + (seq![(id, Kind::Plain)] + s2)) == elems@ + s2 by {
                    assert(pre + (seq![(id, Kind::Plain)] + s2) =~= elems@ + s2);
                }
            }
            pos = pos + 9;
        } else if tag == 1 {
            if data.len() - pos < 25 {
                proof {
                    assert(parse_elem(data@, pos as int) == None::<((ID, Kind), int)>);
                }
                return None;
            }
            let source = read_u64(data, pos + 9);
            let target = read_u64(data, pos + 17);
            let ghost pre = elems@;
            elems.push((id, Kind::Relation { source, target }));
            proof {
                assert(parse_elem(data@, pos as int) == Some(
                    ((id, Kind::Relation { source, target }), pos + 25),
                ));
                assert(elems@ =~= pre + seq![(id, Kind::Relation { source, target })]);
                assert forall|s2: Seq<(ID, Kind)>|
                    #[trigger] (pre + (seq![(id, Kind::Relation { source, target })] + s2))
                        == elems@ + s2 by {
                    assert(pre + (seq![(id, Kind::Relation { source, target })] + s2) =~= elems@
                        + s2);
                }
            }
            pos = pos + 25;
        } else {
            proof {
                assert(parse_elem(data@, pos as int) == None::<((ID, Kind), int)>);
            }
            return None;
        }
        i = i + 1;
    }
    proof {
        assert(parse_elems(data@, pos as int, 0) == Some((Seq::<(ID, Kind)>::empty(), pos as int)));
        assert(elems@ + Seq::<(ID, Kind)>::empty() =~= elems@);
    }
    Some((elems, pos))
}

fn parse_poss_exec(data: &[u8], start: usize, n: u64) -> (r: Option<(Vec<(ID, Coord)>, usize)>)
    requires
        start <= data@.len(),
    ensures
        r matches Some((ps, pos)) ==> parse_poss(data@, start as int, n as nat) == Some(
            (ps@, pos as int),
        ) && pos <= data@.len(),
        r == None::<(Vec<(ID, Coord)>, usize)> ==> parse_poss(data@, start as int, n as nat)
            == None::<(Seq<(ID, Coord)>, int)>,
{
    let mut ps: Vec<(ID, Coord)> = Vec::new();
    let mut pos: usize = start;
    let mut i: u64 = 0;
    while i < n
        invariant
            i <= n,
            pos <= data@.len(),
            parse_poss(data@, start as int, n as nat) == (match parse_poss(
                data@,
                pos as int,
                (n - i) as nat,
            ) {
                Option::None => None::<(Seq<(ID, Coord)>, int)>,
                Option::Some((s, p)) => Some((ps@ + s, p)),
            }),
        decreases n - i,
    {
        if data.len() - pos < 24 {
            proof {
                assert(parse_pos(data@, pos as int) == None::<((ID, Coord), int)>);
            }
            return None;
        }
        let id = read_u64(data, pos);
        let x = read_u64(data, pos + 8);
        let y = read_u64(data, pos + 16);
        let c = Coord { x, y };
        let ghost pre = ps@;
        ps.push((id, c));
        proof {
            assert(parse_pos(data@, pos as int) == Some(((id, c), pos + 24)));
            assert(ps@ =~= pre + seq![(id, c)]);
            assert forall|s2: Seq<(ID, Coord)>| #[trigger] (pre + (seq![(id, c)] + s2)) == ps@
                + s2 by {
                assert(pre + (seq![(id, c)] + s2) =~= ps@ + s2);
            }
        }
        pos = pos + 24;
        i = i + 1;
    }
    proof {
        assert(parse_poss(data@, pos as int, 0) == Some((Seq::<(ID, Coord)>::empty(), pos as int)));
        assert(ps@ + Seq::<(ID, Coord)>::empty() =~= ps@);
    }
    Some((ps, pos))
}

proof fn lemma_parse_elem_rt(b: Seq<u8>, p: int, id: ID, k: Kind)
    requires
        0 <= p,
        p + elem_bytes(id, k).len() <= b.len(),
        forall|i: int| 0 <= i < elem_bytes(id, k).len() ==> b[p + i] == #[trigger] elem_bytes(
            id,
            k,
        )[i],
    ensures
        parse_elem(b, p) == Some(((id, k), p + elem_bytes(id, k).len() as int)),
{
    let eb = elem_bytes(id, k);
    match k {
        Kind::Plain => {
            assert(eb.len() == 9);
            assert forall|i: int| 0 <= i < 8 implies b[p + i] == u64_le(id)[i] by {
                assert(b[p + i] == eb[i]);
                assert(eb[i] == u64_le(id)[i]);
            }
            lemma_u64_round_trip(b, p, id);
            assert(b[p + 8] == eb[8]);
            assert(eb[8] == 0u8);
        },
        Kind::Relation { source, target } => {
            assert(eb.len() == 25);
            assert forall|i: int| 0 <= i < 8 implies b[p + i] == u64_le(id)[i] by {
                assert(b[p + i] == eb[i]);
                assert(eb[i] == u64_le(id)[i]);
            }
            lemma_u64_round_trip(b, p, id);
            assert(b[p + 8] == eb[8]);
            assert(eb[8] == 1u8);
            assert forall|i: int| 0 <= i < 8 implies b[p + 9 + i] == u64_le(source)[i] by {
                assert(b[p + (9 + i)] == eb[9 + i]);
                assert(eb[9 + i] == u64_le(source)[i]);
            }
            lemma_u64_round_trip(b, p + 9, source);
            assert forall|i: int| 0 <= i < 8 implies b[p + 17 + i] == u64_le(target)[i] by {
                assert(b[p + (17 + i)] == eb[17 + i]);
                assert(eb[17 + i] == u64_le(target)[i]);
            }
            lemma_u64_round_trip(b, p + 17, target);
        },
    }
}

proof fn lemma_parse_elems_rt(b: Seq<u8>, p: int, s: Seq<(ID, Kind)>)
    requires
        0 <= p,
        p + elems_bytes(s).len() <= b.len(),
        forall|i: int| 0 <= i < elems_bytes(s).len() ==> b[p + i] == #[trigger] elems_bytes(s)[i],
    ensures
        parse_elems(b, p, s.len() as nat) == Some((s, p + elems_bytes(s).len() as int)),
    decreases s.len(),
{
    if s.len() == 0 {
        assert(s =~= Seq::<(ID, Kind)>::empty());
    } else {
        let e0 = elem_bytes(s[0].0, s[0].1);
        let rest = s.drop_first();
        assert forall|i: int| 0 <= i < e0.len() implies b[p + i] == #[trigger] elem_bytes(
            s[0].0,
            s[0].1,
        )[i] by {
            assert(b[p + i] == elems_bytes(s)[i]);
        }
        lemma_parse_elem_rt(b, p, s[0].0, s[0].1);
        assert forall|i: int| 0 <= i < elems_bytes(rest).len() implies b[p + e0.len() + i]
            == #[trigger] elems_bytes(rest)[i] by {
            assert(b[p + (e0.len() + i)] == elems_bytes(s)[e0.len() + i]);
        }
        lemma_parse_elems_rt(b, p + e0.len() as int, rest);
        assert(seq![s[0]] + rest =~= s);
    }
}

proof fn lemma_parse_pos_rt(b: Seq<u8>, p: int, id: ID, c: Coord)
    requires
        0 <= p,
        p + 24 <= b.len(),
        forall|i: int| 0 <= i < 24 ==> b[p + i] == #[trigger] pos_bytes(id, c)[i],
    ensures
        parse_pos(b, p) == Some(((id, c), p + 24)),
{
    let pb = pos_bytes(id, c);
    assert forall|i: int| 0 <= i < 8 implies b[p + i] == u64_le(id)[i] by {
        assert(b[p + i] == pb[i]);
        assert(pb[i] == u64_le(id)[i]);
    }
    lemma_u64_round_trip(b, p, id);
    assert forall|i: int| 0 <= i < 8 implies b[p + 8 + i] == u64_le(c.x)[i] by {
        assert(b[p + (8 + i)] == pb[8 + i]);
        assert(pb[8 + i] == u64_le(c.x)[i]);
    }
    lemma_u64_round_trip(b, p + 8, c.x);
    assert forall|i: int| 0 <= i < 8 implies b[p + 16 + i] == u64_le(c.y)[i] by {
        assert(b[p + (16 + i)] == pb[16 + i]);
        assert(pb[16 + i] == u64_le(c.y)[i]);
    }
    lemma_u64_round_trip(b, p + 16, c.y);
}

proof fn lemma_parse_poss_rt(b: Seq<u8>, p: int, s: Seq<(ID, Coord)>)
    requires
        0 <= p,
        p + poss_bytes(s).len() <= b.len(),
        forall|i: int| 0 <= i < poss_bytes(s).len() ==> b[p + i] == #[trigger] poss_bytes(s)[i],
    ensures
        parse_poss(b, p, s.len() as nat) == Some((s, p + poss_bytes(s).len() as int)),
    decreases s.len(),
{
    if s.len() == 0 {
        assert(s =~= Seq::<(ID, Coord)>::empty());
    } else {
        let rest = s.drop_first();
        assert forall|i: int| 0 <= i < 24 implies b[p + i] == #[trigger] pos_bytes(
            s[0].0,
            s[0].1,
        )[i] by {
            assert(b[p + i] == poss_bytes(s)[i]);
        }
        lemma_parse_pos_rt(b, p, s[0].0, s[0].1);
        assert forall|i: int| 0 <= i < poss_bytes(rest).len() implies b[p + 24 + i]
            == #[trigger] poss_bytes(rest)[i] by {
            assert(b[p + (24 + i)] == poss_bytes(s)[24 + i]);
        }
        lemma_parse_poss_rt(b, p + 24, rest);
        assert(seq![s[0]] + rest =~= s);
    }
}

/// Round trip for the graph-only blob: decoding what a well-formed
/// graph encodes yields that graph's parts exactly.
pub proof fn lemma_graph_round_trip(g: Graph)
    requires
        g.wf(),
    ensures
        parse_graph_blob(graph_blob_bytes(g.id_bound(), g.elems_seq())) == Some(
            (g.id_bound(), g.elems_seq()),
        ),
{
    g.lemma_elems_len_bounded();
    let next = g.id_bound();
    let s = g.elems_seq();
    let b = graph_blob_bytes(next, s);
    let body = graph_body_bytes(next, s);
    assert(b.len() == 4 + body.len());
    assert(body.len() == 16 + elems_bytes(s).len());
    assert(b.subrange(0, 4) =~= graph_magic());
    assert forall|i: int| 0 <= i < 8 implies b[4 + i] == u64_le(next)[i] by {
        assert(b[4 + i] == body[i]);
        assert(body[i] == u64_le(next)[i]);
    }
    lemma_u64_round_trip(b, 4, next);
    assert forall|i: int| 0 <= i < 8 implies #[trigger] b[12 + i] == u64_le(s.len() as u64)[i] by {
        assert(b[12 + i] == body[8 + i]);
        assert(body[8 + i] == u64_le(s.len() as u64)[i]);
    }
    lemma_u64_round_trip(b, 12, s.len() as u64);
    assert((s.len() as u64) as nat == s.len());
    assert forall|i: int| 0 <= i < elems_bytes(s).len() implies b[20 + i] == #[trigger] elems_bytes(
        s,
    )[i] by {
        assert(b[20 + i] == body[16 + i]);
        assert(body[16 + i] == elems_bytes(s)[i]);
    }
    lemma_parse_elems_rt(b, 20, s);
    g.lemma_wf_parts_valid();
}

/// Bytes of a concatenation, addressed from either part.
proof fn lemma_prefix_bytes(x: Seq<u8>, y: Seq<u8>)
    ensures
        forall|i: int| 0 <= i < x.len() ==> #[trigger] (x + y)[i] == x[i],
        forall|i: int| 0 <= i < y.len() ==> #[trigger] (x + y)[x.len() + i] == y[i],
{
}

/// Round trip for the full snapshot: decoding what a well-formed session
/// encodes yields that session's parts exactly — identities, endpoints,
/// overlay entries and view parameters included.
#[verifier::rlimit(100)]
pub proof fn lemma_snapshot_round_trip(st: GraphState)
    requires
        st.wf(),
    ensures
        parse_snapshot(
            snap_blob_bytes(
                st.graph.id_bound(),
                st.graph.elems_seq(),
                st.positions_seq(),
                st.camera,
            ),
        ) == Some(
            Snap {
                next: st.graph.id_bound(),
                elems: st.graph.elems_seq(),
                positions: st.positions_seq(),
                camera: st.camera,
            },
        ),
{
    st.graph.lemma_elems_len_bounded();
    st.lemma_state_parts();
    st.positions.lemma_len_bounded();
    let next = st.graph.id_bound();
    let s = st.graph.elems_seq();
    let ps = st.positions_seq();
    let cam = st.camera;
    let b = snap_blob_bytes(next, s, ps, cam);
    let a1 = snap_magic();
    let a2 = graph_body_bytes(next, s);
    let a3 = u64_le(ps.len() as u64);
    let a4 = poss_bytes(ps);
    let a5 = u64_le(cam.offset_x);
    let a6 = u64_le(cam.offset_y);
    let a7 = u64_le(cam.zoom);
    let q1 = a1 + a2;
    let q2 = q1 + a3;
    let q3 = q2 + a4;
    let q4 = q3 + a5;
    let q5 = q4 + a6;
    assert(b == q5 + a7);
    lemma_prefix_bytes(q5, a7);
    lemma_prefix_bytes(q4, a6);
    lemma_prefix_bytes(q3, a5);
    lemma_prefix_bytes(q2, a4);
    lemma_prefix_bytes(q1, a3);
    lemma_prefix_bytes(a1, a2);
    let b2 = u64_le(next) + u64_le(s.len() as u64);
    assert(a2 == b2 + elems_bytes(s));
    lemma_prefix_bytes(b2, elems_bytes(s));
    lemma_prefix_bytes(u64_le(next), u64_le(s.len() as u64));
    let p2 = 20 + elems_bytes(s).len() as int;
    let p3 = p2 + 8 + poss_bytes(ps).len() as int;
    assert(b.len() == p3 + 24);
    assert(b.subrange(0, 4) =~= snap_magic()) by {
        assert forall|i: int| 0 <= i < 4 implies b.subrange(0, 4)[i] == snap_magic()[i] by {
            assert(b[0 + i] == q5[0 + i]);
            assert(q5[0 + i] == q4[0 + i]);
            assert(q4[0 + i] == q3[0 + i]);
            assert(q3[0 + i] == q2[0 + i]);
            assert(q2[0 + i] == q1[0 + i]);
            assert(q1[0 + i] == a1[i]);
        }
    }
    assert forall|i: int| 0 <= i < 8 implies #[trigger] b[4 + i] == u64_le(next)[i] by {
        assert(b[4 + i] == q5[4 + i]);
        assert(q5[4 + i] == q4[4 + i]);
        assert(q4[4 + i] == q3[4 + i]);
        assert(q3[4 + i] == q2[4 + i]);
        assert(q2[4 + i] == q1[4 + i]);
        assert(q1[a1.len() + (i)] == a2[i]);
        assert(a2[0 + i] == b2[0 + i]);
        assert(b2[0 + i] == u64_le(next)[i]);
    }
    lemma_u64_round_trip(b, 4, next);
    assert forall|i: int| 0 <= i < 8 implies #[trigger] b[12 + i] == u64_le(s.len() as u64)[i] by {
        assert(b[12 + i] == q5[12 + i]);
        assert(q5[12 + i] == q4[12 + i]);
        assert(q4[12 + i] == q3[12 + i]);
        assert(q3[12 + i] == q2[12 + i]);
        assert(q2[12 + i] == q1[12 + i]);
        assert(q1[a1.len() + (8 + i)] == a2[8 + i]);
        assert(a2[8 + i] == b2[8 + i]);
        assert(b2[u64_le(next).len() + i] == u64_le(s.len() as u64)[i]);
    }
    lemma_u64_round_trip(b, 12, s.len() as u64);
    assert((s.len() as u64) as nat == s.len());
    assert forall|i: int| 0 <= i < elems_bytes(s).len() implies #[trigger] b[20 + i] == elems_bytes(
        s,
    )[i] by {
        assert(b[20 + i] == q5[20 + i]);
        assert(q5[20 + i] == q4[20 + i]);
        assert(q4[20 + i] == q3[20 + i]);
        assert(q3[20 + i] == q2[20 + i]);
        assert(q2[20 + i] == q1[20 + i]);
        assert(q1[a1.len() + (16 + i)] == a2[16 + i]);
        assert(a2[b2.len() + i] == elems_bytes(s)[i]);
    }
    lemma_parse_elems_rt(b, 20, s);
    assert forall|i: int| 0 <= i < 8 implies #[trigger] b[p2 + i] == u64_le(ps.len() as u64)[i] by {
        assert(b[p2 + i] == q5[p2 + i]);
        assert(q5[p2 + i] == q4[p2 + i]);
        assert(q4[p2 + i] == q3[p2 + i]);
        assert(q3[p2 + i] == q2[p2 + i]);
        assert(q2[q1.len() + i] == a3[i]);
    }
    lemma_u64_round_trip(b, p2, ps.len() as u64);
    assert((ps.len() as u64) as nat == ps.len());
    assert forall|i: int| 0 <= i < poss_bytes(ps).len() implies #[trigger] b[p2 + 8 + i]
        == poss_bytes(ps)[i] by {
        assert(b[p2 + 8 + i] == q5[p2 + 8 + i]);
        assert(q5[p2 + 8 + i] == q4[p2 + 8 + i]);
        assert(q4[p2 + 8 + i] == q3[p2 + 8 + i]);
        assert(q3[q2.len() + i] == a4[i]);
    }
    lemma_parse_poss_rt(b, p2 + 8, ps);
    assert forall|i: int| 0 <= i < 8 implies #[trigger] b[p3 + i] == u64_le(cam.offset_x)[i] by {
        assert(b[p3 + i] == q5[p3 + i]);
        assert(q5[p3 + i] == q4[p3 + i]);
        assert(q4[q3.len() + i] == a5[i]);
    }
    lemma_u64_round_trip(b, p3, cam.offset_x);
    assert forall|i: int| 0 <= i < 8 implies #[trigger] b[p3 + 8 + i] == u64_le(cam.offset_y)[i] by {
        assert(b[p3 + 8 + i] == q5[p3 + 8 + i]);
        assert(q5[q4.len() + i] == a6[i]);
    }
    lemma_u64_round_trip(b, p3 + 8, cam.offset_y);
    assert forall|i: int| 0 <= i < 8 implies #[trigger] b[p3 + 16 + i] == u64_le(cam.zoom)[i] by {
        assert(b[q5.len() + i] == a7[i]);
    }
    lemma_u64_round_trip(b, p3 + 16, cam.zoom);
    st.lemma_state_parts();
    st.graph.lemma_wf_parts_valid();
    st.lemma_wf_positions_distinct();
    assert(Camera { offset_x: u64_at(b, p3), offset_y: u64_at(b, p3 + 8), zoom: u64_at(b, p3 + 16) }
        == cam);
}

impl Graph {
    /// Restore a graph from a binary blob. Fails, with nothing built,
    /// exactly when the blob is malformed, truncated, carries trailing
    /// bytes, or does not describe a well-formed graph.
    pub fn from_binary(data: &[u8]) -> (r: Result<Graph, DecodeError>)
        ensures
            r matches Ok(g) ==> (parse_graph_blob(data@) matches Some((next, s)) && g.wf()
                && g.id_bound() == next && g.elems_seq() == s),
            r matches Err(_) ==> parse_graph_blob(data@) == None::<(ID, Seq<(ID, Kind)>)>,
    {
        if data.len() < 4 {
            return Err(DecodeError);
        }
        if !(data[0] == 0x45 && data[1] == 0x47 && data[2] == 0x47 && data[3] == 0x31) {
            proof {
                if data@.subrange(0, 4) == graph_magic() {
                    assert(data@[0] == data@.subrange(0, 4)[0]);
                    assert(data@[1] == data@.subrange(0, 4)[1]);
                    assert(data@[2] == data@.subrange(0, 4)[2]);
                    assert(data@[3] == data@.subrange(0, 4)[3]);
                }
            }
            return Err(DecodeError);
        }
        proof {
            assert(data@.subrange(0, 4) =~= graph_magic());
        }
        if data.len() - 4 < 16 {
            return Err(DecodeError);
        }
        let next = read_u64(data, 4);
        let cnt = read_u64(data, 12);
        match parse_elems_exec(data, 20, cnt) {
            Option::None => Err(DecodeError),
            Option::Some((elems, pos)) => {
                if pos != data.len() {
                    return Err(DecodeError);
                }
                match Graph::assemble(next, elems) {
                    Option::None => Err(DecodeError),
                    Option::Some(g) => Ok(g),
                }
            },
        }
    }
}

impl GraphState {
    /// Restore a whole session from a snapshot blob. Fails, with nothing
    /// built, exactly when the blob is malformed, truncated, carries
    /// trailing bytes, or does not describe a well-formed session; a
    /// failed load therefore leaves any existing state untouched.
    pub fn from_binary(data: &[u8]) -> (r: Result<GraphState, DecodeError>)
        ensures
            r matches Ok(st) ==> (parse_snapshot(data@) matches Some(sn) && st.wf()
                && st.graph.id_bound() == sn.next && st.graph.elems_seq() == sn.elems
                && st.positions_seq() == sn.positions && st.camera == sn.camera),
            r matches Err(_) ==> parse_snapshot(data@) == None::<Snap>,
    {
        if data.len() < 4 {
            return Err(DecodeError);
        }
        if !(data[0] == 0x45 && data[1] == 0x47 && data[2] == 0x53 && data[3] == 0x31) {
            proof {
                if data@.subrange(0, 4) == snap_magic() {
                    assert(data@[0] == data@.subrange(0, 4)[0]);
                    assert(data@[1] == data@.subrange(0, 4)[1]);
                    assert(data@[2] == data@.subrange(0, 4)[2]);
                    assert(data@[3] == data@.subrange(0, 4)[3]);
                }
            }
            return Err(DecodeError);
        }
        proof {
            assert(data@.subrange(0, 4) =~= snap_magic());
        }
        if data.len() - 4 < 16 {
            return Err(DecodeError);
        }
        let next = read_u64(data, 4);
        let cnt = read_u64(data, 12);
        match parse_elems_exec(data, 20, cnt) {
            Option::None => Err(DecodeError),
            Option::Some((elems, pos)) => {
                if data.len() - pos < 8 {
                    return Err(DecodeError);
                }
                let pcnt = read_u64(data, pos);
                match parse_poss_exec(data, pos + 8, pcnt) {
                    Option::None => Err(DecodeError),
                    Option::Some((ps, pos2)) => {
                        if data.len() - pos2 != 24 {
                            return Err(DecodeError);
                        }
                        let cam = Camera {
                            offset_x: read_u64(data, pos2),
                            offset_y: read_u64(data, pos2 + 8),
                            zoom: read_u64(data, pos2 + 16),
                        };
                        match Graph::assemble(next, elems) {
                            Option::None => Err(DecodeError),
                            Option::Some(g) => {
                                let m = ps.len();
                                let mut table: crate::table::Table<Coord> =
                                    crate::table::Table::new();
                                let mut i: usize = 0;
                                while i < m
                                    invariant
                                        0 <= i <= m,
                                        m == ps@.len(),
                                        table.wf(),
                                        table.entries_seq() == ps@.subrange(0, i as int),
                                    decreases m - i,
                                {
                                    let (id, c) = ps[i];
                                    if table.has(id) {
                                        proof {
                                            table.lemma_view_dom();
                                            let j = choose|j: int|
                                                0 <= j < table.entries_seq().len()
                                                    && #[trigger] table.entries_seq()[j].0 == id;
                                            assert(ps@[j] == table.entries_seq()[j]);
                                            assert(ps@[j].0 == ps@[i as int].0);
                                        }
                                        return Err(DecodeError);
                                    }
                                    proof {
                                        table.lemma_view_dom();
                                        assert(ps@[i as int] == (id, c));
                                    }
                                    table.push_entry(id, c);
                                    proof {
                                        assert(table.entries_seq() =~= ps@.subrange(0, i + 1));
                                    }
                                    i = i + 1;
                                }
                                proof {
                                    assert(ps@.subrange(0, m as int) =~= ps@);
                                    table.lemma_entries_distinct();
                                }
                                let st = GraphState { graph: g, positions: table, camera: cam };
                                proof {
                                    st.lemma_state_parts();
                                }
                                Ok(st)
                            },
                        }
                    },
                }
            },
        }
    }
}

impl Graph {
    /// Serialize the graph alone into a binary blob.
    pub fn to_binary(&self) -> (r: Vec<u8>)
        ensures
            r@ == graph_blob_bytes(self.id_bound(), self.elems_seq()),
    {
        let mut buf: Vec<u8> = Vec::new();
        buf.push(0x45u8);
        buf.push(0x47u8);
        buf.push(0x47u8);
        buf.push(0x31u8);
        proof {
            assert(buf@ =~= graph_magic());
        }
        encode_graph_body(&mut buf, self);
        proof {
            assert(buf@ =~= graph_blob_bytes(self.id_bound(), self.elems_seq()));
        }
        buf
    }
}

impl GraphState {
    /// Serialize the whole session — graph, overlay, view parameters —
    /// into one binary blob.
    pub fn to_binary(&self) -> (r: Vec<u8>)
        requires
            self.wf(),
        ensures
            r@ == snap_blob_bytes(
                self.graph.id_bound(),
                self.graph.elems_seq(),
                self.positions_seq(),
                self.camera,
            ),
    {
        proof {
            self.lemma_state_parts();
        }
        let mut buf: Vec<u8> = Vec::new();
        buf.push(0x45u8);
        buf.push(0x47u8);
        buf.push(0x53u8);
        buf.push(0x31u8);
        proof {
            assert(buf@ =~= snap_magic());
        }
        encode_graph_body(&mut buf, &self.graph);
        let ps = self.positions_list();
        push_u64(&mut buf, ps.len() as u64);
        encode_poss(&mut buf, &ps);
        push_u64(&mut buf, self.camera.offset_x);
        push_u64(&mut buf, self.camera.offset_y);
        push_u64(&mut buf, self.camera.zoom);
        proof {
            assert(buf@ =~= snap_blob_bytes(
                self.graph.id_bound(),
                self.graph.elems_seq(),
                self.positions_seq(),
                self.camera,
            ));
        }
        buf
    }
}

} // verus!
