//! The wire round trip: decoding what the encoder wrote gives back the
//! frame, bit for bit.

use vstd::prelude::*;

use crate::bytes::enc16;
use crate::bytes::enc32;
use crate::bytes::enc64;
use crate::bytes::lemma_enc16_at;
use crate::bytes::lemma_enc32_at;
use crate::bytes::lemma_enc64_at;
use crate::bytes::u16_at;
use crate::decode::colors_at;
use crate::decode::parse_topic_step;
use crate::decode::parse_topics;
use crate::decode::vertices_at;
use crate::decode::vertices_ok;
use crate::encode::enc_colors;
use crate::encode::enc_topic;
use crate::encode::enc_topics;
use crate::encode::enc_vertices;
use crate::encode::packed_layers;
use crate::encode::packed_syncs;
use crate::encode::tails_layers;
use crate::encode::tails_syncs;
use crate::frame::enc_vertex;
use crate::frame::Visibility;
use crate::frame::lemma_vertex_round_trip;
use crate::frame::vertex_at;
use crate::frame::FrameView;
use crate::frame::TopicRecordView;
use crate::vertex::Vertex;

verus! {

/// The color list's wire form is 5 bytes per entry, each slice holding its
/// entry.
proof fn lemma_enc_colors_slices(cs: Seq<(u8, u32)>)
    ensures
        enc_colors(cs).len() == 5 * cs.len(),
        forall|k: int|
            0 <= k < cs.len() ==> #[trigger] enc_colors(cs).subrange(5 * k, 5 * k + 5) == seq![
                cs[k].0,
            ] + enc32(cs[k].1),
    decreases cs.len(),
{
    if cs.len() > 0 {
        let dl = cs.drop_last();
        lemma_enc_colors_slices(dl);
        let whole = enc_colors(cs);
        let last_part = seq![cs.last().0] + enc32(cs.last().1);
        assert(last_part.len() == 5);
        assert(whole == enc_colors(dl) + last_part);
        assert forall|k: int|
            0 <= k < cs.len() implies #[trigger] whole.subrange(5 * k, 5 * k + 5) == seq![
            cs[k].0,
        ] + enc32(cs[k].1) by {
            if k < cs.len() - 1 {
                assert(dl[k] == cs[k]);
                assert(whole.subrange(5 * k, 5 * k + 5) =~= enc_colors(dl).subrange(
                    5 * k,
                    5 * k + 5,
                ));
            } else {
                assert(whole.subrange(5 * k, 5 * k + 5) =~= last_part);
            }
        }
    }
}

/// The sample list's wire form is 16 bytes per entry, each slice holding
/// its sample.
proof fn lemma_enc_vertices_slices(vs: Seq<Vertex>)
    ensures
        enc_vertices(vs).len() == 16 * vs.len(),
        forall|k: int|
            0 <= k < vs.len() ==> #[trigger] enc_vertices(vs).subrange(16 * k, 16 * k + 16)
                == enc_vertex(vs[k]),
    decreases vs.len(),
{
    if vs.len() > 0 {
        let dl = vs.drop_last();
        lemma_enc_vertices_slices(dl);
        let whole = enc_vertices(vs);
        assert(enc_vertex(vs.last()).len() == 16) by {
            assert(enc32(vs.last().x).len() == 4);
            assert(enc32(vs.last().y).len() == 4);
            assert(enc32(vs.last().extra).len() == 4);
        }
        assert(whole == enc_vertices(dl) + enc_vertex(vs.last()));
        assert forall|k: int|
            0 <= k < vs.len() implies #[trigger] whole.subrange(16 * k, 16 * k + 16) == enc_vertex(
            vs[k],
        ) by {
            if k < vs.len() - 1 {
                assert(dl[k] == vs[k]);
                assert(whole.subrange(16 * k, 16 * k + 16) =~= enc_vertices(dl).subrange(
                    16 * k,
                    16 * k + 16,
                ));
            } else {
                assert(whole.subrange(16 * k, 16 * k + 16) =~= enc_vertex(vs.last()));
            }
        }
    }
}

/// A record fit for the wire.
pub open spec fn wf_record(r: TopicRecordView, nsync: int, nlayer: int) -> bool {
    &&& r.name.len() <= 0xffff
    &&& r.colors.len() <= 0xffff
    &&& r.vertices.len() <= 0xffff
    &&& r.sync_set_index <= nsync
    &&& r.layer_index <= nlayer
}

/// One encoded record parses back to itself, with the parse continuing
/// right after it.
#[verifier::rlimit(100)]
proof fn lemma_topic_step_round(s: Seq<u8>, off: int, r: TopicRecordView, nsync: int, nlayer: int)
    requires
        0 <= off,
        off + enc_topic(r).len() <= s.len(),
        s.subrange(off, off + enc_topic(r).len()) == enc_topic(r),
        wf_record(r, nsync, nlayer),
        0 <= nsync <= 0xffff,
        0 <= nlayer <= 0xffff,
    ensures
        parse_topic_step(s, off, nsync, nlayer) == (Some(r), Some(off + enc_topic(r).len())),
{
    let e = enc_topic(r);
    let nl = r.name.len() as int;
    let nc = r.colors.len() as int;
    let nv = r.vertices.len() as int;
    lemma_enc_colors_slices(r.colors);
    lemma_enc_vertices_slices(r.vertices);
    let clear_byte = if r.clear {
        1u8
    } else {
        0u8
    };
    // the pieces of the record's wire form, in order, with their offsets
    // within it
    let p0 = enc16(r.name.len() as u16);
    let p1 = r.name;
    let p2 = enc16(r.sync_set_index);
    let p3 = enc16(r.layer_index);
    let p4 = seq![clear_byte];
    let p5 = enc32(r.capacity);
    let p6 = enc32(r.focus);
    let p7 = enc16(r.colors.len() as u16);
    let p8 = enc_colors(r.colors);
    let p9 = enc16(r.vertices.len() as u16);
    let p10 = enc_vertices(r.vertices);
    assert(e == p0 + p1 + p2 + p3 + p4 + p5 + p6 + p7 + p8 + p9 + p10);
    assert(p0.len() == 2 && p2.len() == 2 && p3.len() == 2 && p4.len() == 1 && p5.len() == 4
        && p6.len() == 4 && p7.len() == 2 && p9.len() == 2);
    let q1 = p0 + p1;
    let q2 = q1 + p2;
    let q3 = q2 + p3;
    let q4 = q3 + p4;
    let q5 = q4 + p5;
    let q6 = q5 + p6;
    let q7 = q6 + p7;
    let q8 = q7 + p8;
    let q9 = q8 + p9;
    assert(e == q9 + p10);
    assert(q1.len() == 2 + nl);
    assert(q2.len() == 4 + nl);
    assert(q3.len() == 6 + nl);
    assert(q4.len() == 7 + nl);
    assert(q5.len() == 11 + nl);
    assert(q6.len() == 15 + nl);
    assert(q7.len() == 17 + nl);
    assert(q8.len() == 17 + nl + 5 * nc);
    assert(q9.len() == 19 + nl + 5 * nc);
    assert(e.len() == 19 + nl + 5 * nc + 16 * nv);
    assert forall|m: int| 0 <= m < 2 implies e[m] == p0[m] by {}
    assert forall|m: int| 0 <= m < nl implies e[2 + m] == p1[m] by {
        assert(q1[2 + m] == p1[m]);
    }
    assert forall|m: int| 0 <= m < 2 implies e[2 + nl + m] == p2[m] by {
        assert(q2[2 + nl + m] == p2[m]);
    }
    assert forall|m: int| 0 <= m < 2 implies e[4 + nl + m] == p3[m] by {
        assert(q3[4 + nl + m] == p3[m]);
    }
    assert(e[6 + nl] == clear_byte) by {
        assert(q4[6 + nl] == p4[0]);
    }
    assert forall|m: int| 0 <= m < 4 implies e[7 + nl + m] == p5[m] by {
        assert(q5[7 + nl + m] == p5[m]);
    }
    assert forall|m: int| 0 <= m < 4 implies e[11 + nl + m] == p6[m] by {
        assert(q6[11 + nl + m] == p6[m]);
    }
    assert forall|m: int| 0 <= m < 2 implies e[15 + nl + m] == p7[m] by {
        assert(q7[15 + nl + m] == p7[m]);
    }
    assert forall|m: int| 0 <= m < 5 * nc implies e[17 + nl + m] == p8[m] by {
        assert(q8[17 + nl + m] == p8[m]);
    }
    assert forall|m: int| 0 <= m < 2 implies e[17 + nl + 5 * nc + m] == p9[m] by {
        assert(q9[17 + nl + 5 * nc + m] == p9[m]);
    }
    assert forall|m: int| 0 <= m < 16 * nv implies e[19 + nl + 5 * nc + m] == p10[m] by {}
    assert forall|k: int| 0 <= k < e.len() implies s[off + k] == e[k] by {
        assert(s.subrange(off, off + e.len())[k] == s[off + k]);
    }
    // the name length and name
    assert(s.subrange(off, off + 2) =~= p0);
    lemma_enc16_at(r.name.len() as u16, s, off);
    assert(u16_at(s, off) == nl);
    let name_end = off + 2 + nl;
    assert(s.subrange(off + 2, name_end) =~= p1);
    // the group index
    assert(s.subrange(name_end, name_end + 2) =~= p2);
    lemma_enc16_at(r.sync_set_index, s, name_end);
    let o = name_end + 2;
    // the layer index
    assert(s.subrange(o, o + 2) =~= p3);
    lemma_enc16_at(r.layer_index, s, o);
    // the clear byte
    assert(s[o + 2] == clear_byte);
    // capacity and focus
    assert(s.subrange(o + 3, o + 7) =~= p5);
    lemma_enc32_at(r.capacity, s, o + 3);
    assert(s.subrange(o + 7, o + 11) =~= p6);
    lemma_enc32_at(r.focus, s, o + 7);
    // the color count and colors
    assert(s.subrange(o + 11, o + 13) =~= p7);
    lemma_enc16_at(r.colors.len() as u16, s, o + 11);
    let ce = o + 13 + 5 * nc;
    assert forall|k: int| 0 <= k < nc implies #[trigger] colors_at(s, o + 13, nc)[k]
        == r.colors[k] by {
        assert(s.subrange(o + 13 + 5 * k, o + 13 + 5 * k + 5) =~= p8.subrange(5 * k, 5 * k + 5));
        let piece = seq![r.colors[k].0] + enc32(r.colors[k].1);
        assert(s.subrange(o + 13 + 5 * k, o + 13 + 5 * k + 5) == piece);
        assert forall|m: int| 0 <= m < 5 implies s[o + 13 + 5 * k + m] == piece[m] by {
            assert(s.subrange(o + 13 + 5 * k, o + 13 + 5 * k + 5)[m] == s[o + 13 + 5 * k + m]);
        }
        assert(piece[0] == r.colors[k].0);
        assert(s.subrange(o + 13 + 5 * k + 1, o + 13 + 5 * k + 5) =~= enc32(r.colors[k].1)) by {
            assert forall|m: int| 0 <= m < 4 implies piece[1 + m] == enc32(r.colors[k].1)[m] by {}
        }
        lemma_enc32_at(r.colors[k].1, s, o + 13 + 5 * k + 1);
    }
    assert(colors_at(s, o + 13, nc) =~= r.colors);
    // the sample count and samples
    assert(s.subrange(ce, ce + 2) =~= p9);
    lemma_enc16_at(r.vertices.len() as u16, s, ce);
    let vend = ce + 2 + 16 * nv;
    assert forall|k: int| 0 <= k < nv implies #[trigger] vertex_at(s, ce + 2 + 16 * k) == Some(
        r.vertices[k],
    ) by {
        assert(s.subrange(ce + 2 + 16 * k, ce + 2 + 16 * k + 16) =~= p10.subrange(
            16 * k,
            16 * k + 16,
        ));
        lemma_vertex_round_trip(r.vertices[k], s, ce + 2 + 16 * k);
    }
    assert(vertices_ok(s, ce + 2, nv));
    assert(vertices_at(s, ce + 2, nv) =~= r.vertices);
    assert(vend == off + e.len());
    let step = parse_topic_step(s, off, nsync, nlayer);
    assert(step.0 == Some(r)) by {
        assert(s.subrange(off + 2, off + 2 + nl) == r.name);
    }
    assert(step.1 == Some(off + e.len()));
}

/// An encoded record run parses back to itself.
proof fn lemma_topics_round(s: Seq<u8>, off: int, rs: Seq<TopicRecordView>, nsync: int, nlayer: int)
    requires
        0 <= off,
        s.len() == off + enc_topics(rs).len(),
        s.subrange(off, s.len() as int) == enc_topics(rs),
        forall|i: int| 0 <= i < rs.len() ==> wf_record(#[trigger] rs[i], nsync, nlayer),
        0 <= nsync <= 0xffff,
        0 <= nlayer <= 0xffff,
    ensures
        parse_topics(s, off, nsync, nlayer) == rs,
    decreases rs.len(),
{
    lemma_enc_topics_front(rs);
    if rs.len() == 0 {
        assert(enc_topics(rs).len() == 0);
        assert(parse_topics(s, off, nsync, nlayer) =~= Seq::<TopicRecordView>::empty()) by {
            assert(off + 2 > s.len());
        }
    } else {
        let r0 = rs[0];
        let rest = rs.skip(1);
        assert(enc_topics(rs) == enc_topic(r0) + enc_topics(rest));
        let mid = off + enc_topic(r0).len();
        assert forall|k: int| 0 <= k < enc_topics(rs).len() implies s[off + k] == enc_topics(
            rs,
        )[k] by {
            assert(s.subrange(off, s.len() as int)[k] == s[off + k]);
        }
        assert(s.subrange(off, mid) =~= enc_topic(r0));
        lemma_topic_step_round(s, off, r0, nsync, nlayer);
        assert(s.subrange(mid, s.len() as int) =~= enc_topics(rest)) by {
            assert forall|m: int|
                0 <= m < enc_topics(rest).len() implies s[mid + m] == enc_topics(rest)[m] by {
                assert(s[off + (enc_topic(r0).len() + m)] == enc_topics(rs)[enc_topic(r0).len()
                    + m]);
                assert((enc_topic(r0) + enc_topics(rest))[enc_topic(r0).len() + m] == enc_topics(
                    rest,
                )[m]);
            }
        }
        assert forall|i: int| 0 <= i < rest.len() implies wf_record(
            #[trigger] rest[i],
            nsync,
            nlayer,
        ) by {
            assert(rest[i] == rs[i + 1]);
        }
        lemma_topics_round(s, mid, rest, nsync, nlayer);
        assert(parse_topics(s, off, nsync, nlayer) =~= seq![r0] + parse_topics(
            s,
            mid,
            nsync,
            nlayer,
        ));
        assert(seq![r0] + rest =~= rs);
    }
}

/// The record run's wire form unfolds from the front as well.
proof fn lemma_enc_topics_front(rs: Seq<TopicRecordView>)
    ensures
        rs.len() > 0 ==> enc_topics(rs) == enc_topic(rs[0]) + enc_topics(rs.skip(1)),
    decreases rs.len(),
{
    if rs.len() == 1 {
        assert(rs.drop_last() =~= Seq::<TopicRecordView>::empty());
        assert(rs.skip(1) =~= Seq::<TopicRecordView>::empty());
        assert(enc_topics(rs) == enc_topics(rs.drop_last()) + enc_topic(rs.last()));
        assert(enc_topics(rs.drop_last()) =~= Seq::<u8>::empty());
        assert(enc_topics(rs) =~= enc_topic(rs[0]) + enc_topics(rs.skip(1)));
    } else if rs.len() > 1 {
        let dl = rs.drop_last();
        lemma_enc_topics_front(dl);
        assert(dl[0] == rs[0]);
        assert(rs.skip(1).drop_last() =~= dl.skip(1));
        assert(rs.skip(1).last() == rs.last());
        assert(enc_topics(rs.skip(1)) == enc_topics(dl.skip(1)) + enc_topic(rs.last()));
        assert(enc_topics(rs) == enc_topic(rs[0]) + enc_topics(dl.skip(1)) + enc_topic(rs.last()))
            by {
            assert(enc_topics(dl) == enc_topic(dl[0]) + enc_topics(dl.skip(1)));
        }
        assert(enc_topic(rs[0]) + enc_topics(dl.skip(1)) + enc_topic(rs.last()) =~= enc_topic(
            rs[0],
        ) + (enc_topics(dl.skip(1)) + enc_topic(rs.last())));
    }
}


/// Where entry `i` starts inside the packed sync region.
pub open spec fn cum_syncs(es: Seq<(Seq<u8>, u64)>, i: int) -> int {
    packed_syncs(es.take(i)).len() as int
}

/// Where entry `i` starts inside the packed layer region.
pub open spec fn cum_layers(es: Seq<(Seq<u8>, Visibility)>, i: int) -> int {
    packed_layers(es.take(i)).len() as int
}

proof fn lemma_cum_syncs(es: Seq<(Seq<u8>, u64)>, i: int)
    requires
        0 <= i <= es.len(),
    ensures
        cum_syncs(es, 0) == 0,
        i < es.len() ==> cum_syncs(es, i + 1) == cum_syncs(es, i) + 8 + es[i].0.len(),
        cum_syncs(es, i) <= cum_syncs(es, es.len() as int),
        cum_syncs(es, es.len() as int) == packed_syncs(es).len(),
    decreases es.len() - i,
{
    assert(es.take(0) =~= Seq::<(Seq<u8>, u64)>::empty());
    assert(es.take(es.len() as int) =~= es);
    if i < es.len() {
        assert(es.take(i + 1).drop_last() =~= es.take(i));
        assert(es.take(i + 1).last() == es[i]);
        assert(enc64(es[i].1).len() == 8) by {
            assert(enc32((es[i].1 & 0xffff_ffff) as u32).len() == 4);
            assert(enc32(((es[i].1 >> 32) & 0xffff_ffff) as u32).len() == 4);
        }
        lemma_cum_syncs(es, i + 1);
    }
}

proof fn lemma_cum_layers(es: Seq<(Seq<u8>, Visibility)>, i: int)
    requires
        0 <= i <= es.len(),
    ensures
        cum_layers(es, 0) == 0,
        i < es.len() ==> cum_layers(es, i + 1) == cum_layers(es, i) + 1 + es[i].0.len(),
        cum_layers(es, i) <= cum_layers(es, es.len() as int),
        cum_layers(es, es.len() as int) == packed_layers(es).len(),
    decreases es.len() - i,
{
    assert(es.take(0) =~= Seq::<(Seq<u8>, Visibility)>::empty());
    assert(es.take(es.len() as int) =~= es);
    if i < es.len() {
        assert(es.take(i + 1).drop_last() =~= es.take(i));
        assert(es.take(i + 1).last() == es[i]);
        lemma_cum_layers(es, i + 1);
    }
}

proof fn lemma_packed_syncs_slices(es: Seq<(Seq<u8>, u64)>)
    ensures
        forall|i: int|
            0 <= i < es.len() ==> #[trigger] packed_syncs(es).subrange(
                cum_syncs(es, i),
                cum_syncs(es, i + 1),
            ) == enc64(es[i].1) + es[i].0,
    decreases es.len(),
{
    if es.len() > 0 {
        let n = es.len() as int;
        let dl = es.drop_last();
        lemma_packed_syncs_slices(dl);
        assert forall|i: int|
            0 <= i < n implies #[trigger] packed_syncs(es).subrange(
            cum_syncs(es, i),
            cum_syncs(es, i + 1),
        ) == enc64(es[i].1) + es[i].0 by {
            lemma_cum_syncs(es, i);
            assert(packed_syncs(es) == packed_syncs(dl) + enc64(es.last().1) + es.last().0);
            if i < n - 1 {
                assert(dl[i] == es[i]);
                assert forall|j: int| 0 <= j <= i + 1 implies cum_syncs(dl, j) == cum_syncs(
                    es,
                    j,
                ) by {
                    assert(dl.take(j) =~= es.take(j));
                }
                lemma_cum_syncs(dl, i);
                lemma_cum_syncs(dl, i + 1);
                assert(cum_syncs(es, i + 1) <= packed_syncs(dl).len());
                assert(packed_syncs(es).subrange(cum_syncs(es, i), cum_syncs(es, i + 1))
                    =~= packed_syncs(dl).subrange(cum_syncs(dl, i), cum_syncs(dl, i + 1)));
            } else {
                assert(es.take(n - 1) =~= dl);
                assert(cum_syncs(es, n - 1) == packed_syncs(dl).len());
                lemma_cum_syncs(es, n - 1);
                assert(enc64(es[i].1).len() == 8) by {
                    assert(enc32((es[i].1 & 0xffff_ffff) as u32).len() == 4);
                    assert(enc32(((es[i].1 >> 32) & 0xffff_ffff) as u32).len() == 4);
                }
                assert(packed_syncs(es).subrange(cum_syncs(es, i), cum_syncs(es, i + 1))
                    =~= enc64(es[i].1) + es[i].0);
            }
        }
    }
}

proof fn lemma_packed_layers_slices(es: Seq<(Seq<u8>, Visibility)>)
    ensures
        forall|i: int|
            0 <= i < es.len() ==> #[trigger] packed_layers(es).subrange(
                cum_layers(es, i),
                cum_layers(es, i + 1),
            ) == seq![es[i].1.spec_byte()] + es[i].0,
    decreases es.len(),
{
    if es.len() > 0 {
        let n = es.len() as int;
        let dl = es.drop_last();
        lemma_packed_layers_slices(dl);
        assert forall|i: int|
            0 <= i < n implies #[trigger] packed_layers(es).subrange(
            cum_layers(es, i),
            cum_layers(es, i + 1),
        ) == seq![es[i].1.spec_byte()] + es[i].0 by {
            lemma_cum_layers(es, i);
            assert(packed_layers(es) == packed_layers(dl) + seq![es.last().1.spec_byte()]
                + es.last().0);
            if i < n - 1 {
                assert(dl[i] == es[i]);
                assert forall|j: int| 0 <= j <= i + 1 implies cum_layers(dl, j) == cum_layers(
                    es,
                    j,
                ) by {
                    assert(dl.take(j) =~= es.take(j));
                }
                lemma_cum_layers(dl, i);
                lemma_cum_layers(dl, i + 1);
                assert(cum_layers(es, i + 1) <= packed_layers(dl).len());
                assert(packed_layers(es).subrange(cum_layers(es, i), cum_layers(es, i + 1))
                    =~= packed_layers(dl).subrange(cum_layers(dl, i), cum_layers(dl, i + 1)));
            } else {
                assert(es.take(n - 1) =~= dl);
                assert(cum_layers(es, n - 1) == packed_layers(dl).len());
                lemma_cum_layers(es, n - 1);
                assert(packed_layers(es).subrange(cum_layers(es, i), cum_layers(es, i + 1)) =~= seq![
                    es[i].1.spec_byte(),
                ] + es[i].0);
            }
        }
    }
}

proof fn lemma_tails_syncs_slices(es: Seq<(Seq<u8>, u64)>)
    ensures
        tails_syncs(es).len() == 2 * es.len(),
        forall|i: int|
            0 <= i < es.len() ==> #[trigger] tails_syncs(es).subrange(2 * i, 2 * i + 2) == enc16(
                cum_syncs(es, i + 1) as u16,
            ),
    decreases es.len(),
{
    if es.len() > 0 {
        let n = es.len() as int;
        let dl = es.drop_last();
        lemma_tails_syncs_slices(dl);
        assert(tails_syncs(es) == tails_syncs(dl) + enc16(packed_syncs(es).len() as u16));
        assert forall|i: int|
            0 <= i < n implies #[trigger] tails_syncs(es).subrange(2 * i, 2 * i + 2) == enc16(
            cum_syncs(es, i + 1) as u16,
        ) by {
            if i < n - 1 {
                assert(dl[i] == es[i]);
                assert(dl.take(i + 1) =~= es.take(i + 1));
                assert(tails_syncs(es).subrange(2 * i, 2 * i + 2) =~= tails_syncs(dl).subrange(
                    2 * i,
                    2 * i + 2,
                ));
            } else {
                assert(es.take(n) =~= es);
                assert(tails_syncs(es).subrange(2 * i, 2 * i + 2) =~= enc16(
                    packed_syncs(es).len() as u16,
                ));
            }
        }
    }
}

proof fn lemma_tails_layers_slices(es: Seq<(Seq<u8>, Visibility)>)
    ensures
        tails_layers(es).len() == 2 * es.len(),
        forall|i: int|
            0 <= i < es.len() ==> #[trigger] tails_layers(es).subrange(2 * i, 2 * i + 2) == enc16(
                cum_layers(es, i + 1) as u16,
            ),
    decreases es.len(),
{
    if es.len() > 0 {
        let n = es.len() as int;
        let dl = es.drop_last();
        lemma_tails_layers_slices(dl);
        assert(tails_layers(es) == tails_layers(dl) + enc16(packed_layers(es).len() as u16));
        assert forall|i: int|
            0 <= i < n implies #[trigger] tails_layers(es).subrange(2 * i, 2 * i + 2) == enc16(
            cum_layers(es, i + 1) as u16,
        ) by {
            if i < n - 1 {
                assert(dl[i] == es[i]);
                assert(dl.take(i + 1) =~= es.take(i + 1));
                assert(tails_layers(es).subrange(2 * i, 2 * i + 2) =~= tails_layers(dl).subrange(
                    2 * i,
                    2 * i + 2,
                ));
            } else {
                assert(es.take(n) =~= es);
                assert(tails_layers(es).subrange(2 * i, 2 * i + 2) =~= enc16(
                    packed_layers(es).len() as u16,
                ));
            }
        }
    }
}


/// The sync table's wire form parses back to its entries.
#[verifier::rlimit(100)]
proof fn lemma_sync_table_round(s: Seq<u8>, off: int, es: Seq<(Seq<u8>, u64)>)
    requires
        0 <= off,
        es.len() <= 0xffff,
        packed_syncs(es).len() <= 0xffff,
        off + 2 + 2 * es.len() + packed_syncs(es).len() <= s.len(),
        s.subrange(off, off + 2 + 2 * es.len() + packed_syncs(es).len()) == enc16(
            es.len() as u16,
        ) + tails_syncs(es) + packed_syncs(es),
    ensures
        crate::decode::table_valid(s, off, 8),
        crate::decode::table_count(s, off) == es.len(),
        crate::decode::table_end(s, off) == off + 2 + 2 * es.len() + packed_syncs(es).len(),
        crate::decode::sync_entries(s, off) == es,
{
    let n = es.len() as int;
    let pl = packed_syncs(es).len() as int;
    let tbl = 2 + 2 * n + pl;
    let t = enc16(es.len() as u16) + tails_syncs(es) + packed_syncs(es);
    lemma_tails_syncs_slices(es);
    lemma_packed_syncs_slices(es);
    assert(t.len() == tbl);
    assert forall|k: int| 0 <= k < tbl implies s[off + k] == t[k] by {
        assert(s.subrange(off, off + tbl)[k] == s[off + k]);
    }
    let q1 = enc16(es.len() as u16) + tails_syncs(es);
    assert(t == q1 + packed_syncs(es));
    assert(q1.len() == 2 + 2 * n);
    assert forall|m: int| 0 <= m < 2 * n implies t[2 + m] == tails_syncs(es)[m] by {
        assert(q1[2 + m] == tails_syncs(es)[m]);
    }
    assert forall|m: int| 0 <= m < pl implies t[2 + 2 * n + m] == packed_syncs(es)[m] by {}
    assert forall|m: int| 0 <= m < pl implies s[off + 2 + 2 * es.len() + m] == packed_syncs(
        es,
    )[m] by {
        assert(s[off + (2 + 2 * n + m)] == t[2 + 2 * n + m]);
    }
    // the count
    assert(s.subrange(off, off + 2) =~= enc16(es.len() as u16));
    lemma_enc16_at(es.len() as u16, s, off);
    assert(crate::decode::table_count(s, off) == n);
    let ps = off + 2 + 2 * n;
    assert(crate::decode::table_packed(s, off) == ps);
    // each tail offset reads back the cumulative end of its entry
    assert forall|i: int| 0 <= i < n implies #[trigger] crate::decode::table_tail(s, off, i)
        == cum_syncs(es, i + 1) by {
        lemma_cum_syncs(es, i);
        lemma_cum_syncs(es, i + 1);
        assert(s.subrange(off + 2 + 2 * i, off + 2 + 2 * i + 2) =~= tails_syncs(es).subrange(
            2 * i,
            2 * i + 2,
        ));
        lemma_enc16_at(cum_syncs(es, i + 1) as u16, s, off + 2 + 2 * i);
    }
    assert forall|i: int| 0 <= i < n implies #[trigger] crate::decode::table_start(s, off, i)
        == cum_syncs(es, i) by {
        if i > 0 {
            lemma_cum_syncs(es, i - 1);
        } else {
            lemma_cum_syncs(es, 0);
        }
    }
    assert forall|i: int| 0 <= i < n implies #[trigger] crate::decode::table_tail(s, off, i)
        >= crate::decode::table_start(s, off, i) + 8 by {
        lemma_cum_syncs(es, i);
    }
    if n > 0 {
        lemma_cum_syncs(es, n);
        assert(crate::decode::table_tail(s, off, n - 1) == cum_syncs(es, n));
    }
    assert(crate::decode::table_end(s, off) == off + tbl);
    assert(crate::decode::table_valid(s, off, 8));
    // each entry reads back its age limit and name
    assert forall|i: int| 0 <= i < n implies #[trigger] crate::decode::sync_entries(s, off)[i]
        == es[i] by {
        lemma_sync_entry_round(s, off, es, i);
    }
    assert(crate::decode::sync_entries(s, off) =~= es);
}

/// One packed sync entry reads back its age limit and name.
proof fn lemma_sync_entry_round(s: Seq<u8>, off: int, es: Seq<(Seq<u8>, u64)>, i: int)
    requires
        0 <= off,
        0 <= i < es.len(),
        es.len() <= 0xffff,
        packed_syncs(es).len() <= 0xffff,
        off + 2 + 2 * es.len() + packed_syncs(es).len() <= s.len(),
        crate::decode::table_count(s, off) == es.len(),
        crate::decode::table_tail(s, off, i) == cum_syncs(es, i + 1),
        crate::decode::table_start(s, off, i) == cum_syncs(es, i),
        forall|m: int|
            0 <= m < packed_syncs(es).len() ==> s[off + 2 + 2 * es.len() + m] == packed_syncs(
                es,
            )[m],
    ensures
        crate::decode::sync_entries(s, off)[i] == es[i],
{
    lemma_packed_syncs_slices(es);
    lemma_cum_syncs(es, i);
    lemma_cum_syncs(es, i + 1);
    let n = es.len() as int;
    let ps = off + 2 + 2 * n;
    let a = cum_syncs(es, i);
    let b = cum_syncs(es, i + 1);
    let piece = enc64(es[i].1) + es[i].0;
    assert(enc64(es[i].1).len() == 8) by {
        assert(enc32((es[i].1 & 0xffff_ffff) as u32).len() == 4);
        assert(enc32(((es[i].1 >> 32) & 0xffff_ffff) as u32).len() == 4);
    }
    assert(packed_syncs(es).subrange(a, b) == piece);
    assert forall|m: int| 0 <= m < b - a implies s[ps + a + m] == piece[m] by {
        assert(packed_syncs(es).subrange(a, b)[m] == packed_syncs(es)[a + m]);
        assert(s[off + 2 + 2 * es.len() + (a + m)] == packed_syncs(es)[a + m]);
    }
    assert(s.subrange(ps + a, ps + a + 8) =~= enc64(es[i].1)) by {
        assert forall|m: int|
            0 <= m < 8 implies s.subrange(ps + a, ps + a + 8)[m] == enc64(es[i].1)[m] by {
            assert(s.subrange(ps + a, ps + a + 8)[m] == s[ps + a + m]);
            assert(piece[m] == enc64(es[i].1)[m]);
        }
    }
    lemma_enc64_at(es[i].1, s, ps + a);
    assert(crate::decode::table_name(s, off, 8, i) =~= es[i].0) by {
        let nm = es[i].0;
        assert forall|m: int|
            0 <= m < nm.len() implies crate::decode::table_name(s, off, 8, i)[m] == nm[m] by {
            assert(crate::decode::table_name(s, off, 8, i)[m] == s[ps + a + 8 + m]);
            assert(s[ps + a + (8 + m)] == piece[8 + m]);
            assert(piece[8 + m] == nm[m]);
        }
        assert(crate::decode::table_name(s, off, 8, i).len() == nm.len());
    }
}

/// The layer table's wire form parses back to its entries.
#[verifier::rlimit(100)]
proof fn lemma_layer_table_round(s: Seq<u8>, off: int, es: Seq<(Seq<u8>, Visibility)>)
    requires
        0 <= off,
        es.len() <= 0xffff,
        packed_layers(es).len() <= 0xffff,
        off + 2 + 2 * es.len() + packed_layers(es).len() <= s.len(),
        s.subrange(off, off + 2 + 2 * es.len() + packed_layers(es).len()) == enc16(
            es.len() as u16,
        ) + tails_layers(es) + packed_layers(es),
    ensures
        crate::decode::table_valid(s, off, 1),
        crate::decode::layers_ok(s, off),
        crate::decode::table_count(s, off) == es.len(),
        crate::decode::table_end(s, off) == off + 2 + 2 * es.len() + packed_layers(es).len(),
        crate::decode::layer_entries(s, off) == es,
{
    let n = es.len() as int;
    let pl = packed_layers(es).len() as int;
    let tbl = 2 + 2 * n + pl;
    let t = enc16(es.len() as u16) + tails_layers(es) + packed_layers(es);
    lemma_tails_layers_slices(es);
    lemma_packed_layers_slices(es);
    assert(t.len() == tbl);
    assert forall|k: int| 0 <= k < tbl implies s[off + k] == t[k] by {
        assert(s.subrange(off, off + tbl)[k] == s[off + k]);
    }
    let q1 = enc16(es.len() as u16) + tails_layers(es);
    assert(t == q1 + packed_layers(es));
    assert(q1.len() == 2 + 2 * n);
    assert forall|m: int| 0 <= m < 2 * n implies t[2 + m] == tails_layers(es)[m] by {
        assert(q1[2 + m] == tails_layers(es)[m]);
    }
    assert forall|m: int| 0 <= m < pl implies t[2 + 2 * n + m] == packed_layers(es)[m] by {}
    assert forall|m: int| 0 <= m < pl implies s[off + 2 + 2 * es.len() + m] == packed_layers(
        es,
    )[m] by {
        assert(s[off + (2 + 2 * n + m)] == t[2 + 2 * n + m]);
    }
    assert(s.subrange(off, off + 2) =~= enc16(es.len() as u16));
    lemma_enc16_at(es.len() as u16, s, off);
    assert(crate::decode::table_count(s, off) == n);
    let ps = off + 2 + 2 * n;
    assert forall|i: int| 0 <= i < n implies #[trigger] crate::decode::table_tail(s, off, i)
        == cum_layers(es, i + 1) by {
        lemma_cum_layers(es, i);
        lemma_cum_layers(es, i + 1);
        assert(s.subrange(off + 2 + 2 * i, off + 2 + 2 * i + 2) =~= tails_layers(es).subrange(
            2 * i,
            2 * i + 2,
        ));
        lemma_enc16_at(cum_layers(es, i + 1) as u16, s, off + 2 + 2 * i);
    }
    assert forall|i: int| 0 <= i < n implies #[trigger] crate::decode::table_start(s, off, i)
        == cum_layers(es, i) by {
        if i > 0 {
            lemma_cum_layers(es, i - 1);
        } else {
            lemma_cum_layers(es, 0);
        }
    }
    assert forall|i: int| 0 <= i < n implies #[trigger] crate::decode::table_tail(s, off, i)
        >= crate::decode::table_start(s, off, i) + 1 by {
        lemma_cum_layers(es, i);
    }
    if n > 0 {
        lemma_cum_layers(es, n);
        assert(crate::decode::table_tail(s, off, n - 1) == cum_layers(es, n));
    }
    assert(crate::decode::table_end(s, off) == off + tbl);
    assert(crate::decode::table_valid(s, off, 1));
    assert forall|i: int| 0 <= i < n implies Visibility::spec_from_byte(
        #[trigger] s[crate::decode::table_packed(s, off) + crate::decode::table_start(s, off, i)],
    ) is Some by {
        lemma_layer_entry_round(s, off, es, i);
    }
    assert(crate::decode::layers_ok(s, off));
    assert forall|i: int| 0 <= i < n implies #[trigger] crate::decode::layer_entries(s, off)[i]
        == es[i] by {
        lemma_layer_entry_round(s, off, es, i);
    }
    assert(crate::decode::layer_entries(s, off) =~= es);
}

/// One packed layer entry reads back its visibility byte and name.
proof fn lemma_layer_entry_round(s: Seq<u8>, off: int, es: Seq<(Seq<u8>, Visibility)>, i: int)
    requires
        0 <= off,
        0 <= i < es.len(),
        es.len() <= 0xffff,
        packed_layers(es).len() <= 0xffff,
        off + 2 + 2 * es.len() + packed_layers(es).len() <= s.len(),
        crate::decode::table_count(s, off) == es.len(),
        crate::decode::table_tail(s, off, i) == cum_layers(es, i + 1),
        crate::decode::table_start(s, off, i) == cum_layers(es, i),
        forall|m: int|
            0 <= m < packed_layers(es).len() ==> s[off + 2 + 2 * es.len() + m] == packed_layers(
                es,
            )[m],
    ensures
        Visibility::spec_from_byte(
            s[crate::decode::table_packed(s, off) + crate::decode::table_start(s, off, i)],
        ) == Some(es[i].1),
        crate::decode::layer_entries(s, off)[i] == es[i],
{
    lemma_packed_layers_slices(es);
    lemma_cum_layers(es, i);
    lemma_cum_layers(es, i + 1);
    let n = es.len() as int;
    let ps = off + 2 + 2 * n;
    let a = cum_layers(es, i);
    let b = cum_layers(es, i + 1);
    let piece = seq![es[i].1.spec_byte()] + es[i].0;
    assert(packed_layers(es).subrange(a, b) == piece);
    assert forall|m: int| 0 <= m < b - a implies s[ps + a + m] == piece[m] by {
        assert(packed_layers(es).subrange(a, b)[m] == packed_layers(es)[a + m]);
        assert(s[off + 2 + 2 * es.len() + (a + m)] == packed_layers(es)[a + m]);
    }
    assert(s[ps + a + 0] == piece[0]);
    assert(s[ps + a] == es[i].1.spec_byte());
    assert(crate::decode::table_name(s, off, 1, i) =~= es[i].0) by {
        let nm = es[i].0;
        assert forall|m: int|
            0 <= m < nm.len() implies crate::decode::table_name(s, off, 1, i)[m] == nm[m] by {
            assert(crate::decode::table_name(s, off, 1, i)[m] == s[ps + a + 1 + m]);
            assert(s[ps + a + (1 + m)] == piece[1 + m]);
            assert(piece[1 + m] == nm[m]);
        }
        assert(crate::decode::table_name(s, off, 1, i).len() == nm.len());
    }
}


/// The wire round trip: a well-formed frame, encoded and decoded, comes
/// back exactly — the camera, every sync group with its age limit, every
/// layer with its visibility, and every topic record with its samples,
/// bit for bit.
#[verifier::rlimit(100)]
pub proof fn lemma_wire_round_trip(fv: FrameView)
    requires
        crate::encode::wf_frame(fv),
    ensures
        crate::decode::spec_decode(crate::encode::spec_encode(fv)) == fv,
{
    let s = crate::encode::spec_encode(fv);
    let cam = fv.camera->Some_0;
    let n1 = fv.sync_sets.len() as int;
    let n2 = fv.layers.len() as int;
    lemma_tails_syncs_slices(fv.sync_sets);
    lemma_tails_layers_slices(fv.layers);
    let t1 = enc16(fv.sync_sets.len() as u16) + tails_syncs(fv.sync_sets) + packed_syncs(
        fv.sync_sets,
    );
    let t2 = enc16(fv.layers.len() as u16) + tails_layers(fv.layers) + packed_layers(fv.layers);
    let r = enc_topics(fv.topics);
    let tbl1 = t1.len() as int;
    let tbl2 = t2.len() as int;
    assert(tbl1 == 2 + 2 * n1 + packed_syncs(fv.sync_sets).len());
    assert(tbl2 == 2 + 2 * n2 + packed_layers(fv.layers).len());
    let c0 = enc32(cam.x);
    let c1 = enc32(cam.y);
    let c2 = enc32(cam.scale_x);
    let c3 = enc32(cam.scale_y);
    let q1 = c0 + c1;
    let q2 = q1 + c2;
    let q3 = q2 + c3;
    let q4 = q3 + t1;
    let q5 = q4 + t2;
    assert(s == q5 + r) by {
        assert(s == c0 + c1 + c2 + c3 + enc16(fv.sync_sets.len() as u16) + tails_syncs(
            fv.sync_sets,
        ) + packed_syncs(fv.sync_sets) + enc16(fv.layers.len() as u16) + tails_layers(fv.layers)
            + packed_layers(fv.layers) + enc_topics(fv.topics));
        assert(q4 =~= c0 + c1 + c2 + c3 + enc16(fv.sync_sets.len() as u16) + tails_syncs(
            fv.sync_sets,
        ) + packed_syncs(fv.sync_sets));
        assert(q5 =~= q4 + enc16(fv.layers.len() as u16) + tails_layers(fv.layers) + packed_layers(
            fv.layers,
        ));
        assert(s =~= q5 + r);
    }
    assert(q3.len() == 16);
    assert(q4.len() == 16 + tbl1);
    assert(q5.len() == 16 + tbl1 + tbl2);
    let off1 = 16 + tbl1;
    let off2 = off1 + tbl2;
    assert(s.len() == off2 + r.len());
    // the camera
    assert(s.subrange(0, 4) =~= c0);
    assert(s.subrange(4, 8) =~= c1) by {
        assert forall|m: int| 0 <= m < 4 implies s[4 + m] == c1[m] by {
            assert(q1[4 + m] == c1[m]);
        }
    }
    assert(s.subrange(8, 12) =~= c2) by {
        assert forall|m: int| 0 <= m < 4 implies s[8 + m] == c2[m] by {
            assert(q2[8 + m] == c2[m]);
        }
    }
    assert(s.subrange(12, 16) =~= c3) by {
        assert forall|m: int| 0 <= m < 4 implies s[12 + m] == c3[m] by {
            assert(q3[12 + m] == c3[m]);
        }
    }
    crate::bytes::lemma_enc32_at(cam.x, s, 0);
    crate::bytes::lemma_enc32_at(cam.y, s, 4);
    crate::bytes::lemma_enc32_at(cam.scale_x, s, 8);
    crate::bytes::lemma_enc32_at(cam.scale_y, s, 12);
    // the sync-group table
    assert(s.subrange(16, off1) =~= t1) by {
        assert forall|m: int| 0 <= m < tbl1 implies s[16 + m] == t1[m] by {
            assert(q4[16 + m] == t1[m]);
        }
    }
    lemma_sync_table_round(s, 16, fv.sync_sets);
    assert(crate::decode::table_end(s, 16) == off1);
    // the layer table
    assert(s.subrange(off1, off2) =~= t2) by {
        assert forall|m: int| 0 <= m < tbl2 implies s[off1 + m] == t2[m] by {
            assert(q5[off1 + m] == t2[m]);
        }
    }
    lemma_layer_table_round(s, off1, fv.layers);
    assert(crate::decode::table_end(s, off1) == off2);
    // the topic records
    assert(s.subrange(off2, s.len() as int) =~= r) by {
        assert forall|m: int| 0 <= m < r.len() implies s[off2 + m] == r[m] by {
            assert((q5 + r)[off2 + m] == r[m]);
        }
    }
    assert forall|i: int| 0 <= i < fv.topics.len() implies wf_record(
        #[trigger] fv.topics[i],
        n1,
        n2,
    ) by {}
    lemma_topics_round(s, off2, fv.topics, n1, n2);
    // assemble
    let d = crate::decode::spec_decode(s);
    assert(d.camera == Some(cam));
    assert(d.sync_sets == fv.sync_sets);
    assert(d.layers == fv.layers);
    assert(d.topics == fv.topics);
}

} // verus!
