//! Buffer serialization: quads and lines flattened into flat sequences of
//! 32-bit words, each the bit pattern of a single-precision float.
//!
//! A quad contributes four vertices of seven words each: the three vertex
//! coordinates, the packed color reinterpreted as float bits, and the
//! three components of the outward normal. A line contributes two
//! endpoints of four words each: the three endpoint coordinates and the
//! color bits.

use crate::edges::Line;
use crate::floatbits::{float_bits, float_bits_of};
use crate::pos::step_spec;
use crate::quad::{corners_spec, quad_in_bounds, Quad};
use vstd::prelude::*;

verus! {

/// The seven buffer words of one quad vertex.
pub open spec fn vertex_floats(q: Quad, i: int) -> Seq<u32> {
    let c = corners_spec(q)[i];
    let n = step_spec(q.dir);
    seq![
        float_bits_of(c.0),
        float_bits_of(c.1),
        float_bits_of(c.2),
        q.color,
        float_bits_of(n.0),
        float_bits_of(n.1),
        float_bits_of(n.2),
    ]
}

/// The vertex words of a quad's first `k` vertices.
pub open spec fn vertex_floats_upto(q: Quad, k: int) -> Seq<u32>
    decreases k,
{
    if k <= 0 {
        Seq::empty()
    } else {
        vertex_floats_upto(q, k - 1) + vertex_floats(q, k - 1)
    }
}

/// The 28 buffer words of one quad.
pub open spec fn quad_floats(q: Quad) -> Seq<u32> {
    vertex_floats_upto(q, 4)
}

/// The flat buffer of a quad list, in order.
pub open spec fn serialize_quads(qs: Seq<Quad>) -> Seq<u32>
    decreases qs.len(),
{
    if qs.len() == 0 {
        Seq::empty()
    } else {
        serialize_quads(qs.drop_last()) + quad_floats(qs.last())
    }
}

/// The eight buffer words of one line.
pub open spec fn line_floats(l: Line) -> Seq<u32> {
    seq![
        float_bits_of(l.start.x as int),
        float_bits_of(l.start.y as int),
        float_bits_of(l.start.z as int),
        l.color,
        float_bits_of(l.end.x as int),
        float_bits_of(l.end.y as int),
        float_bits_of(l.end.z as int),
        l.color,
    ]
}

/// The flat buffer of a line list, in order.
pub open spec fn serialize_lines(ls: Seq<Line>) -> Seq<u32>
    decreases ls.len(),
{
    if ls.len() == 0 {
        Seq::empty()
    } else {
        serialize_lines(ls.drop_last()) + line_floats(ls.last())
    }
}

/// Serializes a quad list: 28 words per quad, in order.
pub fn fill_quad_buffer(quads: &Vec<Quad>) -> (buf: Vec<u32>)
    requires
        forall|i: int| 0 <= i < quads@.len() ==> quad_in_bounds(#[trigger] quads@[i]),
    ensures
        buf@ == serialize_quads(quads@),
{
    let n = quads.len();
    let mut buf: Vec<u32> = Vec::new();
    let mut i: usize = 0;
    while i < n
        invariant
            i <= n,
            n == quads@.len(),
            forall|i2: int| 0 <= i2 < quads@.len() ==> quad_in_bounds(#[trigger] quads@[i2]),
            buf@ == serialize_quads(quads@.take(i as int)),
        decreases n - i,
    {
        let q = quads[i];
        let ghost base = buf@;
        let cs = q.corners();
        let nm = q.normal();
        let nb0 = float_bits(nm.0 as i64);
        let nb1 = float_bits(nm.1 as i64);
        let nb2 = float_bits(nm.2 as i64);
        let mut k: usize = 0;
        while k < 4
            invariant
                k <= 4,
                q == quads@[i as int],
                i < n == quads@.len(),
                quad_in_bounds(q),
                cs@.len() == 4,
                forall|c2: int|
                    0 <= c2 < 4 ==> ((#[trigger] cs@[c2]).x as int, cs@[c2].y as int, cs@[c2].z
                        as int) == corners_spec(q)[c2],
                (nm.0 as int, nm.1 as int, nm.2 as int) == step_spec(q.dir),
                nb0 == float_bits_of(step_spec(q.dir).0),
                nb1 == float_bits_of(step_spec(q.dir).1),
                nb2 == float_bits_of(step_spec(q.dir).2),
                buf@ == base + vertex_floats_upto(q, k as int),
            decreases 4 - k,
        {
            let c = cs[k];
            buf.push(float_bits(c.x as i64));
            buf.push(float_bits(c.y as i64));
            buf.push(float_bits(c.z as i64));
            buf.push(q.color);
            buf.push(nb0);
            buf.push(nb1);
            buf.push(nb2);
            proof {
                assert(buf@ =~= base + vertex_floats_upto(q, k as int + 1));
            }
            k = k + 1;
        }
        proof {
            assert(quads@.take(i as int + 1).drop_last() =~= quads@.take(i as int));
            assert(quads@.take(i as int + 1).last() == quads@[i as int]);
            assert(buf@ == serialize_quads(quads@.take(i as int + 1)));
        }
        i = i + 1;
    }
    proof {
        assert(quads@.take(n as int) =~= quads@);
    }
    buf
}

/// Serializes a line list: 8 words per line, in order.
pub fn fill_line_buffer(lines: &Vec<Line>) -> (buf: Vec<u32>)
    ensures
        buf@ == serialize_lines(lines@),
{
    let n = lines.len();
    let mut buf: Vec<u32> = Vec::new();
    let mut i: usize = 0;
    while i < n
        invariant
            i <= n,
            n == lines@.len(),
            buf@ == serialize_lines(lines@.take(i as int)),
        decreases n - i,
    {
        let l = lines[i];
        let ghost base = buf@;
        buf.push(float_bits(l.start.x as i64));
        buf.push(float_bits(l.start.y as i64));
        buf.push(float_bits(l.start.z as i64));
        buf.push(l.color);
        buf.push(float_bits(l.end.x as i64));
        buf.push(float_bits(l.end.y as i64));
        buf.push(float_bits(l.end.z as i64));
        buf.push(l.color);
        proof {
            assert(lines@.take(i as int + 1).drop_last() =~= lines@.take(i as int));
            assert(lines@.take(i as int + 1).last() == lines@[i as int]);
            assert(buf@ =~= base + line_floats(lines@[i as int]));
            assert(buf@ == serialize_lines(lines@.take(i as int + 1)));
        }
        i = i + 1;
    }
    proof {
        assert(lines@.take(n as int) =~= lines@);
    }
    buf
}

} // verus!
