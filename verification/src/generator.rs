//! The block mesh generator: a registry of colored cells and the two
//! generated output buffers.
//!
//! The registry maps packed position keys to packed ARGB colors. On
//! demand, `generate` turns the registry into greedy-meshed face quads and
//! deduplicated, colinearly merged edge lines, serialized as flat buffers
//! of float bit patterns. The registry is held in a hash map keyed by the
//! packed position; a separate list of the keys, in insertion order,
//! drives iteration.

use crate::buffers::{fill_line_buffer, fill_quad_buffer, serialize_lines, serialize_quads};
use crate::edges::{collect_edges, line_is_valid_edge, pair_done, same_edge, Line};
use crate::faces::visible_key;
use crate::greedy::rects_disjoint;
use crate::merge::{
    combine_lines, covers_all, gaps_ok, lemma_valid_edge_shape, segs_wf, units_sound,
};
use crate::mesher::{face_covered, quad_sound, quads_for_direction};
use crate::pos::{in_packed_range, pack_spec, BlockPos, Direction};
use crate::quad::{quad_in_bounds, Quad};
use std::collections::HashMap;
use vstd::prelude::*;

verus! {

/// Whether a quad list is a correct surface mesh for the registry: every
/// quad covers only visible faces of its direction, color and plane;
/// every visible face of every solid cell is covered; and quads that
/// share a direction, color and plane never overlap.
pub open spec fn valid_quads(m: Map<u64, u32>, qs: Seq<Quad>) -> bool {
    &&& forall|i: int|
        0 <= i < qs.len() ==> quad_in_bounds(#[trigger] qs[i]) && quad_sound(m, qs[i])
    &&& forall|k: u64, d: Direction|
        m.contains_key(k) && #[trigger] visible_key(m, k, d) ==> face_covered(m, qs, k, d)
    &&& forall|i: int, j: int|
        0 <= i < j < qs.len() && qs[i].dir == qs[j].dir && qs[i].color == qs[j].color
            && qs[i].plane == qs[j].plane ==> rects_disjoint(qs[i].rect, qs[j].rect)
}

/// Whether a line list is exactly the deduplicated visible edge set of
/// the registry: every line is a visible unit edge of some solid cell
/// with that cell's edge color, every visible edge appears, and no
/// endpoint pair appears twice.
pub open spec fn valid_raw_lines(m: Map<u64, u32>, raw: Seq<Line>) -> bool {
    &&& forall|i: int| 0 <= i < raw.len() ==> line_is_valid_edge(m, #[trigger] raw[i])
    &&& forall|i: int, j: int| 0 <= i < j < raw.len() ==> !same_edge(raw[i], raw[j])
    &&& forall|k: u64, e: int|
        m.contains_key(k) && 0 <= e < 12 ==> #[trigger] pair_done(m, raw, k, e)
}

/// Whether a segment list is a correct colinear merge of the raw edges:
/// the segments' units are exactly the raw edges, and no two segments of
/// one group touch.
pub open spec fn valid_merged_lines(raw: Seq<Line>, ls: Seq<Line>) -> bool {
    &&& segs_wf(ls)
    &&& units_sound(ls, raw)
    &&& covers_all(ls, raw)
    &&& gaps_ok(ls)
}

/// Whether a segment list is a correct merged edge set for the registry.
pub open spec fn merged_output_valid(m: Map<u64, u32>, ls: Seq<Line>) -> bool {
    exists|raw: Seq<Line>| #[trigger] valid_raw_lines(m, raw) && valid_merged_lines(raw, ls)
}

/// Whether a buffer serializes some correct surface mesh of the registry.
pub open spec fn quad_buffer_valid(m: Map<u64, u32>, buf: Seq<u32>) -> bool {
    exists|qs: Seq<Quad>| #[trigger] valid_quads(m, qs) && buf == serialize_quads(qs)
}

/// Whether a buffer serializes some correct merged edge set of the
/// registry.
pub open spec fn line_buffer_valid(m: Map<u64, u32>, buf: Seq<u32>) -> bool {
    exists|ls: Seq<Line>| #[trigger] merged_output_valid(m, ls) && buf == serialize_lines(ls)
}

/// Whether a quad's direction is one of the first `di` directions.
pub open spec fn quad_dir_from(dirs: Seq<Direction>, di: int, q: Quad) -> bool {
    exists|d2: int| 0 <= d2 < di && q.dir == #[trigger] dirs[d2]
}

/// A covered face stays covered in a concatenation, from either side.
proof fn lemma_face_covered_cat_left(
    m: Map<u64, u32>,
    prev: Seq<Quad>,
    more: Seq<Quad>,
    k: u64,
    d: Direction,
)
    requires
        face_covered(m, prev, k, d),
    ensures
        face_covered(m, prev + more, k, d),
{
    let i = choose|i: int|
        0 <= i < prev.len() && (#[trigger] prev[i]).dir == d && prev[i].color == m[k]
            && prev[i].plane as int == crate::faces::proj_key(k, d).0 && crate::greedy::rect_covers(
            prev[i].rect,
            crate::faces::cell_of(k, d),
        );
    assert((prev + more)[i] == prev[i]);
}

/// A covered face stays covered in a concatenation, from either side.
proof fn lemma_face_covered_cat_right(
    m: Map<u64, u32>,
    prev: Seq<Quad>,
    more: Seq<Quad>,
    k: u64,
    d: Direction,
)
    requires
        face_covered(m, more, k, d),
    ensures
        face_covered(m, prev + more, k, d),
{
    let i = choose|i: int|
        0 <= i < more.len() && (#[trigger] more[i]).dir == d && more[i].color == m[k]
            && more[i].plane as int == crate::faces::proj_key(k, d).0 && crate::greedy::rect_covers(
            more[i].rect,
            crate::faces::cell_of(k, d),
        );
    assert((prev + more)[prev.len() + i] == more[i]);
}

/// The quads of all six directions: a correct surface mesh of the
/// registry.
#[verifier::rlimit(100)]
fn mesh_all_quads(blocks: &HashMap<u64, u32>, keys: &Vec<u64>) -> (quads: Vec<Quad>)
    requires
        keys@.no_duplicates(),
        keys@.to_set() == blocks@.dom(),
    ensures
        valid_quads(blocks@, quads@),
{
    let dirs = Direction::all();
    let mut quads: Vec<Quad> = Vec::new();
    proof {
        assert(dirs@.no_duplicates());
    }
    let mut di: usize = 0;
    while di < 6
        invariant
            di <= 6,
            keys@.no_duplicates(),
            keys@.to_set() == blocks@.dom(),
            dirs@ =~= seq![
                Direction::Down,
                Direction::Up,
                Direction::North,
                Direction::South,
                Direction::West,
                Direction::East,
            ],
            dirs@.no_duplicates(),
            forall|i: int|
                0 <= i < quads@.len() ==> quad_in_bounds(#[trigger] quads@[i]) && quad_sound(
                    blocks@,
                    quads@[i],
                ),
            forall|i: int|
                0 <= i < quads@.len() ==> quad_dir_from(dirs@, di as int, #[trigger] quads@[i]),
            forall|k: u64, d2: int|
                0 <= d2 < di && blocks@.contains_key(k) && #[trigger] visible_key(
                    blocks@,
                    k,
                    #[trigger] dirs@[d2],
                ) ==> face_covered(blocks@, quads@, k, dirs@[d2]),
            forall|i: int, j: int|
                0 <= i < j < quads@.len() && quads@[i].dir == quads@[j].dir && quads@[i].color
                    == quads@[j].color && quads@[i].plane == quads@[j].plane ==> rects_disjoint(
                    quads@[i].rect,
                    quads@[j].rect,
                ),
        decreases 6 - di,
    {
        let dir = dirs[di];
        let mut dq = quads_for_direction(blocks, keys, dir);
        let ghost prev = quads@;
        let ghost gq = dq@;
        quads.append(&mut dq);
        proof {
            assert(quads@ == prev + gq);
            assert forall|i: int| 0 <= i < quads@.len() implies quad_in_bounds(#[trigger] quads@[i])
                && quad_sound(blocks@, quads@[i]) by {
                if i < prev.len() {
                    assert(quads@[i] == prev[i]);
                } else {
                    assert(quads@[i] == gq[i - prev.len()]);
                }
            }
            assert forall|i: int| 0 <= i < quads@.len() implies quad_dir_from(
                dirs@,
                di as int + 1,
                #[trigger] quads@[i],
            ) by {
                if i < prev.len() {
                    assert(quads@[i] == prev[i]);
                    let d2 = choose|d2: int| 0 <= d2 < di && prev[i].dir == #[trigger] dirs@[d2];
                    assert(0 <= d2 < di + 1 && quads@[i].dir == dirs@[d2]);
                } else {
                    assert(quads@[i] == gq[i - prev.len()]);
                    assert(quads@[i].dir == dirs@[di as int]);
                }
            }
            assert forall|k: u64, d2: int|
                0 <= d2 < di + 1 && blocks@.contains_key(k) && #[trigger] visible_key(
                    blocks@,
                    k,
                    #[trigger] dirs@[d2],
                ) implies face_covered(blocks@, quads@, k, dirs@[d2]) by {
                if d2 < di {
                    lemma_face_covered_cat_left(blocks@, prev, gq, k, dirs@[d2]);
                } else {
                    assert(face_covered(blocks@, gq, k, dir));
                    lemma_face_covered_cat_right(blocks@, prev, gq, k, dir);
                }
            }
            assert forall|i: int, j: int|
                0 <= i < j < quads@.len() && quads@[i].dir == quads@[j].dir && quads@[i].color
                    == quads@[j].color && quads@[i].plane == quads@[j].plane implies rects_disjoint(
                quads@[i].rect,
                quads@[j].rect,
            ) by {
                if j < prev.len() {
                    assert(quads@[i] == prev[i] && quads@[j] == prev[j]);
                } else if i >= prev.len() {
                    assert(quads@[i] == gq[i - prev.len()] && quads@[j] == gq[j - prev.len()]);
                } else {
                    // an older quad faces one of the earlier directions,
                    // never this one
                    assert(quads@[i] == prev[i]);
                    assert(quads@[j] == gq[j - prev.len()]);
                    let d2 = choose|d2: int| 0 <= d2 < di && prev[i].dir == #[trigger] dirs@[d2];
                    assert(dirs@[d2] != dirs@[di as int]);
                    assert(quads@[j].dir == dirs@[di as int]);
                    assert(false);
                }
            }
        }
        di = di + 1;
    }
    proof {
        assert forall|k: u64, d: Direction|
            blocks@.contains_key(k) && #[trigger] visible_key(blocks@, k, d) implies face_covered(
            blocks@,
            quads@,
            k,
            d,
        ) by {
            let d2: int = match d {
                Direction::Down => 0,
                Direction::Up => 1,
                Direction::North => 2,
                Direction::South => 3,
                Direction::West => 4,
                Direction::East => 5,
            };
            assert(dirs@[d2] == d);
            assert(visible_key(blocks@, k, dirs@[d2]));
        }
    }
    quads
}

/// The merged visible edge set of the registry.
fn merged_lines(blocks: &HashMap<u64, u32>, keys: &Vec<u64>) -> (ls: Vec<Line>)
    requires
        keys@.no_duplicates(),
        keys@.to_set() == blocks@.dom(),
    ensures
        merged_output_valid(blocks@, ls@),
{
    let raw = collect_edges(blocks, keys);
    proof {
        assert forall|i: int| 0 <= i < raw@.len() implies crate::merge::is_unit_edge(
            #[trigger] raw@[i],
        ) && crate::merge::line_in_bounds(raw@[i]) by {
            lemma_valid_edge_shape(blocks@, raw@[i]);
        }
    }
    let merged = combine_lines(&raw);
    proof {
        assert(valid_raw_lines(blocks@, raw@));
        assert(valid_merged_lines(raw@, merged@));
    }
    merged
}

/// A registry of colored cells with its generated quad and line buffers.
pub struct BlockMeshGenerator {
    blocks: HashMap<u64, u32>,
    keys: Vec<u64>,
    quad_buffer: Vec<u32>,
    line_buffer: Vec<u32>,
}

impl BlockMeshGenerator {
    /// The registry: packed position key to packed ARGB color.
    pub closed spec fn blocks_map(&self) -> Map<u64, u32> {
        self.blocks@
    }

    /// The generated quad buffer.
    pub closed spec fn quad_buf(&self) -> Seq<u32> {
        self.quad_buffer@
    }

    /// The generated line buffer.
    pub closed spec fn line_buf(&self) -> Seq<u32> {
        self.line_buffer@
    }

    /// The key list mirrors the registry exactly, without duplicates.
    pub closed spec fn wf(&self) -> bool {
        &&& self.keys@.no_duplicates()
        &&& self.keys@.to_set() == self.blocks@.dom()
    }

    /// An empty generator: no cells, empty buffers.
    pub fn new() -> (r: BlockMeshGenerator)
        ensures
            r.wf(),
            r.blocks_map() == Map::<u64, u32>::empty(),
            r.quad_buf() == Seq::<u32>::empty(),
            r.line_buf() == Seq::<u32>::empty(),
    {
        let r = BlockMeshGenerator {
            blocks: HashMap::new(),
            keys: Vec::new(),
            quad_buffer: Vec::new(),
            line_buffer: Vec::new(),
        };
        proof {
            assert(r.keys@.to_set() =~= r.blocks@.dom());
        }
        r
    }

    /// Removes every cell and empties both buffers.
    pub fn clear(&mut self)
        ensures
            final(self).wf(),
            final(self).blocks_map() == Map::<u64, u32>::empty(),
            final(self).quad_buf() == Seq::<u32>::empty(),
            final(self).line_buf() == Seq::<u32>::empty(),
    {
        self.blocks.clear();
        self.keys.clear();
        self.quad_buffer.clear();
        self.line_buffer.clear();
        proof {
            assert(self.keys@.to_set() =~= self.blocks@.dom());
        }
    }

    /// Inserts or overwrites the cell at (x, y, z).
    ///
    /// Returns true and stores the color under the position's packed key
    /// when the coordinates lie in the packed range; rejects coordinates
    /// outside it and returns false, leaving the registry unchanged.
    pub fn add_block(&mut self, x: i32, y: i32, z: i32, color: u32) -> (r: bool)
        requires
            old(self).wf(),
        ensures
            final(self).wf(),
            r == in_packed_range(x as int, y as int, z as int),
            r ==> final(self).blocks_map() == old(self).blocks_map().insert(
                pack_spec(x as int, y as int, z as int),
                color,
            ),
            !r ==> final(self).blocks_map() == old(self).blocks_map(),
            final(self).quad_buf() == old(self).quad_buf(),
            final(self).line_buf() == old(self).line_buf(),
    {
        if x < -0x2000000 || x >= 0x2000000 || y < -0x800 || y >= 0x800 || z < -0x2000000 || z
            >= 0x2000000 {
            return false;
        }
        let k = BlockPos::new(x, y, z).pack();
        let had = self.blocks.insert(k, color);
        if had.is_none() {
            proof {
                assert(!old(self).keys@.to_set().contains(k));
                assert(!old(self).keys@.contains(k));
            }
            let ghost prev_keys = self.keys@;
            self.keys.push(k);
            proof {
                assert forall|i: int, j: int|
                    0 <= i < j < self.keys@.len() implies self.keys@[i] != self.keys@[j] by {
                    if j < prev_keys.len() {
                        assert(self.keys@[i] == prev_keys[i] && self.keys@[j] == prev_keys[j]);
                    } else {
                        assert(self.keys@[j] == k);
                        assert(self.keys@[i] == prev_keys[i]);
                        if prev_keys[i] == k {
                            assert(prev_keys.contains(k));
                        }
                    }
                }
                assert(self.keys@.to_set() =~= self.blocks@.dom()) by {
                    assert forall|k2: u64| self.keys@.to_set().contains(k2) implies
                        self.blocks@.dom().contains(k2) by {
                        let i = choose|i: int| 0 <= i < self.keys@.len() && self.keys@[i] == k2;
                        if i < prev_keys.len() {
                            assert(prev_keys.contains(k2));
                        }
                    }
                    assert forall|k2: u64| self.blocks@.dom().contains(k2) implies
                        self.keys@.to_set().contains(k2) by {
                        if k2 == k {
                            assert(self.keys@[self.keys@.len() - 1] == k);
                            assert(self.keys@.contains(k));
                        } else {
                            assert(prev_keys.to_set().contains(k2));
                            let i = choose|i: int|
                                0 <= i < prev_keys.len() && prev_keys[i] == k2;
                            assert(self.keys@[i] == k2);
                            assert(self.keys@.contains(k2));
                        }
                    }
                }
            }
        } else {
            proof {
                assert(old(self).keys@.to_set().contains(k));
                assert(self.keys@.to_set() =~= self.blocks@.dom());
            }
        }
        true
    }


    /// Bulk insert: `positions` holds coordinate triples, `colors` one
    /// color per triple.
    ///
    /// Rejects the call and changes nothing when there are fewer colors
    /// than triples; otherwise inserts every triple in order, skipping
    /// positions outside the packed range, and returns true. A trailing
    /// partial triple is ignored.
    pub fn add_blocks(&mut self, positions: &Vec<i32>, colors: &Vec<u32>) -> (r: bool)
        requires
            old(self).wf(),
        ensures
            final(self).wf(),
            r == (positions@.len() / 3 <= colors@.len()),
            r ==> final(self).blocks_map() == bulk_insert(
                old(self).blocks_map(),
                positions@,
                colors@,
                positions@.len() as int / 3,
            ),
            !r ==> final(self).blocks_map() == old(self).blocks_map(),
            final(self).quad_buf() == old(self).quad_buf(),
            final(self).line_buf() == old(self).line_buf(),
    {
        let plen = positions.len();
        let n = plen / 3;
        if n > colors.len() {
            return false;
        }
        let ghost m0 = self.blocks_map();
        let mut i: usize = 0;
        while i < n
            invariant
                i <= n,
                plen == positions@.len(),
                n == positions@.len() / 3,
                n <= colors@.len(),
                self.wf(),
                self.blocks_map() == bulk_insert(m0, positions@, colors@, i as int),
                self.quad_buf() == old(self).quad_buf(),
                self.line_buf() == old(self).line_buf(),
            decreases n - i,
        {
            proof {
                vstd::arithmetic::div_mod::lemma_fundamental_div_mod(plen as int, 3);
                assert(3 * i + 2 < plen);
            }
            let x = positions[3 * i];
            let y = positions[3 * i + 1];
            let z = positions[3 * i + 2];
            self.add_block(x, y, z, colors[i]);
            i = i + 1;
        }
        true
    }

    /// Scans a 16 by 16 by 16 voxel section and inserts every cell whose
    /// id equals `target_id` and whose sky light is at most
    /// `max_sky_light`, colored `color`, at the section origin plus its
    /// local coordinates.
    ///
    /// Rejects the call and changes nothing when either array holds
    /// fewer than 4096 entries.
    pub fn scan_section_caves(
        &mut self,
        start_x: i32,
        start_y: i32,
        start_z: i32,
        ids: &Vec<i32>,
        sky_lights: &Vec<i32>,
        target_id: i32,
        color: u32,
        max_sky_light: i32,
    ) -> (r: bool)
        requires
            old(self).wf(),
        ensures
            final(self).wf(),
            r == (ids@.len() >= 4096 && sky_lights@.len() >= 4096),
            r ==> final(self).blocks_map() == scan_insert(
                old(self).blocks_map(),
                start_x as int,
                start_y as int,
                start_z as int,
                ids@,
                sky_lights@,
                target_id,
                color,
                max_sky_light,
                4096,
            ),
            !r ==> final(self).blocks_map() == old(self).blocks_map(),
            final(self).quad_buf() == old(self).quad_buf(),
            final(self).line_buf() == old(self).line_buf(),
    {
        if ids.len() < 4096 || sky_lights.len() < 4096 {
            return false;
        }
        let ghost m0 = self.blocks_map();
        let mut idx: usize = 0;
        while idx < 4096
            invariant
                idx <= 4096,
                ids@.len() >= 4096,
                sky_lights@.len() >= 4096,
                self.wf(),
                self.blocks_map() == scan_insert(
                    m0,
                    start_x as int,
                    start_y as int,
                    start_z as int,
                    ids@,
                    sky_lights@,
                    target_id,
                    color,
                    max_sky_light,
                    idx as int,
                ),
                self.quad_buf() == old(self).quad_buf(),
                self.line_buf() == old(self).line_buf(),
            decreases 4096 - idx,
        {
            let id = ids[idx];
            let sky = sky_lights[idx];
            if id == target_id && sky <= max_sky_light {
                let x64: i64 = start_x as i64 + (idx % 16) as i64;
                let z64: i64 = start_z as i64 + ((idx / 16) % 16) as i64;
                let y64: i64 = start_y as i64 + (idx / 256) as i64;
                if -0x2000000 <= x64 && x64 < 0x2000000 && -0x800 <= y64 && y64 < 0x800
                    && -0x2000000 <= z64 && z64 < 0x2000000 {
                    self.add_block(x64 as i32, y64 as i32, z64 as i32, color);
                }
            }
            idx = idx + 1;
        }
        true
    }

    /// The number of entries in the generated quad buffer.
    pub fn get_quad_buffer_size(&self) -> (r: usize)
        ensures
            r == self.quad_buf().len(),
    {
        self.quad_buffer.len()
    }

    /// The number of entries in the generated line buffer.
    pub fn get_line_buffer_size(&self) -> (r: usize)
        ensures
            r == self.line_buf().len(),
    {
        self.line_buffer.len()
    }

    /// The generated quad buffer: float bit patterns, 28 per quad.
    pub fn quad_buffer(&self) -> (r: &Vec<u32>)
        ensures
            r@ == self.quad_buf(),
    {
        &self.quad_buffer
    }

    /// The generated line buffer: float bit patterns, 8 per line.
    pub fn line_buffer(&self) -> (r: &Vec<u32>)
        ensures
            r@ == self.line_buf(),
    {
        &self.line_buffer
    }

    /// Regenerates both buffers from the current registry.
    ///
    /// The quad buffer serializes a correct greedy surface mesh and the
    /// line buffer a correct merged edge set of the registry; an empty
    /// registry yields empty buffers.
    pub fn generate(&mut self)
        requires
            old(self).wf(),
        ensures
            final(self).wf(),
            final(self).blocks_map() == old(self).blocks_map(),
            quad_buffer_valid(old(self).blocks_map(), final(self).quad_buf()),
            line_buffer_valid(old(self).blocks_map(), final(self).line_buf()),
            old(self).blocks_map().dom() =~= Set::<u64>::empty() ==> final(self).quad_buf()
                == Seq::<u32>::empty() && final(self).line_buf() == Seq::<u32>::empty(),
    {
        let quads = mesh_all_quads(&self.blocks, &self.keys);
        let qbuf = fill_quad_buffer(&quads);
        let lines = merged_lines(&self.blocks, &self.keys);
        let lbuf = fill_line_buffer(&lines);
        self.quad_buffer = qbuf;
        self.line_buffer = lbuf;
        proof {
            assert(valid_quads(self.blocks@, quads@));
            assert(quad_buffer_valid(self.blocks@, self.quad_buffer@));
            assert(merged_output_valid(self.blocks@, lines@));
            assert(line_buffer_valid(self.blocks@, self.line_buffer@));
            if self.blocks@.dom() =~= Set::<u64>::empty() {
                // with no cells there are no quads, no raw edges and no
                // merged lines
                if quads@.len() > 0 {
                    assert(quad_sound(self.blocks@, quads@[0]));
                    let c0 = crate::greedy::Cell { u: quads@[0].rect.u, v: quads@[0].rect.v };
                    assert(crate::greedy::rect_covers(quads@[0].rect, c0));
                    assert(crate::faces::face_in(
                        self.blocks@,
                        quads@[0].dir,
                        quads@[0].color,
                        quads@[0].plane as int,
                        c0,
                    ));
                    let k0 = choose|k0: u64|
                        #[trigger] visible_key(self.blocks@, k0, quads@[0].dir)
                            && self.blocks@.contains_key(k0) && self.blocks@[k0] == quads@[0].color
                            && crate::faces::proj_key(k0, quads@[0].dir) == (
                        quads@[0].plane as int,
                        c0.u as int,
                        c0.v as int,
                    );
                    assert(false);
                }
                assert(quads@.len() == 0);
                assert(self.quad_buffer@ == serialize_quads(quads@));
                let raw = choose|raw: Seq<Line>|
                    #[trigger] valid_raw_lines(self.blocks@, raw) && valid_merged_lines(
                        raw,
                        lines@,
                    );
                if raw.len() > 0 {
                    assert(line_is_valid_edge(self.blocks@, raw[0]));
                    let (k0, e0): (u64, int) = choose|k0: u64, e0: int|
                        self.blocks@.contains_key(k0) && 0 <= e0 < 12
                            && #[trigger] crate::edges::edge_emitted(self.blocks@, k0, e0)
                            && crate::edges::line_matches_edge(raw[0], k0, e0) && raw[0].color
                            == crate::edges::edge_color_spec(self.blocks@, k0, e0);
                    assert(false);
                }
                if lines@.len() > 0 {
                    assert(crate::merge::is_segment(lines@[0]));
                    assert(crate::merge::seg_len(lines@[0]) >= 1);
                    assert(raw.contains(crate::merge::seg_unit(lines@[0], 0)));
                    assert(false);
                }
                assert(lines@.len() == 0);
                assert(self.line_buffer@ == serialize_lines(lines@));
            }
        }
    }
}

/// The registry after inserting the first `n` cells of a bulk load:
/// coordinate triples from `positions` with matching `colors`, skipping
/// out-of-range positions.
pub open spec fn bulk_insert(m: Map<u64, u32>, positions: Seq<i32>, colors: Seq<u32>, n: int) -> Map<
    u64,
    u32,
>
    decreases n,
{
    if n <= 0 {
        m
    } else {
        let m1 = bulk_insert(m, positions, colors, n - 1);
        let x = positions[3 * (n - 1)];
        let y = positions[3 * (n - 1) + 1];
        let z = positions[3 * (n - 1) + 2];
        if in_packed_range(x as int, y as int, z as int) {
            m1.insert(pack_spec(x as int, y as int, z as int), colors[n - 1])
        } else {
            m1
        }
    }
}

/// The registry after scanning the first `n` cells of a 16 by 16 by 16
/// section: linear index `idx` holds local coordinates
/// (x, z, y) = (idx mod 16, idx / 16 mod 16, idx / 256), and a cell is
/// inserted when its id matches the target, its sky light is at most the
/// threshold, and its position fits the packed range.
pub open spec fn scan_insert(
    m: Map<u64, u32>,
    sx: int,
    sy: int,
    sz: int,
    ids: Seq<i32>,
    skies: Seq<i32>,
    target: i32,
    color: u32,
    max_sky: i32,
    n: int,
) -> Map<u64, u32>
    decreases n,
{
    if n <= 0 {
        m
    } else {
        let m1 = scan_insert(m, sx, sy, sz, ids, skies, target, color, max_sky, n - 1);
        let idx = n - 1;
        let x = sx + idx % 16;
        let z = sz + (idx / 16) % 16;
        let y = sy + idx / 256;
        if ids[idx] == target && skies[idx] <= max_sky && in_packed_range(x, y, z) {
            m1.insert(pack_spec(x, y, z), color)
        } else {
            m1
        }
    }
}

/// In a single-cell registry, every quad is one-by-one, carries the
/// cell's color, and sits on the cell's projected face of its direction.
proof fn lemma_isolated_quad_shape(m: Map<u64, u32>, k: u64, qs: Seq<Quad>, i: int)
    requires
        m.contains_key(k),
        forall|k2: u64| #[trigger] m.contains_key(k2) ==> k2 == k,
        valid_quads(m, qs),
        0 <= i < qs.len(),
    ensures
        qs[i].rect.w == 1,
        qs[i].rect.h == 1,
        qs[i].color == m[k],
        qs[i].plane as int == crate::faces::proj_key(k, qs[i].dir).0,
        crate::greedy::rect_covers(qs[i].rect, crate::faces::cell_of(k, qs[i].dir)),
{
    let q = qs[i];
    let d = q.dir;
    crate::pos::lemma_unpack_in_range(k);
    let c0 = crate::greedy::Cell { u: q.rect.u, v: q.rect.v };
    assert(crate::greedy::rect_covers(q.rect, c0));
    assert(quad_sound(m, q));
    assert(crate::faces::face_in(m, d, q.color, q.plane as int, c0));
    let k0 = choose|k0: u64|
        #[trigger] visible_key(m, k0, d) && m.contains_key(k0) && m[k0] == q.color
            && crate::faces::proj_key(k0, d) == (q.plane as int, c0.u as int, c0.v as int);
    assert(k0 == k);
    let c1 = crate::greedy::Cell {
        u: (q.rect.u + q.rect.w - 1) as i32,
        v: (q.rect.v + q.rect.h - 1) as i32,
    };
    assert(crate::greedy::rect_covers(q.rect, c1));
    assert(crate::faces::face_in(m, d, q.color, q.plane as int, c1));
    let k1 = choose|k1: u64|
        #[trigger] visible_key(m, k1, d) && m.contains_key(k1) && m[k1] == q.color
            && crate::faces::proj_key(k1, d) == (q.plane as int, c1.u as int, c1.v as int);
    assert(k1 == k);
    assert(c0.u as int == crate::faces::proj_key(k, d).1 && c1.u as int == crate::faces::proj_key(
        k,
        d,
    ).1);
    assert(q.rect.w == 1 && q.rect.h == 1);
    assert(c0 == crate::faces::cell_of(k, d));
}

/// Two quads of a single-cell registry that face the same direction are
/// the same quad: both would cover that direction's one face.
proof fn lemma_isolated_same_dir(m: Map<u64, u32>, k: u64, qs: Seq<Quad>, i: int, j: int)
    requires
        m.contains_key(k),
        forall|k2: u64| #[trigger] m.contains_key(k2) ==> k2 == k,
        valid_quads(m, qs),
        0 <= i < qs.len(),
        0 <= j < qs.len(),
        qs[i].dir == qs[j].dir,
    ensures
        i == j,
{
    lemma_isolated_quad_shape(m, k, qs, i);
    lemma_isolated_quad_shape(m, k, qs, j);
    if i != j {
        let (a, b): (int, int) = if i < j {
            (i, j)
        } else {
            (j, i)
        };
        assert(rects_disjoint(qs[a].rect, qs[b].rect));
        let c = crate::faces::cell_of(k, qs[i].dir);
        assert(crate::greedy::rect_covers(qs[a].rect, c) && crate::greedy::rect_covers(
            qs[b].rect,
            c,
        ));
        assert(false);
    }
}

/// Meshing a registry holding one isolated cell yields exactly six
/// quads, one per direction, each a one-by-one face of that cell.
pub proof fn lemma_isolated_cell_six_quads(m: Map<u64, u32>, k: u64, qs: Seq<Quad>)
    requires
        m.contains_key(k),
        forall|k2: u64| #[trigger] m.contains_key(k2) ==> k2 == k,
        valid_quads(m, qs),
    ensures
        qs.len() == 6,
        forall|i: int|
            0 <= i < qs.len() ==> (#[trigger] qs[i]).rect.w == 1 && qs[i].rect.h == 1
                && qs[i].color == m[k],
{
    crate::faces::lemma_isolated_cell_visible(m, k);
    assert forall|i: int|
        0 <= i < qs.len() implies (#[trigger] qs[i]).rect.w == 1 && qs[i].rect.h == 1
        && qs[i].color == m[k] by {
        lemma_isolated_quad_shape(m, k, qs, i);
    }
    // one quad per direction exists
    let f = |d: Direction|
        choose|i: int|
            0 <= i < qs.len() && (#[trigger] qs[i]).dir == d && qs[i].color == m[k] && qs[i].plane
                as int == crate::faces::proj_key(k, d).0 && crate::greedy::rect_covers(
                qs[i].rect,
                crate::faces::cell_of(k, d),
            );
    assert(visible_key(m, k, Direction::Down));
    assert(visible_key(m, k, Direction::Up));
    assert(visible_key(m, k, Direction::North));
    assert(visible_key(m, k, Direction::South));
    assert(visible_key(m, k, Direction::West));
    assert(visible_key(m, k, Direction::East));
    assert(face_covered(m, qs, k, Direction::Down));
    assert(face_covered(m, qs, k, Direction::Up));
    assert(face_covered(m, qs, k, Direction::North));
    assert(face_covered(m, qs, k, Direction::South));
    assert(face_covered(m, qs, k, Direction::West));
    assert(face_covered(m, qs, k, Direction::East));
    let f0 = f(Direction::Down);
    let f1 = f(Direction::Up);
    let f2 = f(Direction::North);
    let f3 = f(Direction::South);
    let f4 = f(Direction::West);
    let f5 = f(Direction::East);
    assert(0 <= f0 < qs.len() && qs[f0].dir == Direction::Down);
    assert(0 <= f1 < qs.len() && qs[f1].dir == Direction::Up);
    assert(0 <= f2 < qs.len() && qs[f2].dir == Direction::North);
    assert(0 <= f3 < qs.len() && qs[f3].dir == Direction::South);
    assert(0 <= f4 < qs.len() && qs[f4].dir == Direction::West);
    assert(0 <= f5 < qs.len() && qs[f5].dir == Direction::East);
    assert(qs.len() >= 6);
    if qs.len() > 6 {
        // seven quads would need seven pairwise different directions
        assert forall|i: int, j: int| 0 <= i < j < 7 implies (#[trigger] qs[i]).dir != (
        #[trigger] qs[j]).dir by {
            if qs[i].dir == qs[j].dir {
                lemma_isolated_same_dir(m, k, qs, i, j);
            }
        }
        assert(qs[0].dir != qs[1].dir && qs[0].dir != qs[2].dir && qs[0].dir != qs[3].dir && qs[0].dir != qs[4].dir && qs[0].dir != qs[5].dir && qs[0].dir != qs[6].dir && qs[1].dir != qs[2].dir && qs[1].dir != qs[3].dir && qs[1].dir != qs[4].dir && qs[1].dir != qs[5].dir && qs[1].dir != qs[6].dir && qs[2].dir != qs[3].dir && qs[2].dir != qs[4].dir && qs[2].dir != qs[5].dir && qs[2].dir != qs[6].dir && qs[3].dir != qs[4].dir && qs[3].dir != qs[5].dir && qs[3].dir != qs[6].dir && qs[4].dir != qs[5].dir && qs[4].dir != qs[6].dir && qs[5].dir != qs[6].dir);
        assert(false);
    }
}

} // verus!
