//! The address-reordering engine: pure index arithmetic that converts a
//! logical, row-major pixel buffer into the order in which the physical bus
//! visits the pixels of a panel assembled from serpentine-wired segments.

use vstd::arithmetic::div_mod::{
    lemma_fundamental_div_mod, lemma_fundamental_div_mod_converse,
};
use vstd::prelude::*;

verus! {

/// Physical position of logical segment `segment` on the bus: with
/// `right_to_left` the segment order is mirrored, otherwise it is kept.
pub open spec fn seg_offset(num_segments: int, right_to_left: bool, segment: int) -> int {
    if right_to_left {
        num_segments - 1 - segment
    } else {
        segment
    }
}

/// Chunk index emitted at position `pos` of the visit order. The visit order
/// is segment-major: position `pos` falls in segment `pos / rows_per_segment`
/// at row `pos % rows_per_segment`, and chunks are numbered column-major
/// across the panel, so that chunk is `row * num_segments + offset`.
pub open spec fn visit_chunk(
    num_segments: int,
    rows_per_segment: int,
    right_to_left: bool,
    pos: int,
) -> int {
    (pos % rows_per_segment) * num_segments + seg_offset(
        num_segments,
        right_to_left,
        pos / rows_per_segment,
    )
}

/// Wiring geometry of one panel: width and height in pixels, how many
/// segments compose it, and the two wiring flags.
pub struct LedConfig {
    pub w: usize,
    pub h: usize,
    pub zigzag: bool,
    pub segments: usize,
    pub right_to_left: bool,
}

impl LedConfig {
    /// The default geometry: a single 4 x 4 segment with zigzag wiring,
    /// visited left to right.
    pub fn new() -> (c: LedConfig)
        ensures
            c.segments == 1,
            c.w == 4,
            c.h == 4,
            c.zigzag == true,
            c.right_to_left == false,
    {
        LedConfig { segments: 1, w: 4, h: 4, zigzag: true, right_to_left: false }
    }

    /// Total number of pixels the geometry addresses.
    pub fn num_leds(&self) -> (n: usize)
        requires
            self.w * self.h <= usize::MAX,
        ensures
            n == self.w * self.h,
    {
        self.w * self.h
    }
}

/// Buffer index that position `i` of the single-segment zigzag order reads:
/// within row `i / row_len`, even rows run forward and odd rows run reversed.
pub open spec fn ziggy_source_index(row_len: int, i: int) -> int {
    let row = i / row_len;
    let col = i % row_len;
    if row % 2 == 0 {
        row * row_len + col
    } else {
        row * row_len + (row_len - 1 - col)
    }
}

/// Serpentine view of a single panel: partitions `data` into rows of
/// `row_len` elements, drops an incomplete trailing row, and emits even rows
/// forward and odd rows reversed.
pub fn ziggy_components<T: Copy>(data: &[T], row_len: usize) -> (out: Vec<T>)
    requires
        row_len >= 1,
    ensures
        out@.len() == (data@.len() as int / row_len as int) * row_len as int,
        forall|i: int|
            0 <= i < out@.len() ==> #[trigger] out@[i] == data@[ziggy_source_index(
                row_len as int,
                i,
            )],
{
    let dlen: usize = data.len();
    let num_rows: usize = dlen / row_len;
    proof {
        assert(num_rows * row_len <= data@.len()) by (nonlinear_arith)
            requires
                row_len >= 1,
                dlen == data@.len(),
                num_rows == dlen as int / row_len as int,
        ;
    }
    let mut out: Vec<T> = Vec::new();
    let mut row: usize = 0;
    while row < num_rows
        invariant
            row <= num_rows,
            row_len >= 1,
            dlen == data@.len(),
            num_rows == dlen as int / row_len as int,
            num_rows * row_len <= data@.len(),
            out@.len() == row * row_len,
            forall|i: int|
                0 <= i < out@.len() ==> #[trigger] out@[i] == data@[ziggy_source_index(
                    row_len as int,
                    i,
                )],
        decreases num_rows - row,
    {
        proof {
            assert(row * row_len + row_len <= num_rows * row_len) by (nonlinear_arith)
                requires
                    0 <= row,
                    row < num_rows,
                    0 <= row_len,
            ;
        }
        let base: usize = row * row_len;
        let mut col: usize = 0;
        while col < row_len
            invariant
                col <= row_len,
                row < num_rows,
                row_len >= 1,
                dlen == data@.len(),
                num_rows == dlen as int / row_len as int,
                num_rows * row_len <= data@.len(),
                base == row * row_len,
                base + row_len <= data@.len(),
                out@.len() == row * row_len + col,
                forall|i: int|
                    0 <= i < out@.len() ==> #[trigger] out@[i] == data@[ziggy_source_index(
                        row_len as int,
                        i,
                    )],
            decreases row_len - col,
        {
            let v: T = if row % 2 == 0 {
                data[base + col]
            } else {
                data[base + (row_len - 1 - col)]
            };
            proof {
                lemma_fundamental_div_mod_converse(
                    out@.len() as int,
                    row_len as int,
                    row as int,
                    col as int,
                );
            }
            out.push(v);
            col = col + 1;
        }
        row = row + 1;
        proof {
            assert((row - 1) * row_len + row_len == row * row_len) by (nonlinear_arith);
        }
    }
    out
}

/// Visit order for a panel of `num_segments` segments of `segment_height`
/// chunk rows each: all rows of one segment are emitted before the next
/// segment, rows in increasing order, and the chunk emitted for segment `s`,
/// row `r` is `r * num_segments + seg_offset(s)`.
pub fn mk_segmented_iterator(
    num_segments: usize,
    segment_height: usize,
    right_to_left: bool,
) -> (order: Vec<usize>)
    requires
        num_segments * segment_height <= usize::MAX,
    ensures
        order@.len() == num_segments * segment_height,
        forall|p: int|
            0 <= p < order@.len() ==> #[trigger] order@[p] as int == visit_chunk(
                num_segments as int,
                segment_height as int,
                right_to_left,
                p,
            ),
{
    let mut order: Vec<usize> = Vec::new();
    let mut segment: usize = 0;
    while segment < num_segments
        invariant
            segment <= num_segments,
            num_segments * segment_height <= usize::MAX,
            order@.len() == segment * segment_height,
            forall|p: int|
                0 <= p < order@.len() ==> #[trigger] order@[p] as int == visit_chunk(
                    num_segments as int,
                    segment_height as int,
                    right_to_left,
                    p,
                ),
        decreases num_segments - segment,
    {
        let segment_offset: usize = if right_to_left {
            num_segments - 1 - segment
        } else {
            segment
        };
        let mut row: usize = 0;
        while row < segment_height
            invariant
                segment < num_segments,
                row <= segment_height,
                num_segments * segment_height <= usize::MAX,
                segment_offset as int == seg_offset(num_segments as int, right_to_left, segment as int),
                0 <= segment_offset < num_segments,
                order@.len() == segment * segment_height + row,
                forall|p: int|
                    0 <= p < order@.len() ==> #[trigger] order@[p] as int == visit_chunk(
                        num_segments as int,
                        segment_height as int,
                        right_to_left,
                        p,
                    ),
            decreases segment_height - row,
        {
            proof {
                assert(segment * segment_height + row < num_segments * segment_height)
                    by (nonlinear_arith)
                    requires
                        segment < num_segments,
                        row < segment_height,
                        0 <= segment,
                        0 <= row,
                ;
                assert(row * num_segments + segment_offset < num_segments * segment_height)
                    by (nonlinear_arith)
                    requires
                        segment_offset < num_segments,
                        row < segment_height,
                        0 <= segment_offset,
                        0 <= row,
                        0 <= num_segments,
                ;
            }
            let chunk: usize = row * num_segments + segment_offset;
            proof {
                lemma_fundamental_div_mod_converse(
                    order@.len() as int,
                    segment_height as int,
                    segment as int,
                    row as int,
                );
            }
            order.push(chunk);
            row = row + 1;
        }
        segment = segment + 1;
        proof {
            assert((segment - 1) * segment_height + segment_height == segment * segment_height)
                by (nonlinear_arith);
        }
    }
    order
}

/// The `chunk_width`-sized windows of `src` selected by `order`, in that
/// order: entry `k` is the element range starting at `order[k] * chunk_width`.
pub fn array_chunks_reordered<T: Copy>(src: &[T], order: &Vec<usize>, chunk_width: usize) -> (chunks:
    Vec<Vec<T>>)
    requires
        forall|k: int|
            0 <= k < order@.len() ==> #[trigger] (order@[k] * chunk_width) + chunk_width
                <= src@.len(),
    ensures
        chunks@.len() == order@.len(),
        forall|k: int|
            0 <= k < order@.len() ==> #[trigger] chunks@[k]@ == src@.subrange(
                order@[k] * chunk_width,
                order@[k] * chunk_width + chunk_width,
            ),
{
    let slen: usize = src.len();
    let mut chunks: Vec<Vec<T>> = Vec::new();
    let mut k: usize = 0;
    while k < order.len()
        invariant
            k <= order@.len(),
            slen == src@.len(),
            forall|j: int|
                0 <= j < order@.len() ==> #[trigger] (order@[j] * chunk_width) + chunk_width
                    <= src@.len(),
            chunks@.len() == k,
            forall|j: int|
                0 <= j < k ==> #[trigger] chunks@[j]@ == src@.subrange(
                    order@[j] * chunk_width,
                    order@[j] * chunk_width + chunk_width,
                ),
        decreases order@.len() - k,
    {
        let start: usize = order[k] * chunk_width;
        let mut chunk: Vec<T> = Vec::new();
        let mut j: usize = 0;
        while j < chunk_width
            invariant
                j <= chunk_width,
                slen == src@.len(),
                start + chunk_width <= src@.len(),
                chunk@.len() == j,
                forall|e: int| 0 <= e < j ==> #[trigger] chunk@[e] == src@[start + e],
            decreases chunk_width - j,
        {
            chunk.push(src[start + j]);
            j = j + 1;
        }
        proof {
            assert(chunk@ =~= src@.subrange(start as int, start + chunk_width));
        }
        chunks.push(chunk);
        k = k + 1;
    }
    chunks
}

/// Whether the chunk at visit-order position `pos` is emitted reversed:
/// only with `zigzag`, and then when the parity of its row within the
/// segment equals `phase`.
pub open spec fn row_reversed(zigzag: bool, rows_per_segment: int, phase: int, pos: int) -> bool {
    zigzag && (pos % rows_per_segment) % 2 == phase
}

/// Buffer index that position `i` of the full wiring order reads: `i` falls
/// at column `i % seg_width` of the chunk visited at position `i / seg_width`,
/// and that chunk's elements run backwards when its row parity matches
/// `phase` under `zigzag`.
pub open spec fn wiring_index(
    num_segments: int,
    rows_per_segment: int,
    seg_width: int,
    zigzag: bool,
    right_to_left: bool,
    phase: int,
    i: int,
) -> int {
    let pos = i / seg_width;
    let col = i % seg_width;
    let chunk = visit_chunk(num_segments, rows_per_segment, right_to_left, pos);
    if row_reversed(zigzag, rows_per_segment, phase, pos) {
        chunk * seg_width + (seg_width - 1 - col)
    } else {
        chunk * seg_width + col
    }
}

/// Every chunk index of the visit order addresses one of the panel's
/// `num_segments * rows_per_segment` chunks.
pub proof fn lemma_visit_chunk_bounds(ns: int, rows: int, right_to_left: bool, pos: int)
    requires
        ns >= 1,
        rows >= 1,
        0 <= pos < ns * rows,
    ensures
        0 <= visit_chunk(ns, rows, right_to_left, pos) < ns * rows,
{
    let r = pos % rows;
    let s = pos / rows;
    assert(0 <= r < rows);
    assert(0 <= s < ns) by (nonlinear_arith)
        requires
            rows >= 1,
            0 <= pos < ns * rows,
            s == pos / rows,
    ;
    let off = seg_offset(ns, right_to_left, s);
    assert(0 <= off < ns);
    assert(0 <= r * ns + off < ns * rows) by (nonlinear_arith)
        requires
            0 <= r < rows,
            0 <= off < ns,
    ;
}

/// The full wiring order of a panel of `num_segments` segments, each wired
/// through `px_per_segment` elements in rows of `seg_width`: the chunks are
/// visited as `mk_segmented_iterator` orders them, and each chunk's elements
/// are reversed exactly when `zigzag` is set and the chunk's row parity
/// within its segment matches `rev_odd`.
pub fn segmented<T: Copy>(
    data: &[T],
    num_segments: usize,
    px_per_segment: usize,
    seg_width: usize,
    zigzag: bool,
    right_to_left: bool,
    rev_odd: bool,
) -> (out: Vec<T>)
    requires
        seg_width >= 1,
        px_per_segment % seg_width == 0,
        num_segments * px_per_segment <= data@.len(),
    ensures
        out@.len() == num_segments * px_per_segment,
        forall|i: int|
            0 <= i < out@.len() ==> #[trigger] out@[i] == data@[wiring_index(
                num_segments as int,
                px_per_segment as int / seg_width as int,
                seg_width as int,
                zigzag,
                right_to_left,
                if rev_odd { 1int } else { 0int },
                i,
            )],
{
    let row_cmp: usize = if rev_odd { 1 } else { 0 };
    let dlen: usize = data.len();
    let rows: usize = px_per_segment / seg_width;
    proof {
        assert(data@.len() <= usize::MAX);
        lemma_fundamental_div_mod(px_per_segment as int, seg_width as int);
        assert(rows * seg_width == px_per_segment) by (nonlinear_arith)
            requires
                px_per_segment as int == seg_width as int * (px_per_segment as int
                    / seg_width as int) + px_per_segment as int % seg_width as int,
                px_per_segment as int % seg_width as int == 0,
                rows as int == px_per_segment as int / seg_width as int,
        ;
        assert(num_segments * rows * seg_width == num_segments * px_per_segment)
            by (nonlinear_arith)
            requires
                rows * seg_width == px_per_segment,
        ;
        assert(num_segments * rows <= num_segments * rows * seg_width) by (nonlinear_arith)
            requires
                seg_width >= 1,
                num_segments >= 0,
                rows >= 0,
        ;
    }
    let order = mk_segmented_iterator(num_segments, rows, right_to_left);
    proof {
        assert forall|k: int| 0 <= k < order@.len() implies (order@[k] * seg_width) + seg_width
            <= data@.len() by {
            assert(num_segments >= 1 && rows >= 1) by (nonlinear_arith)
                requires
                    0 <= k,
                    k < num_segments * rows,
            ;
            lemma_visit_chunk_bounds(
                num_segments as int,
                rows as int,
                right_to_left,
                k,
            );
            assert((order@[k] + 1) * seg_width <= num_segments * rows * seg_width)
                by (nonlinear_arith)
                requires
                    seg_width >= 1,
                    0 <= order@[k] as int + 1 <= num_segments * rows,
            ;
            assert((order@[k] + 1) * seg_width == order@[k] * seg_width + seg_width)
                by (nonlinear_arith);
        }
    }
    let chunks = array_chunks_reordered(data, &order, seg_width);
    let ghost phase: int = if rev_odd { 1int } else { 0int };
    let mut out: Vec<T> = Vec::new();
    let mut p: usize = 0;
    while p < chunks.len()
        invariant
            p <= chunks@.len(),
            seg_width >= 1,
            rows * seg_width == px_per_segment,
            order@.len() == num_segments * rows,
            chunks@.len() == order@.len(),
            num_segments * rows * seg_width == num_segments * px_per_segment,
            num_segments * px_per_segment <= data@.len(),
            row_cmp as int == phase,
            phase == if rev_odd { 1int } else { 0int },
            forall|k: int|
                0 <= k < order@.len() ==> #[trigger] order@[k] as int == visit_chunk(
                    num_segments as int,
                    rows as int,
                    right_to_left,
                    k,
                ),
            forall|k: int|
                0 <= k < order@.len() ==> #[trigger] (order@[k] * seg_width) + seg_width
                    <= data@.len(),
            forall|k: int|
                0 <= k < order@.len() ==> #[trigger] chunks@[k]@ == data@.subrange(
                    order@[k] * seg_width,
                    order@[k] * seg_width + seg_width,
                ),
            out@.len() == p * seg_width,
            forall|i: int|
                0 <= i < out@.len() ==> #[trigger] out@[i] == data@[wiring_index(
                    num_segments as int,
                    rows as int,
                    seg_width as int,
                    zigzag,
                    right_to_left,
                    phase,
                    i,
                )],
        decreases chunks@.len() - p,
    {
        proof {
            assert(rows >= 1 && num_segments >= 1) by (nonlinear_arith)
                requires
                    p < num_segments * rows,
                    0 <= p,
            ;
        }
        let rev = zigzag && ((p % rows) % 2 == row_cmp);
        let chunk = &chunks[p];
        let mut j: usize = 0;
        while j < seg_width
            invariant
                j <= seg_width,
                p < chunks@.len(),
                seg_width >= 1,
                rows >= 1,
                rows * seg_width == px_per_segment,
                order@.len() == num_segments * rows,
                chunks@.len() == order@.len(),
                row_cmp as int == phase,
                rev == (zigzag && ((p as int % rows as int) % 2 == phase)),
                chunk@ == chunks@[p as int]@,
                0 <= order@[p as int] * seg_width,
                order@[p as int] * seg_width + seg_width <= data@.len(),
                chunk@ == data@.subrange(
                    order@[p as int] * seg_width,
                    order@[p as int] * seg_width + seg_width,
                ),
                order@[p as int] as int == visit_chunk(
                    num_segments as int,
                    rows as int,
                    right_to_left,
                    p as int,
                ),
                out@.len() == p * seg_width + j,
                forall|i: int|
                    0 <= i < out@.len() ==> #[trigger] out@[i] == data@[wiring_index(
                        num_segments as int,
                        rows as int,
                        seg_width as int,
                        zigzag,
                        right_to_left,
                        phase,
                        i,
                    )],
            decreases seg_width - j,
        {
            let e: usize = if rev {
                seg_width - 1 - j
            } else {
                j
            };
            proof {
                assert(chunk@.len() == seg_width);
                assert(0 <= e < seg_width);
            }
            let v: T = chunk[e];
            proof {
                let i = out@.len() as int;
                lemma_fundamental_div_mod_converse(
                    i,
                    seg_width as int,
                    p as int,
                    j as int,
                );
                assert(chunk@[e as int] == data@.subrange(
                    order@[p as int] * seg_width,
                    order@[p as int] * seg_width + seg_width,
                )[e as int]);
                assert(chunk@[e as int] == data@[order@[p as int] * seg_width + e]);
            }
            out.push(v);
            j = j + 1;
        }
        p = p + 1;
        proof {
            assert((p - 1) * seg_width + seg_width == p * seg_width) by (nonlinear_arith);
        }
    }
    out
}

/// Wiring-order position that reads buffer index `j`: the inverse of
/// `wiring_index` over one panel.
pub open spec fn wiring_inverse(
    num_segments: int,
    rows_per_segment: int,
    seg_width: int,
    zigzag: bool,
    right_to_left: bool,
    phase: int,
    j: int,
) -> int {
    let chunk = j / seg_width;
    let e = j % seg_width;
    let r = chunk / num_segments;
    let off = chunk % num_segments;
    let s = seg_offset(num_segments, right_to_left, off);
    let pos = s * rows_per_segment + r;
    if row_reversed(zigzag, rows_per_segment, phase, pos) {
        pos * seg_width + (seg_width - 1 - e)
    } else {
        pos * seg_width + e
    }
}

proof fn lemma_wiring_round_trip(
    ns: int,
    rows: int,
    sw: int,
    zigzag: bool,
    rtl: bool,
    phase: int,
    i: int,
)
    requires
        ns >= 1,
        rows >= 1,
        sw >= 1,
        0 <= i < ns * rows * sw,
    ensures
        0 <= wiring_index(ns, rows, sw, zigzag, rtl, phase, i) < ns * rows * sw,
        wiring_inverse(
            ns,
            rows,
            sw,
            zigzag,
            rtl,
            phase,
            wiring_index(ns, rows, sw, zigzag, rtl, phase, i),
        ) == i,
{
    let pos = i / sw;
    let col = i % sw;
    assert(0 <= col < sw);
    assert(0 <= pos < ns * rows) by (nonlinear_arith)
        requires
            sw >= 1,
            0 <= i < ns * rows * sw,
            pos == i / sw,
    ;
    let r = pos % rows;
    let s = pos / rows;
    assert(0 <= r < rows);
    assert(0 <= s < ns) by (nonlinear_arith)
        requires
            rows >= 1,
            0 <= pos < ns * rows,
            s == pos / rows,
    ;
    let off = seg_offset(ns, rtl, s);
    assert(0 <= off < ns);
    let chunk = r * ns + off;
    assert(visit_chunk(ns, rows, rtl, pos) == chunk);
    assert(0 <= chunk < ns * rows) by (nonlinear_arith)
        requires
            0 <= r < rows,
            0 <= off < ns,
            chunk == r * ns + off,
    ;
    let e = if row_reversed(zigzag, rows, phase, pos) {
        sw - 1 - col
    } else {
        col
    };
    assert(0 <= e < sw);
    let w = chunk * sw + e;
    assert(wiring_index(ns, rows, sw, zigzag, rtl, phase, i) == w);
    assert(0 <= w < ns * rows * sw) by (nonlinear_arith)
        requires
            0 <= chunk < ns * rows,
            0 <= e < sw,
            w == chunk * sw + e,
    ;
    lemma_fundamental_div_mod_converse(w, sw, chunk, e);
    lemma_fundamental_div_mod_converse(chunk, ns, r, off);
    assert(seg_offset(ns, rtl, off) == s);
    lemma_fundamental_div_mod(pos, rows);
    assert(s * rows + r == pos) by (nonlinear_arith)
        requires
            pos == rows * s + r,
    ;
    lemma_fundamental_div_mod(i, sw);
    assert(pos * sw + col == i) by (nonlinear_arith)
        requires
            i == sw * pos + col,
    ;
}

proof fn lemma_wiring_inverse_round_trip(
    ns: int,
    rows: int,
    sw: int,
    zigzag: bool,
    rtl: bool,
    phase: int,
    j: int,
)
    requires
        ns >= 1,
        rows >= 1,
        sw >= 1,
        0 <= j < ns * rows * sw,
    ensures
        0 <= wiring_inverse(ns, rows, sw, zigzag, rtl, phase, j) < ns * rows * sw,
        wiring_index(
            ns,
            rows,
            sw,
            zigzag,
            rtl,
            phase,
            wiring_inverse(ns, rows, sw, zigzag, rtl, phase, j),
        ) == j,
{
    let chunk = j / sw;
    let e = j % sw;
    assert(0 <= e < sw);
    assert(0 <= chunk < ns * rows) by (nonlinear_arith)
        requires
            sw >= 1,
            0 <= j < ns * rows * sw,
            chunk == j / sw,
    ;
    let r = chunk / ns;
    let off = chunk % ns;
    assert(0 <= off < ns);
    assert(0 <= r < rows) by (nonlinear_arith)
        requires
            ns >= 1,
            0 <= chunk < ns * rows,
            r == chunk / ns,
    ;
    let s = seg_offset(ns, rtl, off);
    assert(0 <= s < ns);
    let pos = s * rows + r;
    assert(0 <= pos < ns * rows) by (nonlinear_arith)
        requires
            0 <= s < ns,
            0 <= r < rows,
            pos == s * rows + r,
    ;
    let col = if row_reversed(zigzag, rows, phase, pos) {
        sw - 1 - e
    } else {
        e
    };
    assert(0 <= col < sw);
    let i = pos * sw + col;
    assert(wiring_inverse(ns, rows, sw, zigzag, rtl, phase, j) == i);
    assert(0 <= i < ns * rows * sw) by (nonlinear_arith)
        requires
            0 <= pos < ns * rows,
            0 <= col < sw,
            i == pos * sw + col,
    ;
    lemma_fundamental_div_mod_converse(i, sw, pos, col);
    lemma_fundamental_div_mod_converse(pos, rows, s, r);
    assert(seg_offset(ns, rtl, s) == off);
    lemma_fundamental_div_mod(chunk, ns);
    assert(visit_chunk(ns, rows, rtl, pos) == r * ns + off);
    assert(r * ns + off == chunk) by (nonlinear_arith)
        requires
            chunk == ns * r + off,
    ;
    lemma_fundamental_div_mod(j, sw);
    assert(chunk * sw + e == j) by (nonlinear_arith)
        requires
            j == sw * chunk + e,
    ;
}

/// The wiring order is a permutation of the addressed buffer prefix: over a
/// panel of `ns * rows * sw` elements, `wiring_index` stays within the panel,
/// never reads the same buffer index from two wiring positions, and reads
/// every buffer index from some wiring position, `wiring_inverse` giving the
/// position for each index.
pub proof fn lemma_wiring_permutation(
    ns: int,
    rows: int,
    sw: int,
    zigzag: bool,
    rtl: bool,
    phase: int,
)
    requires
        ns >= 0,
        rows >= 1,
        sw >= 1,
    ensures
        forall|i: int|
            0 <= i < ns * rows * sw ==> 0 <= #[trigger] wiring_index(
                ns,
                rows,
                sw,
                zigzag,
                rtl,
                phase,
                i,
            ) < ns * rows * sw,
        forall|i: int|
            0 <= i < ns * rows * sw ==> wiring_inverse(
                ns,
                rows,
                sw,
                zigzag,
                rtl,
                phase,
                #[trigger] wiring_index(ns, rows, sw, zigzag, rtl, phase, i),
            ) == i,
        forall|i1: int, i2: int|
            0 <= i1 < ns * rows * sw && 0 <= i2 < ns * rows * sw && i1 != i2
                ==> #[trigger] wiring_index(ns, rows, sw, zigzag, rtl, phase, i1)
                != #[trigger] wiring_index(ns, rows, sw, zigzag, rtl, phase, i2),
        forall|j: int|
            0 <= j < ns * rows * sw ==> 0 <= #[trigger] wiring_inverse(
                ns,
                rows,
                sw,
                zigzag,
                rtl,
                phase,
                j,
            ) < ns * rows * sw,
        forall|j: int|
            0 <= j < ns * rows * sw ==> wiring_index(
                ns,
                rows,
                sw,
                zigzag,
                rtl,
                phase,
                #[trigger] wiring_inverse(ns, rows, sw, zigzag, rtl, phase, j),
            ) == j,
{
    if ns >= 1 {
        assert forall|i: int| 0 <= i < ns * rows * sw implies 0 <= #[trigger] wiring_index(
            ns,
            rows,
            sw,
            zigzag,
            rtl,
            phase,
            i,
        ) < ns * rows * sw && wiring_inverse(
            ns,
            rows,
            sw,
            zigzag,
            rtl,
            phase,
            wiring_index(ns, rows, sw, zigzag, rtl, phase, i),
        ) == i by {
            lemma_wiring_round_trip(ns, rows, sw, zigzag, rtl, phase, i);
        }
        assert forall|j: int| 0 <= j < ns * rows * sw implies 0 <= #[trigger] wiring_inverse(
            ns,
            rows,
            sw,
            zigzag,
            rtl,
            phase,
            j,
        ) < ns * rows * sw && wiring_index(
            ns,
            rows,
            sw,
            zigzag,
            rtl,
            phase,
            wiring_inverse(ns, rows, sw, zigzag, rtl, phase, j),
        ) == j by {
            lemma_wiring_inverse_round_trip(ns, rows, sw, zigzag, rtl, phase, j);
        }
    } else {
        assert(ns * rows * sw == 0) by (nonlinear_arith)
            requires
                ns == 0,
        ;
    }
}

/// A panel of whole rows covers exactly `num_segments * px_per_segment`
/// elements, so `lemma_wiring_permutation` applies to the full range that
/// `segmented` emits.
pub proof fn lemma_panel_size(ns: int, pps: int, sw: int)
    requires
        ns >= 0,
        pps >= 0,
        sw >= 1,
        pps % sw == 0,
    ensures
        ns * (pps / sw) * sw == ns * pps,
{
    lemma_fundamental_div_mod(pps, sw);
    assert(ns * (pps / sw) * sw == ns * pps) by (nonlinear_arith)
        requires
            pps == sw * (pps / sw) + pps % sw,
            pps % sw == 0,
    ;
}

/// The visit order is segment-major: the position of segment `s`, row `r`
/// emits chunk `r * ns + seg_offset(s)`, so within one segment the emitted
/// chunk indices rise by `ns` from row to row — a strictly increasing,
/// contiguous run of `rows` positions per segment.
pub proof fn lemma_segment_major(ns: int, rows: int, right_to_left: bool, s: int, r: int)
    requires
        ns >= 1,
        rows >= 1,
        0 <= s < ns,
        0 <= r < rows,
    ensures
        visit_chunk(ns, rows, right_to_left, s * rows + r) == r * ns + seg_offset(
            ns,
            right_to_left,
            s,
        ),
        r + 1 < rows ==> visit_chunk(ns, rows, right_to_left, s * rows + (r + 1)) == visit_chunk(
            ns,
            rows,
            right_to_left,
            s * rows + r,
        ) + ns,
{
    lemma_fundamental_div_mod_converse(s * rows + r, rows, s, r);
    if r + 1 < rows {
        lemma_fundamental_div_mod_converse(s * rows + (r + 1), rows, s, r + 1);
        assert((r + 1) * ns == r * ns + ns) by (nonlinear_arith);
    }
}

/// Reversing the wiring direction mirrors each segment's physical offset to
/// `ns - 1 - s` and leaves the row ordering within the segment unchanged.
pub proof fn lemma_direction_symmetry(ns: int, rows: int, s: int, r: int)
    requires
        ns >= 1,
        rows >= 1,
        0 <= s < ns,
        0 <= r < rows,
    ensures
        visit_chunk(ns, rows, false, s * rows + r) == r * ns + s,
        visit_chunk(ns, rows, true, s * rows + r) == r * ns + ((ns - 1) - s),
{
    lemma_fundamental_div_mod_converse(s * rows + r, rows, s, r);
}

/// How the zigzag phase picks the reversed rows: with `zigzag` and phase 1,
/// chunks at even row positions within their segment are emitted forward and
/// odd ones reversed; phase 0 inverts the parity; without `zigzag` every
/// chunk is emitted forward.
pub proof fn lemma_zigzag_phase(
    ns: int,
    rows: int,
    sw: int,
    right_to_left: bool,
    pos: int,
    col: int,
)
    requires
        ns >= 1,
        rows >= 1,
        sw >= 1,
        0 <= pos,
        0 <= col < sw,
    ensures
        (pos % rows) % 2 == 0 ==> wiring_index(ns, rows, sw, true, right_to_left, 1, pos * sw + col)
            == visit_chunk(ns, rows, right_to_left, pos) * sw + col,
        (pos % rows) % 2 == 1 ==> wiring_index(ns, rows, sw, true, right_to_left, 1, pos * sw + col)
            == visit_chunk(ns, rows, right_to_left, pos) * sw + (sw - 1 - col),
        (pos % rows) % 2 == 0 ==> wiring_index(ns, rows, sw, true, right_to_left, 0, pos * sw + col)
            == visit_chunk(ns, rows, right_to_left, pos) * sw + (sw - 1 - col),
        (pos % rows) % 2 == 1 ==> wiring_index(ns, rows, sw, true, right_to_left, 0, pos * sw + col)
            == visit_chunk(ns, rows, right_to_left, pos) * sw + col,
        forall|phase: int|
            #[trigger] wiring_index(ns, rows, sw, false, right_to_left, phase, pos * sw + col)
                == visit_chunk(ns, rows, right_to_left, pos) * sw + col,
{
    lemma_fundamental_div_mod_converse(pos * sw + col, sw, pos, col);
}

} // verus!

