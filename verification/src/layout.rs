//! Layout of a full-resolution export: canvas limits, the crop that the
//! finished picture keeps, and the bands in which it is composed.

use crate::blend::is_num_bands;
use crate::blend::num_bands_for;
use crate::blend::result_roi;
use crate::imgproc::GrayImage;
use vstd::arithmetic::power::pow;
use vstd::math::max;
use vstd::math::min;
use vstd::prelude::*;

verus! {

/// Band height in canvas rows, before padding.
pub const BAND_H: usize = 768;

/// Rows of padding above and below a band.
pub const BAND_PAD: usize = 256;

/// Widest strip of duplicated columns left out at the end of the wrap.
pub const WRAP_TRIM: i32 = 64;

/// What a build runs on.
#[derive(Debug, Clone, Copy, PartialEq, Eq, Structural)]
pub enum Host {
    /// A WebAssembly module, whose four gigabytes hold the sources as well.
    Wasm32,
    Native,
}

/// Largest canvas, colour and coverage together, in bytes.
pub open spec fn canvas_limit(host: Host) -> int {
    match host {
        Host::Wasm32 => 1_250_000_000,
        Host::Native => 32_000_000_000,
    }
}

/// Largest canvas, colour and coverage together, in bytes.
pub fn max_canvas_bytes(host: Host) -> (bytes: u64)
    ensures
        bytes == canvas_limit(host),
{
    match host {
        Host::Wasm32 => 1_250_000_000,
        Host::Native => 32_000_000_000,
    }
}

/// Bytes of a canvas twice as wide as high.
pub open spec fn canvas_bytes(width: int) -> int {
    width * (width / 2) * 4
}

/// The largest even number up to `width`.
pub open spec fn even_part(width: int) -> int {
    width - width % 2
}

/// Width of the canvas for a panorama `width` columns round: even, so that the
/// canvas can be half as high.
pub fn even_width(width: usize) -> (r: usize)
    ensures
        r == even_part(width as int),
        r % 2 == 0,
{
    width - width % 2
}

/// Widest canvas that fits: the largest even width of a panorama twice as
/// wide as high whose canvas stays within the limit.
pub fn max_export_width(host: Host) -> (width: usize)
    ensures
        width % 2 == 0,
        canvas_bytes(width as int) <= canvas_limit(host),
        forall|wider: int|
            wider > width && wider % 2 == 0 ==> #[trigger] canvas_bytes(wider) > canvas_limit(host),
{
    let limit: u64 = max_canvas_bytes(host) / 2;
    let mut root: u64 = 0;
    let mut span: u64 = 262144;
    while span > 1
        invariant
            1 <= span <= 262144,
            root + span <= 262144,
            root * root <= limit,
            limit < (root + span) * (root + span),
        decreases span,
    {
        let half: u64 = span / 2;
        let next: u64 = root + half;
        assert(next * next <= 262144 * 262144) by (nonlinear_arith)
            requires
                0 <= next <= 262144,
        ;
        if next * next <= limit {
            root = next;
            span = span - half;
        } else {
            span = half;
        }
    }
    let width: u64 = root - root % 2;
    proof {
        let (w, r) = (width as int, root as int);
        assert(w * (w / 2) * 4 == 2 * (w * w)) by (nonlinear_arith)
            requires
                w % 2 == 0,
        ;
        assert(w * w <= r * r) by (nonlinear_arith)
            requires
                0 <= w <= r,
        ;
        assert forall|wider: int| wider > w && wider % 2 == 0 implies #[trigger] canvas_bytes(wider)
            > canvas_limit(host) by {
            assert(wider >= r + 1);
            assert(wider * (wider / 2) * 4 == 2 * (wider * wider)) by (nonlinear_arith)
                requires
                    wider % 2 == 0,
            ;
            assert(wider * wider >= (r + 1) * (r + 1)) by (nonlinear_arith)
                requires
                    wider >= r + 1,
                    r >= 0,
            ;
        }
    }
    width as usize
}

/// A warped source on the export strip. A source that crosses the wrap
/// stands there twice, the second time one turn further.
#[derive(Debug, Clone, Copy)]
pub struct Entry {
    pub src_idx: usize,
    pub dup: bool,
    /// Left, top, width and height.
    pub roi: (i32, i32, i32, i32),
}

impl Entry {
    /// The entry of a source warped to `roi`, moved one turn of `canvas_w`
    /// columns if it is the second one.
    pub fn new(src_idx: usize, dup: bool, roi: (i32, i32, i32, i32), canvas_w: usize) -> (e: Self)
        requires
            dup ==> canvas_w <= i32::MAX && roi.0 + canvas_w <= i32::MAX,
        ensures
            e.src_idx == src_idx,
            e.dup == dup,
            e.roi.0 == roi.0 + if dup {
                canvas_w as int
            } else {
                0
            },
            e.roi.1 == roi.1,
            e.roi.2 == roi.2,
            e.roi.3 == roi.3,
    {
        let x: i32 = if dup {
            roi.0 + canvas_w as i32
        } else {
            roi.0
        };
        Entry { src_idx, dup, roi: (x, roi.1, roi.2, roi.3) }
    }

    pub open spec fn right(&self) -> int {
        self.roi.0 + self.roi.2
    }

    pub open spec fn bottom(&self) -> int {
        self.roi.1 + self.roi.3
    }

    /// The entry reaches into rows `y0..y1`.
    pub open spec fn meets(&self, y0: int, y1: int) -> bool {
        self.roi.1 < y1 && self.bottom() > y0
    }
}

/// First and last row of `mask` that hold anything.
pub open spec fn is_row_range(mask: &GrayImage, r: Option<(usize, usize)>) -> bool {
    match r {
        None => forall|x: int, y: int|
            0 <= x < mask.width && 0 <= y < mask.height ==> #[trigger] mask.px(x, y) == 0,
        Some((first, last)) => {
            &&& first <= last < mask.height
            &&& row_used(mask, first as int)
            &&& row_used(mask, last as int)
            &&& forall|y: int| 0 <= y < mask.height && #[trigger] row_used(mask, y) ==> first <= y
                <= last
        },
    }
}

/// Row `y` of `mask` holds something.
pub open spec fn row_used(mask: &GrayImage, y: int) -> bool {
    exists|x: int| 0 <= x < mask.width && #[trigger] mask.px(x, y) != 0
}

/// First and last row of `mask` that hold anything.
pub fn covered_rows(mask: &GrayImage) -> (r: Option<(usize, usize)>)
    requires
        mask.wf(),
    ensures
        is_row_range(mask, r),
{
    let mut r: Option<(usize, usize)> = None;
    let mut y: usize = 0;
    while y < mask.height
        invariant
            mask.wf(),
            y <= mask.height,
            match r {
                None => forall|z: int| 0 <= z < y ==> !#[trigger] row_used(mask, z),
                Some((first, last)) => {
                    &&& first <= last < y
                    &&& row_used(mask, first as int)
                    &&& row_used(mask, last as int)
                    &&& forall|z: int| 0 <= z < y && #[trigger] row_used(mask, z) ==> first <= z
                        <= last
                },
            },
        decreases mask.height - y,
    {
        let mut used: bool = false;
        let mut x: usize = 0;
        while x < mask.width
            invariant
                mask.wf(),
                y < mask.height,
                x <= mask.width,
                used <==> exists|z: int| 0 <= z < x && #[trigger] mask.px(z, y as int) != 0,
            decreases mask.width - x,
        {
            if mask.at(x, y) != 0 {
                assert(mask.px(x as int, y as int) != 0);
                used = true;
            }
            x = x + 1;
        }
        assert(used == row_used(mask, y as int));
        if used {
            r = match r {
                None => Some((y, y)),
                Some((first, last)) => Some((first, y)),
            };
        }
        y = y + 1;
    }
    proof {
        if r is None {
            assert forall|x: int, z: int|
                0 <= x < mask.width && 0 <= z < mask.height implies #[trigger] mask.px(x, z) == 0 by {
                assert(!row_used(mask, z));
            }
        }
    }
    r
}

/// `v` moved into `lo..=hi`.
pub open spec fn clamped(v: int, lo: int, hi: int) -> int {
    if v < lo {
        lo
    } else if v > hi {
        hi
    } else {
        v
    }
}

/// Column `x` of an endless strip on a canvas `w` columns round.
pub fn wrap_column(x: i64, w: usize) -> (c: usize)
    requires
        1 <= w <= i32::MAX,
        x > i64::MIN,
    ensures
        c == (x as int) % (w as int),
        c < w,
{
    let n: i64 = w as i64;
    if x >= 0 {
        (x % n) as usize
    } else {
        let r: i64 = (-x) % n;
        proof {
            let (xi, ni, ri) = (x as int, n as int, r as int);
            vstd::arithmetic::div_mod::lemma_fundamental_div_mod(-xi, ni);
            let q = (-xi) / ni;
            if r == 0 {
                assert(xi == ni * (-q) + 0) by (nonlinear_arith)
                    requires
                        -xi == ni * q + ri,
                        ri == 0,
                ;
                vstd::arithmetic::div_mod::lemma_fundamental_div_mod_converse(xi, ni, -q, 0);
            } else {
                assert(xi == ni * (-q - 1) + (ni - ri)) by (nonlinear_arith)
                    requires
                        -xi == ni * q + ri,
                ;
                vstd::arithmetic::div_mod::lemma_fundamental_div_mod_converse(
                    xi,
                    ni,
                    -q - 1,
                    ni - ri,
                );
            }
        }
        if r == 0 {
            0
        } else {
            (n - r) as usize
        }
    }
}

/// Where everything of an export lies.
#[derive(Debug, Clone, Copy)]
pub struct ExportLayout {
    pub canvas_w: usize,
    pub canvas_h: usize,
    /// Strip column of the canvas's left edge.
    pub off_x: i32,
    /// Left, top, width and height of the strip that holds every entry.
    pub strip: (i32, i32, usize, usize),
    /// First strip column of the part beyond the wrap, from the strip's left.
    pub ext_start: i32,
    /// Columns at the strip's right end that are not pasted.
    pub ext_trim: i32,
    /// Strip column behind the part within one turn, from the strip's left.
    pub originals_end: i32,
    pub mb_bands: usize,
    /// Canvas rows that the bands cover.
    pub rows: (usize, usize),
    /// Part of the canvas that is kept: left, top, width and height.
    pub crop: (usize, usize, usize, usize),
}

/// The entries' places fit in 32 bits, as do the distances between them.
pub open spec fn entries_fit(entries: Seq<Entry>, off_x: int) -> bool {
    &&& forall|i: int|
        0 <= i < entries.len() ==> {
            &&& 0 <= (#[trigger] entries[i]).roi.2
            &&& 0 <= entries[i].roi.3
            &&& entries[i].right() <= i32::MAX
            &&& entries[i].bottom() <= i32::MAX
            &&& i32::MIN <= entries[i].roi.0 - off_x
            &&& entries[i].right() - off_x <= i32::MAX
        }
    &&& forall|i: int, j: int|
        0 <= i < entries.len() && 0 <= j < entries.len() ==> {
            &&& (#[trigger] entries[i]).right() - (#[trigger] entries[j]).roi.0 <= i32::MAX
            &&& entries[i].bottom() - entries[j].roi.1 <= i32::MAX
        }
}

/// `strip` is the smallest rectangle around the entries.
pub open spec fn frames(strip: (i32, i32, usize, usize), entries: Seq<Entry>) -> bool {
    &&& forall|i: int|
        0 <= i < entries.len() ==> {
            &&& strip.0 <= (#[trigger] entries[i]).roi.0
            &&& strip.1 <= entries[i].roi.1
            &&& entries[i].right() <= strip.0 + strip.2
            &&& entries[i].bottom() <= strip.1 + strip.3
        }
    &&& exists|i: int| 0 <= i < entries.len() && (#[trigger] entries[i]).roi.0 == strip.0
    &&& exists|i: int| 0 <= i < entries.len() && (#[trigger] entries[i]).roi.1 == strip.1
    &&& exists|i: int| 0 <= i < entries.len() && (#[trigger] entries[i]).right() == strip.0 + strip.2
    &&& exists|i: int|
        0 <= i < entries.len() && (#[trigger] entries[i]).bottom() == strip.1 + strip.3
}

/// An entry stands beyond the wrap.
pub open spec fn wraps(entries: Seq<Entry>) -> bool {
    exists|i: int| 0 <= i < entries.len() && (#[trigger] entries[i]).dup
}

/// `end` is where the entries within one turn end, from `left`.
pub open spec fn is_originals_end(entries: Seq<Entry>, left: int, end: int) -> bool {
    &&& forall|i: int|
        0 <= i < entries.len() && !(#[trigger] entries[i]).dup ==> entries[i].right() - left <= end
    &&& exists|i: int|
        0 <= i < entries.len() && !(#[trigger] entries[i]).dup && entries[i].right() - left == end
}

/// `start` is where the entries beyond the wrap start, from `left`; where
/// there are none, the strip's width.
pub open spec fn is_ext_start(entries: Seq<Entry>, left: int, width: int, start: int) -> bool {
    if wraps(entries) {
        &&& forall|i: int|
            0 <= i < entries.len() && (#[trigger] entries[i]).dup ==> start <= entries[i].roi.0
                - left
        &&& exists|i: int|
            0 <= i < entries.len() && (#[trigger] entries[i]).dup && start == entries[i].roi.0
                - left
    } else {
        start == width
    }
}

/// Rows of each entry that its mask covers, from its top; none where the
/// mask is empty.
pub open spec fn cover_top(entries: Seq<Entry>, rows: Seq<Option<(i32, i32)>>, k: int) -> int
    decreases k,
{
    if k <= 0 {
        i32::MAX as int
    } else {
        match rows[k - 1] {
            Some(r) => min(cover_top(entries, rows, k - 1), entries[k - 1].roi.1 + r.0),
            None => cover_top(entries, rows, k - 1),
        }
    }
}

/// The row behind the lowest that a mask covers.
pub open spec fn cover_bottom(entries: Seq<Entry>, rows: Seq<Option<(i32, i32)>>, k: int) -> int
    decreases k,
{
    if k <= 0 {
        i32::MIN as int
    } else {
        match rows[k - 1] {
            Some(r) => max(cover_bottom(entries, rows, k - 1), entries[k - 1].roi.1 + r.1),
            None => cover_bottom(entries, rows, k - 1),
        }
    }
}

/// Columns of the canvas that are kept, as left edge and width: all of them
/// where the panorama goes round, else those from the strip's left to where
/// its entries end, unless they cross the canvas's edge.
pub open spec fn crop_columns(
    entries: Seq<Entry>,
    left: int,
    off_x: int,
    originals_end: int,
    w: int,
) -> (int, int) {
    let s = (left - off_x) % w;
    let len = clamped(originals_end, 0, w);
    if !wraps(entries) && s + len <= w {
        (s, len)
    } else {
        (0, w)
    }
}

impl ExportLayout {
    /// What a layout is, for a canvas `canvas_w` columns wide.
    pub open spec fn is_for(
        &self,
        canvas_w: int,
        off_x: int,
        entries: Seq<Entry>,
        rows: Seq<Option<(i32, i32)>>,
    ) -> bool {
        let n = entries.len() as int;
        let margin = pow(2, self.mb_bands as nat);
        let h = self.canvas_h as int;
        let (s, len) = crop_columns(
            entries,
            self.strip.0 as int,
            off_x,
            self.originals_end as int,
            canvas_w,
        );
        &&& self.canvas_w == canvas_w
        &&& self.canvas_h == canvas_w / 2
        &&& self.off_x == off_x
        &&& frames(self.strip, entries)
        &&& is_originals_end(entries, self.strip.0 as int, self.originals_end as int)
        &&& is_ext_start(
            entries,
            self.strip.0 as int,
            self.strip.2 as int,
            self.ext_start as int,
        )
        &&& self.ext_trim == min(WRAP_TRIM as int, (self.strip.2 - self.ext_start) / 2)
        &&& is_num_bands(self.strip.2 as int, h, self.mb_bands as int)
        &&& self.rows.0 == clamped(
            max(cover_top(entries, rows, n) - margin, self.strip.1 as int),
            0,
            h,
        )
        &&& self.rows.1 == clamped(
            min(cover_bottom(entries, rows, n) + margin, self.strip.1 + self.strip.3),
            self.rows.0 as int,
            h,
        )
        &&& self.crop.0 == s
        &&& self.crop.2 == len
        &&& self.crop.1 == self.rows.0
        &&& self.crop.3 == max(1, self.rows.1 - self.rows.0)
    }

    /// The layout of an export. `rows` holds for each entry the first row that
    /// its seam mask covers and the row behind the last, from the entry's top.
    #[verifier::spinoff_prover]
    #[verifier::rlimit(60)]
    pub fn plan(
        canvas_w: usize,
        off_x: i32,
        entries: &[Entry],
        rows: &[Option<(i32, i32)>],
    ) -> (l: Self)
        requires
            canvas_w >= 2,
            canvas_bytes(canvas_w as int) <= canvas_limit(Host::Native),
            entries_fit(entries@, off_x as int),
            rows@.len() == entries@.len(),
            forall|i: int|
                0 <= i < entries@.len() && (#[trigger] rows@[i]) is Some ==> {
                    &&& i32::MIN <= entries@[i].roi.1 + (rows@[i]->0).0 <= i32::MAX
                    &&& i32::MIN <= entries@[i].roi.1 + (rows@[i]->0).1 <= i32::MAX
                },
            exists|i: int| 0 <= i < entries@.len() && !(#[trigger] entries@[i]).dup,
            forall|i: int, j: int|
                0 <= i < entries@.len() && 0 <= j < entries@.len() ==> ((#[trigger] entries@[i]).right()
                    - (#[trigger] entries@[j]).roi.0) * (canvas_w / 2) <= usize::MAX,
            exists|i: int| 0 <= i < entries@.len() && (#[trigger] entries@[i]).roi.2 > 0,
        ensures
            l.is_for(canvas_w as int, off_x as int, entries@, rows@),
    {
        let n: usize = entries.len();
        proof {
            lemma_canvas_small(canvas_w as int);
        }
        let canvas_h: usize = canvas_w / 2;
        let strip = strip_of(entries, Ghost(off_x as int));
        let ghost left = strip.0 as int;
        proof {
            let a = choose|i: int| 0 <= i < n && (#[trigger] entries@[i]).right() == strip.0 + strip.2;
            let b = choose|i: int| 0 <= i < n && (#[trigger] entries@[i]).roi.0 == strip.0;
            let c = choose|i: int| 0 <= i < n && (#[trigger] entries@[i]).roi.2 > 0;
            assert(strip.2 == entries@[a].right() - entries@[b].roi.0);
            assert(strip.0 <= entries@[c].roi.0 && entries@[c].right() <= strip.0 + strip.2);
            assert(strip.2 >= 1 && strip.2 <= i32::MAX);
            assert(strip.2 * canvas_h >= 1) by (nonlinear_arith)
                requires
                    strip.2 >= 1,
                    canvas_h >= 1,
            ;
            let d = choose|i: int| 0 <= i < n && (#[trigger] entries@[i]).bottom() == strip.1 + strip.3;
            let e = choose|i: int| 0 <= i < n && (#[trigger] entries@[i]).roi.1 == strip.1;
            assert(strip.3 == entries@[d].bottom() - entries@[e].roi.1);
        }
        let mb_bands: usize = num_bands_for(strip.2, canvas_h);
        let margin: i64 = two_to(mb_bands);
        let (originals_end, ext_start, top, bottom) = fold_entries(
            entries,
            rows,
            strip,
            Ghost(off_x as int),
        );
        let end: i32 = match originals_end {
            Some(e) => e,
            None => {
                proof {
                    let k = choose|k: int| 0 <= k < n && !(#[trigger] entries@[k]).dup;
                    assert(entries@[k].dup);
                }
                0
            },
        };
        let full_wrap: bool = ext_start.is_some();
        let start: i32 = match ext_start {
            Some(s) => s,
            None => strip.2 as i32,
        };
        proof {
            if full_wrap {
                let k = choose|k: int|
                    0 <= k < n && (#[trigger] entries@[k]).dup && start == entries@[k].roi.0 - left;
                assert(strip.0 <= entries@[k].roi.0 && entries@[k].right() <= strip.0 + strip.2);
                assert(0 <= entries@[k].roi.2);
            }
            assert(0 <= start <= strip.2);
        }
        let half: i32 = (strip.2 as i32 - start) / 2;
        let ext_trim: i32 = if half < WRAP_TRIM {
            half
        } else {
            WRAP_TRIM
        };
        let h: i64 = canvas_h as i64;
        let lo: i64 = if top - margin > strip.1 as i64 {
            top - margin
        } else {
            strip.1 as i64
        };
        let y0: i64 = if lo < 0 {
            0
        } else if lo > h {
            h
        } else {
            lo
        };
        let box_bottom: i64 = strip.1 as i64 + strip.3 as i64;
        let hi: i64 = if bottom + margin < box_bottom {
            bottom + margin
        } else {
            box_bottom
        };
        let y1: i64 = if hi < y0 {
            y0
        } else if hi > h {
            h
        } else {
            hi
        };
        let mut crop_x: usize = 0;
        let mut crop_w: usize = canvas_w;
        if !full_wrap {
            let s: usize = wrap_column(strip.0 as i64 - off_x as i64, canvas_w);
            let len: usize = if end < 0 {
                0
            } else if end as usize > canvas_w {
                canvas_w
            } else {
                end as usize
            };
            if s + len <= canvas_w {
                crop_x = s;
                crop_w = len;
            }
        }
        let crop_h: usize = if y1 > y0 {
            (y1 - y0) as usize
        } else {
            1
        };
        ExportLayout {
            canvas_w,
            canvas_h,
            off_x,
            strip,
            ext_start: start,
            ext_trim,
            originals_end: end,
            mb_bands,
            rows: (y0 as usize, y1 as usize),
            crop: (crop_x, y0 as usize, crop_w, crop_h),
        }
    }
}

/// Where the entries within one turn end, where those beyond start, and the
/// rows that the masks cover.
#[verifier::spinoff_prover]
#[verifier::rlimit(40)]
fn fold_entries(
    entries: &[Entry],
    rows: &[Option<(i32, i32)>],
    strip: (i32, i32, usize, usize),
    Ghost(off_x): Ghost<int>,
) -> (r: (Option<i32>, Option<i32>, i64, i64))
    requires
        rows@.len() == entries@.len(),
        entries_fit(entries@, off_x),
        frames(strip, entries@),
        strip.2 <= i32::MAX,
        forall|k: int|
            0 <= k < entries@.len() && (#[trigger] rows@[k]) is Some ==> {
                &&& i32::MIN <= entries@[k].roi.1 + (rows@[k]->0).0 <= i32::MAX
                &&& i32::MIN <= entries@[k].roi.1 + (rows@[k]->0).1 <= i32::MAX
            },
    ensures
        r.0 is None ==> forall|k: int| 0 <= k < entries@.len() ==> (#[trigger] entries@[k]).dup,
        r.0 is Some ==> is_originals_end(entries@, strip.0 as int, r.0->0 as int),
        r.1 is Some <==> wraps(entries@),
        r.1 is Some ==> is_ext_start(
            entries@,
            strip.0 as int,
            strip.2 as int,
            r.1->0 as int,
        ),
        r.2 == cover_top(entries@, rows@, entries@.len() as int),
        r.3 == cover_bottom(entries@, rows@, entries@.len() as int),
        i32::MIN <= r.2 <= i32::MAX,
        i32::MIN <= r.3 <= i32::MAX,
{
    let n: usize = entries.len();
    let ghost left = strip.0 as int;
    let mut originals_end: Option<i32> = None;
    let mut ext_start: Option<i32> = None;
    let mut top: i64 = i32::MAX as i64;
    let mut bottom: i64 = i32::MIN as i64;
    let mut i: usize = 0;
    while i < n
        invariant
            n == entries@.len(),
            rows@.len() == n,
            i <= n,
            left == strip.0,
            entries_fit(entries@, off_x),
            frames(strip, entries@),
            strip.2 <= i32::MAX,
            forall|k: int|
                0 <= k < n && (#[trigger] rows@[k]) is Some ==> {
                    &&& i32::MIN <= entries@[k].roi.1 + (rows@[k]->0).0 <= i32::MAX
                    &&& i32::MIN <= entries@[k].roi.1 + (rows@[k]->0).1 <= i32::MAX
                },
            top == cover_top(entries@, rows@, i as int),
            bottom == cover_bottom(entries@, rows@, i as int),
            i32::MIN <= top <= i32::MAX,
            i32::MIN <= bottom <= i32::MAX,
            originals_end is None ==> forall|k: int| 0 <= k < i ==> (#[trigger] entries@[k]).dup,
            originals_end is Some ==> is_originals_end(
                entries@.take(i as int),
                left,
                originals_end->0 as int,
            ),
            ext_start is None ==> forall|k: int| 0 <= k < i ==> !(#[trigger] entries@[k]).dup,
            ext_start is Some ==> wraps(entries@.take(i as int)) && is_ext_start(
                entries@.take(i as int),
                left,
                strip.2 as int,
                ext_start->0 as int,
            ),
        decreases n - i,
    {
        let e = entries[i];
        let ghost t0 = entries@.take(i as int);
        let ghost t1 = entries@.take(i + 1);
        proof {
            assert(entries@[i as int].roi.2 >= 0);
            assert forall|k: int| 0 <= k < t1.len() implies #[trigger] t1[k] == if k < i {
                t0[k]
            } else {
                e
            } by {}
            assert(t1[i as int] == e);
            assert(forall|k: int| 0 <= k < i ==> t1[k] == #[trigger] t0[k]);
            assert(forall|k: int| 0 <= k < i ==> t1[k] == #[trigger] entries@[k]);
        }
        if e.dup {
            let start: i32 = e.roi.0 - strip.0;
            let ghost old_start = ext_start;
            ext_start = match ext_start {
                None => Some(start),
                Some(s) => if start < s {
                    Some(start)
                } else {
                    Some(s)
                },
            };
            proof {
                assert(wraps(t1));
                lemma_ext_step(t0, t1, e, left, strip.2 as int, old_start, ext_start->0 as int);
                if originals_end is Some {
                    lemma_originals_skip(t0, t1, e, left, originals_end->0 as int);
                }
            }
        } else {
            let end: i32 = e.roi.0 + e.roi.2 - strip.0;
            let ghost old_end = originals_end;
            originals_end = match originals_end {
                None => Some(end),
                Some(s) => if end > s {
                    Some(end)
                } else {
                    Some(s)
                },
            };
            proof {
                lemma_originals_step(t0, t1, e, left, old_end, originals_end->0 as int);
                if ext_start is Some {
                    lemma_ext_skip(t0, t1, e, left, strip.2 as int, ext_start->0 as int);
                }
            }
        }
        if let Some((r0, r1)) = rows[i] {
            assert(rows@[i as int] is Some);
            let t: i64 = e.roi.1 as i64 + r0 as i64;
            let b: i64 = e.roi.1 as i64 + r1 as i64;
            if t < top {
                top = t;
            }
            if b > bottom {
                bottom = b;
            }
        }
        i = i + 1;
    }
    assert(entries@.take(n as int) =~= entries@);
    (originals_end, ext_start, top, bottom)
}

proof fn lemma_ext_step(
    t0: Seq<Entry>,
    t1: Seq<Entry>,
    e: Entry,
    left: int,
    width: int,
    before: Option<i32>,
    after: int,
)
    requires
        t1.len() == t0.len() + 1,
        forall|k: int| 0 <= k < t0.len() ==> t1[k] == #[trigger] t0[k],
        t1[t0.len() as int] == e,
        e.dup,
        before is None ==> forall|k: int| 0 <= k < t0.len() ==> !(#[trigger] t0[k]).dup,
        before is Some ==> wraps(t0) && is_ext_start(t0, left, width, before->0 as int),
        after == if before is Some && before->0 <= e.roi.0 - left {
            before->0 as int
        } else {
            e.roi.0 - left
        },
    ensures
        wraps(t1),
        is_ext_start(t1, left, width, after),
{
    let n = t0.len() as int;
    assert(t1[n].dup);
    assert forall|k: int| 0 <= k < t1.len() && (#[trigger] t1[k]).dup implies after <= t1[k].roi.0
        - left by {
        if k < n {
            assert(t1[k] == t0[k]);
        }
    }
    if before is Some && after == before->0 {
        let k = choose|k: int|
            0 <= k < t0.len() && (#[trigger] t0[k]).dup && before->0 == t0[k].roi.0 - left;
        assert(t1[k] == t0[k]);
    }
}

proof fn lemma_ext_skip(
    t0: Seq<Entry>,
    t1: Seq<Entry>,
    e: Entry,
    left: int,
    width: int,
    start: int,
)
    requires
        t1.len() == t0.len() + 1,
        forall|k: int| 0 <= k < t0.len() ==> t1[k] == #[trigger] t0[k],
        t1[t0.len() as int] == e,
        !e.dup,
        wraps(t0),
        is_ext_start(t0, left, width, start),
    ensures
        wraps(t1),
        is_ext_start(t1, left, width, start),
{
    let k = choose|k: int|
        0 <= k < t0.len() && (#[trigger] t0[k]).dup && start == t0[k].roi.0 - left;
    assert(t1[k] == t0[k]);
    assert forall|j: int| 0 <= j < t1.len() && (#[trigger] t1[j]).dup implies start <= t1[j].roi.0
        - left by {
        if j < t0.len() {
            assert(t1[j] == t0[j]);
        }
    }
}

proof fn lemma_originals_step(
    t0: Seq<Entry>,
    t1: Seq<Entry>,
    e: Entry,
    left: int,
    before: Option<i32>,
    after: int,
)
    requires
        t1.len() == t0.len() + 1,
        forall|k: int| 0 <= k < t0.len() ==> t1[k] == #[trigger] t0[k],
        t1[t0.len() as int] == e,
        !e.dup,
        before is None ==> forall|k: int| 0 <= k < t0.len() ==> (#[trigger] t0[k]).dup,
        before is Some ==> is_originals_end(t0, left, before->0 as int),
        after == if before is Some && before->0 >= e.right() - left {
            before->0 as int
        } else {
            e.right() - left
        },
    ensures
        is_originals_end(t1, left, after),
{
    let n = t0.len() as int;
    assert(!t1[n].dup);
    assert forall|k: int| 0 <= k < t1.len() && !(#[trigger] t1[k]).dup implies t1[k].right() - left
        <= after by {
        if k < n {
            assert(t1[k] == t0[k]);
        }
    }
    if before is Some && after == before->0 {
        let k = choose|k: int|
            0 <= k < t0.len() && !(#[trigger] t0[k]).dup && t0[k].right() - left == before->0;
        assert(t1[k] == t0[k]);
    }
}

proof fn lemma_originals_skip(t0: Seq<Entry>, t1: Seq<Entry>, e: Entry, left: int, end: int)
    requires
        t1.len() == t0.len() + 1,
        forall|k: int| 0 <= k < t0.len() ==> t1[k] == #[trigger] t0[k],
        t1[t0.len() as int] == e,
        e.dup,
        is_originals_end(t0, left, end),
    ensures
        is_originals_end(t1, left, end),
{
    let k = choose|k: int|
        0 <= k < t0.len() && !(#[trigger] t0[k]).dup && t0[k].right() - left == end;
    assert(t1[k] == t0[k]);
    assert forall|j: int| 0 <= j < t1.len() && !(#[trigger] t1[j]).dup implies t1[j].right() - left
        <= end by {
        if j < t0.len() {
            assert(t1[j] == t0[j]);
        }
    }
}

/// A canvas within the limit has sides that fit in 32 bits.
pub proof fn lemma_canvas_small(w: int)
    requires
        0 <= w,
        canvas_bytes(w) <= canvas_limit(Host::Native),
    ensures
        w <= 130_000,
{
    if w > 130_000 {
        assert(w * (w / 2) * 4 >= 130_000 * 65_000 * 4) by (nonlinear_arith)
            requires
                w > 130_000,
        ;
    }
}

/// Two to the power of `k`.
fn two_to(k: usize) -> (r: i64)
    requires
        k < 28,
    ensures
        r == pow(2, k as nat),
        1 <= r <= 0x1000_0000,
{
    let mut r: i64 = 1;
    let mut i: usize = 0;
    proof {
        assert(pow(2, 28) == 0x1000_0000) by {
            reveal_with_fuel(pow, 29);
        }
        reveal(pow);
    }
    while i < k
        invariant
            i <= k < 28,
            r == pow(2, i as nat),
            1 <= r,
            r * pow(2, (28 - i) as nat) == 0x1000_0000,
        decreases k - i,
    {
        proof {
            reveal_with_fuel(pow, 2);
            vstd::arithmetic::power::lemma_pow_positive(2, (28 - i - 1) as nat);
            assert(2 * r * pow(2, (27 - i) as nat) == 0x1000_0000) by (nonlinear_arith)
                requires
                    r * pow(2, (28 - i) as nat) == 0x1000_0000,
                    pow(2, (28 - i) as nat) == 2 * pow(2, (27 - i) as nat),
            ;
            assert(2 * r <= 0x1000_0000) by (nonlinear_arith)
                requires
                    2 * r * pow(2, (27 - i) as nat) == 0x1000_0000,
                    pow(2, (27 - i) as nat) >= 1,
                    r >= 1,
            ;
        }
        r = 2 * r;
        i = i + 1;
    }
    proof {
        vstd::arithmetic::power::lemma_pow_positive(2, (28 - k) as nat);
        assert(r <= 0x1000_0000) by (nonlinear_arith)
            requires
                r * pow(2, (28 - k) as nat) == 0x1000_0000,
                pow(2, (28 - k) as nat) >= 1,
                r >= 1,
        ;
    }
    r
}

/// The smallest rectangle around the entries.
fn strip_of(entries: &[Entry], Ghost(off_x): Ghost<int>) -> (strip: (i32, i32, usize, usize))
    requires
        entries@.len() >= 1,
        entries_fit(entries@, off_x),
    ensures
        frames(strip, entries@),
{
    let n: usize = entries.len();
    let mut corners: Vec<(i32, i32)> = Vec::new();
    let mut sizes: Vec<(i32, i32)> = Vec::new();
    let mut i: usize = 0;
    while i < n
        invariant
            n == entries@.len(),
            i <= n,
            corners@.len() == i,
            sizes@.len() == i,
            forall|k: int|
                0 <= k < i ==> (#[trigger] corners@[k]).0 == entries@[k].roi.0 && corners@[k].1
                    == entries@[k].roi.1,
            forall|k: int|
                0 <= k < i ==> (#[trigger] sizes@[k]).0 == entries@[k].roi.2 && sizes@[k].1
                    == entries@[k].roi.3,
        decreases n - i,
    {
        let e = entries[i];
        corners.push((e.roi.0, e.roi.1));
        sizes.push((e.roi.2, e.roi.3));
        i = i + 1;
    }
    proof {
        assert forall|k: int| 0 <= k < n implies {
            &&& 0 <= (#[trigger] sizes@[k]).0
            &&& 0 <= sizes@[k].1
            &&& corners@[k].0 + sizes@[k].0 <= i32::MAX
            &&& corners@[k].1 + sizes@[k].1 <= i32::MAX
        } by {
            assert(entries@[k].roi.2 >= 0);
            assert(corners@[k].0 == entries@[k].roi.0);
        }
        assert forall|k: int, j: int| 0 <= k < n && 0 <= j < n implies {
            &&& (#[trigger] corners@[k]).0 + sizes@[k].0 - (#[trigger] corners@[j]).0 <= i32::MAX
            &&& corners@[k].1 + sizes@[k].1 - corners@[j].1 <= i32::MAX
        } by {
            assert(entries@[k].right() - entries@[j].roi.0 <= i32::MAX);
            assert(sizes@[k].0 == entries@[k].roi.2);
        }
    }
    let strip = result_roi(corners.as_slice(), sizes.as_slice());
    proof {
        assert forall|k: int| 0 <= k < n implies {
            &&& strip.0 <= (#[trigger] entries@[k]).roi.0
            &&& strip.1 <= entries@[k].roi.1
            &&& entries@[k].right() <= strip.0 + strip.2
            &&& entries@[k].bottom() <= strip.1 + strip.3
        } by {
            assert(strip.0 <= corners@[k].0);
            assert(sizes@[k].0 == entries@[k].roi.2);
        }
        let a = choose|k: int| 0 <= k < n && (#[trigger] corners@[k]).0 == strip.0;
        assert(entries@[a].roi.0 == strip.0);
        let b = choose|k: int| 0 <= k < n && (#[trigger] corners@[k]).1 == strip.1;
        assert(entries@[b].roi.1 == strip.1);
        let c = choose|k: int|
            0 <= k < n && (#[trigger] corners@[k]).0 + sizes@[k].0 == strip.0 + strip.2;
        assert(sizes@[c].0 == entries@[c].roi.2);
        assert(entries@[c].right() == strip.0 + strip.2);
        let d = choose|k: int|
            0 <= k < n && (#[trigger] corners@[k]).1 + sizes@[k].1 == strip.1 + strip.3;
        assert(sizes@[d].1 == entries@[d].roi.3);
        assert(entries@[d].bottom() == strip.1 + strip.3);
    }
    strip
}

/// Rows of the canvas that are composed together.
#[derive(Debug)]
pub struct ExportBand {
    pub y0: usize,
    pub y1: usize,
    /// Ids of the images whose pixels this band needs.
    pub needed: Vec<u32>,
}

pub open spec fn ascending(s: Seq<u32>) -> bool {
    forall|a: int, b: int| 0 <= a < b < s.len() ==> #[trigger] s[a] < #[trigger] s[b]
}

/// An entry of image `id` reaches into rows `y0..y1`.
pub open spec fn image_meets(entries: Seq<Entry>, ids: Seq<u32>, id: u32, y0: int, y1: int) -> bool {
    exists|i: int|
        0 <= i < entries.len() && (#[trigger] entries[i]).meets(y0, y1)
            && ids[entries[i].src_idx as int] == id
}

/// First row of a band with its padding.
pub open spec fn padded_top(y0: int) -> int {
    max(0, y0 - BAND_PAD)
}

/// `needed` lists, in ascending order, the images that reach into the band
/// `y0..y1` or its padding.
pub open spec fn is_needed(
    needed: Seq<u32>,
    entries: Seq<Entry>,
    ids: Seq<u32>,
    y0: int,
    y1: int,
) -> bool {
    &&& ascending(needed)
    &&& forall|id: u32| #[trigger]
        needed.contains(id) <==> image_meets(entries, ids, id, padded_top(y0), y1 + BAND_PAD)
}

/// `bands` cut rows `rows.0..rows.1` from the top into bands of full height
/// and what is left.
pub open spec fn are_bands(
    bands: Seq<ExportBand>,
    rows: (usize, usize),
    entries: Seq<Entry>,
    ids: Seq<u32>,
) -> bool {
    &&& bands.len() == (rows.1 - rows.0 + BAND_H - 1) / BAND_H as int
    &&& forall|k: int|
        0 <= k < bands.len() ==> {
            &&& (#[trigger] bands[k]).y0 == rows.0 + BAND_H * k
            &&& bands[k].y1 == min(rows.0 + BAND_H * (k + 1), rows.1 as int)
            &&& is_needed(bands[k].needed@, entries, ids, bands[k].y0 as int, bands[k].y1 as int)
        }
}

/// Puts `id` into an ascending list unless it is there.
fn insert_ascending(list: &mut Vec<u32>, id: u32)
    requires
        ascending(old(list)@),
    ensures
        ascending(final(list)@),
        forall|x: u32| #[trigger]
            final(list)@.contains(x) <==> old(list)@.contains(x) || x == id,
{
    let ghost l0 = list@;
    let mut p: usize = 0;
    while p < list.len() && list[p] < id
        invariant
            list@ == l0,
            p <= list@.len(),
            forall|k: int| 0 <= k < p ==> #[trigger] list@[k] < id,
        decreases list@.len() - p,
    {
        p = p + 1;
    }
    if p < list.len() && list[p] == id {
        assert(l0[p as int] == id);
        return;
    }
    list.insert(p, id);
    proof {
        let l1 = list@;
        assert(l1[p as int] == id);
        assert forall|x: u32| #[trigger] l1.contains(x) <==> l0.contains(x) || x == id by {
            if l0.contains(x) {
                let k = l0.index_of(x);
                if k < p {
                    assert(l1[k] == x);
                } else {
                    assert(l1[k + 1] == x);
                }
            }
            if l1.contains(x) && x != id {
                let k = l1.index_of(x);
                if k < p {
                    assert(l0[k] == x);
                } else {
                    assert(l0[k - 1] == x);
                }
            }
        }
        assert forall|a: int, b: int| 0 <= a < b < l1.len() implies #[trigger] l1[a]
            < #[trigger] l1[b] by {
            let (c, d) = (
                if a < p {
                    a
                } else {
                    a - 1
                },
                if b < p {
                    b
                } else {
                    b - 1
                },
            );
            if a == p {
                assert(l0[p as int] <= l0[d]);
            } else if b != p {
                assert(l0[c] < l0[d]);
            }
        }
    }
}

/// The images that the band `y0..y1` needs.
fn needed_in(y0: usize, y1: usize, entries: &[Entry], ids: &[u32]) -> (needed: Vec<u32>)
    requires
        y0 <= y1 <= i32::MAX,
        forall|i: int|
            0 <= i < entries@.len() ==> (#[trigger] entries@[i]).src_idx < ids@.len(),
    ensures
        is_needed(needed@, entries@, ids@, y0 as int, y1 as int),
{
    let p0: i64 = if y0 > BAND_PAD {
        (y0 - BAND_PAD) as i64
    } else {
        0
    };
    let p1: i64 = (y1 + BAND_PAD) as i64;
    let mut needed: Vec<u32> = Vec::new();
    let mut i: usize = 0;
    while i < entries.len()
        invariant
            i <= entries@.len(),
            p0 == padded_top(y0 as int),
            p1 == y1 + BAND_PAD,
            forall|k: int|
                0 <= k < entries@.len() ==> (#[trigger] entries@[k]).src_idx < ids@.len(),
            ascending(needed@),
            forall|id: u32| #[trigger]
                needed@.contains(id) <==> image_meets(
                    entries@.take(i as int),
                    ids@,
                    id,
                    p0 as int,
                    p1 as int,
                ),
        decreases entries@.len() - i,
    {
        let e = entries[i];
        let ghost n0 = needed@;
        let ghost t0 = entries@.take(i as int);
        let ghost t1 = entries@.take(i + 1);
        assert(entries@[i as int].src_idx < ids@.len());
        if (e.roi.1 as i64) < p1 && e.roi.1 as i64 + e.roi.3 as i64 > p0 {
            insert_ascending(&mut needed, ids[e.src_idx]);
        }
        proof {
            assert forall|id: u32| #[trigger] needed@.contains(id) <==> image_meets(
                t1,
                ids@,
                id,
                p0 as int,
                p1 as int,
            ) by {
                if image_meets(t0, ids@, id, p0 as int, p1 as int) {
                    let k = choose|k: int|
                        0 <= k < t0.len() && (#[trigger] t0[k]).meets(p0 as int, p1 as int)
                            && ids@[t0[k].src_idx as int] == id;
                    assert(t1[k] == t0[k]);
                }
                if image_meets(t1, ids@, id, p0 as int, p1 as int) {
                    let k = choose|k: int|
                        0 <= k < t1.len() && (#[trigger] t1[k]).meets(p0 as int, p1 as int)
                            && ids@[t1[k].src_idx as int] == id;
                    if k < i {
                        assert(t0[k] == t1[k]);
                    }
                }
                if e.meets(p0 as int, p1 as int) {
                    assert(t1[i as int] == e);
                }
                assert(n0.contains(id) <==> image_meets(t0, ids@, id, p0 as int, p1 as int));
            }
        }
        i = i + 1;
    }
    assert(entries@.take(i as int) =~= entries@);
    needed
}

/// Cuts the rows of an export into bands.
pub fn plan_bands(rows: (usize, usize), entries: &[Entry], ids: &[u32]) -> (bands: Vec<ExportBand>)
    requires
        rows.0 <= rows.1 <= i32::MAX,
        forall|i: int|
            0 <= i < entries@.len() ==> (#[trigger] entries@[i]).src_idx < ids@.len(),
    ensures
        are_bands(bands@, rows, entries@, ids@),
{
    let mut bands: Vec<ExportBand> = Vec::new();
    let mut y: usize = rows.0;
    let ghost mut k: int = 0;
    while y < rows.1
        invariant
            rows.0 <= y <= rows.1 <= i32::MAX,
            forall|i: int|
                0 <= i < entries@.len() ==> (#[trigger] entries@[i]).src_idx < ids@.len(),
            k == bands@.len(),
            k >= 0,
            y == min(rows.0 + BAND_H * k, rows.1 as int),
            k > 0 ==> rows.0 + BAND_H * (k - 1) < rows.1,
            forall|j: int|
                0 <= j < bands@.len() ==> {
                    &&& (#[trigger] bands@[j]).y0 == rows.0 + BAND_H * j
                    &&& bands@[j].y1 == min(rows.0 + BAND_H * (j + 1), rows.1 as int)
                    &&& is_needed(
                        bands@[j].needed@,
                        entries@,
                        ids@,
                        bands@[j].y0 as int,
                        bands@[j].y1 as int,
                    )
                },
        decreases rows.1 - y,
    {
        let y1: usize = if y + BAND_H < rows.1 {
            y + BAND_H
        } else {
            rows.1
        };
        let needed = needed_in(y, y1, entries, ids);
        bands.push(ExportBand { y0: y, y1, needed });
        y = y1;
        proof {
            k = k + 1;
        }
    }
    proof {
        assert(bands@.len() == (rows.1 - rows.0 + BAND_H - 1) / BAND_H as int);
    }
    bands
}

/// Each row of the export lies in exactly one band.
pub proof fn lemma_bands_partition(
    bands: Seq<ExportBand>,
    rows: (usize, usize),
    entries: Seq<Entry>,
    ids: Seq<u32>,
    y: int,
)
    requires
        are_bands(bands, rows, entries, ids),
        rows.0 <= y < rows.1,
    ensures
        exists|k: int| 0 <= k < bands.len() && (#[trigger] bands[k]).y0 <= y < bands[k].y1,
        forall|j: int, k: int|
            0 <= j < bands.len() && 0 <= k < bands.len() && (#[trigger] bands[j]).y0 <= y
                < bands[j].y1 && (#[trigger] bands[k]).y0 <= y < bands[k].y1 ==> j == k,
{
    let k = (y - rows.0) / BAND_H as int;
    assert(bands[k].y0 <= y < bands[k].y1);
}

/// The rows of the crop: as many as two to the power of the bands above the
/// first covered row and below the last, as far as there is strip and canvas.
/// Its columns, where nothing goes round: from the first image's left end to
/// the last one's right end.
pub proof fn lemma_crop_margin(
    l: ExportLayout,
    canvas_w: int,
    off_x: int,
    entries: Seq<Entry>,
    rows: Seq<Option<(i32, i32)>>,
    top: int,
    bottom: int,
)
    requires
        l.is_for(canvas_w, off_x, entries, rows),
        rows.len() == entries.len(),
        0 <= top < entries.len(),
        rows[top] is Some,
        0 <= bottom < entries.len(),
        rows[bottom] is Some,
        forall|i: int|
            0 <= i < entries.len() && (#[trigger] rows[i]) is Some ==> entries[top].roi.1
                + (rows[top]->0).0 <= entries[i].roi.1 + (rows[i]->0).0 <= i32::MAX,
        forall|i: int|
            0 <= i < entries.len() && (#[trigger] rows[i]) is Some ==> entries[bottom].roi.1
                + (rows[bottom]->0).1 >= entries[i].roi.1 + (rows[i]->0).1 >= i32::MIN,
    ensures
        ({
            let margin = pow(2, l.mb_bands as nat);
            let first = entries[top].roi.1 + (rows[top]->0).0 - margin;
            let end = entries[bottom].roi.1 + (rows[bottom]->0).1 + margin;
            let h = l.canvas_h as int;
            &&& l.strip.1 <= first && 0 <= first <= h ==> l.rows.0 == first
            &&& first < l.strip.1 && 0 <= l.strip.1 <= h ==> l.rows.0 == l.strip.1
            &&& end <= l.strip.1 + l.strip.3 && l.rows.0 <= end <= h ==> l.rows.1 == end
            &&& end > l.strip.1 + l.strip.3 && l.rows.0 <= l.strip.1 + l.strip.3 <= h ==> l.rows.1
                == l.strip.1 + l.strip.3
        }),
        (forall|i: int| 0 <= i < entries.len() ==> !(#[trigger] entries[i]).dup) && 0
            <= l.originals_end && (l.strip.0 - off_x) % canvas_w + l.originals_end <= canvas_w ==> {
            &&& l.crop.0 == (l.strip.0 - off_x) % canvas_w
            &&& l.crop.2 == l.strip.2
        },
{
    lemma_cover_exact(entries, rows, entries.len() as int, top, bottom);
    let w = canvas_w;
    if (forall|i: int| 0 <= i < entries.len() ==> !(#[trigger] entries[i]).dup) && 0
        <= l.originals_end && (l.strip.0 - off_x) % w + l.originals_end <= w {
        assert(!wraps(entries));
        let i = choose|i: int| 0 <= i < entries.len() && (#[trigger] entries[i]).right() == l.strip.0
            + l.strip.2;
        let j = choose|j: int| 0 <= j < entries.len() && !(#[trigger] entries[j]).dup
            && entries[j].right() - l.strip.0 == l.originals_end;
        assert(entries[i].right() - l.strip.0 <= l.originals_end);
        assert(entries[j].right() <= l.strip.0 + l.strip.2);
        if w > 0 {
            assert(0 <= (l.strip.0 - off_x) % w);
        }
    }
}

proof fn lemma_cover_exact(
    entries: Seq<Entry>,
    rows: Seq<Option<(i32, i32)>>,
    k: int,
    top: int,
    bottom: int,
)
    requires
        0 <= k <= entries.len(),
        rows.len() == entries.len(),
        0 <= top < entries.len(),
        rows[top] is Some,
        0 <= bottom < entries.len(),
        rows[bottom] is Some,
        forall|i: int|
            0 <= i < entries.len() && (#[trigger] rows[i]) is Some ==> entries[top].roi.1
                + (rows[top]->0).0 <= entries[i].roi.1 + (rows[i]->0).0 <= i32::MAX,
        forall|i: int|
            0 <= i < entries.len() && (#[trigger] rows[i]) is Some ==> entries[bottom].roi.1
                + (rows[bottom]->0).1 >= entries[i].roi.1 + (rows[i]->0).1 >= i32::MIN,
    ensures
        cover_top(entries, rows, k) >= entries[top].roi.1 + (rows[top]->0).0,
        cover_bottom(entries, rows, k) <= entries[bottom].roi.1 + (rows[bottom]->0).1,
        top < k ==> cover_top(entries, rows, k) == entries[top].roi.1 + (rows[top]->0).0,
        bottom < k ==> cover_bottom(entries, rows, k) == entries[bottom].roi.1 + (rows[bottom]->0).1,
    decreases k,
{
    assert(rows[top] is Some && rows[bottom] is Some);
    if k > 0 {
        lemma_cover_exact(entries, rows, k - 1, top, bottom);
        assert(rows[k - 1] is Some ==> entries[top].roi.1 + (rows[top]->0).0 <= entries[k - 1].roi.1
            + (rows[k - 1]->0).0);
    }
}

} // verus!
