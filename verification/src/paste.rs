//! Pasting a blended strip onto the round canvas.

use crate::imgproc::lemma_index;
use crate::imgproc::lemma_index_split;
use crate::imgproc::GrayImage;
use crate::layout::wrap_column;
use crate::layout::ExportLayout;
use vstd::math::max;
use vstd::math::min;
use vstd::prelude::*;

verus! {

/// Number of columns from `x0` to `x1` that lie on a strip `width` wide.
pub open spec fn run_len(x0: int, x1: int, width: int) -> int {
    max(0, min(max(0, x1), width) - max(0, x0))
}

/// Strip columns in the order in which they are pasted: first the part beyond
/// the wrap without its trimmed end, then the part within one turn.
pub open spec fn paste_column(l: ExportLayout, p: int) -> int {
    let first = ext_run(l);
    if p < first {
        l.ext_start + p
    } else {
        p - first
    }
}

/// Columns pasted from beyond the wrap.
pub open spec fn ext_run(l: ExportLayout) -> int {
    run_len(l.ext_start as int, l.strip.2 - l.ext_trim, l.strip.2 as int)
}

/// Columns pasted in all.
pub open spec fn paste_count(l: ExportLayout) -> int {
    ext_run(l) + run_len(0, l.originals_end as int, l.strip.2 as int)
}

/// Canvas column of strip column `x`.
pub open spec fn canvas_column(l: ExportLayout, x: int) -> int {
    (l.strip.0 - l.off_x + x) % (l.canvas_w as int)
}

/// The strip column that fills canvas column `c`: the first of the first `k`
/// to be pasted that is covered in row `sy` and falls there.
pub open spec fn first_writer(
    l: ExportLayout,
    coverage: &GrayImage,
    sy: int,
    c: int,
    k: int,
) -> Option<int>
    decreases k,
{
    if k <= 0 {
        None
    } else {
        let before = first_writer(l, coverage, sy, c, k - 1);
        let x = paste_column(l, k - 1);
        if before is None && coverage.px(x, sy) != 0 && canvas_column(l, x) == c {
            Some(x)
        } else {
            before
        }
    }
}

/// The strip column that fills canvas pixel `q` once rows `y0..yy` are pasted,
/// and the first `k` columns of row `yy`. The strip starts at row `py0`.
pub open spec fn writer_until(
    l: ExportLayout,
    coverage: &GrayImage,
    py0: int,
    y0: int,
    yy: int,
    k: int,
    q: int,
) -> Option<int> {
    let y = q / (l.canvas_w as int);
    let c = q % (l.canvas_w as int);
    if y0 <= y < yy {
        first_writer(l, coverage, y - py0, c, paste_count(l))
    } else if y == yy {
        first_writer(l, coverage, y - py0, c, k)
    } else {
        None
    }
}

/// Canvas pixel `q` has been filled.
pub open spec fn fills(covered: Seq<u8>, q: int, writer: Option<int>) -> bool {
    covered[q] == 0 && writer is Some
}

/// Byte `b` of the strip's pixel that fills the canvas pixel of `b`.
pub open spec fn strip_byte(
    l: ExportLayout,
    blended: Seq<u8>,
    py0: int,
    b: int,
    writer: Option<int>,
) -> u8 {
    let y = (b / 3) / (l.canvas_w as int);
    blended[((y - py0) * l.strip.2 + writer->0) * 3 + b % 3]
}

/// What pasting rows `y0..yy`, and `k` columns of row `yy`, makes of a canvas.
pub open spec fn pasted(
    l: ExportLayout,
    coverage: &GrayImage,
    blended: Seq<u8>,
    py0: int,
    y0: int,
    yy: int,
    k: int,
    canvas0: Seq<u8>,
    covered0: Seq<u8>,
    canvas: Seq<u8>,
    covered: Seq<u8>,
) -> bool {
    &&& canvas.len() == canvas0.len()
    &&& covered.len() == covered0.len()
    &&& forall|q: int|
        0 <= q < covered.len() ==> #[trigger] covered[q] == if fills(
            covered0,
            q,
            writer_until(l, coverage, py0, y0, yy, k, q),
        ) {
            1u8
        } else {
            covered0[q]
        }
    &&& forall|b: int|
        0 <= b < canvas.len() ==> #[trigger] canvas[b] == if fills(
            covered0,
            b / 3,
            writer_until(l, coverage, py0, y0, yy, k, b / 3),
        ) {
            strip_byte(
                l,
                blended,
                py0,
                b,
                writer_until(l, coverage, py0, y0, yy, k, b / 3),
            )
        } else {
            canvas0[b]
        }
}

/// The sizes that pasting relies on.
pub open spec fn layout_ok(l: ExportLayout) -> bool {
    &&& 2 <= l.canvas_w <= 130_000
    &&& l.canvas_w == 2 * l.canvas_h
    &&& 0 <= l.ext_start <= l.strip.2 <= i32::MAX
    &&& 0 <= l.ext_trim <= l.strip.2
}

/// Pastes rows `y0..y1` of a blended strip that starts at row `py0`. Pixels
/// that are already covered stay; each other pixel takes the first covered
/// strip pixel that falls on it.
#[verifier::spinoff_prover]
#[verifier::rlimit(60)]
pub fn paste_rows(
    l: &ExportLayout,
    coverage: &GrayImage,
    blended: &[u8],
    py0: usize,
    y0: usize,
    y1: usize,
    canvas: &mut Vec<u8>,
    covered: &mut Vec<u8>,
)
    requires
        layout_ok(*l),
        coverage.wf(),
        coverage.width == l.strip.2,
        blended@.len() == coverage.width * coverage.height * 3,
        py0 <= y0 <= y1 <= l.canvas_h,
        y1 - py0 <= coverage.height,
        old(covered)@.len() == l.canvas_w * l.canvas_h,
        old(canvas)@.len() == l.canvas_w * l.canvas_h * 3,
    ensures
        pasted(
            *l,
            coverage,
            blended@,
            py0 as int,
            y0 as int,
            y1 as int,
            0,
            old(canvas)@,
            old(covered)@,
            final(canvas)@,
            final(covered)@,
        ),
{
    let w: usize = l.canvas_w;
    let bw: usize = l.strip.2;
    let ext_end: usize = (l.strip.2 as i32 - l.ext_trim) as usize;
    let ext_from: usize = l.ext_start as usize;
    let ext: usize = if ext_end > ext_from {
        ext_end - ext_from
    } else {
        0
    };
    let originals: usize = if l.originals_end < 0 {
        0
    } else if l.originals_end as usize > bw {
        bw
    } else {
        l.originals_end as usize
    };
    let count: u64 = ext as u64 + originals as u64;
    let ghost canvas0 = canvas@;
    let ghost covered0 = covered@;
    let mut y: usize = y0;
    while y < y1
        invariant
            layout_ok(*l),
            coverage.wf(),
            coverage.width == l.strip.2,
            blended@.len() == coverage.width * coverage.height * 3,
            py0 <= y0 <= y <= y1 <= l.canvas_h,
            y1 - py0 <= coverage.height,
            covered0.len() == l.canvas_w * l.canvas_h,
            canvas0.len() == l.canvas_w * l.canvas_h * 3,
            w == l.canvas_w,
            bw == l.strip.2,
            ext_from == l.ext_start,
            ext == ext_run(*l),
            ext <= bw,
            originals <= bw,
            count == paste_count(*l),
            count == ext + originals,
            pasted(
                *l,
                coverage,
                blended@,
                py0 as int,
                y0 as int,
                y as int,
                0,
                canvas0,
                covered0,
                canvas@,
                covered@,
            ),
        decreases y1 - y,
    {
        let mut p: u64 = 0;
        while p < count
            invariant
                layout_ok(*l),
                coverage.wf(),
                coverage.width == l.strip.2,
                blended@.len() == coverage.width * coverage.height * 3,
                py0 <= y0 <= y < y1 <= l.canvas_h,
                y1 - py0 <= coverage.height,
                covered0.len() == l.canvas_w * l.canvas_h,
                canvas0.len() == l.canvas_w * l.canvas_h * 3,
                w == l.canvas_w,
                bw == l.strip.2,
                ext_from == l.ext_start,
                ext == ext_run(*l),
                ext <= bw,
                originals <= bw,
                count == paste_count(*l),
                count == ext + originals,
                p <= count,
                pasted(
                    *l,
                    coverage,
                    blended@,
                    py0 as int,
                    y0 as int,
                    y as int,
                    p as int,
                    canvas0,
                    covered0,
                    canvas@,
                    covered@,
                ),
            decreases count - p,
        {
            let x: usize = if p < ext as u64 {
                ext_from + p as usize
            } else {
                (p - ext as u64) as usize
            };
            let ghost canvas1 = canvas@;
            let ghost covered1 = covered@;
            assert(x == paste_column(*l, p as int));
            let ghost mut done: bool = false;
            if coverage.at(x, y - py0) != 0 {
                let c: usize = wrap_column(l.strip.0 as i64 - l.off_x as i64 + x as i64, w);
                proof {
                    lemma_index(c as int, y as int, w as int, l.canvas_h as int);
                    assert(covered@.len() == covered.len());
                    assert(canvas@.len() == canvas.len());
                    lemma_index(x as int, y - py0, bw as int, coverage.height as int);
                    assert(blended@.len() == blended.len());
                    assert(w * l.canvas_h == l.canvas_w * l.canvas_h);
                }
                let ci: usize = y * w + c;
                if covered[ci] == 0 {
                    let src: usize = (y - py0) * bw + x;
                    canvas.set(ci * 3, blended[src * 3]);
                    canvas.set(ci * 3 + 1, blended[src * 3 + 1]);
                    canvas.set(ci * 3 + 2, blended[src * 3 + 2]);
                    covered.set(ci, 1);
                    proof {
                        done = true;
                        lemma_index_split(c as int, y as int, w as int);
                        assert forall|b: int| 0 <= b < canvas@.len() implies #[trigger] canvas@[b]
                            == if b / 3 == ci {
                            blended@[src * 3 + b % 3]
                        } else {
                            canvas1[b]
                        } by {
                            assert(b == 3 * (b / 3) + b % 3);
                        }
                    }
                } else {
                    proof {
                        lemma_index_split(c as int, y as int, w as int);
                    }
                }
            }
            proof {
                lemma_index(0, y as int, w as int, l.canvas_h as int);
                lemma_paste_step(
                    *l,
                    coverage,
                    blended@,
                    py0 as int,
                    y0 as int,
                    y as int,
                    p as int,
                    canvas0,
                    covered0,
                    canvas1,
                    covered1,
                    canvas@,
                    covered@,
                    x as int,
                );
            }
            p = p + 1;
        }
        proof {
            lemma_row_done(
                *l,
                coverage,
                blended@,
                py0 as int,
                y0 as int,
                y as int,
                canvas0,
                covered0,
                canvas@,
                covered@,
            );
        }
        y = y + 1;
    }
}

/// A row whose columns have all been pasted is done.
proof fn lemma_row_done(
    l: ExportLayout,
    coverage: &GrayImage,
    blended: Seq<u8>,
    py0: int,
    y0: int,
    y: int,
    canvas0: Seq<u8>,
    covered0: Seq<u8>,
    canvas: Seq<u8>,
    covered: Seq<u8>,
)
    requires
        y0 <= y,
        pasted(
            l,
            coverage,
            blended,
            py0,
            y0,
            y,
            paste_count(l),
            canvas0,
            covered0,
            canvas,
            covered,
        ),
    ensures
        pasted(l, coverage, blended, py0, y0, y + 1, 0, canvas0, covered0, canvas, covered),
{
    assert forall|q: int| #[trigger] writer_until(l, coverage, py0, y0, y + 1, 0, q) == writer_until(
        l,
        coverage,
        py0,
        y0,
        y,
        paste_count(l),
        q,
    ) by {}
}

/// One more strip column pasted.
#[verifier::spinoff_prover]
proof fn lemma_paste_step(
    l: ExportLayout,
    coverage: &GrayImage,
    blended: Seq<u8>,
    py0: int,
    y0: int,
    y: int,
    p: int,
    canvas0: Seq<u8>,
    covered0: Seq<u8>,
    canvas1: Seq<u8>,
    covered1: Seq<u8>,
    canvas2: Seq<u8>,
    covered2: Seq<u8>,
    x: int,
)
    requires
        l.canvas_w >= 2,
        y0 <= y,
        0 <= p,
        x == paste_column(l, p),
        canvas0.len() == 3 * covered0.len(),
        0 <= y,
        0 <= y * l.canvas_w,
        y * l.canvas_w + l.canvas_w <= covered0.len(),
        pasted(l, coverage, blended, py0, y0, y, p, canvas0, covered0, canvas1, covered1),
        ({
            let ci = y * l.canvas_w + canvas_column(l, x);
            if coverage.px(x, y - py0) != 0 && covered1[ci] == 0 {
                &&& covered2 == covered1.update(ci, 1)
                &&& canvas2.len() == canvas1.len()
                &&& forall|b: int|
                    0 <= b < canvas2.len() ==> #[trigger] canvas2[b] == if b / 3 == ci {
                        blended[((y - py0) * l.strip.2 + x) * 3 + b % 3]
                    } else {
                        canvas1[b]
                    }
            } else {
                covered2 == covered1 && canvas2 == canvas1
            }
        }),
    ensures
        pasted(l, coverage, blended, py0, y0, y, p + 1, canvas0, covered0, canvas2, covered2),
{
    let w = l.canvas_w as int;
    let c = canvas_column(l, x);
    let ci = y * w + c;
    assert(0 <= c < w);
    lemma_index_split(c, y, w);
    assert forall|q: int| q != ci implies #[trigger] writer_until(l, coverage, py0, y0, y, p + 1, q)
        == writer_until(l, coverage, py0, y0, y, p, q) by {
        if q / w == y && q % w == c {
            vstd::arithmetic::div_mod::lemma_fundamental_div_mod(q, w);
            assert(w * y == y * w) by (nonlinear_arith);
        }
    }
    let before = writer_until(l, coverage, py0, y0, y, p, ci);
    let after = writer_until(l, coverage, py0, y0, y, p + 1, ci);
    assert(covered1[ci] == if fills(covered0, ci, before) {
        1u8
    } else {
        covered0[ci]
    });
    if coverage.px(x, y - py0) != 0 && covered1[ci] == 0 {
        assert(before is None && after == Some(x));
        assert forall|b: int| 0 <= b < canvas2.len() && b / 3 == ci implies #[trigger] canvas2[b]
            == strip_byte(l, blended, py0, b, after) by {}
    } else if coverage.px(x, y - py0) != 0 {
        assert(covered0[ci] != 0 || before is Some);
    } else {
        assert(after == before);
    }
    assert forall|q: int| 0 <= q < covered2.len() implies #[trigger] covered2[q] == if fills(
        covered0,
        q,
        writer_until(l, coverage, py0, y0, y, p + 1, q),
    ) {
        1u8
    } else {
        covered0[q]
    } by {
        assert(covered1[q] == if fills(
            covered0,
            q,
            writer_until(l, coverage, py0, y0, y, p, q),
        ) {
            1u8
        } else {
            covered0[q]
        });
    }
    assert forall|b: int| 0 <= b < canvas2.len() implies #[trigger] canvas2[b] == if fills(
        covered0,
        b / 3,
        writer_until(l, coverage, py0, y0, y, p + 1, b / 3),
    ) {
        strip_byte(
            l,
            blended,
            py0,
            b,
            writer_until(l, coverage, py0, y0, y, p + 1, b / 3),
        )
    } else {
        canvas0[b]
    } by {
        assert(canvas1[b] == if fills(
            covered0,
            b / 3,
            writer_until(l, coverage, py0, y0, y, p, b / 3),
        ) {
            strip_byte(
                l,
                blended,
                py0,
                b,
                writer_until(l, coverage, py0, y0, y, p, b / 3),
            )
        } else {
            canvas0[b]
        });
        assert(0 <= b / 3 < covered1.len());
    }
}

/// Pasting a band leaves every other row alone, and every pixel that was
/// covered; what is covered stays covered.
pub proof fn lemma_paste_local(
    l: ExportLayout,
    coverage: &GrayImage,
    blended: Seq<u8>,
    py0: int,
    y0: int,
    y1: int,
    canvas0: Seq<u8>,
    covered0: Seq<u8>,
    canvas: Seq<u8>,
    covered: Seq<u8>,
    b: int,
)
    requires
        pasted(l, coverage, blended, py0, y0, y1, 0, canvas0, covered0, canvas, covered),
        canvas.len() == 3 * covered.len(),
        0 <= b < canvas.len(),
    ensures
        !(y0 <= (b / 3) / (l.canvas_w as int) < y1) || covered0[b / 3] != 0 ==> canvas[b]
            == canvas0[b] && covered[b / 3] == covered0[b / 3],
        covered0[b / 3] != 0 ==> covered[b / 3] != 0,
{
    assert(0 <= b / 3 < covered.len());
}

} // verus!
