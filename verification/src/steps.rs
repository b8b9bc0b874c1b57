//! What the steps of a session and of a search do, one after another.

use crate::bundle::LevMarq;
use crate::bundle::LmRequest;
use crate::cp::Spot;
use crate::cp::grid_cell;
use crate::cp::is_candidate;
use crate::cp::pick_spread;
use crate::engine::Engine;
use crate::engine::EngineError;
use crate::estimation::DisjointSets;
use crate::estimation::MatchGraph;
use crate::export::ExportError;
use crate::export::Exporter;
use crate::export::jpeg_bytes;
use crate::export::pair_sources;
use crate::imgproc::GrayImage;
use crate::layout::Entry;
use crate::layout::ExportLayout;
use crate::layout::even_width;
use crate::layout::wrap_column;
use crate::matcher::PairMatches;
use crate::matcher::Ratio;
use crate::matcher::RawMatch;
use crate::matcher::count_set;
use crate::matcher::match_confidence;
use crate::optimizer::NextTrial;
use crate::optimizer::OptimizeError;
use crate::optimizer::OptimizeFlags;
use crate::optimizer::ParamLayout;
use crate::optimizer::Rounds;
use crate::optimizer::Trial;
use crate::optimizer::join_images;
use crate::optimizer::layout_params;
use crate::pipeline::all_pairs;
use crate::pipeline::keep_images;
use crate::progress::Guard;
use crate::progress::Hook;
use crate::ransac::Approach;
use crate::ransac::Sample;
use crate::ransac::Search;
use crate::ransac::approach;
use crate::warp::PixelImage;
use vstd::prelude::*;

verus! {

/// An image that is taken in comes last, under its id and with its colours;
/// the others stay, and the alignment is void.
pub proof fn law_image_added<A, E, T>(
    e: &mut Engine<A, E, T>,
    id: u32,
    rgba: &[u8],
    w: u32,
    h: u32,
    prior: Option<Vec<T>>,
    r: Result<(), EngineError>,
    i: int,
    c: int,
)
    requires
        call_ensures(Engine::<A, E, T>::add_image, (e, id, rgba, w, h, prior), r),
        0 <= i < rgba@.len() / 4,
        0 <= c < 3,
    ensures
        r is Ok <==> {
            &&& rgba@.len() == w * h * 4
            &&& forall|k: int| 0 <= k < old(e).sources@.len() ==> (#[trigger] old(e).sources@[k]).id != id
            &&& prior matches Some(p) ==> p@.len() == 3
        },
        r is Ok ==> {
            let n = old(e).sources@.len() as int;
            &&& final(e).sources@.len() == n + 1
            &&& forall|k: int| 0 <= k < n ==> #[trigger] final(e).sources@[k] == old(e).sources@[k]
            &&& final(e).sources@[n].id == id
            &&& final(e).sources@[n].rgb.data@[3 * i + c] == rgba@[4 * i + c]
            &&& final(e).alignment is None
            &&& final(e).user_masks == old(e).user_masks
        },
        r is Err ==> *final(e) == *old(e),
{
    let ids = crate::engine::ids_of(old(e).sources@);
    if ids.contains(id) {
        let k = ids.index_of(id);
        assert(old(e).sources@[k].id == id);
    } else {
        assert forall|k: int| 0 <= k < old(e).sources@.len() implies (#[trigger] old(
            e,
        ).sources@[k]).id != id by {
            assert(ids[k] == old(e).sources@[k].id);
        }
    }
    if r is Ok {
        let (s0, s1) = (old(e).sources@, final(e).sources@);
        let n = s0.len() as int;
        crate::engine::lemma_without_alpha(rgba@, i, c);
        assert forall|k: int| 0 <= k < n implies #[trigger] s1[k] == s0[k] by {
            assert(s1.take(n)[k] == s1[k]);
        }
    }
}

/// An image that is taken out is gone, with its mask, and the others keep
/// theirs; the alignment and the export are void.
pub proof fn law_image_removed<A, E, T>(e: &mut Engine<A, E, T>, id: u32, other: u32)
    requires
        call_ensures(Engine::<A, E, T>::remove_image, (e, id), ()),
    ensures
        forall|k: int|
            0 <= k < old(e).sources@.len() ==> (final(e).sources@.contains(
                #[trigger] old(e).sources@[k],
            ) <==> old(e).sources@[k].id != id),
        forall|k: int|
            0 <= k < final(e).sources@.len() ==> (#[trigger] final(e).sources@[k]).id != id,
        !final(e).user_masks@.contains_key(id),
        other != id ==> (final(e).user_masks@.contains_key(other) <==> old(
            e,
        ).user_masks@.contains_key(other)),
        other != id && old(e).user_masks@.contains_key(other) ==> final(e).user_masks@[other]
            == old(e).user_masks@[other],
        final(e).alignment is None,
        final(e).exporter is None,
{
    let s = old(e).sources@;
    lemma_others_are(s, id, s.len() as int);
    assert forall|k: int| 0 <= k < s.len() implies (final(e).sources@.contains(#[trigger] s[k])
        <==> s[k].id != id) by {}
}

proof fn lemma_others_are<T>(s: Seq<crate::engine::Source<T>>, id: u32, k: int)
    requires
        0 <= k <= s.len(),
    ensures
        ({
            let o = crate::engine::others_until(s, id, k);
            &&& forall|j: int| 0 <= j < o.len() ==> (#[trigger] o[j]).id != id
            &&& forall|j: int| 0 <= j < k && (#[trigger] s[j]).id != id ==> o.contains(s[j])
        }),
    decreases k,
{
    if k > 0 {
        lemma_others_are(s, id, k - 1);
        let before = crate::engine::others_until(s, id, k - 1);
        let o = crate::engine::others_until(s, id, k);
        assert forall|j: int| 0 <= j < k && (#[trigger] s[j]).id != id implies o.contains(s[j]) by {
            if j < k - 1 {
                let z = before.index_of(s[j]);
                assert(o[z] == s[j]);
            } else {
                assert(o[before.len() as int] == s[j]);
            }
        }
    }
}

/// A mask that is set is what the image has from then on; an empty one leaves
/// it with none. Other images keep theirs, the alignment stays, and an export
/// is void.
pub proof fn law_mask_set<A, E, T>(
    e: &mut Engine<A, E, T>,
    id: u32,
    mask: &[u8],
    w: u32,
    h: u32,
    r: Result<(), EngineError>,
    other: u32,
    after: &Engine<A, E, T>,
    seen: Option<&GrayImage>,
)
    requires
        call_ensures(Engine::<A, E, T>::set_mask, (e, id, mask, w, h), r),
        r is Ok,
        *after == *final(e),
        call_ensures(Engine::<A, E, T>::mask_of, (after, other), seen),
    ensures
        other == id ==> (seen is None <==> forall|i: int|
            0 <= i < mask@.len() ==> #[trigger] mask@[i] == 0),
        other == id && seen is Some ==> seen->0.data@ == mask@ && seen->0.width == w
            && seen->0.height == h,
        other != id ==> (seen is Some <==> old(e).user_masks@.contains_key(other)),
        other != id && seen is Some ==> *(seen->0) == old(e).user_masks@[other],
        final(e).alignment == old(e).alignment,
        final(e).exporter is None,
        final(e).sources == old(e).sources,
{
}

/// A new alignment puts an end to the export that was made for the last one;
/// one that is only noted does not.
pub proof fn law_realigned<A, E, T>(e: &mut Engine<A, E, T>, f: &mut Engine<A, E, T>, a: A)
    requires
        call_ensures(Engine::<A, E, T>::realign, (e, a), ()),
        call_ensures(Engine::<A, E, T>::set_alignment, (f, a), ()),
    ensures
        final(e).alignment == Some(a),
        final(e).exporter is None,
        final(e).sources == old(e).sources,
        final(e).user_masks == old(e).user_masks,
        final(f).alignment == Some(a),
        final(f).exporter == old(f).exporter,
        final(f).sources == old(f).sources,
        final(f).user_masks == old(f).user_masks,
{
}

/// An export that was begun is handed out once.
pub proof fn law_export_taken<A, E, T>(
    e: &mut Engine<A, E, T>,
    f: &mut Engine<A, E, T>,
    x: E,
    r: Result<E, EngineError>,
)
    requires
        call_ensures(Engine::<A, E, T>::set_exporter, (e, x), ()),
        *old(f) == *final(e),
        call_ensures(Engine::<A, E, T>::take_exporter, (f,), r),
    ensures
        r == Ok::<E, EngineError>(x),
        final(f).exporter is None,
        final(f).alignment == old(e).alignment,
        final(f).sources == old(e).sources,
{
}

/// Whoever reported before does so again when a report's scope ends.
pub proof fn law_report_restored<R>(h: &mut Hook<R>, g: Guard<R>, k: &mut Hook<R>, f: R)
    requires
        call_ensures(Hook::<R>::scoped, (h, f), g),
        call_ensures(Hook::<R>::restore, (k, g), ()),
    ensures
        final(h)@ == Some(f),
        final(k)@ == old(h)@,
{
}

/// Four pairs of points give a model at once, fewer none, and more are
/// sampled.
pub proof fn law_approach(n: usize, m: usize, a: Approach)
    requires
        call_ensures(approach, (n, m), a),
    ensures
        n == m && n > 4 <==> a is Sampling,
        n == m && n == 4 <==> a is Direct,
        n != m || n < 4 <==> a is Hopeless,
{
}

/// A sample takes each index once, up to four of them, in the order in which
/// they come.
pub proof fn law_sampled(s: &mut Sample, i: usize, t: &Sample, full: bool, k: int)
    requires
        old(s).wf(),
        old(s)@.len() < 4,
        call_ensures(Sample::offer, (s, i), ()),
        *t == *final(s),
        call_ensures(Sample::is_complete, (t,), full),
    ensures
        final(s)@.contains(i),
        0 <= k < old(s)@.len() ==> final(s)@[k] == old(s)@[k],
        final(s)@.len() == old(s)@.len() + 1 <==> !old(s)@.contains(i),
        full <==> final(s)@.len() == 4,
        final(s)@.no_duplicates(),
{
    if !old(s)@.contains(i) {
        assert(final(s)@[old(s)@.len() as int] == i);
    }
}

/// A search begins with 2000 rounds to go and nothing found. A model is better
/// if more points agree with it than with the best, and at least four; what
/// was accepted is then no better than itself.
pub proof fn law_search(
    s: Search,
    first: Search,
    good: usize,
    b: bool,
    t: &mut Search,
    n: i32,
    again: bool,
    u: Search,
    found: bool,
)
    requires
        call_ensures(Search::new, (), first),
        call_ensures(Search::improves, (&s, good), b),
        b,
        *old(t) == s,
        call_ensures(Search::accept, (t, good, n), ()),
        u == *final(t),
        call_ensures(Search::improves, (&u, good), again),
        call_ensures(Search::found, (&u,), found),
    ensures
        first.iter == 0 && first.niters == 2000 && first.best == 0,
        good > s.best && good >= 4,
        !again,
        found,
        u.iter == s.iter,
        u.niters == n,
{
}

/// A search goes on for as many rounds as it was given.
pub proof fn law_search_ends(s: &mut Search, before: bool, after: bool, b: Search, a: Search)
    requires
        b == *old(s),
        a == *final(s),
        call_ensures(Search::advance, (s,), ()),
        b.iter < b.niters,
        call_ensures(Search::goes_on, (&b,), before),
        call_ensures(Search::goes_on, (&a,), after),
    ensures
        before,
        after <==> b.niters - b.iter >= 2,
        a.niters == b.niters,
        a.best == b.best,
{
}

/// Of at most twelve trials in a round the first that is better ends it. There
/// are at most 60 rounds, and the last is one that gained little.
pub proof fn law_rounds(r: &mut Rounds, t: Trial, n: NextTrial)
    requires
        old(r).wf(),
        call_ensures(Rounds::trial, (r, t), n),
    ensures
        n is NextRound <==> (t matches Trial::Better { little } && !little) && old(r).round < 60,
        n is Retry <==> !(t is Better) && old(r).trials < 11,
        n is NextRound ==> final(r).round == old(r).round + 1 && final(r).trials == 0,
        n is Retry ==> final(r).round == old(r).round && final(r).trials == old(r).trials + 1,
        n is Stop ==> *final(r) == *old(r),
{
}

/// The parameters are the three of each image that is not held fixed, then one
/// for the focal length, three for the distortion and two for the shift, as
/// far as these are wanted, one behind the other.
pub proof fn law_params(n: usize, anchor: usize, flags: &OptimizeFlags, l: ParamLayout, i: int, j: int)
    requires
        call_ensures(layout_params, (n, anchor, flags), l),
        anchor < n,
        0 <= i < j < n,
    ensures
        l.rotations@[i] is None <==> i == anchor,
        l.rotations@[i] is Some ==> (l.rotations@[i]->0) % 3 == 0 && (l.rotations@[i]->0) + 3 <= 3 * (
        n - 1),
        l.rotations@[i] is Some && l.rotations@[j] is Some ==> (l.rotations@[i]->0) + 3 <= (
        l.rotations@[j]->0),
        l.focal is Some <==> flags.focal,
        l.focal is Some ==> l.focal->0 == 3 * (n - 1),
        l.distortion is Some <==> flags.distortion,
        l.distortion is Some && l.focal is Some ==> l.distortion->0 == l.focal->0 + 1,
        l.distortion is Some && l.focal is None ==> l.distortion->0 == 3 * (n - 1),
        l.shift is Some <==> flags.shift,
        l.shift is Some ==> l.shift->0 + 2 == l.total,
        l.shift is None && l.distortion is Some ==> l.distortion->0 + 3 == l.total,
        l.shift is Some && l.distortion is Some ==> l.shift->0 == l.distortion->0 + 3,
        l.shift is None && l.distortion is None && l.focal is Some ==> l.focal->0 + 1 == l.total,
        l.shift is Some && l.distortion is None && l.focal is Some ==> l.shift->0 == l.focal->0 + 1,
        l.shift is None && l.distortion is None && l.focal is None ==> l.total == 3 * (n - 1),
        l.shift is Some && l.distortion is None && l.focal is None ==> l.shift->0 == 3 * (n - 1),
{
}

/// An adjustment asks for derivatives and errors first, then for a step from
/// what these give, and starts from a damping of a thousandth.
pub proof fn law_adjustment(
    first: LevMarq,
    s: &mut LevMarq,
    worse: bool,
    settled: bool,
    r: LmRequest,
)
    requires
        call_ensures(LevMarq::new, (), first),
        old(s).wf(),
        call_ensures(LevMarq::update, (s, worse, settled), r),
    ensures
        first.state is Started && first.lambda_lg10 == -3 && first.iters == 0,
        old(s).state is Started ==> {
            &&& final(s).state is CalcJ
            &&& r.want_jac && r.want_err && !r.form && !r.step
        },
        old(s).state is CalcJ ==> {
            &&& final(s).state is CheckErr
            &&& r.want_err && !r.want_jac && r.form && r.step
            &&& r.keep_norm <==> old(s).iters == 0
        },
        old(s).state is Started || old(s).state is CalcJ ==> r.proceed && final(s).lambda_lg10
            == old(s).lambda_lg10 && final(s).iters == old(s).iters,
        old(s).state is Done ==> !r.proceed && *final(s) == *old(s),
{
}

/// The cells of a grid of six by four are counted in reading order; what lies
/// beyond the grid belongs to its edge.
pub proof fn law_cells(cx: usize, cy: usize, r: usize)
    requires
        call_ensures(grid_cell, (cx, cy), r),
    ensures
        cx < 6 ==> r % 6 == cx,
        cx >= 6 ==> r % 6 == 5,
        cy < 4 ==> r / 6 == cy,
        cy >= 4 ==> r / 6 == 3,
{
}

/// A pair is a candidate if it has a model and is at least as sure as not.
pub proof fn law_candidate(p: &PairMatches, b: bool)
    requires
        call_ensures(is_candidate, (p,), b),
    ensures
        b <==> p.has_h && p.confidence.num >= p.confidence.den,
{
}

/// The even part of a width is the greatest even number within it.
pub proof fn law_even(w: usize, r: usize)
    requires
        call_ensures(even_width, (w,), r),
    ensures
        r % 2 == 0,
        r <= w < r + 2,
{
}

/// A column goes round the canvas: it lands where it is, less as many widths
/// of the canvas as it takes.
pub proof fn law_wrapped(x: i64, w: usize, c: usize, turns: int)
    requires
        w >= 1,
        call_ensures(wrap_column, (x, w), c),
    ensures
        0 <= x - turns * w < w ==> c == x - turns * w,
        0 <= c < w,
{
    if 0 <= x - turns * w < w {
        vstd::arithmetic::div_mod::lemma_fundamental_div_mod_converse(
            x as int,
            w as int,
            turns,
            x - turns * w,
        );
    }
}

/// The pairs of images are all those of an earlier one with a later, by the
/// earlier one first.
pub proof fn law_pairs(n: usize, ps: Vec<(usize, usize)>, i: usize, j: usize, p: int, q: int)
    requires
        call_ensures(all_pairs, (n,), ps),
    ensures
        ps@.contains((i, j)) <==> i < j < n,
        0 <= p < q < ps@.len() ==> ps@[p].0 < ps@[q].0 || (ps@[p].0 == ps@[q].0 && ps@[p].1
            < ps@[q].1),
{
    if ps@.contains((i, j)) {
        let k = ps@.index_of((i, j));
        assert(ps@[k] == (i, j));
    }
    if i < j < n {
        assert(crate::spanning::listed_before(i as int, j as int, n as int, 0));
        assert(ps@.contains((i, j)));
    }
}

/// Matches are picked once each and no more than asked for; where all are
/// asked for, all are picked.
pub proof fn law_spread(spots: &[Spot], most: usize, r: Vec<usize>, i: usize)
    requires
        call_ensures(pick_spread, (spots, most), r),
        forall|k: int| 0 <= k < spots@.len() ==> (#[trigger] spots@[k]).0 < 24,
        spots@.len() <= usize::MAX,
    ensures
        r@.no_duplicates(),
        r@.len() <= most,
        i < spots@.len() && r@.len() < most ==> r@.contains(i),
{
    let n = spots@.len() as int;
    let cells = choose|cells: Seq<Vec<usize>>| #[trigger]
        crate::cp::are_cell_lists(spots@, n, cells) && r@ == crate::cp::at_most(
            crate::cp::dealt(cells, n, 0),
            most as int,
        );
    let all = crate::cp::dealt(cells, n, 0);
    crate::cp::lemma_dealt_once(spots@, cells, n, 0);
    if i < spots@.len() {
        crate::cp::lemma_dealt_in_rounds(spots@, cells, i, 0, 0);
    }
    if all.len() > most {
        assert(r@ == all.take(most as int));
        assert forall|a: int, b: int| 0 <= a < r@.len() && 0 <= b < r@.len() && a != b implies r@[a]
            != r@[b] by {
            assert(all[a] != all[b]);
        }
    }
}

/// A canvas is half as high as it is wide. The strip reaches from the first
/// image to the last, the trim at its right end is half of what lies beyond the
/// wrap and at most 64 columns, and the part to keep is never empty.
pub proof fn law_plan(
    w: usize,
    off_x: i32,
    entries: &[Entry],
    rows: &[Option<(i32, i32)>],
    l: ExportLayout,
    i: int,
)
    requires
        call_ensures(ExportLayout::plan, (w, off_x, entries, rows), l),
        0 <= i < entries@.len(),
    ensures
        l.canvas_w == w,
        2 * l.canvas_h <= w < 2 * l.canvas_h + 2,
        l.off_x == off_x,
        l.strip.0 <= entries@[i].roi.0,
        entries@[i].roi.0 + entries@[i].roi.2 <= l.strip.0 + l.strip.2,
        l.strip.1 <= entries@[i].roi.1,
        entries@[i].roi.1 + entries@[i].roi.3 <= l.strip.1 + l.strip.3,
        entries@[i].dup ==> l.strip.0 + l.ext_start <= entries@[i].roi.0,
        !entries@[i].dup ==> entries@[i].roi.0 + entries@[i].roi.2 <= l.strip.0 + l.originals_end,
        l.ext_trim <= 64,
        2 * l.ext_trim <= l.strip.2 - l.ext_start,
        l.ext_trim == 64 || 2 * l.ext_trim + 1 >= l.strip.2 - l.ext_start,
        l.crop.3 >= 1,
        l.crop.1 == l.rows.0,
        l.rows.1 > l.rows.0 ==> l.crop.1 + l.crop.3 == l.rows.1,
{
    let e = entries@[i];
    assert(e.right() == e.roi.0 + e.roi.2 && e.bottom() == e.roi.1 + e.roi.3);
    if e.dup {
        assert(crate::layout::wraps(entries@));
    }
}

/// Two sets become one. It goes by the second, unless the first is of higher
/// rank; the rank rises only where the two are of one.
pub proof fn law_merged(s: &mut DisjointSets, a: usize, b: usize, r: usize, i: int, j: int)
    requires
        call_ensures(DisjointSets::merge_sets, (s, a, b), r),
        a != b,
        a < old(s).ranks().len(),
        b < old(s).ranks().len(),
        0 <= i < old(s)@.len(),
        0 <= j < old(s)@.len(),
    ensures
        r == a <==> old(s).ranks()[a as int] > old(s).ranks()[b as int],
        r == b <==> old(s).ranks()[a as int] <= old(s).ranks()[b as int],
        old(s)@[i] == a || old(s)@[i] == b ==> final(s)@[i] == r,
        old(s)@[i] != a && old(s)@[i] != b ==> final(s)@[i] == old(s)@[i],
        i != r && i < old(s).ranks().len() ==> final(s).ranks()[i] == old(s).ranks()[i],
        old(s).ranks()[a as int] == old(s).ranks()[b as int] && old(s).ranks()[b as int] < usize::MAX
            ==> final(s).ranks()[b as int] == old(s).ranks()[b as int] + 1,
        old(s).ranks()[a as int] != old(s).ranks()[b as int] ==> final(s).ranks() == old(s).ranks(),
{
}

/// A pair's inliers are counted, and its confidence goes by their number and
/// that of its matches.
pub proof fn law_pair(
    matches: Vec<RawMatch>,
    inliers: Option<Vec<bool>>,
    p: PairMatches,
    c: Ratio,
)
    requires
        call_ensures(PairMatches::new, (matches, inliers), p),
        call_ensures(match_confidence, (p.num_inliers, matches.len()), c),
    ensures
        p.matches@ == matches@,
        p.has_h <==> inliers is Some,
        inliers is Some ==> p.inliers@ == inliers->0@ && p.num_inliers == count_set(
            inliers->0@,
            inliers->0@.len() as int,
        ) && p.confidence == c,
        inliers is None ==> p.num_inliers == 0 && p.confidence.num == 0,
{
    if inliers is Some {
        assert(p.confidence.num == c.num && p.confidence.den == c.den);
    }
}

/// Six matches are enough to look for a model, and six inliers to fit it again.
pub proof fn law_enough(n: usize, r: bool, p: &PairMatches, again: bool)
    requires
        call_ensures(PairMatches::wants_homography, (n,), r),
        call_ensures(PairMatches::wants_refit, (p,), again),
    ensures
        r <==> n >= 6,
        again <==> p.has_h && p.num_inliers >= 6,
{
}

/// Images that are kept keep the pairs they had with each other.
pub proof fn law_pairs_kept(g: MatchGraph, kept: &[usize], sub: MatchGraph, a: int, b: int)
    requires
        call_ensures(keep_images, (g, kept), sub),
        kept@.len() < g.n,
        0 <= a < b < kept@.len(),
    ensures
        sub.n == kept@.len(),
        sub.pair(a, b) == g.pair(kept@[a] as int, kept@[b] as int),
        sub.pair(b, a).num_inliers == g.pair(kept@[a] as int, kept@[b] as int).num_inliers,
        sub.pair(b, a).confidence == g.pair(kept@[a] as int, kept@[b] as int).confidence,
        !sub.pair(a, a).has_h,
{
}

/// Control points are joined to the images that they name, each of which is
/// used once.
pub proof fn law_joined(
    aligned: &[u32],
    cps: &[(u32, u32)],
    sized: &[u32],
    r: Result<(Vec<usize>, Vec<(usize, usize)>), OptimizeError>,
    k: int,
    i: int,
    j: int,
)
    requires
        call_ensures(join_images, (aligned, cps, sized), r),
        r is Ok,
        0 <= k < cps@.len(),
    ensures
        ({
            let (used, ends) = (r->Ok_0.0@, r->Ok_0.1@);
            &&& used.len() >= 2
            &&& ends.len() == cps@.len()
            &&& ends[k].0 < used.len() && ends[k].1 < used.len()
            &&& aligned@[used[ends[k].0 as int] as int] == cps@[k].0
            &&& aligned@[used[ends[k].1 as int] as int] == cps@[k].1
            &&& sized@.contains(cps@[k].0) && sized@.contains(cps@[k].1)
            &&& 0 <= i < j < used.len() ==> aligned@[used[i] as int] != aligned@[used[j] as int]
        }),
{
    let (used, ends) = (r->Ok_0.0@, r->Ok_0.1@);
    let named = crate::optimizer::named_ids(cps@);
    let images = crate::optimizer::distinct(named, named.len() as int);
    crate::optimizer::lemma_distinct(named, named.len() as int, cps@[k].0);
    assert(ends[k].0 < images.len() && ends[k].1 < images.len());
    let (p, q) = (ends[k].0 as int, ends[k].1 as int);
    assert(crate::ids::is_first_of(aligned@, images[p], used[p] as int));
    assert(crate::ids::is_first_of(aligned@, images[q], used[q] as int));
    assert(sized@.contains(images[p]) && sized@.contains(images[q]));
    if 0 <= i < j < used.len() {
        assert(crate::ids::is_first_of(aligned@, images[i], used[i] as int));
        assert(crate::ids::is_first_of(aligned@, images[j], used[j] as int));
    }
}

/// An aligned image is paired with the first source of its id and with the
/// first size of its id.
pub proof fn law_sources_paired(
    aligned: &[u32],
    sources: &[u32],
    sized: &[u32],
    r: Result<Vec<(usize, usize)>, ExportError>,
    k: int,
    i: int,
)
    requires
        call_ensures(pair_sources, (aligned, sources, sized), r),
        0 <= k < aligned@.len(),
    ensures
        r is Ok ==> {
            let p = r->Ok_0@[k];
            &&& p.0 < sources@.len() && sources@[p.0 as int] == aligned@[k]
            &&& p.1 < sized@.len() && sized@[p.1 as int] == aligned@[k]
            &&& 0 <= i < p.0 ==> sources@[i] != aligned@[k]
            &&& 0 <= i < p.1 ==> sized@[i] != aligned@[k]
        },
        !sources@.contains(aligned@[k]) || !sized@.contains(aligned@[k]) ==> r is Err,
{
    if r is Ok {
        let p = r->Ok_0@[k];
        assert(crate::ids::is_first_of(sources@, aligned@[k], p.0 as int));
        assert(crate::ids::is_first_of(sized@, aligned@[k], p.1 as int));
    }
}

/// What is loaded for an image is what is found for it until it is dropped.
pub proof fn law_loaded(
    e: &mut Exporter,
    id: u32,
    img: PixelImage,
    r: Result<(), ExportError>,
    after: &Exporter,
    other: u32,
    seen: Option<&PixelImage>,
    f: &mut Exporter,
    dropped: &Exporter,
    gone: Option<&PixelImage>,
)
    requires
        call_ensures(Exporter::set_full_image, (e, id, img), r),
        after@ == final(e)@,
        call_ensures(Exporter::full_image, (after, other), seen),
        old(f)@ == final(e)@,
        call_ensures(Exporter::drop_full_image, (f, id), ()),
        dropped@ == final(f)@,
        call_ensures(Exporter::full_image, (dropped, id), gone),
    ensures
        r is Ok <==> old(e)@.ids.contains(id),
        r is Ok && other == id ==> seen is Some && *(seen->0) == img,
        r is Ok && other != id ==> (seen is Some <==> old(e)@.loaded.contains_key(other)),
        r is Ok && other != id && seen is Some ==> *(seen->0) == old(e)@.loaded[other],
        r is Err ==> final(e)@ == old(e)@,
        gone is None,
        final(f)@.canvas == old(e)@.canvas,
        final(f)@.bands_done == old(e)@.bands_done,
{
}

/// A band is composed if all images it needs are loaded. That one is done then,
/// and no other than before.
pub proof fn law_band_done(
    e: &mut Exporter,
    b: usize,
    blended: &[u8],
    coverage: &GrayImage,
    r: Result<(), ExportError>,
    k: int,
)
    requires
        old(e).wf(),
        call_ensures(Exporter::composite_band, (e, b, blended, coverage), r),
        0 <= k < old(e)@.bands_done.len(),
    ensures
        r is Ok <==> b < old(e)@.bands.len() && forall|i: int|
            0 <= i < old(e)@.bands[b as int].needed@.len() ==> old(e)@.loaded.contains_key(
                #[trigger] old(e)@.bands[b as int].needed@[i],
            ),
        r is Ok ==> (final(e)@.bands_done[k] <==> k == b || old(e)@.bands_done[k]),
        r is Ok ==> final(e)@.layout == old(e)@.layout && final(e)@.bands == old(e)@.bands
            && final(e)@.loaded == old(e)@.loaded,
        r is Err ==> final(e)@ == old(e)@,
{
}

/// An export ends when all bands are done: with the picture, encoded at the low
/// sixteen bits of its width and height.
pub proof fn law_finished(
    e: Exporter,
    quality: u8,
    r: Result<(Vec<u8>, usize, usize), ExportError>,
    same: Exporter,
    data: Vec<u8>,
    w: u16,
    h: u16,
)
    requires
        call_ensures(Exporter::finish, (e, quality), r),
        same@ == e@,
        call_ensures(Exporter::picture, (same,), data),
        e@.layout.crop.2 as int % 65536 == w,
        e@.layout.crop.3 as int % 65536 == h,
    ensures
        r is Ok <==> w >= 1 && h >= 1 && forall|k: int|
            0 <= k < e@.bands_done.len() ==> #[trigger] e@.bands_done[k],
        r matches Ok(out) ==> {
            &&& out.1 == e@.layout.crop.2
            &&& out.2 == e@.layout.crop.3
            &&& out.0@ == jpeg_bytes(data@, w, h, quality)
        },
        (forall|k: int| 0 <= k < e@.bands_done.len() ==> #[trigger] e@.bands_done[k]) || (
        r matches Err(why) && why is BandsMissing),
{
}

/// An image is found by its id.
pub proof fn law_found<A, E, T>(e: &Engine<A, E, T>, id: u32, r: Option<usize>, k: int)
    requires
        call_ensures(Engine::<A, E, T>::find, (e, id), r),
        0 <= k < e.sources@.len(),
    ensures
        r matches Some(i) ==> i < e.sources@.len() && e.sources@[i as int].id == id,
        e.sources@[k].id == id ==> (r matches Some(i) && i <= k),
{
    let ids = crate::engine::ids_of(e.sources@);
    assert(ids[k] == e.sources@[k].id);
    if e.sources@[k].id == id {
        assert(ids.contains(id));
    }
    if r is Some {
        assert(ids[r->0 as int] == e.sources@[r->0 as int].id);
    }
}

/// An entry beyond the wrap stands one canvas further right than its image, and
/// otherwise as it does.
pub proof fn law_entry(
    src_idx: usize,
    dup: bool,
    roi: (i32, i32, i32, i32),
    w: usize,
    e: Entry,
)
    requires
        call_ensures(Entry::new, (src_idx, dup, roi, w), e),
    ensures
        e.src_idx == src_idx,
        e.dup <==> dup,
        dup ==> e.roi.0 - roi.0 == w,
        !dup ==> e.roi.0 == roi.0,
        e.roi.1 == roi.1 && e.roi.2 == roi.2 && e.roi.3 == roi.3,
{
}

} // verus!
