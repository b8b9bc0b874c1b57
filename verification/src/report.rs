//! What callers are told, as JSON text.

use crate::export::Exporter;
use crate::export::ExportState;
use crate::layout::ExportBand;
use crate::text::digits;
use crate::text::with_number;
use crate::text::with_text;
use vstd::prelude::*;

verus! {

/// The first `k` numbers, separated by commas.
pub open spec fn list_until(ids: Seq<u32>, k: int) -> Seq<char>
    decreases k,
{
    if k <= 0 {
        Seq::empty()
    } else if k == 1 {
        digits(ids[0] as nat)
    } else {
        list_until(ids, k - 1) + ","@ + digits(ids[k - 1] as nat)
    }
}

/// Numbers separated by commas.
pub open spec fn list_text(ids: Seq<u32>) -> Seq<char> {
    list_until(ids, ids.len() as int)
}

/// A text followed by numbers separated by commas.
fn with_list(before: String, ids: &[u32]) -> (s: String)
    ensures
        s@ == before@ + list_text(ids@),
{
    let ghost start = before@;
    let mut s: String = before;
    let mut k: usize = 0;
    assert(s@ =~= start + list_until(ids@, 0));
    while k < ids.len()
        invariant
            k <= ids@.len(),
            s@ == start + list_until(ids@, k as int),
        decreases ids@.len() - k,
    {
        if k > 0 {
            s = with_text(s, ",");
        }
        s = with_number(s, ids[k] as u64);
        k = k + 1;
        assert(s@ =~= start + list_until(ids@, k as int));
    }
    s
}

/// A band with its rows and the images it needs.
pub open spec fn band_text(b: ExportBand) -> Seq<char> {
    "{\"y0\":"@ + digits(b.y0 as nat) + ",\"y1\":"@ + digits(b.y1 as nat) + ",\"needed\":["@
        + list_text(b.needed@) + "]}"@
}

/// The first `k` bands, separated by commas.
pub open spec fn bands_until(bands: Seq<ExportBand>, k: int) -> Seq<char>
    decreases k,
{
    if k <= 0 {
        Seq::empty()
    } else if k == 1 {
        band_text(bands[0])
    } else {
        bands_until(bands, k - 1) + ","@ + band_text(bands[k - 1])
    }
}

/// The plan of an export: the kept part of the canvas, the whole canvas, and
/// the bands.
pub open spec fn plan_text(s: ExportState) -> Seq<char> {
    let (cx, cy, cw, ch) = s.layout.crop;
    "{\"width\":"@ + digits(cw as nat) + ",\"height\":"@ + digits(ch as nat) + ",\"left\":"@
        + digits(cx as nat) + ",\"top\":"@ + digits(cy as nat) + ",\"fullWidth\":"@ + digits(
        s.layout.canvas_w as nat,
    ) + ",\"fullHeight\":"@ + digits(s.layout.canvas_h as nat) + ",\"bands\":["@ + bands_until(
        s.bands,
        s.bands.len() as int,
    ) + "]}"@
}

fn with_band(before: String, b: &ExportBand) -> (s: String)
    ensures
        s@ == before@ + band_text(*b),
{
    let ghost start = before@;
    let s = with_number(with_text(before, "{\"y0\":"), b.y0 as u64);
    let s = with_number(with_text(s, ",\"y1\":"), b.y1 as u64);
    let s = with_list(with_text(s, ",\"needed\":["), b.needed.as_slice());
    let s = with_text(s, "]}");
    assert(s@ =~= start + band_text(*b));
    s
}

/// The plan of an export as JSON.
pub fn export_plan(exporter: &Exporter) -> (s: String)
    ensures
        s@ == plan_text(exporter@),
{
    let (cx, cy, cw, ch) = exporter.crop();
    let (fw, fh) = exporter.canvas_size();
    let bands = exporter.bands();
    let s = with_number("{\"width\":".to_string(), cw as u64);
    let s = with_number(with_text(s, ",\"height\":"), ch as u64);
    let s = with_number(with_text(s, ",\"left\":"), cx as u64);
    let s = with_number(with_text(s, ",\"top\":"), cy as u64);
    let s = with_number(with_text(s, ",\"fullWidth\":"), fw as u64);
    let s = with_number(with_text(s, ",\"fullHeight\":"), fh as u64);
    let mut s: String = with_text(s, ",\"bands\":[");
    let ghost start = s@;
    let mut k: usize = 0;
    assert(s@ =~= start + bands_until(bands@, 0));
    while k < bands.len()
        invariant
            k <= bands@.len(),
            s@ == start + bands_until(bands@, k as int),
        decreases bands@.len() - k,
    {
        if k > 0 {
            s = with_text(s, ",");
        }
        s = with_band(s, &bands[k]);
        k = k + 1;
        assert(s@ =~= start + bands_until(bands@, k as int));
    }
    let s = with_text(s, "]}");
    assert(s@ =~= plan_text(exporter@));
    s
}

/// What came of aligning: the ids of the images aligned by their features, of
/// those placed from their pose, and of those dropped, and the scale.
pub open spec fn alignment_text(
    aligned: Seq<u32>,
    rescued: Seq<u32>,
    dropped: Seq<u32>,
    scale: Seq<char>,
) -> Seq<char> {
    "{\"aligned\":["@ + list_text(aligned) + "],\"rescued\":["@ + list_text(rescued)
        + "],\"dropped\":["@ + list_text(dropped) + "],\"warpedImageScale\":"@ + scale + "}"@
}

/// The ids among the first `k` images whose flag is as asked, in order.
pub open spec fn ids_flagged(ids: Seq<u32>, flags: Seq<bool>, flag: bool, k: int) -> Seq<u32>
    decreases k,
{
    if k <= 0 {
        Seq::empty()
    } else {
        let before = ids_flagged(ids, flags, flag, k - 1);
        if flags[k - 1] == flag {
            before.push(ids[k - 1])
        } else {
            before
        }
    }
}

fn flagged(ids: &[u32], flags: &[bool], flag: bool) -> (r: Vec<u32>)
    requires
        ids@.len() == flags@.len(),
    ensures
        r@ == ids_flagged(ids@, flags@, flag, ids@.len() as int),
{
    let mut r: Vec<u32> = Vec::new();
    let mut k: usize = 0;
    while k < ids.len()
        invariant
            ids@.len() == flags@.len(),
            k <= ids@.len(),
            r@ == ids_flagged(ids@, flags@, flag, k as int),
        decreases ids@.len() - k,
    {
        if flags[k] == flag {
            r.push(ids[k]);
        }
        k = k + 1;
    }
    r
}

/// What came of aligning, as JSON. `scale` is the panorama's scale in
/// decimal notation.
pub fn alignment_report(ids: &[u32], rescued: &[bool], dropped: &[u32], scale: &str) -> (s: String)
    requires
        ids@.len() == rescued@.len(),
    ensures
        s@ == alignment_text(
            ids_flagged(ids@, rescued@, false, ids@.len() as int),
            ids_flagged(ids@, rescued@, true, ids@.len() as int),
            dropped@,
            scale@,
        ),
{
    let by_features = flagged(ids, rescued, false);
    let by_pose = flagged(ids, rescued, true);
    let s = with_list("{\"aligned\":[".to_string(), by_features.as_slice());
    let s = with_list(with_text(s, "],\"rescued\":["), by_pose.as_slice());
    let s = with_list(with_text(s, "],\"dropped\":["), dropped);
    let s = with_text(with_text(with_text(s, "],\"warpedImageScale\":"), scale), "}");
    assert(s@ =~= alignment_text(by_features@, by_pose@, dropped@, scale@));
    s
}

/// The flagged ids are those with the flag, in their order.
pub proof fn lemma_flagged(ids: Seq<u32>, flags: Seq<bool>, flag: bool, k: int)
    requires
        0 <= k < ids.len(),
    ensures
        ids_flagged(ids, flags, flag, k + 1) == ids_flagged(ids, flags, flag, k) + (if flags[k]
            == flag {
            seq![ids[k]]
        } else {
            Seq::empty()
        }),
        ids_flagged(ids, flags, flag, 0) == Seq::<u32>::empty(),
{
}

/// A list is its numbers with commas between them: two lists in a row are one
/// list once a comma stands between them.
pub proof fn lemma_lists_join(a: Seq<u32>, b: Seq<u32>, id: u32)
    ensures
        list_text(seq![id]) == digits(id as nat),
        list_text(Seq::<u32>::empty()) == Seq::<char>::empty(),
        a.len() > 0 && b.len() > 0 ==> list_text(a + b) == list_text(a) + seq![','] + list_text(b),
    decreases b.len(),
{
    reveal_strlit(",");
    assert(","@ =~= seq![',']);
    if a.len() > 0 && b.len() > 0 {
        let (n, m) = (a.len() as int, b.len() as int);
        lemma_list_prefix(a, b, n);
        lemma_list_suffix(a, b, m);
    }
}

proof fn lemma_list_prefix(a: Seq<u32>, b: Seq<u32>, k: int)
    requires
        0 <= k <= a.len(),
    ensures
        list_until(a + b, k) == list_until(a, k),
    decreases k,
{
    if k > 0 {
        assert((a + b)[k - 1] == a[k - 1] && (a + b)[0] == a[0]);
        lemma_list_prefix(a, b, k - 1);
    }
}

proof fn lemma_list_suffix(a: Seq<u32>, b: Seq<u32>, k: int)
    requires
        a.len() > 0,
        1 <= k <= b.len(),
    ensures
        list_until(a + b, a.len() + k) == list_until(a, a.len() as int) + ","@ + list_until(b, k),
    decreases k,
{
    lemma_list_prefix(a, b, a.len() as int);
    let n = a.len() as int;
    assert((a + b)[n + k - 1] == b[k - 1]);
    if k > 1 {
        lemma_list_suffix(a, b, k - 1);
        assert(list_until(a + b, n + k) =~= list_until(a, n) + ","@ + list_until(b, k));
    } else {
        assert(list_until(b, 1) == digits(b[0] as nat));
    }
}

} // verus!
