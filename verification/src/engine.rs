//! A stitching session: its images, painted masks, alignment and export, and
//! what invalidates what.

use crate::ids::is_first_of;
use crate::imgproc::GrayImage;
use crate::text::digits;
use crate::text::with_number;
use crate::warp::PixelImage;
use std::collections::HashMap;
use vstd::prelude::*;

verus! {

broadcast use vstd::std_specs::hash::group_hash_axioms;

/// Why a session refuses a request.
#[derive(Debug, Clone, Copy, PartialEq, Eq, Structural)]
pub enum EngineError {
    BufferMismatch,
    DuplicateId,
    PriorLength,
    UnknownId,
    MaskDimensions,
    MaskBuffer,
    NotAligned,
    NoExport,
    ListMismatch,
    RotationLength,
    NotLoaded(u32),
}

impl EngineError {
    /// What to tell the user.
    pub open spec fn says(&self) -> Seq<char> {
        match *self {
            EngineError::BufferMismatch => "rgba buffer does not match dimensions"@,
            EngineError::DuplicateId => "duplicate image id"@,
            EngineError::PriorLength => "pose_prior must have 3 elements"@,
            EngineError::UnknownId => "unknown image id"@,
            EngineError::MaskDimensions => "mask dimensions must match the image"@,
            EngineError::MaskBuffer => "mask buffer does not match dimensions"@,
            EngineError::NotAligned => "align() has not succeeded yet"@,
            EngineError::NoExport => "no export in progress"@,
            EngineError::ListMismatch => "ids/widths/heights length mismatch"@,
            EngineError::RotationLength => "rotation must have 9 elements"@,
            EngineError::NotLoaded(id) => "project image id "@ + digits(id as nat)
                + " has not been loaded"@,
        }
    }

    /// What to tell the user.
    pub fn message(&self) -> (s: String)
        ensures
            s@ == self.says(),
    {
        match self {
            EngineError::BufferMismatch => "rgba buffer does not match dimensions".to_string(),
            EngineError::DuplicateId => "duplicate image id".to_string(),
            EngineError::PriorLength => "pose_prior must have 3 elements".to_string(),
            EngineError::UnknownId => "unknown image id".to_string(),
            EngineError::MaskDimensions => "mask dimensions must match the image".to_string(),
            EngineError::MaskBuffer => "mask buffer does not match dimensions".to_string(),
            EngineError::NotAligned => "align() has not succeeded yet".to_string(),
            EngineError::NoExport => "no export in progress".to_string(),
            EngineError::ListMismatch => "ids/widths/heights length mismatch".to_string(),
            EngineError::RotationLength => "rotation must have 9 elements".to_string(),
            EngineError::NotLoaded(id) => {
                let s = with_number("project image id ".to_string(), *id as u64);
                crate::text::with_text(s, " has not been loaded")
            },
        }
    }
}

/// A picture without its alpha bytes.
pub open spec fn without_alpha(rgba: Seq<u8>) -> Seq<u8> {
    Seq::new(3 * (rgba.len() / 4), |i: int| rgba[4 * (i / 3) + i % 3])
}

/// Drops the alpha byte of every pixel.
pub fn drop_alpha(rgba: &[u8]) -> (rgb: Vec<u8>)
    ensures
        rgb@ == without_alpha(rgba@),
{
    let n: usize = rgba.len() / 4;
    let mut rgb: Vec<u8> = Vec::new();
    let mut q: usize = 0;
    while q < n
        invariant
            n == rgba@.len() / 4,
            rgba@.len() == rgba.len(),
            q <= n,
            rgb@.len() == 3 * q,
            forall|i: int| 0 <= i < rgb@.len() ==> #[trigger] rgb@[i] == rgba@[4 * (i / 3) + i % 3],
        decreases n - q,
    {
        rgb.push(rgba[4 * q]);
        rgb.push(rgba[4 * q + 1]);
        rgb.push(rgba[4 * q + 2]);
        q = q + 1;
    }
    assert(rgb@ =~= without_alpha(rgba@));
    rgb
}

/// A picture of `width` by `height` pixels from its bytes, four a pixel.
pub fn picture_from(rgba: &[u8], width: u32, height: u32) -> (r: Result<PixelImage, EngineError>)
    requires
        width * height * 4 <= usize::MAX,
    ensures
        match r {
            Ok(img) => {
                &&& rgba@.len() == width * height * 4
                &&& img.wf()
                &&& img.width == width
                &&& img.height == height
                &&& img.channels == 3
                &&& img.data@ == without_alpha(rgba@)
            },
            Err(e) => rgba@.len() != width * height * 4 && e is BufferMismatch,
        },
{
    let (w, h) = (width as usize, height as usize);
    proof {
        assert(0 <= width * height) by (nonlinear_arith);
    }
    if rgba.len() != w * h * 4 {
        return Err(EngineError::BufferMismatch);
    }
    let rgb = drop_alpha(rgba);
    assert(3 * (rgba@.len() / 4) == w * h * 3);
    Ok(PixelImage::new(w, h, 3, rgb))
}

/// An image of a session, with the pose it was taken in if that is known.
pub struct Source<T> {
    pub id: u32,
    pub rgb: PixelImage,
    pub pose_prior: Option<Vec<T>>,
}

/// A session. What an alignment, an export and a pose hold is left open.
pub struct Engine<A, E, T> {
    pub sources: Vec<Source<T>>,
    pub alignment: Option<A>,
    pub exporter: Option<E>,
    /// Painted masks by image: 0 for nothing, 1 to exclude, 2 to prefer.
    pub user_masks: HashMap<u32, GrayImage>,
}

/// The ids of images.
pub open spec fn ids_of<T>(sources: Seq<Source<T>>) -> Seq<u32> {
    sources.map_values(|s: Source<T>| s.id)
}

/// The images that are left without `id`, among the first `k`.
pub open spec fn others_until<T>(sources: Seq<Source<T>>, id: u32, k: int) -> Seq<Source<T>>
    decreases k,
{
    if k <= 0 {
        Seq::empty()
    } else {
        let before = others_until(sources, id, k - 1);
        if sources[k - 1].id != id {
            before.push(sources[k - 1])
        } else {
            before
        }
    }
}

/// Nothing is painted.
pub open spec fn is_blank(mask: Seq<u8>) -> bool {
    forall|i: int| 0 <= i < mask.len() ==> #[trigger] mask[i] == 0
}

impl<A, E, T> Engine<A, E, T> {
    /// No two images share an id.
    pub open spec fn wf(&self) -> bool {
        ids_of(self.sources@).no_duplicates()
    }

    pub fn new() -> (e: Self)
        ensures
            e.wf(),
            e.sources@.len() == 0,
            e.alignment is None,
            e.exporter is None,
            e.user_masks@ == Map::<u32, GrayImage>::empty(),
    {
        Engine {
            sources: Vec::new(),
            alignment: None,
            exporter: None,
            user_masks: HashMap::new(),
        }
    }

    /// Where image `id` stands.
    pub fn find(&self, id: u32) -> (r: Option<usize>)
        ensures
            match r {
                Some(i) => is_first_of(ids_of(self.sources@), id, i as int),
                None => !ids_of(self.sources@).contains(id),
            },
    {
        let mut i: usize = 0;
        while i < self.sources.len()
            invariant
                i <= self.sources@.len(),
                forall|j: int| 0 <= j < i ==> #[trigger] ids_of(self.sources@)[j] != id,
            decreases self.sources@.len() - i,
        {
            if self.sources[i].id == id {
                assert(ids_of(self.sources@)[i as int] == id);
                return Some(i);
            }
            i = i + 1;
        }
        None
    }

    /// Adds an image. Its pose, where given, has three angles. The alignment
    /// no longer holds.
    pub fn add_image(
        &mut self,
        id: u32,
        rgba: &[u8],
        width: u32,
        height: u32,
        pose_prior: Option<Vec<T>>,
    ) -> (r: Result<(), EngineError>)
        requires
            old(self).wf(),
            width * height * 4 <= usize::MAX,
        ensures
            final(self).wf(),
            r == if rgba@.len() != width * height * 4 {
                Err::<(), EngineError>(EngineError::BufferMismatch)
            } else if ids_of(old(self).sources@).contains(id) {
                Err(EngineError::DuplicateId)
            } else if pose_prior is Some && pose_prior->0@.len() != 3 {
                Err(EngineError::PriorLength)
            } else {
                Ok(())
            },
            r is Err ==> *final(self) == *old(self),
            r is Ok ==> {
                let (s0, s1) = (old(self).sources@, final(self).sources@);
                &&& s1.len() == s0.len() + 1
                &&& s1.take(s0.len() as int) == s0
                &&& s1.last().id == id
                &&& s1.last().rgb.wf()
                &&& s1.last().rgb.width == width
                &&& s1.last().rgb.height == height
                &&& s1.last().rgb.channels == 3
                &&& s1.last().rgb.data@ == without_alpha(rgba@)
                &&& s1.last().pose_prior == pose_prior
                &&& final(self).alignment is None
                &&& final(self).exporter == old(self).exporter
                &&& final(self).user_masks == old(self).user_masks
            },
    {
        let rgb = match picture_from(rgba, width, height) {
            Ok(img) => img,
            Err(e) => {
                return Err(e);
            },
        };
        let found: Option<usize> = self.find(id);
        proof {
            if let Some(i) = found {
                assert(ids_of(self.sources@)[i as int] == id);
            }
        }
        if found.is_some() {
            return Err(EngineError::DuplicateId);
        }
        if let Some(v) = &pose_prior {
            if v.len() != 3 {
                return Err(EngineError::PriorLength);
            }
        }
        let ghost s0 = self.sources@;
        self.sources.push(Source { id, rgb, pose_prior });
        self.alignment = None;
        proof {
            let s1 = self.sources@;
            assert(s1.take(s0.len() as int) =~= s0);
            assert(ids_of(s1) =~= ids_of(s0).push(id));
        }
        Ok(())
    }

    /// Removes an image and its mask. Neither the alignment nor an export
    /// holds any longer.
    pub fn remove_image(&mut self, id: u32)
        requires
            old(self).wf(),
        ensures
            final(self).wf(),
            final(self).sources@ == others_until(
                old(self).sources@,
                id,
                old(self).sources@.len() as int,
            ),
            final(self).user_masks@ == old(self).user_masks@.remove(id),
            final(self).alignment is None,
            final(self).exporter is None,
    {
        let ghost s0 = self.sources@;
        let mut all: Vec<Source<T>> = Vec::new();
        std::mem::swap(&mut all, &mut self.sources);
        let mut kept: Vec<Source<T>> = Vec::new();
        let mut rest: Vec<Source<T>> = Vec::new();
        // Turned round, so that images can be taken off the end in order.
        while all.len() > 0
            invariant
                all@.len() + rest@.len() == s0.len(),
                all@ == s0.take(all@.len() as int),
                forall|i: int|
                    0 <= i < rest@.len() ==> #[trigger] rest@[i] == s0[s0.len() - 1 - i],
            decreases all@.len(),
        {
            if let Some(s) = all.pop() {
                rest.push(s);
                assert(all@ =~= s0.take(all@.len() as int));
            }
        }
        let ghost mut k: int = 0;
        assert(kept@ =~= others_until(s0, id, 0));
        while rest.len() > 0
            invariant
                0 <= k,
                k + rest@.len() == s0.len(),
                forall|i: int|
                    0 <= i < rest@.len() ==> #[trigger] rest@[i] == s0[s0.len() - 1 - i],
                kept@ == others_until(s0, id, k),
            decreases rest@.len(),
        {
            let ghost r0 = rest@;
            if let Some(s) = rest.pop() {
                assert(r0[r0.len() - 1] == s0[k]);
                if s.id != id {
                    kept.push(s);
                }
                proof {
                    k = k + 1;
                }
            }
        }
        self.sources = kept;
        self.user_masks.remove(&id);
        self.alignment = None;
        self.exporter = None;
        proof {
            lemma_others_distinct(s0, id, s0.len() as int);
        }
    }

    /// Forgets all images. Painted masks stay.
    pub fn clear(&mut self)
        ensures
            final(self).wf(),
            final(self).sources@.len() == 0,
            final(self).alignment is None,
            final(self).exporter is None,
            final(self).user_masks == old(self).user_masks,
    {
        self.sources = Vec::new();
        self.alignment = None;
        self.exporter = None;
    }

    pub fn image_count(&self) -> (n: usize)
        ensures
            n == self.sources@.len(),
    {
        self.sources.len()
    }

    /// Paints a mask. A blank one removes what was painted. An export no
    /// longer holds.
    pub fn set_mask(&mut self, id: u32, mask: &[u8], width: u32, height: u32) -> (r: Result<
        (),
        EngineError,
    >)
        requires
            old(self).wf(),
            width * height <= u32::MAX,
        ensures
            final(self).wf(),
            ({
                let ids = ids_of(old(self).sources@);
                let masks = (old(self).user_masks@, final(self).user_masks@);
                &&& match r {
                    Ok(_) => {
                        &&& exists|i: int|
                            0 <= i < ids.len() && #[trigger] ids[i] == id
                                && old(self).sources@[i].rgb.width == width
                                && old(self).sources@[i].rgb.height == height
                        &&& mask@.len() == width * height
                        &&& if is_blank(mask@) {
                            masks.1 == masks.0.remove(id)
                        } else {
                            &&& masks.1 == masks.0.insert(id, masks.1[id])
                            &&& masks.1[id].wf()
                            &&& masks.1[id].width == width
                            &&& masks.1[id].height == height
                            &&& masks.1[id].data@ == mask@
                        }
                        &&& final(self).exporter is None
                        &&& final(self).alignment == old(self).alignment
                        &&& final(self).sources == old(self).sources
                    },
                    Err(EngineError::UnknownId) => !ids.contains(id),
                    Err(EngineError::MaskDimensions) => exists|i: int|
                        0 <= i < ids.len() && #[trigger] ids[i] == id && (
                        old(self).sources@[i].rgb.width != width
                            || old(self).sources@[i].rgb.height != height),
                    Err(EngineError::MaskBuffer) => {
                        &&& exists|i: int|
                            0 <= i < ids.len() && #[trigger] ids[i] == id
                                && old(self).sources@[i].rgb.width == width
                                && old(self).sources@[i].rgb.height == height
                        &&& mask@.len() != width * height
                    },
                    Err(_) => false,
                }
                &&& r is Err ==> *final(self) == *old(self)
            }),
    {
        let i: usize = match self.find(id) {
            Some(i) => i,
            None => {
                return Err(EngineError::UnknownId);
            },
        };
        let ghost ids = ids_of(self.sources@);
        assert(ids[i as int] == id);
        let (w, h) = (width as usize, height as usize);
        if w != self.sources[i].rgb.width || h != self.sources[i].rgb.height {
            return Err(EngineError::MaskDimensions);
        }
        proof {
            assert(0 <= width * height) by (nonlinear_arith);
        }
        if mask.len() != (width * height) as usize {
            return Err(EngineError::MaskBuffer);
        }
        let mut blank: bool = true;
        let mut k: usize = 0;
        while k < mask.len()
            invariant
                k <= mask@.len(),
                blank <==> forall|j: int| 0 <= j < k ==> #[trigger] mask@[j] == 0,
            decreases mask@.len() - k,
        {
            if mask[k] != 0 {
                blank = false;
            }
            k = k + 1;
        }
        if blank {
            self.user_masks.remove(&id);
        } else {
            let mut data: Vec<u8> = Vec::new();
            data.extend_from_slice(mask);
            assert(data@ =~= mask@);
            self.user_masks.insert(id, GrayImage::new(w, h, data));
        }
        self.exporter = None;
        Ok(())
    }

    /// Removes a painted mask. An export no longer holds.
    pub fn clear_mask(&mut self, id: u32)
        ensures
            final(self).user_masks@ == old(self).user_masks@.remove(id),
            final(self).exporter is None,
            final(self).alignment == old(self).alignment,
            final(self).sources == old(self).sources,
    {
        self.user_masks.remove(&id);
        self.exporter = None;
    }

    /// How many images have a painted mask.
    pub fn mask_count(&self) -> (n: usize)
        ensures
            n == self.user_masks@.dom().len(),
    {
        self.user_masks.len()
    }

    /// The painted mask of image `id`.
    pub fn mask_of(&self, id: u32) -> (r: Option<&GrayImage>)
        ensures
            match r {
                Some(m) => self.user_masks@.contains_key(id) && *m == self.user_masks@[id],
                None => !self.user_masks@.contains_key(id),
            },
    {
        self.user_masks.get(&id)
    }

    /// The alignment, if there is one.
    pub fn aligned(&self) -> (r: Result<&A, EngineError>)
        ensures
            match r {
                Ok(a) => self.alignment == Some(*a),
                Err(e) => self.alignment is None && e is NotAligned,
            },
    {
        match &self.alignment {
            Some(a) => Ok(a),
            None => Err(EngineError::NotAligned),
        }
    }

    /// Takes a new alignment.
    pub fn set_alignment(&mut self, a: A)
        ensures
            *final(self) == (Engine { alignment: Some(a), ..*old(self) }),
    {
        self.alignment = Some(a);
    }

    /// Takes an alignment that was changed in place; an export no longer
    /// holds.
    pub fn realign(&mut self, a: A)
        ensures
            *final(self) == (Engine { alignment: Some(a), exporter: None::<E>, ..*old(self) }),
    {
        self.alignment = Some(a);
        self.exporter = None;
    }

    /// Begins an export.
    pub fn set_exporter(&mut self, e: E)
        ensures
            *final(self) == (Engine { exporter: Some(e), ..*old(self) }),
    {
        self.exporter = Some(e);
    }

    /// Hands the export over, which ends it here.
    pub fn take_exporter(&mut self) -> (r: Result<E, EngineError>)
        ensures
            *final(self) == (Engine { exporter: None::<E>, ..*old(self) }),
            match r {
                Ok(e) => old(self).exporter == Some(e),
                Err(e) => old(self).exporter is None && e is NoExport,
            },
    {
        let mut e: Option<E> = None;
        std::mem::swap(&mut e, &mut self.exporter);
        match e {
            Some(e) => Ok(e),
            None => Err(EngineError::NoExport),
        }
    }

    pub fn cancel_export(&mut self)
        ensures
            *final(self) == (Engine { exporter: None::<E>, ..*old(self) }),
    {
        self.exporter = None;
    }

    /// Checks that every image of an alignment is loaded; names the first that
    /// is not.
    pub fn check_loaded(&self, aligned: &[u32]) -> (r: Result<(), EngineError>)
        ensures
            match r {
                Ok(_) => forall|k: int|
                    0 <= k < aligned@.len() ==> ids_of(self.sources@).contains(
                        #[trigger] aligned@[k],
                    ),
                Err(e) => exists|k: int|
                    0 <= k < aligned@.len() && e == EngineError::NotLoaded(#[trigger] aligned@[k])
                        && !ids_of(self.sources@).contains(aligned@[k]) && forall|j: int|
                        0 <= j < k ==> ids_of(self.sources@).contains(#[trigger] aligned@[j]),
            },
    {
        let mut k: usize = 0;
        while k < aligned.len()
            invariant
                k <= aligned@.len(),
                forall|j: int|
                    0 <= j < k ==> ids_of(self.sources@).contains(#[trigger] aligned@[j]),
            decreases aligned@.len() - k,
        {
            match self.find(aligned[k]) {
                Some(i) => {
                    assert(ids_of(self.sources@)[i as int] == aligned@[k as int]);
                },
                None => {
                    return Err(EngineError::NotLoaded(aligned[k]));
                },
            }
            k = k + 1;
        }
        Ok(())
    }
}

/// One of the first `k` images has the id.
spec fn has_id<T>(sources: Seq<Source<T>>, k: int, id: u32) -> bool {
    exists|j: int| 0 <= j < k && #[trigger] ids_of(sources)[j] == id
}

proof fn lemma_others_distinct<T>(sources: Seq<Source<T>>, id: u32, k: int)
    requires
        0 <= k <= sources.len(),
        ids_of(sources).no_duplicates(),
    ensures
        ids_of(others_until(sources, id, k)).no_duplicates(),
        forall|i: int|
            0 <= i < others_until(sources, id, k).len() ==> has_id(
                sources,
                k,
                (#[trigger] others_until(sources, id, k)[i]).id,
            ),
    decreases k,
{
    let now = others_until(sources, id, k);
    if k > 0 {
        lemma_others_distinct(sources, id, k - 1);
        let before = others_until(sources, id, k - 1);
        let all = ids_of(sources);
        assert forall|i: int| 0 <= i < now.len() implies has_id(
            sources,
            k,
            (#[trigger] now[i]).id,
        ) by {
            if i < before.len() {
                assert(has_id(sources, k - 1, before[i].id));
                let j = choose|j: int| 0 <= j < k - 1 && #[trigger] all[j] == before[i].id;
                assert(all[j] == now[i].id);
            } else {
                assert(all[k - 1] == now[i].id);
            }
        }
        if sources[k - 1].id != id {
            assert forall|i: int| 0 <= i < before.len() implies before[i].id != sources[k - 1].id by {
                assert(has_id(sources, k - 1, before[i].id));
                let j = choose|j: int| 0 <= j < k - 1 && #[trigger] all[j] == before[i].id;
                assert(all[j] != all[k - 1]);
            }
            assert(ids_of(now) =~= ids_of(before).push(sources[k - 1].id));
        }
    }
}

/// Lists of equal length describe the same images.
pub fn check_lists(ids: usize, widths: usize, heights: usize) -> (r: Result<(), EngineError>)
    ensures
        r == if ids != widths || ids != heights {
            Err::<(), EngineError>(EngineError::ListMismatch)
        } else {
            Ok(())
        },
{
    if ids != widths || ids != heights {
        Err(EngineError::ListMismatch)
    } else {
        Ok(())
    }
}

/// A rotation has nine elements.
pub fn check_rotation(len: usize) -> (r: Result<(), EngineError>)
    ensures
        r == if len != 9 {
            Err::<(), EngineError>(EngineError::RotationLength)
        } else {
            Ok(())
        },
{
    if len != 9 {
        Err(EngineError::RotationLength)
    } else {
        Ok(())
    }
}

/// Dropping alpha keeps red, green and blue of each pixel in their order.
pub proof fn lemma_without_alpha(rgba: Seq<u8>, i: int, c: int)
    requires
        0 <= i < rgba.len() / 4,
        0 <= c < 3,
    ensures
        without_alpha(rgba).len() == 3 * (rgba.len() / 4),
        without_alpha(rgba)[3 * i + c] == rgba[4 * i + c],
{
}

/// Removing an image removes those of its id and no others, which keep their
/// order: what stays of two lists is what stays of the one and then of the
/// other.
pub proof fn lemma_others<T>(a: Seq<Source<T>>, b: Seq<Source<T>>, id: u32, s: Source<T>)
    ensures
        others_until(a + b, id, (a + b).len() as int) == others_until(a, id, a.len() as int)
            + others_until(b, id, b.len() as int),
        others_until(seq![s], id, 1) == if s.id == id {
            Seq::empty()
        } else {
            seq![s]
        },
{
    reveal_with_fuel(others_until, 2);
    assert(Seq::<Source<T>>::empty().push(s) =~= seq![s]);
    lemma_others_both(a, b, id, b.len() as int);
}

proof fn lemma_others_both<T>(a: Seq<Source<T>>, b: Seq<Source<T>>, id: u32, k: int)
    requires
        0 <= k <= b.len(),
    ensures
        others_until(a + b, id, a.len() + k) == others_until(a, id, a.len() as int) + others_until(
            b,
            id,
            k,
        ),
    decreases k,
{
    let f = others_until(a, id, a.len() as int);
    if k > 0 {
        lemma_others_both(a, b, id, k - 1);
        assert((a + b)[a.len() + k - 1] == b[k - 1]);
        let g = others_until(b, id, k - 1);
        assert((f + g).push(b[k - 1]) =~= f + g.push(b[k - 1]));
    } else {
        lemma_others_start(a, b, id, a.len() as int);
        assert(f + Seq::<Source<T>>::empty() =~= f);
    }
}

proof fn lemma_others_start<T>(a: Seq<Source<T>>, b: Seq<Source<T>>, id: u32, k: int)
    requires
        0 <= k <= a.len(),
    ensures
        others_until(a + b, id, k) == others_until(a, id, k),
    decreases k,
{
    if k > 0 {
        lemma_others_start(a, b, id, k - 1);
        assert((a + b)[k - 1] == a[k - 1]);
    }
}

} // verus!
