//! Full-resolution export in bands: which images each band needs, what is
//! pasted where, and the finished picture as a JPEG.

use crate::ids::find_id;
use crate::ids::is_first_of;
use crate::imgproc::lemma_index;
use crate::imgproc::lemma_index_split;
use crate::imgproc::GrayImage;
use crate::layout::are_bands;
use crate::layout::canvas_bytes;
use crate::layout::canvas_limit;
use crate::layout::even_part;
use crate::layout::even_width;
use crate::layout::entries_fit;
use crate::layout::lemma_canvas_small;
use crate::layout::max_canvas_bytes;
use crate::layout::max_export_width;
use crate::layout::padded_top;
use crate::layout::plan_bands;
use crate::layout::Entry;
use crate::layout::ExportBand;
use crate::layout::ExportLayout;
use crate::layout::Host;
use crate::layout::BAND_PAD;
use crate::paste::layout_ok;
use crate::paste::paste_rows;
use crate::paste::pasted;
use crate::text::digits;
use crate::text::with_number;
use crate::text::with_text;
use crate::warp::PixelImage;
use std::collections::HashMap;
use vstd::math::max;
use vstd::math::min;
use vstd::prelude::*;

verus! {

broadcast use vstd::std_specs::hash::group_hash_axioms;

/// Why a picture could not be encoded.
#[derive(Debug, Clone, Copy, PartialEq, Eq, Structural)]
pub enum EncodeFault {
    BadImageData { length: usize, required: usize },
    ZeroImageDimensions { width: u16, height: u16 },
    Other,
}

/// A failed encoding, with what the encoder says of it.
#[derive(Debug)]
pub struct EncodeError {
    pub fault: EncodeFault,
    pub text: String,
}

/// Why an export could not go on.
#[derive(Debug)]
pub enum ExportError {
    MissingSource,
    MissingFullSize,
    CanvasTooLarge { width: usize, height: usize, limit: u64, fits: usize },
    UnknownImage,
    BandOutOfRange,
    NotLoaded(u32),
    BandsMissing,
    Encode(EncodeError),
}

/// The bytes of a JPEG file with the picture in `data`, three bytes a pixel.
pub uninterp spec fn jpeg_bytes(data: Seq<u8>, width: u16, height: u16, quality: u8) -> Seq<u8>;

/// `jpeg_encoder::Encoder::encode`, on an encoder that writes to memory with
/// the given quality, for RGB data. Fails where `data` is shorter than the
/// picture and where a side is zero, in that order, and nowhere else: writing
/// to memory does not fail. Which bytes it writes is left to its name, and
/// the text of an error is whatever the encoder says.
#[verifier::external_body]
fn jpeg_encode(data: &[u8], width: u16, height: u16, quality: u8) -> (r: Result<
    Vec<u8>,
    EncodeError,
>)
    requires
        width * height * 3 <= usize::MAX,
    ensures
        match r {
            Ok(bytes) => data@.len() >= width * height * 3 && width > 0 && height > 0 && bytes@
                == jpeg_bytes(data@, width, height, quality),
            Err(e) => match e.fault {
                EncodeFault::BadImageData { length, required } => length == data@.len()
                    && required == width * height * 3 && length < required,
                EncodeFault::ZeroImageDimensions { width: w, height: h } => w == width && h
                    == height && data@.len() >= width * height * 3 && (width == 0 || height == 0),
                EncodeFault::Other => false,
            },
        },
{
    let mut out = Vec::new();
    let encoder = jpeg_encoder::Encoder::new(&mut out, quality);
    match encoder.encode(data, width, height, jpeg_encoder::ColorType::Rgb) {
        Ok(()) => Ok(out),
        Err(e) => {
            let text = e.to_string();
            let fault = match e {
                jpeg_encoder::EncodingError::BadImageData { length, required } => EncodeFault::BadImageData { length, required },
                jpeg_encoder::EncodingError::ZeroImageDimensions { width, height } => EncodeFault::ZeroImageDimensions { width, height },
                _ => EncodeFault::Other,
            };
            Err(EncodeError { fault, text })
        },
    }
}

/// Tenths of a gibibyte in `bytes`, halves to the even neighbour.
pub open spec fn gib_tenths(bytes: int) -> int {
    let q = (10 * bytes) / 0x4000_0000;
    let r = (10 * bytes) % 0x4000_0000;
    if r > 0x2000_0000 || (r == 0x2000_0000 && q % 2 == 1) {
        q + 1
    } else {
        q
    }
}

/// `bytes` in gibibytes with one decimal.
pub open spec fn gib_text(bytes: int) -> Seq<char> {
    digits((gib_tenths(bytes) / 10) as nat) + "."@ + digits((gib_tenths(bytes) % 10) as nat)
}

/// A text followed by a number of gibibytes.
fn with_gib(before: String, bytes: u64) -> (s: String)
    ensures
        s@ == before@ + gib_text(bytes as int),
{
    let q: u64 = (10 * bytes as u128 / 0x4000_0000) as u64;
    let r: u64 = (10 * bytes as u128 % 0x4000_0000) as u64;
    let tenths: u64 = if r > 0x2000_0000 || (r == 0x2000_0000 && q % 2 == 1) {
        q + 1
    } else {
        q
    };
    let s = with_number(before, tenths / 10);
    let s = with_text(s, ".");
    let s = with_number(s, tenths % 10);
    assert(s@ =~= before@ + gib_text(bytes as int));
    s
}

impl ExportError {
    /// What to tell the user.
    pub open spec fn says(&self) -> Seq<char> {
        match *self {
            ExportError::MissingSource => "missing registration source"@,
            ExportError::MissingFullSize => "missing full size"@,
            ExportError::CanvasTooLarge { width, height, limit, fits } => "panorama would be "@ + digits(
                width as nat,
            ) + "x"@ + digits(height as nat) + " ("@ + gib_text(width * height * 4)
                + " GB), over the "@ + gib_text(limit as int)
                + " GB this build can address \u{2014} export at "@ + digits(fits as nat)
                + " px or less"@,
            ExportError::UnknownImage => "unknown image id"@,
            ExportError::BandOutOfRange => "band out of range"@,
            ExportError::NotLoaded(id) => "image "@ + digits(id as nat) + " not loaded"@,
            ExportError::BandsMissing => "not all bands composited"@,
            ExportError::Encode(e) => "jpeg encode: "@ + e.text@,
        }
    }

    /// What to tell the user.
    pub fn message(&self) -> (s: String)
        requires
            *self matches ExportError::CanvasTooLarge { width, height, .. } ==> width * height * 4
                <= u64::MAX,
        ensures
            s@ == self.says(),
    {
        match self {
            ExportError::MissingSource => "missing registration source".to_string(),
            ExportError::MissingFullSize => "missing full size".to_string(),
            ExportError::CanvasTooLarge { width, height, limit, fits } => {
                let (w, h) = (*width as u64, *height as u64);
                proof {
                    assert(0 <= w * h) by (nonlinear_arith);
                }
                let s = with_number("panorama would be ".to_string(), w);
                let s = with_number(with_text(s, "x"), h);
                let s = with_gib(with_text(s, " ("), w * h * 4);
                let s = with_gib(with_text(s, " GB), over the "), *limit);
                let s = with_text(s, " GB this build can address \u{2014} export at ");
                let s = with_text(with_number(s, *fits as u64), " px or less");
                assert(s@ =~= self.says());
                s
            },
            ExportError::UnknownImage => "unknown image id".to_string(),
            ExportError::BandOutOfRange => "band out of range".to_string(),
            ExportError::NotLoaded(id) => {
                let s = with_text(
                    with_number("image ".to_string(), *id as u64),
                    " not loaded",
                );
                assert(s@ =~= self.says());
                s
            },
            ExportError::BandsMissing => "not all bands composited".to_string(),
            ExportError::Encode(e) => with_text("jpeg encode: ".to_string(), e.text.as_str()),
        }
    }
}

/// The first `k` aligned images all have a source and a size.
pub open spec fn all_found(aligned: Seq<u32>, sources: Seq<u32>, sized: Seq<u32>, k: int) -> bool {
    forall|j: int|
        0 <= j < k ==> sources.contains(#[trigger] aligned[j]) && sized.contains(aligned[j])
}

/// Finds for each aligned image its place among the sources and among the
/// images whose full size is known.
pub fn pair_sources(aligned: &[u32], sources: &[u32], sized: &[u32]) -> (r: Result<
    Vec<(usize, usize)>,
    ExportError,
>)
    ensures
        match r {
            Ok(pairs) => {
                &&& pairs@.len() == aligned@.len()
                &&& forall|k: int|
                    0 <= k < pairs@.len() ==> {
                        &&& is_first_of(sources@, aligned@[k], (#[trigger] pairs@[k]).0 as int)
                        &&& is_first_of(sized@, aligned@[k], pairs@[k].1 as int)
                    }
            },
            Err(e) => exists|k: int|
                0 <= k < aligned@.len() && #[trigger] all_found(aligned@, sources@, sized@, k)
                    && if sources@.contains(aligned@[k]) {
                    !sized@.contains(aligned@[k]) && e is MissingFullSize
                } else {
                    e is MissingSource
                },
        },
{
    let mut pairs: Vec<(usize, usize)> = Vec::new();
    let mut k: usize = 0;
    while k < aligned.len()
        invariant
            k <= aligned@.len(),
            pairs@.len() == k,
            all_found(aligned@, sources@, sized@, k as int),
            forall|j: int|
                0 <= j < k ==> {
                    &&& is_first_of(sources@, aligned@[j], (#[trigger] pairs@[j]).0 as int)
                    &&& is_first_of(sized@, aligned@[j], pairs@[j].1 as int)
                },
        decreases aligned@.len() - k,
    {
        let s: usize = match find_id(sources, aligned[k]) {
            Some(s) => s,
            None => {
                return Err(ExportError::MissingSource);
            },
        };
        assert(sources@[s as int] == aligned@[k as int]);
        let f: usize = match find_id(sized, aligned[k]) {
            Some(f) => f,
            None => {
                return Err(ExportError::MissingFullSize);
            },
        };
        assert(sized@[f as int] == aligned@[k as int]);
        pairs.push((s, f));
        k = k + 1;
    }
    Ok(pairs)
}

/// The refusal of a canvas `canvas_w` columns wide, which names the widest one
/// that can be held.
pub open spec fn tells_what_fits(e: ExportError, canvas_w: int, host: Host) -> bool {
    &&& e matches ExportError::CanvasTooLarge { width, height, limit, fits }
    &&& width == canvas_w
    &&& height == canvas_w / 2
    &&& limit == canvas_limit(host)
    &&& fits % 2 == 0
    &&& canvas_bytes(fits as int) <= canvas_limit(host)
    &&& forall|wider: int|
        wider > fits && wider % 2 == 0 ==> #[trigger] canvas_bytes(wider) > canvas_limit(host)
}

/// Refuses a canvas too large to be held, and says which width would do.
pub fn check_canvas(canvas_w: usize, host: Host) -> (r: Result<(), ExportError>)
    ensures
        r is Ok <==> canvas_bytes(canvas_w as int) <= canvas_limit(host),
        r matches Err(e) ==> tells_what_fits(e, canvas_w as int, host),
{
    let height: usize = canvas_w / 2;
    let limit: u64 = max_canvas_bytes(host);
    if canvas_w > 200_000 {
        assert(canvas_w * (canvas_w / 2) * 4 > 32_000_000_000) by (nonlinear_arith)
            requires
                canvas_w > 200_000,
        ;
        return Err(
            ExportError::CanvasTooLarge {
                width: canvas_w,
                height,
                limit,
                fits: max_export_width(host),
            },
        );
    }
    assert(canvas_w * height <= 200_000 * 100_000) by (nonlinear_arith)
        requires
            canvas_w <= 200_000,
            height <= 100_000,
    ;
    let bytes: u64 = canvas_w as u64 * height as u64 * 4;
    if bytes > limit {
        return Err(
            ExportError::CanvasTooLarge {
                width: canvas_w,
                height,
                limit,
                fits: max_export_width(host),
            },
        );
    }
    Ok(())
}

/// A panorama being composed band by band.
pub struct Exporter {
    layout: ExportLayout,
    ids: Vec<u32>,
    entries: Vec<Entry>,
    bands: Vec<ExportBand>,
    canvas: Vec<u8>,
    covered: Vec<u8>,
    loaded: HashMap<u32, PixelImage>,
    bands_done: Vec<bool>,
}

/// What an export holds.
pub ghost struct ExportState {
    pub layout: ExportLayout,
    pub ids: Seq<u32>,
    pub entries: Seq<Entry>,
    pub bands: Seq<ExportBand>,
    /// Three bytes for each canvas pixel; none before the first band.
    pub canvas: Seq<u8>,
    /// One byte for each canvas pixel, not zero where it is covered.
    pub covered: Seq<u8>,
    pub loaded: Map<u32, PixelImage>,
    pub bands_done: Seq<bool>,
}

impl View for Exporter {
    type V = ExportState;

    closed spec fn view(&self) -> ExportState {
        ExportState {
            layout: self.layout,
            ids: self.ids@,
            entries: self.entries@,
            bands: self.bands@,
            canvas: self.canvas@,
            covered: self.covered@,
            loaded: self.loaded@,
            bands_done: self.bands_done@,
        }
    }
}

pub open spec fn all_done(done: Seq<bool>) -> bool {
    forall|b: int| 0 <= b < done.len() ==> #[trigger] done[b]
}

pub open spec fn none_done(done: Seq<bool>) -> bool {
    forall|b: int| 0 <= b < done.len() ==> !#[trigger] done[b]
}

/// Every image that band `b` needs is loaded.
pub open spec fn band_loaded(state: ExportState, b: int) -> bool {
    forall|k: int|
        0 <= k < state.bands[b].needed@.len() ==> state.loaded.contains_key(
            #[trigger] state.bands[b].needed@[k],
        )
}

/// `e` is why band `b` cannot be composed.
pub open spec fn band_refusal(state: ExportState, b: int, e: ExportError) -> bool {
    if b >= state.bands.len() {
        e is BandOutOfRange
    } else {
        exists|k: int|
            0 <= k < state.bands[b].needed@.len() && e == ExportError::NotLoaded(
                #[trigger] state.bands[b].needed@[k],
            ) && !state.loaded.contains_key(state.bands[b].needed@[k]) && forall|j: int|
                0 <= j < k ==> state.loaded.contains_key(#[trigger] state.bands[b].needed@[j])
    }
}

/// Band `b` can be composed.
pub open spec fn band_ready(state: ExportState, b: int) -> bool {
    b < state.bands.len() && band_loaded(state, b)
}

/// Last row of band `b` with its padding.
pub open spec fn padded_bottom(state: ExportState, b: int) -> int {
    min(state.bands[b].y1 + BAND_PAD, state.layout.canvas_h as int)
}

/// An export whose parts fit together.
pub open spec fn state_ok(s: ExportState) -> bool {
    let pixels = s.layout.canvas_w * s.layout.canvas_h;
    &&& layout_ok(s.layout)
    &&& s.layout.rows.0 <= s.layout.rows.1 <= s.layout.canvas_h
    &&& s.layout.crop.0 + s.layout.crop.2 <= s.layout.canvas_w
    &&& s.layout.crop.1 == s.layout.rows.0
    &&& s.layout.crop.3 == max(1, s.layout.rows.1 - s.layout.rows.0)
    &&& are_bands(s.bands, s.layout.rows, s.entries, s.ids)
    &&& s.bands_done.len() == s.bands.len()
    &&& if s.canvas.len() == 0 {
        none_done(s.bands_done) && s.covered.len() == 0
    } else {
        s.canvas.len() == pixels * 3 && s.covered.len() == pixels
    }
}

/// The canvas that a band is pasted on: what there is, or an empty one.
pub open spec fn canvas_of(s: ExportState) -> Seq<u8> {
    if s.canvas.len() == 0 {
        Seq::new((s.layout.canvas_w * s.layout.canvas_h * 3) as nat, |i: int| 0u8)
    } else {
        s.canvas
    }
}

/// The coverage that a band is pasted on.
pub open spec fn covered_of(s: ExportState) -> Seq<u8> {
    if s.canvas.len() == 0 {
        Seq::new((s.layout.canvas_w * s.layout.canvas_h) as nat, |i: int| 0u8)
    } else {
        s.covered
    }
}

impl Exporter {
    /// The parts of the export fit together.
    pub open spec fn wf(&self) -> bool {
        state_ok(self@)
    }

    /// Plans an export of a panorama `width` columns round. The canvas is the
    /// widest that is twice as wide as high, and its left edge is strip column
    /// `off_x`. `rows` holds for each entry the first row that
    /// its seam mask covers and the row behind the last, from the entry's top.
    pub fn new(
        width: usize,
        off_x: i32,
        ids: Vec<u32>,
        entries: Vec<Entry>,
        rows: &[Option<(i32, i32)>],
        host: Host,
    ) -> (r: Result<Self, ExportError>)
        requires
            width >= 2,
            entries_fit(entries@, off_x as int),
            forall|i: int|
                0 <= i < entries@.len() ==> (#[trigger] entries@[i]).src_idx < ids@.len(),
            rows@.len() == entries@.len(),
            forall|i: int|
                0 <= i < entries@.len() && (#[trigger] rows@[i]) is Some ==> {
                    &&& i32::MIN <= entries@[i].roi.1 + (rows@[i]->0).0 <= i32::MAX
                    &&& i32::MIN <= entries@[i].roi.1 + (rows@[i]->0).1 <= i32::MAX
                },
            exists|i: int| 0 <= i < entries@.len() && !(#[trigger] entries@[i]).dup,
            exists|i: int| 0 <= i < entries@.len() && (#[trigger] entries@[i]).roi.2 > 0,
            forall|i: int, j: int|
                0 <= i < entries@.len() && 0 <= j < entries@.len() ==> ((#[trigger] entries@[i]).right()
                    - (#[trigger] entries@[j]).roi.0) * (width / 2) <= usize::MAX,
        ensures
            r is Ok <==> canvas_bytes(even_part(width as int)) <= canvas_limit(host),
            r matches Ok(e) ==> {
                &&& e.wf()
                &&& e@.layout.is_for(even_part(width as int), off_x as int, entries@, rows@)
                &&& e@.layout.canvas_w == 2 * e@.layout.canvas_h
                &&& e@.ids == ids@
                &&& e@.entries == entries@
                &&& e@.canvas.len() == 0
                &&& e@.loaded == Map::<u32, PixelImage>::empty()
                &&& none_done(e@.bands_done)
            },
            r matches Err(e) ==> tells_what_fits(e, even_part(width as int), host),
    {
        let canvas_w: usize = even_width(width);
        if let Err(e) = check_canvas(canvas_w, host) {
            return Err(e);
        }
        let layout = ExportLayout::plan(canvas_w, off_x, entries.as_slice(), rows);
        proof {
            lemma_canvas_small(canvas_w as int);
            lemma_layout_ok(layout, canvas_w as int, off_x as int, entries@, rows@);
        }
        let bands = plan_bands(layout.rows, entries.as_slice(), ids.as_slice());
        let mut bands_done: Vec<bool> = Vec::new();
        while bands_done.len() < bands.len()
            invariant
                bands_done@.len() <= bands@.len(),
                none_done(bands_done@),
            decreases bands@.len() - bands_done@.len(),
        {
            bands_done.push(false);
        }
        Ok(
            Exporter {
                layout,
                ids,
                entries,
                bands,
                canvas: Vec::new(),
                covered: Vec::new(),
                loaded: HashMap::new(),
                bands_done,
            },
        )
    }

    /// Width and height of the canvas.
    pub fn canvas_size(&self) -> (r: (usize, usize))
        ensures
            r == (self@.layout.canvas_w, self@.layout.canvas_h),
    {
        (self.layout.canvas_w, self.layout.canvas_h)
    }

    /// Part of the canvas that the picture spans: left, top, width, height.
    pub fn crop(&self) -> (r: (usize, usize, usize, usize))
        ensures
            r == self@.layout.crop,
    {
        self.layout.crop
    }

    pub fn bands(&self) -> (r: &[ExportBand])
        ensures
            r@ == self@.bands,
    {
        self.bands.as_slice()
    }

    pub fn layout(&self) -> (r: &ExportLayout)
        ensures
            *r == self@.layout,
    {
        &self.layout
    }

    pub fn entries(&self) -> (r: &[Entry])
        ensures
            r@ == self@.entries,
    {
        self.entries.as_slice()
    }

    /// The loaded full-resolution image `id`.
    pub fn full_image(&self, id: u32) -> (r: Option<&PixelImage>)
        ensures
            match r {
                Some(img) => self@.loaded.contains_key(id) && *img == self@.loaded[id],
                None => !self@.loaded.contains_key(id),
            },
    {
        self.loaded.get(&id)
    }

    /// Loads a full-resolution image.
    pub fn set_full_image(&mut self, id: u32, img: PixelImage) -> (r: Result<(), ExportError>)
        ensures
            match r {
                Ok(_) => old(self)@.ids.contains(id) && final(self)@ == (ExportState {
                    loaded: old(self)@.loaded.insert(id, img),
                    ..old(self)@
                }),
                Err(e) => !old(self)@.ids.contains(id) && e is UnknownImage && final(self)@ == old(
                    self,
                )@,
            },
    {
        if find_id(self.ids.as_slice(), id).is_none() {
            return Err(ExportError::UnknownImage);
        }
        self.loaded.insert(id, img);
        Ok(())
    }

    /// Forgets a full-resolution image.
    pub fn drop_full_image(&mut self, id: u32)
        ensures
            final(self)@ == (ExportState { loaded: old(self)@.loaded.remove(id), ..old(self)@ }),
    {
        self.loaded.remove(&id);
    }

    /// Rows that band `b` is blended in, with its padding.
    pub fn band_window(&self, b: usize) -> (r: Result<(usize, usize), ExportError>)
        requires
            self.wf(),
        ensures
            r is Ok <==> band_ready(self@, b as int),
            match r {
                Ok((py0, py1)) => {
                    &&& py0 == padded_top(self@.bands[b as int].y0 as int)
                    &&& py1 == padded_bottom(self@, b as int)
                    &&& py0 <= self@.bands[b as int].y0 < self@.bands[b as int].y1 <= py1
                },
                Err(e) => band_refusal(self@, b as int, e),
            },
    {
        if b >= self.bands.len() {
            return Err(ExportError::BandOutOfRange);
        }
        let ghost state = self@;
        assert(state.bands[b as int] == self.bands@[b as int]);
        let band = &self.bands[b];
        let mut k: usize = 0;
        while k < band.needed.len()
            invariant
                state == self@,
                b < self.bands@.len(),
                *band == state.bands[b as int],
                k <= band.needed@.len(),
                forall|j: int|
                    0 <= j < k ==> state.loaded.contains_key(
                        #[trigger] state.bands[b as int].needed@[j],
                    ),
            decreases band.needed@.len() - k,
        {
            let id: u32 = band.needed[k];
            if !self.loaded.contains_key(&id) {
                assert(state.bands[b as int].needed@[k as int] == id);
                return Err(ExportError::NotLoaded(id));
            }
            k = k + 1;
        }
        proof {
            assert(state.bands[b as int].y0 == state.layout.rows.0 + 768 * b);
        }
        let py0: usize = if band.y0 > BAND_PAD {
            band.y0 - BAND_PAD
        } else {
            0
        };
        let py1: usize = if band.y1 + BAND_PAD < self.layout.canvas_h {
            band.y1 + BAND_PAD
        } else {
            self.layout.canvas_h
        };
        Ok((py0, py1))
    }

    /// Rows of entry `e`, from its top, that lie in rows `py0..py1`.
    pub fn entry_rows(&self, e: usize, py0: usize, py1: usize) -> (r: Option<(usize, usize)>)
        requires
            e < self@.entries.len(),
            py0 <= py1 <= i32::MAX,
            self@.entries[e as int].roi.3 >= 0,
        ensures
            ({
                let roi = self@.entries[e as int].roi;
                let lo = max(0, py0 - roi.1);
                let hi = min(py1 - roi.1, roi.3 as int);
                match r {
                    Some((a, b)) => a == lo && b == hi && lo < hi,
                    None => lo >= hi,
                }
            }),
    {
        let roi = self.entries[e].roi;
        let lo: i64 = py0 as i64 - roi.1 as i64;
        let hi: i64 = py1 as i64 - roi.1 as i64;
        let a: i64 = if lo > 0 {
            lo
        } else {
            0
        };
        let b: i64 = if hi < roi.3 as i64 {
            hi
        } else {
            roi.3 as i64
        };
        if a < b {
            Some((a as usize, b as usize))
        } else {
            None
        }
    }

    /// Pastes band `b`, blended with its padding, onto the canvas.
    pub fn composite_band(&mut self, b: usize, blended: &[u8], coverage: &GrayImage) -> (r: Result<
        (),
        ExportError,
    >)
        requires
            old(self).wf(),
            coverage.wf(),
            band_ready(old(self)@, b as int) ==> {
                &&& old(self)@.layout.canvas_w * old(self)@.layout.canvas_h * 3 <= usize::MAX
                &&& coverage.width == old(self)@.layout.strip.2
                &&& coverage.height == padded_bottom(old(self)@, b as int) - padded_top(
                    old(self)@.bands[b as int].y0 as int,
                )
                &&& blended@.len() == coverage.width * coverage.height * 3
            },
        ensures
            final(self).wf(),
            r is Ok <==> band_ready(old(self)@, b as int),
            match r {
                Ok(_) => {
                    let (s0, s1) = (old(self)@, final(self)@);
                    &&& pasted(
                        s0.layout,
                        coverage,
                        blended@,
                        padded_top(s0.bands[b as int].y0 as int),
                        s0.bands[b as int].y0 as int,
                        s0.bands[b as int].y1 as int,
                        0,
                        canvas_of(s0),
                        covered_of(s0),
                        s1.canvas,
                        s1.covered,
                    )
                    &&& s1 == (ExportState {
                        canvas: s1.canvas,
                        covered: s1.covered,
                        bands_done: s0.bands_done.update(b as int, true),
                        ..s0
                    })
                },
                Err(e) => band_refusal(old(self)@, b as int, e) && final(self)@ == old(self)@,
            },
    {
        let (py0, _py1) = match self.band_window(b) {
            Ok(w) => w,
            Err(e) => {
                return Err(e);
            },
        };
        let ghost s0 = self@;
        let w: usize = self.layout.canvas_w;
        let h: usize = self.layout.canvas_h;
        proof {
            lemma_canvas_nonempty(self.layout);
            assert(self@.bands[b as int] == self.bands@[b as int]);
            assert(s0.bands[b as int].y0 == s0.layout.rows.0 + 768 * b);
        }
        if self.canvas.len() == 0 {
            self.canvas = vec![0u8; w * h * 3];
            self.covered = vec![0u8; w * h];
            proof {
                assert(self.canvas@ =~= canvas_of(s0));
                assert(self.covered@ =~= covered_of(s0));
            }
        }
        let y0: usize = self.bands[b].y0;
        let y1: usize = self.bands[b].y1;
        paste_rows(
            &self.layout,
            coverage,
            blended,
            py0,
            y0,
            y1,
            &mut self.canvas,
            &mut self.covered,
        );
        self.bands_done.set(b, true);
        Ok(())
    }
}

proof fn lemma_canvas_nonempty(l: ExportLayout)
    requires
        layout_ok(l),
    ensures
        1 <= l.canvas_w * l.canvas_h,
{
    assert(1 <= l.canvas_w * l.canvas_h) by (nonlinear_arith)
        requires
            2 <= l.canvas_w,
            l.canvas_w == 2 * l.canvas_h,
    ;
}

/// A layout has the sizes that pasting relies on.
proof fn lemma_layout_ok(
    l: ExportLayout,
    canvas_w: int,
    off_x: int,
    entries: Seq<Entry>,
    rows: Seq<Option<(i32, i32)>>,
)
    requires
        2 <= canvas_w <= 130_000,
        canvas_w % 2 == 0,
        l.is_for(canvas_w, off_x, entries, rows),
        entries_fit(entries, off_x),
        entries.len() >= 1,
    ensures
        layout_ok(l),
        l.rows.0 <= l.rows.1 <= l.canvas_h,
        l.crop.0 + l.crop.2 <= l.canvas_w,
{
    let a = choose|i: int| 0 <= i < entries.len() && (#[trigger] entries[i]).right() == l.strip.0
        + l.strip.2;
    let b = choose|i: int| 0 <= i < entries.len() && (#[trigger] entries[i]).roi.0 == l.strip.0;
    assert(entries[a].right() - entries[b].roi.0 <= i32::MAX);
    if crate::layout::wraps(entries) {
        let k = choose|k: int|
            0 <= k < entries.len() && (#[trigger] entries[k]).dup && l.ext_start == entries[k].roi.0
                - l.strip.0;
        assert(l.strip.0 <= entries[k].roi.0 && entries[k].right() <= l.strip.0 + l.strip.2);
        assert(0 <= entries[k].roi.2);
    }
}

/// Byte `ch` of the pixel in column `x` of the row that starts at `row`.
pub open spec fn row_byte(canvas: Seq<u8>, row: int, x: int, ch: int) -> int {
    canvas[(row + x) * 3 + ch] as int
}

/// Byte `b` of a canvas whose ends have been matched. An uncovered first
/// column is rebuilt from its neighbours round the sphere, as far as they are
/// covered; where both ends are covered they take their mean.
pub open spec fn matched_byte(canvas: Seq<u8>, covered: Seq<u8>, w: int, b: int) -> int {
    let row = ((b / 3) / w) * w;
    let x = (b / 3) % w;
    let ch = b % 3;
    let (first, second, last) = (covered[row] != 0, covered[row + 1] != 0, covered[row + w - 1] != 0);
    let at = |i: int| row_byte(canvas, row, i, ch);
    if w < 3 {
        at(x)
    } else if first && last && (x == 0 || x == w - 1) {
        (at(0) + at(w - 1)) / 2
    } else if !first && x == 0 {
        if second && last {
            (at(1) + at(w - 1)) / 2
        } else if second {
            at(1)
        } else if last {
            at(w - 1)
        } else {
            at(0)
        }
    } else {
        at(x)
    }
}

/// The mean of two bytes, rounded down.
fn mean(a: u8, b: u8) -> (m: u8)
    ensures
        m == (a + b) / 2,
{
    ((a as u16 + b as u16) / 2) as u8
}

/// Matches the ends of every row.
#[verifier::spinoff_prover]
#[verifier::rlimit(60)]
fn match_ends(canvas: &mut Vec<u8>, covered: &Vec<u8>, w: usize, h: usize)
    requires
        w >= 1,
        covered@.len() == w * h,
        old(canvas)@.len() == w * h * 3,
    ensures
        final(canvas)@.len() == old(canvas)@.len(),
        forall|b: int|
            0 <= b < final(canvas)@.len() ==> #[trigger] final(canvas)@[b] == matched_byte(
                old(canvas)@,
                covered@,
                w as int,
                b,
            ),
{
    let ghost c0 = canvas@;
    if w < 3 {
        proof {
            assert forall|b: int| 0 <= b < canvas@.len() implies #[trigger] canvas@[b] == matched_byte(
                c0,
                covered@,
                w as int,
                b,
            ) by {
                lemma_byte_place(b, w as int, h as int);
            }
        }
        return;
    }
    let mut y: usize = 0;
    while y < h
        invariant
            w >= 3,
            y <= h,
            covered@.len() == w * h,
            c0.len() == w * h * 3,
            canvas@.len() == c0.len(),
            forall|b: int|
                0 <= b < canvas@.len() ==> #[trigger] canvas@[b] == if (b / 3) / (w as int) < y {
                    matched_byte(c0, covered@, w as int, b)
                } else {
                    c0[b] as int
                },
        decreases h - y,
    {
        proof {
            lemma_index(w - 1, y as int, w as int, h as int);
            assert(covered@.len() == covered.len());
            assert(canvas@.len() == canvas.len());
        }
        let row: usize = y * w;
        let first: bool = covered[row] != 0;
        let second: bool = covered[row + 1] != 0;
        let last: bool = covered[row + (w - 1)] != 0;
        let ghost before = canvas@;
        let mut ch: usize = 0;
        while ch < 3
            invariant
                w >= 3,
                y < h,
                ch <= 3,
                row == y * w,
                row + w <= covered@.len(),
                covered@.len() == w * h,
                c0.len() == w * h * 3,
                canvas@.len() == c0.len(),
                canvas@.len() == canvas.len(),
                before.len() == c0.len(),
                first == (covered@[row as int] != 0),
                second == (covered@[row + 1] != 0),
                last == (covered@[row + w - 1] != 0),
                forall|b: int|
                    0 <= b < before.len() ==> #[trigger] before[b] == if (b / 3) / (w as int) < y {
                        matched_byte(c0, covered@, w as int, b)
                    } else {
                        c0[b] as int
                    },
                forall|b: int|
                    0 <= b < canvas@.len() ==> #[trigger] canvas@[b] == if (b / 3) / (w as int)
                        == y && b % 3 < ch {
                        matched_byte(c0, covered@, w as int, b)
                    } else {
                        before[b] as int
                    },
            decreases 3 - ch,
        {
            let a: usize = row * 3 + ch;
            let l: usize = (row + 1) * 3 + ch;
            let r: usize = (row + (w - 1)) * 3 + ch;
            proof {
                lemma_row_places(y as int, w as int, h as int, ch as int);
            }
            let ghost c1 = canvas@;
            assert(c1[a as int] == c0[a as int]);
            assert(c1[l as int] == c0[l as int]);
            assert(c1[r as int] == c0[r as int]);
            if !first {
                if second && last {
                    let v: u8 = mean(canvas[l], canvas[r]);
                    canvas.set(a, v);
                } else if second {
                    let v: u8 = canvas[l];
                    canvas.set(a, v);
                } else if last {
                    let v: u8 = canvas[r];
                    canvas.set(a, v);
                }
            } else if last {
                let v: u8 = mean(canvas[a], canvas[r]);
                canvas.set(a, v);
                canvas.set(r, v);
            }
            proof {
                assert forall|b: int| 0 <= b < canvas@.len() implies #[trigger] canvas@[b] == if (b
                    / 3) / (w as int) == y && b % 3 < ch + 1 {
                    matched_byte(c0, covered@, w as int, b)
                } else {
                    before[b] as int
                } by {
                    lemma_byte_place(b, w as int, h as int);
                    if (b / 3) / (w as int) == y && b % 3 == ch {
                        let x = (b / 3) % (w as int);
                        assert(c1[b] == before[b]);
                        assert(before[b] == c0[b]);
                        if x == 0 {
                            assert(b == a);
                        } else if x == w - 1 {
                            assert(b == r);
                        } else {
                            assert(b != a && b != r);
                        }
                    } else {
                        assert(b != a && b != r);
                        assert(canvas@[b] == c1[b]);
                    }
                }
            }
            ch = ch + 1;
        }
        proof {
            assert forall|b: int| 0 <= b < canvas@.len() implies #[trigger] canvas@[b] == if (b / 3)
                / (w as int) < y + 1 {
                matched_byte(c0, covered@, w as int, b)
            } else {
                c0[b] as int
            } by {
                assert(before[b] == if (b / 3) / (w as int) < y {
                    matched_byte(c0, covered@, w as int, b)
                } else {
                    c0[b] as int
                });
                assert(b % 3 < 3);
            }
        }
        y = y + 1;
    }
    proof {
        assert forall|b: int| 0 <= b < canvas@.len() implies #[trigger] canvas@[b] == matched_byte(
            c0,
            covered@,
            w as int,
            b,
        ) by {
            lemma_byte_place(b, w as int, h as int);
        }
    }
}

/// Row, column and component are recovered from a byte's place.
proof fn lemma_byte_place(b: int, w: int, h: int)
    requires
        w >= 1,
        0 <= b < w * h * 3,
    ensures
        0 <= (b / 3) / w < h,
        0 <= (b / 3) % w < w,
        b == (((b / 3) / w) * w + (b / 3) % w) * 3 + b % 3,
{
    let q = b / 3;
    vstd::arithmetic::div_mod::lemma_fundamental_div_mod(q, w);
    assert(w * (q / w) == (q / w) * w) by (nonlinear_arith);
    assert(q < w * h);
    assert(q / w < h) by (nonlinear_arith)
        requires
            q < w * h,
            q == w * (q / w) + q % w,
            q % w >= 0,
            w >= 1,
    ;
    assert(0 <= q / w) by (nonlinear_arith)
        requires
            q >= 0,
            w >= 1,
    ;
}

/// The first, second and last pixel of a row lie in it.
proof fn lemma_row_places(y: int, w: int, h: int, ch: int)
    requires
        w >= 3,
        0 <= y < h,
        0 <= ch < 3,
    ensures
        forall|x: int|
            0 <= x < w ==> {
                let b = #[trigger] byte_at(y, w, x, ch);
                &&& 0 <= b < w * h * 3
                &&& (b / 3) / w == y
                &&& (b / 3) % w == x
                &&& b % 3 == ch
            },
        byte_at(y, w, 0, ch) == y * w * 3 + ch,
        byte_at(y, w, 1, ch) == (y * w + 1) * 3 + ch,
        byte_at(y, w, w - 1, ch) == (y * w + (w - 1)) * 3 + ch,
{
    assert forall|x: int| 0 <= x < w implies {
        let b = #[trigger] byte_at(y, w, x, ch);
        &&& 0 <= b < w * h * 3
        &&& (b / 3) / w == y
        &&& (b / 3) % w == x
        &&& b % 3 == ch
    } by {
        lemma_index(x, y, w, h);
        lemma_index_split(x, y, w);
        let q = y * w + x;
        assert((q * 3 + ch) / 3 == q);
    }
}

spec fn byte_at(y: int, w: int, x: int, ch: int) -> int {
    (y * w + x) * 3 + ch
}

/// The finished picture: the part of the canvas that is kept, once the ends
/// of its rows have been matched.
pub open spec fn picture_of(s: ExportState) -> Seq<u8> {
    let (x, y, cw, ch) = s.layout.crop;
    let w = s.layout.canvas_w as int;
    Seq::new(
        (cw * ch * 3) as nat,
        |i: int|
            {
                let (row, col) = ((i / 3) / (cw as int), (i / 3) % (cw as int));
                matched_byte(
                    s.canvas,
                    s.covered,
                    w,
                    ((y + row) * w + x + col) * 3 + i % 3,
                ) as u8
            },
    )
}

/// The low 16 bits of a number.
pub open spec fn low_word(n: usize) -> u16 {
    (n % 0x1_0000) as u16
}

impl Exporter {
    /// The finished picture, three bytes a pixel.
    #[verifier::spinoff_prover]
    #[verifier::rlimit(40)]
    pub fn picture(self) -> (data: Vec<u8>)
        requires
            self.wf(),
            self@.bands.len() > 0,
            all_done(self@.bands_done),
        ensures
            data@ == picture_of(self@),
    {
        let ghost s = self@;
        let w: usize = self.layout.canvas_w;
        let h: usize = self.layout.canvas_h;
        let (cx, cy, cw, ch) = self.layout.crop;
        proof {
            lemma_canvas_nonempty(self.layout);
            assert(s.bands_done[0]);
            assert(s.canvas.len() == w * h * 3);
            assert(self.canvas@.len() == self.canvas.len());
            assert(s.layout.rows.0 < s.layout.rows.1) by {
                if s.layout.rows.0 == s.layout.rows.1 {
                    assert((s.layout.rows.1 - s.layout.rows.0 + 768 - 1) / 768 == 0);
                }
            }
            assert(cy + ch <= h);
        }
        let mut canvas: Vec<u8> = self.canvas;
        match_ends(&mut canvas, &self.covered, w, h);
        let mut data: Vec<u8> = Vec::new();
        let mut r: usize = 0;
        while r < ch
            invariant
                s == self@,
                (cx, cy, cw, ch) == s.layout.crop,
                w == s.layout.canvas_w,
                h == s.layout.canvas_h,
                w * h * 3 <= usize::MAX,
                canvas@.len() == w * h * 3,
                s.canvas.len() == w * h * 3,
                forall|b: int|
                    0 <= b < canvas@.len() ==> #[trigger] canvas@[b] == matched_byte(
                        s.canvas,
                        s.covered,
                        w as int,
                        b,
                    ),
                w >= 1,
                cx + cw <= w,
                cy + ch <= h,
                r <= ch,
                data@.len() == r * cw * 3,
                picture_of(s).len() == cw * ch * 3,
                r * cw * 3 <= cw * ch * 3,
                forall|i: int| 0 <= i < data@.len() ==> #[trigger] data@[i] == picture_of(s)[i],
            decreases ch - r,
        {
            let mut i: usize = 0;
            proof {
                assert(r * cw * 3 + cw * 3 == (r + 1) * cw * 3) by (nonlinear_arith);
                assert((r + 1) * cw <= cw * ch) by (nonlinear_arith)
                    requires
                        0 <= r < ch,
                        cw >= 0,
                ;
                lemma_index(w - 1, cy + r, w as int, h as int);
                assert(cw * 3 <= w * 3 <= usize::MAX);
            }
            while i < cw * 3
                invariant
                    s == self@,
                    (cx, cy, cw, ch) == s.layout.crop,
                    w == s.layout.canvas_w,
                    h == s.layout.canvas_h,
                    w * h * 3 <= usize::MAX,
                    canvas@.len() == w * h * 3,
                    s.canvas.len() == w * h * 3,
                    forall|b: int|
                        0 <= b < canvas@.len() ==> #[trigger] canvas@[b] == matched_byte(
                            s.canvas,
                            s.covered,
                            w as int,
                            b,
                        ),
                    w >= 1,
                    cx + cw <= w,
                    cy + ch <= h,
                    r < ch,
                    cw * 3 <= usize::MAX,
                    i <= cw * 3,
                    (r + 1) * cw * 3 <= cw * ch * 3,
                    r * cw * 3 + cw * 3 == (r + 1) * cw * 3,
                    (cy + r) * w + w <= w * h,
                    0 <= (cy + r) * w,
                    data@.len() == r * cw * 3 + i,
                    picture_of(s).len() == cw * ch * 3,
                    forall|k: int| 0 <= k < data@.len() ==> #[trigger] data@[k] == picture_of(s)[k],
                decreases cw * 3 - i,
            {
                let src: usize = ((cy + r) * w + cx) * 3 + i;
                proof {
                    let p = r * cw * 3 + i;
                    let (px, c) = (i / 3, i % 3);
                    lemma_index_split(px as int, r as int, cw as int);
                    assert(p == (r * cw + px) * 3 + c) by (nonlinear_arith)
                        requires
                            p == r * cw * 3 + i,
                            i == px * 3 + c,
                    ;
                    assert(p / 3 == r * cw + px && p % 3 == c);
                    assert(src == ((cy + r) * w + cx + px) * 3 + c) by (nonlinear_arith)
                        requires
                            src == ((cy + r) * w + cx) * 3 + i,
                            i == px * 3 + c,
                    ;
                    assert(picture_of(s)[p] == matched_byte(
                        s.canvas,
                        s.covered,
                        w as int,
                        src as int,
                    ) as u8);
                }
                data.push(canvas[src]);
                i = i + 1;
            }
            r = r + 1;
        }
        assert(data@ =~= picture_of(s)) by {
            assert(ch * cw == cw * ch) by (nonlinear_arith);
        }
        data
    }

    /// Matches the ends of the finished canvas and encodes what is kept of it
    /// as a JPEG. Gives its bytes, and the width and height of what is kept.
    /// The encoder counts sides in 16 bits, so of a longer side only its low
    /// word is encoded. Fails where a band is missing and where nothing is
    /// left to encode.
    pub fn finish(self, quality: u8) -> (r: Result<(Vec<u8>, usize, usize), ExportError>)
        requires
            self.wf(),
            self@.bands.len() > 0,
        ensures
            ({
                let (x, y, cw, ch) = self@.layout.crop;
                let (jw, jh) = (low_word(cw), low_word(ch));
                if !all_done(self@.bands_done) {
                    r matches Err(e) && e is BandsMissing
                } else if jw == 0 || jh == 0 {
                    r matches Err(ExportError::Encode(why)) && why.fault
                        == (EncodeFault::ZeroImageDimensions { width: jw, height: jh })
                } else {
                    r matches Ok((bytes, width, height)) && width == cw && height == ch && bytes@
                        == jpeg_bytes(picture_of(self@), jw, jh, quality)
                }
            }),
    {
        let mut b: usize = 0;
        while b < self.bands_done.len()
            invariant
                b <= self.bands_done@.len(),
                forall|k: int| 0 <= k < b ==> #[trigger] self.bands_done@[k],
            decreases self.bands_done@.len() - b,
        {
            if !self.bands_done[b] {
                assert(!self@.bands_done[b as int]);
                return Err(ExportError::BandsMissing);
            }
            b = b + 1;
        }
        let (_, _, cw, ch) = self.layout.crop;
        let data = self.picture();
        let (w16, h16) = (#[verifier::truncate] (cw as u16), #[verifier::truncate] (ch as u16));
        proof {
            assert(data@.len() == data.len());
            assert(cw as u16 == cw % 0x1_0000) by (bit_vector);
            assert(ch as u16 == ch % 0x1_0000) by (bit_vector);
            assert(w16 * h16 <= cw * ch) by (nonlinear_arith)
                requires
                    0 <= w16 <= cw,
                    0 <= h16 <= ch,
            ;
        }
        match jpeg_encode(data.as_slice(), w16, h16, quality) {
            Ok(bytes) => Ok((bytes, cw, ch)),
            Err(e) => Err(ExportError::Encode(e)),
        }
    }
}

/// Where both ends of a row are covered, the finished picture goes round
/// without a step: its first and last column are equal.
pub proof fn lemma_ends_match(canvas: Seq<u8>, covered: Seq<u8>, w: int, h: int, y: int, ch: int)
    requires
        w >= 3,
        0 <= y < h,
        0 <= ch < 3,
        covered[y * w] != 0,
        covered[y * w + w - 1] != 0,
    ensures
        matched_byte(canvas, covered, w, (y * w) * 3 + ch) == matched_byte(
            canvas,
            covered,
            w,
            (y * w + w - 1) * 3 + ch,
        ),
{
    lemma_row_places(y, w, h, ch);
    let (a, b) = (byte_at(y, w, 0, ch), byte_at(y, w, w - 1, ch));
    assert((a / 3) % w == 0 && (a / 3) / w == y && a % 3 == ch);
    assert((b / 3) % w == w - 1 && (b / 3) / w == y && b % 3 == ch);
}

/// Sizes are told in tenths of a gigabyte of `2^30` bytes, to the nearest.
pub proof fn lemma_gib(bytes: int)
    requires
        bytes >= 0,
    ensures
        -0x2000_0000 <= 10 * bytes - gib_tenths(bytes) * 0x4000_0000 <= 0x2000_0000,
{
}

} // verus!
