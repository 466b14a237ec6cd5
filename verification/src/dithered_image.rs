//! The dithered-image state: working buffers, palette and override table.
//!
//! Two dithered buffers coexist: the untouched result of the last full
//! diffusion pass (the pure buffer) and the displayed buffer. Every
//! override re-colors the pure buffer from scratch, so overrides compose
//! without re-running diffusion and without accumulating drift.

use vstd::prelude::*;
use crate::dither::{dither_fs_palette_rgba16_to_rgba8, dither_fs_spec};
use crate::image_utils::{
    build_palette_median_cut_rgba16, build_palette_spec, lemma_build_palette_nonempty,
    resize_interleaved_nearest, resize_src_index,
};
use crate::rgb16::{
    lemma_pack_rgb_injective, pack_rgb, pack_rgb_spec, proj8_spec, rgb16_to_u8_exact, rgba8_to_rgba16,
    Rgb16,
};

verus! {

/// The first palette index whose 8-bit projection equals the given RGB
/// triple, if any: on a projection collision the earliest index wins.
pub open spec fn find_proj_index(pal: Seq<Rgb16>, rgb: (u8, u8, u8)) -> Option<int>
    decreases pal.len(),
{
    if pal.len() == 0 {
        None
    } else if proj8_spec(pal[0]) == rgb {
        Some(0int)
    } else {
        match find_proj_index(pal.drop_first(), rgb) {
            None => None,
            Some(i) => Some(i + 1),
        }
    }
}

/// What the first-match lookup means index by index.
pub proof fn lemma_find_proj_index(pal: Seq<Rgb16>, rgb: (u8, u8, u8))
    ensures
        find_proj_index(pal, rgb) is None ==> forall|j: int|
            0 <= j < pal.len() ==> proj8_spec(#[trigger] pal[j]) != rgb,
        find_proj_index(pal, rgb) matches Some(i) ==> {
            &&& 0 <= i < pal.len()
            &&& proj8_spec(pal[i]) == rgb
            &&& forall|j: int| 0 <= j < i ==> proj8_spec(#[trigger] pal[j]) != rgb
        },
    decreases pal.len(),
{
    if pal.len() > 0 && proj8_spec(pal[0]) != rgb {
        let d = pal.drop_first();
        lemma_find_proj_index(d, rgb);
        if find_proj_index(pal, rgb) is None {
            assert forall|j: int| 0 <= j < pal.len() implies proj8_spec(#[trigger] pal[j])
                != rgb by {
                if j >= 1 {
                    assert(d[j - 1] == pal[j]);
                }
            }
        } else {
            let i = find_proj_index(pal, rgb)->Some_0;
            assert(pal[i] == d[i - 1]);
            assert forall|j: int| 0 <= j < i implies proj8_spec(#[trigger] pal[j]) != rgb by {
                if j >= 1 {
                    assert(d[j - 1] == pal[j]);
                }
            }
        }
    }
}

/// Re-coloring of a pure dithered buffer, pixel by pixel: a pixel whose
/// RGB is the projection of palette entry `i` shows the override table's
/// projection at `i` instead, alpha carried through; a pixel matching no
/// entry passes through unchanged.
pub open spec fn apply_override_spec(pure: Seq<u8>, pal: Seq<Rgb16>, ovr: Seq<Rgb16>) -> Seq<u8>
    decreases pure.len(),
{
    if pure.len() < 4 {
        pure
    } else {
        let head = match find_proj_index(pal, (pure[0], pure[1], pure[2])) {
            Some(id) => seq![
                proj8_spec(ovr[id]).0,
                proj8_spec(ovr[id]).1,
                proj8_spec(ovr[id]).2,
                pure[3],
            ],
            None => seq![pure[0], pure[1], pure[2], pure[3]],
        };
        head + apply_override_spec(pure.skip(4), pal, ovr)
    }
}

/// Re-coloring against an override table that still equals the palette
/// leaves the buffer untouched, collisions included: whichever entry a
/// pixel matches first, the replacement projects to the very bytes the
/// pixel already holds.
pub proof fn lemma_apply_override_identity(pure: Seq<u8>, pal: Seq<Rgb16>)
    ensures
        apply_override_spec(pure, pal, pal) == pure,
    decreases pure.len(),
{
    if pure.len() >= 4 {
        lemma_apply_override_identity(pure.skip(4), pal);
        lemma_find_proj_index(pal, (pure[0], pure[1], pure[2]));
        let head = match find_proj_index(pal, (pure[0], pure[1], pure[2])) {
            Some(id) => seq![
                proj8_spec(pal[id]).0,
                proj8_spec(pal[id]).1,
                proj8_spec(pal[id]).2,
                pure[3],
            ],
            None => seq![pure[0], pure[1], pure[2], pure[3]],
        };
        assert(head =~= seq![pure[0], pure[1], pure[2], pure[3]]);
        assert(head + pure.skip(4) =~= pure);
    }
}

/// Override round trip: overriding entry `i` with any color and then
/// setting entry `i` back to the palette color reproduces the pure
/// dithered buffer exactly.
pub proof fn lemma_override_roundtrip(pure: Seq<u8>, pal: Seq<Rgb16>, i: int, c: Rgb16)
    requires
        0 <= i < pal.len(),
    ensures
        apply_override_spec(pure, pal, pal.update(i, c).update(i, pal[i])) == pure,
{
    assert(pal.update(i, c).update(i, pal[i]) =~= pal);
    lemma_apply_override_identity(pure, pal);
}

/// An override table after writing `p[0], p[1], ...` into its first
/// `upto` slots one by one, indices beyond the table ignored.
pub open spec fn override_merge(ovr: Seq<Rgb16>, p: Seq<Rgb16>, upto: int) -> Seq<Rgb16> {
    Seq::new(ovr.len(), |j: int|
        if j < upto && j < p.len() {
            p[j]
        } else {
            ovr[j]
        })
}

/// A copy of a color vector, element by element.
fn copy_colors(v: &Vec<Rgb16>) -> (out: Vec<Rgb16>)
    ensures
        out@ == v@,
{
    let mut out: Vec<Rgb16> = Vec::new();
    let n: usize = v.len();
    let mut i: usize = 0;
    while i < n
        invariant
            n == v@.len(),
            0 <= i <= n,
            out@ == v@.take(i as int),
        decreases n - i,
    {
        out.push(v[i]);
        proof {
            assert(v@.take(i + 1) =~= v@.take(i as int).push(v@[i as int]));
        }
        i += 1;
    }
    proof {
        assert(v@.take(n as int) =~= v@);
    }
    out
}

/// A copy of a byte vector, element by element.
fn copy_bytes(v: &Vec<u8>) -> (out: Vec<u8>)
    ensures
        out@ == v@,
{
    let mut out: Vec<u8> = Vec::new();
    let n: usize = v.len();
    let mut i: usize = 0;
    while i < n
        invariant
            n == v@.len(),
            0 <= i <= n,
            out@ == v@.take(i as int),
        decreases n - i,
    {
        out.push(v[i]);
        proof {
            assert(v@.take(i + 1) =~= v@.take(i as int).push(v@[i as int]));
        }
        i += 1;
    }
    proof {
        assert(v@.take(n as int) =~= v@);
    }
    out
}

/// First index of the lookup table holding `key`, if any.
fn find_first_key(lut: &Vec<u32>, key: u32) -> (r: Option<usize>)
    ensures
        r matches Some(i) ==> i < lut@.len() && lut@[i as int] == key && forall|j: int|
            0 <= j < i ==> lut@[j] != key,
        r is None ==> forall|j: int| 0 <= j < lut@.len() ==> lut@[j] != key,
{
    let n: usize = lut.len();
    let mut j: usize = 0;
    while j < n
        invariant
            n == lut@.len(),
            0 <= j <= n,
            forall|jj: int| 0 <= jj < j ==> lut@[jj] != key,
        decreases n - j,
    {
        if lut[j] == key {
            return Some(j);
        }
        j += 1;
    }
    None
}

/// The image and palette state the core owns: the working buffers at both
/// precisions, the dithered buffers, the palette and its override table.
pub struct DitheredImage {
    pub w: usize,
    pub h: usize,
    pub is_loaded: bool,
    pub draw_dithered: bool,
    pub image_bytes8: Vec<u8>,
    pub image_bytes16: Vec<u16>,
    pub image_bytes8_dithered_pure: Vec<u8>,
    pub image_bytes8_dithered: Vec<u8>,
    pub palette: Vec<Rgb16>,
    pub palette_override: Vec<Rgb16>,
}

impl DitheredImage {
    /// Internal consistency: the override table always matches the palette
    /// in length; a loaded image has buffers of the right size, a
    /// non-empty palette, and a pure buffer that is exactly the diffusion
    /// of the 16-bit working buffer against that palette.
    pub open spec fn wf(self) -> bool {
        &&& self.palette_override@.len() == self.palette@.len()
        &&& self.w * self.h * 4 <= usize::MAX
        &&& !self.is_loaded ==> {
            &&& self.image_bytes8@.len() == 0
            &&& self.image_bytes16@.len() == 0
            &&& self.image_bytes8_dithered_pure@.len() == 0
            &&& self.image_bytes8_dithered@.len() == 0
            &&& self.palette@.len() == 0
        }
        &&& self.is_loaded ==> {
            &&& self.w >= 1
            &&& self.h >= 1
            &&& self.w + 2 <= usize::MAX
            &&& self.image_bytes8@.len() == self.w * self.h * 4
            &&& self.image_bytes16@.len() == self.w * self.h * 4
            &&& self.palette@.len() >= 1
            &&& self.image_bytes8_dithered_pure@.len() == self.w * self.h * 4
            &&& self.image_bytes8_dithered_pure@ == dither_fs_spec(
                self.image_bytes16@,
                self.w as int,
                self.h as int,
                self.palette@,
            )
        }
    }

    /// What dithering needs of the state: sound buffer sizes when an
    /// image is loaded, and an override table matching the palette.
    pub open spec fn buffers_ok(self) -> bool {
        &&& self.palette_override@.len() == self.palette@.len()
        &&& self.w * self.h * 4 <= usize::MAX
        &&& self.is_loaded ==> {
            &&& self.w >= 1
            &&& self.h >= 1
            &&& self.w + 2 <= usize::MAX
            &&& self.image_bytes8@.len() == self.w * self.h * 4
            &&& self.image_bytes16@.len() == self.w * self.h * 4
        }
        &&& !self.is_loaded ==> {
            &&& self.image_bytes8@.len() == 0
            &&& self.image_bytes16@.len() == 0
            &&& self.image_bytes8_dithered_pure@.len() == 0
            &&& self.image_bytes8_dithered@.len() == 0
            &&& self.palette@.len() == 0
        }
    }

    pub fn new() -> (d: DitheredImage)
        ensures
            d.wf(),
            !d.is_loaded,
            d.palette@.len() == 0,
    {
        DitheredImage::default()
    }

    /// The displayed dithered byte buffer, row-major RGBA8.
    pub fn get_bytes(&self) -> (r: &Vec<u8>)
        ensures
            r@ == self.image_bytes8_dithered@,
    {
        &self.image_bytes8_dithered
    }

    pub fn size(&self) -> (r: (usize, usize))
        ensures
            r == (self.w, self.h),
    {
        (self.w, self.h)
    }

    pub fn has_image(&self) -> (r: bool)
        ensures
            r == self.is_loaded,
    {
        self.is_loaded
    }

    /// The current override table: the colors actually displayed.
    pub fn get_palette_colors(&self) -> (r: &Vec<Rgb16>)
        ensures
            r@ == self.palette_override@,
    {
        &self.palette_override
    }

    /// The palette of the last full diffusion pass.
    pub fn get_pure_palette_colors(&self) -> (r: &Vec<Rgb16>)
        ensures
            r@ == self.palette@,
    {
        &self.palette
    }

    /// Loading: store the resized 8-bit buffer, widen it to 16-bit
    /// working precision, and run a full palette build and diffusion
    /// pass. The caller supplies the decoded full-size buffer and the
    /// target dimensions.
    pub fn upload_image(
        &mut self,
        rgba8_full: &Vec<u8>,
        w0: usize,
        h0: usize,
        new_w: usize,
        new_h: usize,
        colors_palette_size: u16,
    )
        requires
            old(self).wf(),
            rgba8_full@.len() == w0 * h0 * 4,
            w0 >= 1,
            h0 >= 1,
            new_w >= 1,
            new_h >= 1,
            new_w * new_h * 4 <= usize::MAX,
            new_h * h0 <= usize::MAX,
            new_w * w0 <= usize::MAX,
            w0 * h0 * 4 <= usize::MAX,
            new_w + 2 <= usize::MAX,
        ensures
            final (self).wf(),
            final (self).is_loaded,
            final (self).draw_dithered,
            final (self).w == new_w,
            final (self).h == new_h,
            final (self).image_bytes8@.len() == new_w * new_h * 4,
            forall|di: int|
                0 <= di < new_w * new_h * 4 ==> #[trigger] final (self).image_bytes8@[di]
                    == rgba8_full@[resize_src_index(
                    w0 as int,
                    h0 as int,
                    4,
                    new_w as int,
                    new_h as int,
                    di,
                )],
            final (self).image_bytes16@.len() == new_w * new_h * 4,
            forall|i: int|
                0 <= i < new_w * new_h * 4 ==> #[trigger] final (self).image_bytes16@[i] == (final (
                self).image_bytes8@[i] as int) * 257,
            final (self).palette@ == build_palette_spec(
                final (self).image_bytes16@,
                new_w as int,
                new_h as int,
                colors_palette_size as int,
            ),
            final (self).palette_override@ == final (self).palette@,
            final (self).image_bytes8_dithered_pure@ == dither_fs_spec(
                final (self).image_bytes16@,
                new_w as int,
                new_h as int,
                final (self).palette@,
            ),
            final (self).image_bytes8_dithered@ == final (self).image_bytes8_dithered_pure@,
    {
        let resized = resize_interleaved_nearest::<u8, 4>(
            rgba8_full.as_slice(),
            w0,
            h0,
            new_w,
            new_h,
        );
        self.image_bytes8 = resized;
        self.w = new_w;
        self.h = new_h;
        rgba8_to_rgba16(self.image_bytes8.as_slice(), &mut self.image_bytes16);
        self.is_loaded = true;
        self.dither(colors_palette_size, true);
    }

    /// Quantize and re-render: rebuild the palette when the image was
    /// just loaded or the requested color count changed, then run the
    /// diffusion pass, cache its result as the pure buffer, and display
    /// it. Without a loaded image this does nothing.
    pub fn dither(&mut self, colors_palette_size: u16, from_open_file: bool)
        requires
            old(self).buffers_ok(),
        ensures
            !old(self).is_loaded ==> *final (self) == *old(self),
            old(self).is_loaded ==> final (self).wf(),
            old(self).is_loaded ==> {
                let k = vstd::math::max(colors_palette_size as int, 2);
                &&& final (self).w == old(self).w
                &&& final (self).h == old(self).h
                &&& final (self).is_loaded
                &&& final (self).draw_dithered
                &&& final (self).image_bytes8@ == old(self).image_bytes8@
                &&& final (self).image_bytes16@ == old(self).image_bytes16@
                &&& (from_open_file || old(self).palette@.len() != k) ==> {
                    &&& final (self).palette@ == build_palette_spec(
                        old(self).image_bytes16@,
                        old(self).w as int,
                        old(self).h as int,
                        colors_palette_size as int,
                    )
                    &&& final (self).palette_override@ == final (self).palette@
                }
                &&& !(from_open_file || old(self).palette@.len() != k) ==> {
                    &&& final (self).palette@ == old(self).palette@
                    &&& final (self).palette_override@ == old(self).palette_override@
                }
                &&& final (self).image_bytes8_dithered_pure@ == dither_fs_spec(
                    old(self).image_bytes16@,
                    old(self).w as int,
                    old(self).h as int,
                    final (self).palette@,
                )
                &&& final (self).image_bytes8_dithered@ == final (
                self).image_bytes8_dithered_pure@
            },
    {
        if !self.is_loaded {
            return ;
        }
        let k: usize = if colors_palette_size as usize >= 2 {
            colors_palette_size as usize
        } else {
            2
        };
        if from_open_file || self.palette.len() != k {
            self.palette = build_palette_median_cut_rgba16(
                self.image_bytes16.as_slice(),
                self.w,
                self.h,
                k,
            );
            self.palette_override = copy_colors(&self.palette);
            proof {
                lemma_build_palette_nonempty(
                    self.image_bytes16@,
                    self.w as int,
                    self.h as int,
                    k as int,
                );
            }
        }
        dither_fs_palette_rgba16_to_rgba8(
            self.image_bytes16.as_slice(),
            &mut self.image_bytes8_dithered,
            self.w,
            self.h,
            self.palette.as_slice(),
        );
        self.image_bytes8_dithered_pure = copy_bytes(&self.image_bytes8_dithered);
        self.draw_dithered = true;
        proof {
            crate::dither::lemma_dither_output_quantized(
                self.image_bytes16@,
                self.w as int,
                self.h as int,
                self.palette@,
            );
        }
    }

    /// A single-color override: write the replacement into the override
    /// table at the given index and regenerate the displayed buffer from
    /// the cached pure buffer, without re-running diffusion. An index
    /// beyond the palette is ignored.
    pub fn replace_color(&mut self, new_color: Rgb16, palette_id: usize)
        requires
            old(self).wf(),
        ensures
            final (self).wf(),
            palette_id >= old(self).palette@.len() ==> *final (self) == *old(self),
            palette_id < old(self).palette@.len() ==> {
                &&& final (self).palette_override@ == old(self).palette_override@.update(
                    palette_id as int,
                    new_color,
                )
                &&& final (self).palette@ == old(self).palette@
                &&& final (self).w == old(self).w
                &&& final (self).h == old(self).h
                &&& final (self).is_loaded == old(self).is_loaded
                &&& final (self).draw_dithered == old(self).draw_dithered
                &&& final (self).image_bytes8@ == old(self).image_bytes8@
                &&& final (self).image_bytes16@ == old(self).image_bytes16@
                &&& final (self).image_bytes8_dithered_pure@ == old(
                self).image_bytes8_dithered_pure@
                &&& final (self).image_bytes8_dithered@ == apply_override_spec(
                    old(self).image_bytes8_dithered_pure@,
                    old(self).palette@,
                    final (self).palette_override@,
                )
            },
    {
        if palette_id >= self.palette.len() {
            return ;
        }
        if self.palette_override.len() != self.palette.len() {
            self.palette_override = copy_colors(&self.palette);
        }
        self.palette_override[palette_id] = new_color;
        self.apply_palette_override_to_dithered();
    }

    /// Bulk override: apply an entire replacement table index by index.
    /// The displayed result equals one pass of re-coloring the pure
    /// buffer against the merged table, so sequential application and a
    /// single pass cannot be told apart.
    pub fn set_override_colors(&mut self, p: Vec<Rgb16>)
        requires
            old(self).wf(),
        ensures
            final (self).wf(),
            final (self).palette@ == old(self).palette@,
            final (self).w == old(self).w,
            final (self).h == old(self).h,
            final (self).is_loaded == old(self).is_loaded,
            final (self).image_bytes8@ == old(self).image_bytes8@,
            final (self).image_bytes16@ == old(self).image_bytes16@,
            final (self).image_bytes8_dithered_pure@ == old(self).image_bytes8_dithered_pure@,
            final (self).palette_override@ == override_merge(
                old(self).palette_override@,
                p@,
                p@.len() as int,
            ),
            p@.len() == old(self).palette@.len() ==> final (self).palette_override@ == p@,
            p@.len() >= 1 && old(self).palette@.len() >= 1 ==> final (self).image_bytes8_dithered@
                == apply_override_spec(
                old(self).image_bytes8_dithered_pure@,
                old(self).palette@,
                final (self).palette_override@,
            ),
            p@.len() == 0 || old(self).palette@.len() == 0 ==> final (self).image_bytes8_dithered@
                == old(self).image_bytes8_dithered@,
    {
        let ghost old_ovr = self.palette_override@;
        let ghost pal0 = self.palette@;
        let ghost pure0 = self.image_bytes8_dithered_pure@;
        let ghost disp0 = self.image_bytes8_dithered@;
        let n: usize = p.len();
        let mut i: usize = 0;
        proof {
            assert(override_merge(old_ovr, p@, 0) =~= old_ovr);
        }
        while i < n
            invariant
                self.wf(),
                n == p@.len(),
                0 <= i <= n,
                self.palette@ == pal0,
                self.w == old(self).w,
                self.h == old(self).h,
                self.is_loaded == old(self).is_loaded,
                self.image_bytes8@ == old(self).image_bytes8@,
                self.image_bytes16@ == old(self).image_bytes16@,
                self.image_bytes8_dithered_pure@ == pure0,
                self.palette_override@ == override_merge(old_ovr, p@, i as int),
                old_ovr.len() == pal0.len(),
                i == 0 || pal0.len() == 0 ==> self.image_bytes8_dithered@ == disp0,
                i >= 1 && pal0.len() >= 1 ==> self.image_bytes8_dithered@ == apply_override_spec(
                    pure0,
                    pal0,
                    override_merge(old_ovr, p@, i as int),
                ),
            decreases n - i,
        {
            let c = p[i];
            self.replace_color(c, i);
            proof {
                if i < pal0.len() {
                    assert(override_merge(old_ovr, p@, i as int).update(i as int, p@[i as int])
                        =~= override_merge(old_ovr, p@, i + 1));
                } else {
                    assert(override_merge(old_ovr, p@, i as int) =~= override_merge(
                        old_ovr,
                        p@,
                        i + 1,
                    ));
                }
            }
            i += 1;
        }
        proof {
            if n >= 1 && pal0.len() >= 1 {
                assert(vstd::math::min(n as int, pal0.len() as int) >= 1);
            }
            if n == pal0.len() {
                assert(override_merge(old_ovr, p@, n as int) =~= p@);
            }
        }
    }

    /// Regenerate the displayed buffer from the cached pure buffer: look
    /// every pure pixel up among the palette's 8-bit projections (first
    /// matching entry wins) and show the override table's projection at
    /// the found index instead, copying unmatched pixels through.
    fn apply_palette_override_to_dithered(&mut self)
        requires
            old(self).wf(),
        ensures
            final (self).wf(),
            final (self).palette_override@ == old(self).palette_override@,
            final (self).palette@ == old(self).palette@,
            final (self).w == old(self).w,
            final (self).h == old(self).h,
            final (self).is_loaded == old(self).is_loaded,
            final (self).draw_dithered == old(self).draw_dithered,
            final (self).image_bytes8@ == old(self).image_bytes8@,
            final (self).image_bytes16@ == old(self).image_bytes16@,
            final (self).image_bytes8_dithered_pure@ == old(self).image_bytes8_dithered_pure@,
            old(self).image_bytes8_dithered_pure@.len() != old(self).w * old(self).h * 4 || old(
                self,
            ).palette@.len() == 0 ==> final (self).image_bytes8_dithered@ == old(
                self,
            ).image_bytes8_dithered@,
            old(self).image_bytes8_dithered_pure@.len() == old(self).w * old(self).h * 4 && old(
                self,
            ).palette@.len() >= 1 ==> final (self).image_bytes8_dithered@ == apply_override_spec(
                old(self).image_bytes8_dithered_pure@,
                old(self).palette@,
                old(self).palette_override@,
            ),
    {
        if self.image_bytes8_dithered_pure.len() != self.w * self.h * 4 {
            return ;
        }
        if self.palette.len() == 0 {
            return ;
        }
        if self.palette_override.len() != self.palette.len() {
            self.palette_override = copy_colors(&self.palette);
        }
        let m: usize = self.palette.len();
        let mut lut: Vec<u32> = Vec::new();
        let mut i: usize = 0;
        while i < m
            invariant
                m == self.palette@.len(),
                0 <= i <= m,
                lut@.len() == i,
                forall|j: int|
                    0 <= j < i ==> #[trigger] lut@[j] == pack_rgb_spec(
                        proj8_spec(self.palette@[j]).0,
                        proj8_spec(self.palette@[j]).1,
                        proj8_spec(self.palette@[j]).2,
                    ),
            decreases m - i,
        {
            let (r, g, b) = rgb16_to_u8_exact(self.palette[i]);
            lut.push(pack_rgb(r, g, b));
            i += 1;
        }
        let n: usize = self.w * self.h * 4;
        let ghost pure = self.image_bytes8_dithered_pure@;
        let ghost pal = self.palette@;
        let ghost ovr = self.palette_override@;
        let ghost full = apply_override_spec(pure, pal, ovr);
        let mut dst: Vec<u8> = Vec::new();
        let mut p: usize = 0;
        proof {
            assert(pure.skip(0) =~= pure);
            assert(n % 4 == 0) by (nonlinear_arith)
                requires
                    n == (self.w as int) * (self.h as int) * 4,
            ;
        }
        while p < n
            invariant
                self.wf(),
                n == self.w * self.h * 4,
                n == pure.len(),
                pure == self.image_bytes8_dithered_pure@,
                pal == self.palette@,
                ovr == self.palette_override@,
                pal.len() == ovr.len(),
                pal.len() >= 1,
                m == pal.len(),
                lut@.len() == m,
                forall|j: int|
                    0 <= j < m ==> #[trigger] lut@[j] == pack_rgb_spec(
                        proj8_spec(pal[j]).0,
                        proj8_spec(pal[j]).1,
                        proj8_spec(pal[j]).2,
                    ),
                0 <= p <= n,
                p % 4 == 0,
                n % 4 == 0,
                full == dst@ + apply_override_spec(pure.skip(p as int), pal, ovr),
            decreases n - p,
        {
            let ghost rest = apply_override_spec(pure.skip(p as int), pal, ovr);
            let ghost dst0 = dst@;
            proof {
                assert((n - p) % 4 == 0) by (nonlinear_arith)
                    requires
                        n % 4 == 0,
                        p % 4 == 0,
                        0 <= p <= n,
                ;
                if n - p < 4 {
                    vstd::arithmetic::div_mod::lemma_small_mod((n - p) as nat, 4);
                }
                assert(n - p >= 4);
            }
            let pr = self.image_bytes8_dithered_pure[p];
            let pg = self.image_bytes8_dithered_pure[p + 1];
            let pb = self.image_bytes8_dithered_pure[p + 2];
            let pa = self.image_bytes8_dithered_pure[p + 3];
            let key = pack_rgb(pr, pg, pb);
            let found = find_first_key(&lut, key);
            proof {
                assert(pure.skip(p as int)[0] == pr && pure.skip(p as int)[1] == pg && pure.skip(
                    p as int,
                )[2] == pb && pure.skip(p as int)[3] == pa);
                lemma_find_proj_index(pal, (pr, pg, pb));
                match found {
                    Some(fi) => {
                        lemma_pack_rgb_injective(
                            proj8_spec(pal[fi as int]).0,
                            proj8_spec(pal[fi as int]).1,
                            proj8_spec(pal[fi as int]).2,
                            pr,
                            pg,
                            pb,
                        );
                        assert forall|j: int| 0 <= j < fi implies proj8_spec(#[trigger] pal[j])
                            != (pr, pg, pb) by {
                            if proj8_spec(pal[j]) == (pr, pg, pb) {
                                assert(lut@[j] == key);
                            }
                        }
                        assert(find_proj_index(pal, (pr, pg, pb)) == Some(fi as int)) by {
                            if find_proj_index(pal, (pr, pg, pb)) is None {
                                assert(proj8_spec(pal[fi as int]) != (pr, pg, pb));
                                assert(false);
                            } else {
                                let k0 = find_proj_index(pal, (pr, pg, pb))->Some_0;
                                if k0 < fi {
                                    assert(proj8_spec(pal[k0]) != (pr, pg, pb));
                                    assert(false);
                                } else if fi < k0 {
                                    assert(proj8_spec(pal[fi as int]) != (pr, pg, pb));
                                    assert(false);
                                }
                            }
                        }
                    },
                    None => {
                        match find_proj_index(pal, (pr, pg, pb)) {
                            Some(k0) => {
                                assert(lut@[k0] == key);
                                assert(false);
                            },
                            None => {},
                        }
                    },
                }
            }
            match found {
                Some(id) => {
                    let (nr, ng, nb) = rgb16_to_u8_exact(self.palette_override[id]);
                    dst.push(nr);
                    dst.push(ng);
                    dst.push(nb);
                    dst.push(pa);
                },
                None => {
                    dst.push(pr);
                    dst.push(pg);
                    dst.push(pb);
                    dst.push(pa);
                },
            }
            proof {
                assert(pure.skip(p as int).skip(4) =~= pure.skip(p as int + 4));
                let head = match find_proj_index(pal, (pr, pg, pb)) {
                    Some(id) => seq![
                        proj8_spec(ovr[id]).0,
                        proj8_spec(ovr[id]).1,
                        proj8_spec(ovr[id]).2,
                        pa,
                    ],
                    None => seq![pr, pg, pb, pa],
                };
                assert(rest == head + apply_override_spec(pure.skip(p as int + 4), pal, ovr));
                assert(dst@ =~= dst0 + head);
                assert((dst0 + head) + apply_override_spec(pure.skip(p as int + 4), pal, ovr)
                    =~= dst0 + (head + apply_override_spec(pure.skip(p as int + 4), pal, ovr)));
            }
            p += 4;
        }
        proof {
            assert(pure.skip(n as int).len() == 0);
            assert(apply_override_spec(pure.skip(n as int), pal, ovr) == pure.skip(n as int));
            assert(dst@ + pure.skip(n as int) =~= dst@);
        }
        self.image_bytes8_dithered = dst;
    }
}

/// Every pixel of a loaded image's cached pure buffer shows the 8-bit
/// projection of one of its palette entries: what the state caches really
/// is quantized to the palette it was built with.
pub proof fn lemma_state_quantized(img: DitheredImage)
    requires
        img.wf(),
        img.is_loaded,
    ensures
        forall|i: int|
            0 <= i < img.w * img.h ==> crate::dither::pixel_quantized(
                img.image_bytes8_dithered_pure@,
                img.palette@,
                #[trigger] (i * 1),
            ),
{
    crate::dither::lemma_dither_output_quantized(
        img.image_bytes16@,
        img.w as int,
        img.h as int,
        img.palette@,
    );
}

impl Default for DitheredImage {
    /// The empty state: nothing loaded, no palette, 512 by 512 as the
    /// placeholder dimensions.
    fn default() -> (d: DitheredImage)
        ensures
            d.wf(),
            !d.is_loaded,
            d.palette@.len() == 0,
    {
        DitheredImage {
            w: 512,
            h: 512,
            is_loaded: false,
            draw_dithered: false,
            image_bytes8: Vec::new(),
            image_bytes16: Vec::new(),
            image_bytes8_dithered_pure: Vec::new(),
            image_bytes8_dithered: Vec::new(),
            palette: Vec::new(),
            palette_override: Vec::new(),
        }
    }
}

} // verus!
