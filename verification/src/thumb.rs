//! Thumbnail generation: decode a source image, bound its width, apply a
//! fixed tone curve (a contrast stretch around the midpoint combined with a
//! brightness lift), and hand back the pixels to encode, together with the
//! stable cache path keyed by the source file's name stem. Generation is
//! idempotent: when the target file already exists the cached path is
//! returned and nothing is recomputed or rewritten.

use vstd::prelude::*;
use vstd::string::StringExecFns;
use crate::classify::file_name_of;
use crate::classify::last_pos;
use crate::text::push_char;
use crate::text::to_chars;

verus! {

// ---------- the cache path ----------

/// The stem of the final path component: the part before its last `.`,
/// or the whole component when the dot is absent or leading.
pub open spec fn file_stem_of(path: Seq<char>) -> Seq<char> {
    let name = file_name_of(path);
    let d = last_pos(name, '.');
    if d <= 0 {
        name
    } else {
        name.subrange(0, d)
    }
}

/// Where the thumbnail for `source` lives: under the thumbnail directory,
/// named by the source's stem with the fixed output extension.
pub open spec fn thumb_target_spec(thumb_dir: Seq<char>, source: Seq<char>) -> Seq<char> {
    thumb_dir + "/"@ + file_stem_of(source) + ".webp"@
}

pub fn thumbnail_target(thumb_dir: &str, source: &str) -> (r: String)
    ensures
        r@ == thumb_target_spec(thumb_dir@, source@),
{
    let v = to_chars(source);
    let n: usize = v.len();
    let slash = crate::classify::rscan(&v, 0, n, '/');
    proof {
        crate::classify::lemma_last_pos_agrees(source@, '/', slash);
    }
    let name_start: usize = match slash {
        Some(i) => i + 1,
        None => 0,
    };
    let ghost name = file_name_of(source@);
    assert(name =~= source@.subrange(name_start as int, n as int));
    let dot = crate::classify::rscan(&v, name_start, n, '.');
    proof {
        assert(forall|j: int| 0 <= j < name.len() ==> name[j] == source@[name_start + j]);
        match dot {
            Some(i) => {
                crate::classify::lemma_last_pos_agrees(name, '.', Some((i - name_start) as usize));
            },
            None => {
                crate::classify::lemma_last_pos_agrees(name, '.', None::<usize>);
            },
        }
    }
    let stem_end: usize = match dot {
        Some(i) => if i <= name_start {
            n
        } else {
            i
        },
        None => n,
    };
    let ghost stem = file_stem_of(source@);
    assert(stem =~= source@.subrange(name_start as int, stem_end as int));
    let mut out = thumb_dir.to_owned().concat("/");
    let mut k: usize = name_start;
    while k < stem_end
        invariant
            name_start <= k <= stem_end <= n,
            n == v@.len(),
            v@ == source@,
            out@ =~= thumb_dir@ + "/"@ + source@.subrange(name_start as int, k as int),
        decreases stem_end - k,
    {
        push_char(&mut out, v[k]);
        assert(out@ =~= thumb_dir@ + "/"@ + source@.subrange(name_start as int, k + 1 as int));
        k += 1;
    }
    let out = out.concat(".webp");
    assert(out@ =~= thumb_target_spec(thumb_dir@, source@));
    out
}

// ---------- the tone curve ----------

/// The fixed tone curve on one channel value: a contrast stretch by a
/// factor of 1.15 around the midpoint of the channel range, clamped, then a
/// brightness lift of 10, clamped again. On the 0..=255 range,
/// (v/255 - 1/2) * 1.15 + 1/2 rescaled to the channel range equals
/// (1150*v - 19125) / 1000.
pub open spec fn tone_map(v: int) -> int {
    let t = 1150 * v - 19125;
    let stretched = if t < 0 {
        0
    } else if t / 1000 > 255 {
        255
    } else {
        t / 1000
    };
    if stretched + 10 > 255 {
        255
    } else {
        stretched + 10
    }
}

/// The 256-entry lookup table for the tone curve.
pub fn build_tone_table() -> (r: Vec<u8>)
    ensures
        r@.len() == 256,
        forall|i: int| 0 <= i < 256 ==> r@[i] == tone_map(i),
{
    let mut r: Vec<u8> = Vec::new();
    let mut i: usize = 0;
    while i < 256
        invariant
            i <= 256,
            r@.len() == i,
            forall|j: int| 0 <= j < i ==> r@[j] == tone_map(j),
        decreases 256 - i,
    {
        let t: u32 = 1150 * (i as u32);
        let stretched: u32 = if t < 19125 {
            0
        } else {
            let q = (t - 19125) / 1000;
            if q > 255 {
                255
            } else {
                q
            }
        };
        let lifted: u32 = if stretched + 10 > 255 {
            255
        } else {
            stretched + 10
        };
        r.push(lifted as u8);
        i += 1;
    }
    r
}

/// A buffer of RGBA pixels with the tone curve applied to the three color
/// channels; the alpha channel is untouched.
pub open spec fn toned(s: Seq<u8>) -> Seq<u8> {
    Seq::new(
        s.len(),
        |i: int|
            if i % 4 == 3 {
                s[i]
            } else {
                tone_map(s[i] as int) as u8
            },
    )
}

pub fn apply_tone_table(buf: &mut Vec<u8>, table: &Vec<u8>)
    requires
        table@.len() == 256,
        forall|i: int| 0 <= i < 256 ==> table@[i] == tone_map(i),
    ensures
        final(buf)@ == toned(old(buf)@),
{
    let n: usize = buf.len();
    let mut i: usize = 0;
    while i < n
        invariant
            i <= n,
            n == buf@.len(),
            buf@.len() == old(buf)@.len(),
            table@.len() == 256,
            forall|k: int| 0 <= k < 256 ==> table@[k] == tone_map(k),
            forall|j: int| 0 <= j < i ==> buf@[j] == toned(old(buf)@)[j],
            forall|j: int| i <= j < n ==> buf@[j] == old(buf)@[j],
        decreases n - i,
    {
        if i % 4 != 3 {
            let c: u8 = buf[i];
            buf[i] = table[c as usize];
        }
        i += 1;
    }
    assert(buf@ =~= toned(old(buf)@));
}

// ---------- dimensions ----------

pub const MAX_THUMB_WIDTH: u32 = 512;

/// The thumbnail dimensions for a source of the given size: the width is
/// capped at the fixed maximum and the height is scaled to keep the aspect
/// ratio.
pub open spec fn spec_thumb_dims(w: u32, h: u32) -> (u32, u32) {
    if w > 512 {
        (512u32, ((h as int) * 512 / (w as int)) as u32)
    } else {
        (w, h)
    }
}

pub fn thumb_dims(w: u32, h: u32) -> (r: (u32, u32))
    ensures
        r == spec_thumb_dims(w, h),
        r.0 <= w,
        r.1 <= h,
{
    if w > 512 {
        let nh64: u64 = (h as u64) * 512 / (w as u64);
        proof {
            assert((h as int) * 512 / (w as int) <= h as int) by (nonlinear_arith)
                requires
                    w > 512,
                    h >= 0,
            ;
            assert((h as int) * 512 / (w as int) >= 0) by (nonlinear_arith)
                requires
                    w > 512,
                    h >= 0,
            ;
        }
        (512, nh64 as u32)
    } else {
        (w, h)
    }
}

// ---------- the outside image operations ----------

pub uninterp spec fn decoded_rgba_of(bytes: Seq<u8>) -> Option<(Seq<u8>, (u32, u32))>;

/// Relies on image::load_from_memory and image::DynamicImage::to_rgba8:
/// decoding is a function of the bytes alone, and a decoded image converts
/// to an RGBA buffer of four bytes per pixel with the image's dimensions.
#[verifier::external_body]
fn decode_rgba(bytes: &Vec<u8>) -> (r: Option<(Vec<u8>, u32, u32)>)
    ensures
        (match r {
            Some(t) => decoded_rgba_of(bytes@) == Some((t.0@, (t.1, t.2))) && t.0@.len() == 4 * (
            t.1 as nat) * (t.2 as nat),
            None => decoded_rgba_of(bytes@) is None,
        }),
{
    match image::load_from_memory(bytes.as_slice()) {
        Ok(img) => {
            let rgba = img.to_rgba8();
            let (w, h) = rgba.dimensions();
            Some((rgba.into_raw(), w, h))
        },
        Err(_) => None,
    }
}

pub uninterp spec fn resized_rgba_of(buf: Seq<u8>, w: u32, h: u32, nw: u32, nh: u32) -> Seq<u8>;

/// Relies on image::imageops::resize with the triangle filter (through
/// image::RgbaImage::from_raw, which accepts a buffer of exactly matching
/// length): resampling is a function of the buffer and the dimensions
/// alone, and returns an RGBA buffer of the requested dimensions.
#[verifier::external_body]
fn resize_rgba(buf: Vec<u8>, w: u32, h: u32, nw: u32, nh: u32) -> (r: Vec<u8>)
    requires
        buf@.len() == 4 * (w as nat) * (h as nat),
        4 * (nw as nat) * (nh as nat) <= usize::MAX,
    ensures
        r@ == resized_rgba_of(buf@, w, h, nw, nh),
        r@.len() == 4 * (nw as nat) * (nh as nat),
{
    let img: image::RgbaImage = image::RgbaImage::from_raw(w, h, buf).unwrap();
    let out = image::imageops::resize(&img, nw, nh, image::imageops::FilterType::Triangle);
    out.into_raw()
}

// ---------- generation ----------

pub enum ThumbOutcome {
    /// The target file already exists; nothing was recomputed.
    AlreadyCached { path: String },
    /// Freshly rendered pixels, to be encoded and written at `path`.
    Rendered { path: String, rgba: Vec<u8>, width: u32, height: u32 },
    /// The source could not be decoded; the file is skipped.
    DecodeFailed,
}

/// Everything `process_thumbnail` promises, as one predicate over its
/// inputs and its outcome.
pub open spec fn thumbnail_contract(
    thumb_dir: Seq<char>,
    image_path: Seq<char>,
    source_bytes: Seq<u8>,
    target_exists: bool,
    r: ThumbOutcome,
) -> bool {
    let target = thumb_target_spec(thumb_dir, image_path);
    if target_exists {
        r matches ThumbOutcome::AlreadyCached { path } && path@ == target
    } else {
        match decoded_rgba_of(source_bytes) {
            None => r is DecodeFailed,
            Some(d) => {
                let (nw, nh) = spec_thumb_dims(d.1.0, d.1.1);
                &&& r matches ThumbOutcome::Rendered { path, rgba, width, height }
                &&& r->Rendered_path@ == target
                &&& r->Rendered_width == nw
                &&& r->Rendered_height == nh
                &&& r->Rendered_rgba@ == toned(resized_rgba_of(d.0, d.1.0, d.1.1, nw, nh))
                &&& r->Rendered_rgba@.len() == 4 * (nw as nat) * (nh as nat)
            },
        }
    }
}

/// Produce the thumbnail for one source image, given its bytes and whether
/// the target file already exists. The caller encodes and writes the
/// rendered pixels; an existing target is never recomputed or rewritten.
pub fn process_thumbnail(
    thumb_dir: &str,
    image_path: &str,
    source_bytes: &Vec<u8>,
    target_exists: bool,
) -> (r: ThumbOutcome)
    ensures
        thumbnail_contract(thumb_dir@, image_path@, source_bytes@, target_exists, r),
{
    let path = thumbnail_target(thumb_dir, image_path);
    if target_exists {
        return ThumbOutcome::AlreadyCached { path };
    }
    match decode_rgba(source_bytes) {
        None => ThumbOutcome::DecodeFailed,
        Some((buf, w, h)) => {
            // bind the length so its machine bound is in scope for resizing
            let _buf_len: usize = buf.len();
            let (nw, nh) = thumb_dims(w, h);
            proof {
                assert(4 * (nw as nat) * (nh as nat) <= 4 * (w as nat) * (h as nat))
                    by (nonlinear_arith)
                    requires
                        nw <= w,
                        nh <= h,
                ;
            }
            let resized = resize_rgba(buf, w, h, nw, nh);
            let table = build_tone_table();
            let mut rgba = resized;
            apply_tone_table(&mut rgba, &table);
            ThumbOutcome::Rendered { path, rgba, width: nw, height: nh }
        },
    }
}

/// Law: thumbnail generation is idempotent. A first run for a source whose
/// target does not yet exist and any later run for the same source, now
/// with the target in place, name the same path, and the later run renders
/// nothing and so rewrites nothing.
pub proof fn lemma_thumbnail_idempotent(
    thumb_dir: Seq<char>,
    image_path: Seq<char>,
    bytes_first: Seq<u8>,
    bytes_second: Seq<u8>,
    first: ThumbOutcome,
    second: ThumbOutcome,
)
    requires
        thumbnail_contract(thumb_dir, image_path, bytes_first, false, first),
        thumbnail_contract(thumb_dir, image_path, bytes_second, true, second),
    ensures
        second matches ThumbOutcome::AlreadyCached { path },
        first matches ThumbOutcome::Rendered { path, .. } ==> path@
            == second->AlreadyCached_path@,
        first matches ThumbOutcome::AlreadyCached { path } ==> path@
            == second->AlreadyCached_path@,
{
}

} // verus!
