//! Images embedded in documents and rendered tables, decided on and
//! encoded as the PNG files that go to the media directory.
use vstd::prelude::*;
use crate::document::{
    caption_for, caption_of, image_big_enough, is_file_big_enough, is_image_big_enough,
    new_tagged, MediaRequest, MediaSpec, MIN_IMAGE_BYTES,
};
use crate::grid::{
    grid_fits, grid_height, grid_pixels, grid_png, grid_width, lemma_grid_image_pixels,
    png_of_pixels, table_image,
};
use crate::text::{decimal, rows_view, string_from};

verus! {

/// What the image crate makes of an encoded image: `None` when
/// `image::load_from_memory` rejects it, else its width, height, and the
/// PNG file that `DynamicImage::write_to` writes for it (`None` when that
/// encoding fails).
pub uninterp spec fn png_reencoding(bytes: Seq<u8>) -> Option<(u32, u32, Option<Seq<u8>>)>;

pub open spec fn reencoding_view(r: Option<(u32, u32, Option<Vec<u8>>)>) -> Option<(u32, u32, Option<Seq<u8>>)> {
    match r {
        Some((w, h, png)) => Some((w, h, match png {
            Some(p) => Some(p@),
            None => None,
        })),
        None => None,
    }
}

/// Decodes `bytes` with `image::load_from_memory` (format guessed from the
/// content), reads its width and height, and re-encodes it with
/// `DynamicImage::write_to` as PNG, the format that `save` picks for a
/// `.png` path. The result is the name `png_reencoding` of the input.
/// Malformed input comes back as an `ImageError`: the panics that the
/// image crate documents on this path (`ImageDecoder::read_image` and
/// `ImageEncoder::write_image` with a buffer whose length does not match
/// the image) cannot arise here, as `decode` and `write_to` size those
/// buffers from the image itself, and decoding runs under the crate's
/// default allocation limits.
#[verifier::external_body]
fn reencode_png(bytes: &[u8]) -> (r: Option<(u32, u32, Option<Vec<u8>>)>)
    ensures
        reencoding_view(r) == png_reencoding(bytes@),
{
    let img = image::load_from_memory(bytes).ok()?;
    let mut out = std::io::Cursor::new(Vec::new());
    let png = img.write_to(&mut out, image::ImageFormat::Png).ok().map(|_| out.into_inner());
    Some((img.width(), img.height(), png))
}

/// The PNG file to save for an embedded image, if it is kept: not empty,
/// decodable, large enough, encodable, and its file not too small.
pub open spec fn picture_png(bytes: Seq<u8>) -> Option<Seq<u8>> {
    if bytes.len() == 0 {
        None
    } else {
        match png_reencoding(bytes) {
            None => None,
            Some((w, h, png)) => if !image_big_enough(w, h) {
                None
            } else {
                match png {
                    None => None,
                    Some(p) => if p.len() >= MIN_IMAGE_BYTES {
                        Some(p)
                    } else {
                        None
                    },
                }
            },
        }
    }
}

pub open spec fn opt_bytes_view(r: Option<Vec<u8>>) -> Option<Seq<u8>> {
    match r {
        Some(p) => Some(p@),
        None => None,
    }
}

/// The PNG file to save for an embedded image, if it is kept.
pub fn prepare_picture(bytes: &[u8]) -> (png: Option<Vec<u8>>)
    ensures
        opt_bytes_view(png) == picture_png(bytes@),
{
    if bytes.len() == 0 {
        return None;
    }
    match reencode_png(bytes) {
        None => None,
        Some((w, h, png)) => {
            if !is_image_big_enough(w, h) {
                return None;
            }
            match png {
                None => None,
                Some(p) => if is_file_big_enough(p.len() as u64) {
                    Some(p)
                } else {
                    None
                },
            }
        },
    }
}

/// The PNG file to save for a table, if it is kept: there are rows, the
/// grid image is large enough, and its PNG file is not too small.
pub open spec fn table_png_file(rows: Seq<Seq<Seq<char>>>) -> Option<Seq<u8>> {
    if rows.len() > 0 && image_big_enough(grid_width(rows), grid_height(rows)) {
        let p = png_of_pixels(grid_pixels(rows), (grid_width(rows), grid_height(rows)));
        if p.len() >= MIN_IMAGE_BYTES {
            Some(p)
        } else {
            None
        }
    } else {
        None
    }
}

/// A table's PNG file, when kept, is the encoding of exactly the drawn
/// grid: its pixels and its size.
pub proof fn lemma_table_png_is_the_grid(rows: Seq<Seq<Seq<char>>>)
    requires
        table_png_file(rows) is Some,
    ensures
        table_png_file(rows) == Some(
            png_of_pixels(grid_pixels(rows), (grid_width(rows), grid_height(rows))),
        ),
        rows.len() > 0,
{
}

/// The PNG file of a table's grid image, if it is kept.
pub fn table_png(rows: &Vec<Vec<String>>) -> (png: Option<Vec<u8>>)
    requires
        grid_fits(rows_view(rows@)),
    ensures
        opt_bytes_view(png) == table_png_file(rows_view(rows@)),
{
    match table_image(rows) {
        None => None,
        Some(img) => {
            proof {
                lemma_grid_image_pixels(rows_view(rows@), img);
            }
            let png = grid_png(&img);
            if is_file_big_enough(png.len() as u64) {
                Some(png)
            } else {
                None
            }
        },
    }
}

/// An embedded image of a DOCX kept for the media directory: its element
/// and its PNG file.
#[derive(Debug)]
pub struct PreparedImage {
    pub request: MediaRequest,
    pub png: Vec<u8>,
}

/// What the next image of a DOCX's media folder becomes, given how many
/// were counted before (`n`): `None` when it is empty, not decodable, or too
/// small (not counted); else it is counted, and kept when its PNG file is
/// large enough.
pub open spec fn docx_media_step(n: nat, bytes: Seq<u8>, context: Seq<char>) -> (nat, Option<(MediaSpec, Seq<u8>)>) {
    if bytes.len() == 0 {
        (n, None)
    } else {
        match png_reencoding(bytes) {
            None => (n, None),
            Some((w, h, png)) => if !image_big_enough(w, h) {
                (n, None)
            } else {
                let k = n + 1;
                let req = MediaSpec {
                    source: Seq::empty(),
                    file_name: "docx_img"@ + decimal(k) + ".png"@,
                    caption: caption_for(context, "(embedded image from document)"@),
                    metadata: "image:"@ + decimal(k),
                };
                (k, match png {
                    Some(p) => if p.len() >= MIN_IMAGE_BYTES {
                        Some((req, p))
                    } else {
                        None
                    },
                    None => None,
                })
            },
        }
    }
}

pub open spec fn prepared_view(r: Option<PreparedImage>) -> Option<(MediaSpec, Seq<u8>)> {
    match r {
        Some(p) => Some((p.request@, p.png@)),
        None => None,
    }
}

/// The next image of a DOCX's media folder; `counter` counts the images
/// that were large enough.
pub fn docx_media_image(counter: &mut u32, bytes: &[u8], context: &str) -> (r: Option<PreparedImage>)
    requires
        *old(counter) < u32::MAX,
    ensures
        (*final(counter) as nat, prepared_view(r)) == docx_media_step(*old(counter) as nat, bytes@, context@),
{
    if bytes.len() == 0 {
        return None;
    }
    match reencode_png(bytes) {
        None => None,
        Some((w, h, png)) => {
            if !is_image_big_enough(w, h) {
                return None;
            }
            *counter = *counter + 1;
            let k = *counter as usize;
            let request = MediaRequest {
                source: String::new(),
                file_name: docx_image_name(k),
                caption: docx_caption(context),
                metadata: new_tagged("image:", k),
            };
            match png {
                None => None,
                Some(p) => if is_file_big_enough(p.len() as u64) {
                    Some(PreparedImage { request, png: p })
                } else {
                    None
                },
            }
        },
    }
}

fn docx_image_name(k: usize) -> (s: String)
    ensures
        s@ == "docx_img"@ + decimal(k as nat) + ".png"@,
{
    let mut s = new_tagged("docx_img", k);
    crate::text::append_str(&mut s, ".png");
    s
}

fn docx_caption(context: &str) -> (c: String)
    ensures
        c@ == caption_for(context@, "(embedded image from document)"@),
{
    if context.is_empty() {
        string_from("(embedded image from document)")
    } else {
        caption_of(context)
    }
}

} // verus!
