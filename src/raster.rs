use vstd::prelude::*;

use image::ImageEncoder;

use crate::bytes::push_all;
use crate::error::DmiError;

verus! {

/// What the PNG codec decodes a stream into: width, height, the kind of pixels
/// (0 RGBA, 1 grayscale, 2 grayscale with alpha, 3 anything else) and the pixel
/// bytes; `None` where the stream does not decode.
pub uninterp spec fn png_decoded(png: Seq<u8>) -> Option<(u32, u32, u8, Seq<u8>)>;

/// The PNG stream the codec makes of an RGBA image, at the default compression
/// level with adaptive filtering; `None` where it fails.
pub uninterp spec fn png_encoded(width: u32, height: u32, rgba: Seq<u8>) -> Option<(Seq<u8>)>;

/// Relies on `png::Decoder` (`read_info`, `next_frame`) with palette and
/// transparency expanded: the first frame of the stream, which depends on the
/// stream alone.
#[verifier::external_body]
fn decode_png(png: &[u8]) -> (r: Option<(u32, u32, u8, Vec<u8>)>)
    ensures
        r is Some <==> png_decoded(png@) is Some,
        r is Some ==> png_decoded(png@)->Some_0 == (r->Some_0.0, r->Some_0.1, r->Some_0.2, r->Some_0.3@),
{
    let mut decoder = png::Decoder::new(std::io::Cursor::new(png));
    decoder.set_transformations(png::Transformations::EXPAND | png::Transformations::ALPHA);
    let mut reader = decoder.read_info().ok()?;
    let mut buf = vec![0u8; reader.output_buffer_size()];
    let info = reader.next_frame(&mut buf).ok()?;
    buf.truncate(info.buffer_size());
    let kind = match info.color_type {
        png::ColorType::Rgba => 0,
        png::ColorType::Grayscale => 1,
        png::ColorType::GrayscaleAlpha => 2,
        _ => 3,
    };
    Some((info.width, info.height, kind, buf))
}

/// Relies on `image::codecs::png::PngEncoder::write_image` with
/// `CompressionType::Default` and `FilterType::Adaptive`: the stream depends on
/// the image alone. The encoder panics unless the buffer holds four bytes a pixel.
#[verifier::external_body]
fn encode_png(width: u32, height: u32, rgba: &[u8]) -> (r: Option<Vec<u8>>)
    requires
        rgba@.len() == width * height * 4,
    ensures
        r is Some <==> png_encoded(width, height, rgba@) is Some,
        r is Some ==> r->Some_0@ == png_encoded(width, height, rgba@)->Some_0,
{
    let mut out: Vec<u8> = Vec::new();
    let encoder = image::codecs::png::PngEncoder::new_with_quality(
        &mut out,
        image::codecs::png::CompressionType::Default,
        image::codecs::png::FilterType::Adaptive,
    );
    encoder.write_image(rgba, width, height, image::ExtendedColorType::Rgba8).ok()?;
    Some(out)
}

/// Grayscale pixels as RGBA: each gray value thrice, then full opacity.
pub open spec fn gray_to_rgba(b: Seq<u8>) -> Seq<u8>
    decreases b.len(),
{
    if b.len() == 0 {
        Seq::empty()
    } else {
        gray_to_rgba(b.drop_last()) + seq![b.last(), b.last(), b.last(), 255u8]
    }
}

/// Gray-and-alpha pixel pairs as RGBA: the gray value thrice, then the alpha.
pub open spec fn gray_alpha_to_rgba(b: Seq<u8>) -> Seq<u8>
    decreases b.len(),
{
    if b.len() < 2 {
        Seq::empty()
    } else {
        gray_alpha_to_rgba(b.subrange(0, b.len() - 2)) + seq![
            b[b.len() - 2],
            b[b.len() - 2],
            b[b.len() - 2],
            b[b.len() - 1],
        ]
    }
}

/// The RGBA bytes of a decoded image of `pixels` of the given kind, or why there are none.
pub open spec fn rgba_of(width: u32, height: u32, kind: u8, pixels: Seq<u8>) -> Result<Seq<u8>, DmiError> {
    let n = width as int * height as int;
    if kind == 0 {
        if pixels.len() == n * 4 {
            Ok(pixels)
        } else {
            Err(DmiError::Encoding)
        }
    } else if kind == 1 {
        if pixels.len() == n {
            Ok(gray_to_rgba(pixels))
        } else {
            Err(DmiError::Encoding)
        }
    } else if kind == 2 {
        if pixels.len() == n * 2 {
            Ok(gray_alpha_to_rgba(pixels))
        } else {
            Err(DmiError::Encoding)
        }
    } else {
        Err(DmiError::UnsupportedColorType)
    }
}

proof fn lemma_gray_len(b: Seq<u8>)
    ensures
        gray_to_rgba(b).len() == b.len() * 4,
    decreases b.len(),
{
    if b.len() > 0 {
        lemma_gray_len(b.drop_last());
    }
}

proof fn lemma_gray_alpha_len(b: Seq<u8>)
    requires
        b.len() % 2 == 0,
    ensures
        gray_alpha_to_rgba(b).len() == b.len() * 2,
    decreases b.len(),
{
    if b.len() >= 2 {
        lemma_gray_alpha_len(b.subrange(0, b.len() - 2));
    }
}

/// Expands a decoded image to RGBA bytes: see `rgba_of`.
pub fn to_rgba(width: u32, height: u32, kind: u8, pixels: Vec<u8>) -> (r: Result<Vec<u8>, DmiError>)
    ensures
        match rgba_of(width, height, kind, pixels@) {
            Ok(b) => r is Ok && r->Ok_0@ == b && b.len() == width as int * height as int * 4,
            Err(e) => r matches Err(e2) && e2 == e,
        },
{
    assert(width as int * height as int <= u32::MAX as int * u32::MAX as int) by (nonlinear_arith)
        requires width <= u32::MAX, height <= u32::MAX;
    let n = width as u64 * height as u64;
    if kind == 0 {
        if pixels.len() as u64 / 4 == n && pixels.len() % 4 == 0 {
            Ok(pixels)
        } else {
            Err(DmiError::Encoding)
        }
    } else if kind == 1 {
        if pixels.len() as u64 != n {
            return Err(DmiError::Encoding);
        }
        let mut out: Vec<u8> = Vec::new();
        let mut i: usize = 0;
        while i < pixels.len()
            invariant
                i <= pixels@.len(),
                out@ == gray_to_rgba(pixels@.subrange(0, i as int)),
            decreases pixels@.len() - i,
        {
            let g = pixels[i];
            out.push(g);
            out.push(g);
            out.push(g);
            out.push(255);
            proof {
                let s = pixels@.subrange(0, i + 1);
                assert(s.drop_last() =~= pixels@.subrange(0, i as int));
                assert(out@ =~= gray_to_rgba(s));
            }
            i = i + 1;
        }
        assert(pixels@.subrange(0, i as int) =~= pixels@);
        proof {
            lemma_gray_len(pixels@);
        }
        Ok(out)
    } else if kind == 2 {
        if pixels.len() as u64 / 2 != n || pixels.len() % 2 != 0 {
            return Err(DmiError::Encoding);
        }
        let mut out: Vec<u8> = Vec::new();
        let mut i: usize = 0;
        while i + 1 < pixels.len()
            invariant
                i <= pixels@.len(),
                i % 2 == 0,
                pixels@.len() % 2 == 0,
                out@ == gray_alpha_to_rgba(pixels@.subrange(0, i as int)),
            decreases pixels@.len() - i,
        {
            let g = pixels[i];
            let a = pixels[i + 1];
            out.push(g);
            out.push(g);
            out.push(g);
            out.push(a);
            proof {
                let s = pixels@.subrange(0, i + 2);
                assert(s.subrange(0, s.len() - 2) =~= pixels@.subrange(0, i as int));
                assert(out@ =~= gray_alpha_to_rgba(s));
            }
            i = i + 2;
        }
        assert(pixels@.subrange(0, i as int) =~= pixels@);
        proof {
            lemma_gray_alpha_len(pixels@);
        }
        Ok(out)
    } else {
        Err(DmiError::UnsupportedColorType)
    }
}

/// Decodes a PNG stream to its width, height and RGBA bytes.
///
/// Fails with `Encoding` where the codec cannot decode the stream or its pixels
/// do not fill the image, and with `UnsupportedColorType` where they are neither
/// RGBA nor gray.
pub fn decode_rgba(png: &[u8]) -> (r: Result<(u32, u32, Vec<u8>), DmiError>)
    ensures
        match png_decoded(png@) {
            None => r == Err::<(u32, u32, Vec<u8>), DmiError>(DmiError::Encoding),
            Some((w, h, kind, pixels)) => match rgba_of(w, h, kind, pixels) {
                Ok(b) => r is Ok && r->Ok_0.0 == w && r->Ok_0.1 == h && r->Ok_0.2@ == b,
                Err(e) => r matches Err(e2) && e2 == e,
            },
        },
{
    match decode_png(png) {
        None => Err(DmiError::Encoding),
        Some((w, h, kind, pixels)) => {
            let rgba = to_rgba(w, h, kind, pixels)?;
            Ok((w, h, rgba))
        },
    }
}

/// Encodes RGBA bytes as a PNG stream; fails with `Encoding` where the codec does.
pub fn encode_rgba(width: u32, height: u32, rgba: &[u8]) -> (r: Result<Vec<u8>, DmiError>)
    requires
        rgba@.len() == width * height * 4,
    ensures
        match png_encoded(width, height, rgba@) {
            None => r == Err::<Vec<u8>, DmiError>(DmiError::Encoding),
            Some(b) => r is Ok && r->Ok_0@ == b,
        },
{
    match encode_png(width, height, rgba) {
        None => Err(DmiError::Encoding),
        Some(b) => Ok(b),
    }
}

/// Rows `0..rows` of a block `row_bytes` wide whose first row starts at
/// `first`, in a buffer whose rows are `stride` bytes apart.
pub open spec fn block_rows(buf: Seq<u8>, stride: int, first: int, row_bytes: int, rows: int) -> Seq<u8>
    decreases rows,
{
    if rows <= 0 {
        Seq::empty()
    } else {
        block_rows(buf, stride, first, row_bytes, rows - 1) + buf.subrange(
            first + (rows - 1) * stride,
            first + (rows - 1) * stride + row_bytes,
        )
    }
}

/// The RGBA bytes of tile `i` of an image `img_width` pixels wide, cut into tiles
/// of `width` by `height` numbered row by row.
pub open spec fn tile_at(buf: Seq<u8>, img_width: int, width: int, height: int, i: int) -> Seq<u8> {
    let cols = img_width / width;
    let x = (i % cols) * width;
    let y = (i / cols) * height;
    block_rows(buf, img_width * 4, (y * img_width + x) * 4, width * 4, height)
}

/// The geometry in which tiles can be cut from an image.
pub open spec fn tiles_fit(img_width: int, img_height: int, width: int, height: int, len: int) -> bool {
    &&& width > 0
    &&& height > 0
    &&& img_width % width == 0
    &&& img_height % height == 0
    &&& len == img_width * img_height * 4
}

proof fn lemma_row_in_bounds(img_width: int, img_height: int, width: int, height: int, i: int, r: int)
    requires
        width > 0,
        height > 0,
        img_width % width == 0,
        img_height % height == 0,
        img_width >= 0,
        img_height >= 0,
        0 <= i < (img_width / width) * (img_height / height),
        0 <= r < height,
    ensures
        0 <= ((i / (img_width / width)) * height * img_width + (i % (img_width / width)) * width) * 4 + r * (img_width * 4),
        ((i / (img_width / width)) * height * img_width + (i % (img_width / width)) * width) * 4 + r * (img_width * 4)
            + width * 4 <= img_width * img_height * 4,
        (i / (img_width / width)) * height + r < img_height,
        (i % (img_width / width)) * width + width <= img_width,
        0 <= i / (img_width / width),
        0 <= i % (img_width / width),
{
    let cols = img_width / width;
    let rows = img_height / height;
    let cx = i % cols;
    let cy = i / cols;
    assert(cols > 0) by (nonlinear_arith)
        requires 0 <= i < cols * rows, cols >= 0, rows >= 0;
    assert(img_width == cols * width) by (nonlinear_arith)
        requires img_width % width == 0, cols == img_width / width, width > 0;
    assert(img_height == rows * height) by (nonlinear_arith)
        requires img_height % height == 0, rows == img_height / height, height > 0;
    assert(0 <= cx < cols) by (nonlinear_arith)
        requires cols > 0, cx == i % cols, i >= 0;
    assert(0 <= cy < rows) by (nonlinear_arith)
        requires cols > 0, cy == i / cols, 0 <= i < cols * rows;
    assert(cx * width + width <= img_width) by (nonlinear_arith)
        requires cx < cols, width > 0, img_width == cols * width, cx >= 0;
    assert(cy * height + r + 1 <= img_height) by (nonlinear_arith)
        requires cy < rows, height > 0, img_height == rows * height, r < height, cy >= 0;
    assert(((cy * height * img_width + cx * width) * 4 + r * (img_width * 4)) + width * 4
        == ((cy * height + r) * img_width + cx * width + width) * 4) by (nonlinear_arith);
    assert(((cy * height + r) * img_width + cx * width + width) * 4 <= ((cy * height + r) * img_width + img_width) * 4)
        by (nonlinear_arith)
        requires cx * width + width <= img_width;
    assert(((cy * height + r) * img_width + img_width) == (cy * height + r + 1) * img_width) by (nonlinear_arith);
    assert((cy * height + r + 1) * img_width <= img_height * img_width) by (nonlinear_arith)
        requires cy * height + r + 1 <= img_height, img_width >= 0;
    assert(img_height * img_width * 4 == img_width * img_height * 4) by (nonlinear_arith);
    assert(0 <= (cy * height * img_width + cx * width) * 4 + r * (img_width * 4)) by (nonlinear_arith)
        requires cy >= 0, height > 0, img_width >= 0, cx >= 0, width > 0, r >= 0;
}

/// Cuts tile `i` out of an RGBA image: see `tile_at`.
pub fn crop_tile(buf: &[u8], img_width: u32, img_height: u32, width: u32, height: u32, i: u64) -> (r: Vec<u8>)
    requires
        tiles_fit(img_width as int, img_height as int, width as int, height as int, buf@.len() as int),
        i < (img_width / width) * (img_height / height),
    ensures
        r@ == tile_at(buf@, img_width as int, width as int, height as int, i as int),
{
    let cols = (img_width / width) as u64;
    assert(cols > 0) by (nonlinear_arith)
        requires i < cols * (img_height / height), i >= 0, cols >= 0, img_height / height >= 0;
    let cx = i % cols;
    let cy = i / cols;
    assert(cx < cols) by (nonlinear_arith)
        requires cx == i % cols, cols > 0;
    assert(cx <= u32::MAX);
    let ghost first = ((cy * height * img_width + cx * width) * 4) as int;
    let mut out: Vec<u8> = Vec::new();
    let mut r: u32 = 0;
    while r < height
        invariant
            r <= height,
            tiles_fit(img_width as int, img_height as int, width as int, height as int, buf@.len() as int),
            i < (img_width / width) * (img_height / height),
            cols == img_width / width,
            cx == i % cols,
            cy == i / cols,
            first == ((cy * height * img_width + cx * width) * 4) as int,
            out@ == block_rows(buf@, img_width * 4, first, width * 4, r as int),
        decreases height - r,
    {
        proof {
            lemma_row_in_bounds(img_width as int, img_height as int, width as int, height as int, i as int, r as int);
        }
        assert(cy as int * height as int <= u32::MAX) by (nonlinear_arith)
            requires cy as int * height as int + r < img_height, r >= 0, img_height <= u32::MAX;
        let row = cy as u64 * height as u64 + r as u64;
        assert(row * img_width as int <= img_height as int * img_width as int) by (nonlinear_arith)
            requires row < img_height, img_width >= 0;
        assert(img_height as int * img_width as int <= u32::MAX as int * u32::MAX as int) by (nonlinear_arith)
            requires img_height <= u32::MAX, img_width <= u32::MAX, img_height >= 0, img_width >= 0;
        assert(cx as int * width as int <= img_width) by (nonlinear_arith)
            requires cx as int * width as int + width <= img_width, width >= 0;
        assert((row * img_width + cx * width) * 4 == first + r * (img_width * 4)) by (nonlinear_arith)
            requires row == cy * height + r, first == (cy * height * img_width + cx * width) * 4;
        assert(first + r * (img_width * 4) + width * 4 <= buf@.len());
        let a = row * img_width as u64;
        let b = cx as u64 * width as u64;
        let c = a + b;
        let blen = buf.len();
        assert(c * 4 + width * 4 <= blen);
        let start = (c * 4) as usize;
        let end = start + width as usize * 4;
        push_all(&mut out, &buf[start..end]);
        r = r + 1;
    }
    proof {
        assert(cy * height * img_width + cx * width == (i / cols) * height * img_width + (i % cols) * width);
    }
    out
}

/// Bytes of row `y` of the atlas within cell column `cx`: the matching row of the
/// tile placed there, or transparent black where no tile is.
pub open spec fn cell_row(tiles: Seq<Seq<u8>>, cols: int, width: int, height: int, y: int, cx: int) -> Seq<u8> {
    let i = (y / height) * cols + cx;
    if i < tiles.len() {
        tiles[i].subrange((y % height) * width * 4, (y % height) * width * 4 + width * 4)
    } else {
        Seq::new((width * 4) as nat, |j: int| 0u8)
    }
}

/// Row `y` of the atlas, over its first `ncx` cell columns.
pub open spec fn atlas_row(tiles: Seq<Seq<u8>>, cols: int, width: int, height: int, y: int, ncx: int) -> Seq<u8>
    decreases ncx,
{
    if ncx <= 0 {
        Seq::empty()
    } else {
        atlas_row(tiles, cols, width, height, y, ncx - 1) + cell_row(tiles, cols, width, height, y, ncx - 1)
    }
}

/// The first `nrows` pixel rows of the atlas that places tile `i` in cell column
/// `i % cols` and cell row `i / cols`.
pub open spec fn atlas(tiles: Seq<Seq<u8>>, cols: int, width: int, height: int, nrows: int) -> Seq<u8>
    decreases nrows,
{
    if nrows <= 0 {
        Seq::empty()
    } else {
        atlas(tiles, cols, width, height, nrows - 1) + atlas_row(tiles, cols, width, height, nrows - 1, cols)
    }
}

proof fn lemma_atlas_row_len(tiles: Seq<Seq<u8>>, cols: int, width: int, height: int, y: int, ncx: int)
    requires
        width > 0,
        height > 0,
        0 <= y,
        0 <= ncx,
        0 <= cols,
        forall|i: int| 0 <= i < tiles.len() ==> (#[trigger] tiles[i]).len() == width * height * 4,
    ensures
        atlas_row(tiles, cols, width, height, y, ncx).len() == ncx * width * 4,
    decreases ncx,
{
    if ncx > 0 {
        lemma_atlas_row_len(tiles, cols, width, height, y, ncx - 1);
        let i = (y / height) * cols + ncx - 1;
        assert(i >= 0) by (nonlinear_arith)
            requires i == (y / height) * cols + ncx - 1, y >= 0, height > 0, cols >= 0, ncx >= 1;
        if 0 <= i < tiles.len() {
            lemma_row_of_tile(width, height, y);
        }
        assert(cell_row(tiles, cols, width, height, y, ncx - 1).len() == width * 4);
        assert((ncx - 1) * width * 4 + width * 4 == ncx * width * 4) by (nonlinear_arith);
        assert(atlas_row(tiles, cols, width, height, y, ncx) == atlas_row(tiles, cols, width, height, y, ncx - 1)
            + cell_row(tiles, cols, width, height, y, ncx - 1));
    } else {
        assert(ncx * width * 4 == 0) by (nonlinear_arith)
            requires ncx == 0;
    }
}

proof fn lemma_row_of_tile(width: int, height: int, y: int)
    requires
        width > 0,
        height > 0,
        0 <= y,
    ensures
        0 <= (y % height) * width * 4,
        (y % height) * width * 4 + width * 4 <= width * height * 4,
{
    assert(0 <= y % height < height) by (nonlinear_arith)
        requires height > 0, y >= 0;
    assert((y % height) * width * 4 + width * 4 <= width * height * 4) by (nonlinear_arith)
        requires y % height < height, y % height >= 0, width > 0;
    assert(0 <= (y % height) * width * 4) by (nonlinear_arith)
        requires y % height >= 0, width > 0;
}

pub proof fn lemma_atlas_len(tiles: Seq<Seq<u8>>, cols: int, width: int, height: int, nrows: int)
    requires
        width > 0,
        height > 0,
        0 <= nrows,
        0 <= cols,
        forall|i: int| 0 <= i < tiles.len() ==> (#[trigger] tiles[i]).len() == width * height * 4,
    ensures
        atlas(tiles, cols, width, height, nrows).len() == nrows * (cols * width * 4),
    decreases nrows,
{
    if nrows > 0 {
        lemma_atlas_len(tiles, cols, width, height, nrows - 1);
        lemma_atlas_row_len(tiles, cols, width, height, nrows - 1, cols);
        assert((nrows - 1) * (cols * width * 4) + cols * width * 4 == nrows * (cols * width * 4)) by (nonlinear_arith);
    } else {
        assert(nrows * (cols * width * 4) == 0) by (nonlinear_arith)
            requires nrows == 0;
    }
}

/// Lays tiles out row by row in an atlas of `cols` by `rows` cells.
pub fn pack_atlas(tiles: &Vec<Vec<u8>>, cols: u32, rows: u32, width: u32, height: u32) -> (r: Vec<u8>)
    requires
        width > 0,
        height > 0,
        forall|i: int| 0 <= i < tiles@.len() ==> (#[trigger] tiles@[i])@.len() == width * height * 4,
        rows as int * height as int * cols as int * width as int * 4 <= usize::MAX,
        width as int * 4 <= usize::MAX,
    ensures
        r@ == atlas(tiles@.map_values(|t: Vec<u8>| t@), cols as int, width as int, height as int, rows * height),
{
    let ghost ts = tiles@.map_values(|t: Vec<u8>| t@);
    assert(forall|i: int| 0 <= i < ts.len() ==> (#[trigger] ts[i]).len() == width * height * 4);
    assert(rows as int * height as int <= u32::MAX as int * u32::MAX as int) by (nonlinear_arith)
        requires rows <= u32::MAX, height <= u32::MAX;
    let nrows: u64 = rows as u64 * height as u64;
    let mut out: Vec<u8> = Vec::new();
    let mut y: u64 = 0;
    let zeros: Vec<u8> = vec![0u8; width as usize * 4];
    assert(zeros@ =~= Seq::new((width * 4) as nat, |j: int| 0u8));
    while y < nrows
        invariant
            y <= nrows,
            nrows == rows * height,
            width > 0,
            height > 0,
            ts == tiles@.map_values(|t: Vec<u8>| t@),
            forall|i: int| 0 <= i < ts.len() ==> (#[trigger] ts[i]).len() == width * height * 4,
            zeros@ == Seq::new((width * 4) as nat, |j: int| 0u8),
            out@ == atlas(ts, cols as int, width as int, height as int, y as int),
        decreases nrows - y,
    {
        let cy = y / height as u64;
        let ry = y % height as u64;
        let mut cx: u32 = 0;
        let ghost row_start = out@;
        while cx < cols
            invariant
                cx <= cols,
                y < nrows,
                nrows == rows * height,
                cy as int == y as int / height as int,
                ry as int == y as int % height as int,
                width > 0,
                height > 0,
                ts == tiles@.map_values(|t: Vec<u8>| t@),
                forall|i: int| 0 <= i < ts.len() ==> (#[trigger] ts[i]).len() == width * height * 4,
                zeros@ == Seq::new((width * 4) as nat, |j: int| 0u8),
                out@ == row_start + atlas_row(ts, cols as int, width as int, height as int, y as int, cx as int),
            decreases cols - cx,
        {
            assert(cy <= u32::MAX as int) by (nonlinear_arith)
                requires cy as int == y as int / height as int, y < rows as int * height as int, height > 0, rows <= u32::MAX;
            assert(cy as int * cols as int + cx as int <= u32::MAX as int * u32::MAX as int + u32::MAX as int)
                by (nonlinear_arith)
                requires cy <= u32::MAX, cols <= u32::MAX, cx <= u32::MAX, cy >= 0, cols >= 0;
            let i: u64 = cy * cols as u64 + cx as u64;
            if i < tiles.len() as u64 {
                let t = &tiles[i as usize];
                proof {
                    lemma_row_of_tile(width as int, height as int, y as int);
                    assert(ts[i as int] == t@);
                }
                let tlen = t.len();
                assert(ry * width * 4 + width * 4 <= tlen);
                assert(ry * width <= ry * width * 4) by (nonlinear_arith)
                    requires ry >= 0, width >= 0;
                let start = (ry * width as u64 * 4) as usize;
                let end = start + width as usize * 4;
                push_all(&mut out, &t[start..end]);
            } else {
                push_all(&mut out, zeros.as_slice());
            }
            cx = cx + 1;
        }
        y = y + 1;
    }
    out
}

/// The number of cell columns of an atlas for `n` tiles: the least `c` of at least
/// one with `c * c >= n`.
pub fn atlas_columns(n: u32) -> (c: u32)
    ensures
        c >= 1,
        c <= 65536,
        c as int * c as int >= n,
        c == 1 || (c - 1) * (c - 1) < n,
{
    let mut c: u64 = 1;
    loop
        invariant
            1 <= c <= 65536,
            c == 1 || (c - 1) * (c - 1) < n,
        ensures
            1 <= c <= 65536,
            c * c >= n,
            c == 1 || (c - 1) * (c - 1) < n,
        decreases 65536 - c,
    {
        assert(c * c <= 65536 * 65536) by (nonlinear_arith)
            requires 1 <= c <= 65536;
        if c * c >= n as u64 {
            break;
        }
        assert(c < 65536) by (nonlinear_arith)
            requires c * c < n, n <= u32::MAX, c >= 1;
        c = c + 1;
    }
    c as u32
}

} // verus!
