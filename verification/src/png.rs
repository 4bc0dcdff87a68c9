//! Small images without an image library: the size of PNG and JPEG
//! pictures, and PNG files written with uncompressed (stored) deflate
//! blocks, among them the document icon shown for embedded files.

use vstd::prelude::*;

verus! {

// ---------------------------------------------------------------------
// Checksums
// ---------------------------------------------------------------------

/// `k` rounds of the bitwise CRC-32 (reflected polynomial `0xEDB88320`).
pub open spec fn crc_rounds(c: u32, k: nat) -> u32
    decreases k,
{
    if k == 0 {
        c
    } else {
        let next: u32 = if c & 1 != 0 { (c >> 1) ^ 0xEDB8_8320 } else { c >> 1 };
        crc_rounds(next, (k - 1) as nat)
    }
}

/// The CRC-32 register after the bytes of `data`, from all ones.
pub open spec fn crc_register(data: Seq<u8>) -> u32
    decreases data.len(),
{
    if data.len() == 0 {
        0xFFFF_FFFF
    } else {
        crc_rounds(crc_register(data.drop_last()) ^ (data.last() as u32), 8)
    }
}

/// The CRC-32 of `data` (as PNG chunks use it).
pub open spec fn crc32_spec(data: Seq<u8>) -> u32 {
    crc_register(data) ^ 0xFFFF_FFFF
}

/// The CRC-32 of `data`.
pub fn crc32(data: &[u8]) -> (r: u32)
    ensures
        r == crc32_spec(data@),
{
    let mut crc: u32 = 0xFFFF_FFFF;
    let mut i: usize = 0;
    while i < data.len()
        invariant
            i <= data@.len(),
            crc == crc_register(data@.take(i as int)),
        decreases data@.len() - i,
    {
        assert(data@.take(i + 1).drop_last() == data@.take(i as int));
        assert(data@.take(i + 1).last() == data@[i as int]);
        let start: u32 = crc ^ (data[i] as u32);
        crc = start;
        let mut k: u32 = 0;
        while k < 8
            invariant
                k <= 8,
                crc_rounds(start, 8) == crc_rounds(crc, (8 - k) as nat),
            decreases 8 - k,
        {
            if crc & 1 != 0 {
                crc = (crc >> 1) ^ 0xEDB8_8320;
            } else {
                crc = crc >> 1;
            }
            k += 1;
        }
        i += 1;
    }
    assert(data@.take(data@.len() as int) == data@);
    crc ^ 0xFFFF_FFFF
}

/// The two Adler-32 sums after the bytes of `data`.
pub open spec fn adler_sums(data: Seq<u8>) -> (u32, u32)
    decreases data.len(),
{
    if data.len() == 0 {
        (1, 0)
    } else {
        let (a, b) = adler_sums(data.drop_last());
        let a2 = ((a + data.last()) % 65521) as u32;
        (a2, ((b + a2) % 65521) as u32)
    }
}

/// The sums stay below the modulus.
proof fn lemma_adler_small(data: Seq<u8>)
    ensures
        adler_sums(data).0 < 65521,
        adler_sums(data).1 < 65521,
    decreases data.len(),
{
    if data.len() > 0 {
        lemma_adler_small(data.drop_last());
    }
}

/// The Adler-32 checksum of `data` (as zlib streams end with it).
pub open spec fn adler32_spec(data: Seq<u8>) -> u32 {
    (adler_sums(data).1 << 16) | adler_sums(data).0
}

/// The Adler-32 checksum of `data`.
pub fn adler32(data: &[u8]) -> (r: u32)
    ensures
        r == adler32_spec(data@),
{
    let mut a: u32 = 1;
    let mut b: u32 = 0;
    let mut i: usize = 0;
    while i < data.len()
        invariant
            i <= data@.len(),
            (a, b) == adler_sums(data@.take(i as int)),
            a < 65521,
            b < 65521,
        decreases data@.len() - i,
    {
        assert(data@.take(i + 1).drop_last() == data@.take(i as int));
        assert(data@.take(i + 1).last() == data@[i as int]);
        a = (a + data[i] as u32) % 65521;
        b = (b + a) % 65521;
        i += 1;
    }
    assert(data@.take(data@.len() as int) == data@);
    (b << 16) | a
}

// ---------------------------------------------------------------------
// Writing PNG files
// ---------------------------------------------------------------------

/// The four bytes of `x`, most significant first.
pub open spec fn be32(x: u32) -> Seq<u8> {
    seq![(x >> 24) as u8, ((x >> 16) & 0xff) as u8, ((x >> 8) & 0xff) as u8, (x & 0xff) as u8]
}

/// The two bytes of `x`, least significant first.
pub open spec fn le16(x: u16) -> Seq<u8> {
    seq![(x & 0xff) as u8, (x >> 8) as u8]
}

/// Appends the bytes of `x`, most significant first.
fn push_be32(out: &mut Vec<u8>, x: u32)
    ensures
        final(out)@ == old(out)@ + be32(x),
{
    out.push((x >> 24) as u8);
    out.push(((x >> 16) & 0xff) as u8);
    out.push(((x >> 8) & 0xff) as u8);
    out.push((x & 0xff) as u8);
    assert(out@ =~= old(out)@ + be32(x));
}

/// Appends the bytes of `x`, least significant first.
fn push_le16(out: &mut Vec<u8>, x: u16)
    ensures
        final(out)@ == old(out)@ + le16(x),
{
    out.push((x & 0xff) as u8);
    out.push((x >> 8) as u8);
    assert(out@ =~= old(out)@ + le16(x));
}

/// Appends all of `data`.
fn push_all(out: &mut Vec<u8>, data: &[u8])
    ensures
        final(out)@ == old(out)@ + data@,
{
    push_slice(out, data, 0, data.len());
    assert(data@.subrange(0, data@.len() as int) == data@);
}

/// Appends `data[lo..hi]`.
fn push_slice(out: &mut Vec<u8>, data: &[u8], lo: usize, hi: usize)
    requires
        lo <= hi <= data@.len(),
    ensures
        final(out)@ == old(out)@ + data@.subrange(lo as int, hi as int),
{
    let mut k = lo;
    while k < hi
        invariant
            lo <= k <= hi <= data@.len(),
            out@ == old(out)@ + data@.subrange(lo as int, k as int),
        decreases hi - k,
    {
        out.push(data[k]);
        k += 1;
        assert(data@.subrange(lo as int, k as int) == data@.subrange(lo as int, k - 1).push(data@[k - 1]));
    }
}

/// A PNG chunk: the length of its data (as 32 bits), its type, its data
/// and the CRC-32 of type and data.
pub open spec fn png_chunk_bytes(ctype: Seq<u8>, data: Seq<u8>) -> Seq<u8> {
    be32(data.len() as u32) + ctype + data + be32(crc32_spec(ctype + data))
}

/// Appends a PNG chunk of type `ctype` (see [`png_chunk_bytes`]).
pub fn png_chunk(out: &mut Vec<u8>, ctype: &[u8; 4], data: &[u8])
    ensures
        final(out)@ == old(out)@ + png_chunk_bytes(ctype@, data@),
{
    let ghost o0 = out@;
    push_be32(out, data.len() as u32);
    push_all(out, ctype.as_slice());
    push_all(out, data);
    let mut crc_input: Vec<u8> = Vec::new();
    push_all(&mut crc_input, ctype.as_slice());
    push_all(&mut crc_input, data);
    let c = crc32(crc_input.as_slice());
    push_be32(out, c);
    assert(out@ =~= o0 + png_chunk_bytes(ctype@, data@));
}

/// Stored deflate blocks holding `raw[offset..]`: blocks of at most
/// 65535 bytes, each with its final flag, its length and the length's
/// complement; nothing when no byte is left.
pub open spec fn stored_blocks(raw: Seq<u8>, offset: nat) -> Seq<u8>
    decreases raw.len() - offset,
{
    if offset >= raw.len() {
        Seq::empty()
    } else {
        let n: nat = if raw.len() - offset < 65535 { (raw.len() - offset) as nat } else { 65535 };
        let last = offset + n >= raw.len();
        seq![if last { 1u8 } else { 0u8 }] + le16(n as u16) + le16(!(n as u16))
            + raw.subrange(offset as int, (offset + n) as int) + stored_blocks(raw, offset + n)
    }
}

/// The zlib stream of `raw` with stored blocks: the header `78 01`, the
/// blocks and the Adler-32 checksum.
pub open spec fn zlib_stored(raw: Seq<u8>) -> Seq<u8> {
    seq![0x78u8, 0x01u8] + stored_blocks(raw, 0) + be32(adler32_spec(raw))
}

/// The PNG signature.
pub open spec fn png_signature() -> Seq<u8> {
    seq![0x89u8, 0x50u8, 0x4Eu8, 0x47u8, 0x0Du8, 0x0Au8, 0x1Au8, 0x0Au8]
}

/// A PNG file of `w` by `h` pixels, 8 bits a sample, of colour type
/// `color_type`, whose filtered scan lines are `raw`: the signature and
/// the `IHDR`, `IDAT` (zlib with stored blocks) and `IEND` chunks.
pub open spec fn png_file(w: u32, h: u32, color_type: u8, raw: Seq<u8>) -> Seq<u8> {
    let ihdr = be32(w) + be32(h) + seq![8u8, color_type, 0u8, 0u8, 0u8];
    png_signature() + png_chunk_bytes(seq![0x49u8, 0x48u8, 0x44u8, 0x52u8], ihdr)
        + png_chunk_bytes(seq![0x49u8, 0x44u8, 0x41u8, 0x54u8], zlib_stored(raw))
        + png_chunk_bytes(seq![0x49u8, 0x45u8, 0x4Eu8, 0x44u8], Seq::empty())
}

/// The zlib stream of `raw` with stored blocks.
fn zlib_stored_exec(raw: &[u8]) -> (z: Vec<u8>)
    ensures
        z@ == zlib_stored(raw@),
{
    let mut z: Vec<u8> = Vec::new();
    z.push(0x78);
    z.push(0x01);
    let mut offset: usize = 0;
    while offset < raw.len()
        invariant
            offset <= raw@.len(),
            z@ + stored_blocks(raw@, offset as nat) == seq![0x78u8, 0x01u8] + stored_blocks(raw@, 0),
        decreases raw@.len() - offset,
    {
        let left = raw.len() - offset;
        let n: usize = if left < 65535 { left } else { 65535 };
        let last = offset + n >= raw.len();
        let ghost z0 = z@;
        z.push(if last { 1u8 } else { 0u8 });
        let len16 = n as u16;
        push_le16(&mut z, len16);
        push_le16(&mut z, !len16);
        push_slice(&mut z, raw, offset, offset + n);
        assert(z@ + stored_blocks(raw@, (offset + n) as nat) =~= z0 + stored_blocks(raw@, offset as nat));
        offset = offset + n;
    }
    let a = adler32(raw);
    push_be32(&mut z, a);
    assert(z@ =~= zlib_stored(raw@));
    z
}

/// A PNG file of `w` by `h` pixels with filtered scan lines `raw` (see
/// [`png_file`]).
pub fn encode_png(w: u32, h: u32, color_type: u8, raw: &[u8]) -> (png: Vec<u8>)
    ensures
        png@ == png_file(w, h, color_type, raw@),
{
    let zlib = zlib_stored_exec(raw);
    let mut ihdr: Vec<u8> = Vec::new();
    push_be32(&mut ihdr, w);
    push_be32(&mut ihdr, h);
    ihdr.push(8);
    ihdr.push(color_type);
    ihdr.push(0);
    ihdr.push(0);
    ihdr.push(0);
    let mut png: Vec<u8> = Vec::new();
    png.push(0x89);
    png.push(0x50);
    png.push(0x4E);
    png.push(0x47);
    png.push(0x0D);
    png.push(0x0A);
    png.push(0x1A);
    png.push(0x0A);
    assert(png@ =~= png_signature());
    let ghost p1 = png@;
    png_chunk(&mut png, &[0x49, 0x48, 0x44, 0x52], ihdr.as_slice());
    png_chunk(&mut png, &[0x49, 0x44, 0x41, 0x54], zlib.as_slice());
    let empty: Vec<u8> = Vec::new();
    png_chunk(&mut png, &[0x49, 0x45, 0x4E, 0x44], empty.as_slice());
    assert(ihdr@ =~= be32(w) + be32(h) + seq![8u8, color_type, 0u8, 0u8, 0u8]);
    assert(empty@ =~= Seq::<u8>::empty());
    png
}

/// Byte `c` of a scan line of a solid image: the filter byte 0, then the
/// red, green and blue samples of each pixel.
pub open spec fn solid_byte(rgb: (u8, u8, u8), c: int) -> u8 {
    if c == 0 {
        0u8
    } else if (c - 1) % 3 == 0 {
        rgb.0
    } else if (c - 1) % 3 == 1 {
        rgb.1
    } else {
        rgb.2
    }
}

/// The filtered scan lines of a `w` by `h` image of one RGB colour:
/// each line is the filter byte 0 and `w` pixels.
pub open spec fn solid_raw(w: u32, h: u32, rgb: (u8, u8, u8)) -> Seq<u8> {
    Seq::new((h * (1 + 3 * w)) as nat, |i: int| solid_byte(rgb, i % (1 + 3 * w)))
}

/// One scan line of a solid image.
fn solid_line(out: &mut Vec<u8>, w: u32, rgb: (u8, u8, u8))
    ensures
        final(out)@.len() == old(out)@.len() + 1 + 3 * w,
        forall|i: int| 0 <= i < old(out)@.len() ==> #[trigger] final(out)@[i] == old(out)@[i],
        forall|c: int| 0 <= c < 1 + 3 * w ==> #[trigger] final(out)@[old(out)@.len() + c] == solid_byte(rgb, c),
{
    let ghost n0 = out@.len();
    let ghost o0 = out@;
    out.push(0u8);
    let mut x: u32 = 0;
    while x < w
        invariant
            x <= w,
            out@.len() == n0 + 1 + 3 * x,
            forall|i: int| 0 <= i < n0 ==> #[trigger] out@[i] == o0[i],
            forall|c: int| 0 <= c < 1 + 3 * x ==> #[trigger] out@[n0 + c] == solid_byte(rgb, c),
        decreases w - x,
    {
        let ghost b = 1 + 3 * x;
        out.push(rgb.0);
        out.push(rgb.1);
        out.push(rgb.2);
        assert((b - 1) % 3 == 0 && (b + 1 - 1) % 3 == 1 && (b + 2 - 1) % 3 == 2);
        assert(solid_byte(rgb, b) == rgb.0 && solid_byte(rgb, b + 1) == rgb.1 && solid_byte(rgb, b + 2) == rgb.2);
        x += 1;
    }
}

/// The scan lines of a `w` by `h` image of one colour.
fn solid_raw_exec(w: u32, h: u32, rgb: (u8, u8, u8)) -> (raw: Vec<u8>)
    ensures
        raw@ == solid_raw(w, h, rgb),
{
    let ghost line = 1 + 3 * w;
    let mut raw: Vec<u8> = Vec::new();
    let mut y: u32 = 0;
    while y < h
        invariant
            y <= h,
            line == 1 + 3 * w,
            raw@.len() == y * line,
            forall|i: int| 0 <= i < raw@.len() ==> #[trigger] raw@[i] == solid_byte(rgb, i % line),
        decreases h - y,
    {
        let ghost r0 = raw@;
        solid_line(&mut raw, w, rgb);
        proof {
            assert(raw@.len() == (y + 1) * line) by (nonlinear_arith)
                requires
                    raw@.len() == r0.len() + line,
                    r0.len() == y * line,
            ;
            assert forall|i: int| 0 <= i < raw@.len() implies #[trigger] raw@[i] == solid_byte(rgb, i % line) by {
                if i >= r0.len() {
                    let c = i - r0.len();
                    assert(raw@[r0.len() + c] == solid_byte(rgb, c));
                    assert(i % line == c) by (nonlinear_arith)
                        requires
                            i == y * line + c,
                            0 <= c < line,
                            line > 0,
                    ;
                } else {
                    assert(raw@[i] == r0[i]);
                }
            }
        }
        y += 1;
    }
    assert(raw@ =~= solid_raw(w, h, rgb));
    raw
}

/// A PNG file of a `w` by `h` image of one RGB colour.
pub fn make_solid_png(w: u32, h: u32, rgb: (u8, u8, u8)) -> (png: Vec<u8>)
    ensures
        png@ == png_file(w, h, 2, solid_raw(w, h, rgb)),
{
    let raw = solid_raw_exec(w, h, rgb);
    encode_png(w, h, 2, raw.as_slice())
}

/// Where the text lines of the icon start, their spacing, and where they
/// stop: below the folded corner, every ninth of the height.
pub open spec fn icon_text_rows(w: int, h: int) -> (int, int, int) {
    let left = w / 8;
    let right = w - w / 8;
    let top = h / 12;
    let bottom = h - h / 12;
    let fold = (right - left) / 3;
    (top + fold + h / 14, h / 9, bottom - h / 14)
}

/// The colour of pixel (`x`, `y`) of the document icon of `w` by `h`
/// pixels, as RGBA: a white sheet with a grey border inset by an eighth of
/// the width and a twelfth of the height, its top right corner folded
/// over (a light grey triangle, its diagonal in the border colour),
/// grey text lines across its middle two thirds, and transparency around.
pub open spec fn icon_pixel(w: int, h: int, x: int, y: int) -> (u8, u8, u8, u8) {
    let left = w / 8;
    let right = w - w / 8;
    let top = h / 12;
    let bottom = h - h / 12;
    let fold = (right - left) / 3;
    let (start, gap, limit) = icon_text_rows(w, h);
    let text_row = start <= y < limit && gap > 0 && (y - start) % gap == 0;
    let border = (0x6Bu8, 0x72u8, 0x80u8, 0xFFu8);
    if text_row && left + (right - left) / 6 <= x < right - (right - left) / 6 {
        (0xB4u8, 0xBAu8, 0xC4u8, 0xFFu8)
    } else if top <= y < bottom && left <= x < right {
        let dx = x - (right - fold);
        let dy = y - top;
        if x >= right - fold && y < top + fold && dx >= dy {
            if dx == dy { border } else { (0xD0u8, 0xD5u8, 0xDDu8, 0xFFu8) }
        } else if x == left || x == right - 1 || y == top || y == bottom - 1 {
            border
        } else {
            (0xFFu8, 0xFFu8, 0xFFu8, 0xFFu8)
        }
    } else {
        (0u8, 0u8, 0u8, 0u8)
    }
}

/// Sample `k` (0 to 3) of an RGBA colour.
pub open spec fn sample(c: (u8, u8, u8, u8), k: int) -> u8 {
    if k == 0 { c.0 } else if k == 1 { c.1 } else if k == 2 { c.2 } else { c.3 }
}

/// The filtered scan lines of the document icon: for each row the filter
/// byte 0 and the RGBA samples of its pixels.
pub open spec fn icon_raw(w: u32, h: u32) -> Seq<u8> {
    let line = 1 + 4 * w;
    Seq::new(
        (h * line) as nat,
        |i: int| {
            let c = i % line;
            if c == 0 { 0u8 } else { sample(icon_pixel(w as int, h as int, (c - 1) / 4, i / line), (c - 1) % 4) }
        },
    )
}

/// The icon can be drawn: its pixel buffer and scan lines fit 32-bit
/// arithmetic, and
/// the text lines advance (an icon less than 9 pixels high has none to
/// draw).
pub open spec fn icon_drawable(w: u32, h: u32) -> bool {
    let (start, gap, limit) = icon_text_rows(w as int, h as int);
    &&& w * h * 4 <= u32::MAX
    &&& h * (1 + 4 * w) <= u32::MAX
    &&& (gap > 0 || start >= limit)
}

/// The colour of one pixel of the icon.
fn icon_pixel_exec(w: u32, h: u32, x: u32, y: u32) -> (c: (u8, u8, u8, u8))
    ensures
        c == icon_pixel(w as int, h as int, x as int, y as int),
{
    let w64 = w as u64;
    let h64 = h as u64;
    let x64 = x as u64;
    let y64 = y as u64;
    let left = w64 / 8;
    let right = w64 - w64 / 8;
    let top = h64 / 12;
    let bottom = h64 - h64 / 12;
    let fold = (right - left) / 3;
    let start = top + fold + h64 / 14;
    let gap = h64 / 9;
    let limit = bottom - h64 / 14;
    let text_row = start <= y64 && y64 < limit && gap > 0 && (y64 - start) % gap == 0;
    let border = (0x6Bu8, 0x72u8, 0x80u8, 0xFFu8);
    if text_row && left + (right - left) / 6 <= x64 && x64 < right - (right - left) / 6 {
        (0xB4u8, 0xBAu8, 0xC4u8, 0xFFu8)
    } else if top <= y64 && y64 < bottom && left <= x64 && x64 < right {
        let in_box = x64 >= right - fold && y64 < top + fold;
        if in_box && x64 - (right - fold) >= y64 - top {
            if x64 - (right - fold) == y64 - top { border } else { (0xD0u8, 0xD5u8, 0xDDu8, 0xFFu8) }
        } else if x64 == left || x64 == right - 1 || y64 == top || y64 == bottom - 1 {
            border
        } else {
            (0xFFu8, 0xFFu8, 0xFFu8, 0xFFu8)
        }
    } else {
        (0u8, 0u8, 0u8, 0u8)
    }
}

/// One scan line of the icon.
fn icon_line(out: &mut Vec<u8>, w: u32, h: u32, y: u32)
    ensures
        final(out)@.len() == old(out)@.len() + 1 + 4 * w,
        forall|i: int| 0 <= i < old(out)@.len() ==> #[trigger] final(out)@[i] == old(out)@[i],
        forall|c: int| 0 <= c < 1 + 4 * w ==> #[trigger] final(out)@[old(out)@.len() + c] == (if c == 0 {
            0u8
        } else {
            sample(icon_pixel(w as int, h as int, (c - 1) / 4, y as int), (c - 1) % 4)
        }),
{
    let ghost n0 = out@.len();
    let ghost o0 = out@;
    out.push(0u8);
    let mut x: u32 = 0;
    while x < w
        invariant
            x <= w,
            out@.len() == n0 + 1 + 4 * x,
            forall|i: int| 0 <= i < n0 ==> #[trigger] out@[i] == o0[i],
            forall|c: int| 0 <= c < 1 + 4 * x ==> #[trigger] out@[n0 + c] == (if c == 0 {
                0u8
            } else {
                sample(icon_pixel(w as int, h as int, (c - 1) / 4, y as int), (c - 1) % 4)
            }),
        decreases w - x,
    {
        let px = icon_pixel_exec(w, h, x, y);
        let ghost b = 1 + 4 * x;
        out.push(px.0);
        out.push(px.1);
        out.push(px.2);
        out.push(px.3);
        assert((b - 1) / 4 == x && (b - 1) % 4 == 0);
        assert((b + 1 - 1) / 4 == x && (b + 1 - 1) % 4 == 1);
        assert((b + 2 - 1) / 4 == x && (b + 2 - 1) % 4 == 2);
        assert((b + 3 - 1) / 4 == x && (b + 3 - 1) % 4 == 3);
        x += 1;
    }
}

/// The scan lines of the document icon (see [`icon_raw`]).
fn icon_raw_exec(w: u32, h: u32) -> (raw: Vec<u8>)
    ensures
        raw@ == icon_raw(w, h),
{
    let ghost line = 1 + 4 * w;
    let mut raw: Vec<u8> = Vec::new();
    let mut y: u32 = 0;
    while y < h
        invariant
            y <= h,
            line == 1 + 4 * w,
            raw@.len() == y * line,
            forall|i: int| 0 <= i < raw@.len() ==> #[trigger] raw@[i] == (if i % line == 0 {
                0u8
            } else {
                sample(icon_pixel(w as int, h as int, (i % line - 1) / 4, i / line), (i % line - 1) % 4)
            }),
        decreases h - y,
    {
        let ghost r0 = raw@;
        icon_line(&mut raw, w, h, y);
        proof {
            assert(raw@.len() == (y + 1) * line) by (nonlinear_arith)
                requires
                    raw@.len() == r0.len() + line,
                    r0.len() == y * line,
            ;
            assert forall|i: int| 0 <= i < raw@.len() implies #[trigger] raw@[i] == (if i % line == 0 {
                0u8
            } else {
                sample(icon_pixel(w as int, h as int, (i % line - 1) / 4, i / line), (i % line - 1) % 4)
            }) by {
                if i >= r0.len() {
                    let c = i - r0.len();
                    assert(raw@[r0.len() + c] == (if c == 0 {
                        0u8
                    } else {
                        sample(icon_pixel(w as int, h as int, (c - 1) / 4, y as int), (c - 1) % 4)
                    }));
                    assert(i % line == c && i / line == y) by (nonlinear_arith)
                        requires
                            i == y * line + c,
                            0 <= c < line,
                            line > 0,
                    ;
                } else {
                    assert(raw@[i] == r0[i]);
                }
            }
        }
        y += 1;
    }
    assert(raw@ =~= icon_raw(w, h));
    raw
}

/// A PNG file of the document icon shown for embedded files, `w` by `h`
/// pixels, RGBA (see [`icon_pixel`]).
pub fn make_file_icon_png(w: u32, h: u32) -> (png: Vec<u8>)
    requires
        icon_drawable(w, h),
    ensures
        png@ == png_file(w, h, 6, icon_raw(w, h)),
{
    let raw = icon_raw_exec(w, h);
    encode_png(w, h, 6, raw.as_slice())
}

// ---------------------------------------------------------------------
// Sizes of pictures
// ---------------------------------------------------------------------

/// The big-endian 32-bit number at `i`.
pub open spec fn be32_at(b: Seq<u8>, i: int) -> u32 {
    ((b[i] as int) * 0x100_0000 + (b[i + 1] as int) * 0x1_0000 + (b[i + 2] as int) * 0x100 + (b[i + 3] as int)) as u32
}

/// The big-endian 16-bit number at `i`.
pub open spec fn be16_at(b: Seq<u8>, i: int) -> nat {
    ((b[i] as int) * 0x100 + (b[i + 1] as int)) as nat
}

/// Width and height of a PNG picture: the first two numbers of its
/// header chunk, when both are positive.
pub open spec fn png_dims(b: Seq<u8>) -> Option<(u32, u32)> {
    if b.len() >= 24 && b.take(8) == png_signature() && be32_at(b, 16) > 0 && be32_at(b, 20) > 0 {
        Some((be32_at(b, 16), be32_at(b, 20)))
    } else {
        None
    }
}

/// A JPEG marker that starts a frame and gives its size.
pub open spec fn is_sof(m: u8) -> bool {
    (0xC0 <= m <= 0xC3) || (0xC5 <= m <= 0xC7) || (0xC9 <= m <= 0xCB) || (0xCD <= m <= 0xCF)
}

/// The size that a scan of the JPEG segments from `i` finds: bytes other
/// than `FF` are skipped, markers without a length (`D0` to `D9`) are
/// stepped over, a start-of-frame segment with a positive height and
/// width gives them, and other segments are skipped by their length; a
/// length below 2 ends the scan. The scan reads only while nine more
/// bytes follow `i`.
pub open spec fn jpeg_scan(b: Seq<u8>, i: nat) -> Option<(u32, u32)>
    decreases b.len() - i,
{
    if !(i + 9 < b.len()) {
        None
    } else if b[i as int] != 0xFF {
        jpeg_scan(b, i + 1)
    } else {
        let m = b[i + 1int];
        if m == 0xD8 || m == 0xD9 || (0xD0 <= m <= 0xD7) {
            jpeg_scan(b, i + 2)
        } else {
            let seg = be16_at(b, i + 2int);
            let h = be16_at(b, i + 5int);
            let w = be16_at(b, i + 7int);
            if is_sof(m) && w > 0 && h > 0 {
                Some((w as u32, h as u32))
            } else if seg < 2 {
                None
            } else if i + 2 + seg <= b.len() {
                jpeg_scan(b, i + 2 + seg)
            } else {
                None
            }
        }
    }
}

/// Width and height in pixels of a PNG or JPEG picture, when its header
/// can be read.
pub open spec fn image_dims(b: Seq<u8>) -> Option<(u32, u32)> {
    if png_dims(b) is Some {
        png_dims(b)
    } else if b.len() >= 4 && b[0] == 0xFF && b[1] == 0xD8 {
        jpeg_scan(b, 2)
    } else {
        None
    }
}

/// Whether `b` starts with the PNG signature.
fn has_png_signature(b: &[u8]) -> (r: bool)
    requires
        b@.len() >= 8,
    ensures
        r == (b@.take(8) == png_signature()),
{
    let r = b[0] == 0x89 && b[1] == 0x50 && b[2] == 0x4E && b[3] == 0x47 && b[4] == 0x0D && b[5] == 0x0A
        && b[6] == 0x1A && b[7] == 0x0A;
    if r {
        assert(b@.take(8) =~= png_signature());
    } else {
        assert(b@.take(8) != png_signature()) by {
            if b@.take(8) == png_signature() {
                assert(b@.take(8)[0] == b@[0]);
                assert(b@.take(8)[1] == b@[1]);
                assert(b@.take(8)[2] == b@[2]);
                assert(b@.take(8)[3] == b@[3]);
                assert(b@.take(8)[4] == b@[4]);
                assert(b@.take(8)[5] == b@[5]);
                assert(b@.take(8)[6] == b@[6]);
                assert(b@.take(8)[7] == b@[7]);
            }
        }
    }
    r
}

/// The big-endian 32-bit number at `i`.
fn be32_at_exec(b: &[u8], i: usize) -> (r: u32)
    requires
        i + 4 <= b@.len(),
    ensures
        r == be32_at(b@, i as int),
{
    let x: u64 = (b[i] as u64) * 0x100_0000 + (b[i + 1] as u64) * 0x1_0000 + (b[i + 2] as u64) * 0x100 + (b[i + 3] as u64);
    x as u32
}

/// The big-endian 16-bit number at `i`.
fn be16_at_exec(b: &[u8], i: usize) -> (r: usize)
    requires
        i + 2 <= b@.len(),
    ensures
        r == be16_at(b@, i as int),
{
    (b[i] as usize) * 0x100 + (b[i + 1] as usize)
}

/// Width and height in pixels of a PNG or JPEG picture (see
/// [`image_dims`]).
pub fn image_dimensions(b: &[u8]) -> (r: Option<(u32, u32)>)
    ensures
        r == image_dims(b@),
{
    let n = b.len();
    if n >= 24 && has_png_signature(b) {
        let w = be32_at_exec(b, 16);
        let h = be32_at_exec(b, 20);
        if w > 0 && h > 0 {
            return Some((w, h));
        }
    }
    assert(png_dims(b@) is None);
    if n >= 4 && b[0] == 0xFF && b[1] == 0xD8 {
        let mut i: usize = 2;
        assert(image_dims(b@) == jpeg_scan(b@, 2));
        while i < n && n - i > 9
            invariant
                image_dims(b@) == jpeg_scan(b@, 2),
                n == b@.len(),
                i <= n,
                jpeg_scan(b@, 2) == jpeg_scan(b@, i as nat),
            decreases n - i,
        {
            if b[i] != 0xFF {
                i += 1;
                continue;
            }
            let m = b[i + 1];
            if m == 0xD8 || m == 0xD9 || (0xD0 <= m && m <= 0xD7) {
                i += 2;
                continue;
            }
            let seg = be16_at_exec(b, i + 2);
            let h = be16_at_exec(b, i + 5);
            let w = be16_at_exec(b, i + 7);
            if is_sof_exec(m) && w > 0 && h > 0 {
                return Some((w as u32, h as u32));
            }
            if seg < 2 {
                return None;
            }
            if seg > n - i - 2 {
                return None;
            }
            i = i + 2 + seg;
        }
        return None;
    }
    None
}

/// Whether a JPEG marker starts a frame.
fn is_sof_exec(m: u8) -> (r: bool)
    ensures
        r == is_sof(m),
{
    (0xC0 <= m && m <= 0xC3) || (0xC5 <= m && m <= 0xC7) || (0xC9 <= m && m <= 0xCB) || (0xCD <= m && m <= 0xCF)
}

/// The four bytes of a number read back as that number.
proof fn lemma_be32_roundtrip(x: u32)
    ensures
        be32_at(be32(x), 0) == x,
{
    let b = be32(x);
    let b0 = (x >> 24) as u8;
    let b1 = ((x >> 16) & 0xff) as u8;
    let b2 = ((x >> 8) & 0xff) as u8;
    let b3 = (x & 0xff) as u8;
    assert(b[0] == b0 && b[1] == b1 && b[2] == b2 && b[3] == b3);
    assert((b0 as u64) * 0x100_0000 + (b1 as u64) * 0x1_0000 + (b2 as u64) * 0x100 + (b3 as u64) == x as u64)
        by (bit_vector)
        requires
            b0 == (x >> 24) as u8,
            b1 == ((x >> 16) & 0xff) as u8,
            b2 == ((x >> 8) & 0xff) as u8,
            b3 == (x & 0xff) as u8,
    ;
}

/// The size read from a PNG file written here is the size it was
/// written with, for any positive width and height, colour type and scan
/// lines.
pub proof fn lemma_png_size_roundtrip(w: u32, h: u32, color_type: u8, raw: Seq<u8>)
    requires
        w > 0,
        h > 0,
    ensures
        image_dims(png_file(w, h, color_type, raw)) == Some((w, h)),
{
    let f = png_file(w, h, color_type, raw);
    let ihdr = be32(w) + be32(h) + seq![8u8, color_type, 0u8, 0u8, 0u8];
    let c1 = png_chunk_bytes(seq![0x49u8, 0x48u8, 0x44u8, 0x52u8], ihdr);
    assert(f.take(8) =~= png_signature());
    assert(f.len() >= 24);
    lemma_be32_roundtrip(w);
    lemma_be32_roundtrip(h);
    assert(f.subrange(16, 20) =~= be32(w));
    assert(f.subrange(20, 24) =~= be32(h));
    assert(be32_at(f, 16) == be32_at(be32(w), 0));
    assert(be32_at(f, 20) == be32_at(be32(h), 0));
}

} // verus!
