//! App icons: from the pixels that GDI reads to a PNG data URI, and the cache of them.
//!
//! An icon is a nice-to-have: where there is none, there is no URI, and a letter is shown
//! in its place.

use crate::entry::copy_opt;
use crate::store::{is_store_launch_path, store_path, strip_launch_prefix, stripped};
use crate::text::{view_opt, views};
use crate::textmap::TextMap;
use vstd::arithmetic::div_mod::lemma_fundamental_div_mod_converse;
use vstd::prelude::*;

verus! {

/// An icon as GDI reads it: rows from the bottom up, four bytes a pixel in the order
/// blue, green, red, alpha. `bits_per_pixel` is the depth of the source: below 32 it has
/// no alpha channel.
#[derive(Debug)]
pub struct IconBitmap {
    pub width: u32,
    pub height: u32,
    pub bits_per_pixel: u16,
    pub bgra: Vec<u8>,
}

impl IconBitmap {
    /// The buffer holds four bytes for each pixel.
    pub open spec fn wf(&self) -> bool {
        self.bgra@.len() == self.width * self.height * 4
    }

    /// A row of the picture fits the PNG encoder, which counts the bytes of a row and the one
    /// before it in 32 bits.
    pub open spec fn encodable(&self) -> bool {
        self.width * 4 + 1 <= u32::MAX
    }

    /// Whether the buffer holds four bytes for each pixel and a row fits the PNG encoder.
    pub fn is_encodable(&self) -> (r: bool)
        ensures
            r == (self.wf() && self.encodable()),
            r <==> self.bgra@.len() == self.width * self.height * 4 && self.width <= 0x3fff_ffff,
    {
        assert(self.width * self.height <= 0xffff_ffff * 0xffff_ffff) by (nonlinear_arith)
            requires
                self.width <= 0xffff_ffff,
                self.height <= 0xffff_ffff,
        ;
        assert(0 <= self.width * self.height) by (nonlinear_arith);
        let pixels: u128 = self.width as u128 * self.height as u128;
        self.bgra.len() as u128 == pixels * 4 && self.width <= 0x3fff_ffff
    }

    /// The icon has pixels.
    pub open spec fn usable(&self) -> bool {
        self.width > 0 && self.height > 0 && self.bits_per_pixel > 0
    }
}

/// The byte at place `i` of the picture with rows from the top down and four bytes a pixel
/// in the order red, green, blue, alpha; alpha is full where the source has none.
pub open spec fn rgba_byte(bgra: Seq<u8>, w: int, h: int, opaque: bool, i: int) -> u8 {
    let x = i / 4 % w;
    let y = i / 4 / w;
    let from = ((h - 1 - y) * w + x) * 4;
    if i % 4 == 0 {
        bgra[from + 2]
    } else if i % 4 == 1 {
        bgra[from + 1]
    } else if i % 4 == 2 {
        bgra[from]
    } else if opaque {
        255
    } else {
        bgra[from + 3]
    }
}

/// The picture with rows from the top down, red first.
pub open spec fn rgba_of(bgra: Seq<u8>, w: int, h: int, opaque: bool) -> Seq<u8> {
    Seq::new((w * h * 4) as nat, |i: int| rgba_byte(bgra, w, h, opaque, i))
}

proof fn lemma_place(w: int, h: int, x: int, y: int, c: int)
    requires
        0 <= x < w,
        0 <= y < h,
        0 <= c < 4,
    ensures
        ((y * w + x) * 4 + c) / 4 == y * w + x,
        ((y * w + x) * 4 + c) % 4 == c,
        (y * w + x) / w == y,
        (y * w + x) % w == x,
        0 <= (y * w + x) * 4,
        (y * w + x) * 4 + 4 <= w * h * 4,
{
    lemma_fundamental_div_mod_converse(y * w + x, w, y, x);
    assert(y * w + x + 1 <= h * w) by (nonlinear_arith)
        requires
            0 <= x < w,
            0 <= y < h,
    ;
    assert(0 <= y * w) by (nonlinear_arith)
        requires
            0 <= y,
            0 < w,
    ;
    assert(h * w == w * h) by (nonlinear_arith);
}

/// Pixels read by GDI as a picture with rows from the top down, red first.
fn to_rgba(bgra: &Vec<u8>, width: u32, height: u32, opaque: bool) -> (r: Vec<u8>)
    requires
        bgra@.len() == width * height * 4,
        width > 0,
        height > 0,
    ensures
        r@ == rgba_of(bgra@, width as int, height as int, opaque),
{
    let mut out: Vec<u8> = Vec::new();
    let ghost w = width as int;
    let ghost h = height as int;
    let ghost want = rgba_of(bgra@, w, h, opaque);
    let size: usize = bgra.len();
    let mut y: u32 = 0;
    while y < height
        invariant
            w == width as int,
            h == height as int,
            0 < width,
            y <= height,
            bgra@.len() == w * h * 4,
            size == bgra@.len(),
            want == rgba_of(bgra@, w, h, opaque),
            out@.len() == y * w * 4,
            forall|i: int| 0 <= i < out@.len() ==> out@[i] == want[i],
        decreases height - y,
    {
        let mut x: u32 = 0;
        while x < width
            invariant
                w == width as int,
                h == height as int,
                0 < width,
                y < height,
                x <= width,
                bgra@.len() == w * h * 4,
                size == bgra@.len(),
                want == rgba_of(bgra@, w, h, opaque),
                out@.len() == (y * w + x) * 4,
                forall|i: int| 0 <= i < out@.len() ==> out@[i] == want[i],
            decreases width - x,
        {
            proof {
                lemma_place(w, h, x as int, y as int, 0);
                lemma_place(w, h, x as int, y as int, 1);
                lemma_place(w, h, x as int, y as int, 2);
                lemma_place(w, h, x as int, y as int, 3);
                lemma_place(w, h, x as int, h - 1 - y, 0);
                let row = (h - 1 - y) * w;
                assert(0 <= row) by (nonlinear_arith)
                    requires
                        row == (h - 1 - y) * w,
                        y < h,
                        w > 0,
                ;
            }
            let row: usize = (height - 1 - y) as usize * width as usize;
            let from: usize = (row + x as usize) * 4;
            out.push(bgra[from + 2]);
            out.push(bgra[from + 1]);
            out.push(bgra[from]);
            out.push(
                if opaque {
                    255
                } else {
                    bgra[from + 3]
                },
            );
            x += 1;
        }
        y += 1;
        assert(y * w * 4 == ((y - 1) * w + w) * 4) by (nonlinear_arith);
    }
    assert(out@.len() == w * h * 4) by (nonlinear_arith)
        requires
            out@.len() == h * w * 4,
    ;
    assert(out@ =~= want);
    out
}

/// An icon as a picture with rows from the top down, red first; `None` where it has no
/// pixels.
pub fn extract_rgba(bitmap: &IconBitmap) -> (r: Option<Vec<u8>>)
    requires
        bitmap.wf(),
    ensures
        match r {
            Some(rgba) => bitmap.usable() && rgba@ == rgba_of(
                bitmap.bgra@,
                bitmap.width as int,
                bitmap.height as int,
                bitmap.bits_per_pixel < 32,
            ),
            None => !bitmap.usable(),
        },
        r is Some <==> bitmap.width >= 1 && bitmap.height >= 1 && bitmap.bits_per_pixel >= 1,
{
    if bitmap.width == 0 || bitmap.height == 0 || bitmap.bits_per_pixel == 0 {
        return None;
    }
    Some(to_rgba(&bitmap.bgra, bitmap.width, bitmap.height, bitmap.bits_per_pixel < 32))
}

/// The PNG file, or the error text, that `image::codecs::png::PngEncoder::write_image`
/// makes of an RGBA picture of eight bits a channel.
pub uninterp spec fn png_file(rgba: Seq<u8>, w: u32, h: u32) -> Result<Seq<u8>, Seq<char>>;

/// Encodes an RGBA picture with `image::codecs::png::PngEncoder::write_image` into
/// memory. The contract names the result and says that a picture with pixels is always
/// encoded: the encoder refuses an empty one, and writing to memory does not fail. A row,
/// with the byte that names its filter, has to fit in 32 bits: the compressor counts the
/// zero bytes of a row in a `u32`, and panics where that overflows.
#[verifier::external_body]
fn encode_png(rgba: &Vec<u8>, w: u32, h: u32) -> (r: Result<Vec<u8>, String>)
    requires
        rgba@.len() == w * h * 4,
        w * 4 + 1 <= u32::MAX,
    ensures
        match r {
            Ok(png) => png_file(rgba@, w, h) == Ok::<Seq<u8>, Seq<char>>(png@),
            Err(e) => png_file(rgba@, w, h) == Err::<Seq<u8>, Seq<char>>(e@),
        },
        w > 0 && h > 0 ==> r is Ok,
{
    let mut buf = std::io::Cursor::new(Vec::new());
    let encoder = image::codecs::png::PngEncoder::new(&mut buf);
    match image::ImageEncoder::write_image(encoder, rgba, w, h, image::ExtendedColorType::Rgba8) {
        Ok(()) => Ok(buf.into_inner()),
        Err(e) => Err(e.to_string()),
    }
}

/// What becomes of an icon as a PNG file: none without pixels.
pub open spec fn icon_png(bitmap: IconBitmap) -> Result<Option<Seq<u8>>, Seq<char>> {
    if bitmap.usable() {
        let rgba = rgba_of(
            bitmap.bgra@,
            bitmap.width as int,
            bitmap.height as int,
            bitmap.bits_per_pixel < 32,
        );
        match png_file(rgba, bitmap.width, bitmap.height) {
            Ok(png) => Ok(Some(png)),
            Err(e) => Err(e),
        }
    } else {
        Ok(None)
    }
}

/// The view of an optional PNG file or an error text.
pub open spec fn png_view(r: Result<Option<Vec<u8>>, String>) -> Result<Option<Seq<u8>>, Seq<char>> {
    match r {
        Ok(Some(png)) => Ok(Some(png@)),
        Ok(None) => Ok(None),
        Err(e) => Err(e@),
    }
}

/// An icon as a PNG file.
pub fn png_for(bitmap: &IconBitmap) -> (r: Result<Option<Vec<u8>>, String>)
    requires
        bitmap.wf(),
        bitmap.encodable(),
    ensures
        png_view(r) == icon_png(*bitmap),
        r is Ok,
        r->Ok_0 is Some <==> bitmap.usable(),
        r->Ok_0 is Some <==> bitmap.width >= 1 && bitmap.height >= 1 && bitmap.bits_per_pixel >= 1,
{
    match extract_rgba(bitmap) {
        Some(rgba) => {
            assert(rgba@.len() == bitmap.width * bitmap.height * 4);
            match encode_png(&rgba, bitmap.width, bitmap.height) {
                Ok(png) => Ok(Some(png)),
                Err(e) => Err(e),
            }
        },
        None => Ok(None),
    }
}

/// The character for six bits in the standard base64 alphabet.
pub open spec fn base64_char(v: int) -> char {
    if v < 26 {
        (65 + v) as char
    } else if v < 52 {
        (71 + v) as char
    } else if v < 62 {
        (v - 4) as char
    } else if v == 62 {
        '+'
    } else {
        '/'
    }
}

/// The byte at place `i`, or zero behind the end.
pub open spec fn byte_or_zero(b: Seq<u8>, i: int) -> int {
    if i < b.len() {
        b[i] as int
    } else {
        0
    }
}

/// Bytes in standard base64: four characters for every three bytes, padded with `=`.
pub open spec fn base64_text(b: Seq<u8>) -> Seq<char> {
    Seq::new(
        base64_len(b.len()),
        |i: int|
            {
                let at = i / 4 * 3;
                let n = byte_or_zero(b, at) * 65536 + byte_or_zero(b, at + 1) * 256 + byte_or_zero(
                    b,
                    at + 2,
                );
                if at + i % 4 > b.len() {
                    '='
                } else if i % 4 == 0 {
                    base64_char(n / 262144)
                } else if i % 4 == 1 {
                    base64_char(n / 4096 % 64)
                } else if i % 4 == 2 {
                    base64_char(n / 64 % 64)
                } else {
                    base64_char(n % 64)
                }
            },
    )
}

/// How many characters `n` bytes take in base64.
pub open spec fn base64_len(n: nat) -> nat {
    (n + 2) / 3 * 4
}

/// Encodes bytes with `base64::engine::general_purpose::STANDARD`: the standard alphabet,
/// with padding. The text has to fit in memory, as the engine panics otherwise.
#[verifier::external_body]
fn encode_base64(data: &Vec<u8>) -> (r: String)
    requires
        base64_len(data@.len()) <= isize::MAX,
    ensures
        r@ == base64_text(data@),
{
    base64::Engine::encode(&base64::engine::general_purpose::STANDARD, data)
}

/// A PNG file as a data URI.
pub open spec fn png_uri(png: Seq<u8>) -> Seq<char> {
    "data:image/png;base64,"@ + base64_text(png)
}

/// A PNG file as a data URI.
pub fn data_uri(png: &Vec<u8>) -> (r: String)
    requires
        base64_len(png@.len()) <= isize::MAX,
    ensures
        r@ == png_uri(png@),
{
    let mut uri = "data:image/png;base64,".to_owned();
    uri.append(encode_base64(png).as_str());
    uri
}

/// What becomes of an icon as a data URI: none without an icon or without pixels, nor for
/// a PNG file whose base64 text would not fit in memory.
pub open spec fn icon_uri(bitmap: Option<IconBitmap>) -> Result<Option<Seq<char>>, Seq<char>> {
    match bitmap {
        None => Ok(None),
        Some(b) => match icon_png(b) {
            Ok(Some(png)) => if base64_len(png.len()) <= isize::MAX {
                Ok(Some(png_uri(png)))
            } else {
                Ok(None)
            },
            Ok(None) => Ok(None),
            Err(e) => Err(e),
        },
    }
}

/// The view of an optional URI or an error text.
pub open spec fn uri_view(r: Result<Option<String>, String>) -> Result<Option<Seq<char>>, Seq<char>> {
    match r {
        Ok(uri) => Ok(view_opt(uri)),
        Err(e) => Err(e@),
    }
}

/// An app's icon as a data URI, from the bitmap that the shell gave for it.
pub fn icon_data_uri(bitmap: &Option<IconBitmap>) -> (r: Result<Option<String>, String>)
    requires
        bitmap is Some ==> bitmap->0.wf() && bitmap->0.encodable(),
    ensures
        uri_view(r) == icon_uri(*bitmap),
        r is Ok,
{
    match bitmap {
        None => Ok(None),
        Some(b) => match png_for(b) {
            Ok(Some(png)) => {
                let groups: usize = png.len() / 3;
                let last: usize = if png.len() % 3 > 0 {
                    1
                } else {
                    0
                };
                assert(groups + last == (png@.len() + 2) / 3);
                if groups + last <= isize::MAX as usize / 4 {
                    Ok(Some(data_uri(&png)))
                } else {
                    Ok(None)
                }
            },
            Ok(None) => Ok(None),
            Err(e) => Err(e),
        },
    }
}

/// Where the icon of an entry is looked up.
#[derive(Debug)]
pub enum IconSource {
    /// In the shell's folder of all apps, by AppUserModelID.
    Store(String),
    /// In the file at this path.
    File(String),
}

/// Where the icon of the entry with this launch path is looked up: a store app has no
/// file to take it from.
pub fn icon_source(path: &str) -> (r: IconSource)
    ensures
        match r {
            IconSource::Store(aumid) => store_path(path@) && aumid@ == stripped(path@),
            IconSource::File(file) => !store_path(path@) && file@ == path@,
        },
        match r {
            IconSource::Store(aumid) => path@ == "store:"@ + aumid@,
            IconSource::File(file) => !"store:"@.is_prefix_of(path@),
        },
{
    if is_store_launch_path(path) {
        proof {
            reveal_strlit("store:");
            assert(path@.subrange(0, 6) == "store:"@);
            assert(path@ =~= "store:"@ + path@.skip(6));
        }
        IconSource::Store(strip_launch_prefix(path))
    } else {
        IconSource::File(path.to_owned())
    }
}

/// The icons extracted so far, by launch path. Extraction is expensive, so they are kept; a
/// path for which none was found is not, so that it is tried again.
#[derive(Debug)]
pub struct IconCache {
    pub map: TextMap<Option<String>>,
}

/// Every path of the map has an icon.
pub open spec fn holds_icons(map: Map<Seq<char>, Option<String>>) -> bool {
    forall|p: Seq<char>| #[trigger] map.dom().contains(p) ==> map[p] is Some
}

impl IconCache {
    /// No launch path has two icons, and each that is there has one.
    pub open spec fn wf(&self) -> bool {
        self.map.wf() && holds_icons(self.map@)
    }
}

impl View for IconCache {
    type V = Map<Seq<char>, Option<String>>;

    open spec fn view(&self) -> Map<Seq<char>, Option<String>> {
        self.map@
    }
}

impl Default for IconCache {
    fn default() -> (r: Self)
        ensures
            r.wf(),
            r@ == Map::<Seq<char>, Option<String>>::empty(),
    {
        IconCache { map: TextMap::new() }
    }
}

/// The paths that have no icon in the cache, in order.
pub open spec fn missing_from(
    cache: Map<Seq<char>, Option<String>>,
    paths: Seq<Seq<char>>,
) -> Seq<Seq<char>> {
    paths.filter(|p: Seq<char>| !cache.dom().contains(p))
}

/// What the cache says of a request for icons: the icons that are there, and the paths
/// whose icons have to be extracted.
#[derive(Debug)]
pub struct IconSplit {
    pub hits: TextMap<Option<String>>,
    pub missing: Vec<String>,
}

/// Splits a request for icons into what the cache holds and what has to be extracted.
pub fn split_request(cache: &IconCache, paths: &Vec<String>) -> (r: IconSplit)
    requires
        cache.wf(),
    ensures
        r.hits.wf(),
        r.hits@ == cache@.restrict(views(paths@).to_set()),
        views(r.missing@) == missing_from(cache@, views(paths@)),
{
    let ghost all = views(paths@);
    let ghost absent = |p: Seq<char>| !cache@.dom().contains(p);
    let mut hits: TextMap<Option<String>> = TextMap::new();
    let mut missing: Vec<String> = Vec::new();
    let mut i: usize = 0;
    assert(hits@ =~= cache@.restrict(all.take(0).to_set()));
    assert(views(missing@) =~= all.take(0).filter(absent)) by {
        reveal(Seq::filter);
    }
    while i < paths.len()
        invariant
            cache.wf(),
            all == views(paths@),
            absent == (|p: Seq<char>| !cache@.dom().contains(p)),
            i <= paths@.len(),
            hits.wf(),
            hits@ == cache@.restrict(all.take(i as int).to_set()),
            views(missing@) == all.take(i as int).filter(absent),
        decreases paths.len() - i,
    {
        let ghost p = all[i as int];
        let ghost seen = all.take(i as int);
        let ghost more = all.take(i + 1);
        let ghost before = views(missing@);
        let ghost found = hits@;
        assert(more.drop_last() =~= seen);
        assert(more.filter(absent) == if absent(p) {
            before.push(p)
        } else {
            before
        }) by {
            reveal(Seq::filter);
        }
        assert(more.to_set() =~= seen.to_set().insert(p)) by {
            assert(more =~= seen.push(p));
            assert forall|q: Seq<char>| more.contains(q) == (seen.contains(q) || q == p) by {
                if seen.contains(q) {
                    let k = choose|k: int| 0 <= k < seen.len() && seen[k] == q;
                    assert(more[k] == q);
                }
                assert(more[i as int] == p);
            }
        }
        match cache.map.get(paths[i].as_str()) {
            Some(v) => {
                hits.insert(paths[i].as_str(), copy_opt(v));
                assert(hits@ =~= cache@.restrict(more.to_set()));
            },
            None => {
                missing.push(paths[i].clone());
                assert(views(missing@) =~= before.push(p));
                assert(hits@ =~= cache@.restrict(more.to_set()));
            },
        }
        i += 1;
    }
    assert(all.take(all.len() as int) =~= all);
    IconSplit { hits, missing }
}

/// The outcome of extracting the icon of one entry.
#[derive(Debug)]
pub struct FreshIcon {
    pub path: String,
    pub icon: Result<Option<String>, String>,
}

/// The icons of `map` with the fresh outcomes set in order: an icon, or that there is none;
/// where extraction failed, nothing is set.
pub open spec fn with_fresh(map: Map<Seq<char>, Option<String>>, fresh: Seq<FreshIcon>) -> Map<
    Seq<char>,
    Option<String>,
>
    decreases fresh.len(),
{
    if fresh.len() == 0 {
        map
    } else {
        let before = with_fresh(map, fresh.drop_last());
        match fresh.last().icon {
            Ok(v) => before.insert(fresh.last().path@, v),
            Err(_) => before,
        }
    }
}

/// The icons of `map` with the fresh ones set in order; where there is none, or extraction
/// failed, nothing is set.
pub open spec fn with_kept(map: Map<Seq<char>, Option<String>>, fresh: Seq<FreshIcon>) -> Map<
    Seq<char>,
    Option<String>,
>
    decreases fresh.len(),
{
    if fresh.len() == 0 {
        map
    } else {
        let before = with_kept(map, fresh.drop_last());
        match fresh.last().icon {
            Ok(Some(uri)) => before.insert(fresh.last().path@, Some(uri)),
            _ => before,
        }
    }
}

/// Takes freshly extracted icons into an answer, which also says of an entry that it has
/// none. Where extraction failed, the answer says nothing.
pub fn take_fresh(map: &mut TextMap<Option<String>>, fresh: &Vec<FreshIcon>)
    requires
        old(map).wf(),
    ensures
        final(map).wf(),
        final(map)@ == with_fresh(old(map)@, fresh@),
{
    let ghost start = map@;
    let mut i: usize = 0;
    assert(with_fresh(start, fresh@.take(0)) == start);
    while i < fresh.len()
        invariant
            map.wf(),
            i <= fresh@.len(),
            map@ == with_fresh(start, fresh@.take(i as int)),
        decreases fresh.len() - i,
    {
        assert(fresh@.take(i + 1).drop_last() =~= fresh@.take(i as int));
        match &fresh[i].icon {
            Ok(v) => {
                map.insert(fresh[i].path.as_str(), copy_opt(v));
            },
            Err(_) => {},
        }
        i += 1;
    }
    assert(fresh@.take(fresh@.len() as int) =~= fresh@);
}

impl IconCache {
    /// Keeps freshly extracted icons. Only icons are kept: a path without one stays out, so
    /// that it is extracted again once the shell has an icon for it.
    pub fn keep(&mut self, fresh: &Vec<FreshIcon>)
        requires
            old(self).wf(),
        ensures
            final(self).wf(),
            final(self)@ == with_kept(old(self)@, fresh@),
    {
        let ghost start = self@;
        let mut i: usize = 0;
        assert(with_kept(start, fresh@.take(0)) == start);
        while i < fresh.len()
            invariant
                self.wf(),
                i <= fresh@.len(),
                self@ == with_kept(start, fresh@.take(i as int)),
            decreases fresh.len() - i,
        {
            assert(fresh@.take(i + 1).drop_last() =~= fresh@.take(i as int));
            match &fresh[i].icon {
                Ok(Some(uri)) => {
                    self.map.insert(fresh[i].path.as_str(), Some(uri.clone()));
                },
                _ => {},
            }
            i += 1;
        }
        assert(fresh@.take(fresh@.len() as int) =~= fresh@);
    }
}

/// Answers a request for icons with what the cache held and what was extracted for the
/// rest, and keeps the icons among the latter.
pub fn get_app_icons(cache: &mut IconCache, split: IconSplit, fresh: &Vec<FreshIcon>) -> (r: TextMap<
    Option<String>,
>)
    requires
        old(cache).wf(),
        split.hits.wf(),
    ensures
        final(cache).wf(),
        final(cache)@ == with_kept(old(cache)@, fresh@),
        r.wf(),
        r@ == with_fresh(split.hits@, fresh@),
{
    let mut out = split.hits;
    cache.keep(fresh);
    take_fresh(&mut out, fresh);
    out
}

/// The pixel in column `x` of row `y` from the top is the one that GDI has in the same
/// column of row `y` from the bottom, with red and blue in each other's place.
pub proof fn law_pixels_are_flipped(bgra: Seq<u8>, w: int, h: int, opaque: bool, x: int, y: int)
    requires
        bgra.len() == w * h * 4,
        0 <= x < w,
        0 <= y < h,
    ensures
        ({
            let rgba = rgba_of(bgra, w, h, opaque);
            let to = (y * w + x) * 4;
            let from = ((h - 1 - y) * w + x) * 4;
            &&& 0 <= to <= rgba.len() - 4
            &&& 0 <= from <= bgra.len() - 4
            &&& rgba[to] == bgra[from + 2]
            &&& rgba[to + 1] == bgra[from + 1]
            &&& rgba[to + 2] == bgra[from]
            &&& rgba[to + 3] == if opaque {
                255
            } else {
                bgra[from + 3]
            }
        }),
{
    lemma_place(w, h, x, y, 0);
    lemma_place(w, h, x, y, 1);
    lemma_place(w, h, x, y, 2);
    lemma_place(w, h, x, y, 3);
    lemma_place(w, h, x, h - 1 - y, 0);
}

/// Turning a picture that has an alpha channel around twice gives it back.
pub proof fn law_flipping_twice_restores(bgra: Seq<u8>, w: int, h: int)
    requires
        bgra.len() == w * h * 4,
        0 < w,
        0 < h,
    ensures
        rgba_of(rgba_of(bgra, w, h, false), w, h, false) == bgra,
{
    let once = rgba_of(bgra, w, h, false);
    let twice = rgba_of(once, w, h, false);
    assert(w * h * 4 >= 0);
    assert forall|i: int| 0 <= i < bgra.len() implies twice[i] == bgra[i] by {
        let p = i / 4;
        let x = p % w;
        let y = p / w;
        assert(0 <= x < w && p == y * w + x) by (nonlinear_arith)
            requires
                w > 0,
                p >= 0,
                x == p % w,
                y == p / w,
        ;
        assert(0 <= y < h) by (nonlinear_arith)
            requires
                p == y * w + x,
                0 <= x < w,
                0 <= p < w * h,
                h > 0,
        ;
        assert(i == (y * w + x) * 4 + i % 4);
        law_pixels_are_flipped(bgra, w, h, false, x, h - 1 - y);
        law_pixels_are_flipped(once, w, h, false, x, y);
    }
    assert(twice =~= bgra);
}

proof fn lemma_with_fresh_keeps(map: Map<Seq<char>, Option<String>>, fresh: Seq<FreshIcon>, p: Seq<char>)
    requires
        map.dom().contains(p),
    ensures
        with_fresh(map, fresh).dom().contains(p),
    decreases fresh.len(),
{
    if fresh.len() > 0 {
        lemma_with_fresh_keeps(map, fresh.drop_last(), p);
    }
}

/// An icon that was extracted is in the cache afterwards, so that it is not extracted
/// again.
pub proof fn law_extracted_icon_is_kept(
    map: Map<Seq<char>, Option<String>>,
    fresh: Seq<FreshIcon>,
    k: int,
)
    requires
        0 <= k < fresh.len(),
        fresh[k].icon matches Ok(Some(_)),
        forall|j: int| k < j < fresh.len() ==> (#[trigger] fresh[j]).path@ != fresh[k].path@,
    ensures
        with_kept(map, fresh).dom().contains(fresh[k].path@),
        with_kept(map, fresh)[fresh[k].path@] == fresh[k].icon->Ok_0,
    decreases fresh.len(),
{
    let head = fresh.drop_last();
    if k < head.len() {
        assert forall|j: int| k < j < head.len() implies (#[trigger] head[j]).path@
            != head[k].path@ by {
            assert(head[j] == fresh[j]);
        }
        law_extracted_icon_is_kept(map, head, k);
        assert(fresh[fresh.len() - 1].path@ != fresh[k].path@);
    }
}

/// Where no icon came out for a path, because there is none or because extraction failed,
/// the cache is left as it was for that path.
pub proof fn law_miss_leaves_the_cache(
    map: Map<Seq<char>, Option<String>>,
    fresh: Seq<FreshIcon>,
    p: Seq<char>,
)
    requires
        forall|k: int|
            0 <= k < fresh.len() && (#[trigger] fresh[k]).path@ == p ==> !(
            fresh[k].icon matches Ok(Some(_))),
    ensures
        with_kept(map, fresh).dom().contains(p) == map.dom().contains(p),
        map.dom().contains(p) ==> with_kept(map, fresh)[p] == map[p],
    decreases fresh.len(),
{
    if fresh.len() > 0 {
        let head = fresh.drop_last();
        assert forall|k: int| 0 <= k < head.len() && (#[trigger] head[k]).path@ == p implies !(
        head[k].icon matches Ok(Some(_))) by {
            assert(head[k] == fresh[k]);
        }
        law_miss_leaves_the_cache(map, head, p);
        assert(fresh[fresh.len() - 1] == fresh.last());
    }
}

/// A path for which no icon came out is extracted again at the next request for it.
pub proof fn law_miss_is_tried_again(
    cache: Map<Seq<char>, Option<String>>,
    fresh: Seq<FreshIcon>,
    paths: Seq<Seq<char>>,
    p: Seq<char>,
)
    requires
        !cache.dom().contains(p),
        paths.contains(p),
        forall|k: int|
            0 <= k < fresh.len() && (#[trigger] fresh[k]).path@ == p ==> !(
            fresh[k].icon matches Ok(Some(_))),
    ensures
        missing_from(with_kept(cache, fresh), paths).contains(p),
{
    let kept = with_kept(cache, fresh);
    law_miss_leaves_the_cache(cache, fresh, p);
    let n = choose|n: int| 0 <= n < paths.len() && paths[n] == p;
    paths.lemma_filter_contains(|q: Seq<char>| !kept.dom().contains(q), n);
}

/// A request is answered for every path of it, where the extraction of what the cache does
/// not hold succeeds.
pub proof fn law_request_is_answered(
    cache: Map<Seq<char>, Option<String>>,
    paths: Seq<Seq<char>>,
    fresh: Seq<FreshIcon>,
    p: Seq<char>,
)
    requires
        paths.contains(p),
        forall|q: Seq<char>| #[trigger]
            missing_from(cache, paths).contains(q) ==> exists|k: int|
                0 <= k < fresh.len() && (#[trigger] fresh[k]).path@ == q && fresh[k].icon is Ok,
    ensures
        with_fresh(cache.restrict(paths.to_set()), fresh).dom().contains(p),
{
    let hits = cache.restrict(paths.to_set());
    if cache.dom().contains(p) {
        assert(hits.dom().contains(p));
        lemma_with_fresh_keeps(hits, fresh, p);
    } else {
        let absent = |q: Seq<char>| !cache.dom().contains(q);
        let n = choose|n: int| 0 <= n < paths.len() && paths[n] == p;
        paths.lemma_filter_contains(absent, n);
        assert(missing_from(cache, paths).contains(p));
        let k = choose|k: int|
            0 <= k < fresh.len() && (#[trigger] fresh[k]).path@ == p && fresh[k].icon is Ok;
        lemma_fresh_is_there(hits, fresh, k);
    }
}

proof fn lemma_fresh_is_there(map: Map<Seq<char>, Option<String>>, fresh: Seq<FreshIcon>, k: int)
    requires
        0 <= k < fresh.len(),
        fresh[k].icon is Ok,
    ensures
        with_fresh(map, fresh).dom().contains(fresh[k].path@),
    decreases fresh.len(),
{
    if k < fresh.len() - 1 {
        lemma_fresh_is_there(map, fresh.drop_last(), k);
    }
}

proof fn lemma_unmentioned(map: Map<Seq<char>, Option<String>>, fresh: Seq<FreshIcon>, p: Seq<char>)
    requires
        forall|k: int| 0 <= k < fresh.len() ==> (#[trigger] fresh[k]).path@ != p,
    ensures
        with_fresh(map, fresh).dom().contains(p) == map.dom().contains(p),
        map.dom().contains(p) ==> with_fresh(map, fresh)[p] == map[p],
    decreases fresh.len(),
{
    if fresh.len() > 0 {
        let head = fresh.drop_last();
        assert forall|k: int| 0 <= k < head.len() implies (#[trigger] head[k]).path@ != p by {
            assert(head[k] == fresh[k]);
        }
        lemma_unmentioned(map, head, p);
        assert(fresh[fresh.len() - 1] == fresh.last());
    }
}

/// An icon that the cache holds stays there as it is, and answers the request, where icons
/// are extracted only for what the cache does not hold.
pub proof fn law_cached_icon_stays(
    cache: Map<Seq<char>, Option<String>>,
    paths: Seq<Seq<char>>,
    fresh: Seq<FreshIcon>,
    p: Seq<char>,
)
    requires
        cache.dom().contains(p),
        forall|k: int|
            0 <= k < fresh.len() ==> missing_from(cache, paths).contains(
                (#[trigger] fresh[k]).path@,
            ),
    ensures
        with_kept(cache, fresh).dom().contains(p),
        with_kept(cache, fresh)[p] == cache[p],
        paths.contains(p) ==> with_fresh(cache.restrict(paths.to_set()), fresh).dom().contains(p)
            && with_fresh(cache.restrict(paths.to_set()), fresh)[p] == cache[p],
{
    let absent = |q: Seq<char>| !cache.dom().contains(q);
    let missing = missing_from(cache, paths);
    assert forall|k: int| 0 <= k < fresh.len() implies (#[trigger] fresh[k]).path@ != p by {
        assert(missing.contains(fresh[k].path@));
        let n = choose|n: int| 0 <= n < missing.len() && missing[n] == fresh[k].path@;
        paths.lemma_filter_pred(absent, n);
        assert(absent(missing[n]));
    }
    law_miss_leaves_the_cache(cache, fresh, p);
    lemma_unmentioned(cache.restrict(paths.to_set()), fresh, p);
}

/// An icon is usable where it has a column, a row and a depth, however many. Its buffer is
/// whole where it holds four bytes a pixel, and a row of up to 0x3fff_ffff pixels fits the
/// encoder.
pub proof fn law_usable_icons(bitmap: IconBitmap)
    ensures
        bitmap.usable() <==> bitmap.width >= 1 && bitmap.height >= 1 && bitmap.bits_per_pixel >= 1,
        bitmap.wf() <==> bitmap.bgra@.len() == bitmap.width * bitmap.height * 4,
        bitmap.encodable() <==> bitmap.width <= 0x3fff_ffff,
{
}

/// An icon that has a column, a row and a depth becomes the PNG file of its picture: that
/// with the same pixels, the rows in the other order, red and blue exchanged, and each pixel
/// opaque where the depth is below 32 bits.
pub proof fn law_icon_becomes_its_png(bitmap: IconBitmap, rgba: Seq<u8>)
    requires
        bitmap.width >= 1,
        bitmap.height >= 1,
        bitmap.bits_per_pixel >= 1,
        bitmap.bgra@.len() == bitmap.width * bitmap.height * 4,
        rgba.len() == bitmap.width * bitmap.height * 4,
        forall|x: int, y: int|
            #![trigger rgba[(y * bitmap.width + x) * 4]]
            0 <= x < bitmap.width && 0 <= y < bitmap.height ==> {
                let to = (y * bitmap.width + x) * 4;
                let from = ((bitmap.height - 1 - y) * bitmap.width + x) * 4;
                &&& rgba[to] == bitmap.bgra@[from + 2]
                &&& rgba[to + 1] == bitmap.bgra@[from + 1]
                &&& rgba[to + 2] == bitmap.bgra@[from]
                &&& bitmap.bits_per_pixel < 32 ==> rgba[to + 3] == 255
                &&& bitmap.bits_per_pixel >= 32 ==> rgba[to + 3] == bitmap.bgra@[from + 3]
            },
    ensures
        match png_file(rgba, bitmap.width, bitmap.height) {
            Ok(png) => icon_png(bitmap) == Ok::<Option<Seq<u8>>, Seq<char>>(Some(png)),
            Err(e) => icon_png(bitmap) == Err::<Option<Seq<u8>>, Seq<char>>(e),
        },
{
    let w = bitmap.width as int;
    let h = bitmap.height as int;
    let bgra = bitmap.bgra@;
    let want = rgba_of(bgra, w, h, bitmap.bits_per_pixel < 32);
    assert forall|i: int| 0 <= i < rgba.len() implies rgba[i] == want[i] by {
        let p = i / 4;
        let x = p % w;
        let y = p / w;
        assert(0 <= x < w && p == y * w + x) by (nonlinear_arith)
            requires
                w > 0,
                p >= 0,
                x == p % w,
                y == p / w,
        ;
        assert(0 <= y < h) by (nonlinear_arith)
            requires
                p == y * w + x,
                0 <= x < w,
                0 <= p < w * h,
                h > 0,
        ;
        let to = (y * w + x) * 4;
        assert(rgba[(y * bitmap.width + x) * 4] == rgba[to]);
        assert(i == to + i % 4);
        law_pixels_are_flipped(bgra, w, h, bitmap.bits_per_pixel < 32, x, y);
    }
    assert(rgba =~= want);
}

/// An icon without a column, a row or a depth becomes no PNG file and no URI, and neither
/// does an entry without an icon.
pub proof fn law_no_pixels_no_png(bitmap: IconBitmap)
    ensures
        bitmap.width == 0 || bitmap.height == 0 || bitmap.bits_per_pixel == 0 ==> icon_png(bitmap)
            == Ok::<Option<Seq<u8>>, Seq<char>>(None),
        bitmap.width == 0 || bitmap.height == 0 || bitmap.bits_per_pixel == 0 ==> icon_uri(
            Some(bitmap),
        ) == Ok::<Option<Seq<char>>, Seq<char>>(None),
        icon_uri(None) == Ok::<Option<Seq<char>>, Seq<char>>(None),
{
}

/// The URI of an icon is its PNG file in base64 behind the head that names the type, as long
/// as that text fits in memory.
pub proof fn law_uri_carries_the_png(bitmap: IconBitmap, png: Seq<u8>)
    requires
        icon_png(bitmap) == Ok::<Option<Seq<u8>>, Seq<char>>(Some(png)),
    ensures
        (png.len() + 2) / 3 * 4 <= isize::MAX ==> icon_uri(Some(bitmap)) == Ok::<
            Option<Seq<char>>,
            Seq<char>,
        >(Some("data:image/png;base64,"@ + base64_text(png))),
        (png.len() + 2) / 3 * 4 > isize::MAX ==> icon_uri(Some(bitmap)) == Ok::<
            Option<Seq<char>>,
            Seq<char>,
        >(None),
{
}

/// The six bits that a character of the standard base64 alphabet stands for.
pub open spec fn base64_value(c: char) -> int {
    if 'A' <= c && c <= 'Z' {
        c as int - 'A' as int
    } else if 'a' <= c && c <= 'z' {
        c as int - 'a' as int + 26
    } else if '0' <= c && c <= '9' {
        c as int - '0' as int + 52
    } else if c == '+' {
        62
    } else {
        63
    }
}

proof fn lemma_base64_char(v: int)
    requires
        0 <= v < 64,
    ensures
        base64_value(base64_char(v)) == v,
        base64_char(v) != '=',
{
}

/// In base64 every three bytes, from place `3 * g` on, are the 24 bits of four characters; of
/// a rest of two or one the missing bits are zero and the missing characters `=`.
pub proof fn law_base64_groups(b: Seq<u8>, g: int)
    requires
        0 <= g,
        3 * g < b.len(),
    ensures
        base64_text(b).len() == (b.len() + 2) / 3 * 4,
        ({
            let t = base64_text(b);
            let at = 4 * g;
            &&& 3 * g + 2 < b.len() ==> base64_value(t[at]) * 262144 + base64_value(t[at + 1])
                * 4096 + base64_value(t[at + 2]) * 64 + base64_value(t[at + 3]) == b[3 * g] * 65536
                + b[3 * g + 1] * 256 + b[3 * g + 2]
            &&& 3 * g + 2 == b.len() ==> t[at + 3] == '=' && base64_value(t[at]) * 262144
                + base64_value(t[at + 1]) * 4096 + base64_value(t[at + 2]) * 64 == b[3 * g] * 65536
                + b[3 * g + 1] * 256
            &&& 3 * g + 1 == b.len() ==> t[at + 2] == '=' && t[at + 3] == '=' && base64_value(
                t[at],
            ) * 262144 + base64_value(t[at + 1]) * 4096 == b[3 * g] * 65536
        }),
{
    let t = base64_text(b);
    let at = 4 * g;
    let n = byte_or_zero(b, 3 * g) * 65536 + byte_or_zero(b, 3 * g + 1) * 256 + byte_or_zero(
        b,
        3 * g + 2,
    );
    assert(at + 3 < t.len());
    assert(at / 4 == g && (at + 1) / 4 == g && (at + 2) / 4 == g && (at + 3) / 4 == g);
    assert(at % 4 == 0 && (at + 1) % 4 == 1 && (at + 2) % 4 == 2 && (at + 3) % 4 == 3);
    lemma_base64_char(n / 262144);
    lemma_base64_char(n / 4096 % 64);
    lemma_base64_char(n / 64 % 64);
    lemma_base64_char(n % 64);
    assert(n / 64 / 64 == n / 4096 && n / 4096 / 64 == n / 262144);
}

/// The paths without an icon in the cache are found path by path, in their order.
pub proof fn law_missing_path_by_path(
    cache: Map<Seq<char>, Option<String>>,
    paths: Seq<Seq<char>>,
    p: Seq<char>,
)
    ensures
        missing_from(cache, Seq::empty()).len() == 0,
        cache.dom().contains(p) ==> missing_from(cache, paths + seq![p]) == missing_from(
            cache,
            paths,
        ),
        !cache.dom().contains(p) ==> missing_from(cache, paths + seq![p]) == missing_from(
            cache,
            paths,
        ) + seq![p],
{
    reveal(Seq::filter);
    let all = paths + seq![p];
    assert(all.drop_last() =~= paths);
    assert(missing_from(cache, paths).push(p) =~= missing_from(cache, paths) + seq![p]);
}

/// Outcomes are taken one after the other: an icon is set in the answer and in the cache, the
/// word that there is none only in the answer, and a failure in neither.
pub proof fn law_one_more_outcome(
    map: Map<Seq<char>, Option<String>>,
    fresh: Seq<FreshIcon>,
    f: FreshIcon,
)
    ensures
        with_fresh(map, Seq::empty()) == map,
        with_kept(map, Seq::empty()) == map,
        f.icon is Err ==> with_fresh(map, fresh.push(f)) == with_fresh(map, fresh) && with_kept(
            map,
            fresh.push(f),
        ) == with_kept(map, fresh),
        f.icon matches Ok(v) ==> with_fresh(map, fresh.push(f)) == with_fresh(map, fresh).insert(
            f.path@,
            v,
        ),
        f.icon matches Ok(v) ==> v is Some ==> with_kept(map, fresh.push(f)) == with_kept(
            map,
            fresh,
        ).insert(f.path@, v),
        f.icon matches Ok(v) ==> v is None ==> with_kept(map, fresh.push(f)) == with_kept(map, fresh),
{
    assert(fresh.push(f).drop_last() =~= fresh);
}

/// A map holds icons where no path of it lacks one.
pub proof fn law_holding_icons(map: Map<Seq<char>, Option<String>>, p: Seq<char>)
    ensures
        map.dom().contains(p) && map[p] is None ==> !holds_icons(map),
        map.dom() == Set::<Seq<char>>::empty() ==> holds_icons(map),
        holds_icons(map) ==> (map.dom().contains(p) ==> map[p] is Some),
{
}

} // verus!
