//! Shared assets (textures and fonts) and the sprite components that use
//! them.
use std::sync::Arc;
use vstd::prelude::*;
use crate::editor::{ascii_lowercase, decimal, decimal_string, extension_of, file_extension};
use crate::text::{chars_of, concat, owned, string_from_range};

verus! {

/// A shared, immutable asset.
#[derive(Debug)]
pub struct Handle<T> {
    pub inner: Arc<T>,
}

/// Another pointer to the same asset (`Arc::clone`): it holds the same value.
#[verifier::external_body]
fn share_arc<T>(a: &Arc<T>) -> (r: Arc<T>)
    ensures
        *r == **a,
{
    a.clone()
}

/// The asset a handle points at.
pub open spec fn asset_of<T>(h: &Handle<T>) -> T {
    *h.inner
}

impl<T> Handle<T> {
    pub fn new(value: T) -> (r: Self)
        ensures
            *r.inner == value,
    {
        Handle { inner: Arc::new(value) }
    }

    /// Another handle to the same asset.
    pub fn share(&self) -> (r: Self)
        ensures
            *r.inner == *self.inner,
    {
        Handle { inner: share_arc(&self.inner) }
    }
}

/// The declared type of the image decoder's errors.
#[verifier::external_type_specification]
#[verifier::external_body]
pub struct ExImageError(image::ImageError);

/// Whether `ext` names an image format (`ImageFormat::from_extension`,
/// which reads the extension with its ASCII letters made small).
pub open spec fn image_extension(ext: Seq<char>) -> bool {
    let e = ascii_lowercase(ext);
    e == "avif"@ || e == "jpg"@ || e == "jpeg"@ || e == "jfif"@ || e == "png"@ || e == "apng"@
        || e == "gif"@ || e == "webp"@ || e == "tif"@ || e == "tiff"@ || e == "tga"@ || e == "dds"@
        || e == "bmp"@ || e == "ico"@ || e == "hdr"@ || e == "exr"@ || e == "pbm"@ || e == "pam"@
        || e == "ppm"@ || e == "pgm"@ || e == "pnm"@ || e == "ff"@ || e == "qoi"@
}

/// What the image decoder makes of `bytes` in the format that the
/// extension `ext` names: width, height and RGBA8 pixels, or nothing when
/// it cannot decode them.
pub uninterp spec fn decoded_rgba(ext: Seq<char>, bytes: Seq<u8>) -> Option<(u32, u32, Seq<u8>)>;

/// Decodes an image held in memory in the format that the extension `ext`
/// names (`ImageFormat::from_extension`, then
/// `image::load_from_memory_with_format`, which consults no registered
/// hook) and turns it into RGBA8 (`DynamicImage::to_rgba8`). The result is
/// named `decoded_rgba`; what the decoders accept and produce is not
/// stated, beyond that an extension naming no format fails.
#[verifier::external_body]
fn decode_rgba8(ext: &str, bytes: &[u8]) -> (r: Result<(u32, u32, Vec<u8>), image::ImageError>)
    ensures
        match r {
            Ok((w, h, px)) => decoded_rgba(ext@, bytes@) == Some((w, h, px@)),
            Err(_) => decoded_rgba(ext@, bytes@) is None,
        },
        r is Ok ==> image_extension(ext@),
{
    let format = image::ImageFormat::from_extension(ext).ok_or_else(
        || image::ImageError::Unsupported(image::error::ImageFormatHint::PathExtension(ext.into()).into()),
    )?;
    let img = image::load_from_memory_with_format(bytes, format)?.to_rgba8();
    let (w, h) = img.dimensions();
    Ok((w, h, img.into_raw()))
}

/// The position of the last `/` in `s`, if any.
pub open spec fn last_slash(s: Seq<char>) -> Option<int>
    decreases s.len(),
{
    if s.len() == 0 {
        None
    } else if s.last() == '/' {
        Some(s.len() - 1)
    } else {
        last_slash(s.drop_last())
    }
}

/// The file name in `path`: what follows its last `/`.
pub open spec fn file_name_of(path: Seq<char>) -> Seq<char> {
    match last_slash(path) {
        Some(i) => path.subrange(i + 1, path.len() as int),
        None => path,
    }
}

/// The extension of the file that `path` names, empty when it has none.
pub open spec fn path_extension(path: Seq<char>) -> Seq<char> {
    match extension_of(file_name_of(path)) {
        Some(e) => e,
        None => Seq::empty(),
    }
}

fn path_extension_str(path: &str) -> (r: String)
    ensures
        r@ == path_extension(path@),
{
    let v = chars_of(path);
    let mut i: usize = v.len();
    proof {
        assert(path@.subrange(0, i as int) =~= path@);
    }
    while i > 0 && v[i - 1] != '/'
        invariant
            i <= v@.len(),
            v@ == path@,
            forall|k: int| i <= k < v@.len() ==> v@[k] != '/',
            last_slash(path@) == last_slash(path@.subrange(0, i as int)),
        decreases i,
    {
        proof {
            let t = path@.subrange(0, i as int);
            assert(t.drop_last() =~= path@.subrange(0, i - 1));
            assert(t.last() == v@[i - 1]);
        }
        i = i - 1;
    }
    proof {
        let t = path@.subrange(0, i as int);
        if i > 0 {
            assert(t.last() == '/');
            assert(last_slash(t) == Some(i - 1));
        } else {
            assert(t.len() == 0);
        }
    }
    let name = string_from_range(&v, i, v.len());
    proof {
        assert(name@ =~= file_name_of(path@));
    }
    match file_extension(name.as_str()) {
        Some(e) => e,
        None => {
            let e = String::new();
            proof {
                assert(e@ =~= Seq::<char>::empty());
            }
            e
        },
    }
}

/// The decoder's message for `e` (its `Display`); not stated here.
#[verifier::external_body]
fn image_error_message(e: &image::ImageError) -> String {
    format!("{}", e)
}

/// Why an asset could not be made.
#[derive(Debug, PartialEq, Eq)]
pub enum AssetError {
    /// The image decoder refused the bytes, with its message.
    Decode(String),
}

/// A texture: its size and RGBA8 pixels, and the path it came from.
#[derive(Debug)]
pub struct TextureAsset {
    pub width: u32,
    pub height: u32,
    pub pixels: Vec<u8>,
    pub path: String,
}

impl TextureAsset {
    /// Decodes the image file contents `bytes`, read from `path`, in the
    /// format that the path's extension names.
    pub fn decode(bytes: &[u8], path: String) -> (r: Result<TextureAsset, AssetError>)
        ensures
            match r {
                Ok(t) => decoded_rgba(path_extension(path@), bytes@) == Some((t.width, t.height, t.pixels@))
                    && t.path@ == path@,
                Err(_) => decoded_rgba(path_extension(path@), bytes@) is None,
            },
    {
        let ext = path_extension_str(path.as_str());
        match decode_rgba8(ext.as_str(), bytes) {
            Ok((width, height, pixels)) => Ok(TextureAsset { width, height, pixels, path }),
            Err(e) => Err(AssetError::Decode(image_error_message(&e))),
        }
    }
}

/// Decodes the image file contents `bytes`, read from `path`, into a shared
/// texture.
pub fn load_image(bytes: &[u8], path: String) -> (r: Result<Handle<TextureAsset>, AssetError>)
    ensures
        match r {
            Ok(h) => decoded_rgba(path_extension(path@), bytes@) == Some((h.inner.width, h.inner.height, h.inner.pixels@))
                && h.inner.path@ == path@,
            Err(_) => decoded_rgba(path_extension(path@), bytes@) is None,
        },
{
    match TextureAsset::decode(bytes, path) {
        Ok(t) => Ok(Handle::new(t)),
        Err(e) => Err(e),
    }
}

/// The icon sizes the window accepts: square images of these widths.
pub open spec fn is_icon_size(s: u32) -> bool {
    s == 16 || s == 32 || s == 48 || s == 64 || s == 128 || s == 256 || s == 512
}

/// Why the icon file `path` with decoded size `w` by `h` is refused, or
/// nothing when it is accepted.
pub open spec fn icon_size_error(w: u32, h: u32) -> Option<Seq<char>> {
    if w != h {
        Some("Icon must be square, got "@ + decimal(w as nat) + "x"@ + decimal(h as nat))
    } else if !is_icon_size(w) {
        Some("Icon size "@ + decimal(w as nat) + "x"@ + decimal(h as nat)
            + " is not standard. Recommended: 16, 32, 64, 128, 256, 512"@)
    } else {
        None
    }
}

/// An icon passes the size check exactly when it is square with a side of
/// 16, 32, 48, 64, 128, 256 or 512 pixels; a non-square one is refused as
/// such, and a square one of any other side as not standard.
pub proof fn lemma_icon_size_accepted(w: u32, h: u32)
    ensures
        icon_size_error(w, h) is None <==> (w == h && (w == 16 || w == 32 || w == 48 || w == 64
            || w == 128 || w == 256 || w == 512)),
        w != h ==> icon_size_error(w, h) == Some("Icon must be square, got "@ + decimal(w as nat)
            + "x"@ + decimal(h as nat)),
        (w == h && !(w == 16 || w == 32 || w == 48 || w == 64 || w == 128 || w == 256 || w == 512))
            ==> icon_size_error(w, h) == Some("Icon size "@ + decimal(w as nat) + "x"@
            + decimal(h as nat) + " is not standard. Recommended: 16, 32, 64, 128, 256, 512"@),
{
}

/// Every standard square icon, once decoded, is taken as it is: its side and
/// its pixels unchanged.
pub proof fn lemma_standard_icon_kept(path: Seq<char>, bytes: Seq<u8>, s: u32, px: Seq<u8>)
    requires
        decoded_rgba(path_extension(path), bytes) == Some((s, s, px)),
        s == 16 || s == 32 || s == 48 || s == 64 || s == 128 || s == 256 || s == 512,
    ensures
        icon_of(path, bytes) == Some((s, px)),
{
}

/// The icon that the contents `bytes` of the file `path` give: its side
/// and RGBA8 pixels, when they decode to a square image of an accepted size.
pub open spec fn icon_of(path: Seq<char>, bytes: Seq<u8>) -> Option<(u32, Seq<u8>)> {
    match decoded_rgba(path_extension(path), bytes) {
        Some((w, h, px)) => if icon_size_error(w, h) is None { Some((w, px)) } else { None },
        None => None,
    }
}

fn with_size(prefix: &str, w: u32, h: u32) -> (r: String)
    ensures
        r@ == prefix@ + decimal(w as nat) + "x"@ + decimal(h as nat),
{
    let a = concat(prefix, decimal_string(w as usize).as_str());
    let b = concat(a.as_str(), "x");
    let r = concat(b.as_str(), decimal_string(h as usize).as_str());
    proof {
        assert(r@ =~= prefix@ + decimal(w as nat) + "x"@ + decimal(h as nat));
    }
    r
}

/// Checks a decoded icon of `w` by `h` pixels: its side and pixels when it
/// is square and of an accepted size, and otherwise why not.
pub fn check_icon(w: u32, h: u32, pixels: Vec<u8>) -> (r: Result<(u32, Vec<u8>), String>)
    ensures
        match icon_size_error(w, h) {
            Some(msg) => r matches Err(m) && m@ == msg,
            None => r matches Ok((side, px)) && side == w && px@ == pixels@,
        },
{
    if w != h {
        return Err(with_size("Icon must be square, got ", w, h));
    }
    if !(w == 16 || w == 32 || w == 48 || w == 64 || w == 128 || w == 256 || w == 512) {
        let m = with_size("Icon size ", w, h);
        let r = concat(m.as_str(), " is not standard. Recommended: 16, 32, 64, 128, 256, 512");
        return Err(r);
    }
    Ok((w, pixels))
}

/// Decodes the window icon file `path` from its contents `bytes`, in the
/// format that the path's extension names: its side and RGBA8 pixels when
/// it is a square image of an accepted size, and otherwise why not.
pub fn decode_window_icon(bytes: &[u8], path: &str) -> (r: Result<(u32, Vec<u8>), String>)
    ensures
        match decoded_rgba(path_extension(path@), bytes@) {
            None => r matches Err(m) && exists|e: Seq<char>| m@ == #[trigger] ("Failed to load icon '"@ + path@ + "': "@ + e),
            Some((w, h, px)) => match icon_size_error(w, h) {
                Some(msg) => r matches Err(m) && m@ == msg,
                None => r matches Ok((side, pixels)) && side == w && pixels@ == px,
            },
        },
        r is Ok <==> icon_of(path@, bytes@) is Some,
        r matches Ok((side, pixels)) ==> icon_of(path@, bytes@) == Some((side, pixels@)),
{
    let ext = path_extension_str(path);
    match decode_rgba8(ext.as_str(), bytes) {
        Ok((w, h, pixels)) => check_icon(w, h, pixels),
        Err(e) => {
            let a = concat("Failed to load icon '", path);
            let b = concat(a.as_str(), "': ");
            let m = image_error_message(&e);
            let r = concat(b.as_str(), m.as_str());
            proof {
                assert(r@ == "Failed to load icon '"@ + path@ + "': "@ + m@);
            }
            Err(r)
        },
    }
}

/// The icons that each file gives, in order.
pub open spec fn icons_of(files: Seq<(Seq<u8>, Seq<char>)>) -> Seq<(u32, Seq<u8>)>
    decreases files.len(),
{
    if files.len() == 0 {
        Seq::empty()
    } else {
        let r = icons_of(files.drop_last());
        match icon_of(files.last().1, files.last().0) {
            Some(i) => r.push(i),
            None => r,
        }
    }
}

/// The files of a list, each as its contents and its path.
pub open spec fn file_views(files: Seq<(Vec<u8>, String)>) -> Seq<(Seq<u8>, Seq<char>)> {
    files.map_values(|f: (Vec<u8>, String)| (f.0@, f.1@))
}

/// The icon views of a list.
pub open spec fn icon_views(icons: Seq<(u32, Vec<u8>)>) -> Seq<(u32, Seq<u8>)> {
    icons.map_values(|i: (u32, Vec<u8>)| (i.0, i.1@))
}

/// How many of the files give no icon.
pub open spec fn icon_failures(files: Seq<(Seq<u8>, Seq<char>)>) -> nat
    decreases files.len(),
{
    if files.len() == 0 {
        0
    } else {
        icon_failures(files.drop_last()) + (if icon_of(files.last().1, files.last().0) is None { 1nat } else { 0nat })
    }
}

/// Decodes each icon file (contents, path) in turn, keeping those that give
/// an icon and adding to `skipped` one message (`Skipping icon '<path>': ..`)
/// for each that does not. Fails when none gives an icon.
pub fn load_window_icons(files: &Vec<(Vec<u8>, String)>, skipped: &mut Vec<String>) -> (r: Result<Vec<(u32, Vec<u8>)>, String>)
    ensures
        match r {
            Ok(icons) => icons_of(file_views(files@)).len() > 0 && icon_views(icons@) == icons_of(file_views(files@)),
            Err(m) => icons_of(file_views(files@)).len() == 0 && m@ == "No valid icons loaded"@,
        },
        old(skipped)@.is_prefix_of(final(skipped)@),
        final(skipped)@.len() == old(skipped)@.len() + icon_failures(file_views(files@)),
        forall|k: int| old(skipped)@.len() <= k < final(skipped)@.len()
            ==> "Skipping icon '"@.is_prefix_of(#[trigger] final(skipped)@[k]@),
{
    let ghost all = file_views(files@);
    let mut icons: Vec<(u32, Vec<u8>)> = Vec::new();
    let mut i: usize = 0;
    while i < files.len()
        invariant
            i <= files@.len(),
            all == file_views(files@),
            icon_views(icons@) == icons_of(all.subrange(0, i as int)),
            old(skipped)@.is_prefix_of(skipped@),
            skipped@.len() == old(skipped)@.len() + icon_failures(all.subrange(0, i as int)),
            forall|k: int| old(skipped)@.len() <= k < skipped@.len()
                ==> "Skipping icon '"@.is_prefix_of(#[trigger] skipped@[k]@),
        decreases files@.len() - i,
    {
        proof {
            let sub = all.subrange(0, i + 1);
            assert(sub.drop_last() =~= all.subrange(0, i as int));
            assert(sub.last() == all[i as int]);
            assert(all[i as int] == (files@[i as int].0@, files@[i as int].1@));
        }
        let file = &files[i];
        match decode_window_icon(file.0.as_slice(), file.1.as_str()) {
            Ok(icon) => {
                let ghost before = icons@;
                icons.push(icon);
                proof {
                    assert(icon_views(icons@) =~= icon_views(before).push((icon.0, icon.1@)));
                }
            },
            Err(e) => {
                let ghost before = skipped@;
                let a = concat("Skipping icon '", file.1.as_str());
                let b = concat(a.as_str(), "': ");
                let m = concat(b.as_str(), e.as_str());
                proof {
                    assert(m@ == "Skipping icon '"@ + (file.1@ + "': "@ + e@));
                    assert(m@.subrange(0, "Skipping icon '"@.len() as int) =~= "Skipping icon '"@);
                }
                skipped.push(m);
                proof {
                    assert forall|k: int| old(skipped)@.len() <= k < skipped@.len()
                        implies "Skipping icon '"@.is_prefix_of(#[trigger] skipped@[k]@) by {
                        if k < before.len() {
                            assert(skipped@[k] == before[k]);
                        }
                    }
                    assert(old(skipped)@.is_prefix_of(skipped@)) by {
                        assert forall|k: int| 0 <= k < old(skipped)@.len() implies old(skipped)@[k] == skipped@[k] by {
                            assert(old(skipped)@[k] == before[k]);
                        }
                    }
                }
            },
        }
        i = i + 1;
    }
    proof {
        assert(all.subrange(0, i as int) =~= all);
        assert(icon_views(icons@).len() == icons@.len());
    }
    if icons.len() == 0 {
        Err(owned("No valid icons loaded"))
    } else {
        Ok(icons)
    }
}

/// A font: the size of one character and a texture per character.
#[derive(Debug)]
pub struct FontAsset {
    pub character_size: (u32, u32),
    pub characters: Vec<(char, Handle<TextureAsset>)>,
}

impl FontAsset {
    /// The characters with their textures.
    pub open spec fn glyphs(&self) -> Map<char, TextureAsset> {
        Map::new(
            |c: char| exists|i: int| 0 <= i < self.characters@.len() && #[trigger] self.characters@[i].0 == c,
            |c: char| *self.characters@[choose|i: int| 0 <= i < self.characters@.len() && #[trigger] self.characters@[i].0 == c].1.inner,
        )
    }

    /// No character has two textures.
    pub open spec fn wf(&self) -> bool {
        forall|i: int, j: int| 0 <= i < self.characters@.len() && 0 <= j < self.characters@.len() && i != j
            ==> #[trigger] self.characters@[i].0 != #[trigger] self.characters@[j].0
    }

    /// The built-in font: 8 by 8 characters, none drawn yet.
    pub fn load_default() -> (r: Self)
        ensures
            r.wf(),
            r.character_size == (8u32, 8u32),
            r.glyphs().is_empty(),
    {
        let r = FontAsset { character_size: (8, 8), characters: Vec::new() };
        assert(r.glyphs() =~= Map::<char, TextureAsset>::empty());
        r
    }

    fn index_of(&self, c: char) -> (r: Option<usize>)
        requires
            self.wf(),
        ensures
            match r {
                Some(i) => i < self.characters@.len() && self.characters@[i as int].0 == c,
                None => !self.glyphs().contains_key(c),
            },
    {
        let mut i: usize = 0;
        while i < self.characters.len()
            invariant
                i <= self.characters@.len(),
                forall|k: int| 0 <= k < i ==> #[trigger] self.characters@[k].0 != c,
            decreases self.characters@.len() - i,
        {
            if self.characters[i].0 == c {
                return Some(i);
            }
            i = i + 1;
        }
        None
    }

    /// The texture of `c`.
    pub fn get_character_texture(&self, c: char) -> (r: Option<&Handle<TextureAsset>>)
        requires
            self.wf(),
        ensures
            match r {
                Some(h) => self.glyphs().contains_key(c) && *h.inner == self.glyphs()[c],
                None => !self.glyphs().contains_key(c),
            },
    {
        match self.index_of(c) {
            Some(i) => {
                proof {
                    let k = choose|k: int| 0 <= k < self.characters@.len() && #[trigger] self.characters@[k].0 == c;
                    if k != i {
                        assert(self.characters@[k].0 == self.characters@[i as int].0);
                    }
                }
                Some(&self.characters[i].1)
            },
            None => None,
        }
    }

    /// Sets the texture of `c`.
    pub fn set_character_texture(&mut self, c: char, texture: Handle<TextureAsset>)
        requires
            old(self).wf(),
        ensures
            final(self).wf(),
            final(self).character_size == old(self).character_size,
            final(self).glyphs() == old(self).glyphs().insert(c, *texture.inner),
    {
        let ghost before = self.characters@;
        let ghost value = asset_of(&texture);
        match self.index_of(c) {
            Some(i) => {
                self.characters.set(i, (c, texture));
                proof {
                    assert forall|a: int, b: int| 0 <= a < self.characters@.len() && 0 <= b < self.characters@.len() && a != b
                        implies #[trigger] self.characters@[a].0 != #[trigger] self.characters@[b].0 by {
                        assert(self.characters@[a].0 == before[a].0 && self.characters@[b].0 == before[b].0);
                    }
                    assert forall|d: char| #[trigger] self.glyphs().contains_key(d) == old(self).glyphs().insert(c, value).contains_key(d) by {
                        if old(self).glyphs().contains_key(d) {
                            let k = choose|k: int| 0 <= k < before.len() && #[trigger] before[k].0 == d;
                            assert(self.characters@[k].0 == d);
                        }
                        if self.glyphs().contains_key(d) && d != c {
                            let k = choose|k: int| 0 <= k < self.characters@.len() && #[trigger] self.characters@[k].0 == d;
                            assert(before[k].0 == d);
                        }
                        assert(self.characters@[i as int].0 == c);
                    }
                    assert forall|d: char| #[trigger] self.glyphs().contains_key(d) implies self.glyphs()[d] == old(self).glyphs().insert(c, value)[d] by {
                        let k = choose|k: int| 0 <= k < self.characters@.len() && #[trigger] self.characters@[k].0 == d;
                        if d == c {
                            assert(k == i);
                        } else {
                            assert(before[k] == self.characters@[k]);
                            let k0 = choose|k0: int| 0 <= k0 < before.len() && #[trigger] before[k0].0 == d;
                            assert(self.characters@[k0].0 == d);
                        }
                    }
                    assert(self.glyphs() =~= old(self).glyphs().insert(c, value));
                }
            },
            None => {
                self.characters.push((c, texture));
                proof {
                    let n = before.len() as int;
                    assert forall|a: int, b: int| 0 <= a < self.characters@.len() && 0 <= b < self.characters@.len() && a != b
                        implies #[trigger] self.characters@[a].0 != #[trigger] self.characters@[b].0 by {
                        if a < n && b < n {
                            assert(self.characters@[a] == before[a] && self.characters@[b] == before[b]);
                        } else if a < n {
                            assert(self.characters@[a] == before[a]);
                        } else {
                            assert(self.characters@[b] == before[b]);
                        }
                    }
                    assert forall|d: char| #[trigger] self.glyphs().contains_key(d) == old(self).glyphs().insert(c, value).contains_key(d) by {
                        if old(self).glyphs().contains_key(d) {
                            let k = choose|k: int| 0 <= k < before.len() && #[trigger] before[k].0 == d;
                            assert(self.characters@[k].0 == d);
                        }
                        if self.glyphs().contains_key(d) && d != c {
                            let k = choose|k: int| 0 <= k < self.characters@.len() && #[trigger] self.characters@[k].0 == d;
                            assert(k < n);
                            assert(before[k].0 == d);
                        }
                        assert(self.characters@[n].0 == c);
                    }
                    assert forall|d: char| #[trigger] self.glyphs().contains_key(d) implies self.glyphs()[d] == old(self).glyphs().insert(c, value)[d] by {
                        let k = choose|k: int| 0 <= k < self.characters@.len() && #[trigger] self.characters@[k].0 == d;
                        if d == c {
                            assert(k == n);
                        } else {
                            assert(before[k] == self.characters@[k]);
                            let k0 = choose|k0: int| 0 <= k0 < before.len() && #[trigger] before[k0].0 == d;
                            assert(self.characters@[k0].0 == d);
                        }
                    }
                    assert(self.glyphs() =~= old(self).glyphs().insert(c, value));
                }
            },
        }
    }
}

/// Draws a texture at its object's transform.
#[derive(Debug)]
pub struct SpriteRenderer {
    pub texture: Option<Handle<TextureAsset>>,
    pub texture_path: Option<String>,
}

impl SpriteRenderer {
    /// A sprite of `texture`, remembering the path the texture came from.
    pub fn new(texture: Option<Handle<TextureAsset>>) -> (r: Self)
        ensures
            r.texture == texture,
            match texture {
                Some(h) => r.texture_path matches Some(p) && p@ == h.inner.path@,
                None => r.texture_path is None,
            },
    {
        let texture_path = match &texture {
            Some(h) => Some(h.inner.path.clone()),
            None => None,
        };
        SpriteRenderer { texture, texture_path }
    }

    /// A sprite with no texture.
    pub fn default() -> (r: Self)
        ensures
            r.texture is None,
            r.texture_path is None,
    {
        SpriteRenderer { texture: None, texture_path: None }
    }

    /// Another handle to the texture (which must be set).
    pub fn get_texture_handle(&self) -> (r: Handle<TextureAsset>)
        requires
            self.texture is Some,
        ensures
            *r.inner == *self.texture->0.inner,
    {
        match &self.texture {
            Some(h) => h.share(),
            None => {
                proof {
                    assert(false);
                }
                Handle::new(TextureAsset { width: 0, height: 0, pixels: Vec::new(), path: String::new() })
            },
        }
    }

    pub fn set_texture(&mut self, texture: Option<Handle<TextureAsset>>, texture_path: Option<String>)
        ensures
            final(self).texture == texture,
            final(self).texture_path == texture_path,
    {
        self.texture = texture;
        self.texture_path = texture_path;
    }
}

/// Marks an object whose tilemap is drawn.
#[derive(Debug, Clone, Copy)]
pub struct TilemapRenderer;

impl TilemapRenderer {
    pub fn new() -> (r: Self) {
        TilemapRenderer
    }
}

} // verus!
