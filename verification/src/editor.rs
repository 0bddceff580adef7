//! The editor's pure helpers: how the content browser sorts files into
//! kinds and which entries it hides, type names as shown to the user, and
//! the templates of new files.
use vstd::prelude::*;
use crate::registry::{infos, RegisteredTypeKind, RegistrationSource, TypeInfo, TypeKey, TypeRegistry};
use crate::world::{ComponentKey, Object};
use crate::text::{chars_le, chars_lt, chars_of, concat, key_le, lemma_chars_lt_irreflexive, lemma_map_permutation, owned, push_char, sort_by_text_key, sorted_by_key, str_eq, string_from_range, string_le, vec_chars_lt, views, TextKey};

verus! {

/// What the content browser shows an entry as.
#[derive(Clone, Copy, Debug, PartialEq, Eq, Structural)]
pub enum AssetKind {
    Directory,
    GenericFile,
    RustFile,
    ImageFile,
    AudioFile,
    ShaderFile,
}

/// One entry of the content browser.
#[derive(Debug)]
pub struct ContentEntry {
    pub name: String,
    pub relative_path: String,
    pub full_path: String,
    pub kind: AssetKind,
}

impl ContentEntry {
    pub fn is_dir(&self) -> (r: bool)
        ensures
            r == (self.kind == AssetKind::Directory),
    {
        self.kind == AssetKind::Directory
    }
}

/// `c` with an ASCII capital made small.
pub open spec fn ascii_lower(c: char) -> char {
    if 'A' <= c && c <= 'Z' {
        ((c as int) + 32) as char
    } else {
        c
    }
}

/// `s` with its ASCII capitals made small (`str::to_ascii_lowercase`).
pub open spec fn ascii_lowercase(s: Seq<char>) -> Seq<char> {
    s.map_values(|c: char| ascii_lower(c))
}

fn lower_char(c: char) -> (r: char)
    ensures
        r == ascii_lower(c),
{
    if 'A' <= c && c <= 'Z' {
        let v: u32 = c as u32;
        let r = (v + 32) as u8;
        r as char
    } else {
        c
    }
}

pub fn to_ascii_lowercase(s: &str) -> (r: String)
    ensures
        r@ == ascii_lowercase(s@),
{
    let v = chars_of(s);
    let mut out: Vec<char> = Vec::new();
    let mut i: usize = 0;
    while i < v.len()
        invariant
            i <= v@.len(),
            v@ == s@,
            out@ == ascii_lowercase(s@).subrange(0, i as int),
        decreases v@.len() - i,
    {
        out.push(lower_char(v[i]));
        assert(out@ =~= ascii_lowercase(s@).subrange(0, i + 1));
        i = i + 1;
    }
    assert(ascii_lowercase(s@).subrange(0, i as int) =~= ascii_lowercase(s@));
    string_from_range(&out, 0, out.len())
}

/// The position of the last `.` in `s`, if any.
pub open spec fn last_dot(s: Seq<char>) -> Option<int>
    decreases s.len(),
{
    if s.len() == 0 {
        None
    } else if s.last() == '.' {
        Some(s.len() - 1)
    } else {
        last_dot(s.drop_last())
    }
}

/// The extension of a file name, as `Path::extension` gives it: what
/// follows the last `.`, unless that dot opens the name (or the name is `..`).
pub open spec fn extension_of(name: Seq<char>) -> Option<Seq<char>> {
    if name == seq!['.', '.'] {
        None
    } else {
        match last_dot(name) {
            Some(i) => if i == 0 {
                None
            } else {
                Some(name.subrange(i + 1, name.len() as int))
            },
            None => None,
        }
    }
}

proof fn lemma_last_dot(s: Seq<char>)
    ensures
        match last_dot(s) {
            Some(i) => 0 <= i < s.len() && s[i] == '.' && forall|k: int| i < k < s.len() ==> s[k] != '.',
            None => forall|k: int| 0 <= k < s.len() ==> s[k] != '.',
        },
    decreases s.len(),
{
    if s.len() > 0 && s.last() != '.' {
        lemma_last_dot(s.drop_last());
        let t = s.drop_last();
        assert forall|k: int| 0 <= k < t.len() implies t[k] == s[k] by {}
    }
}

pub fn file_extension(name: &str) -> (r: Option<String>)
    ensures
        match r {
            Some(e) => extension_of(name@) == Some(e@),
            None => extension_of(name@) is None,
        },
{
    let v = chars_of(name);
    if v.len() == 2 && v[0] == '.' && v[1] == '.' {
        assert(name@ =~= seq!['.', '.']);
        return None;
    }
    assert(name@ != seq!['.', '.']) by {
        if name@ == seq!['.', '.'] {
            assert(v@[0] == '.' && v@[1] == '.');
        }
    }
    let mut i: usize = v.len();
    while i > 0
        invariant
            i <= v@.len(),
            v@ == name@,
            name@ != seq!['.', '.'],
            forall|k: int| i <= k < v@.len() ==> v@[k] != '.',
        decreases i,
    {
        if v[i - 1] == '.' {
            proof {
                lemma_last_dot(name@);
                match last_dot(name@) {
                    Some(j) => {
                        assert(j == i - 1);
                    },
                    None => {
                        assert(v@[i - 1] == '.');
                    },
                }
            }
            if i - 1 == 0 {
                return None;
            }
            return Some(string_from_range(&v, i, v.len()));
        }
        i = i - 1;
    }
    proof {
        lemma_last_dot(name@);
        if let Some(j) = last_dot(name@) {
            assert(v@[j] == '.');
        }
    }
    None
}

/// The kind an entry is shown as: a directory, or a file sorted by its
/// extension, whatever its case.
pub open spec fn asset_kind_of(is_dir: bool, name: Seq<char>) -> AssetKind {
    if is_dir {
        AssetKind::Directory
    } else {
        match extension_of(name) {
            Some(e) => {
                let l = ascii_lowercase(e);
                if l == "rs"@ {
                    AssetKind::RustFile
                } else if l == "png"@ || l == "jpg"@ || l == "jpeg"@ {
                    AssetKind::ImageFile
                } else if l == "ogg"@ || l == "wav"@ || l == "mp3"@ {
                    AssetKind::AudioFile
                } else if l == "wgsl"@ {
                    AssetKind::ShaderFile
                } else {
                    AssetKind::GenericFile
                }
            },
            None => AssetKind::GenericFile,
        }
    }
}

/// The table of kinds: a directory is a directory whatever its name; a file
/// whose extension, ASCII-lowercased, is `rs` is Rust source, `png`, `jpg` or
/// `jpeg` an image, `ogg`, `wav` or `mp3` audio, `wgsl` a shader; any other
/// extension, or none, makes it a generic file.
pub proof fn lemma_asset_kind_table(name: Seq<char>)
    ensures
        asset_kind_of(true, name) == AssetKind::Directory,
        extension_of(name) is None ==> asset_kind_of(false, name) == AssetKind::GenericFile,
        extension_of(name) matches Some(e) ==> {
            let l = ascii_lowercase(e);
            &&& (l == "rs"@ ==> asset_kind_of(false, name) == AssetKind::RustFile)
            &&& (l == "png"@ || l == "jpg"@ || l == "jpeg"@ ==> asset_kind_of(false, name) == AssetKind::ImageFile)
            &&& (l == "ogg"@ || l == "wav"@ || l == "mp3"@ ==> asset_kind_of(false, name) == AssetKind::AudioFile)
            &&& (l == "wgsl"@ ==> asset_kind_of(false, name) == AssetKind::ShaderFile)
            &&& (!(l == "rs"@ || l == "png"@ || l == "jpg"@ || l == "jpeg"@ || l == "ogg"@ || l == "wav"@
                || l == "mp3"@ || l == "wgsl"@) ==> asset_kind_of(false, name) == AssetKind::GenericFile)
        },
{
    reveal_strlit("rs");
    reveal_strlit("png");
    reveal_strlit("jpg");
    reveal_strlit("jpeg");
    reveal_strlit("ogg");
    reveal_strlit("wav");
    reveal_strlit("mp3");
    reveal_strlit("wgsl");
    // The eight extensions are distinct words: two of one length differ in
    // their first letter.
    let words = seq!["rs"@, "png"@, "jpg"@, "jpeg"@, "ogg"@, "wav"@, "mp3"@, "wgsl"@];
    assert forall|a: int, b: int| 0 <= a < b < 8 implies words[a] != words[b] by {
        if words[a].len() == words[b].len() {
            assert(words[a][0] != words[b][0]);
        }
    }
    assert(words[0] == "rs"@ && words[1] == "png"@ && words[2] == "jpg"@ && words[3] == "jpeg"@);
    assert(words[4] == "ogg"@ && words[5] == "wav"@ && words[6] == "mp3"@ && words[7] == "wgsl"@);
}

/// A name made of a non-empty stem, a dot and a non-empty extension without
/// a dot has that extension.
pub proof fn lemma_extension_after_stem(stem: Seq<char>, ext: Seq<char>)
    requires
        stem.len() > 0,
        ext.len() > 0,
        forall|k: int| 0 <= k < ext.len() ==> ext[k] != '.',
    ensures
        extension_of(stem + seq!['.'] + ext) == Some(ext),
{
    let name = stem + seq!['.'] + ext;
    lemma_last_dot(name);
    let i = stem.len() as int;
    assert(name[i] == '.');
    assert forall|k: int| i < k < name.len() implies name[k] != '.' by {
        assert(name[k] == ext[k - i - 1]);
    }
    let j = last_dot(name)->0;
    assert(last_dot(name) is Some);
    assert(j == i);
    assert(name.len() > 2);
    assert(name.subrange(i + 1, name.len() as int) =~= ext);
}

/// A file named `<stem>.mp3`, `<stem>.MP3`, `<stem>.wav` or `<stem>.ogg`
/// (non-empty stem) is audio; `<stem>.png` an image; `<stem>.rs` Rust source.
pub proof fn lemma_asset_kind_of_common_names(stem: Seq<char>)
    requires
        stem.len() > 0,
    ensures
        asset_kind_of(false, stem + ".mp3"@) == AssetKind::AudioFile,
        asset_kind_of(false, stem + ".MP3"@) == AssetKind::AudioFile,
        asset_kind_of(false, stem + ".wav"@) == AssetKind::AudioFile,
        asset_kind_of(false, stem + ".ogg"@) == AssetKind::AudioFile,
        asset_kind_of(false, stem + ".png"@) == AssetKind::ImageFile,
        asset_kind_of(false, stem + ".rs"@) == AssetKind::RustFile,
{
    reveal_strlit(".mp3");
    reveal_strlit(".MP3");
    reveal_strlit(".wav");
    reveal_strlit(".ogg");
    reveal_strlit(".png");
    reveal_strlit(".rs");
    reveal_strlit("mp3");
    reveal_strlit("MP3");
    reveal_strlit("wav");
    reveal_strlit("ogg");
    reveal_strlit("png");
    reveal_strlit("rs");
    lemma_extension_after_stem(stem, "mp3"@);
    assert(stem + ".mp3"@ =~= stem + seq!['.'] + "mp3"@);
    lemma_extension_after_stem(stem, "MP3"@);
    assert(stem + ".MP3"@ =~= stem + seq!['.'] + "MP3"@);
    lemma_extension_after_stem(stem, "wav"@);
    assert(stem + ".wav"@ =~= stem + seq!['.'] + "wav"@);
    lemma_extension_after_stem(stem, "ogg"@);
    assert(stem + ".ogg"@ =~= stem + seq!['.'] + "ogg"@);
    lemma_extension_after_stem(stem, "png"@);
    assert(stem + ".png"@ =~= stem + seq!['.'] + "png"@);
    lemma_extension_after_stem(stem, "rs"@);
    assert(stem + ".rs"@ =~= stem + seq!['.'] + "rs"@);
    assert(ascii_lowercase("MP3"@) =~= "mp3"@);
    assert(ascii_lowercase("mp3"@) =~= "mp3"@);
    assert(ascii_lowercase("wav"@) =~= "wav"@);
    assert(ascii_lowercase("ogg"@) =~= "ogg"@);
    assert(ascii_lowercase("png"@) =~= "png"@);
    assert(ascii_lowercase("rs"@) =~= "rs"@);
    lemma_asset_kind_table(stem + ".mp3"@);
    lemma_asset_kind_table(stem + ".MP3"@);
    lemma_asset_kind_table(stem + ".wav"@);
    lemma_asset_kind_table(stem + ".ogg"@);
    lemma_asset_kind_table(stem + ".png"@);
    lemma_asset_kind_table(stem + ".rs"@);
}

/// The kind of the entry named `name` (a directory when `is_dir`).
pub fn classify_asset_kind(is_dir: bool, name: &str) -> (r: AssetKind)
    ensures
        r == asset_kind_of(is_dir, name@),
{
    if is_dir {
        return AssetKind::Directory;
    }
    match file_extension(name) {
        Some(e) => {
            let l = to_ascii_lowercase(e.as_str());
            let s = l.as_str();
            if str_eq(s, "rs") {
                AssetKind::RustFile
            } else if str_eq(s, "png") || str_eq(s, "jpg") || str_eq(s, "jpeg") {
                AssetKind::ImageFile
            } else if str_eq(s, "ogg") || str_eq(s, "wav") || str_eq(s, "mp3") {
                AssetKind::AudioFile
            } else if str_eq(s, "wgsl") {
                AssetKind::ShaderFile
            } else {
                AssetKind::GenericFile
            }
        },
        None => AssetKind::GenericFile,
    }
}

/// Whether the entry named `name` is hidden: tool and build folders always,
/// names starting with `.` unless hidden files are shown.
pub open spec fn ignored(name: Option<Seq<char>>, show_hidden_files: bool) -> bool {
    match name {
        Some(n) => n == ".git"@ || n == "target"@ || n == ".obsidian"@ || n == ".proj"@
            || (!show_hidden_files && n.len() > 0 && n[0] == '.'),
        None => false,
    }
}

pub fn is_ignored_path(name: Option<&str>, show_hidden_files: bool) -> (r: bool)
    ensures
        r == ignored(
            match name {
                Some(n) => Some(n@),
                None => None,
            },
            show_hidden_files,
        ),
{
    match name {
        Some(n) => {
            if str_eq(n, ".git") || str_eq(n, "target") || str_eq(n, ".obsidian") || str_eq(n, ".proj") {
                return true;
            }
            if !show_hidden_files {
                let v = chars_of(n);
                return v.len() > 0 && v[0] == '.';
            }
            false
        },
        None => false,
    }
}

/// One item of a directory listing, as the file system reports it.
#[derive(Debug)]
pub struct DirectoryItem {
    pub name: String,
    pub relative_path: String,
    pub full_path: String,
    pub is_dir: bool,
}

/// The entry the content browser shows for `item`.
pub open spec fn entry_for(item: DirectoryItem) -> ContentEntry {
    ContentEntry {
        name: item.name,
        relative_path: item.relative_path,
        full_path: item.full_path,
        kind: asset_kind_of(item.is_dir, item.name@),
    }
}

/// The entries for the items that are not hidden, in listing order.
pub open spec fn listed_entries(items: Seq<DirectoryItem>, show_hidden_files: bool) -> Seq<ContentEntry>
    decreases items.len(),
{
    if items.len() == 0 {
        Seq::empty()
    } else {
        let r = listed_entries(items.drop_last(), show_hidden_files);
        if ignored(Some(items.last().name@), show_hidden_files) {
            r
        } else {
            r.push(entry_for(items.last()))
        }
    }
}

/// Whether `a` may be listed before `b`: directories before files, and
/// within each group by name.
pub open spec fn entry_le(a: ContentEntry, b: ContentEntry) -> bool {
    let ad = a.kind == AssetKind::Directory;
    let bd = b.kind == AssetKind::Directory;
    (ad && !bd) || (ad == bd && chars_le(a.name@, b.name@))
}

impl TextKey for ContentEntry {
    /// Directories first (an empty first key comes before any other), then
    /// by name.
    open spec fn text_key(&self) -> (Seq<char>, Seq<char>) {
        (if self.kind == AssetKind::Directory { Seq::empty() } else { seq!['f'] }, self.name@)
    }

    fn key_le_exec(&self, other: &Self) -> (r: bool) {
        let a = self.is_dir();
        let b = other.is_dir();
        proof {
            let e = Seq::<char>::empty();
            assert(chars_lt(e, seq!['f']));
            lemma_chars_lt_irreflexive(self.text_key().0);
            assert(!chars_lt(seq!['f'], e));
        }
        if a && !b {
            return true;
        }
        if !a && b {
            return false;
        }
        string_le(&self.name, &other.name)
    }
}

proof fn lemma_entry_order(a: ContentEntry, b: ContentEntry)
    ensures
        key_le(a.text_key(), b.text_key()) == entry_le(a, b),
{
    let e = Seq::<char>::empty();
    assert(chars_lt(e, seq!['f']));
    assert(!chars_lt(seq!['f'], e));
    lemma_chars_lt_irreflexive(a.text_key().0);
    assert(e != seq!['f']) by {
        assert(seq!['f'].len() == 1);
    }
}

/// The content browser's entries for a directory listing: the items that
/// are not hidden, each with its kind, directories first and each group
/// ordered by name.
pub fn collect_directory_entries(items: Vec<DirectoryItem>, show_hidden_files: bool) -> (r: Vec<ContentEntry>)
    ensures
        r@.to_multiset() == listed_entries(items@, show_hidden_files).to_multiset(),
        forall|i: int, j: int| 0 <= i < j < r@.len() ==> entry_le(#[trigger] r@[i], #[trigger] r@[j]),
{
    let ghost all = items@;
    let mut rest = items;
    let mut out: Vec<ContentEntry> = Vec::new();
    let ghost mut done: int = 0;
    while rest.len() > 0
        invariant
            0 <= done <= all.len(),
            rest@ == all.subrange(done, all.len() as int),
            out@ == listed_entries(all.subrange(0, done), show_hidden_files),
        decreases rest@.len(),
    {
        let item = rest.remove(0);
        proof {
            assert(item == all[done]);
            assert(all.subrange(0, done + 1).drop_last() =~= all.subrange(0, done));
            assert(all.subrange(0, done + 1).last() == item);
        }
        if !is_ignored_path(Some(item.name.as_str()), show_hidden_files) {
            let kind = classify_asset_kind(item.is_dir, item.name.as_str());
            let entry = ContentEntry {
                name: item.name,
                relative_path: item.relative_path,
                full_path: item.full_path,
                kind,
            };
            proof {
                assert(entry == entry_for(all[done]));
            }
            out.push(entry);
        }
        proof {
            done = done + 1;
            assert(rest@ =~= all.subrange(done, all.len() as int));
        }
    }
    proof {
        assert(all.subrange(0, done) =~= all);
    }
    let r = sort_by_text_key(out);
    proof {
        assert forall|i: int, j: int| 0 <= i < j < r@.len() implies entry_le(#[trigger] r@[i], #[trigger] r@[j]) by {
            lemma_entry_order(r@[i], r@[j]);
        }
    }
    r
}

/// Whether a `::` starts at `k` in `s`.
pub open spec fn sep_at(s: Seq<char>, k: int) -> bool {
    s[k] == ':' && s[k + 1] == ':'
}

/// Where the last `::` in `s` starts, if there is one.
pub open spec fn last_path_sep(s: Seq<char>) -> Option<int>
    decreases s.len(),
{
    if s.len() < 2 {
        None
    } else if s[s.len() - 2] == ':' && s[s.len() - 1] == ':' {
        Some(s.len() - 2)
    } else {
        last_path_sep(s.drop_last())
    }
}

/// A type's name without its module path: what follows the last `::`.
pub open spec fn short_name(s: Seq<char>) -> Seq<char> {
    match last_path_sep(s) {
        Some(i) => s.subrange(i + 2, s.len() as int),
        None => s,
    }
}

proof fn lemma_last_path_sep(s: Seq<char>)
    ensures
        match last_path_sep(s) {
            Some(i) => 0 <= i && i + 2 <= s.len() && sep_at(s, i)
                && forall|k: int| i < k && k + 2 <= s.len() ==> !#[trigger] sep_at(s, k),
            None => forall|k: int| 0 <= k && k + 2 <= s.len() ==> !#[trigger] sep_at(s, k),
        },
    decreases s.len(),
{
    if s.len() >= 2 && !(s[s.len() - 2] == ':' && s[s.len() - 1] == ':') {
        let t = s.drop_last();
        lemma_last_path_sep(t);
        assert(last_path_sep(s) == last_path_sep(t));
        match last_path_sep(t) {
            Some(i) => {
                assert(sep_at(t, i) == sep_at(s, i));
                assert forall|k: int| i < k && k + 2 <= s.len() implies !#[trigger] sep_at(s, k) by {
                    if k + 2 <= t.len() {
                        assert(sep_at(t, k) == sep_at(s, k));
                    }
                }
            },
            None => {
                assert forall|k: int| 0 <= k && k + 2 <= s.len() implies !#[trigger] sep_at(s, k) by {
                    if k + 2 <= t.len() {
                        assert(sep_at(t, k) == sep_at(s, k));
                    }
                }
            },
        }
    }
}

pub fn short_type_name(name: &str) -> (r: String)
    ensures
        r@ == short_name(name@),
{
    let v = chars_of(name);
    let mut i: usize = v.len();
    while i >= 2
        invariant
            i <= v@.len(),
            v@ == name@,
            forall|k: int| i - 1 <= k && k + 2 <= v@.len() ==> !#[trigger] sep_at(v@, k),
        decreases i,
    {
        if v[i - 2] == ':' && v[i - 1] == ':' {
            proof {
                lemma_last_path_sep(name@);
                assert(sep_at(v@, i - 2));
                match last_path_sep(name@) {
                    Some(j) => {
                        assert(j == i - 2);
                    },
                    None => {},
                }
            }
            return string_from_range(&v, i, v.len());
        }
        i = i - 1;
    }
    proof {
        lemma_last_path_sep(name@);
        if let Some(j) = last_path_sep(name@) {
            assert(sep_at(v@, j));
        }
    }
    owned(name)
}

/// The source of a new object script whose type is named `name`.
pub open spec fn script_template(name: Seq<char>) -> Seq<char> {
    SCRIPT_HEAD@ + name + SCRIPT_FIELDS@ + name + SCRIPT_NEW@ + name + SCRIPT_TAIL@
}

pub const SCRIPT_HEAD: &'static str = "use runa_engine::{\n    runa_core::{\n        components::{SpriteRenderer, Transform},\n        ocs::{Object, Script},\n        Vec3,\n    },\n};\n\npub struct ";

pub const SCRIPT_FIELDS: &'static str = " {\n    speed: f32,\n    direction: Vec3,\n}\n\nimpl ";

pub const SCRIPT_NEW: &'static str = " {\n    pub fn new() -> Self {\n        Self {\n            speed: 1.0,\n            direction: Vec3::ZERO,\n        }\n    }\n}\n\nimpl Script for ";

pub const SCRIPT_TAIL: &'static str = " {\n    fn construct(&self, object: &mut Object) {\n        object\n            .add_component(Transform::default())\n            .add_component(SpriteRenderer::default());\n    }\n\n    fn update(&mut self, object: &mut Object, dt: f32) {\n        let _ = (&self.speed, &self.direction, object, dt);\n    }\n}\n";

pub fn object_script_template(name: &str) -> (r: String)
    ensures
        r@ == script_template(name@),
{
    let a = concat(SCRIPT_HEAD, name);
    let b = concat(a.as_str(), SCRIPT_FIELDS);
    let c = concat(b.as_str(), name);
    let d = concat(c.as_str(), SCRIPT_NEW);
    let e = concat(d.as_str(), name);
    concat(e.as_str(), SCRIPT_TAIL)
}

/// The source of a new shader.
pub fn wgsl_shader_template() -> (r: &'static str)
    ensures
        r@ == WGSL_TEMPLATE@,
{
    WGSL_TEMPLATE
}

pub const WGSL_TEMPLATE: &'static str = "@group(0) @binding(0)\nvar<uniform> globals: mat4x4<f32>;\n\nstruct VertexInput {\n    @location(0) position: vec3<f32>,\n    @location(1) uv: vec2<f32>,\n};\n\nstruct VertexOutput {\n    @builtin(position) clip_position: vec4<f32>,\n    @location(0) uv: vec2<f32>,\n};\n\n@vertex\nfn vs_main(input: VertexInput) -> VertexOutput {\n    var out: VertexOutput;\n    out.clip_position = globals * vec4<f32>(input.position, 1.0);\n    out.uv = input.uv;\n    return out;\n}\n\n@fragment\nfn fs_main(input: VertexOutput) -> @location(0) vec4<f32> {\n    return vec4<f32>(input.uv, 0.5, 1.0);\n}\n";

/// The meshes the editor can build.
#[derive(Clone, Copy, Debug, PartialEq, Eq, Structural)]
pub enum BuiltinMeshPrimitive {
    Cube,
    Quad,
    Plane,
    Pyramid,
}

pub fn mesh_primitive_label(primitive: BuiltinMeshPrimitive) -> (r: &'static str)
    ensures
        r@ == (match primitive {
            BuiltinMeshPrimitive::Cube => "Cube"@,
            BuiltinMeshPrimitive::Quad => "Quad"@,
            BuiltinMeshPrimitive::Plane => "Plane"@,
            BuiltinMeshPrimitive::Pyramid => "Pyramid"@,
        }),
{
    match primitive {
        BuiltinMeshPrimitive::Cube => "Cube",
        BuiltinMeshPrimitive::Quad => "Quad",
        BuiltinMeshPrimitive::Plane => "Plane",
        BuiltinMeshPrimitive::Pyramid => "Pyramid",
    }
}

/// What the inspector asked to remove from the selected object.
#[derive(Debug)]
pub struct InspectorActions {
    pub removals: Vec<InspectorRemoval>,
}

#[derive(Debug)]
pub struct InspectorRemoval {
    pub target: InspectorRemovalTarget,
}

#[derive(Debug)]
pub enum InspectorRemovalTarget {
    RuntimeType { type_id: TypeKey, name: String },
    SerializedType { kind: RegisteredTypeKind, name: String },
}

impl InspectorActions {
    pub fn new() -> (r: Self)
        ensures
            r.removals@.len() == 0,
    {
        InspectorActions { removals: Vec::new() }
    }
}

/// What the "place object" menu shows of an object kind.
#[derive(Debug)]
pub struct PlaceableObjectDescriptor {
    pub id: String,
    pub name: String,
    pub category: String,
}

/// An object kind the editor can place, with the object it places.
#[derive(Debug)]
pub struct PlaceableObjectRecord<O> {
    pub descriptor: PlaceableObjectDescriptor,
    pub object: O,
}

impl<O> TextKey for PlaceableObjectRecord<O> {
    /// Records are listed by category, then by name.
    open spec fn text_key(&self) -> (Seq<char>, Seq<char>) {
        (self.descriptor.category@, self.descriptor.name@)
    }

    fn key_le_exec(&self, other: &Self) -> (r: bool) {
        let a = chars_of(self.descriptor.category.as_str());
        let b = chars_of(other.descriptor.category.as_str());
        if vec_chars_lt(&a, &b) {
            return true;
        }
        if !str_eq(self.descriptor.category.as_str(), other.descriptor.category.as_str()) {
            return false;
        }
        let c = chars_of(self.descriptor.name.as_str());
        let d = chars_of(other.descriptor.name.as_str());
        vec_chars_lt(&c, &d) || str_eq(self.descriptor.name.as_str(), other.descriptor.name.as_str())
    }
}

/// `records` with `r` in the place of the record of the same id, or added
/// last when there is none.
pub open spec fn upsert_record<O>(records: Seq<PlaceableObjectRecord<O>>, r: PlaceableObjectRecord<O>) -> Seq<PlaceableObjectRecord<O>> {
    if exists|i: int| 0 <= i < records.len() && #[trigger] records[i].descriptor.id@ == r.descriptor.id@ {
        records.update(
            choose|i: int| 0 <= i < records.len() && #[trigger] records[i].descriptor.id@ == r.descriptor.id@,
            r,
        )
    } else {
        records.push(r)
    }
}

/// `records` with each of `rs` upserted in turn.
pub open spec fn upsert_all<O>(records: Seq<PlaceableObjectRecord<O>>, rs: Seq<PlaceableObjectRecord<O>>) -> Seq<PlaceableObjectRecord<O>>
    decreases rs.len(),
{
    if rs.len() == 0 {
        records
    } else {
        upsert_record(upsert_all(records, rs.drop_last()), rs.last())
    }
}

/// The placeholder player record that projects list and the editor ignores.
pub open spec fn is_placeholder_player(d: PlaceableObjectDescriptor) -> bool {
    d.id@ == "player"@ && d.name@ == "Player"@ && d.category@ == "Gameplay"@
}

/// `rs` without the placeholder player records.
pub open spec fn without_placeholders<O>(rs: Seq<PlaceableObjectRecord<O>>) -> Seq<PlaceableObjectRecord<O>>
    decreases rs.len(),
{
    if rs.len() == 0 {
        rs
    } else {
        let r = without_placeholders(rs.drop_last());
        if is_placeholder_player(rs.last().descriptor) {
            r
        } else {
            r.push(rs.last())
        }
    }
}

/// The defaults, overridden or extended by the project's records (a record
/// replaces the one of the same id), before sorting.
pub open spec fn merged_records<O>(defaults: Seq<PlaceableObjectRecord<O>>, project: Seq<PlaceableObjectRecord<O>>) -> Seq<PlaceableObjectRecord<O>> {
    upsert_all(upsert_all(Seq::empty(), defaults), without_placeholders(project))
}

pub open spec fn unique_record_ids<O>(s: Seq<PlaceableObjectRecord<O>>) -> bool {
    forall|i: int, j: int| 0 <= i < s.len() && 0 <= j < s.len() && i != j
        ==> #[trigger] s[i].descriptor.id@ != #[trigger] s[j].descriptor.id@
}

fn upsert_into<O>(records: &mut Vec<PlaceableObjectRecord<O>>, r: PlaceableObjectRecord<O>)
    requires
        unique_record_ids(old(records)@),
    ensures
        unique_record_ids(final(records)@),
        final(records)@ == upsert_record(old(records)@, r),
{
    let ghost before = records@;
    let mut i: usize = 0;
    while i < records.len()
        invariant
            records@ == before,
            before == old(records)@,
            unique_record_ids(before),
            i <= records@.len(),
            forall|k: int| 0 <= k < i ==> #[trigger] records@[k].descriptor.id@ != r.descriptor.id@,
        decreases records@.len() - i,
    {
        if str_eq(records[i].descriptor.id.as_str(), r.descriptor.id.as_str()) {
            let ghost rid = r.descriptor.id@;
            proof {
                assert(before[i as int].descriptor.id@ == rid);
                assert(exists|k: int| 0 <= k < before.len() && #[trigger] before[k].descriptor.id@ == rid);
                let c = choose|c: int| 0 <= c < before.len() && #[trigger] before[c].descriptor.id@ == rid;
                if c != i {
                    assert(before[c].descriptor.id@ == before[i as int].descriptor.id@);
                }
                assert(c == i);
                assert(upsert_record(before, r) == before.update(i as int, r));
            }
            records.set(i, r);
            proof {
                assert forall|a: int, b: int| 0 <= a < records@.len() && 0 <= b < records@.len() && a != b
                    implies #[trigger] records@[a].descriptor.id@ != #[trigger] records@[b].descriptor.id@ by {
                    if a != i && b != i {
                        assert(records@[a] == before[a] && records@[b] == before[b]);
                    } else if a == i {
                        assert(records@[b] == before[b]);
                    } else {
                        assert(records@[a] == before[a]);
                    }
                }
            }
            return;
        }
        i = i + 1;
    }
    records.push(r);
    proof {
        assert forall|a: int, b: int| 0 <= a < records@.len() && 0 <= b < records@.len() && a != b
            implies #[trigger] records@[a].descriptor.id@ != #[trigger] records@[b].descriptor.id@ by {
            if a < before.len() && b < before.len() {
                assert(records@[a] == before[a] && records@[b] == before[b]);
            } else if a < before.len() {
                assert(records@[a] == before[a]);
            } else {
                assert(records@[b] == before[b]);
            }
        }
    }
}

fn upsert_each<O>(records: &mut Vec<PlaceableObjectRecord<O>>, rs: Vec<PlaceableObjectRecord<O>>, skip_placeholders: bool)
    requires
        unique_record_ids(old(records)@),
    ensures
        unique_record_ids(final(records)@),
        final(records)@ == upsert_all(old(records)@, if skip_placeholders { without_placeholders(rs@) } else { rs@ }),
{
    let ghost all = rs@;
    let ghost start = records@;
    let mut rest = rs;
    let ghost mut done: int = 0;
    while rest.len() > 0
        invariant
            unique_record_ids(records@),
            0 <= done <= all.len(),
            rest@ == all.subrange(done, all.len() as int),
            records@ == upsert_all(start, if skip_placeholders { without_placeholders(all.subrange(0, done)) } else { all.subrange(0, done) }),
        decreases rest@.len(),
    {
        let r = rest.remove(0);
        proof {
            assert(r == all[done]);
            assert(all.subrange(0, done + 1).drop_last() =~= all.subrange(0, done));
            assert(all.subrange(0, done + 1).last() == r);
        }
        let skip = skip_placeholders && str_eq(r.descriptor.id.as_str(), "player") && str_eq(r.descriptor.name.as_str(), "Player")
            && str_eq(r.descriptor.category.as_str(), "Gameplay");
        proof {
            assert(skip_placeholders ==> (skip == is_placeholder_player(r.descriptor)));
        }
        if !skip {
            let ghost pre = records@;
            upsert_into(records, r);
            proof {
                let taken = if skip_placeholders { without_placeholders(all.subrange(0, done)) } else { all.subrange(0, done) };
                let taken2 = if skip_placeholders { without_placeholders(all.subrange(0, done + 1)) } else { all.subrange(0, done + 1) };
                assert(taken2.drop_last() =~= taken);
                assert(taken2.last() == r);
            }
        } else {
            proof {
                assert(without_placeholders(all.subrange(0, done + 1)) == without_placeholders(all.subrange(0, done)));
            }
        }
        proof {
            done = done + 1;
            assert(rest@ =~= all.subrange(done, all.len() as int));
        }
    }
    proof {
        assert(all.subrange(0, done) =~= all);
    }
}

/// The records the "place object" menu lists: the defaults, replaced or
/// extended by the project's records of the same id (the placeholder player
/// record aside), ordered by category and then by name.
pub fn merge_placeable_object_records<O>(
    defaults: Vec<PlaceableObjectRecord<O>>,
    project_records: Vec<PlaceableObjectRecord<O>>,
) -> (r: Vec<PlaceableObjectRecord<O>>)
    ensures
        r@.to_multiset() == merged_records(defaults@, project_records@).to_multiset(),
        sorted_by_key(r@),
{
    let ghost d = defaults@;
    let ghost p = project_records@;
    let mut merged: Vec<PlaceableObjectRecord<O>> = Vec::new();
    upsert_each(&mut merged, defaults, false);
    upsert_each(&mut merged, project_records, true);
    proof {
        assert(merged@ == merged_records(d, p));
    }
    sort_by_text_key(merged)
}

/// Whether one of `s` has the id `id`.
pub open spec fn has_record_id<O>(s: Seq<PlaceableObjectRecord<O>>, id: Seq<char>) -> bool {
    exists|i: int| 0 <= i < s.len() && #[trigger] s[i].descriptor.id@ == id
}

/// The last of `s` with the id `id`.
pub open spec fn last_with_id<O>(s: Seq<PlaceableObjectRecord<O>>, id: Seq<char>) -> Option<PlaceableObjectRecord<O>>
    decreases s.len(),
{
    if s.len() == 0 {
        None
    } else if s.last().descriptor.id@ == id {
        Some(s.last())
    } else {
        last_with_id(s.drop_last(), id)
    }
}

proof fn lemma_last_with_id<O>(s: Seq<PlaceableObjectRecord<O>>, id: Seq<char>)
    ensures
        last_with_id(s, id) is Some <==> has_record_id(s, id),
        last_with_id(s, id) matches Some(x) ==> x.descriptor.id@ == id,
    decreases s.len(),
{
    if s.len() > 0 {
        let t = s.drop_last();
        lemma_last_with_id(t, id);
        if s.last().descriptor.id@ == id {
            assert(s[s.len() - 1].descriptor.id@ == id);
        } else {
            if has_record_id(s, id) {
                let i = choose|i: int| 0 <= i < s.len() && #[trigger] s[i].descriptor.id@ == id;
                assert(i < t.len());
                assert(t[i] == s[i]);
            }
            if has_record_id(t, id) {
                let i = choose|i: int| 0 <= i < t.len() && #[trigger] t[i].descriptor.id@ == id;
                assert(s[i] == t[i]);
            }
        }
    }
}

/// Upserting `rs` into records with distinct ids keeps the ids distinct,
/// holds the ids of both, and leaves under each id the last of `rs` with it
/// or, when `rs` has none, the record that was there.
proof fn lemma_upsert_all<O>(base: Seq<PlaceableObjectRecord<O>>, rs: Seq<PlaceableObjectRecord<O>>)
    requires
        unique_record_ids(base),
    ensures
        unique_record_ids(upsert_all(base, rs)),
        forall|id: Seq<char>| #[trigger] has_record_id(upsert_all(base, rs), id) <==> (has_record_id(base, id) || has_record_id(rs, id)),
        forall|i: int| 0 <= i < upsert_all(base, rs).len() ==> #[trigger] upsert_all(base, rs)[i] == (match last_with_id(rs, upsert_all(base, rs)[i].descriptor.id@) {
            Some(x) => x,
            None => last_with_id(base, upsert_all(base, rs)[i].descriptor.id@)->0,
        }),
    decreases rs.len(),
{
    if rs.len() == 0 {
        assert forall|i: int| 0 <= i < base.len() implies #[trigger] base[i] == last_with_id(base, base[i].descriptor.id@)->0 by {
            lemma_last_unique(base, i);
        }
        assert forall|id: Seq<char>| #[trigger] has_record_id(upsert_all(base, rs), id) <==> (has_record_id(base, id) || has_record_id(rs, id)) by {
            if has_record_id(rs, id) {
                let i = choose|i: int| 0 <= i < rs.len() && #[trigger] rs[i].descriptor.id@ == id;
            }
        }
    } else {
        let t = rs.drop_last();
        let r = rs.last();
        lemma_upsert_all(base, t);
        let prev = upsert_all(base, t);
        let next = upsert_record(prev, r);
        assert(upsert_all(base, rs) == next);
        let rid = r.descriptor.id@;
        if exists|i: int| 0 <= i < prev.len() && #[trigger] prev[i].descriptor.id@ == rid {
            let k = choose|i: int| 0 <= i < prev.len() && #[trigger] prev[i].descriptor.id@ == rid;
            assert(next == prev.update(k, r));
            assert forall|a: int, b: int| 0 <= a < next.len() && 0 <= b < next.len() && a != b
                implies #[trigger] next[a].descriptor.id@ != #[trigger] next[b].descriptor.id@ by {
                if a != k && b != k {
                    assert(next[a] == prev[a] && next[b] == prev[b]);
                } else if a == k {
                    assert(next[b] == prev[b]);
                } else {
                    assert(next[a] == prev[a]);
                }
            }
            assert forall|i: int| 0 <= i < next.len() implies #[trigger] next[i] == (match last_with_id(rs, next[i].descriptor.id@) {
                Some(x) => x,
                None => last_with_id(base, next[i].descriptor.id@)->0,
            }) by {
                if i != k {
                    assert(next[i] == prev[i]);
                    assert(prev[i].descriptor.id@ != rid);
                    assert(last_with_id(rs, next[i].descriptor.id@) == last_with_id(t, next[i].descriptor.id@));
                }
            }
            assert forall|id: Seq<char>| #[trigger] has_record_id(next, id) <==> (has_record_id(base, id) || has_record_id(rs, id)) by {
                if has_record_id(next, id) {
                    let i = choose|i: int| 0 <= i < next.len() && #[trigger] next[i].descriptor.id@ == id;
                    if i != k {
                        assert(prev[i] == next[i]);
                        assert(has_record_id(prev, id));
                    } else {
                        assert(rs[rs.len() - 1].descriptor.id@ == id);
                    }
                }
                if has_record_id(rs, id) {
                    let i = choose|i: int| 0 <= i < rs.len() && #[trigger] rs[i].descriptor.id@ == id;
                    if i < t.len() {
                        assert(t[i] == rs[i]);
                        assert(has_record_id(prev, id));
                    }
                }
                if has_record_id(prev, id) {
                    let i = choose|i: int| 0 <= i < prev.len() && #[trigger] prev[i].descriptor.id@ == id;
                    if i == k {
                        assert(next[k].descriptor.id@ == id);
                    } else {
                        assert(next[i] == prev[i]);
                    }
                }
                if has_record_id(base, id) {
                    assert(has_record_id(prev, id));
                }
            }
        } else {
            assert(next == prev.push(r));
            assert forall|a: int, b: int| 0 <= a < next.len() && 0 <= b < next.len() && a != b
                implies #[trigger] next[a].descriptor.id@ != #[trigger] next[b].descriptor.id@ by {
                if a < prev.len() && b < prev.len() {
                    assert(next[a] == prev[a] && next[b] == prev[b]);
                } else if a < prev.len() {
                    assert(next[a] == prev[a]);
                } else {
                    assert(next[b] == prev[b]);
                }
            }
            assert forall|i: int| 0 <= i < next.len() implies #[trigger] next[i] == (match last_with_id(rs, next[i].descriptor.id@) {
                Some(x) => x,
                None => last_with_id(base, next[i].descriptor.id@)->0,
            }) by {
                if i < prev.len() {
                    assert(next[i] == prev[i]);
                    assert(prev[i].descriptor.id@ != rid);
                    assert(last_with_id(rs, next[i].descriptor.id@) == last_with_id(t, next[i].descriptor.id@));
                }
            }
            assert forall|id: Seq<char>| #[trigger] has_record_id(next, id) <==> (has_record_id(base, id) || has_record_id(rs, id)) by {
                if has_record_id(next, id) {
                    let i = choose|i: int| 0 <= i < next.len() && #[trigger] next[i].descriptor.id@ == id;
                    if i < prev.len() {
                        assert(prev[i] == next[i]);
                        assert(has_record_id(prev, id));
                    } else {
                        assert(rs[rs.len() - 1].descriptor.id@ == id);
                    }
                }
                if has_record_id(rs, id) {
                    let i = choose|i: int| 0 <= i < rs.len() && #[trigger] rs[i].descriptor.id@ == id;
                    if i < t.len() {
                        assert(t[i] == rs[i]);
                        assert(has_record_id(prev, id));
                    } else {
                        assert(next[prev.len() as int] == r);
                    }
                }
                if has_record_id(prev, id) {
                    let i = choose|i: int| 0 <= i < prev.len() && #[trigger] prev[i].descriptor.id@ == id;
                    assert(next[i] == prev[i]);
                }
                if has_record_id(base, id) {
                    assert(has_record_id(prev, id));
                }
            }
        }
    }
}

proof fn lemma_last_unique<O>(s: Seq<PlaceableObjectRecord<O>>, i: int)
    requires
        unique_record_ids(s),
        0 <= i < s.len(),
    ensures
        last_with_id(s, s[i].descriptor.id@) == Some(s[i]),
    decreases s.len(),
{
    let id = s[i].descriptor.id@;
    if i != s.len() - 1 {
        let t = s.drop_last();
        assert(s[s.len() - 1].descriptor.id@ != id);
        assert(unique_record_ids(t)) by {
            assert forall|a: int, b: int| 0 <= a < t.len() && 0 <= b < t.len() && a != b
                implies #[trigger] t[a].descriptor.id@ != #[trigger] t[b].descriptor.id@ by {
                assert(t[a] == s[a] && t[b] == s[b]);
            }
        }
        assert(t[i] == s[i]);
        lemma_last_unique(t, i);
    }
}

/// The law of the "place object" list: ids are distinct; every id of the
/// defaults and of the project's records (the placeholder player aside) is
/// listed; and under each id stands the project's last record with it or,
/// when the project has none, the default's. The merged list holds each of
/// these records once.
pub proof fn lemma_placeable_merge<O>(
    defaults: Seq<PlaceableObjectRecord<O>>,
    project: Seq<PlaceableObjectRecord<O>>,
    r: Seq<PlaceableObjectRecord<O>>,
)
    requires
        r.to_multiset() == merged_records(defaults, project).to_multiset(),
    ensures
        unique_record_ids(r),
        forall|id: Seq<char>| #[trigger] has_record_id(r, id)
            <==> (has_record_id(defaults, id) || has_record_id(without_placeholders(project), id)),
        forall|i: int| 0 <= i < r.len() ==> #[trigger] r[i] == (match last_with_id(without_placeholders(project), r[i].descriptor.id@) {
            Some(x) => x,
            None => last_with_id(defaults, r[i].descriptor.id@)->0,
        }),
{
    broadcast use vstd::seq_lib::group_to_multiset_ensures;

    let empty = Seq::<PlaceableObjectRecord<O>>::empty();
    let first = upsert_all(empty, defaults);
    let wp = without_placeholders(project);
    let m = merged_records(defaults, project);
    lemma_upsert_all(empty, defaults);
    lemma_upsert_all(first, wp);
    assert forall|id: Seq<char>| #[trigger] has_record_id(first, id) <==> has_record_id(defaults, id) by {
        if has_record_id(empty, id) {
            let i = choose|i: int| 0 <= i < empty.len() && #[trigger] empty[i].descriptor.id@ == id;
        }
    }
    // The merged list has no record twice, and so neither has `r`.
    assert(m.no_duplicates()) by {
        assert forall|a: int, b: int| 0 <= a < m.len() && 0 <= b < m.len() && a != b implies m[a] != m[b] by {
            assert(m[a].descriptor.id@ != m[b].descriptor.id@);
        }
    }
    m.lemma_multiset_has_no_duplicates();
    r.lemma_multiset_has_no_duplicates_conv();
    assert forall|x: PlaceableObjectRecord<O>| #[trigger] r.contains(x) <==> m.contains(x) by {
        assert(r.to_multiset().count(x) == m.to_multiset().count(x));
    }
    assert forall|a: int, b: int| 0 <= a < r.len() && 0 <= b < r.len() && a != b
        implies #[trigger] r[a].descriptor.id@ != #[trigger] r[b].descriptor.id@ by {
        assert(r.contains(r[a]) && r.contains(r[b]));
        let ia = choose|i: int| 0 <= i < m.len() && m[i] == r[a];
        let ib = choose|i: int| 0 <= i < m.len() && m[i] == r[b];
        if ia != ib {
            assert(m[ia].descriptor.id@ != m[ib].descriptor.id@);
        }
    }
    assert forall|id: Seq<char>| #[trigger] has_record_id(r, id) <==> has_record_id(m, id) by {
        if has_record_id(r, id) {
            let i = choose|i: int| 0 <= i < r.len() && #[trigger] r[i].descriptor.id@ == id;
            assert(r.contains(r[i]));
            let j = choose|j: int| 0 <= j < m.len() && m[j] == r[i];
            assert(m[j].descriptor.id@ == id);
        }
        if has_record_id(m, id) {
            let j = choose|j: int| 0 <= j < m.len() && #[trigger] m[j].descriptor.id@ == id;
            assert(m.contains(m[j]));
            assert(r.contains(m[j]));
            let i = choose|i: int| 0 <= i < r.len() && r[i] == m[j];
            assert(r[i].descriptor.id@ == id);
        }
    }
    assert forall|i: int| 0 <= i < r.len() implies #[trigger] r[i] == (match last_with_id(wp, r[i].descriptor.id@) {
        Some(x) => x,
        None => last_with_id(defaults, r[i].descriptor.id@)->0,
    }) by {
        assert(r.contains(r[i]));
        let j = choose|j: int| 0 <= j < m.len() && m[j] == r[i];
        assert(m[j] == (match last_with_id(wp, m[j].descriptor.id@) {
            Some(x) => x,
            None => last_with_id(first, m[j].descriptor.id@)->0,
        }));
        let id = m[j].descriptor.id@;
        if last_with_id(wp, id) is None {
            lemma_last_with_id(wp, id);
            assert(has_record_id(m, id));
            assert(has_record_id(first, id));
            let f = choose|f: int| 0 <= f < first.len() && #[trigger] first[f].descriptor.id@ == id;
            assert(first[f] == last_with_id(defaults, id)->0);
            lemma_last_unique(first, f);
        }
    }
}


/// A type that the project lists: its kind, where it was registered, and
/// its full name.
#[derive(Debug)]
pub struct ProjectTypeRecord {
    pub kind: RegisteredTypeKind,
    pub source: RegistrationSource,
    pub full_name: String,
}

pub struct ProjectTypeView {
    pub kind: RegisteredTypeKind,
    pub source: RegistrationSource,
    pub full_name: Seq<char>,
}

pub open spec fn project_views(s: Seq<ProjectTypeRecord>) -> Seq<ProjectTypeView> {
    s.map_values(|p: ProjectTypeRecord| ProjectTypeView { kind: p.kind, source: p.source, full_name: p.full_name@ })
}

pub open spec fn stub_views(s: Seq<(RegisteredTypeKind, String)>) -> Seq<(RegisteredTypeKind, Seq<char>)> {
    s.map_values(|p: (RegisteredTypeKind, String)| (p.0, p.1@))
}

/// One line of the "Add Component" / "Add Script" menu: the registered type
/// it adds (none for a project type), its short name, whether it can be
/// added, and the project record it stands for.
#[derive(Debug, PartialEq, Eq)]
pub struct AddTypeEntry {
    pub key: Option<TypeKey>,
    pub name: String,
    pub addable: bool,
    pub project_index: Option<usize>,
}

pub struct AddTypeEntryView {
    pub key: Option<TypeKey>,
    pub name: Seq<char>,
    pub addable: bool,
    pub project_index: Option<usize>,
}

pub open spec fn entry_view(e: AddTypeEntry) -> AddTypeEntryView {
    AddTypeEntryView { key: e.key, name: e.name@, addable: e.addable, project_index: e.project_index }
}

pub open spec fn entry_views(s: Seq<AddTypeEntry>) -> Seq<AddTypeEntryView> {
    s.map_values(|e: AddTypeEntry| entry_view(e))
}

/// The menu lines for the registered types of `kind`, in registration order:
/// all but the excluded type and those the object already holds, each
/// addable when the type has an object builder.
pub open spec fn registered_lines<C>(
    entries: Seq<TypeInfo>,
    factories: Set<TypeKey>,
    object: Object<C>,
    kind: RegisteredTypeKind,
    excluded: TypeKey,
) -> Seq<AddTypeEntryView>
    decreases entries.len(),
{
    if entries.len() == 0 {
        Seq::empty()
    } else {
        let r = registered_lines(entries.drop_last(), factories, object, kind, excluded);
        let e = entries.last();
        if e.kind == kind && e.type_id != excluded && !object.holds(e.type_id) {
            r.push(AddTypeEntryView {
                key: Some(e.type_id),
                name: short_name(e.name),
                addable: factories.contains(e.type_id),
                project_index: None,
            })
        } else {
            r
        }
    }
}

/// Whether one of `lines` has the name `name`.
pub open spec fn lists_name(lines: Seq<AddTypeEntryView>, name: Seq<char>) -> bool {
    exists|i: int| 0 <= i < lines.len() && #[trigger] lines[i].name == name
}

/// `lines` followed by a line for each of the project's user types of
/// `kind`, in order, that is not attached as a stub and whose short name is
/// not listed yet.
pub open spec fn with_project_lines(
    lines: Seq<AddTypeEntryView>,
    project: Seq<ProjectTypeView>,
    stubs: Seq<(RegisteredTypeKind, Seq<char>)>,
    kind: RegisteredTypeKind,
) -> Seq<AddTypeEntryView>
    decreases project.len(),
{
    if project.len() == 0 {
        lines
    } else {
        let prev = with_project_lines(lines, project.drop_last(), stubs, kind);
        let p = project.last();
        let n = short_name(p.full_name);
        if p.kind == kind && p.source == RegistrationSource::User && !stubs.contains((kind, p.full_name))
            && !lists_name(prev, n) {
            prev.push(AddTypeEntryView { key: None, name: n, addable: true, project_index: Some((project.len() - 1) as usize) })
        } else {
            prev
        }
    }
}

/// The lines of the menu, before they are ordered by name.
pub open spec fn addable_entries<C>(
    registry: crate::registry::TypeRegistryView,
    object: Object<C>,
    kind: RegisteredTypeKind,
    excluded: TypeKey,
    project: Seq<ProjectTypeView>,
    stubs: Seq<(RegisteredTypeKind, Seq<char>)>,
) -> Seq<AddTypeEntryView> {
    with_project_lines(registered_lines(registry.entries, registry.factories, object, kind, excluded), project, stubs, kind)
}

/// Whether the lines are ordered by name.
pub open spec fn sorted_by_name(s: Seq<AddTypeEntryView>) -> bool {
    forall|i: int, j: int| 0 <= i < j < s.len() ==> chars_le(#[trigger] s[i].name, #[trigger] s[j].name)
}

impl TextKey for AddTypeEntry {
    /// Lines are ordered by name.
    open spec fn text_key(&self) -> (Seq<char>, Seq<char>) {
        (self.name@, Seq::empty())
    }

    fn key_le_exec(&self, other: &Self) -> (r: bool) {
        proof {
            lemma_chars_lt_irreflexive(Seq::<char>::empty());
        }
        string_le(&self.name, &other.name)
    }
}

fn lines_list_name(lines: &Vec<AddTypeEntry>, name: &str) -> (r: bool)
    ensures
        r == lists_name(entry_views(lines@), name@),
{
    let mut i: usize = 0;
    while i < lines.len()
        invariant
            i <= lines@.len(),
            forall|k: int| 0 <= k < i ==> lines@[k].name@ != name@,
        decreases lines@.len() - i,
    {
        if str_eq(lines[i].name.as_str(), name) {
            assert(entry_views(lines@)[i as int].name == name@);
            return true;
        }
        i = i + 1;
    }
    proof {
        if lists_name(entry_views(lines@), name@) {
            let k = choose|k: int| 0 <= k < entry_views(lines@).len() && #[trigger] entry_views(lines@)[k].name == name@;
            assert(lines@[k].name@ == name@);
        }
    }
    false
}

fn stub_attached(stubs: &Vec<(RegisteredTypeKind, String)>, kind: RegisteredTypeKind, name: &str) -> (r: bool)
    ensures
        r == stub_views(stubs@).contains((kind, name@)),
{
    let mut i: usize = 0;
    while i < stubs.len()
        invariant
            i <= stubs@.len(),
            forall|k: int| 0 <= k < i ==> stub_views(stubs@)[k] != (kind, name@),
        decreases stubs@.len() - i,
    {
        if stubs[i].0 == kind && str_eq(stubs[i].1.as_str(), name) {
            assert(stub_views(stubs@)[i as int] == (kind, name@));
            return true;
        }
        i = i + 1;
    }
    false
}

/// The "Add Component" / "Add Script" menu for `object`: the registered
/// types of `kind` but `excluded` and those the object holds (addable when
/// they have a builder), then the project's user types of that kind not
/// attached as stubs and not listed yet by short name; ordered by name.
pub fn addable_type_entries<C>(
    registry: &TypeRegistry,
    object: &Object<C>,
    kind: RegisteredTypeKind,
    excluded: TypeKey,
    project: &Vec<ProjectTypeRecord>,
    stubs: &Vec<(RegisteredTypeKind, String)>,
) -> (r: Vec<AddTypeEntry>)
    requires
        registry.wf(),
    ensures
        entry_views(r@).to_multiset() == addable_entries(registry@, *object, kind, excluded, project_views(project@), stub_views(stubs@)).to_multiset(),
        sorted_by_name(entry_views(r@)),
{
    let types = registry.registered_types();
    let ghost es = registry@.entries;
    let mut lines: Vec<AddTypeEntry> = Vec::new();
    let mut i: usize = 0;
    while i < types.len()
        invariant
            registry.wf(),
            es == registry@.entries,
            infos(types@) == es,
            i <= types@.len(),
            entry_views(lines@) == registered_lines(es.subrange(0, i as int), registry@.factories, *object, kind, excluded),
        decreases types@.len() - i,
    {
        proof {
            assert(es.subrange(0, i + 1).drop_last() =~= es.subrange(0, i as int));
            assert(es.subrange(0, i + 1).last() == types@[i as int]@);
        }
        let m = &types[i];
        let id = m.type_id();
        if m.kind() == kind && id != excluded && !object.has_component(id) {
            let line = AddTypeEntry {
                key: Some(id),
                name: short_type_name(m.name()),
                addable: registry.has_object_factory(id),
                project_index: None,
            };
            let ghost pre = lines@;
            lines.push(line);
            assert(entry_views(lines@) =~= entry_views(pre).push(entry_view(line)));
        }
        i = i + 1;
    }
    assert(es.subrange(0, i as int) =~= es);
    let ghost base = entry_views(lines@);
    let ghost pv = project_views(project@);
    let ghost sv = stub_views(stubs@);
    let mut j: usize = 0;
    while j < project.len()
        invariant
            j <= project@.len(),
            pv == project_views(project@),
            sv == stub_views(stubs@),
            entry_views(lines@) == with_project_lines(base, pv.subrange(0, j as int), sv, kind),
        decreases project@.len() - j,
    {
        proof {
            assert(pv.subrange(0, j + 1).drop_last() =~= pv.subrange(0, j as int));
            assert(pv.subrange(0, j + 1).last() == pv[j as int]);
        }
        let p = &project[j];
        if p.kind == kind && p.source == RegistrationSource::User && !stub_attached(stubs, kind, p.full_name.as_str()) {
            let n = short_type_name(p.full_name.as_str());
            if !lines_list_name(&lines, n.as_str()) {
                let line = AddTypeEntry { key: None, name: n, addable: true, project_index: Some(j) };
                let ghost pre = lines@;
                lines.push(line);
                assert(entry_views(lines@) =~= entry_views(pre).push(entry_view(line)));
            }
        }
        j = j + 1;
    }
    assert(pv.subrange(0, j as int) =~= pv);
    let ghost unsorted = lines@;
    let r = sort_by_text_key(lines);
    proof {
        lemma_map_permutation(r@, unsorted, |e: AddTypeEntry| entry_view(e));
        assert(entry_views(r@) == r@.map_values(|e: AddTypeEntry| entry_view(e)));
        assert forall|a: int, b: int| 0 <= a < b < entry_views(r@).len()
            implies chars_le(#[trigger] entry_views(r@)[a].name, #[trigger] entry_views(r@)[b].name) by {
            assert(key_le(r@[a].text_key(), r@[b].text_key()));
            lemma_chars_lt_irreflexive(Seq::<char>::empty());
        }
    }
    r
}

/// The object kinds the editor offers before any project adds its own, as
/// (id, name, category).
pub fn default_placeable_descriptors() -> (r: Vec<PlaceableObjectDescriptor>)
    ensures
        r@.len() == 7,
        r@[0].id@ == "empty"@ && r@[0].name@ == "Empty"@ && r@[0].category@ == "Basic"@,
        r@[1].id@ == "camera"@ && r@[1].name@ == "Camera"@ && r@[1].category@ == "Basic"@,
        r@[2].id@ == "cube"@ && r@[2].name@ == "Cube"@ && r@[2].category@ == "Basic"@,
        r@[3].id@ == "floor"@ && r@[3].name@ == "Floor"@ && r@[3].category@ == "Basic"@,
        r@[4].id@ == "sprite"@ && r@[4].name@ == "Sprite"@ && r@[4].category@ == "2D"@,
        r@[5].id@ == "tilemap"@ && r@[5].name@ == "Tilemap"@ && r@[5].category@ == "2D"@,
        r@[6].id@ == "audio-source"@ && r@[6].name@ == "Audio Source"@ && r@[6].category@ == "Audio"@,
{
    let mut r: Vec<PlaceableObjectDescriptor> = Vec::new();
    r.push(PlaceableObjectDescriptor { id: owned("empty"), name: owned("Empty"), category: owned("Basic") });
    r.push(PlaceableObjectDescriptor { id: owned("camera"), name: owned("Camera"), category: owned("Basic") });
    r.push(PlaceableObjectDescriptor { id: owned("cube"), name: owned("Cube"), category: owned("Basic") });
    r.push(PlaceableObjectDescriptor { id: owned("floor"), name: owned("Floor"), category: owned("Basic") });
    r.push(PlaceableObjectDescriptor { id: owned("sprite"), name: owned("Sprite"), category: owned("2D") });
    r.push(PlaceableObjectDescriptor { id: owned("tilemap"), name: owned("Tilemap"), category: owned("2D") });
    r.push(PlaceableObjectDescriptor { id: owned("audio-source"), name: owned("Audio Source"), category: owned("Audio") });
    r
}

/// The later of two modification stamps, either of which may be missing.
pub fn latest_stamp(a: Option<u64>, b: Option<u64>) -> (r: Option<u64>)
    ensures
        r == (match (a, b) {
            (Some(x), Some(y)) => Some(if x >= y { x } else { y }),
            (Some(x), None) => Some(x),
            (None, Some(y)) => Some(y),
            (None, None) => None,
        }),
{
    match b {
        Some(y) => match a {
            Some(x) => if x >= y {
                Some(x)
            } else {
                Some(y)
            },
            None => Some(y),
        },
        None => a,
    }
}

/// The character of the decimal digit `d`.
pub open spec fn digit_char(d: int) -> char {
    if d == 0 {
        '0'
    } else if d == 1 {
        '1'
    } else if d == 2 {
        '2'
    } else if d == 3 {
        '3'
    } else if d == 4 {
        '4'
    } else if d == 5 {
        '5'
    } else if d == 6 {
        '6'
    } else if d == 7 {
        '7'
    } else if d == 8 {
        '8'
    } else {
        '9'
    }
}

/// `n` written in decimal.
pub open spec fn decimal(n: nat) -> Seq<char>
    decreases n,
{
    if n < 10 {
        seq![digit_char(n as int)]
    } else {
        decimal(n / 10).push(digit_char((n % 10) as int))
    }
}

fn digit(d: usize) -> (r: char)
    requires
        d < 10,
    ensures
        r == digit_char(d as int),
{
    if d == 0 {
        '0'
    } else if d == 1 {
        '1'
    } else if d == 2 {
        '2'
    } else if d == 3 {
        '3'
    } else if d == 4 {
        '4'
    } else if d == 5 {
        '5'
    } else if d == 6 {
        '6'
    } else if d == 7 {
        '7'
    } else if d == 8 {
        '8'
    } else {
        '9'
    }
}

/// `n` written in decimal.
pub fn decimal_string(n: usize) -> (r: String)
    ensures
        r@ == decimal(n as nat),
    decreases n,
{
    if n < 10 {
        let mut s = String::new();
        push_char(&mut s, digit(n));
        assert(s@ =~= seq![digit_char(n as int)]);
        s
    } else {
        let mut s = decimal_string(n / 10);
        push_char(&mut s, digit(n % 10));
        s
    }
}

proof fn lemma_decimal_len(n: nat)
    ensures
        decimal(n).len() >= 1,
        n >= 10 ==> decimal(n).len() >= 2,
    decreases n,
{
    if n >= 10 {
        lemma_decimal_len(n / 10);
    }
}

proof fn lemma_digit_injective(a: int, b: int)
    requires
        0 <= a < 10,
        0 <= b < 10,
        digit_char(a) == digit_char(b),
    ensures
        a == b,
{
}

/// Different numbers are written differently.
pub proof fn lemma_decimal_injective(a: nat, b: nat)
    requires
        decimal(a) == decimal(b),
    ensures
        a == b,
    decreases a,
{
    lemma_decimal_len(a);
    lemma_decimal_len(b);
    if a < 10 && b < 10 {
        assert(decimal(a)[0] == digit_char(a as int));
        assert(decimal(b)[0] == digit_char(b as int));
        lemma_digit_injective(a as int, b as int);
    } else if a >= 10 && b >= 10 {
        let da = decimal(a);
        assert(da.last() == digit_char((a % 10) as int));
        assert(decimal(b).last() == digit_char((b % 10) as int));
        lemma_digit_injective((a % 10) as int, (b % 10) as int);
        assert(da.drop_last() =~= decimal(a / 10));
        assert(decimal(b).drop_last() =~= decimal(b / 10));
        lemma_decimal_injective(a / 10, b / 10);
        vstd::arithmetic::div_mod::lemma_fundamental_div_mod(a as int, 10);
        vstd::arithmetic::div_mod::lemma_fundamental_div_mod(b as int, 10);
    }
}

/// The file name tried at `index`: `base.extension`, then `base1.extension`,
/// `base2.extension`, ...
pub open spec fn numbered_file_name(base: Seq<char>, extension: Seq<char>, index: nat) -> Seq<char> {
    if index == 0 {
        base + seq!['.'] + extension
    } else {
        base + decimal(index) + seq!['.'] + extension
    }
}

/// The directory name tried at `index`: `base`, then `base1`, `base2`, ...
pub open spec fn numbered_directory_name(base: Seq<char>, index: nat) -> Seq<char> {
    if index == 0 {
        base
    } else {
        base + decimal(index)
    }
}

proof fn lemma_numbered_distinct(base: Seq<char>, tail: Seq<char>, i: nat, j: nat)
    requires
        i != j,
    ensures
        (if i == 0 { base + tail } else { base + decimal(i) + tail }) != (if j == 0 { base + tail } else { base + decimal(j) + tail }),
{
    let a = if i == 0 { base + tail } else { base + decimal(i) + tail };
    let b = if j == 0 { base + tail } else { base + decimal(j) + tail };
    lemma_decimal_len(i);
    lemma_decimal_len(j);
    if i == 0 {
        assert(a.len() < b.len());
    } else if j == 0 {
        assert(b.len() < a.len());
    } else if a == b {
        let di = decimal(i);
        let dj = decimal(j);
        assert(a.len() == b.len());
        assert(di.len() == dj.len());
        assert(a.subrange(base.len() as int, (base.len() + di.len()) as int) =~= di);
        assert(b.subrange(base.len() as int, (base.len() + dj.len()) as int) =~= dj);
        lemma_decimal_injective(i, j);
    }
}

/// The first `n` file names tried are all different.
proof fn lemma_file_names_distinct(base: Seq<char>, extension: Seq<char>, n: nat)
    ensures
        Seq::new(n, |k: int| numbered_file_name(base, extension, k as nat)).no_duplicates(),
{
    let names = Seq::new(n, |k: int| numbered_file_name(base, extension, k as nat));
    assert forall|a: int, b: int| 0 <= a < b < names.len() implies names[a] != names[b] by {
        lemma_numbered_distinct(base, seq!['.'] + extension, a as nat, b as nat);
        assert(base + seq!['.'] + extension =~= base + (seq!['.'] + extension));
        assert(base + decimal(a as nat) + seq!['.'] + extension =~= base + decimal(a as nat) + (seq!['.'] + extension));
        assert(base + decimal(b as nat) + seq!['.'] + extension =~= base + decimal(b as nat) + (seq!['.'] + extension));
    }
}

/// The first `n` directory names tried are all different.
proof fn lemma_directory_names_distinct(base: Seq<char>, n: nat)
    ensures
        Seq::new(n, |k: int| numbered_directory_name(base, k as nat)).no_duplicates(),
{
    let names = Seq::new(n, |k: int| numbered_directory_name(base, k as nat));
    assert forall|a: int, b: int| 0 <= a < b < names.len() implies names[a] != names[b] by {
        lemma_numbered_distinct(base, Seq::<char>::empty(), a as nat, b as nat);
        assert(base + Seq::<char>::empty() =~= base);
        assert(base + decimal(a as nat) + Seq::<char>::empty() =~= base + decimal(a as nat));
        assert(base + decimal(b as nat) + Seq::<char>::empty() =~= base + decimal(b as nat));
    }
}

fn contains_text(list: &Vec<String>, s: &str) -> (r: bool)
    ensures
        r == views(list@).contains(s@),
{
    let mut i: usize = 0;
    while i < list.len()
        invariant
            i <= list@.len(),
            forall|k: int| 0 <= k < i ==> list@[k]@ != s@,
        decreases list@.len() - i,
    {
        if str_eq(list[i].as_str(), s) {
            assert(views(list@)[i as int] == s@);
            return true;
        }
        i = i + 1;
    }
    assert forall|k: int| 0 <= k < views(list@).len() implies views(list@)[k] != s@ by {}
    false
}

/// A set of names that holds the first `count` candidates, which are all
/// different, is at least `count` long.
proof fn lemma_candidates_fit(existing: Seq<Seq<char>>, names: Seq<Seq<char>>)
    requires
        names.no_duplicates(),
        forall|k: int| 0 <= k < names.len() ==> existing.contains(#[trigger] names[k]),
    ensures
        names.len() <= existing.len(),
{
    names.unique_seq_to_set();
    existing.lemma_cardinality_of_set();
    assert forall|x: Seq<char>| names.to_set().contains(x) implies existing.to_set().contains(x) by {
        let k = choose|k: int| 0 <= k < names.len() && names[k] == x;
        assert(existing.contains(names[k]));
    }
    vstd::set_lib::lemma_len_subset(names.to_set(), existing.to_set());
}

/// Whether `index` is the first whose file name is not among `existing`.
pub open spec fn first_free_file(existing: Seq<Seq<char>>, base: Seq<char>, extension: Seq<char>, index: nat) -> bool {
    &&& !existing.contains(numbered_file_name(base, extension, index))
    &&& forall|j: nat| j < index ==> existing.contains(#[trigger] numbered_file_name(base, extension, j))
}

/// Whether `index` is the first whose directory name is not among `existing`.
pub open spec fn first_free_directory(existing: Seq<Seq<char>>, base: Seq<char>, index: nat) -> bool {
    &&& !existing.contains(numbered_directory_name(base, index))
    &&& forall|j: nat| j < index ==> existing.contains(#[trigger] numbered_directory_name(base, j))
}

/// The first of `base.extension`, `base1.extension`, ... that is not among
/// the names `existing` in the target directory.
pub fn unique_file_path(existing: &Vec<String>, base: &str, extension: &str) -> (r: String)
    ensures
        exists|i: nat| first_free_file(views(existing@), base@, extension@, i) && r@ == numbered_file_name(base@, extension@, i),
{
    let ghost ex = views(existing@);
    let n = existing.len();
    let mut index: usize = 0;
    loop
        invariant
            ex == views(existing@),
            ex.len() == n,
            index <= ex.len(),
            forall|j: nat| j < index ==> ex.contains(#[trigger] numbered_file_name(base@, extension@, j)),
        decreases ex.len() - index,
    {
        let candidate = if index == 0 {
            let a = concat(base, ".");
            concat(a.as_str(), extension)
        } else {
            let d = decimal_string(index);
            let a = concat(base, d.as_str());
            let b = concat(a.as_str(), ".");
            concat(b.as_str(), extension)
        };
        proof {
            reveal_strlit(".");
            assert(candidate@ =~= numbered_file_name(base@, extension@, index as nat));
        }
        if !contains_text(existing, candidate.as_str()) {
            assert(first_free_file(ex, base@, extension@, index as nat));
            return candidate;
        }
        proof {
            let names = Seq::new((index + 1) as nat, |k: int| numbered_file_name(base@, extension@, k as nat));
            lemma_file_names_distinct(base@, extension@, (index + 1) as nat);
            assert forall|k: int| 0 <= k < names.len() implies ex.contains(#[trigger] names[k]) by {
                if k < index {
                    assert(ex.contains(numbered_file_name(base@, extension@, k as nat)));
                }
            }
            lemma_candidates_fit(ex, names);
        }
        index = index + 1;
    }
}

/// The first of `base`, `base1`, `base2`, ... that is not among the names
/// `existing` in the target directory.
pub fn unique_directory_path(existing: &Vec<String>, base: &str) -> (r: String)
    ensures
        exists|i: nat| first_free_directory(views(existing@), base@, i) && r@ == numbered_directory_name(base@, i),
{
    let ghost ex = views(existing@);
    let n = existing.len();
    let mut index: usize = 0;
    loop
        invariant
            ex == views(existing@),
            ex.len() == n,
            index <= ex.len(),
            forall|j: nat| j < index ==> ex.contains(#[trigger] numbered_directory_name(base@, j)),
        decreases ex.len() - index,
    {
        let candidate = if index == 0 {
            owned(base)
        } else {
            let d = decimal_string(index);
            concat(base, d.as_str())
        };
        assert(candidate@ =~= numbered_directory_name(base@, index as nat));
        if !contains_text(existing, candidate.as_str()) {
            assert(first_free_directory(ex, base@, index as nat));
            return candidate;
        }
        proof {
            let names = Seq::new((index + 1) as nat, |k: int| numbered_directory_name(base@, k as nat));
            lemma_directory_names_distinct(base@, (index + 1) as nat);
            assert forall|k: int| 0 <= k < names.len() implies ex.contains(#[trigger] names[k]) by {
                if k < index {
                    assert(ex.contains(numbered_directory_name(base@, k as nat)));
                }
            }
            lemma_candidates_fit(ex, names);
        }
        index = index + 1;
    }
}

} // verus!
