//! Compression profiles: the class of a file, told by the extension of its
//! name, and the level at which files of that class are compressed.

use crate::text::{chars_of, lower_text, same_chars, to_lower};
use vstd::prelude::*;
use vstd::slice::*;

verus! {
/// The class of a file, by which its compression level is chosen.
#[derive(Debug, Clone, Copy, PartialEq, Eq, Hash, Structural)]
pub enum CompressionProfile {
    /// Files that are compressed already: archives, pictures, sound, film.
    AlreadyCompressed,
    /// Text and source code.
    Text,
    /// Binary files, and whatever has no other class.
    Binary,
    /// Assets of game engines.
    GameEngine,
}

impl CompressionProfile {
    /// The compression level of the profile.
    pub open spec fn level(self) -> i32 {
        match self {
            CompressionProfile::AlreadyCompressed => 1,
            CompressionProfile::Text => 19,
            CompressionProfile::Binary => 12,
            CompressionProfile::GameEngine => 15,
        }
    }

    /// The compression level of the profile: 1 for what is compressed
    /// already, 19 for text, 12 for binaries, 15 for game assets.
    pub fn get_compression_level(&self) -> (r: i32)
        ensures
            r == self.level(),
            1 <= r <= 22,
    {
        match self {
            CompressionProfile::AlreadyCompressed => 1,
            CompressionProfile::Text => 19,
            CompressionProfile::Binary => 12,
            CompressionProfile::GameEngine => 15,
        }
    }
}

/// Where `c` stands last in `s`, or -1 where it does not occur.
pub open spec fn last_index_of(s: Seq<char>, c: char) -> int
    decreases s.len(),
{
    if s.len() == 0 {
        -1
    } else if s.last() == c {
        s.len() - 1
    } else {
        last_index_of(s.drop_last(), c)
    }
}

/// `path` without what follows its last name and does not change where
/// it leads: slashes at its end, and components at its end that are a
/// single dot.
pub open spec fn without_tail(path: Seq<char>) -> Seq<char>
    decreases path.len(),
{
    if path.len() > 0 && path.last() == '/' {
        without_tail(path.drop_last())
    } else if path.len() >= 2 && path.last() == '.' && path[path.len() - 2] == '/' {
        without_tail(path.drop_last())
    } else {
        path
    }
}

/// The name of the file that `path` leads to: its last component, that
/// is what follows the last slash once the tail is cut.
pub open spec fn file_name(path: Seq<char>) -> Seq<char> {
    let cut = without_tail(path);
    cut.subrange(last_index_of(cut, '/') + 1, cut.len() as int)
}

/// The extension of a file name: what follows its last dot, unless that
/// dot starts the name; empty where the name has no such dot.
pub open spec fn name_extension(name: Seq<char>) -> Seq<char> {
    if last_index_of(name, '.') <= 0 {
        Seq::empty()
    } else {
        name.subrange(last_index_of(name, '.') + 1, name.len() as int)
    }
}

/// The extension of the file that `path` leads to.
pub open spec fn extension(path: Seq<char>) -> Seq<char> {
    name_extension(file_name(path))
}

/// Where `k` is the last place of `c`, or -1 and `c` does not occur.
pub proof fn lemma_last_index_at(s: Seq<char>, c: char, k: int)
    requires
        -1 <= k < s.len(),
        k >= 0 ==> s[k] == c,
        forall|i: int| k < i < s.len() ==> #[trigger] s[i] != c,
    ensures
        last_index_of(s, c) == k,
    decreases s.len(),
{
    if s.len() > 0 && k < s.len() - 1 {
        let t = s.drop_last();
        lemma_last_index_at(t, c, k);
    }
}

/// The class of a file with the extension `ext`, given in lower case.
pub open spec fn profile_of(ext: Seq<char>) -> CompressionProfile {
    if ext == "zip"@ || ext == "rar"@ || ext == "7z"@ || ext == "gz"@ || ext == "bz2"@ || ext
        == "xz"@ || ext == "jpg"@ || ext == "jpeg"@ || ext == "png"@ || ext == "gif"@ || ext
        == "mp3"@ || ext == "mp4"@ || ext == "avi"@ {
        CompressionProfile::AlreadyCompressed
    } else if ext == "txt"@ || ext == "md"@ || ext == "json"@ || ext == "xml"@ || ext == "html"@
        || ext == "css"@ || ext == "js"@ || ext == "ts"@ || ext == "py"@ || ext == "rs"@ || ext
        == "c"@ || ext == "cpp"@ || ext == "h"@ || ext == "hpp"@ {
        CompressionProfile::Text
    } else if ext == "unity"@ || ext == "uasset"@ || ext == "umap"@ || ext == "uproject"@ || ext
        == "uplugin"@ || ext == "prefab"@ || ext == "scene"@ || ext == "asset"@ {
        CompressionProfile::GameEngine
    } else {
        CompressionProfile::Binary
    }
}

/// The class of the file that `path` leads to: that of its extension, the
/// letters `A` to `Z` taken as lower case.
pub open spec fn detected_profile(path: Seq<char>) -> CompressionProfile {
    profile_of(lower_text(extension(path)))
}

fn last_index(s: &[char], c: char) -> (r: Option<usize>)
    ensures
        match r {
            Some(k) => last_index_of(s@, c) == k && k < s@.len(),
            None => last_index_of(s@, c) == -1,
        },
{
    let mut i: usize = s.len();
    while i > 0
        invariant
            i <= s@.len(),
            forall|j: int| i <= j < s@.len() ==> #[trigger] s@[j] != c,
        decreases i,
    {
        if s[i - 1] == c {
            proof {
                lemma_last_index_at(s@, c, i - 1);
            }
            return Some(i - 1);
        }
        i -= 1;
    }
    proof {
        lemma_last_index_at(s@, c, -1);
    }
    None
}

fn copy_from(s: &[char], start: usize) -> (r: Vec<char>)
    requires
        start <= s@.len(),
    ensures
        r@ == s@.subrange(start as int, s@.len() as int),
{
    let n = s.len();
    let mut out: Vec<char> = Vec::new();
    let mut i: usize = start;
    while i < n
        invariant
            n == s@.len(),
            start <= i <= n,
            out@ == s@.subrange(start as int, i as int),
        decreases n - i,
    {
        out.push(s[i]);
        i += 1;
    }
    out
}

/// The extension of the file that `path` leads to, in lower case; empty
/// where it has none.
pub fn lower_extension(path: &str) -> (r: Vec<char>)
    ensures
        r@ == lower_text(extension(path@)),
{
    let chars = chars_of(path);
    let mut end: usize = chars.len();
    assert(chars@.take(end as int) =~= chars@);
    while end > 0 && (chars[end - 1] == '/' || (end >= 2 && chars[end - 1] == '.' && chars[end
        - 2] == '/'))
        invariant
            end <= chars@.len(),
            without_tail(chars@) == without_tail(chars@.take(end as int)),
        decreases end,
    {
        assert(chars@.take(end as int).drop_last() =~= chars@.take(end - 1));
        end -= 1;
    }
    let cut = slice_subrange(chars.as_slice(), 0, end);
    assert(cut@ =~= chars@.take(end as int));
    assert(without_tail(cut@) == cut@);
    let name = match last_index(cut, '/') {
        Some(k) => {
            assert(k < end);
            copy_from(cut, k + 1)
        },
        None => copy_from(cut, 0),
    };
    let ext = match last_index(name.as_slice(), '.') {
        Some(d) => if d == 0 {
            Vec::new()
        } else {
            copy_from(name.as_slice(), d + 1)
        },
        None => Vec::new(),
    };
    to_lower(&ext)
}

/// Whether `ext` is the text `name`.
pub fn is_text(ext: &Vec<char>, name: &str) -> (r: bool)
    ensures
        r == (ext@ == name@),
{
    let other = chars_of(name);
    same_chars(ext.as_slice(), other.as_slice())
}

/// Tells the class of a file by the extension of its name, whatever the
/// case of its letters. A name without an extension, or with one that is
/// not listed, is that of a binary file.
pub fn detect_profile(path: &str) -> (r: CompressionProfile)
    ensures
        r == detected_profile(path@),
{
    let ext = lower_extension(path);
    if is_text(&ext, "zip") || is_text(&ext, "rar") || is_text(&ext, "7z") || is_text(&ext, "gz")
        || is_text(&ext, "bz2") || is_text(&ext, "xz") || is_text(&ext, "jpg") || is_text(
        &ext,
        "jpeg",
    ) || is_text(&ext, "png") || is_text(&ext, "gif") || is_text(&ext, "mp3") || is_text(
        &ext,
        "mp4",
    ) || is_text(&ext, "avi") {
        CompressionProfile::AlreadyCompressed
    } else if is_text(&ext, "txt") || is_text(&ext, "md") || is_text(&ext, "json") || is_text(
        &ext,
        "xml",
    ) || is_text(&ext, "html") || is_text(&ext, "css") || is_text(&ext, "js") || is_text(
        &ext,
        "ts",
    ) || is_text(&ext, "py") || is_text(&ext, "rs") || is_text(&ext, "c") || is_text(&ext, "cpp")
        || is_text(&ext, "h") || is_text(&ext, "hpp") {
        CompressionProfile::Text
    } else if is_text(&ext, "unity") || is_text(&ext, "uasset") || is_text(&ext, "umap")
        || is_text(&ext, "uproject") || is_text(&ext, "uplugin") || is_text(&ext, "prefab")
        || is_text(&ext, "scene") || is_text(&ext, "asset") {
        CompressionProfile::GameEngine
    } else {
        CompressionProfile::Binary
    }
}
} // verus!
