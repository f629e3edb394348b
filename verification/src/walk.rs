//! Which walked files enter the index, and their canonical path form.

use vstd::prelude::*;
use crate::text::{after_last, after_last_vec, ascii_lower_seq, chars_eq, chars_of, ends_with, has_suffix, replace_char, replace_char_vec, string_from_chars, to_ascii_lowercase};

verus! {

/// Files larger than this are not indexed.
pub const MAX_FILE_BYTES: u64 = 2097152;

/// Extensions (lowercased) of binary files.
pub open spec fn binary_ext(e: Seq<char>) -> bool {
    e == "png"@ || e == "jpg"@ || e == "jpeg"@ || e == "gif"@ || e == "webp"@ || e == "ico"@ || e
        == "pdf"@ || e == "zip"@ || e == "gz"@ || e == "tar"@ || e == "bz2"@ || e == "xz"@ || e
        == "7z"@ || e == "jar"@ || e == "class"@ || e == "so"@ || e == "dylib"@ || e == "dll"@
        || e == "exe"@ || e == "bin"@ || e == "o"@ || e == "a"@ || e == "woff"@ || e == "woff2"@
        || e == "ttf"@ || e == "eot"@ || e == "otf"@ || e == "mp3"@ || e == "mp4"@ || e == "mov"@
        || e == "avi"@ || e == "wasm"@ || e == "pyc"@ || e == "db"@ || e == "sqlite"@ || e
        == "parquet"@
}

/// Lockfiles, which are never indexed.
pub open spec fn skip_name(n: Seq<char>) -> bool {
    n == "package-lock.json"@ || n == "yarn.lock"@ || n == "pnpm-lock.yaml"@ || n == "Cargo.lock"@
        || n == "poetry.lock"@ || n == "uv.lock"@ || n == "Pipfile.lock"@ || n == "composer.lock"@
        || n == "Gemfile.lock"@
}

/// A walked file enters the index unless it lies under the state
/// directory, is a lockfile, a minified bundle, a binary by extension, of
/// unknown size or over the size limit.
pub open spec fn keep_file_spec(
    name: Seq<char>,
    ext: Option<Seq<char>>,
    in_state_dir: bool,
    len: Option<u64>,
) -> bool {
    &&& !in_state_dir
    &&& !skip_name(name)
    &&& !has_suffix(name, ".min.js"@) && !has_suffix(name, ".min.css"@)
    &&& !(ext matches Some(e) && binary_ext(ascii_lower_seq(e)))
    &&& len matches Some(n) && n <= MAX_FILE_BYTES
}

fn in_list(x: &Vec<char>, list: &Vec<&str>) -> (r: bool)
    ensures
        r == exists|i: int| 0 <= i < list@.len() && x@ == (#[trigger] list@[i])@,
{
    let mut i: usize = 0;
    while i < list.len()
        invariant
            i <= list.len(),
            forall|k: int| 0 <= k < i ==> x@ != (#[trigger] list@[k])@,
        decreases list.len() - i,
    {
        if chars_eq(x, &chars_of(list[i])) {
            return true;
        }
        i = i + 1;
    }
    false
}

/// Whether a walked file enters the index (see [`keep_file_spec`]): `name`
/// is its file name, `ext` its extension, `len` its size when known.
pub fn keep_file(name: &str, ext: Option<&str>, in_state_dir: bool, len: Option<u64>) -> (r: bool)
    ensures
        r == keep_file_spec(
            name@,
            match ext {
                Some(e) => Some(e@),
                None => None,
            },
            in_state_dir,
            len,
        ),
{
    if in_state_dir {
        return false;
    }
    let n = chars_of(name);
    let skip: Vec<&str> = vec![
        "package-lock.json",
        "yarn.lock",
        "pnpm-lock.yaml",
        "Cargo.lock",
        "poetry.lock",
        "uv.lock",
        "Pipfile.lock",
        "composer.lock",
        "Gemfile.lock",
    ];
    let in_skip = in_list(&n, &skip);
    proof {
        if skip_name(name@) {
            if name@ == "package-lock.json"@ { assert(name@ == skip@[0]@); }
            if name@ == "yarn.lock"@ { assert(name@ == skip@[1]@); }
            if name@ == "pnpm-lock.yaml"@ { assert(name@ == skip@[2]@); }
            if name@ == "Cargo.lock"@ { assert(name@ == skip@[3]@); }
            if name@ == "poetry.lock"@ { assert(name@ == skip@[4]@); }
            if name@ == "uv.lock"@ { assert(name@ == skip@[5]@); }
            if name@ == "Pipfile.lock"@ { assert(name@ == skip@[6]@); }
            if name@ == "composer.lock"@ { assert(name@ == skip@[7]@); }
            if name@ == "Gemfile.lock"@ { assert(name@ == skip@[8]@); }
        }
    }
    if in_skip || ends_with(&n, &chars_of(".min.js")) || ends_with(&n, &chars_of(".min.css")) {
        return false;
    }
    match ext {
        Some(e) => {
            let low = to_ascii_lowercase(&chars_of(e));
            let bins: Vec<&str> = vec![
                "png", "jpg", "jpeg", "gif", "webp", "ico", "pdf", "zip", "gz", "tar", "bz2", "xz",
                "7z", "jar", "class", "so", "dylib", "dll", "exe", "bin", "o", "a", "woff", "woff2",
                "ttf", "eot", "otf", "mp3", "mp4", "mov", "avi", "wasm", "pyc", "db", "sqlite",
                "parquet",
            ];
            let is_bin = in_list(&low, &bins);
            proof {
                let l = low@;
                if binary_ext(l) {
                    if l == "png"@ { assert(l == bins@[0]@); }
                    if l == "jpg"@ { assert(l == bins@[1]@); }
                    if l == "jpeg"@ { assert(l == bins@[2]@); }
                    if l == "gif"@ { assert(l == bins@[3]@); }
                    if l == "webp"@ { assert(l == bins@[4]@); }
                    if l == "ico"@ { assert(l == bins@[5]@); }
                    if l == "pdf"@ { assert(l == bins@[6]@); }
                    if l == "zip"@ { assert(l == bins@[7]@); }
                    if l == "gz"@ { assert(l == bins@[8]@); }
                    if l == "tar"@ { assert(l == bins@[9]@); }
                    if l == "bz2"@ { assert(l == bins@[10]@); }
                    if l == "xz"@ { assert(l == bins@[11]@); }
                    if l == "7z"@ { assert(l == bins@[12]@); }
                    if l == "jar"@ { assert(l == bins@[13]@); }
                    if l == "class"@ { assert(l == bins@[14]@); }
                    if l == "so"@ { assert(l == bins@[15]@); }
                    if l == "dylib"@ { assert(l == bins@[16]@); }
                    if l == "dll"@ { assert(l == bins@[17]@); }
                    if l == "exe"@ { assert(l == bins@[18]@); }
                    if l == "bin"@ { assert(l == bins@[19]@); }
                    if l == "o"@ { assert(l == bins@[20]@); }
                    if l == "a"@ { assert(l == bins@[21]@); }
                    if l == "woff"@ { assert(l == bins@[22]@); }
                    if l == "woff2"@ { assert(l == bins@[23]@); }
                    if l == "ttf"@ { assert(l == bins@[24]@); }
                    if l == "eot"@ { assert(l == bins@[25]@); }
                    if l == "otf"@ { assert(l == bins@[26]@); }
                    if l == "mp3"@ { assert(l == bins@[27]@); }
                    if l == "mp4"@ { assert(l == bins@[28]@); }
                    if l == "mov"@ { assert(l == bins@[29]@); }
                    if l == "avi"@ { assert(l == bins@[30]@); }
                    if l == "wasm"@ { assert(l == bins@[31]@); }
                    if l == "pyc"@ { assert(l == bins@[32]@); }
                    if l == "db"@ { assert(l == bins@[33]@); }
                    if l == "sqlite"@ { assert(l == bins@[34]@); }
                    if l == "parquet"@ { assert(l == bins@[35]@); }
                }
            }
            if is_bin {
                return false;
            }
        },
        None => {},
    }
    match len {
        Some(n) => n <= MAX_FILE_BYTES,
        None => false,
    }
}

/// `path` relative to `root` as `std::path::Path::strip_prefix` finds it
/// (component-wise), when `root` is a prefix of it. How a path splits into
/// components (which characters separate them, what a prefix is) is fixed
/// by the target the library is built for, the same on every run there.
pub uninterp spec fn strip_prefix_spec(path: Seq<char>, root: Seq<char>) -> Option<Seq<char>>;

/// Wrapper of `std::path::Path::strip_prefix` (read as UTF-8): the rest of
/// `path` after the components of `root`, when those lead it.
#[verifier::external_body]
fn path_strip_prefix(path: &str, root: &str) -> (r: Option<String>)
    ensures
        crate::model::opt_view(r) == strip_prefix_spec(path@, root@),
{
    match std::path::Path::new(path).strip_prefix(root) {
        Ok(rel) => Some(rel.to_string_lossy().into_owned()),
        Err(_) => None,
    }
}

/// Repo-relative path with forward slashes (the canonical path form stored
/// everywhere in the graph).
pub fn rel_path(root: &str, path: &str) -> (r: Option<String>)
    ensures
        crate::model::opt_view(r) == match strip_prefix_spec(path@, root@) {
            Some(rel) => Some(replace_char(rel, '\\', '/')),
            None => None,
        },
{
    match path_strip_prefix(path, root) {
        Some(rel) => Some(string_from_chars(&replace_char_vec(&chars_of(rel.as_str()), '\\', '/'))),
        None => None,
    }
}

/// Line-comment syntax of a source file, chosen by the text after the last
/// `.` of its path (the whole path when there is none): `#` for Python, `//`
/// for TypeScript, JavaScript and Java.
pub open spec fn comment_prefix_spec(path: Seq<char>) -> Option<Seq<char>> {
    let e = after_last(path, '.');
    if e == "py"@ {
        Some("#"@)
    } else if e == "ts"@ || e == "tsx"@ || e == "js"@ || e == "jsx"@ || e == "java"@ {
        Some("//"@)
    } else {
        None
    }
}

/// Line-comment syntax of a source file (see [`comment_prefix_spec`]).
pub fn comment_prefix(path: &str) -> (r: Option<&'static str>)
    ensures
        match r {
            Some(c) => comment_prefix_spec(path@) == Some(c@),
            None => comment_prefix_spec(path@) is None,
        },
{
    let e = after_last_vec(&chars_of(path), '.');
    if chars_eq(&e, &chars_of("py")) {
        Some("#")
    } else if chars_eq(&e, &chars_of("ts")) || chars_eq(&e, &chars_of("tsx")) || chars_eq(&e, &chars_of("js"))
        || chars_eq(&e, &chars_of("jsx")) || chars_eq(&e, &chars_of("java")) {
        Some("//")
    } else {
        None
    }
}

/// What a walked file must not be to enter the index: under the state
/// directory, a lockfile, a minified bundle, a binary by extension (in any
/// case), of unknown size or over the size limit; and a file that is none
/// of these enters.
pub proof fn lemma_keep_file_rules(name: Seq<char>, ext: Option<Seq<char>>, in_state_dir: bool, len: Option<u64>)
    ensures
        in_state_dir ==> !keep_file_spec(name, ext, in_state_dir, len),
        has_suffix(name, ".min.js"@) ==> !keep_file_spec(name, ext, in_state_dir, len),
        has_suffix(name, ".min.css"@) ==> !keep_file_spec(name, ext, in_state_dir, len),
        (name == "package-lock.json"@ || name == "yarn.lock"@ || name == "pnpm-lock.yaml"@ || name
            == "Cargo.lock"@ || name == "poetry.lock"@ || name == "uv.lock"@ || name == "Pipfile.lock"@
            || name == "composer.lock"@ || name == "Gemfile.lock"@) ==> !keep_file_spec(
            name,
            ext,
            in_state_dir,
            len,
        ),
        (ext matches Some(e) && {
            let l = ascii_lower_seq(e);
            l == "png"@ || l == "jpg"@ || l == "jpeg"@ || l == "gif"@ || l == "webp"@ || l == "ico"@
                || l == "pdf"@ || l == "zip"@ || l == "gz"@ || l == "tar"@ || l == "bz2"@ || l == "xz"@
                || l == "7z"@ || l == "jar"@ || l == "class"@ || l == "so"@ || l == "dylib"@ || l
                == "dll"@ || l == "exe"@ || l == "bin"@ || l == "o"@ || l == "a"@ || l == "woff"@ || l
                == "woff2"@ || l == "ttf"@ || l == "eot"@ || l == "otf"@ || l == "mp3"@ || l == "mp4"@
                || l == "mov"@ || l == "avi"@ || l == "wasm"@ || l == "pyc"@ || l == "db"@ || l
                == "sqlite"@ || l == "parquet"@
        }) ==> !keep_file_spec(name, ext, in_state_dir, len),
        len is None ==> !keep_file_spec(name, ext, in_state_dir, len),
        (len matches Some(n) && n > 2097152) ==> !keep_file_spec(name, ext, in_state_dir, len),
        (!in_state_dir && !has_suffix(name, ".min.js"@) && !has_suffix(name, ".min.css"@) && !(name
            == "package-lock.json"@ || name == "yarn.lock"@ || name == "pnpm-lock.yaml"@ || name
            == "Cargo.lock"@ || name == "poetry.lock"@ || name == "uv.lock"@ || name == "Pipfile.lock"@
            || name == "composer.lock"@ || name == "Gemfile.lock"@) && ext is None && (len matches Some(
            n,
        ) && n <= 2097152)) ==> keep_file_spec(name, ext, in_state_dir, len),
{
}

} // verus!
