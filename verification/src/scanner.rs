//! Filesystem-scan rules: which entries count as book files, which as
//! hidden, and where an item's cover image is looked for. The walk itself is
//! input/output and lives with the caller; the rules here are pure except
//! for the final existence probe of a cover candidate.

use vstd::prelude::*;
use crate::text::{lower_eq, has_prefix_ci};

verus! {

broadcast use vstd::string::group_string_axioms;

/// The outcome of a library scan.
pub struct ScanResult {
    pub books_found: usize,
    pub books_added: usize,
    pub books_updated: usize,
    pub errors: Vec<String>,
    pub duration_ms: u64,
}

/// A progress update during a scan.
pub struct ScanProgress {
    pub phase: String,
    pub found: usize,
    pub processed: usize,
    pub total: usize,
    pub current: Option<String>,
    pub eta_seconds: Option<u64>,
}

/// Configuration of a filesystem scan.
pub struct ScannerConfig {
    /// Greatest directory depth walked.
    pub max_depth: usize,
    /// Whether symbolic links are followed.
    pub follow_links: bool,
    /// File extensions scanned, lower case.
    pub extensions: Vec<String>,
    /// Cover image extensions, lower case.
    pub cover_extensions: Vec<String>,
}

impl Default for ScannerConfig {
    /// Twenty levels deep, links not followed, book files by the epub
    /// extension, covers as common raster images.
    fn default() -> (r: Self)
        ensures
            r.max_depth == 20,
            !r.follow_links,
            r.extensions@.len() == 1 && r.extensions@[0]@ == "epub"@,
            r.cover_extensions@.len() == 3 && r.cover_extensions@[0]@ == "jpg"@
                && r.cover_extensions@[1]@ == "jpeg"@ && r.cover_extensions@[2]@ == "png"@,
    {
        let extensions: Vec<String> = vec!["epub".to_owned()];
        let cover_extensions: Vec<String> = vec![
            "jpg".to_owned(),
            "jpeg".to_owned(),
            "png".to_owned(),
        ];
        ScannerConfig { max_depth: 20, follow_links: false, extensions, cover_extensions }
    }
}

/// The filesystem scanner: holds the scan configuration.
pub struct Scanner {
    pub config: ScannerConfig,
}

/// Whether a file name marks a hidden entry: it starts with a dot.
pub open spec fn is_hidden_name(name: Seq<char>) -> bool {
    name.len() > 0 && name[0] == '.'
}

/// Check whether a file name marks a hidden entry.
pub fn is_hidden(name: &str) -> (r: bool)
    ensures
        r == is_hidden_name(name@),
{
    if name.unicode_len() == 0 {
        return false;
    }
    name.get_char(0) == '.'
}

/// The last index where `c` stands in `s`, or none.
pub open spec fn last_idx_of(s: Seq<char>, c: char, n: int) -> Option<int>
    decreases n,
{
    if n <= 0 {
        None
    } else if s[n - 1] == c {
        Some(n - 1)
    } else {
        last_idx_of(s, c, n - 1)
    }
}

/// The extension of a path: the characters after the last dot of the file
/// name, provided the dot is not the name's first character; none otherwise.
pub open spec fn extension_range(path: Seq<char>) -> Option<(int, int)> {
    let start = match last_idx_of(path, '/', path.len() as int) {
        Some(sl) => sl + 1,
        None => 0,
    };
    match last_idx_of(path, '.', path.len() as int) {
        Some(d) => if d > start {
            Some((d + 1, path.len() as int))
        } else {
            None
        },
        None => None,
    }
}

/// Scan a string backward for a character.
fn rfind_char(s: &str, c: char) -> (r: Option<usize>)
    ensures
        match r {
            Some(i) => last_idx_of(s@, c, s@.len() as int) == Some(i as int) && i < s@.len()
                && s@[i as int] == c && s@.len() <= usize::MAX,
            None => last_idx_of(s@, c, s@.len() as int) is None,
        },
{
    let n = s.unicode_len();
    let mut i = n;
    while i > 0 && s.get_char(i - 1) != c
        invariant
            n == s@.len(),
            0 <= i <= n,
            last_idx_of(s@, c, n as int) == last_idx_of(s@, c, i as int),
        decreases i,
    {
        i = i - 1;
    }
    if i == 0 {
        None
    } else {
        Some(i - 1)
    }
}

/// Whether the path's extension equals `ext` ignoring ASCII case, with `ext`
/// lower case.
pub open spec fn has_extension_ci(path: Seq<char>, ext: Seq<char>) -> bool {
    match extension_range(path) {
        Some(r) => {
            let e = path.subrange(r.0, r.1)            ;
            e.len() == ext.len() && has_prefix_ci(e, ext)
        },
        None => false,
    }
}

/// Check whether the path names a file with the given lower-case extension,
/// ignoring ASCII case.
pub fn path_has_extension(path: &str, ext: &str) -> (r: bool)
    ensures
        r == has_extension_ci(path@, ext@),
{
    let n = path.unicode_len();
    let start = match rfind_char(path, '/') {
        Some(sl) => sl + 1,
        None => 0,
    };
    match rfind_char(path, '.') {
        Some(d) => {
            if d > start {
                assert(extension_range(path@) == Some(((d + 1) as int, n as int)));
                let e = path.substring_char(d + 1, n);
                let el = e.unicode_len();
                if el != ext.unicode_len() {
                    return false;
                }
                let mut i: usize = 0;
                while i < el
                    invariant
                        n == path@.len(),
                        d < n,
                        extension_range(path@) == Some(((d + 1) as int, n as int)),
                        el == e@.len() == ext@.len(),
                        e@ == path@.subrange(d as int + 1, n as int),
                        0 <= i <= el,
                        forall|k: int| 0 <= k < i ==> lower_eq(e@[k], #[trigger] ext@[k]),
                    decreases el - i,
                {
                    let sc = e.get_char(i);
                    let pc = ext.get_char(i);
                    let m = sc == pc || (sc >= 'A' && sc <= 'Z' && (sc as u32) + 32
                        == pc as u32);
                    if !m {
                        assert(!lower_eq(e@[i as int], ext@[i as int]));
                        assert(!has_prefix_ci(e@, ext@)) by {
                            assert(!lower_eq(e@[i as int], ext@[i as int]));
                        }
                        return false;
                    }
                    i = i + 1;
                }
                true
            } else {
                false
            }
        },
        None => false,
    }
}

/// The stem of a file name: everything before its last dot, or the whole
/// name when it has none.
pub open spec fn stem_of(name: Seq<char>) -> Seq<char> {
    match last_idx_of(name, '.', name.len() as int) {
        Some(d) => name.take(d),
        None => name,
    }
}

/// `low` is `raw` with each ASCII capital lowered and all else unchanged.
pub open spec fn ascii_lowered(raw: Seq<char>, low: Seq<char>) -> bool {
    &&& low.len() == raw.len()
    &&& forall|i: int| 0 <= i < raw.len() ==> (('A' <= #[trigger] raw[i] <= 'Z' && (
    raw[i] as u32) + 32 == low[i] as u32) || (!('A' <= raw[i] <= 'Z') && low[i] == raw[i]))
}

/// Relies on std's Path::exists: whether something exists on disk at the
/// path. The answer depends on the disk, so nothing is promised of it.
#[verifier::external_body]
pub(crate) fn path_exists(path: &str) -> (r: bool)
{
    std::path::Path::new(path).exists()
}

impl Scanner {
    /// A scanner with the default configuration.
    pub fn new() -> (r: Scanner)
        ensures
            r.config.max_depth == 20,
            !r.config.follow_links,
    {
        Scanner { config: ScannerConfig::default() }
    }

    /// A scanner with the given configuration.
    pub fn with_config(config: ScannerConfig) -> (r: Scanner)
        ensures
            r.config == config,
    {
        Scanner { config }
    }

    /// Whether a path names a book file by this scanner's extensions,
    /// ignoring ASCII case.
    pub fn is_book_path(&self, path: &str) -> (r: bool)
        ensures
            r == exists|k: int|
                0 <= k < self.config.extensions@.len() && has_extension_ci(
                    path@,
                    (#[trigger] self.config.extensions@[k])@,
                ),
    {
        let mut k: usize = 0;
        while k < self.config.extensions.len()
            invariant
                0 <= k <= self.config.extensions@.len(),
                forall|j: int| 0 <= j < k ==> !has_extension_ci(
                    path@,
                    (#[trigger] self.config.extensions@[j])@,
                ),
            decreases self.config.extensions@.len() - k,
        {
            if path_has_extension(path, self.config.extensions[k].as_str()) {
                return true;
            }
            k = k + 1;
        }
        false
    }

    /// Look for a cover image next to a book file: for each configured
    /// cover extension, a file named like the book (its stem lowered), then
    /// one named cover, in the book's directory; then a cover file in the
    /// directory above. Which candidate exists is the disk's decision, but
    /// any answer is one of those candidates, built from the queried path's
    /// own directory and stem.
    pub fn find_cover(&self, epub_path: &str) -> (r: Option<String>)
        ensures
            r matches Some(p) ==> (last_idx_of(
                epub_path@,
                '/',
                epub_path@.len() as int,
            ) matches Some(sl) && exists|k: int|
                0 <= k < self.config.cover_extensions@.len() && {
                    let dir = epub_path@.subrange(0, sl);
                    let name = epub_path@.subrange(sl + 1, epub_path@.len() as int);
                    let ext = (#[trigger] self.config.cover_extensions@[k])@;
                    ||| (exists|st: Seq<char>|
                        ascii_lowered(stem_of(name), st) && p@ == dir + "/"@ + st + "."@ + ext)
                    ||| p@ == dir + "/"@ + "cover"@ + "."@ + ext
                    ||| (last_idx_of(dir, '/', dir.len() as int) matches Some(sl2) && p@
                        == dir.subrange(0, sl2) + "/"@ + "cover"@ + "."@ + ext)
                }),
    {
        let (dir, name, sl_found) = match rfind_char(epub_path, '/') {
            Some(sl) => {
                let d = epub_path.substring_char(0, sl);
                let f = epub_path.substring_char(sl + 1, epub_path.unicode_len());
                (d, f, sl)
            },
            None => {
                return None;
            },
        };
        let ghost sl_ghost = sl_found as int;
        // the stem: the name up to its last dot, lower-cased (ASCII)
        let stem_end = match rfind_char(name, '.') {
            Some(d) => d,
            None => name.unicode_len(),
        };
        let raw_stem = name.substring_char(0, stem_end);
        let stem = ascii_lower(raw_stem);
        proof {
            assert(raw_stem@ =~= stem_of(epub_path@.subrange(
                sl_ghost + 1,
                epub_path@.len() as int,
            )));
        }

        let mut k: usize = 0;
        while k < self.config.cover_extensions.len()
            invariant
                dir@ == epub_path@.subrange(0, sl_ghost),
                ascii_lowered(
                    stem_of(epub_path@.subrange(sl_ghost + 1, epub_path@.len() as int)),
                    stem@,
                ),
                last_idx_of(epub_path@, '/', epub_path@.len() as int) == Some(sl_ghost),
            decreases self.config.cover_extensions@.len() - k,
        {
            let ext = self.config.cover_extensions[k].as_str();
            let exact = join_cover(dir, stem.as_str(), ext);
            if path_exists(exact.as_str()) {
                return Some(exact);
            }
            let cover = join_cover(dir, "cover", ext);
            if path_exists(cover.as_str()) {
                return Some(cover);
            }
            k = k + 1;
        }

        // the directory above
        let parent = match rfind_char(dir, '/') {
            Some(sl) => dir.substring_char(0, sl),
            None => {
                return None;
            },
        };
        let mut k2: usize = 0;
        while k2 < self.config.cover_extensions.len()
            invariant
                dir@ == epub_path@.subrange(0, sl_ghost),
                parent@ == dir@.subrange(0, last_idx_of(dir@, '/', dir@.len() as int)->0),
                last_idx_of(dir@, '/', dir@.len() as int) is Some,
                last_idx_of(epub_path@, '/', epub_path@.len() as int) == Some(sl_ghost),
            decreases self.config.cover_extensions@.len() - k2,
        {
            let ext = self.config.cover_extensions[k2].as_str();
            let cover = join_cover(parent, "cover", ext);
            if path_exists(cover.as_str()) {
                return Some(cover);
            }
            k2 = k2 + 1;
        }
        None
    }
}

/// Join a directory, a file stem and an extension into one path.
fn join_cover(dir: &str, stem: &str, ext: &str) -> (r: String)
    ensures
        r@ == dir@ + "/"@ + stem@ + "."@ + ext@,
{
    let mut out = dir.to_owned();
    out.append("/");
    out.append(stem);
    out.append(".");
    out.append(ext);
    out
}

/// Lower-case the ASCII letters of a string.
fn ascii_lower(s: &str) -> (r: String)
    ensures
        ascii_lowered(s@, r@),
{
    let n = s.unicode_len();
    let mut out = String::new();
    let mut i: usize = 0;
    while i < n
        invariant
            n == s@.len(),
            0 <= i <= n,
            out@.len() == i,
            forall|k: int| 0 <= k < i ==> (('A' <= #[trigger] s@[k] <= 'Z' && (s@[k] as u32) + 32
                == out@[k] as u32) || (!('A' <= s@[k] <= 'Z') && out@[k] == s@[k])),
        decreases n - i,
    {
        let c = s.get_char(i);
        let lc: char = if c >= 'A' && c <= 'Z' {
            lower_ascii_char(c)
        } else {
            c
        };
        push_char(&mut out, lc);
        i = i + 1;
    }
    out
}

/// Lower an ASCII capital letter.
fn lower_ascii_char(c: char) -> (r: char)
    requires
        'A' <= c <= 'Z',
    ensures
        (c as u32) + 32 == r as u32,
        'a' <= r <= 'z',
{
    match c {
        'A' => 'a',
        'B' => 'b',
        'C' => 'c',
        'D' => 'd',
        'E' => 'e',
        'F' => 'f',
        'G' => 'g',
        'H' => 'h',
        'I' => 'i',
        'J' => 'j',
        'K' => 'k',
        'L' => 'l',
        'M' => 'm',
        'N' => 'n',
        'O' => 'o',
        'P' => 'p',
        'Q' => 'q',
        'R' => 'r',
        'S' => 's',
        'T' => 't',
        'U' => 'u',
        'V' => 'v',
        'W' => 'w',
        'X' => 'x',
        'Y' => 'y',
        _ => 'z',
    }
}

/// Relies on String::push from std: appends one character.
#[verifier::external_body]
fn push_char(s: &mut String, c: char)
    ensures
        final(s)@ == old(s)@.push(c),
{
    s.push(c);
}

} // verus!
