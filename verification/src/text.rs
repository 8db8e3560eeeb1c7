//! Text helpers for catalog metadata: sort-friendly titles, sorted author
//! names, and the text an item is embedded from.

use vstd::prelude::*;

verus! {

broadcast use vstd::string::group_string_axioms;

/// Whether `t` matches `a` ignoring ASCII case, where `a` is lower case.
pub open spec fn lower_eq(t: char, a: char) -> bool {
    t == a || ('A' <= t <= 'Z' && (t as u32) + 32 == a as u32)
}

/// Whether `s` starts with `p` ignoring ASCII case, where `p` is lower case.
pub open spec fn has_prefix_ci(s: Seq<char>, p: Seq<char>) -> bool {
    &&& p.len() <= s.len()
    &&& forall|i: int| 0 <= i < p.len() ==> lower_eq(s[i], #[trigger] p[i])
}

/// Whether a character separates listed authors.
fn is_author_sep(c: char) -> (r: bool)
    ensures
        r == (c == ',' || c == ';' || c == '&'),
{
    c == ',' || c == ';' || c == '&'
}

/// Check a case-insensitive prefix, the prefix given in lower case.
fn check_prefix_ci(s: &str, p: &str) -> (r: bool)
    ensures
        r == has_prefix_ci(s@, p@),
{
    let sl = s.unicode_len();
    let pl = p.unicode_len();
    if pl > sl {
        return false;
    }
    let mut i: usize = 0;
    while i < pl
        invariant
            sl == s@.len(),
            pl == p@.len(),
            pl <= sl,
            0 <= i <= pl,
            forall|k: int| 0 <= k < i ==> lower_eq(s@[k], #[trigger] p@[k]),
        decreases pl - i,
    {
        let sc = s.get_char(i);
        let pc = p.get_char(i);
        let matches_here = sc == pc || (sc >= 'A' && sc <= 'Z' && (sc as u32) + 32 == pc as u32);
        if !matches_here {
            assert(!lower_eq(s@[i as int], p@[i as int]));
            return false;
        }
        i = i + 1;
    }
    true
}

/// The leading articles stripped from a title for sorting, in the order they
/// are tried, all lower case.
pub open spec fn sort_articles() -> Seq<Seq<char>> {
    seq![
        "the "@,
        "a "@,
        "an "@,
        "le "@,
        "la "@,
        "les "@,
        "un "@,
        "une "@,
        "el "@,
        "los "@,
        "las "@,
    ]
}

/// The sort title: the title with the first matching leading article
/// removed, or the title itself when none matches.
pub open spec fn sort_title_from(title: Seq<char>, k: int) -> Seq<char>
    decreases sort_articles().len() - k,
{
    if k < 0 || k >= sort_articles().len() {
        title
    } else if has_prefix_ci(title, sort_articles()[k]) {
        title.skip(sort_articles()[k].len() as int)
    } else {
        sort_title_from(title, k + 1)
    }
}

/// Generate a sort-friendly title: strip one leading article (ignoring ASCII
/// case), if any.
pub fn generate_sort_title(title: &str) -> (r: String)
    ensures
        r@ == sort_title_from(title@, 0),
{
    let articles: [&str; 11] = [
        "the ", "a ", "an ", "le ", "la ", "les ", "un ", "une ", "el ", "los ", "las ",
    ];
    let mut k: usize = 0;
    while k < 11
        invariant
            0 <= k <= 11,
            forall|i: int| 0 <= i < 11 ==> (#[trigger] articles@[i])@ == sort_articles()[i],
            forall|i: int| 0 <= i < k ==> !has_prefix_ci(title@, sort_articles()[i]),
            sort_title_from(title@, 0) == sort_title_from(title@, k as int),
        decreases 11 - k,
    {
        let article = articles[k];
        if check_prefix_ci(title, article) {
            let n = title.unicode_len();
            let al = article.unicode_len();
            let rest = title.substring_char(al, n);
            return rest.to_owned();
        }
        k = k + 1;
    }
    title.to_owned()
}

/// Whether a character counts as white space, as the white-space property
/// defines it.
pub open spec fn is_space_char(c: char) -> bool {
    ||| c == ' '
    ||| ('\u{0009}' <= c <= '\u{000D}')
    ||| c == '\u{0085}'
    ||| c == '\u{00A0}'
    ||| c == '\u{1680}'
    ||| ('\u{2000}' <= c <= '\u{200A}')
    ||| c == '\u{2028}'
    ||| c == '\u{2029}'
    ||| c == '\u{202F}'
    ||| c == '\u{205F}'
    ||| c == '\u{3000}'
}

/// Check the white-space property of a character.
pub fn is_space(c: char) -> (r: bool)
    ensures
        r == is_space_char(c),
{
    c == ' ' || (c >= '\u{0009}' && c <= '\u{000D}') || c == '\u{0085}' || c == '\u{00A0}'
        || c == '\u{1680}' || (c >= '\u{2000}' && c <= '\u{200A}') || c == '\u{2028}'
        || c == '\u{2029}' || c == '\u{202F}' || c == '\u{205F}' || c == '\u{3000}'
}

/// The first index of `s` in `[from, to)` holding a non-space character, or
/// `to` when all are spaces.
pub open spec fn trim_start_idx(s: Seq<char>, from: int, to: int) -> int
    decreases to - from,
{
    if from >= to {
        to
    } else if is_space_char(s[from]) {
        trim_start_idx(s, from + 1, to)
    } else {
        from
    }
}

/// One past the last index of `s` in `[from, to)` holding a non-space
/// character, or `from` when all are spaces.
pub open spec fn trim_end_idx(s: Seq<char>, from: int, to: int) -> int
    decreases to - from,
{
    if from >= to {
        from
    } else if is_space_char(s[to - 1]) {
        trim_end_idx(s, from, to - 1)
    } else {
        to
    }
}

/// The slice of `s` between `from` and `to` with surrounding space removed.
pub open spec fn trimmed(s: Seq<char>, from: int, to: int) -> Seq<char> {
    let a = trim_start_idx(s, from, to);
    let b = trim_end_idx(s, a, to);
    s.subrange(a, b)
}

/// Compute the trimmed bounds of `s` between `from` and `to`.
pub(crate) fn trim_range(s: &str, from: usize, to: usize) -> (r: (usize, usize))
    requires
        from <= to <= s@.len(),
    ensures
        from <= r.0 <= r.1 <= to,
        r.0 == trim_start_idx(s@, from as int, to as int),
        r.1 == trim_end_idx(s@, r.0 as int, to as int),
{
    let mut a = from;
    while a < to && is_space(s.get_char(a))
        invariant
            from <= a <= to <= s@.len(),
            trim_start_idx(s@, from as int, to as int) == trim_start_idx(s@, a as int, to as int),
        decreases to - a,
    {
        a = a + 1;
    }
    assert(trim_start_idx(s@, a as int, to as int) == a as int);
    let mut b = to;
    while b > a && is_space(s.get_char(b - 1))
        invariant
            a <= b <= to <= s@.len(),
            trim_end_idx(s@, a as int, to as int) == trim_end_idx(s@, a as int, b as int),
        decreases b - a,
    {
        b = b - 1;
    }
    assert(trim_end_idx(s@, a as int, b as int) == b as int);
    (a, b)
}

/// The first index in `[0, len)` where one of the author separators (comma,
/// semicolon, ampersand) stands, or `len`.
pub open spec fn author_sep_idx(s: Seq<char>, from: int) -> int
    decreases s.len() - from,
{
    if from < 0 || from >= s.len() {
        s.len() as int
    } else if s[from] == ',' || s[from] == ';' || s[from] == '&' {
        from
    } else {
        author_sep_idx(s, from + 1)
    }
}

/// The last index in `[0, n)` holding a space, or none.
pub open spec fn last_space_idx(s: Seq<char>, n: int) -> Option<int>
    decreases n,
{
    if n <= 0 {
        None
    } else if s[n - 1] == ' ' {
        Some(n - 1)
    } else {
        last_space_idx(s, n - 1)
    }
}

/// The sorted form of an author name: the first listed author, trimmed;
/// when it holds a space, the part after the last space comes first, then a
/// comma, then the part before it, both trimmed.
pub open spec fn author_sort_spec(author: Seq<char>) -> Seq<char> {
    let sep = author_sep_idx(author, 0);
    let a = trim_start_idx(author, 0, sep);
    let b = trim_end_idx(author, a, sep);
    let name = author.subrange(a, b);
    match last_space_idx(name, name.len() as int) {
        Some(sp) => trimmed(name, sp, name.len() as int) + ", "@ + trimmed(name, 0, sp),
        None => name,
    }
}

/// Generate the sorted form of an author name ("Last, First"); names without
/// a space, such as mononyms, stay as they are. Only the first listed author
/// is used when several are separated by commas, semicolons or ampersands.
pub fn generate_author_sort(author: &str) -> (r: String)
    ensures
        r@ == author_sort_spec(author@),
{
    let n = author.unicode_len();
    // first listed author
    let mut sep: usize = 0;
    while sep < n && !is_author_sep(author.get_char(sep))
        invariant
            n == author@.len(),
            0 <= sep <= n,
            author_sep_idx(author@, 0) == author_sep_idx(author@, sep as int),
        decreases n - sep,
    {
        sep = sep + 1;
    }
    assert(author_sep_idx(author@, 0) == sep as int);
    let (a, b) = trim_range(author, 0, sep);
    let name = author.substring_char(a, b);
    let nl = b - a;
    assert(name@ =~= author@.subrange(a as int, b as int));

    // last space in the trimmed name
    let mut sp: usize = nl;
    while sp > 0 && name.get_char(sp - 1) != ' '
        invariant
            nl == name@.len(),
            0 <= sp <= nl,
            last_space_idx(name@, nl as int) == last_space_idx(name@, sp as int),
        decreases sp,
    {
        sp = sp - 1;
    }
    if sp == 0 {
        assert(last_space_idx(name@, 0) is None);
        return name.to_owned();
    }
    assert(last_space_idx(name@, nl as int) == Some((sp - 1) as int));
    let space_at = sp - 1;
    let (la, lb) = trim_range(name, space_at, nl);
    let (fa, fb) = trim_range(name, 0, space_at);
    let last = name.substring_char(la, lb);
    let first = name.substring_char(fa, fb);
    let mut out = last.to_owned();
    out.append(", ");
    out.append(first);
    proof {
        assert(out@ =~= author_sort_spec(author@));
    }
    out
}

/// Choose the series source for an item: the cataloguing tool's own
/// metadata wins; only without it does the title-derived guess count.
pub fn choose_series(
    tool_series: Option<String>,
    tool_index: Option<i64>,
    title_series: Option<String>,
    title_index: Option<i64>,
) -> (r: (Option<String>, Option<i64>))
    ensures
        tool_series is Some ==> r == (tool_series, tool_index),
        tool_series is None ==> r == (title_series, title_index),
{
    match tool_series {
        Some(s) => (Some(s), tool_index),
        None => (title_series, title_index),
    }
}

/// The byte length of a character in its eight-bit transformation format.
pub open spec fn utf8_len(c: char) -> int {
    if (c as u32) < 0x80 {
        1
    } else if (c as u32) < 0x800 {
        2
    } else if (c as u32) < 0x10000 {
        3
    } else {
        4
    }
}

/// The byte length of the first `n` characters.
pub open spec fn byte_len(s: Seq<char>, n: int) -> int
    decreases n,
{
    if n <= 0 {
        0
    } else {
        byte_len(s, n - 1) + utf8_len(s[n - 1])
    }
}

/// Compute the byte length of a character.
fn utf8_len_of(c: char) -> (r: usize)
    ensures
        r == utf8_len(c),
{
    let u = c as u32;
    if u < 0x80 {
        1
    } else if u < 0x800 {
        2
    } else if u < 0x10000 {
        3
    } else {
        4
    }
}

/// Byte lengths of prefixes grow with the prefix.
proof fn lemma_byte_len_monotone(s: Seq<char>, a: int, b: int)
    requires
        0 <= a <= b,
    ensures
        byte_len(s, a) <= byte_len(s, b),
    decreases b - a,
{
    if a < b {
        lemma_byte_len_monotone(s, a, b - 1);
    }
}

/// Largest byte budget a description keeps before being shortened.
pub const DESCRIPTION_BYTE_LIMIT: usize = 1000;

/// How many leading characters of a description are kept when it is
/// shortened: every character that begins before the byte limit.
pub open spec fn kept_chars(s: Seq<char>, n: int) -> int
    decreases n,
{
    if n <= 0 {
        0
    } else if byte_len(s, n - 1) < DESCRIPTION_BYTE_LIMIT as int {
        n
    } else {
        kept_chars(s, n - 1)
    }
}

/// The description as embedded: whole when it fits the byte limit, else the
/// kept prefix with a three-dot ellipsis.
pub open spec fn embedded_description(s: Seq<char>) -> Seq<char> {
    if byte_len(s, s.len() as int) <= DESCRIPTION_BYTE_LIMIT as int {
        s
    } else {
        s.take(kept_chars(s, s.len() as int)) + "..."@
    }
}

/// The text an item is embedded from: its title, and when present its
/// author, series and (shortened) description, each on a line of its own
/// with a label.
pub open spec fn embedding_text_spec(
    title: Seq<char>,
    author: Option<Seq<char>>,
    description: Option<Seq<char>>,
    series: Option<Seq<char>>,
) -> Seq<char> {
    let t = "Title: "@ + title;
    let a = match author {
        Some(x) => t + "\nAuthor: "@ + x,
        None => t,
    };
    let s = match series {
        Some(x) => a + "\nSeries: "@ + x,
        None => a,
    };
    match description {
        Some(x) => s + "\nDescription: "@ + embedded_description(x),
        None => s,
    }
}

/// Build the text an item is embedded from. The description is shortened to
/// `DESCRIPTION_BYTE_LIMIT` bytes of characters (plus an ellipsis) to bound
/// what is sent to the embedding provider.
pub fn book_to_embedding_text(
    title: &str,
    author: Option<&str>,
    description: Option<&str>,
    series: Option<&str>,
) -> (r: String)
    ensures
        r@ == embedding_text_spec(
            title@,
            match author {
                Some(a) => Some(a@),
                None => None,
            },
            match description {
                Some(d) => Some(d@),
                None => None,
            },
            match series {
                Some(s) => Some(s@),
                None => None,
            },
        ),
{
    let mut out = "Title: ".to_owned();
    out.append(title);
    match author {
        Some(a) => {
            out.append("\nAuthor: ");
            out.append(a);
        },
        None => {},
    }
    match series {
        Some(s) => {
            out.append("\nSeries: ");
            out.append(s);
        },
        None => {},
    }
    match description {
        Some(d) => {
            out.append("\nDescription: ");
            let n = d.unicode_len();
            // total byte length and the kept prefix, in one pass
            let mut total: usize = 0;
            let mut kept: usize = 0;
            let mut i: usize = 0;
            while i < n
                invariant
                    n == d@.len(),
                    0 <= i <= n,
                    total <= DESCRIPTION_BYTE_LIMIT + 4,
                    total <= DESCRIPTION_BYTE_LIMIT ==> total == byte_len(d@, i as int),
                    total > DESCRIPTION_BYTE_LIMIT ==> byte_len(d@, i as int)
                        > DESCRIPTION_BYTE_LIMIT as int,
                    kept == kept_chars(d@, i as int),
                    kept <= i,
                decreases n - i,
            {
                let c = d.get_char(i);
                if total < DESCRIPTION_BYTE_LIMIT {
                    kept = i + 1;
                }
                proof {
                    lemma_byte_len_monotone(d@, i as int, i as int + 1);
                }
                if total <= DESCRIPTION_BYTE_LIMIT {
                    total = total + utf8_len_of(c);
                }
                i = i + 1;
            }
            if total <= DESCRIPTION_BYTE_LIMIT {
                out.append(d);
            } else {
                let prefix = d.substring_char(0, kept);
                out.append(prefix);
                out.append("...");
                proof {
                    assert(prefix@ =~= d@.take(kept_chars(d@, d@.len() as int)));
                }
            }
        },
        None => {},
    }
    out
}

} // verus!
