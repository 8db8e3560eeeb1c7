//! Minimal pattern support for series parsing: just enough to pull a
//! "(Series Name, #N)" group out of a title.

use vstd::prelude::*;
use std::collections::HashMap;
use crate::text::{lower_eq, trimmed, trim_range};

verus! {

broadcast use vstd::std_specs::hash::group_hash_axioms;

/// The one pattern the matcher knows: a parenthesised series name, a comma,
/// and a floating-point number that may carry a leading hash.
pub open spec fn series_pattern() -> Seq<char> {
    "\\(([^,]+),\\s*#?(\\d+(?:\\.\\d+)?)\\)"@
}

/// The first index at or after `from` where `c` stands, or the length.
pub open spec fn first_idx_of(s: Seq<char>, c: char, from: int) -> int
    decreases s.len() - from,
{
    if from < 0 || from >= s.len() {
        s.len() as int
    } else if s[from] == c {
        from
    } else {
        first_idx_of(s, c, from + 1)
    }
}

/// Find `c` at or after `from`; the length means it is absent.
fn find_char(s: &str, c: char, from: usize) -> (r: usize)
    requires
        from <= s@.len(),
    ensures
        r == first_idx_of(s@, c, from as int),
        from <= r <= s@.len(),
        r < s@.len() ==> s@[r as int] == c,
{
    let n = s.unicode_len();
    let mut i = from;
    while i < n && s.get_char(i) != c
        invariant
            n == s@.len(),
            from <= i <= n,
            first_idx_of(s@, c, from as int) == first_idx_of(s@, c, i as int),
        decreases n - i,
    {
        i = i + 1;
    }
    i
}

/// The first index at or after `from` that does not hold a decimal digit.
pub open spec fn digits_end(s: Seq<char>, from: int) -> int
    decreases s.len() - from,
{
    if from < 0 || from >= s.len() {
        if from < 0 {
            0
        } else {
            s.len() as int
        }
    } else if '0' <= s[from] <= '9' {
        digits_end(s, from + 1)
    } else {
        from
    }
}

/// Whether `s` from `from` to its end spells the keyword, ignoring ASCII
/// case, with `kw` lower case.
pub open spec fn keyword_to_end(s: Seq<char>, from: int, kw: Seq<char>) -> bool {
    &&& 0 <= from <= s.len()
    &&& s.len() - from == kw.len()
    &&& forall|i: int| 0 <= i < kw.len() ==> lower_eq(s[from + i], #[trigger] kw[i])
}

/// Where a mantissa starting at `from` ends, and whether it is one: digits
/// with at most one point, and a digit on at least one side of the point.
pub open spec fn mantissa_end(s: Seq<char>, from: int) -> (bool, int) {
    let d1 = digits_end(s, from);
    if d1 < s.len() && s[d1] == '.' {
        let d2 = digits_end(s, d1 + 1);
        (d1 > from || d2 > d1 + 1, d2)
    } else {
        (d1 > from, d1)
    }
}

/// Whether a character sequence spells a floating-point number as the
/// standard parser accepts it: an optional sign, then one of the infinity
/// or not-a-number keywords (ignoring case), or a mantissa with an optional
/// exponent (an e, an optional sign, and digits).
pub open spec fn is_float_chars(s: Seq<char>) -> bool {
    let start: int = if s.len() > 0 && (s[0] == '+' || s[0] == '-') {
        1
    } else {
        0
    };
    ||| keyword_to_end(s, start, "inf"@)
    ||| keyword_to_end(s, start, "infinity"@)
    ||| keyword_to_end(s, start, "nan"@)
    ||| {
        let m = mantissa_end(s, start);
        &&& m.0
        &&& (m.1 == s.len() || (m.1 < s.len() && (s[m.1] == 'e' || s[m.1] == 'E') && {
            let es: int = if m.1 + 1 < s.len() && (s[m.1 + 1] == '+' || s[m.1 + 1] == '-') {
                m.1 + 2
            } else {
                m.1 + 1
            };
            let d3 = digits_end(s, es);
            d3 > es && d3 == s.len()
        }))
    }
}

/// Scan past decimal digits.
fn digits_run(s: &str, from: usize) -> (r: usize)
    requires
        from <= s@.len(),
    ensures
        r == digits_end(s@, from as int),
        from <= r <= s@.len(),
{
    let n = s.unicode_len();
    let mut i = from;
    while i < n && s.get_char(i) >= '0' && s.get_char(i) <= '9'
        invariant
            n == s@.len(),
            from <= i <= n,
            digits_end(s@, from as int) == digits_end(s@, i as int),
        decreases n - i,
    {
        i = i + 1;
    }
    i
}

/// Check a lower-case keyword against the rest of the string, ignoring
/// ASCII case.
fn keyword_check(s: &str, from: usize, kw: &str) -> (r: bool)
    requires
        from <= s@.len(),
    ensures
        r == keyword_to_end(s@, from as int, kw@),
{
    let n = s.unicode_len();
    let kn = kw.unicode_len();
    if n - from != kn {
        return false;
    }
    let mut i: usize = 0;
    while i < kn
        invariant
            n == s@.len(),
            kn == kw@.len(),
            from + kn == n,
            0 <= i <= kn,
            forall|k: int| 0 <= k < i ==> lower_eq(s@[from + k], #[trigger] kw@[k]),
        decreases kn - i,
    {
        let sc = s.get_char(from + i);
        let kc = kw.get_char(i);
        let m = sc == kc || (sc >= 'A' && sc <= 'Z' && (sc as u32) + 32 == kc as u32);
        if !m {
            assert(!lower_eq(s@[from + i], kw@[i as int]));
            return false;
        }
        i = i + 1;
    }
    true
}

/// Check that a string spells a floating-point number.
fn is_float_str(s: &str) -> (r: bool)
    ensures
        r == is_float_chars(s@),
{
    let n = s.unicode_len();
    let start: usize = if n > 0 {
        let c = s.get_char(0);
        if c == '+' || c == '-' {
            1
        } else {
            0
        }
    } else {
        0
    };
    if keyword_check(s, start, "inf") || keyword_check(s, start, "infinity") || keyword_check(
        s,
        start,
        "nan",
    ) {
        return true;
    }
    let d1 = digits_run(s, start);
    let (mok, me): (bool, usize) = if d1 < n && s.get_char(d1) == '.' {
        let d2 = digits_run(s, d1 + 1);
        (d1 > start || d2 > d1 + 1, d2)
    } else {
        (d1 > start, d1)
    };
    if !mok {
        return false;
    }
    if me == n {
        return true;
    }
    let c = s.get_char(me);
    if c != 'e' && c != 'E' {
        return false;
    }
    let es: usize = if me + 1 < n {
        let c2 = s.get_char(me + 1);
        if c2 == '+' || c2 == '-' {
            me + 2
        } else {
            me + 1
        }
    } else {
        me + 1
    };
    let d3 = digits_run(s, es);
    d3 > es && d3 == n
}

/// A found index stays between its start and the length.
proof fn lemma_first_idx_bounds(s: Seq<char>, c: char, from: int)
    requires
        0 <= from <= s.len(),
    ensures
        from <= first_idx_of(s, c, from) <= s.len(),
    decreases s.len() - from,
{
    if from < s.len() && s[from] != c {
        lemma_first_idx_bounds(s, c, from + 1);
    }
}

/// Where the series pattern matches a text: the indices of the opening
/// parenthesis, the comma, and the closing parenthesis, when the layout and
/// the number check out.
pub open spec fn series_match(text: Seq<char>) -> Option<(int, int, int)> {
    let p = first_idx_of(text, '(', 0);
    if p >= text.len() {
        None
    } else {
        let q = first_idx_of(text, ')', p);
        if q >= text.len() {
            None
        } else {
            let m = first_idx_of(text, ',', p + 1);
            if m >= q {
                None
            } else {
                let num = number_part(text, m, q);
                if is_float_chars(num) {
                    Some((p, m, q))
                } else {
                    None
                }
            }
        }
    }
}

/// The number part between the comma and the closing parenthesis: trimmed,
/// with one leading run of hash marks removed.
pub open spec fn number_part(text: Seq<char>, m: int, q: int) -> Seq<char> {
    let t = trimmed(text, m + 1, q);
    t.skip(hash_prefix_len(t, 0))
}

/// How many leading hash marks a sequence has from `from`.
pub open spec fn hash_prefix_len(s: Seq<char>, from: int) -> int
    decreases s.len() - from,
{
    if from < 0 || from >= s.len() {
        if from < 0 {
            0
        } else {
            s.len() as int
        }
    } else if s[from] == '#' {
        hash_prefix_len(s, from + 1)
    } else {
        from
    }
}

/// A compiled pattern. Only the series pattern is understood; any other
/// pattern compiles but never matches.
pub struct Regex {
    pub pattern: String,
}

/// The capture groups of a successful match: group index to the character
/// range it covers in the text.
pub struct Captures<'a> {
    pub text: &'a str,
    pub groups: HashMap<usize, (usize, usize)>,
}

/// One captured group of text.
pub struct Match<'a> {
    pub text: &'a str,
}

impl Regex {
    /// Compile a pattern. Compilation never fails; only the series pattern
    /// later matches anything.
    pub fn new(pattern: &str) -> (r: Result<Regex, ()>)
        ensures
            r matches Ok(re) && re.pattern@ == pattern@,
    {
        Ok(Regex { pattern: pattern.to_owned() })
    }

    /// Match the series pattern against a text: finds "(name, #N)" where N,
    /// after trimming and dropping leading hash marks, spells a
    /// floating-point number; the name is group one and the number part
    /// (hash included) group two. Patterns other than the series pattern
    /// never match.
    pub fn captures<'a>(&self, text: &'a str) -> (r: Option<Captures<'a>>)
        ensures
            self.pattern@ != series_pattern() ==> r is None,
            series_match(text@) is None ==> r is None,
            self.pattern@ == series_pattern() ==> (series_match(text@) matches Some(pmq) ==> (
            r matches Some(c) && c.text@ == text@ && c.groups@ == Map::<
                usize,
                (usize, usize),
            >::empty().insert(1usize, ((pmq.0 + 1) as usize, pmq.1 as usize)).insert(
                2usize,
                ((pmq.1 + 1) as usize, pmq.2 as usize),
            ))),
    {
        let pat: &str = "\\(([^,]+),\\s*#?(\\d+(?:\\.\\d+)?)\\)";
        proof {
            vstd::prelude::reveal_strlit("\\(([^,]+),\\s*#?(\\d+(?:\\.\\d+)?)\\)");
        }
        if !str_eq(self.pattern.as_str(), pat) {
            return None;
        }
        let n = text.unicode_len();
        let p = find_char(text, '(', 0);
        if p >= n {
            return None;
        }
        let q = find_char(text, ')', p);
        if q >= n {
            return None;
        }
        let m = find_char(text, ',', p + 1);
        if m >= q {
            return None;
        }
        // the number part: trimmed, hash marks skipped, must be decimal
        let (ta, tb) = trim_range(text, m + 1, q);
        let mut h = ta;
        while h < tb && text.get_char(h) == '#'
            invariant
                ta <= h <= tb <= text@.len(),
                hash_prefix_len(text@.subrange(ta as int, tb as int), 0) == hash_prefix_len(
                    text@.subrange(ta as int, tb as int),
                    h - ta as int,
                ),
            decreases tb - h,
        {
            proof {
                let sub = text@.subrange(ta as int, tb as int);
                assert(sub[h - ta as int] == text@[h as int]);
            }
            h = h + 1;
        }
        proof {
            let sub = text@.subrange(ta as int, tb as int);
            if h < tb {
                assert(sub[h - ta as int] == text@[h as int]);
            }
            assert(hash_prefix_len(sub, h - ta as int) == h - ta as int);
            assert(number_part(text@, m as int, q as int) =~= text@.subrange(
                h as int,
                tb as int,
            ));
        }
        let numpart = text.substring_char(h, tb);
        proof {
            assert(numpart@ =~= number_part(text@, m as int, q as int));
        }
        if !is_float_str(numpart) {
            return None;
        }
        let mut groups: HashMap<usize, (usize, usize)> = HashMap::new();
        groups.insert(1, (p + 1, m));
        groups.insert(2, (m + 1, q));
        proof {
            assert(groups@ =~= Map::<usize, (usize, usize)>::empty().insert(
                1usize,
                ((p + 1) as usize, m as usize),
            ).insert(2usize, ((m + 1) as usize, q as usize)));
        }
        Some(Captures { text, groups })
    }
}

/// Compare two strings character by character.
fn str_eq(a: &str, b: &str) -> (r: bool)
    ensures
        r == (a@ == b@),
{
    let an = a.unicode_len();
    let bn = b.unicode_len();
    if an != bn {
        proof {
            assert(a@.len() != b@.len());
        }
        return false;
    }
    let mut i: usize = 0;
    while i < an
        invariant
            an == a@.len() == b@.len(),
            0 <= i <= an,
            forall|k: int| 0 <= k < i ==> a@[k] == b@[k],
        decreases an - i,
    {
        if a.get_char(i) != b.get_char(i) {
            return false;
        }
        i = i + 1;
    }
    proof {
        assert(a@ =~= b@);
    }
    true
}

impl<'a> Captures<'a> {
    /// The captured group with the given index, if the match recorded one
    /// and its range lies within the text.
    pub fn get(&self, index: usize) -> (r: Option<Match<'a>>)
        ensures
            self.groups@.contains_key(index) ==> {
                let g = self.groups@[index];
                (g.0 <= g.1 <= self.text@.len()) ==> (r matches Some(mt) && mt.text@
                    == self.text@.subrange(g.0 as int, g.1 as int))
            },
            !self.groups@.contains_key(index) ==> r is None,
    {
        match self.groups.get(&index) {
            Some(g) => {
                let (s, e) = *g;
                if s <= e && e <= self.text.unicode_len() {
                    Some(Match { text: self.text.substring_char(s, e) })
                } else {
                    None
                }
            },
            None => None,
        }
    }
}

impl<'a> Match<'a> {
    /// The matched text with surrounding white space removed.
    pub fn as_str(&self) -> (r: &'a str)
        ensures
            r@ == trimmed(self.text@, 0, self.text@.len() as int),
    {
        let n = self.text.unicode_len();
        let (a, b) = trim_range(self.text, 0, n);
        self.text.substring_char(a, b)
    }
}

} // verus!
