//! The dictionary loader: parses three line-oriented text tables into the
//! immutable lookup tables the engine uses.
//!
//! Each line is `<field1>,<field2>`; fields are trimmed of surrounding
//! whitespace; a line without exactly one comma is skipped. For the two
//! character-keyed tables only the first code point of each trimmed field
//! is used, and a line whose trimmed field is empty is skipped rather
//! than failing.

use vstd::prelude::*;
use std::sync::Arc;
use crate::table::{CharTable, WordTable};
use crate::text::{chars_vec, copy_range};

verus! {

/// A whitespace code point, as `str::trim` understands it (the Unicode
/// White_Space property).
pub open spec fn is_space(c: char) -> bool {
    (9 <= c as u32 <= 13) || c as u32 == 32 || c as u32 == 133 || c as u32 == 160 || c as u32
        == 5760 || (8192 <= c as u32 <= 8202) || c as u32 == 8232 || c as u32 == 8233 || c as u32
        == 8239 || c as u32 == 8287 || c as u32 == 12288
}

/// Whether `c` is a whitespace code point.
fn is_space_char(c: char) -> (b: bool)
    ensures
        b == is_space(c),
{
    let n: u32 = c as u32;
    (n >= 9 && n <= 13) || n == 32 || n == 133 || n == 160 || n == 5760 || (n >= 8192 && n <= 8202)
        || n == 8232 || n == 8233 || n == 8239 || n == 8287 || n == 12288
}

/// `s` without its leading whitespace.
pub open spec fn trim_start_spec(s: Seq<char>) -> Seq<char>
    decreases s.len(),
{
    if s.len() > 0 && is_space(s[0]) {
        trim_start_spec(s.drop_first())
    } else {
        s
    }
}

/// `s` without its trailing whitespace.
pub open spec fn trim_end_spec(s: Seq<char>) -> Seq<char>
    decreases s.len(),
{
    if s.len() > 0 && is_space(s.last()) {
        trim_end_spec(s.drop_last())
    } else {
        s
    }
}

/// `s` without leading and trailing whitespace.
pub open spec fn trim_spec(s: Seq<char>) -> Seq<char> {
    trim_end_spec(trim_start_spec(s))
}

/// How many times `c` occurs in `s`.
pub open spec fn count_char(s: Seq<char>, c: char) -> int
    decreases s.len(),
{
    if s.len() == 0 {
        0
    } else {
        count_char(s.drop_last(), c) + if s.last() == c {
            1int
        } else {
            0int
        }
    }
}

/// The index of the first occurrence of `c` in `s`, or `-1` if there is
/// none.
pub open spec fn find_char(s: Seq<char>, c: char) -> int
    decreases s.len(),
{
    if s.len() == 0 {
        -1
    } else if s[0] == c {
        0
    } else if find_char(s.drop_first(), c) == -1 {
        -1
    } else {
        find_char(s.drop_first(), c) + 1
    }
}

proof fn lemma_find_char_range(s: Seq<char>, c: char)
    ensures
        -1 <= find_char(s, c) < s.len(),
    decreases s.len(),
{
    if s.len() > 0 && s[0] != c {
        lemma_find_char_range(s.drop_first(), c);
    }
}

/// `find_char` returns the position of the first occurrence.
proof fn lemma_find_char_is(s: Seq<char>, c: char, i: int)
    requires
        0 <= i < s.len(),
        s[i] == c,
        forall|m: int| 0 <= m < i ==> s[m] != c,
    ensures
        find_char(s, c) == i,
    decreases s.len(),
{
    if i > 0 {
        let t = s.drop_first();
        assert(t[i - 1] == s[i]);
        assert forall|m: int| 0 <= m < i - 1 implies t[m] != c by {
            assert(t[m] == s[m + 1]);
        }
        lemma_find_char_is(t, c, i - 1);
    }
}

/// `find_char` returns `-1` exactly when `c` does not occur.
proof fn lemma_find_char_none(s: Seq<char>, c: char)
    requires
        forall|m: int| 0 <= m < s.len() ==> s[m] != c,
    ensures
        find_char(s, c) == -1,
    decreases s.len(),
{
    if s.len() > 0 {
        let t = s.drop_first();
        assert forall|m: int| 0 <= m < t.len() implies t[m] != c by {
            assert(t[m] == s[m + 1]);
        }
        lemma_find_char_none(t, c);
    }
}

/// The two raw fields of a line: defined exactly when the line holds one
/// comma, as what stands before and after it.
pub open spec fn split_line(s: Seq<char>) -> Option<(Seq<char>, Seq<char>)> {
    if count_char(s, ',') == 1 {
        let i = find_char(s, ',');
        Some((s.take(i), s.skip(i + 1)))
    } else {
        None
    }
}

/// A line without a trailing carriage return.
pub open spec fn strip_cr(s: Seq<char>) -> Seq<char> {
    if s.len() > 0 && s.last() == '\r' {
        s.drop_last()
    } else {
        s
    }
}

/// The lines of a text blob, as `str::lines` yields them: split on line
/// feeds, each line without a trailing carriage return, and no final
/// empty line after a trailing line feed.
pub open spec fn split_lines(s: Seq<char>) -> Seq<Seq<char>>
    decreases s.len(),
    via split_lines_decreases
{
    if s.len() == 0 {
        Seq::empty()
    } else {
        let i = find_char(s, '\n');
        if i < 0 {
            seq![strip_cr(s)]
        } else {
            seq![strip_cr(s.take(i))] + split_lines(s.skip(i + 1))
        }
    }
}

#[via_fn]
proof fn split_lines_decreases(s: Seq<char>) {
    lemma_find_char_range(s, '\n');
}

/// The entry a line contributes to a character-keyed table: the first
/// code point of each trimmed field, provided the line splits into two
/// fields and neither trimmed field is empty.
pub open spec fn char_entry(line: Seq<char>) -> Option<(char, char)> {
    match split_line(line) {
        Some(f) => {
            let k = trim_spec(f.0);
            let v = trim_spec(f.1);
            if k.len() > 0 && v.len() > 0 {
                Some((k[0], v[0]))
            } else {
                None
            }
        },
        None => None,
    }
}

/// The entry a line contributes to the word table: both trimmed fields
/// in full, provided the line splits into two fields.
pub open spec fn word_entry(line: Seq<char>) -> Option<(Seq<char>, Seq<char>)> {
    match split_line(line) {
        Some(f) => Some((trim_spec(f.0), trim_spec(f.1))),
        None => None,
    }
}

/// Folds the entries of `lines` into `acc`, in order, so a later line
/// with the same key wins.
pub open spec fn char_map_from(lines: Seq<Seq<char>>, acc: Map<char, char>) -> Map<char, char>
    decreases lines.len(),
{
    if lines.len() == 0 {
        acc
    } else {
        let acc2 = match char_entry(lines[0]) {
            Some(kv) => acc.insert(kv.0, kv.1),
            None => acc,
        };
        char_map_from(lines.drop_first(), acc2)
    }
}

/// Folds the entries of `lines` into `acc`, in order, so a later line
/// with the same key wins.
pub open spec fn word_map_from(
    lines: Seq<Seq<char>>,
    acc: Map<Seq<char>, Seq<char>>,
) -> Map<Seq<char>, Seq<char>>
    decreases lines.len(),
{
    if lines.len() == 0 {
        acc
    } else {
        let acc2 = match word_entry(lines[0]) {
            Some(kv) => acc.insert(kv.0, kv.1),
            None => acc,
        };
        word_map_from(lines.drop_first(), acc2)
    }
}

/// The character-keyed table a source blob denotes.
pub open spec fn char_map_of_source(src: Seq<char>) -> Map<char, char> {
    char_map_from(split_lines(src), Map::empty())
}

/// The word table a source blob denotes.
pub open spec fn word_map_of_source(src: Seq<char>) -> Map<Seq<char>, Seq<char>> {
    word_map_from(split_lines(src), Map::empty())
}

/// A malformed line never reaches a character-keyed table: a line
/// without exactly one comma (blank lines and lines with several commas
/// included), or one whose trimmed field is empty, contributes no entry.
pub proof fn lemma_malformed_char_line_skipped(
    line: Seq<char>,
    rest: Seq<Seq<char>>,
    acc: Map<char, char>,
)
    requires
        count_char(line, ',') != 1 || trim_spec(line.take(find_char(line, ','))).len() == 0
            || trim_spec(line.skip(find_char(line, ',') + 1)).len() == 0,
    ensures
        char_map_from(seq![line] + rest, acc) == char_map_from(rest, acc),
{
    assert(char_entry(line) is None);
    assert((seq![line] + rest)[0] == line);
    assert((seq![line] + rest).drop_first() =~= rest);
}

/// A line without exactly one comma never reaches the word table.
pub proof fn lemma_malformed_word_line_skipped(
    line: Seq<char>,
    rest: Seq<Seq<char>>,
    acc: Map<Seq<char>, Seq<char>>,
)
    requires
        count_char(line, ',') != 1,
    ensures
        word_map_from(seq![line] + rest, acc) == word_map_from(rest, acc),
{
    assert(word_entry(line) is None);
    assert((seq![line] + rest)[0] == line);
    assert((seq![line] + rest).drop_first() =~= rest);
}

/// `v` without leading and trailing whitespace.
fn trim_vec(v: &Vec<char>) -> (t: Vec<char>)
    ensures
        t@ == trim_spec(v@),
{
    let n: usize = v.len();
    let mut a: usize = 0;
    loop
        invariant
            a <= n,
            n == v@.len(),
            forall|k: int| 0 <= k < a ==> is_space(v@[k]),
        ensures
            a <= n,
            forall|k: int| 0 <= k < a ==> is_space(v@[k]),
            a == n || !is_space(v@[a as int]),
        decreases n - a,
    {
        if a == n {
            break ;
        }
        if !is_space_char(v[a]) {
            break ;
        }
        a = a + 1;
    }
    let mut b: usize = n;
    loop
        invariant
            a <= b <= n,
            n == v@.len(),
            forall|k: int| b <= k < n ==> is_space(v@[k]),
        ensures
            a <= b <= n,
            forall|k: int| b <= k < n ==> is_space(v@[k]),
            b == a || !is_space(v@[b - 1]),
        decreases b,
    {
        if b == a {
            break ;
        }
        if !is_space_char(v[b - 1]) {
            break ;
        }
        b = b - 1;
    }
    proof {
        lemma_trim_start_is(v@, a as int);
        let u = v@.skip(a as int);
        let m = b - a;
        assert forall|k: int| m <= k < u.len() implies is_space(u[k]) by {
            assert(u[k] == v@[a + k]);
        }
        if m > 0 {
            assert(u[m - 1] == v@[b - 1]);
        }
        lemma_trim_end_is(u, m);
        assert(u.take(m) =~= v@.subrange(a as int, b as int));
    }
    copy_range(v, a, b)
}

/// Dropping leading whitespace, position by position, is `trim_start_spec`.
proof fn lemma_trim_start_is(s: Seq<char>, a: int)
    requires
        0 <= a <= s.len(),
        forall|k: int| 0 <= k < a ==> is_space(s[k]),
        a == s.len() || !is_space(s[a]),
    ensures
        trim_start_spec(s) == s.skip(a),
    decreases s.len(),
{
    if a == 0 {
        assert(s.skip(0) =~= s);
    } else {
        let t = s.drop_first();
        assert(is_space(s[0]));
        assert forall|k: int| 0 <= k < a - 1 implies is_space(t[k]) by {
            assert(t[k] == s[k + 1]);
        }
        if a - 1 < t.len() {
            assert(t[a - 1] == s[a]);
        }
        lemma_trim_start_is(t, a - 1);
        assert(t.skip(a - 1) =~= s.skip(a));
    }
}

/// Dropping trailing whitespace, position by position, is `trim_end_spec`.
proof fn lemma_trim_end_is(s: Seq<char>, m: int)
    requires
        0 <= m <= s.len(),
        forall|k: int| m <= k < s.len() ==> is_space(s[k]),
        m == 0 || !is_space(s[m - 1]),
    ensures
        trim_end_spec(s) == s.take(m),
    decreases s.len(),
{
    if s.len() > 0 && is_space(s.last()) {
        assert(m < s.len());
        let t = s.drop_last();
        assert forall|k: int| m <= k < t.len() implies is_space(t[k]) by {
            assert(t[k] == s[k]);
        }
        lemma_trim_end_is(t, m);
        assert(t.take(m) =~= s.take(m));
    } else {
        assert(m == s.len());
        assert(s.take(m) =~= s);
    }
}

/// Splits a line on its comma: `Some` with the two raw fields when the
/// line holds exactly one comma, `None` otherwise.
fn split_two(line: &Vec<char>) -> (r: Option<(Vec<char>, Vec<char>)>)
    ensures
        match r {
            Some(p) => split_line(line@) == Some((p.0@, p.1@)),
            None => split_line(line@) is None,
        },
{
    let n: usize = line.len();
    let mut k: usize = 0;
    let mut cnt: usize = 0;
    let mut fc: usize = 0;
    while k < n
        invariant
            k <= n,
            n == line@.len(),
            cnt <= k,
            count_char(line@.take(k as int), ',') == cnt,
            cnt > 0 ==> (fc < k && line@[fc as int] == ',' && forall|m: int|
                0 <= m < fc ==> line@[m] != ','),
            cnt == 0 ==> forall|m: int| 0 <= m < k ==> line@[m] != ',',
        decreases n - k,
    {
        proof {
            assert(line@.take(k + 1).drop_last() =~= line@.take(k as int));
            assert(line@.take(k + 1).last() == line@[k as int]);
        }
        if line[k] == ',' {
            if cnt == 0 {
                fc = k;
            }
            cnt = cnt + 1;
        }
        k = k + 1;
    }
    proof {
        assert(line@.take(n as int) =~= line@);
    }
    if cnt != 1 {
        return None;
    }
    proof {
        lemma_find_char_is(line@, ',', fc as int);
        assert(line@.take(fc as int) =~= line@.subrange(0, fc as int));
        assert(line@.skip(fc + 1) =~= line@.subrange(fc + 1, n as int));
    }
    let f0 = copy_range(line, 0, fc);
    let f1 = copy_range(line, fc + 1, n);
    Some((f0, f1))
}

/// The bounds of the line that starts at `p`: its end (after removing a
/// trailing carriage return) and the start of the next line.
fn line_bounds(cs: &Vec<char>, p: usize) -> (res: (usize, usize))
    requires
        p < cs@.len(),
    ensures
        p <= res.0 <= cs@.len(),
        p < res.1 <= cs@.len(),
        split_lines(cs@.skip(p as int)) == seq![cs@.subrange(p as int, res.0 as int)]
            + split_lines(cs@.skip(res.1 as int)),
{
    let n: usize = cs.len();
    let mut e: usize = p;
    loop
        invariant
            p <= e <= n,
            n == cs@.len(),
            forall|k: int| p <= k < e ==> cs@[k] != '\n',
        ensures
            p <= e <= n,
            forall|k: int| p <= k < e ==> cs@[k] != '\n',
            e == n || cs@[e as int] == '\n',
        decreases n - e,
    {
        if e == n {
            break ;
        }
        if cs[e] == '\n' {
            break ;
        }
        e = e + 1;
    }
    let ghost rem = cs@.skip(p as int);
    proof {
        if e < n {
            assert(rem[e - p] == cs@[e as int]);
            assert forall|m: int| 0 <= m < e - p implies rem[m] != '\n' by {
                assert(rem[m] == cs@[p + m]);
            }
            lemma_find_char_is(rem, '\n', e - p);
        } else {
            assert forall|m: int| 0 <= m < rem.len() implies rem[m] != '\n' by {
                assert(rem[m] == cs@[p + m]);
            }
            lemma_find_char_none(rem, '\n');
        }
    }
    let q: usize = if e > p && cs[e - 1] == '\r' {
        e - 1
    } else {
        e
    };
    let pn: usize = if e < n {
        e + 1
    } else {
        n
    };
    proof {
        let line = cs@.subrange(p as int, q as int);
        if e < n {
            let raw = rem.take(e - p);
            assert(raw =~= cs@.subrange(p as int, e as int));
            if e > p && cs@[e - 1] == '\r' {
                assert(raw.last() == cs@[e - 1]);
                assert(raw.drop_last() =~= line);
            } else {
                if raw.len() > 0 {
                    assert(raw.last() == cs@[e - 1]);
                }
                assert(strip_cr(raw) =~= line);
            }
            assert(strip_cr(raw) == line);
            assert(cs@.skip(pn as int) =~= rem.skip(e - p + 1));
            assert(split_lines(rem) == seq![line] + split_lines(cs@.skip(pn as int)));
        } else {
            if e > p && cs@[e - 1] == '\r' {
                assert(rem.last() == cs@[e - 1]);
                assert(rem.drop_last() =~= line);
            } else {
                if rem.len() > 0 {
                    assert(rem.last() == cs@[e - 1]);
                }
                assert(strip_cr(rem) =~= line);
            }
            assert(strip_cr(rem) == line);
            assert(split_lines(rem) == seq![line]);
            assert(cs@.skip(pn as int) =~= Seq::<char>::empty());
            assert(split_lines(cs@.skip(pn as int)) == Seq::<Seq<char>>::empty());
            assert(seq![line] + Seq::<Seq<char>>::empty() =~= seq![line]);
        }
    }
    (q, pn)
}

/// Builds a character-keyed table from a source blob.
fn load_char_table(cs: &Vec<char>) -> (t: CharTable)
    ensures
        t@ == char_map_of_source(cs@),
{
    let mut t = CharTable::new();
    let n: usize = cs.len();
    let mut p: usize = 0;
    proof {
        assert(cs@.skip(0) =~= cs@);
    }
    while p < n
        invariant
            p <= n,
            n == cs@.len(),
            char_map_of_source(cs@) == char_map_from(split_lines(cs@.skip(p as int)), t@),
        decreases n - p,
    {
        let ghost lines_rem = split_lines(cs@.skip(p as int));
        let ghost acc0 = t@;
        let (q, pn) = line_bounds(cs, p);
        let line = copy_range(cs, p, q);
        proof {
            assert(lines_rem[0] == line@);
            assert(lines_rem.drop_first() =~= split_lines(cs@.skip(pn as int)));
        }
        match split_two(&line) {
            Some(fields) => {
                let kf = trim_vec(&fields.0);
                let vf = trim_vec(&fields.1);
                if kf.len() > 0 && vf.len() > 0 {
                    t.insert(kf[0], vf[0]);
                    proof {
                        assert(char_entry(line@) == Some((kf@[0], vf@[0])));
                    }
                } else {
                    proof {
                        assert(char_entry(line@) is None);
                    }
                }
            },
            None => {
                proof {
                    assert(char_entry(line@) is None);
                }
            },
        }
        proof {
            assert(char_map_from(lines_rem, acc0) == char_map_from(
                split_lines(cs@.skip(pn as int)),
                t@,
            ));
        }
        p = pn;
    }
    proof {
        assert(cs@.skip(n as int) =~= Seq::<char>::empty());
        assert(split_lines(Seq::<char>::empty()) == Seq::<Seq<char>>::empty());
    }
    t
}

/// Builds the word table from a source blob.
fn load_word_table(cs: &Vec<char>) -> (t: WordTable)
    ensures
        t@ == word_map_of_source(cs@),
{
    let mut t = WordTable::new();
    let n: usize = cs.len();
    let mut p: usize = 0;
    proof {
        assert(cs@.skip(0) =~= cs@);
    }
    while p < n
        invariant
            p <= n,
            n == cs@.len(),
            word_map_of_source(cs@) == word_map_from(split_lines(cs@.skip(p as int)), t@),
        decreases n - p,
    {
        let ghost lines_rem = split_lines(cs@.skip(p as int));
        let ghost acc0 = t@;
        let (q, pn) = line_bounds(cs, p);
        let line = copy_range(cs, p, q);
        proof {
            assert(lines_rem[0] == line@);
            assert(lines_rem.drop_first() =~= split_lines(cs@.skip(pn as int)));
        }
        match split_two(&line) {
            Some(fields) => {
                let kf = trim_vec(&fields.0);
                let vf = trim_vec(&fields.1);
                let ghost gk = kf@;
                let ghost gv = vf@;
                t.insert(kf, vf);
                proof {
                    assert(word_entry(line@) == Some((gk, gv)));
                }
            },
            None => {
                proof {
                    assert(word_entry(line@) is None);
                }
            },
        }
        proof {
            assert(word_map_from(lines_rem, acc0) == word_map_from(
                split_lines(cs@.skip(pn as int)),
                t@,
            ));
        }
        p = pn;
    }
    proof {
        assert(cs@.skip(n as int) =~= Seq::<char>::empty());
        assert(split_lines(Seq::<char>::empty()) == Seq::<Seq<char>>::empty());
    }
    t
}

/// The three lookup tables, built once at startup and then only read.
pub struct Dictionary {
    /// General logographic-to-Hangul substitution, one code point each.
    pub char_dic: CharTable,
    /// The initial-sound (dueum) adjustment, applied after substitution.
    pub dueum_dic: CharTable,
    /// Irregular multi-character words.
    pub word_dic: WordTable,
}

/// Parses the three source blobs into the three lookup tables. A
/// malformed line — no comma, more than one comma, or (for the two
/// character-keyed tables) an empty trimmed field — is skipped, never an
/// error.
pub fn load_dictionary(char_src: &str, dueum_src: &str, word_src: &str) -> (d: Dictionary)
    ensures
        d.char_dic@ == char_map_of_source(char_src@),
        d.dueum_dic@ == char_map_of_source(dueum_src@),
        d.word_dic@ == word_map_of_source(word_src@),
{
    let char_cs = chars_vec(char_src);
    let dueum_cs = chars_vec(dueum_src);
    let word_cs = chars_vec(word_src);
    Dictionary {
        char_dic: load_char_table(&char_cs),
        dueum_dic: load_char_table(&dueum_cs),
        word_dic: load_word_table(&word_cs),
    }
}

/// Parses the three source blobs and shares the result behind an `Arc`,
/// to be handed read-only to every conversion call.
pub fn load_arc_dictionary(char_src: &str, dueum_src: &str, word_src: &str) -> (d: Arc<Dictionary>)
    ensures
        d.char_dic@ == char_map_of_source(char_src@),
        d.dueum_dic@ == char_map_of_source(dueum_src@),
        d.word_dic@ == word_map_of_source(word_src@),
{
    Arc::new(load_dictionary(char_src, dueum_src, word_src))
}

} // verus!
