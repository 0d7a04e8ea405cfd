//! The conversion engine: a single pass over the input that replaces
//! logographic (Hanja) characters by their Hangul equivalents, using the
//! three dictionary tables.
//!
//! At each position the engine first offers the whole maximal run of
//! logographic characters to the word table; on a miss it consumes one
//! character, substitutes it through the character table, and applies the
//! initial-sound adjustment when a Hangul-or-logographic character
//! follows. Only decreasing-length suffixes of a maximal run are ever
//! offered to the word table; shorter prefixes at the same offset are not
//! retried.

use vstd::prelude::*;
use crate::classify::{is_chi, is_hangul_or_logographic, is_kor_or_chi, is_logographic};
use crate::table::{CharTable, WordTable};
use crate::text::{chars_vec, copy_range, string_of_chars};

verus! {

/// The length of the maximal run of logographic characters at the front
/// of `s`.
pub open spec fn hanja_run_len(s: Seq<char>) -> int
    decreases s.len(),
{
    if s.len() > 0 && is_logographic(s[0]) {
        1 + hanja_run_len(s.drop_first())
    } else {
        0
    }
}

/// Whether the single-character path replaces `c` through the character
/// table (this is what sets the "any substitution occurred" flag).
pub open spec fn char_substituted(c: char, cd: Map<char, char>) -> bool {
    is_logographic(c) && cd.contains_key(c)
}

/// The character the single-character path emits for `c`, given the
/// following character `next` (if any): a logographic `c` is substituted
/// through the character table, and the result receives the
/// initial-sound adjustment when a Hangul-or-logographic character
/// follows.
pub open spec fn working_char(
    c: char,
    next: Option<char>,
    cd: Map<char, char>,
    dd: Map<char, char>,
) -> char {
    if is_logographic(c) {
        let m = if cd.contains_key(c) {
            cd[c]
        } else {
            c
        };
        if next is Some && is_hangul_or_logographic(next->0) && dd.contains_key(m) {
            dd[m]
        } else {
            m
        }
    } else {
        c
    }
}

proof fn lemma_run_len_bounds(s: Seq<char>)
    ensures
        0 <= hanja_run_len(s) <= s.len(),
    decreases s.len(),
{
    if s.len() > 0 && is_logographic(s[0]) {
        lemma_run_len_bounds(s.drop_first());
    }
}

/// The run length is the unique `r` such that the first `r` characters
/// are logographic and the run stops there.
proof fn lemma_run_len_is(s: Seq<char>, r: int)
    requires
        0 <= r <= s.len(),
        forall|k: int| 0 <= k < r ==> is_logographic(s[k]),
        r == s.len() || !is_logographic(s[r]),
    ensures
        hanja_run_len(s) == r,
    decreases s.len(),
{
    if r == 0 {
    } else {
        let t = s.drop_first();
        assert(is_logographic(s[0]));
        assert forall|k: int| 0 <= k < r - 1 implies is_logographic(t[k]) by {
            assert(t[k] == s[k + 1]);
        }
        if r - 1 < t.len() {
            assert(t[r - 1] == s[r]);
        }
        lemma_run_len_is(t, r - 1);
    }
}

/// The output and the "any substitution occurred" flag of one engine run
/// over `s` with character table `cd`, initial-sound table `dd` and word
/// table `wd`.
pub open spec fn convert_spec(
    s: Seq<char>,
    cd: Map<char, char>,
    dd: Map<char, char>,
    wd: Map<Seq<char>, Seq<char>>,
) -> (Seq<char>, bool)
    decreases s.len(),
    via convert_spec_decreases
{
    if s.len() == 0 {
        (Seq::empty(), false)
    } else {
        let r = hanja_run_len(s);
        if r > 0 && wd.contains_key(s.take(r)) {
            let rest = convert_spec(s.skip(r), cd, dd, wd);
            (wd[s.take(r)] + rest.0, true)
        } else {
            let next = if s.len() > 1 {
                Some(s[1])
            } else {
                None
            };
            let w = working_char(s[0], next, cd, dd);
            let rest = convert_spec(s.drop_first(), cd, dd, wd);
            (seq![w] + rest.0, char_substituted(s[0], cd) || rest.1)
        }
    }
}

#[via_fn]
proof fn convert_spec_decreases(
    s: Seq<char>,
    cd: Map<char, char>,
    dd: Map<char, char>,
    wd: Map<Seq<char>, Seq<char>>,
) {
    lemma_run_len_bounds(s);
}

/// The index just past the maximal logographic run of `cs` that starts
/// at `i`.
fn scan_run(cs: &Vec<char>, i: usize) -> (j: usize)
    requires
        i <= cs@.len(),
    ensures
        i <= j <= cs@.len(),
        hanja_run_len(cs@.skip(i as int)) == j - i,
        forall|k: int| i <= k < j ==> is_logographic(cs@[k]),
{
    let n: usize = cs.len();
    let mut j: usize = i;
    loop
        invariant
            i <= j <= n,
            n == cs@.len(),
            forall|k: int| i <= k < j ==> is_logographic(cs@[k]),
        ensures
            i <= j <= n,
            forall|k: int| i <= k < j ==> is_logographic(cs@[k]),
            j == n || !is_logographic(cs@[j as int]),
        decreases n - j,
    {
        if j == n {
            break ;
        }
        if !is_chi(&cs[j]) {
            break ;
        }
        j = j + 1;
    }
    proof {
        let rem = cs@.skip(i as int);
        let r = j - i;
        assert forall|k: int| 0 <= k < r implies is_logographic(rem[k]) by {
            assert(rem[k] == cs@[i + k]);
        }
        if (j as int) < cs@.len() {
            assert(rem[r] == cs@[j as int]);
        }
        lemma_run_len_is(rem, r);
    }
    j
}

/// Appends the characters of `v` to `out`.
fn append_chars(out: &mut Vec<char>, v: &Vec<char>)
    ensures
        final(out)@ == old(out)@ + v@,
{
    let n: usize = v.len();
    let mut k: usize = 0;
    while k < n
        invariant
            n == v@.len(),
            k <= n,
            out@ == old(out)@ + v@.take(k as int),
        decreases n - k,
    {
        out.push(v[k]);
        proof {
            assert(old(out)@ + v@.take(k as int + 1) =~= (old(out)@ + v@.take(k as int)).push(
                v@[k as int],
            ));
        }
        k = k + 1;
    }
    proof {
        assert(v@.take(n as int) =~= v@);
    }
}

/// Converts the logographic characters of `input_str` to Hangul. Returns
/// the converted text, or `None` when no substitution occurred anywhere
/// (neither a word-table hit nor a character-table hit).
pub fn convert_str(
    input_str: &str,
    char_dic: &CharTable,
    dueum_dic: &CharTable,
    word_dic: &WordTable,
) -> (r: Option<String>)
    ensures
        ({
            let cv = convert_spec(input_str@, char_dic@, dueum_dic@, word_dic@);
            match r {
                Some(out) => cv.1 && out@ == cv.0,
                None => !cv.1,
            }
        }),
{
    let ghost s = input_str@;
    let ghost cd = char_dic@;
    let ghost dd = dueum_dic@;
    let ghost wd = word_dic@;
    let cs = chars_vec(input_str);
    let n: usize = cs.len();
    let mut out: Vec<char> = Vec::new();
    let mut changed: bool = false;
    let mut i: usize = 0;
    proof {
        assert(s.skip(0) =~= s);
        assert(out@ + convert_spec(s, cd, dd, wd).0 =~= convert_spec(s, cd, dd, wd).0);
    }
    while i < n
        invariant
            n == cs@.len(),
            cs@ == s,
            i <= n,
            cd == char_dic@,
            dd == dueum_dic@,
            wd == word_dic@,
            convert_spec(s, cd, dd, wd).0 == out@ + convert_spec(s.skip(i as int), cd, dd, wd).0,
            convert_spec(s, cd, dd, wd).1 == (changed || convert_spec(
                s.skip(i as int),
                cd,
                dd,
                wd,
            ).1),
        decreases n - i,
    {
        let ghost rem = s.skip(i as int);
        let ghost prev_out = out@;
        let ghost prev_changed = changed;
        let j = scan_run(&cs, i);
        let ghost r = j - i;
        if j > i {
            let run = copy_range(&cs, i, j);
            proof {
                assert(run@ =~= rem.take(r));
            }
            match word_dic.get(&run) {
                Some(val) => {
                    append_chars(&mut out, val);
                    changed = true;
                    proof {
                        assert(convert_spec(rem, cd, dd, wd).0 == wd[rem.take(r)] + convert_spec(
                            rem.skip(r),
                            cd,
                            dd,
                            wd,
                        ).0);
                        assert(convert_spec(rem, cd, dd, wd).1);
                        assert(rem.skip(r) =~= s.skip(j as int));
                        assert(prev_out + (val@ + convert_spec(s.skip(j as int), cd, dd, wd).0)
                            =~= out@ + convert_spec(s.skip(j as int), cd, dd, wd).0);
                    }
                    i = j;
                    continue ;
                },
                None => {
                    proof {
                        assert(!wd.contains_key(rem.take(r)));
                    }
                },
            }
        }
        // Single-character path: the run was empty or missed the word
        // table; consume one character.
        let c = cs[i];
        let mut new_c = c;
        let mut hit: bool = false;
        if is_chi(&c) {
            match char_dic.get(c) {
                Some(v) => {
                    new_c = v;
                    hit = true;
                },
                None => {},
            }
            if i + 1 < n {
                if is_kor_or_chi(&cs[i + 1]) {
                    match dueum_dic.get(new_c) {
                        Some(v2) => {
                            new_c = v2;
                        },
                        None => {},
                    }
                }
            }
        }
        out.push(new_c);
        if hit {
            changed = true;
        }
        proof {
            let next = if rem.len() > 1 {
                Some(rem[1])
            } else {
                None
            };
            assert(rem[0] == s[i as int]);
            if i + 1 < n {
                assert(rem[1] == s[i + 1]);
            }
            assert(new_c == working_char(rem[0], next, cd, dd));
            assert(hit == char_substituted(rem[0], cd));
            assert(convert_spec(rem, cd, dd, wd).0 == seq![new_c] + convert_spec(
                rem.drop_first(),
                cd,
                dd,
                wd,
            ).0);
            assert(convert_spec(rem, cd, dd, wd).1 == (hit || convert_spec(
                rem.drop_first(),
                cd,
                dd,
                wd,
            ).1));
            assert(rem.drop_first() =~= s.skip(i + 1));
            assert(prev_out + (seq![new_c] + convert_spec(s.skip(i + 1), cd, dd, wd).0) =~= out@
                + convert_spec(s.skip(i + 1), cd, dd, wd).0);
        }
        i = i + 1;
    }
    proof {
        assert(s.skip(n as int) =~= Seq::<char>::empty());
        assert(convert_spec(s, cd, dd, wd).0 =~= out@);
    }
    if !changed {
        return None;
    }
    Some(string_of_chars(&out))
}

/// If no character of the input is logographic, the engine leaves the
/// text as it is and reports "unchanged": no word-table run can start
/// and no character-table substitution can fire.
pub proof fn lemma_no_logographic_unchanged(
    s: Seq<char>,
    cd: Map<char, char>,
    dd: Map<char, char>,
    wd: Map<Seq<char>, Seq<char>>,
)
    requires
        forall|k: int| 0 <= k < s.len() ==> !is_logographic(s[k]),
    ensures
        convert_spec(s, cd, dd, wd).0 == s,
        !convert_spec(s, cd, dd, wd).1,
    decreases s.len(),
{
    if s.len() == 0 {
        assert(convert_spec(s, cd, dd, wd).0 =~= s);
    } else {
        assert(!is_logographic(s[0]));
        assert(hanja_run_len(s) == 0);
        let t = s.drop_first();
        assert forall|k: int| 0 <= k < t.len() implies !is_logographic(t[k]) by {
            assert(t[k] == s[k + 1]);
        }
        lemma_no_logographic_unchanged(t, cd, dd, wd);
        assert(convert_spec(s, cd, dd, wd).0 =~= s);
    }
}

/// An input made only of Hangul syllables is never changed: the Hangul
/// block is disjoint from the four logographic blocks.
pub proof fn lemma_hangul_only_unchanged(
    s: Seq<char>,
    cd: Map<char, char>,
    dd: Map<char, char>,
    wd: Map<Seq<char>, Seq<char>>,
)
    requires
        forall|k: int| 0 <= k < s.len() ==> crate::classify::is_hangul(s[k]),
    ensures
        convert_spec(s, cd, dd, wd).0 == s,
        !convert_spec(s, cd, dd, wd).1,
{
    assert forall|k: int| 0 <= k < s.len() implies !is_logographic(s[k]) by {
        assert(crate::classify::is_hangul(s[k]));
    }
    lemma_no_logographic_unchanged(s, cd, dd, wd);
}

/// Re-running the engine on its own output returns "unchanged" whenever
/// that output contains no leftover logographic character: no
/// substitution can fire a second time.
pub proof fn lemma_reconvert_unchanged(
    s: Seq<char>,
    t: Seq<char>,
    cd: Map<char, char>,
    dd: Map<char, char>,
    wd: Map<Seq<char>, Seq<char>>,
)
    requires
        t == convert_spec(s, cd, dd, wd).0,
        forall|k: int| 0 <= k < t.len() ==> !is_logographic(t[k]),
    ensures
        convert_spec(t, cd, dd, wd).0 == t,
        !convert_spec(t, cd, dd, wd).1,
{
    lemma_no_logographic_unchanged(t, cd, dd, wd);
}

/// With all three tables empty, any input whatever is left as it is and
/// reported "unchanged".
pub proof fn lemma_empty_maps_unchanged(
    s: Seq<char>,
    cd: Map<char, char>,
    dd: Map<char, char>,
    wd: Map<Seq<char>, Seq<char>>,
)
    requires
        cd == Map::<char, char>::empty(),
        dd == Map::<char, char>::empty(),
        wd == Map::<Seq<char>, Seq<char>>::empty(),
    ensures
        convert_spec(s, cd, dd, wd).0 == s,
        !convert_spec(s, cd, dd, wd).1,
    decreases s.len(),
{
    if s.len() == 0 {
        assert(convert_spec(s, cd, dd, wd).0 =~= s);
    } else {
        let r = hanja_run_len(s);
        assert(!wd.contains_key(s.take(r)));
        assert(!cd.contains_key(s[0]));
        let t = s.drop_first();
        lemma_empty_maps_unchanged(t, cd, dd, wd);
        assert(convert_spec(s, cd, dd, wd).0 =~= s);
    }
}

} // verus!
