//! Plain-text machinery: decimal rendering, line splitting, heading
//! stripping, and the inline photo-placeholder grammar with its
//! first-occurrence replacement.

use vstd::prelude::*;

verus! {

// ---------------------------------------------------------------------------
// Decimal rendering of unsigned numbers.
// ---------------------------------------------------------------------------

pub open spec fn digit_char(d: int) -> char {
    if d == 0 {
        '0'
    } else if d == 1 {
        '1'
    } else if d == 2 {
        '2'
    } else if d == 3 {
        '3'
    } else if d == 4 {
        '4'
    } else if d == 5 {
        '5'
    } else if d == 6 {
        '6'
    } else if d == 7 {
        '7'
    } else if d == 8 {
        '8'
    } else {
        '9'
    }
}

/// The usual decimal notation of `n`, without padding.
pub open spec fn dec_of(n: int) -> Seq<char>
    decreases n,
{
    if n <= 9 {
        seq![digit_char(n)]
    } else {
        dec_of(n / 10) + seq![digit_char(n % 10)]
    }
}

fn digit_str(d: u32) -> (r: &'static str)
    requires
        d <= 9,
    ensures
        r@ == seq![digit_char(d as int)],
{
    if d == 0 {
        proof { reveal_strlit("0"); }
        "0"
    } else if d == 1 {
        proof { reveal_strlit("1"); }
        "1"
    } else if d == 2 {
        proof { reveal_strlit("2"); }
        "2"
    } else if d == 3 {
        proof { reveal_strlit("3"); }
        "3"
    } else if d == 4 {
        proof { reveal_strlit("4"); }
        "4"
    } else if d == 5 {
        proof { reveal_strlit("5"); }
        "5"
    } else if d == 6 {
        proof { reveal_strlit("6"); }
        "6"
    } else if d == 7 {
        proof { reveal_strlit("7"); }
        "7"
    } else if d == 8 {
        proof { reveal_strlit("8"); }
        "8"
    } else {
        proof { reveal_strlit("9"); }
        "9"
    }
}

pub fn u32_string(n: u32) -> (r: String)
    ensures
        r@ == dec_of(n as int),
    decreases n,
{
    if n <= 9 {
        digit_str(n).to_owned()
    } else {
        let mut r = u32_string(n / 10);
        r.append(digit_str(n % 10));
        r
    }
}

/// The view of an optional string.
pub open spec fn opt_seq(o: Option<String>) -> Option<Seq<char>> {
    match o {
        Some(s) => Some(s@),
        None => None,
    }
}

// ---------------------------------------------------------------------------
// Character-for-character string equality.
// ---------------------------------------------------------------------------

pub fn str_eq(a: &str, b: &str) -> (r: bool)
    ensures
        r == (a@ == b@),
{
    let n = a.unicode_len();
    if n != b.unicode_len() {
        return false;
    }
    let mut k: usize = 0;
    while k < n
        invariant
            n == a@.len(),
            n == b@.len(),
            k <= n,
            forall|t: int| 0 <= t < k ==> a@[t] == b@[t],
        decreases n - k,
    {
        if a.get_char(k) != b.get_char(k) {
            return false;
        }
        k += 1;
    }
    proof {
        assert(a@ =~= b@);
    }
    true
}

// ---------------------------------------------------------------------------
// Lines, in the sense of `str::lines`: pieces split at `'\n'`, each with one
// trailing `'\r'` removed, the final piece dropped when empty.
// ---------------------------------------------------------------------------

pub open spec fn strip_cr(s: Seq<char>) -> Seq<char> {
    if s.len() > 0 && s.last() == '\r' {
        s.drop_last()
    } else {
        s
    }
}

/// Helper for `spec_lines`: the remaining input together with the part of the
/// current line read so far.
pub open spec fn spec_lines_acc(s: Seq<char>, cur: Seq<char>) -> Seq<Seq<char>>
    decreases s.len(),
{
    if s.len() == 0 {
        if cur.len() > 0 {
            seq![strip_cr(cur)]
        } else {
            Seq::empty()
        }
    } else if s[0] == '\n' {
        seq![strip_cr(cur)] + spec_lines_acc(s.drop_first(), Seq::empty())
    } else {
        spec_lines_acc(s.drop_first(), cur.push(s[0]))
    }
}

pub open spec fn spec_lines(s: Seq<char>) -> Seq<Seq<char>> {
    spec_lines_acc(s, Seq::empty())
}

pub open spec fn views(l: Seq<String>) -> Seq<Seq<char>> {
    l.map_values(|x: String| x@)
}

/// Splits `s` into its lines.
pub fn lines_of(s: &str) -> (r: Vec<String>)
    ensures
        views(r@) == spec_lines(s@),
{
    let n = s.unicode_len();
    let mut out: Vec<String> = Vec::new();
    let mut ls: usize = 0;
    let mut j: usize = 0;
    proof {
        assert(s@.skip(0) =~= s@);
        assert(s@.subrange(0, 0) =~= Seq::<char>::empty());
        assert(views(out@) =~= Seq::<Seq<char>>::empty());
        assert(views(out@) + spec_lines_acc(s@, Seq::empty()) =~= spec_lines_acc(
            s@,
            Seq::empty(),
        ));
    }
    while j < n
        invariant
            n == s@.len(),
            ls <= j <= n,
            views(out@) + spec_lines_acc(s@.skip(j as int), s@.subrange(ls as int, j as int))
                == spec_lines(s@),
        decreases n - j,
    {
        let c = s.get_char(j);
        proof {
            assert(s@.skip(j as int).len() == n - j);
            assert(s@.skip(j as int)[0] == s@[j as int]);
            assert(s@.skip(j as int).drop_first() =~= s@.skip(j as int + 1));
        }
        if c == '\n' {
            let line = if j > ls && s.get_char(j - 1) == '\r' {
                s.substring_char(ls, j - 1)
            } else {
                s.substring_char(ls, j)
            };
            let line_s = line.to_owned();
            proof {
                assert(line_s@ =~= strip_cr(s@.subrange(ls as int, j as int)));
                assert(views(out@.push(line_s)) =~= views(out@) + seq![line_s@]);
                assert(views(out@) + (seq![line_s@] + spec_lines_acc(
                    s@.skip(j as int + 1),
                    Seq::empty(),
                )) =~= (views(out@) + seq![line_s@]) + spec_lines_acc(
                    s@.skip(j as int + 1),
                    Seq::empty(),
                ));
                assert(s@.subrange(j as int + 1, j as int + 1) =~= Seq::<char>::empty());
            }
            out.push(line_s);
            j += 1;
            ls = j;
        } else {
            proof {
                assert(s@.subrange(ls as int, j as int).push(s@[j as int]) =~= s@.subrange(
                    ls as int,
                    j as int + 1,
                ));
            }
            j += 1;
        }
    }
    if ls < n {
        let line = if s.get_char(n - 1) == '\r' {
            s.substring_char(ls, n - 1)
        } else {
            s.substring_char(ls, n)
        };
        let line_s = line.to_owned();
        proof {
            assert(s@.skip(n as int) =~= Seq::<char>::empty());
            assert(line_s@ =~= strip_cr(s@.subrange(ls as int, n as int)));
            assert(views(out@.push(line_s)) =~= views(out@) + seq![line_s@]);
        }
        out.push(line_s);
    } else {
        proof {
            assert(s@.skip(j as int) =~= Seq::<char>::empty());
            assert(s@.subrange(ls as int, j as int) =~= Seq::<char>::empty());
            assert(views(out@) + Seq::<Seq<char>>::empty() =~= views(out@));
        }
    }
    out
}

/// The lines joined again with `'\n'` between them.
pub open spec fn spec_join(ls: Seq<Seq<char>>) -> Seq<char>
    decreases ls.len(),
{
    if ls.len() == 0 {
        Seq::empty()
    } else if ls.len() == 1 {
        ls[0]
    } else {
        spec_join(ls.drop_last()) + seq!['\n'] + ls.last()
    }
}

/// Joins the lines from position `start` on with `'\n'`.
pub fn join_tail(lines: &Vec<String>, start: usize) -> (r: String)
    requires
        start <= lines@.len(),
    ensures
        r@ == spec_join(views(lines@).skip(start as int)),
{
    let n = lines.len();
    let mut out = String::new();
    let mut i: usize = start;
    while i < n
        invariant
            n == lines@.len(),
            start <= i <= n,
            out@ == spec_join(views(lines@).subrange(start as int, i as int)),
        decreases n - i,
    {
        proof {
            reveal_strlit("\n");
            assert(views(lines@).subrange(start as int, i as int + 1).drop_last() =~= views(
                lines@,
            ).subrange(start as int, i as int));
            assert(views(lines@).subrange(start as int, i as int + 1).last() == lines@[i as int]@);
        }
        if i > start {
            out.append("\n");
        }
        out.append(lines[i].as_str());
        i += 1;
    }
    proof {
        assert(views(lines@).subrange(start as int, n as int) =~= views(lines@).skip(start as int));
    }
    out
}

// ---------------------------------------------------------------------------
// Markdown heading markers: a run of `#` followed by one whitespace
// character at the start of a line.
// ---------------------------------------------------------------------------

/// Whitespace as the heading marker accepts it (the ASCII whitespace
/// characters).
pub open spec fn is_space(c: char) -> bool {
    c == ' ' || c == '\t' || c == '\r' || c == '\n' || c == '\u{b}' || c == '\u{c}'
}

pub open spec fn hash_run(s: Seq<char>) -> int
    decreases s.len(),
{
    if s.len() > 0 && s[0] == '#' {
        1 + hash_run(s.drop_first())
    } else {
        0
    }
}

/// A line with a single leading heading marker removed; a line without one,
/// unchanged.
pub open spec fn strip_heading(s: Seq<char>) -> Seq<char> {
    let h = hash_run(s);
    if 1 <= h && h < s.len() && is_space(s[h]) {
        s.subrange(h + 1, s.len() as int)
    } else {
        s
    }
}

proof fn lemma_hash_run_is(s: Seq<char>, k: int)
    requires
        0 <= k <= s.len(),
        forall|t: int| 0 <= t < k ==> s[t] == '#',
        k == s.len() || s[k] != '#',
    ensures
        hash_run(s) == k,
    decreases k,
{
    if k == 0 {
    } else {
        assert(s[0] == '#');
        lemma_hash_run_is(s.drop_first(), k - 1);
    }
}

fn is_space_c(c: char) -> (b: bool)
    ensures
        b == is_space(c),
{
    c == ' ' || c == '\t' || c == '\r' || c == '\n' || c == '\u{b}' || c == '\u{c}'
}

/// Removes a single leading heading marker from a line.
pub fn strip_heading_line(line: &str) -> (r: String)
    ensures
        r@ == strip_heading(line@),
{
    let n = line.unicode_len();
    let mut k: usize = 0;
    while k < n && line.get_char(k) == '#'
        invariant
            n == line@.len(),
            k <= n,
            forall|t: int| 0 <= t < k ==> line@[t] == '#',
        decreases n - k,
    {
        k += 1;
    }
    proof {
        lemma_hash_run_is(line@, k as int);
    }
    if 1 <= k && k < n && is_space_c(line.get_char(k)) {
        line.substring_char(k + 1, n).to_owned()
    } else {
        line.to_owned()
    }
}

/// The first line of a text, as `str::lines` would hand it out.
pub open spec fn line_prefix(s: Seq<char>) -> Seq<char>
    decreases s.len(),
{
    if s.len() == 0 {
        Seq::empty()
    } else if s[0] == '\n' {
        Seq::empty()
    } else {
        seq![s[0]] + line_prefix(s.drop_first())
    }
}

pub open spec fn spec_first_line(s: Seq<char>) -> Seq<char> {
    strip_cr(line_prefix(s))
}

pub fn first_line(s: &str) -> (r: String)
    ensures
        r@ == spec_first_line(s@),
{
    let n = s.unicode_len();
    let mut j: usize = 0;
    proof {
        assert(s@.skip(0) =~= s@);
        assert(s@.subrange(0, 0) + line_prefix(s@) =~= line_prefix(s@));
    }
    while j < n && s.get_char(j) != '\n'
        invariant
            n == s@.len(),
            j <= n,
            line_prefix(s@) == s@.subrange(0, j as int) + line_prefix(s@.skip(j as int)),
        decreases n - j,
    {
        proof {
            assert(s@.skip(j as int).len() == n - j);
            assert(s@.skip(j as int)[0] == s@[j as int]);
            assert(s@.skip(j as int).drop_first() =~= s@.skip(j as int + 1));
            assert(s@.subrange(0, j as int) + (seq![s@[j as int]] + line_prefix(
                s@.skip(j as int + 1),
            )) =~= s@.subrange(0, j as int + 1) + line_prefix(s@.skip(j as int + 1)));
        }
        j += 1;
    }
    proof {
        if j < n {
            assert(s@.skip(j as int).len() == n - j);
            assert(s@.skip(j as int)[0] == s@[j as int]);
            assert(line_prefix(s@.skip(j as int)) =~= Seq::<char>::empty());
        } else {
            assert(s@.skip(j as int) =~= Seq::<char>::empty());
        }
        assert(line_prefix(s@) =~= s@.subrange(0, j as int));
    }
    if j > 0 && s.get_char(j - 1) == '\r' {
        let r = s.substring_char(0, j - 1);
        proof {
            assert(r@ =~= strip_cr(s@.subrange(0, j as int)));
        }
        r.to_owned()
    } else {
        let r = s.substring_char(0, j);
        proof {
            assert(r@ =~= strip_cr(s@.subrange(0, j as int)));
        }
        r.to_owned()
    }
}

// ---------------------------------------------------------------------------
// Inline photo placeholders.
//
// Two grammars appear in an entry: the markdown form
// `![](dayone-moment://…)` on a title line, and the converted form
// `[[dayone-moment://…]]` in a body.  Replacement always targets the
// leftmost occurrence.
// ---------------------------------------------------------------------------

pub open spec fn has_prefix_at(s: Seq<char>, i: int, p: Seq<char>) -> bool {
    0 <= i && i + p.len() <= s.len() && s.subrange(i, i + p.len()) == p
}

/// `s[i..j]` is a markdown photo placeholder: the fixed prefix, at least one
/// character other than `')'`, then `')'`.
pub open spec fn md_photo_at(s: Seq<char>, i: int, j: int) -> bool {
    &&& has_prefix_at(s, i, "![](dayone-moment://"@)
    &&& i + 22 <= j <= s.len()
    &&& s[j - 1] == ')'
    &&& forall|t: int| i + 20 <= t < j - 1 ==> s[t] != ')'
}

pub open spec fn md_start(s: Seq<char>, i: int) -> bool {
    exists|j: int| md_photo_at(s, i, j)
}

pub open spec fn has_md(s: Seq<char>) -> bool {
    exists|i: int| md_start(s, i)
}

pub open spec fn md_first_i(s: Seq<char>) -> int {
    choose|i: int| md_start(s, i) && (forall|i2: int| 0 <= i2 < i ==> !md_start(s, i2))
}

pub open spec fn md_first_j(s: Seq<char>) -> int {
    choose|j: int| md_photo_at(s, md_first_i(s), j)
}

/// The leftmost markdown placeholder replaced by `link`; `s` itself when
/// there is none.
pub open spec fn md_replace(s: Seq<char>, link: Seq<char>) -> Seq<char> {
    if has_md(s) {
        s.subrange(0, md_first_i(s)) + link + s.subrange(md_first_j(s), s.len() as int)
    } else {
        s
    }
}

/// `s[i..j]` is a converted photo placeholder: the fixed prefix, at least
/// one character other than `']'`, then `]]`.
pub open spec fn org_photo_at(s: Seq<char>, i: int, j: int) -> bool {
    &&& has_prefix_at(s, i, "[[dayone-moment://"@)
    &&& i + 21 <= j <= s.len()
    &&& s[j - 2] == ']'
    &&& s[j - 1] == ']'
    &&& forall|t: int| i + 18 <= t < j - 2 ==> s[t] != ']'
}

pub open spec fn org_start(s: Seq<char>, i: int) -> bool {
    exists|j: int| org_photo_at(s, i, j)
}

pub open spec fn has_org(s: Seq<char>) -> bool {
    exists|i: int| org_start(s, i)
}

pub open spec fn org_first_i(s: Seq<char>) -> int {
    choose|i: int| org_start(s, i) && (forall|i2: int| 0 <= i2 < i ==> !org_start(s, i2))
}

pub open spec fn org_first_j(s: Seq<char>) -> int {
    choose|j: int| org_photo_at(s, org_first_i(s), j)
}

/// The leftmost converted placeholder replaced by `link`; `s` itself when
/// there is none.
pub open spec fn org_replace(s: Seq<char>, link: Seq<char>) -> Seq<char> {
    if has_org(s) {
        s.subrange(0, org_first_i(s)) + link + s.subrange(org_first_j(s), s.len() as int)
    } else {
        s
    }
}

proof fn lemma_md_j_unique(s: Seq<char>, i: int, j1: int, j2: int)
    requires
        md_photo_at(s, i, j1),
        md_photo_at(s, i, j2),
    ensures
        j1 == j2,
{
    if j1 < j2 {
        assert(s[j1 - 1] == ')');
        assert(i + 20 <= j1 - 1 < j2 - 1);
        assert(false);
    }
    if j2 < j1 {
        assert(s[j2 - 1] == ')');
        assert(i + 20 <= j2 - 1 < j1 - 1);
        assert(false);
    }
}

proof fn lemma_org_j_unique(s: Seq<char>, i: int, j1: int, j2: int)
    requires
        org_photo_at(s, i, j1),
        org_photo_at(s, i, j2),
    ensures
        j1 == j2,
{
    if j1 < j2 {
        if j2 == j1 + 1 {
            assert(s[j1 - 2] == ']');
            assert(i + 18 <= j1 - 2 < j2 - 2);
            assert(false);
        } else {
            assert(s[j1 - 1] == ']');
            assert(i + 18 <= j1 - 1 < j2 - 2);
            assert(false);
        }
    }
    if j2 < j1 {
        if j1 == j2 + 1 {
            assert(s[j2 - 2] == ']');
            assert(i + 18 <= j2 - 2 < j1 - 2);
            assert(false);
        } else {
            assert(s[j2 - 1] == ']');
            assert(i + 18 <= j2 - 1 < j1 - 2);
            assert(false);
        }
    }
}

/// True when the characters of `pat` stand in `s` at position `i`.
fn match_at(s: &str, n: usize, i: usize, pat: &str) -> (b: bool)
    requires
        n == s@.len(),
        i <= n,
    ensures
        b == has_prefix_at(s@, i as int, pat@),
{
    let m = pat.unicode_len();
    if m > n - i {
        return false;
    }
    let mut k: usize = 0;
    while k < m
        invariant
            n == s@.len(),
            m == pat@.len(),
            i + m <= n,
            k <= m,
            forall|t: int| 0 <= t < k ==> s@[i + t] == pat@[t],
        decreases m - k,
    {
        if s.get_char(i + k) != pat.get_char(k) {
            proof {
                assert(!(s@.subrange(i as int, i + m) == pat@)) by {
                    if s@.subrange(i as int, i + m) == pat@ {
                        assert(s@.subrange(i as int, i + m)[k as int] == s@[i + k]);
                    }
                }
            }
            return false;
        }
        k += 1;
    }
    proof {
        assert(s@.subrange(i as int, i + m) =~= pat@);
    }
    true
}

/// Finds the leftmost markdown photo placeholder.
pub fn find_md(s: &str) -> (r: Option<(usize, usize)>)
    ensures
        match r {
            Some(p) => md_photo_at(s@, p.0 as int, p.1 as int) && (forall|i2: int|
                0 <= i2 < p.0 ==> !md_start(s@, i2)),
            None => !has_md(s@),
        },
{
    let n = s.unicode_len();
    let mut i: usize = 0;
    while i < n
        invariant
            n == s@.len(),
            i <= n,
            forall|i2: int| 0 <= i2 < i ==> !md_start(s@, i2),
        decreases n - i,
    {
        let pat = "![](dayone-moment://";
        if match_at(s, n, i, pat) {
            proof {
                reveal_strlit("![](dayone-moment://");
                assert(pat@.len() == 20);
                assert(i + 20 <= n);
            }
            // scan for the first ')' after the prefix
            let mut k: usize = i + 20;
            while k < n && s.get_char(k) != ')'
                invariant
                    n == s@.len(),
                    i + 20 <= k <= n,
                    forall|t: int| i + 20 <= t < k ==> s@[t] != ')',
                decreases n - k,
            {
                k += 1;
            }
            if k < n && k > i + 20 {
                // placeholder spans [i, k+1)
                proof {
                    reveal_strlit("![](dayone-moment://");
                    assert(md_photo_at(s@, i as int, k as int + 1));
                }
                return Some((i, k + 1));
            }
            proof {
                reveal_strlit("![](dayone-moment://");
                assert forall|j: int| !md_photo_at(s@, i as int, j) by {
                    if md_photo_at(s@, i as int, j) {
                        assert(i + 22 <= j <= n);
                        assert(s@[j - 1] == ')');
                        if k < n {
                            // the scan stopped on a ')' right after the prefix
                            assert(k == i + 20);
                            assert(s@[k as int] == ')');
                            assert(s@[i + 20] != ')');
                        } else {
                            // no ')' anywhere after the prefix
                            assert(i + 20 <= j - 1 < n);
                            assert(s@[j - 1] != ')');
                        }
                    }
                }
                assert(!md_start(s@, i as int));
            }
        } else {
            proof {
                assert(!md_start(s@, i as int));
            }
        }
        i += 1;
    }
    proof {
        assert forall|i2: int| !md_start(s@, i2) by {
            reveal_strlit("![](dayone-moment://");
            if md_start(s@, i2) {
                let j = choose|j: int| md_photo_at(s@, i2, j);
                assert(has_prefix_at(s@, i2, "![](dayone-moment://"@));
                assert(0 <= i2 && i2 + 20 <= n);
            }
        }
    }
    None
}

/// Finds the leftmost converted photo placeholder.
pub fn find_org(s: &str) -> (r: Option<(usize, usize)>)
    ensures
        match r {
            Some(p) => org_photo_at(s@, p.0 as int, p.1 as int) && (forall|i2: int|
                0 <= i2 < p.0 ==> !org_start(s@, i2)),
            None => !has_org(s@),
        },
{
    let n = s.unicode_len();
    let mut i: usize = 0;
    while i < n
        invariant
            n == s@.len(),
            i <= n,
            forall|i2: int| 0 <= i2 < i ==> !org_start(s@, i2),
        decreases n - i,
    {
        let pat = "[[dayone-moment://";
        if match_at(s, n, i, pat) {
            proof {
                reveal_strlit("[[dayone-moment://");
                assert(pat@.len() == 18);
                assert(i + 18 <= n);
            }
            let mut k: usize = i + 18;
            while k < n && s.get_char(k) != ']'
                invariant
                    n == s@.len(),
                    i + 18 <= k <= n,
                    forall|t: int| i + 18 <= t < k ==> s@[t] != ']',
                decreases n - k,
            {
                k += 1;
            }
            if k < n && k > i + 18 && k + 1 < n && s.get_char(k + 1) == ']' {
                proof {
                    reveal_strlit("[[dayone-moment://");
                    assert(org_photo_at(s@, i as int, k as int + 2));
                }
                return Some((i, k + 2));
            }
            proof {
                reveal_strlit("[[dayone-moment://");
                assert forall|j: int| !org_photo_at(s@, i as int, j) by {
                    if org_photo_at(s@, i as int, j) {
                        assert(i + 21 <= j <= n);
                        assert(s@[j - 2] == ']');
                        assert(s@[j - 1] == ']');
                        if k == n {
                            // no ']' at all after the prefix
                            assert(i + 18 <= j - 2 < n);
                            assert(s@[j - 2] != ']');
                        } else {
                            // the scan stopped on the first ']', at k
                            assert(s@[k as int] == ']');
                            if j - 2 > k {
                                // k would sit inside the interior
                                assert(s@[k as int] != ']');
                            } else if j - 2 < k {
                                // j - 2 is an earlier ']' than the first one
                                assert(i + 18 <= j - 2 < k);
                                assert(s@[j - 2] != ']');
                            } else {
                                // j - 2 == k: the interior is non-empty and the
                                // character after k is also ']', so the exec
                                // branch above would have returned
                                assert(k > i + 18);
                                assert(k + 1 == j - 1);
                                assert(k + 1 < n);
                                assert(s@[k as int + 1] == ']');
                                assert(false);
                            }
                        }
                    }
                }
                assert(!org_start(s@, i as int));
            }
        } else {
            proof {
                assert(!org_start(s@, i as int));
            }
        }
        i += 1;
    }
    proof {
        assert forall|i2: int| !org_start(s@, i2) by {
            reveal_strlit("[[dayone-moment://");
            if org_start(s@, i2) {
                let j = choose|j: int| org_photo_at(s@, i2, j);
                assert(has_prefix_at(s@, i2, "[[dayone-moment://"@));
                assert(0 <= i2 && i2 + 18 <= n);
            }
        }
    }
    None
}

/// Replaces the leftmost markdown photo placeholder with `link`.
pub fn replace_first_md(s: &str, link: &str) -> (r: String)
    ensures
        r@ == md_replace(s@, link@),
{
    let n = s.unicode_len();
    match find_md(s) {
        Some((i, j)) => {
            proof {
                assert(md_photo_at(s@, i as int, j as int));
                assert(md_start(s@, i as int));
                assert(has_md(s@));
                let ci = md_first_i(s@);
                assert(md_start(s@, ci) && (forall|i2: int| 0 <= i2 < ci ==> !md_start(s@, i2)))
                    by {
                    assert(md_start(s@, i as int) && (forall|i2: int|
                        0 <= i2 < i ==> !md_start(s@, i2)));
                }
                if ci < i {
                    assert(!md_start(s@, ci));
                }
                if ci > i {
                    assert(!md_start(s@, i as int));
                }
                assert(ci == i);
                let cj = md_first_j(s@);
                assert(md_photo_at(s@, ci, cj)) by {
                    assert(md_photo_at(s@, i as int, j as int));
                }
                lemma_md_j_unique(s@, i as int, cj, j as int);
            }
            let mut out = s.substring_char(0, i).to_owned();
            out.append(link);
            out.append(s.substring_char(j, n));
            out
        },
        None => s.to_owned(),
    }
}

/// Replaces the leftmost converted photo placeholder with `link`.
pub fn replace_first_org(s: &str, link: &str) -> (r: String)
    ensures
        r@ == org_replace(s@, link@),
{
    let n = s.unicode_len();
    match find_org(s) {
        Some((i, j)) => {
            proof {
                assert(org_photo_at(s@, i as int, j as int));
                assert(org_start(s@, i as int));
                assert(has_org(s@));
                let ci = org_first_i(s@);
                assert(org_start(s@, ci) && (forall|i2: int| 0 <= i2 < ci ==> !org_start(s@, i2)))
                    by {
                    assert(org_start(s@, i as int) && (forall|i2: int|
                        0 <= i2 < i ==> !org_start(s@, i2)));
                }
                if ci < i {
                    assert(!org_start(s@, ci));
                }
                if ci > i {
                    assert(!org_start(s@, i as int));
                }
                assert(ci == i);
                let cj = org_first_j(s@);
                assert(org_photo_at(s@, ci, cj)) by {
                    assert(org_photo_at(s@, i as int, j as int));
                }
                lemma_org_j_unique(s@, i as int, cj, j as int);
            }
            let mut out = s.substring_char(0, i).to_owned();
            out.append(link);
            out.append(s.substring_char(j, n));
            out
        },
        None => s.to_owned(),
    }
}

} // verus!
