//! Character-level string operations, each specified over `Seq<char>`.

use vstd::prelude::*;

verus! {

/// Appends one character to a `String` (`String::push`).
#[verifier::external_body]
pub(crate) fn push_char(s: &mut String, c: char)
    ensures
        final(s)@ == old(s)@.push(c),
{
    s.push(c);
}

/// The characters of `s`, in order.
pub fn chars_of(s: &str) -> (v: Vec<char>)
    ensures
        v@ == s@,
{
    let mut v: Vec<char> = Vec::new();
    for c in it: s.chars()
        invariant
            v@ == it.seq().take(it.index()),
    {
        v.push(c);
    }
    v
}


/// A `String` holding exactly the characters of `v`.
pub fn string_of(v: &Vec<char>) -> (s: String)
    ensures
        s@ == v@,
{
    let mut s = String::new();
    let mut i: usize = 0;
    while i < v.len()
        invariant
            i <= v.len(),
            s@ == v@.take(i as int),
        decreases v.len() - i,
    {
        push_char(&mut s, v[i]);
        i += 1;
        assert(v@.take(i as int) == v@.take(i - 1).push(v@[i - 1]));
    }
    assert(v@.take(v.len() as int) == v@);
    s
}

/// The characters `v[lo..hi]` as a new vector.
pub fn copy_range(v: &Vec<char>, lo: usize, hi: usize) -> (r: Vec<char>)
    requires
        lo <= hi <= v.len(),
    ensures
        r@ == v@.subrange(lo as int, hi as int),
{
    let mut r: Vec<char> = Vec::new();
    let mut i: usize = lo;
    while i < hi
        invariant
            lo <= i <= hi <= v.len(),
            r@ == v@.subrange(lo as int, i as int),
        decreases hi - i,
    {
        r.push(v[i]);
        i += 1;
        assert(v@.subrange(lo as int, i as int) == v@.subrange(lo as int, i - 1).push(v@[i - 1]));
    }
    r
}

/// Unicode `White_Space`, the set of characters `char::is_whitespace` accepts.
pub open spec fn is_ws(c: char) -> bool {
    let u = c as u32;
    ||| 0x09 <= u <= 0x0d
    ||| u == 0x20
    ||| u == 0x85
    ||| u == 0xa0
    ||| u == 0x1680
    ||| 0x2000 <= u <= 0x200a
    ||| u == 0x2028
    ||| u == 0x2029
    ||| u == 0x202f
    ||| u == 0x205f
    ||| u == 0x3000
}

/// Whether `c` is Unicode white space.
pub fn is_whitespace(c: char) -> (b: bool)
    ensures
        b == is_ws(c),
{
    let u = c as u32;
    (0x09 <= u && u <= 0x0d) || u == 0x20 || u == 0x85 || u == 0xa0 || u == 0x1680 || (0x2000
        <= u && u <= 0x200a) || u == 0x2028 || u == 0x2029 || u == 0x202f || u == 0x205f || u
        == 0x3000
}

/// `s` without its leading white space.
pub open spec fn trim_start_ws(s: Seq<char>) -> Seq<char>
    decreases s.len(),
{
    if s.len() > 0 && is_ws(s[0]) {
        trim_start_ws(s.drop_first())
    } else {
        s
    }
}

/// `s` without its trailing white space.
pub open spec fn trim_end_ws(s: Seq<char>) -> Seq<char>
    decreases s.len(),
{
    if s.len() > 0 && is_ws(s.last()) {
        trim_end_ws(s.drop_last())
    } else {
        s
    }
}

/// `s` without leading and trailing white space (`str::trim`).
pub open spec fn trim_ws(s: Seq<char>) -> Seq<char> {
    trim_end_ws(trim_start_ws(s))
}

/// `s` without the run of `c` at its end (`str::trim_end_matches` with a character).
pub open spec fn trim_end_char(s: Seq<char>, c: char) -> Seq<char>
    decreases s.len(),
{
    if s.len() > 0 && s.last() == c {
        trim_end_char(s.drop_last(), c)
    } else {
        s
    }
}

/// Removes leading and trailing white space.
pub fn trim(v: &Vec<char>) -> (r: Vec<char>)
    ensures
        r@ == trim_ws(v@),
{
    let n = v.len();
    let mut i: usize = 0;
    assert(v@.subrange(0, n as int) == v@);
    while i < n && is_whitespace(v[i])
        invariant
            i <= n == v.len(),
            trim_start_ws(v@) == trim_start_ws(v@.subrange(i as int, n as int)),
        decreases n - i,
    {
        assert(v@.subrange(i as int, n as int).drop_first() == v@.subrange(i + 1, n as int));
        i += 1;
    }
    assert(trim_start_ws(v@) == v@.subrange(i as int, n as int));
    let mut j: usize = n;
    while j > i && is_whitespace(v[j - 1])
        invariant
            i <= j <= n == v.len(),
            trim_ws(v@) == trim_end_ws(v@.subrange(i as int, j as int)),
        decreases j,
    {
        assert(v@.subrange(i as int, j as int).drop_last() == v@.subrange(i as int, j - 1));
        j -= 1;
    }
    copy_range(v, i, j)
}

/// Removes every trailing occurrence of `c`.
pub fn trim_end_matching(v: &Vec<char>, c: char) -> (r: Vec<char>)
    ensures
        r@ == trim_end_char(v@, c),
{
    let mut j: usize = v.len();
    assert(v@.take(j as int) == v@);
    while j > 0 && v[j - 1] == c
        invariant
            j <= v.len(),
            trim_end_char(v@, c) == trim_end_char(v@.take(j as int), c),
        decreases j,
    {
        assert(v@.take(j as int).drop_last() == v@.take(j - 1));
        j -= 1;
    }
    copy_range(v, 0, j)
}


/// The character sequences held by a vector of character vectors.
pub open spec fn views(parts: Seq<Vec<char>>) -> Seq<Seq<char>> {
    parts.map_values(|p: Vec<char>| p@)
}

/// Appends all of `src` to `out`.
pub fn push_all(out: &mut Vec<char>, src: &Vec<char>)
    ensures
        final(out)@ == old(out)@ + src@,
{
    let mut i: usize = 0;
    while i < src.len()
        invariant
            i <= src.len(),
            out@ == old(out)@ + src@.take(i as int),
        decreases src.len() - i,
    {
        out.push(src[i]);
        i += 1;
        assert(src@.take(i as int) == src@.take(i - 1).push(src@[i - 1]));
    }
    assert(src@.take(src.len() as int) == src@);
}

/// The pieces of `s` between occurrences of `sep` (`str::split` with a character):
/// there is always one piece more than there are separators, and pieces may be empty.
pub open spec fn split_on(s: Seq<char>, sep: char) -> Seq<Seq<char>>
    decreases s.len(),
{
    if s.len() == 0 {
        seq![Seq::empty()]
    } else {
        let prev = split_on(s.drop_last(), sep);
        if s.last() == sep {
            prev.push(Seq::empty())
        } else {
            prev.update(prev.len() - 1, prev.last().push(s.last()))
        }
    }
}

/// Splits `v` at every occurrence of `sep`.
pub fn split_chars(v: &Vec<char>, sep: char) -> (parts: Vec<Vec<char>>)
    ensures
        views(parts@) == split_on(v@, sep),
{
    let mut done: Vec<Vec<char>> = Vec::new();
    let mut cur: Vec<char> = Vec::new();
    let mut i: usize = 0;
    while i < v.len()
        invariant
            i <= v.len(),
            split_on(v@.take(i as int), sep) == views(done@).push(cur@),
        decreases v.len() - i,
    {
        let c = v[i];
        let ghost before = v@.take(i as int);
        assert(v@.take(i + 1).drop_last() == before);
        let ghost done_before = done@;
        let ghost cur_before = cur@;
        if c == sep {
            done.push(cur);
            cur = Vec::new();
            assert(views(done@) =~= views(done_before).push(cur_before));
        } else {
            cur.push(c);
        }
        i += 1;
        assert(split_on(v@.take(i as int), sep) =~= views(done@).push(cur@));
    }
    assert(v@.take(v.len() as int) == v@);
    done.push(cur);
    assert(views(done@) =~= split_on(v@, sep));
    done
}


/// There is always at least one piece.
pub proof fn lemma_split_on_len(s: Seq<char>, sep: char)
    ensures
        split_on(s, sep).len() >= 1,
    decreases s.len(),
{
    if s.len() > 0 {
        lemma_split_on_len(s.drop_last(), sep);
    }
}

/// `p` without one final carriage return.
pub open spec fn strip_cr(p: Seq<char>) -> Seq<char> {
    if p.len() > 0 && p.last() == '\r' {
        p.drop_last()
    } else {
        p
    }
}

/// Each of `parts` without one final carriage return.
pub open spec fn strip_crs(parts: Seq<Seq<char>>) -> Seq<Seq<char>> {
    parts.map_values(|p: Seq<char>| strip_cr(p))
}

/// The lines of `s` as `str::lines` yields them: the text between line feeds,
/// a carriage return before a line feed dropped, and no empty line after a final
/// line feed.
pub open spec fn lines_of(s: Seq<char>) -> Seq<Seq<char>> {
    let parts = split_on(s, '\n');
    let ended = strip_crs(parts.drop_last());
    if parts.last().len() == 0 {
        ended
    } else {
        ended.push(parts.last())
    }
}

/// Splits `v` into lines.
pub fn lines(v: &Vec<char>) -> (r: Vec<Vec<char>>)
    ensures
        views(r@) == lines_of(v@),
{
    let parts = split_chars(v, '\n');
    proof {
        lemma_split_on_len(v@, '\n');
    }
    let ghost pv = split_on(v@, '\n');
    let n = parts.len();
    let mut out: Vec<Vec<char>> = Vec::new();
    let mut k: usize = 0;
    while k + 1 < n
        invariant
            1 <= n == parts.len(),
            views(parts@) == pv,
            k + 1 <= n,
            views(out@) == strip_crs(pv.take(k as int)),
        decreases n - k,
    {
        let p = &parts[k];
        let len = p.len();
        assert(p@ == pv[k as int]);
        let q = if len > 0 && p[len - 1] == '\r' {
            copy_range(p, 0, len - 1)
        } else {
            copy_range(p, 0, len)
        };
        assert(q@ == strip_cr(pv[k as int]));
        let ghost out_before = out@;
        out.push(q);
        k += 1;
        assert(views(out@) =~= views(out_before).push(q@));
        assert(strip_crs(pv.take(k as int)) =~= strip_crs(pv.take(k - 1)).push(strip_cr(pv[k - 1])));
    }
    assert(pv.take(k as int) == pv.drop_last());
    assert(views(out@) == strip_crs(pv.drop_last()));
    let last = &parts[n - 1];
    assert(last@ == pv.last());
    if last.len() > 0 {
        let ghost out_before = out@;
        let q = copy_range(last, 0, last.len());
        out.push(q);
        assert(views(out@) =~= views(out_before).push(q@));
        assert(q@ == pv.last());
        assert(views(out@) == strip_crs(pv.drop_last()).push(pv.last()));
    } else {
        assert(pv.last().len() == 0);
    }
    assert(views(out@) == lines_of(v@));
    out
}

/// The maximal runs of non-white-space characters of `s` (`str::split_whitespace`):
/// a non-white-space character extends the word of the character before it, or opens
/// a new word after white space or at the start.
pub open spec fn words_of(s: Seq<char>) -> Seq<Seq<char>>
    decreases s.len(),
{
    if s.len() == 0 {
        seq![]
    } else {
        let w = words_of(s.drop_last());
        let c = s.last();
        if is_ws(c) {
            w
        } else if s.len() >= 2 && !is_ws(s[s.len() - 2]) {
            w.update(w.len() - 1, w.last().push(c))
        } else {
            w.push(seq![c])
        }
    }
}

/// Splits `v` into its white-space separated words.
pub fn words(v: &Vec<char>) -> (r: Vec<Vec<char>>)
    ensures
        views(r@) == words_of(v@),
{
    let mut done: Vec<Vec<char>> = Vec::new();
    let mut cur: Vec<char> = Vec::new();
    let mut i: usize = 0;
    while i < v.len()
        invariant
            i <= v.len(),
            cur@.len() > 0 <==> (i > 0 && !is_ws(v@[i - 1])),
            words_of(v@.take(i as int)) == if cur@.len() > 0 {
                views(done@).push(cur@)
            } else {
                views(done@)
            },
        decreases v.len() - i,
    {
        let c = v[i];
        let ghost s1 = v@.take(i + 1);
        assert(s1.drop_last() == v@.take(i as int));
        assert(s1.last() == c);
        assert(i >= 1 ==> s1[s1.len() - 2] == v@[i - 1]);
        let ghost done_before = done@;
        let ghost cur_before = cur@;
        let ghost w = words_of(v@.take(i as int));
        if is_whitespace(c) {
            assert(words_of(s1) == w);
            if cur.len() > 0 {
                done.push(cur);
                assert(views(done@) =~= views(done_before).push(cur_before));
            }
            cur = Vec::new();
        } else {
            cur.push(c);
            proof {
                if cur_before.len() > 0 {
                    assert(words_of(s1) == w.update(w.len() - 1, w.last().push(c)));
                    assert(w.update(w.len() - 1, w.last().push(c)) =~= views(done@).push(cur@));
                } else {
                    assert(words_of(s1) == w.push(seq![c]));
                    assert(cur@ =~= seq![c]);
                }
            }
        }
        i += 1;
        assert(words_of(v@.take(i as int)) =~= if cur@.len() > 0 {
            views(done@).push(cur@)
        } else {
            views(done@)
        });
    }
    assert(v@.take(v.len() as int) == v@);
    if cur.len() > 0 {
        let ghost done_before = done@;
        let ghost cur_before = cur@;
        done.push(cur);
        assert(views(done@) =~= views(done_before).push(cur_before));
    }
    done
}


/// `pat` occurs in `s` starting at index `i`.
pub open spec fn occurs_at(s: Seq<char>, pat: Seq<char>, i: int) -> bool {
    0 <= i && i + pat.len() <= s.len() && s.subrange(i, i + pat.len()) == pat
}

/// `pat` occurs somewhere in `s` (`str::contains`).
pub open spec fn contains(s: Seq<char>, pat: Seq<char>) -> bool {
    exists|i: int| occurs_at(s, pat, i)
}

/// Whether `pat` occurs in `v` at index `i`.
pub fn matches_at(v: &Vec<char>, i: usize, pat: &Vec<char>) -> (b: bool)
    ensures
        b == occurs_at(v@, pat@, i as int),
{
    if i > v.len() || pat.len() > v.len() - i {
        return false;
    }
    let mut k: usize = 0;
    while k < pat.len()
        invariant
            i + pat.len() <= v.len(),
            k <= pat.len(),
            forall|j: int| 0 <= j < k ==> v@[i + j] == pat@[j],
        decreases pat.len() - k,
    {
        if v[i + k] != pat[k] {
            assert(v@.subrange(i as int, i + pat.len())[k as int] != pat@[k as int]);
            return false;
        }
        k += 1;
    }
    assert(v@.subrange(i as int, i + pat.len()) =~= pat@);
    true
}

/// Whether `pat` occurs anywhere in `v`.
pub fn contains_chars(v: &Vec<char>, pat: &Vec<char>) -> (b: bool)
    ensures
        b == contains(v@, pat@),
{
    if pat.len() == 0 {
        assert(v@.subrange(0, 0) =~= pat@);
        assert(occurs_at(v@, pat@, 0));
        return true;
    }
    let mut i: usize = 0;
    while i < v.len()
        invariant
            i <= v.len(),
            pat.len() > 0,
            forall|j: int| 0 <= j < i ==> !occurs_at(v@, pat@, j),
        decreases v.len() - i,
    {
        if matches_at(v, i, pat) {
            return true;
        }
        i += 1;
    }
    false
}

/// `s` with every occurrence of `pat` removed, scanning from the left and never
/// reusing a removed character (`str::replace(pat, "")`).
pub open spec fn remove_all(s: Seq<char>, pat: Seq<char>) -> Seq<char>
    decreases s.len(),
{
    if pat.len() == 0 || s.len() < pat.len() {
        s
    } else if s.take(pat.len() as int) == pat {
        remove_all(s.skip(pat.len() as int), pat)
    } else {
        seq![s[0]] + remove_all(s.drop_first(), pat)
    }
}

/// Removes every occurrence of `pat` from `v`.
pub fn remove_matches(v: &Vec<char>, pat: &Vec<char>) -> (r: Vec<char>)
    ensures
        r@ == remove_all(v@, pat@),
{
    let n = v.len();
    let m = pat.len();
    if m == 0 {
        return copy_range(v, 0, n);
    }
    let mut out: Vec<char> = Vec::new();
    let mut i: usize = 0;
    assert(v@.skip(0) == v@);
    while i < n
        invariant
            n == v.len(),
            m == pat.len() > 0,
            i <= n,
            remove_all(v@, pat@) == out@ + remove_all(v@.skip(i as int), pat@),
        decreases n - i,
    {
        let ghost rest = v@.skip(i as int);
        if m <= n - i && matches_at(v, i, pat) {
            assert(rest.take(m as int) =~= v@.subrange(i as int, i + m));
            assert(rest.skip(m as int) =~= v@.skip(i + m));
            i += m;
        } else {
            assert(rest.len() >= m ==> rest.take(m as int) != pat@) by {
                if rest.len() >= m && rest.take(m as int) == pat@ {
                    assert(rest.take(m as int) =~= v@.subrange(i as int, i + m));
                }
            }
            assert(rest.drop_first() =~= v@.skip(i + 1));
            assert(remove_all(rest, pat@) == seq![v@[i as int]] + remove_all(v@.skip(i + 1), pat@));
            let ghost out_before = out@;
            out.push(v[i]);
            assert(out@ == out_before + seq![v@[i as int]]);
            assert(out_before + (seq![v@[i as int]] + remove_all(v@.skip(i + 1), pat@)) =~= out@ + remove_all(v@.skip(i + 1), pat@));
            i += 1;
        }
    }
    assert(v@.skip(n as int).len() == 0);
    assert(out@ + remove_all(v@.skip(n as int), pat@) =~= out@);
    out
}

/// The pieces of `parts` with `sep` between each two (`[String]::join`).
pub open spec fn join(parts: Seq<Seq<char>>, sep: Seq<char>) -> Seq<char>
    decreases parts.len(),
{
    if parts.len() == 0 {
        seq![]
    } else if parts.len() == 1 {
        parts[0]
    } else {
        join(parts.drop_last(), sep) + sep + parts.last()
    }
}

/// Joins `parts` with `sep` between each two.
pub fn join_chars(parts: &Vec<Vec<char>>, sep: &Vec<char>) -> (r: Vec<char>)
    ensures
        r@ == join(views(parts@), sep@),
{
    let mut out: Vec<char> = Vec::new();
    let mut k: usize = 0;
    while k < parts.len()
        invariant
            k <= parts.len(),
            out@ == join(views(parts@).take(k as int), sep@),
        decreases parts.len() - k,
    {
        let ghost pk = views(parts@).take(k + 1);
        assert(pk.drop_last() =~= views(parts@).take(k as int));
        assert(pk.last() == parts@[k as int]@);
        if k > 0 {
            push_all(&mut out, sep);
        }
        push_all(&mut out, &parts[k]);
        k += 1;
        proof {
            if k == 1 {
                assert(pk.len() == 1);
                assert(out@ =~= pk[0]);
            }
        }
    }
    assert(views(parts@).take(parts.len() as int) =~= views(parts@));
    out
}


/// Whether `a` and `b` hold the same characters.
pub fn same_chars(a: &Vec<char>, b: &Vec<char>) -> (r: bool)
    ensures
        r == (a@ == b@),
{
    if a.len() != b.len() {
        return false;
    }
    let r = matches_at(a, 0, b);
    assert(a@.subrange(0, a@.len() as int) =~= a@);
    r
}

/// `str::trim`: `s` without leading and trailing white space.
pub fn trim_str(s: &str) -> (r: String)
    ensures
        r@ == trim_ws(s@),
{
    let v = chars_of(s);
    let t = trim(&v);
    string_of(&t)
}

/// The character `c` lower-cases to the ASCII character `w`: `c` is `w` itself, the
/// upper-case ASCII letter of `w`, or the Kelvin sign for `k`.
pub open spec fn char_lowercases_to(c: char, w: char) -> bool {
    ||| c == w
    ||| 97 <= w as u32 <= 122 && c as u32 + 32 == w as u32
    ||| c as u32 == 0x212a && w == 'k'
}

/// `s.to_lowercase()` equals `word`, for a `word` of lower-case ASCII characters.
/// Apart from the ASCII characters, the Kelvin sign is the only character whose
/// lower case is an ASCII character, so a character-by-character comparison
/// of equal lengths decides it.
pub open spec fn lowercases_to(s: Seq<char>, word: Seq<char>) -> bool {
    s.len() == word.len() && forall|i: int|
        0 <= i < s.len() ==> char_lowercases_to(#[trigger] s[i], word[i])
}

/// Whether `v` lower-cases to the lower-case ASCII `word`.
pub fn lowercases_to_chars(v: &Vec<char>, word: &Vec<char>) -> (r: bool)
    ensures
        r == lowercases_to(v@, word@),
{
    if v.len() != word.len() {
        return false;
    }
    let mut i: usize = 0;
    while i < v.len()
        invariant
            i <= v.len() == word.len(),
            forall|j: int| 0 <= j < i ==> char_lowercases_to(#[trigger] v@[j], word@[j]),
        decreases v.len() - i,
    {
        let c = v[i] as u32;
        let w = word[i] as u32;
        let ok = v[i] == word[i] || (97 <= w && w <= 122 && c == w - 32) || (c == 0x212a
            && word[i] == 'k');
        if !ok {
            assert(!char_lowercases_to(v@[i as int], word@[i as int]));
            return false;
        }
        i += 1;
    }
    true
}


/// The character sequences held by a vector of strings.
pub open spec fn string_views(v: Seq<String>) -> Seq<Seq<char>> {
    v.map_values(|s: String| s@)
}

/// The characters of each string of `v`.
pub fn chars_of_each(v: &Vec<String>) -> (r: Vec<Vec<char>>)
    ensures
        views(r@) == string_views(v@),
{
    let mut r: Vec<Vec<char>> = Vec::new();
    let mut i: usize = 0;
    while i < v.len()
        invariant
            i <= v.len(),
            views(r@) == string_views(v@).take(i as int),
        decreases v.len() - i,
    {
        let ghost before = r@;
        let x = chars_of(v[i].as_str());
        assert(x@ == string_views(v@)[i as int]);
        r.push(x);
        assert(views(r@) =~= views(before).push(x@));
        i += 1;
        assert(string_views(v@).take(i as int) =~= string_views(v@).take(i - 1).push(x@));
    }
    assert(string_views(v@).take(v.len() as int) =~= string_views(v@));
    r
}

/// `parts` joined with `sep` (`[String]::join`).
pub fn join_strings(parts: &Vec<String>, sep: &str) -> (r: String)
    ensures
        r@ == join(string_views(parts@), sep@),
{
    let pieces = chars_of_each(parts);
    let s = chars_of(sep);
    let joined = join_chars(&pieces, &s);
    string_of(&joined)
}


/// No piece of `parts` holds the character `c`.
pub open spec fn none_contain(parts: Seq<Seq<char>>, c: char) -> bool {
    forall|i: int| 0 <= i < parts.len() ==> !(#[trigger] parts[i]).contains(c)
}

/// A character that is in neither of two sequences is not in their concatenation.
pub proof fn lemma_concat_lacks(a: Seq<char>, b: Seq<char>, c: char)
    requires
        !a.contains(c),
        !b.contains(c),
    ensures
        !(a + b).contains(c),
{
    assert forall|i: int| 0 <= i < (a + b).len() implies (a + b)[i] != c by {
        if i < a.len() {
            assert((a + b)[i] == a[i]);
        } else {
            assert((a + b)[i] == b[i - a.len()]);
        }
    }
}

/// Joining pieces that lack `c` with a separator that lacks `c` gives a text that
/// lacks `c`.
pub proof fn lemma_join_lacks(parts: Seq<Seq<char>>, sep: Seq<char>, c: char)
    requires
        none_contain(parts, c),
        !sep.contains(c),
    ensures
        !join(parts, sep).contains(c),
    decreases parts.len(),
{
    if parts.len() == 0 {
        assert(join(parts, sep) =~= Seq::<char>::empty());
    } else if parts.len() == 1 {
        assert(!parts[0].contains(c));
    } else {
        let rest = parts.drop_last();
        assert forall|i: int| 0 <= i < rest.len() implies !(#[trigger] rest[i]).contains(c) by {
            assert(rest[i] == parts[i]);
        }
        lemma_join_lacks(rest, sep, c);
        assert(!parts[parts.len() - 1].contains(c));
        lemma_concat_lacks(join(rest, sep), sep, c);
        lemma_concat_lacks(join(rest, sep) + sep, parts.last(), c);
    }
}


/// A word of ASCII characters none of which is an upper-case letter.
pub open spec fn is_lower_ascii_word(w: Seq<char>) -> bool {
    forall|i: int| 0 <= i < w.len() ==> (#[trigger] w[i]) as u32 <= 127 && !(65 <= w[i] as u32 <= 90)
}

/// The code of `c` with ASCII letters and the Kelvin sign folded to lower case.
pub open spec fn folded_code(c: char) -> u32 {
    let u = c as u32;
    if 65 <= u <= 90 {
        (u + 32) as u32
    } else if u == 0x212a {
        107
    } else {
        u
    }
}

/// `a` and `b` differ at most in the case of ASCII letters (and the Kelvin sign).
pub open spec fn same_but_case(a: Seq<char>, b: Seq<char>) -> bool {
    a.len() == b.len() && forall|i: int| 0 <= i < a.len() ==> folded_code(#[trigger] a[i]) == folded_code(b[i])
}

/// Two texts that lower-case to the same lower-case ASCII words.
pub open spec fn lowercase_alike(a: Seq<char>, b: Seq<char>) -> bool {
    forall|w: Seq<char>| is_lower_ascii_word(w) ==> (#[trigger] lowercases_to(a, w) <==> lowercases_to(b, w))
}

proof fn lemma_char_lowercases_to_folded(c: char, w: char)
    requires
        w as u32 <= 127,
        !(65 <= w as u32 <= 90),
    ensures
        char_lowercases_to(c, w) <==> folded_code(c) == w as u32,
{
}

/// Texts that differ only in the case of their letters lower-case to the same
/// lower-case ASCII words.
pub proof fn lemma_same_but_case_lowercase_alike(a: Seq<char>, b: Seq<char>)
    requires
        same_but_case(a, b),
    ensures
        lowercase_alike(a, b),
{
    assert forall|w: Seq<char>| is_lower_ascii_word(w) implies (#[trigger] lowercases_to(a, w)
        <==> lowercases_to(b, w)) by {
        if a.len() == w.len() {
            assert forall|i: int| 0 <= i < a.len() implies (char_lowercases_to(#[trigger] a[i], w[i])
                <==> char_lowercases_to(b[i], w[i])) by {
                lemma_char_lowercases_to_folded(a[i], w[i]);
                lemma_char_lowercases_to_folded(b[i], w[i]);
            }
            if lowercases_to(a, w) {
                assert forall|i: int| 0 <= i < b.len() implies char_lowercases_to(#[trigger] b[i], w[i]) by {
                    assert(char_lowercases_to(a[i], w[i]));
                }
            }
            if lowercases_to(b, w) {
                assert forall|i: int| 0 <= i < a.len() implies char_lowercases_to(#[trigger] a[i], w[i]) by {
                    assert(char_lowercases_to(b[i], w[i]));
                }
            }
        }
    }
}

/// Removing a pattern that has a character `s` lacks leaves `s` as it is.
pub proof fn lemma_remove_all_absent(s: Seq<char>, pat: Seq<char>, k: int)
    requires
        0 <= k < pat.len(),
        !s.contains(pat[k]),
    ensures
        remove_all(s, pat) == s,
    decreases s.len(),
{
    if s.len() >= pat.len() {
        if s.take(pat.len() as int) == pat {
            assert(s.take(pat.len() as int)[k] == s[k]);
        } else {
            assert(!s.drop_first().contains(pat[k])) by {
                assert forall|i: int| 0 <= i < s.drop_first().len() implies s.drop_first()[i] != pat[k] by {
                    assert(s.drop_first()[i] == s[i + 1]);
                }
            }
            lemma_remove_all_absent(s.drop_first(), pat, k);
            assert(seq![s[0]] + s.drop_first() =~= s);
        }
    }
}

/// A text without the separator is a single piece.
pub proof fn lemma_split_on_absent(s: Seq<char>, sep: char)
    requires
        !s.contains(sep),
    ensures
        split_on(s, sep) == seq![s],
    decreases s.len(),
{
    if s.len() > 0 {
        let rest = s.drop_last();
        assert(!rest.contains(sep)) by {
            assert forall|i: int| 0 <= i < rest.len() implies rest[i] != sep by {
                assert(rest[i] == s[i]);
            }
        }
        lemma_split_on_absent(rest, sep);
        assert(s.last() != sep) by {
            assert(s[s.len() - 1] == s.last());
        }
        let prev = split_on(rest, sep);
        assert(split_on(s, sep) == prev.update(prev.len() - 1, prev.last().push(s.last())));
        assert(rest.push(s.last()) =~= s);
        assert(split_on(s, sep) =~= seq![s]);
    } else {
        assert(s =~= Seq::<char>::empty());
    }
}


/// Splitting text that runs on past a separator: the pieces before it, then the
/// pieces after it.
pub proof fn lemma_split_on_concat(a: Seq<char>, b: Seq<char>, sep: char)
    ensures
        split_on(a + seq![sep] + b, sep) == split_on(a, sep) + split_on(b, sep),
    decreases b.len(),
{
    let s = a + seq![sep] + b;
    if b.len() == 0 {
        assert(s.drop_last() =~= a);
        assert(split_on(b, sep) =~= seq![Seq::<char>::empty()]);
        assert(split_on(s, sep) =~= split_on(a, sep) + split_on(b, sep));
    } else {
        let b0 = b.drop_last();
        lemma_split_on_concat(a, b0, sep);
        lemma_split_on_len(b0, sep);
        lemma_split_on_len(a, sep);
        assert(s.drop_last() =~= a + seq![sep] + b0);
        assert(s.last() == b.last());
        let pa = split_on(a, sep);
        let pb = split_on(b0, sep);
        if b.last() == sep {
            assert(split_on(s, sep) =~= pa + pb.push(Seq::empty()));
        } else {
            let q = pa + pb;
            assert(q.update(q.len() - 1, q.last().push(b.last())) =~= pa + pb.update(
                pb.len() - 1,
                pb.last().push(b.last()),
            ));
        }
    }
}

proof fn lemma_join_extend_last(parts: Seq<Seq<char>>, sep: Seq<char>, c: char)
    requires
        parts.len() >= 1,
    ensures
        join(parts.update(parts.len() - 1, parts.last().push(c)), sep) == join(parts, sep).push(c),
{
    let upd = parts.update(parts.len() - 1, parts.last().push(c));
    if parts.len() > 1 {
        assert(upd.drop_last() =~= parts.drop_last());
        assert(join(upd, sep) =~= join(parts, sep).push(c));
    }
}

/// Joining the pieces of a split with the separator gives the text back.
pub proof fn lemma_join_split(s: Seq<char>, sep: char)
    ensures
        join(split_on(s, sep), seq![sep]) == s,
    decreases s.len(),
{
    if s.len() == 0 {
        assert(s =~= Seq::<char>::empty());
    } else {
        let rest = s.drop_last();
        lemma_join_split(rest, sep);
        lemma_split_on_len(rest, sep);
        let prev = split_on(rest, sep);
        if s.last() == sep {
            assert(prev.push(Seq::<char>::empty()).drop_last() =~= prev);
            assert(join(prev.push(Seq::<char>::empty()), seq![sep]) =~= s);
        } else {
            lemma_join_extend_last(prev, seq![sep], s.last());
            assert(rest.push(s.last()) =~= s);
        }
    }
}


/// Removing a one-character pattern works piece by piece.
pub proof fn lemma_remove_all_char_concat(x: Seq<char>, y: Seq<char>, pat: Seq<char>)
    requires
        pat.len() == 1,
    ensures
        remove_all(x + y, pat) == remove_all(x, pat) + remove_all(y, pat),
    decreases x.len(),
{
    if x.len() == 0 {
        assert(x + y =~= y);
        assert(remove_all(x, pat) =~= Seq::<char>::empty());
        assert(remove_all(x, pat) + remove_all(y, pat) =~= remove_all(y, pat));
    } else {
        let xy = x + y;
        lemma_remove_all_char_concat(x.drop_first(), y, pat);
        assert(xy.skip(1) =~= x.drop_first() + y);
        assert(xy.drop_first() =~= x.drop_first() + y);
        assert(x.skip(1) =~= x.drop_first());
        assert(xy.take(1) =~= x.take(1));
        if x.take(1) == pat {
            assert(remove_all(xy, pat) == remove_all(xy.skip(1), pat));
        } else {
            assert(remove_all(xy, pat) == seq![xy[0]] + remove_all(xy.drop_first(), pat));
            assert(seq![x[0]] + (remove_all(x.drop_first(), pat) + remove_all(y, pat)) =~= (seq![x[0]]
                + remove_all(x.drop_first(), pat)) + remove_all(y, pat));
        }
    }
}

/// Text that starts and ends with no white space is its own trim.
pub proof fn lemma_trim_untouched(s: Seq<char>)
    requires
        s.len() >= 1,
        !is_ws(s[0]),
        !is_ws(s.last()),
    ensures
        trim_ws(s) == s,
{
}


/// Text in which no occurrence of the pattern starts stays in front of whatever
/// removing the pattern leaves of the rest.
pub proof fn lemma_remove_all_prefix_kept(x: Seq<char>, y: Seq<char>, pat: Seq<char>)
    requires
        pat.len() >= 1,
        forall|i: int| 0 <= i < x.len() ==> !occurs_at(x + y, pat, i),
    ensures
        remove_all(x + y, pat) == x + remove_all(y, pat),
    decreases x.len(),
{
    let xy = x + y;
    if x.len() == 0 {
        assert(xy =~= y);
        assert(x + remove_all(y, pat) =~= remove_all(y, pat));
    } else {
        let rest = x.drop_first();
        assert(xy.drop_first() =~= rest + y);
        assert forall|i: int| 0 <= i < rest.len() implies !occurs_at(rest + y, pat, i) by {
            assert(!occurs_at(xy, pat, i + 1));
            if occurs_at(rest + y, pat, i) {
                assert(xy.subrange(i + 1, i + 1 + pat.len()) =~= (rest + y).subrange(i, i + pat.len()));
            }
        }
        lemma_remove_all_prefix_kept(rest, y, pat);
        if xy.len() >= pat.len() {
            assert(!occurs_at(xy, pat, 0));
            assert(xy.subrange(0, pat.len() as int) =~= xy.take(pat.len() as int));
        }
        assert(seq![x[0]] + (rest + remove_all(y, pat)) =~= x + remove_all(y, pat));
        if xy.len() < pat.len() {
            assert(remove_all(y, pat) == y);
            assert(xy =~= x + y);
        }
    }
}

/// An occurrence of the pattern at the front is removed.
pub proof fn lemma_remove_all_leading(pat: Seq<char>, y: Seq<char>)
    requires
        pat.len() >= 1,
    ensures
        remove_all(pat + y, pat) == remove_all(y, pat),
{
    assert((pat + y).take(pat.len() as int) =~= pat);
    assert((pat + y).skip(pat.len() as int) =~= y);
}

} // verus!
