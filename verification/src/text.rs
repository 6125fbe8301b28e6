//! Character-level text handling used to read tile and quest prefab names.
//!
//! Names are handled as sequences of `char`; each operation below is stated over
//! `Seq<char>` by a spec function and implemented by a verified loop.
use vstd::prelude::*;
use vstd::string::*;

verus! {

/// The characters of a string slice, in order.
pub fn chars_of(s: &str) -> (r: Vec<char>)
    ensures
        r@ == s@,
{
    let n = s.unicode_len();
    let mut v: Vec<char> = Vec::new();
    let mut i: usize = 0;
    while i < n
        invariant
            n == s@.len(),
            i <= n,
            v@ == s@.take(i as int),
        decreases n - i,
    {
        let c = s.get_char(i);
        v.push(c);
        i += 1;
        assert(v@ =~= s@.take(i as int));
    }
    assert(v@ =~= s@);
    v
}

/// Wraps `String::push`, which appends one character at the end of the string.
#[verifier::external_body]
fn push_char(s: &mut String, c: char)
    ensures
        final(s)@ == old(s)@.push(c),
{
    s.push(c);
}

/// A `String` holding the given characters.
pub fn string_from_chars(v: &Vec<char>) -> (r: String)
    ensures
        r@ == v@,
{
    let mut s = String::new();
    let mut i: usize = 0;
    while i < v.len()
        invariant
            i <= v.len(),
            s@ == v@.take(i as int),
        decreases v.len() - i,
    {
        push_char(&mut s, v[i]);
        i += 1;
        assert(s@ =~= v@.take(i as int));
    }
    assert(s@ =~= v@);
    s
}

/// What `str::to_lowercase` returns for a string with the given characters: the
/// Unicode lowercase mapping, which may change the number of characters.
pub uninterp spec fn spec_to_lowercase(s: Seq<char>) -> Seq<char>;

/// Wraps `str::to_lowercase`; its result is a function of the characters of `s` alone.
#[verifier::external_body]
fn str_to_lowercase(s: &str) -> (r: String)
    ensures
        r@ == spec_to_lowercase(s@),
{
    s.to_lowercase()
}

/// The Unicode lowercase of the given characters, as `str::to_lowercase` computes it.
pub fn lowercase_chars(v: &Vec<char>) -> (r: Vec<char>)
    ensures
        r@ == spec_to_lowercase(v@),
{
    let s = string_from_chars(v);
    let l = str_to_lowercase(s.as_str());
    chars_of(l.as_str())
}

/// Whether `pat` occurs in `s` as a contiguous run (always true of an empty `pat`).
pub open spec fn seq_contains_sub(s: Seq<char>, pat: Seq<char>) -> bool {
    exists|i: int| 0 <= i && i + pat.len() <= s.len() && #[trigger] s.subrange(i, i + pat.len()) == pat
}

/// Whether `s` begins with `pat`.
pub open spec fn starts_with(s: Seq<char>, pat: Seq<char>) -> bool {
    pat.len() <= s.len() && s.take(pat.len() as int) == pat
}

/// Whether `pat` occurs in `s` at position `i`.
pub fn matches_at(s: &Vec<char>, pat: &Vec<char>, i: usize) -> (r: bool)
    ensures
        r == (i + pat@.len() <= s@.len() && s@.subrange(i as int, i + pat@.len()) == pat@),
{
    if i > s.len() || pat.len() > s.len() - i {
        return false;
    }
    let mut k: usize = 0;
    while k < pat.len()
        invariant
            i + pat@.len() <= s@.len(),
            k <= pat.len(),
            forall|j: int| 0 <= j < k ==> s@[i + j] == pat@[j],
        decreases pat.len() - k,
    {
        assert(i + k < s.len());
        if s[i + k] != pat[k] {
            assert(s@.subrange(i as int, i + pat@.len())[k as int] != pat@[k as int]);
            return false;
        }
        k += 1;
    }
    assert(s@.subrange(i as int, i + pat@.len()) =~= pat@);
    true
}

/// Whether `pat` occurs in `s` (what `str::contains` answers for a string pattern).
pub fn contains_sub(s: &Vec<char>, pat: &Vec<char>) -> (r: bool)
    ensures
        r == seq_contains_sub(s@, pat@),
{
    if pat.len() == 0 {
        assert(s@.subrange(0int, 0int + pat@.len()) =~= pat@);
        return true;
    }
    if pat.len() > s.len() {
        return false;
    }
    let mut i: usize = 0;
    while i <= s.len() - pat.len()
        invariant
            0 < pat@.len() <= s@.len(),
            i + pat@.len() <= s@.len() + 1,
            forall|j: int| 0 <= j < i ==> #[trigger] s@.subrange(j, j + pat@.len()) != pat@,
        decreases s.len() - i,
    {
        if matches_at(s, pat, i) {
            return true;
        }
        i += 1;
    }
    false
}

/// Whether `pat` occurs in the characters of the string literal-like slice `pat_str`.
pub fn contains_str(s: &Vec<char>, pat_str: &str) -> (r: bool)
    ensures
        r == seq_contains_sub(s@, pat_str@),
{
    let pat = chars_of(pat_str);
    contains_sub(s, &pat)
}

/// Whether two character sequences are equal.
pub fn chars_eq(a: &Vec<char>, b: &Vec<char>) -> (r: bool)
    ensures
        r == (a@ == b@),
{
    if a.len() != b.len() {
        return false;
    }
    let mut i: usize = 0;
    while i < a.len()
        invariant
            a@.len() == b@.len(),
            i <= a.len(),
            forall|j: int| 0 <= j < i ==> a@[j] == b@[j],
        decreases a.len() - i,
    {
        if a[i] != b[i] {
            return false;
        }
        i += 1;
    }
    assert(a@ =~= b@);
    true
}

/// Whether the characters equal those of `lit`.
pub fn chars_eq_str(a: &Vec<char>, lit: &str) -> (r: bool)
    ensures
        r == (a@ == lit@),
{
    let b = chars_of(lit);
    chars_eq(a, &b)
}

/// The Unicode `White_Space` property, which `char::is_whitespace` tests.
pub open spec fn is_white_space(c: char) -> bool {
    ||| ('\u{9}' <= c && c <= '\u{d}')
    ||| c == ' '
    ||| c == '\u{85}'
    ||| c == '\u{a0}'
    ||| c == '\u{1680}'
    ||| ('\u{2000}' <= c && c <= '\u{200a}')
    ||| c == '\u{2028}'
    ||| c == '\u{2029}'
    ||| c == '\u{202f}'
    ||| c == '\u{205f}'
    ||| c == '\u{3000}'
}

/// Whether `c` is white space in the Unicode sense.
pub fn is_whitespace_char(c: char) -> (r: bool)
    ensures
        r == is_white_space(c),
{
    ('\u{9}' <= c && c <= '\u{d}') || c == ' ' || c == '\u{85}' || c == '\u{a0}' || c == '\u{1680}'
        || ('\u{2000}' <= c && c <= '\u{200a}') || c == '\u{2028}' || c == '\u{2029}'
        || c == '\u{202f}' || c == '\u{205f}' || c == '\u{3000}'
}

/// `s` without its leading white space.
pub open spec fn trim_start(s: Seq<char>) -> Seq<char>
    decreases s.len(),
{
    if s.len() > 0 && is_white_space(s[0]) {
        trim_start(s.drop_first())
    } else {
        s
    }
}

/// `s` without its trailing white space.
pub open spec fn trim_end(s: Seq<char>) -> Seq<char>
    decreases s.len(),
{
    if s.len() > 0 && is_white_space(s.last()) {
        trim_end(s.drop_last())
    } else {
        s
    }
}

/// `s` without leading and trailing white space (what `str::trim` returns).
pub open spec fn trim(s: Seq<char>) -> Seq<char> {
    trim_end(trim_start(s))
}

/// The characters of `s` without leading and trailing white space.
pub fn trim_chars(s: &Vec<char>) -> (r: Vec<char>)
    ensures
        r@ == trim(s@),
{
    let n = s.len();
    let mut a: usize = 0;
    assert(s@.skip(0) =~= s@);
    while a < n && is_whitespace_char(s[a])
        invariant
            n == s@.len(),
            a <= n,
            trim_start(s@) == trim_start(s@.skip(a as int)),
        decreases n - a,
    {
        assert(s@.skip(a as int).drop_first() =~= s@.skip(a + 1));
        a += 1;
    }
    let ghost front = s@.skip(a as int);
    assert(trim_start(front) == front);
    let mut b: usize = n;
    while b > a && is_whitespace_char(s[b - 1])
        invariant
            n == s@.len(),
            a <= b <= n,
            front == s@.skip(a as int),
            trim_end(front) == trim_end(s@.subrange(a as int, b as int)),
        decreases b - a,
    {
        assert(s@.subrange(a as int, b as int).drop_last() =~= s@.subrange(a as int, b - 1));
        b -= 1;
    }
    let mut r: Vec<char> = Vec::new();
    let mut k: usize = a;
    while k < b
        invariant
            n == s@.len(),
            a <= k <= b <= n,
            r@ == s@.subrange(a as int, k as int),
        decreases b - k,
    {
        r.push(s[k]);
        k += 1;
        assert(r@ =~= s@.subrange(a as int, k as int));
    }
    r
}

/// The pieces of `s` between occurrences of `sep` (what `str::split` yields for a
/// character pattern); there is always at least one piece.
pub open spec fn split_on(s: Seq<char>, sep: char) -> Seq<Seq<char>>
    decreases s.len(),
{
    if s.len() == 0 {
        seq![Seq::<char>::empty()]
    } else {
        let prev = split_on(s.drop_last(), sep);
        if s.last() == sep {
            prev.push(Seq::<char>::empty())
        } else {
            prev.update(prev.len() - 1, prev.last().push(s.last()))
        }
    }
}

/// `split_on` never yields an empty list.
pub proof fn lemma_split_on_nonempty(s: Seq<char>, sep: char)
    ensures
        split_on(s, sep).len() >= 1,
    decreases s.len(),
{
    if s.len() > 0 {
        lemma_split_on_nonempty(s.drop_last(), sep);
    }
}

/// The views of a list of character vectors.
pub open spec fn views(v: Seq<Vec<char>>) -> Seq<Seq<char>> {
    v.map_values(|x: Vec<char>| x@)
}

/// The pieces of `s` between occurrences of `sep`.
pub fn split_chars(s: &Vec<char>, sep: char) -> (r: Vec<Vec<char>>)
    ensures
        views(r@) == split_on(s@, sep),
{
    let mut done: Vec<Vec<char>> = Vec::new();
    let mut cur: Vec<char> = Vec::new();
    let mut i: usize = 0;
    assert(s@.take(0) =~= Seq::<char>::empty());
    assert(views(done@).push(cur@) =~= split_on(s@.take(0), sep));
    while i < s.len()
        invariant
            i <= s.len(),
            views(done@).push(cur@) == split_on(s@.take(i as int), sep),
        decreases s.len() - i,
    {
        let c = s[i];
        proof {
            assert(s@.take(i + 1).drop_last() =~= s@.take(i as int));
            lemma_split_on_nonempty(s@.take(i as int), sep);
        }
        if c == sep {
            let old_cur = cur;
            done.push(old_cur);
            cur = Vec::new();
            assert(views(done@).push(cur@) =~= split_on(s@.take(i + 1), sep));
        } else {
            cur.push(c);
            assert(views(done@).push(cur@) =~= split_on(s@.take(i + 1), sep));
        }
        i += 1;
    }
    assert(s@.take(s@.len() as int) =~= s@);
    done.push(cur);
    assert(views(done@) =~= split_on(s@, sep));
    done
}

/// The maximal runs of non-white-space characters of `s`, in order (what
/// `str::split_whitespace` yields).
pub open spec fn ws_tokens(s: Seq<char>) -> Seq<Seq<char>>
    decreases s.len(),
{
    if s.len() == 0 {
        Seq::<Seq<char>>::empty()
    } else {
        let prev = ws_tokens(s.drop_last());
        let c = s.last();
        if is_white_space(c) {
            prev
        } else if s.len() >= 2 && !is_white_space(s[s.len() - 2]) {
            prev.update(prev.len() - 1, prev.last().push(c))
        } else {
            prev.push(seq![c])
        }
    }
}

/// A text ending in a non-white-space character has at least one token.
pub proof fn lemma_ws_tokens_nonempty(s: Seq<char>)
    requires
        s.len() > 0,
        !is_white_space(s.last()),
    ensures
        ws_tokens(s).len() >= 1,
    decreases s.len(),
{
    if s.len() >= 2 && !is_white_space(s[s.len() - 2]) {
        lemma_ws_tokens_nonempty(s.drop_last());
    }
}

/// The white-space separated tokens of `s`.
pub fn split_whitespace_chars(s: &Vec<char>) -> (r: Vec<Vec<char>>)
    ensures
        views(r@) == ws_tokens(s@),
{
    let mut done: Vec<Vec<char>> = Vec::new();
    let mut cur: Vec<char> = Vec::new();
    let mut i: usize = 0;
    assert(views(done@) =~= ws_tokens(s@.take(0)));
    while i < s.len()
        invariant
            i <= s.len(),
            cur@.len() > 0 ==> views(done@).push(cur@) == ws_tokens(s@.take(i as int)),
            cur@.len() == 0 ==> views(done@) == ws_tokens(s@.take(i as int)),
            cur@.len() > 0 <==> (i > 0 && !is_white_space(s@[i - 1])),
        decreases s.len() - i,
    {
        let c = s[i];
        proof {
            assert(s@.take(i + 1).drop_last() =~= s@.take(i as int));
            if i > 0 {
                assert(s@.take(i + 1)[i - 1] == s@[i - 1]);
            }
        }
        if is_whitespace_char(c) {
            if cur.len() > 0 {
                let old_cur = cur;
                done.push(old_cur);
                cur = Vec::new();
                assert(views(done@) =~= ws_tokens(s@.take(i + 1)));
            }
        } else {
            if cur.len() > 0 {
                let ghost old_cur = cur@;
                cur.push(c);
                assert(views(done@).push(cur@) =~= views(done@).push(old_cur).update(views(done@).len() as int, old_cur.push(c)));
                assert(views(done@).push(cur@) =~= ws_tokens(s@.take(i + 1)));
            } else {
                cur.push(c);
                assert(cur@ =~= seq![c]);
                assert(views(done@).push(cur@) =~= ws_tokens(s@.take(i + 1)));
            }
        }
        i += 1;
    }
    assert(s@.take(s@.len() as int) =~= s@);
    if cur.len() > 0 {
        done.push(cur);
    }
    assert(views(done@) =~= ws_tokens(s@));
    done
}

/// The pieces joined with one space between consecutive pieces (what
/// `join(" ")` returns).
pub open spec fn join_space(parts: Seq<Seq<char>>) -> Seq<char>
    decreases parts.len(),
{
    if parts.len() == 0 {
        Seq::<char>::empty()
    } else if parts.len() == 1 {
        parts[0]
    } else {
        join_space(parts.drop_last()) + seq![' '] + parts.last()
    }
}

/// The pieces joined with one space between consecutive pieces.
pub fn join_with_space(parts: &Vec<Vec<char>>) -> (r: Vec<char>)
    ensures
        r@ == join_space(views(parts@)),
{
    let mut r: Vec<char> = Vec::new();
    let mut i: usize = 0;
    assert(views(parts@).take(0) =~= Seq::<Seq<char>>::empty());
    while i < parts.len()
        invariant
            i <= parts.len(),
            r@ == join_space(views(parts@).take(i as int)),
        decreases parts.len() - i,
    {
        if i > 0 {
            r.push(' ');
        }
        let part = &parts[i];
        let mut k: usize = 0;
        let ghost base = r@;
        while k < part.len()
            invariant
                k <= part.len(),
                r@ == base + part@.take(k as int),
            decreases part.len() - k,
        {
            r.push(part[k]);
            k += 1;
            assert(r@ =~= base + part@.take(k as int));
        }
        proof {
            assert(part@.take(part@.len() as int) =~= part@);
            assert(views(parts@).take(i + 1).drop_last() =~= views(parts@).take(i as int));
            if i == 0 {
                assert(base =~= Seq::<char>::empty());
            }
        }
        i += 1;
        assert(r@ =~= join_space(views(parts@).take(i as int)));
    }
    assert(views(parts@).take(parts@.len() as int) =~= views(parts@));
    r
}

/// `s` with every non-overlapping occurrence of the non-empty `pat` removed, scanning
/// from the left (what `str::replace(pat, "")` returns).
pub open spec fn remove_pat(s: Seq<char>, pat: Seq<char>) -> Seq<char>
    decreases s.len(),
{
    if s.len() == 0 {
        s
    } else if pat.len() > 0 && starts_with(s, pat) {
        remove_pat(s.skip(pat.len() as int), pat)
    } else {
        seq![s[0]] + remove_pat(s.drop_first(), pat)
    }
}

/// The characters of `s` with every occurrence of the non-empty `pat` removed.
pub fn remove_all(s: &Vec<char>, pat: &Vec<char>) -> (r: Vec<char>)
    requires
        pat@.len() > 0,
    ensures
        r@ == remove_pat(s@, pat@),
{
    let mut r: Vec<char> = Vec::new();
    let mut i: usize = 0;
    assert(s@.skip(0) =~= s@);
    while i < s.len()
        invariant
            pat@.len() > 0,
            i <= s.len(),
            r@ + remove_pat(s@.skip(i as int), pat@) == remove_pat(s@, pat@),
        decreases s.len() - i,
    {
        let ghost rest = s@.skip(i as int);
        if matches_at(s, pat, i) {
            proof {
                assert(rest.take(pat@.len() as int) =~= s@.subrange(i as int, i + pat@.len()));
                assert(rest.skip(pat@.len() as int) =~= s@.skip(i + pat@.len()));
            }
            i += pat.len();
        } else {
            proof {
                if i + pat@.len() <= s@.len() {
                    assert(rest.take(pat@.len() as int) =~= s@.subrange(i as int, i + pat@.len()));
                }
                assert(rest.drop_first() =~= s@.skip(i + 1));
                assert(r@.push(s@[i as int]) + remove_pat(s@.skip(i + 1), pat@) =~= r@ + (seq![s@[i as int]] + remove_pat(s@.skip(i + 1), pat@)));
            }
            r.push(s[i]);
            i += 1;
        }
    }
    assert(s@.skip(s@.len() as int) =~= Seq::<char>::empty());
    assert(r@ + Seq::<char>::empty() =~= r@);
    r
}

/// `s` with every `from` character replaced by `to`.
pub open spec fn replace_char(s: Seq<char>, from: char, to: char) -> Seq<char> {
    s.map_values(|c: char| if c == from { to } else { c })
}

/// The characters of `s` with every `from` replaced by `to`.
pub fn replace_char_chars(s: &Vec<char>, from: char, to: char) -> (r: Vec<char>)
    ensures
        r@ == replace_char(s@, from, to),
{
    let mut r: Vec<char> = Vec::new();
    let mut i: usize = 0;
    while i < s.len()
        invariant
            i <= s.len(),
            r@ == replace_char(s@.take(i as int), from, to),
        decreases s.len() - i,
    {
        let c = s[i];
        if c == from {
            r.push(to);
        } else {
            r.push(c);
        }
        i += 1;
        assert(r@ =~= replace_char(s@.take(i as int), from, to));
    }
    assert(s@.take(s@.len() as int) =~= s@);
    r
}

/// `s` with `pat` stripped from its front as many times as it occurs there (what
/// `str::trim_start_matches` returns for a non-empty string pattern).
pub open spec fn strip_prefix_all(s: Seq<char>, pat: Seq<char>) -> Seq<char>
    decreases s.len(),
{
    if pat.len() > 0 && starts_with(s, pat) {
        strip_prefix_all(s.skip(pat.len() as int), pat)
    } else {
        s
    }
}

/// Whether `s` ends with `pat`.
pub open spec fn ends_with(s: Seq<char>, pat: Seq<char>) -> bool {
    pat.len() <= s.len() && s.skip(s.len() - pat.len()) == pat
}

/// `s` with `pat` stripped from its end as many times as it occurs there (what
/// `str::trim_end_matches` returns for a non-empty string pattern).
pub open spec fn strip_suffix_all(s: Seq<char>, pat: Seq<char>) -> Seq<char>
    decreases s.len(),
{
    if pat.len() > 0 && ends_with(s, pat) {
        strip_suffix_all(s.take(s.len() - pat.len()), pat)
    } else {
        s
    }
}

/// The characters of `s` with every leading copy of `pat` removed.
pub fn strip_prefix_all_chars(s: &Vec<char>, pat: &Vec<char>) -> (r: Vec<char>)
    ensures
        r@ == strip_prefix_all(s@, pat@),
{
    let mut i: usize = 0;
    assert(s@.skip(0) =~= s@);
    if pat.len() > 0 {
        while matches_at(s, pat, i)
            invariant
                pat@.len() > 0,
                i <= s.len(),
                strip_prefix_all(s@, pat@) == strip_prefix_all(s@.skip(i as int), pat@),
            decreases s.len() - i,
        {
            proof {
                let rest = s@.skip(i as int);
                assert(rest.take(pat@.len() as int) =~= s@.subrange(i as int, i + pat@.len()));
                assert(rest.skip(pat@.len() as int) =~= s@.skip(i + pat@.len()));
            }
            i += pat.len();
        }
        proof {
            let rest = s@.skip(i as int);
            if pat@.len() <= rest.len() {
                assert(rest.take(pat@.len() as int) =~= s@.subrange(i as int, i + pat@.len()));
            }
        }
    }
    let mut r: Vec<char> = Vec::new();
    let mut k: usize = i;
    while k < s.len()
        invariant
            i <= k <= s.len(),
            r@ == s@.subrange(i as int, k as int),
        decreases s.len() - k,
    {
        r.push(s[k]);
        k += 1;
        assert(r@ =~= s@.subrange(i as int, k as int));
    }
    assert(r@ =~= s@.skip(i as int));
    r
}

/// The characters of `s` with every trailing copy of `pat` removed.
pub fn strip_suffix_all_chars(s: &Vec<char>, pat: &Vec<char>) -> (r: Vec<char>)
    ensures
        r@ == strip_suffix_all(s@, pat@),
{
    let mut e: usize = s.len();
    assert(s@.take(e as int) =~= s@);
    if pat.len() > 0 {
        while e >= pat.len() && matches_at(s, pat, e - pat.len())
            invariant
                pat@.len() > 0,
                e <= s.len(),
                strip_suffix_all(s@, pat@) == strip_suffix_all(s@.take(e as int), pat@),
            decreases e,
        {
            proof {
                let cur = s@.take(e as int);
                assert(cur.skip(cur.len() - pat@.len()) =~= s@.subrange(e - pat@.len(), e as int));
                assert(cur.take(cur.len() - pat@.len()) =~= s@.take(e - pat@.len()));
            }
            e -= pat.len();
        }
        proof {
            let cur = s@.take(e as int);
            if pat@.len() <= cur.len() {
                assert(cur.skip(cur.len() - pat@.len()) =~= s@.subrange(e - pat@.len(), e as int));
            }
        }
    }
    let mut r: Vec<char> = Vec::new();
    let mut k: usize = 0;
    while k < e
        invariant
            k <= e <= s.len(),
            r@ == s@.take(k as int),
        decreases e - k,
    {
        r.push(s[k]);
        k += 1;
        assert(r@ =~= s@.take(k as int));
    }
    r
}

/// The decimal digit character for `d < 10`.
pub open spec fn digit_char(d: nat) -> char {
    if d == 0 { '0' } else if d == 1 { '1' } else if d == 2 { '2' } else if d == 3 { '3' }
    else if d == 4 { '4' } else if d == 5 { '5' } else if d == 6 { '6' } else if d == 7 { '7' }
    else if d == 8 { '8' } else { '9' }
}

/// The decimal notation of `n`, without leading zeros (what `{}` prints for an integer).
pub open spec fn decimal(n: nat) -> Seq<char>
    decreases n,
{
    if n < 10 {
        seq![digit_char(n)]
    } else {
        decimal(n / 10).push(digit_char(n % 10))
    }
}

fn digit_of(d: usize) -> (c: char)
    requires
        d < 10,
    ensures
        c == digit_char(d as nat),
{
    if d == 0 { '0' } else if d == 1 { '1' } else if d == 2 { '2' } else if d == 3 { '3' }
    else if d == 4 { '4' } else if d == 5 { '5' } else if d == 6 { '6' } else if d == 7 { '7' }
    else if d == 8 { '8' } else { '9' }
}

/// The decimal notation of `n`.
pub fn decimal_chars(n: usize) -> (r: Vec<char>)
    ensures
        r@ == decimal(n as nat),
    decreases n,
{
    if n < 10 {
        let mut v: Vec<char> = Vec::new();
        v.push(digit_of(n));
        assert(v@ =~= decimal(n as nat));
        v
    } else {
        let mut v = decimal_chars(n / 10);
        v.push(digit_of(n % 10));
        v
    }
}

/// `a` followed by `b`.
pub fn concat_chars(a: &Vec<char>, b: &Vec<char>) -> (r: Vec<char>)
    ensures
        r@ == a@ + b@,
{
    let mut r: Vec<char> = Vec::new();
    let mut i: usize = 0;
    while i < a.len()
        invariant
            i <= a.len(),
            r@ == a@.take(i as int),
        decreases a.len() - i,
    {
        r.push(a[i]);
        i += 1;
        assert(r@ =~= a@.take(i as int));
    }
    let mut k: usize = 0;
    while k < b.len()
        invariant
            k <= b.len(),
            r@ == a@ + b@.take(k as int),
        decreases b.len() - k,
    {
        r.push(b[k]);
        k += 1;
        assert(r@ =~= a@ + b@.take(k as int));
    }
    assert(a@.take(a@.len() as int) =~= a@);
    assert(b@.take(b@.len() as int) =~= b@);
    r
}

} // verus!
