//! Text primitives: whitespace, searching and cutting, over `Seq<char>`.

use vstd::prelude::*;
use vstd::string::StringSliceAdditionalSpecFns;
use vstd::utf8::*;
use crate::scan::Scan;

verus! {

/// The characters with the Unicode property `White_Space`.
pub open spec fn is_whitespace(c: char) -> bool {
    let u = c as u32;
    ||| 0x09 <= u <= 0x0D
    ||| u == 0x20
    ||| u == 0x85
    ||| u == 0xA0
    ||| u == 0x1680
    ||| 0x2000 <= u <= 0x200A
    ||| u == 0x2028
    ||| u == 0x2029
    ||| u == 0x202F
    ||| u == 0x205F
    ||| u == 0x3000
}

/// Whether `c` separates the tokens of a line.
pub fn char_is_whitespace(c: char) -> (b: bool)
    ensures
        b == is_whitespace(c),
{
    let u: u32 = c as u32;
    (0x09 <= u && u <= 0x0D) || u == 0x20 || u == 0x85 || u == 0xA0 || u == 0x1680 || (0x2000 <= u
        && u <= 0x200A) || u == 0x2028 || u == 0x2029 || u == 0x202F || u == 0x205F || u == 0x3000
}

/// `pat` stands in `s` at index `i`.
pub open spec fn occurs_at(s: Seq<char>, pat: Seq<char>, i: int) -> bool {
    &&& 0 <= i
    &&& i + pat.len() <= s.len()
    &&& s.subrange(i, i + pat.len()) == pat
}

/// `pat` stands in `s` at index `i` and at no index before it.
pub open spec fn is_first_match(s: Seq<char>, pat: Seq<char>, i: int) -> bool {
    &&& occurs_at(s, pat, i)
    &&& forall|j: int| 0 <= j < i ==> !occurs_at(s, pat, j)
}

/// The least index at which `pat` stands in `s`, if it stands anywhere.
pub open spec fn first_match(s: Seq<char>, pat: Seq<char>) -> Option<int> {
    if exists|i: int| occurs_at(s, pat, i) {
        Some(choose|i: int| is_first_match(s, pat, i))
    } else {
        None
    }
}

/// Below any occurrence of `pat` there is a first one.
pub proof fn lemma_first_match_exists(s: Seq<char>, pat: Seq<char>, i: int)
    requires
        occurs_at(s, pat, i),
    ensures
        exists|k: int| 0 <= k <= i && is_first_match(s, pat, k),
    decreases i,
{
    if exists|j: int| 0 <= j < i && occurs_at(s, pat, j) {
        let j = choose|j: int| 0 <= j < i && occurs_at(s, pat, j);
        lemma_first_match_exists(s, pat, j);
    } else {
        assert(is_first_match(s, pat, i));
    }
}

/// `first_match` is `Some(i)` exactly for the first occurrence `i`.
pub proof fn lemma_first_match_some(s: Seq<char>, pat: Seq<char>, i: int)
    ensures
        first_match(s, pat) == Some(i) <==> is_first_match(s, pat, i),
{
    if exists|k: int| occurs_at(s, pat, k) {
        let k = choose|k: int| occurs_at(s, pat, k);
        lemma_first_match_exists(s, pat, k);
        let m = choose|m: int| is_first_match(s, pat, m);
        if is_first_match(s, pat, i) {
            assert(!(m < i));
            assert(!(i < m));
        }
    }
}

/// `first_match` is `None` exactly when `pat` stands nowhere in `s`.
pub proof fn lemma_first_match_none(s: Seq<char>, pat: Seq<char>)
    ensures
        first_match(s, pat) is None <==> forall|i: int| !occurs_at(s, pat, i),
{
}

/// The pieces of `s` between the occurrences of `sep`, taken from the left
/// and without overlap. There is one piece more than there are separators,
/// so the result is never empty.
pub open spec fn pieces(s: Seq<char>, sep: Seq<char>) -> Seq<Seq<char>>
    recommends
        sep.len() > 0,
    decreases s.len(),
    when sep.len() > 0
    via pieces_decreases
{
    match first_match(s, sep) {
        Some(i) => seq![s.subrange(0, i)] + pieces(s.subrange(i + sep.len(), s.len() as int), sep),
        None => seq![s],
    }
}

#[via_fn]
proof fn pieces_decreases(s: Seq<char>, sep: Seq<char>) {
    if let Some(i) = first_match(s, sep) {
        lemma_first_match_some(s, sep, i);
    }
}

/// The number of characters at the head of `s` that are not whitespace.
pub open spec fn word_len(s: Seq<char>) -> nat
    decreases s.len(),
{
    if s.len() == 0 || is_whitespace(s[0]) {
        0
    } else {
        1 + word_len(s.drop_first())
    }
}

/// The maximal runs of characters of `s` that are not whitespace, in order.
pub open spec fn tokens(s: Seq<char>) -> Seq<Seq<char>>
    decreases s.len(),
    via tokens_decreases
{
    if s.len() == 0 {
        seq![]
    } else if is_whitespace(s[0]) {
        tokens(s.drop_first())
    } else {
        seq![s.take(word_len(s) as int)] + tokens(s.skip(word_len(s) as int))
    }
}

#[via_fn]
proof fn tokens_decreases(s: Seq<char>) {
    if s.len() > 0 && !is_whitespace(s[0]) {
        lemma_word_len_bounds(s);
    }
}

/// `word_len` stops at the first whitespace character or at the end.
pub proof fn lemma_word_len_bounds(s: Seq<char>)
    ensures
        word_len(s) <= s.len(),
        forall|i: int| 0 <= i < word_len(s) ==> !is_whitespace(#[trigger] s[i]),
        word_len(s) < s.len() ==> is_whitespace(s[word_len(s) as int]),
        s.len() > 0 && !is_whitespace(s[0]) ==> word_len(s) > 0,
    decreases s.len(),
{
    if s.len() == 0 || is_whitespace(s[0]) {
    } else {
        let t = s.drop_first();
        lemma_word_len_bounds(t);
        assert forall|i: int| 0 <= i < word_len(s) implies !is_whitespace(#[trigger] s[i]) by {
            if i > 0 {
                assert(s[i] == t[i - 1]);
            }
        }
    }
}

/// A token: at least one character, none of them whitespace.
pub open spec fn is_token(t: Seq<char>) -> bool {
    &&& t.len() > 0
    &&& forall|i: int| 0 <= i < t.len() ==> !is_whitespace(#[trigger] t[i])
}

/// A token followed by whitespace, or by nothing, is the first token of
/// the text, and the rest gives the others.
pub proof fn lemma_tokens_after_token(t: Seq<char>, rest: Seq<char>)
    requires
        is_token(t),
        rest.len() > 0 ==> is_whitespace(rest[0]),
    ensures
        tokens(t + rest) == seq![t] + tokens(rest),
{
    let s = t + rest;
    assert(s[0] == t[0]);
    assert forall|i: int| 0 <= i < t.len() implies !is_whitespace(#[trigger] s[i]) by {
        assert(s[i] == t[i]);
    }
    if t.len() < s.len() {
        assert(s[t.len() as int] == rest[0]);
    }
    lemma_word_len_is(s, t.len() as int);
    assert(s.take(t.len() as int) =~= t);
    assert(s.skip(t.len() as int) =~= rest);
}

/// Whitespace at the head of a text adds no token.
pub proof fn lemma_tokens_after_whitespace(c: char, rest: Seq<char>)
    requires
        is_whitespace(c),
    ensures
        tokens(seq![c] + rest) == tokens(rest),
{
    let s = seq![c] + rest;
    assert(s[0] == c);
    assert(s.drop_first() =~= rest);
}

/// Where the first character of `pat` does not occur in `head`, the first
/// occurrence of `pat` in `head + pat + tail` is the one written there.
pub proof fn lemma_first_match_after(head: Seq<char>, pat: Seq<char>, tail: Seq<char>)
    requires
        pat.len() > 0,
        forall|i: int| 0 <= i < head.len() ==> #[trigger] head[i] != pat[0],
    ensures
        first_match(head + pat + tail, pat) == Some(head.len() as int),
{
    let s = head + pat + tail;
    let n = head.len() as int;
    assert(s.subrange(n, n + pat.len()) =~= pat);
    assert forall|j: int| 0 <= j < n implies !occurs_at(s, pat, j) by {
        if j + pat.len() <= s.len() {
            assert(s.subrange(j, j + pat.len())[0] == head[j]);
        }
    }
    lemma_first_match_some(s, pat, n);
}

/// What the pieces of a text are, by its first separator.
pub proof fn lemma_pieces_unfold(s: Seq<char>, sep: Seq<char>)
    requires
        sep.len() > 0,
    ensures
        pieces(s, sep).len() >= 1,
        first_match(s, sep) is None ==> pieces(s, sep) == seq![s],
        first_match(s, sep) matches Some(i) ==> {
            &&& pieces(s, sep).first() == s.subrange(0, i)
            &&& pieces(s, sep).last() == pieces(
                s.subrange(i + sep.len(), s.len() as int),
                sep,
            ).last()
            &&& pieces(s, sep).len() == 1 + pieces(
                s.subrange(i + sep.len(), s.len() as int),
                sep,
            ).len()
        },
    decreases s.len(),
{
    if let Some(i) = first_match(s, sep) {
        lemma_first_match_some(s, sep, i);
        lemma_pieces_unfold(s.subrange(i + sep.len(), s.len() as int), sep);
    }
}

/// The views of the string slices in `v`.
pub open spec fn views(v: Seq<&str>) -> Seq<Seq<char>> {
    Seq::new(v.len(), |i: int| v[i]@)
}

/// The characters of `s`, in order.
pub fn chars_of(s: &str) -> (v: Vec<char>)
    ensures
        v@ == s@,
{
    let mut v: Vec<char> = Vec::new();
    for c in it: s.chars()
        invariant
            v@ == it.seq().take(it.index() as int),
            it.seq() == s@,
    {
        v.push(c);
    }
    v
}

/// Whether `a` and `b` hold the same characters.
pub fn str_eq(a: &str, b: &str) -> (r: bool)
    ensures
        r == (a@ == b@),
{
    let x = a.as_bytes();
    let y = b.as_bytes();
    proof {
        encode_utf8_decode_utf8(a@);
        encode_utf8_decode_utf8(b@);
    }
    if x.len() != y.len() {
        return false;
    }
    let n: usize = x.len();
    let mut i: usize = 0;
    while i < n
        invariant
            i <= n,
            n == x@.len(),
            n == y@.len(),
            x@ == encode_utf8(a@),
            y@ == encode_utf8(b@),
            forall|j: int| 0 <= j < i ==> x@[j] == y@[j],
        decreases n - i,
    {
        if x[i] != y[i] {
            return false;
        }
        i += 1;
    }
    proof {
        assert(x@ =~= y@);
    }
    true
}

/// An occurrence in a suffix of `s` is an occurrence in `s`, moved by the
/// length of what was cut off.
pub proof fn lemma_occurs_at_suffix(s: Seq<char>, pat: Seq<char>, from: int, j: int)
    requires
        0 <= from <= s.len(),
        0 <= j,
    ensures
        occurs_at(s.subrange(from, s.len() as int), pat, j) <==> occurs_at(s, pat, from + j),
{
    let t = s.subrange(from, s.len() as int);
    if j + pat.len() <= t.len() {
        assert(t.subrange(j, j + pat.len()) =~= s.subrange(from + j, from + j + pat.len()));
    }
}

/// Whether `pat` stands in `hay` at index `i`.
pub fn matches_at(hay: &[char], pat: &[char], i: usize) -> (b: bool)
    ensures
        b == occurs_at(hay@, pat@, i as int),
{
    let m: usize = pat.len();
    if m > hay.len() || i > hay.len() - m {
        return false;
    }
    let mut k: usize = 0;
    while k < m
        invariant
            k <= m,
            m == pat.len(),
            i + m <= hay.len(),
            forall|l: int| 0 <= l < k ==> hay@[i + l] == pat@[l],
        decreases m - k,
    {
        if hay[i + k] != pat[k] {
            proof {
                assert(hay@.subrange(i as int, i + m)[k as int] == hay@[i + k]);
            }
            return false;
        }
        k += 1;
    }
    proof {
        assert(hay@.subrange(i as int, i + m) =~= pat@);
    }
    true
}

/// The first index at or after `from` at which `pat` stands in `hay`.
pub fn find(hay: &[char], pat: &[char], from: usize) -> (r: Option<usize>)
    ensures
        match r {
            Some(i) => {
                &&& from <= i
                &&& occurs_at(hay@, pat@, i as int)
                &&& forall|j: int| from <= j < i ==> !occurs_at(hay@, pat@, j)
            },
            None => forall|j: int| from <= j ==> !occurs_at(hay@, pat@, j),
        },
{
    let n: usize = hay.len();
    if from > n {
        return None;
    }
    let mut i: usize = from;
    while i < n
        invariant
            from <= i <= n,
            n == hay.len(),
            forall|j: int| from <= j < i ==> !occurs_at(hay@, pat@, j),
        decreases n - i,
    {
        if matches_at(hay, pat, i) {
            return Some(i);
        }
        i += 1;
    }
    if matches_at(hay, pat, n) {
        Some(n)
    } else {
        None
    }
}

/// Cuts `s` at every occurrence of `sep`, from the left and without overlap.
pub fn split<'a>(s: &'a str, sep: &str) -> (out: Vec<&'a str>)
    requires
        sep@.len() > 0,
    ensures
        views(out@) == pieces(s@, sep@),
{
    let scan = Scan::new(s);
    let chars = scan.chars();
    let pat = chars_of(sep);
    let n: usize = chars.len();
    let mut out: Vec<&'a str> = Vec::new();
    let mut pos: usize = 0;
    proof {
        assert(s@.subrange(0, n as int) =~= s@);
        assert(views(out@) + pieces(s@, sep@) =~= pieces(s@, sep@));
    }
    loop
        invariant_except_break
            pos <= n,
            pieces(s@, sep@) == views(out@) + pieces(s@.subrange(pos as int, n as int), sep@),
        invariant
            n == s@.len(),
            scan.text() == s@,
            chars@ == s@,
            pat@ == sep@,
            sep@.len() > 0,
        ensures
            views(out@) == pieces(s@, sep@),
        decreases n - pos,
    {
        let ghost rest = s@.subrange(pos as int, n as int);
        let ghost before = out@;
        match find(chars, pat.as_slice(), pos) {
            Some(i) => {
                proof {
                    assert forall|j: int| 0 <= j < i - pos implies !occurs_at(rest, sep@, j) by {
                        lemma_occurs_at_suffix(s@, sep@, pos as int, j);
                    }
                    lemma_occurs_at_suffix(s@, sep@, pos as int, i - pos);
                    lemma_first_match_some(rest, sep@, i - pos);
                    assert(rest.subrange(0, i - pos) =~= s@.subrange(pos as int, i as int));
                    assert(rest.subrange(i - pos + sep@.len(), rest.len() as int) =~= s@.subrange(
                        i + sep@.len(),
                        n as int,
                    ));
                }
                out.push(scan.slice(pos, i));
                proof {
                    assert(views(out@) =~= views(before) + seq![rest.subrange(0, i - pos)]);
                }
                pos = i + pat.len();
            },
            None => {
                proof {
                    assert forall|j: int| !occurs_at(rest, sep@, j) by {
                        if 0 <= j {
                            lemma_occurs_at_suffix(s@, sep@, pos as int, j);
                        }
                    }
                }
                out.push(scan.slice(pos, n));
                proof {
                    assert(views(out@) =~= views(before) + seq![rest]);
                }
                break ;
            },
        }
    }
    out
}

/// Cuts `s` in two at the first occurrence of `sep`, which is left out.
pub fn split_once<'a>(s: &'a str, sep: &str) -> (r: Option<(&'a str, &'a str)>)
    ensures
        match first_match(s@, sep@) {
            Some(i) => r matches Some((head, tail)) && head@ == s@.subrange(0, i) && tail@
                == s@.subrange(i + sep@.len(), s@.len() as int),
            None => r is None,
        },
{
    let scan = Scan::new(s);
    let chars = scan.chars();
    let pat = chars_of(sep);
    match find(chars, pat.as_slice(), 0) {
        Some(i) => {
            proof {
                lemma_first_match_some(s@, sep@, i as int);
            }
            assert(i + pat.len() <= chars.len());
            let head = scan.slice(0, i);
            let tail = scan.slice(i + pat.len(), chars.len());
            Some((head, tail))
        },
        None => None,
    }
}

/// A prefix without whitespace that ends at whitespace, or at the end of
/// `s`, is the first word of `s`.
pub proof fn lemma_word_len_is(s: Seq<char>, k: int)
    requires
        0 <= k <= s.len(),
        forall|i: int| 0 <= i < k ==> !is_whitespace(#[trigger] s[i]),
        k < s.len() ==> is_whitespace(s[k]),
    ensures
        word_len(s) == k,
    decreases s.len(),
{
    if k > 0 {
        let t = s.drop_first();
        assert forall|i: int| 0 <= i < k - 1 implies !is_whitespace(#[trigger] t[i]) by {
            assert(t[i] == s[i + 1]);
        }
        lemma_word_len_is(t, k - 1);
    }
}

/// Cuts `s` into its maximal runs of characters that are not whitespace.
pub fn split_whitespace<'a>(s: &'a str) -> (out: Vec<&'a str>)
    ensures
        views(out@) == tokens(s@),
{
    let scan = Scan::new(s);
    let chars = scan.chars();
    let n: usize = chars.len();
    let mut out: Vec<&'a str> = Vec::new();
    let mut pos: usize = 0;
    proof {
        assert(s@.skip(0) =~= s@);
        assert(views(out@) + tokens(s@) =~= tokens(s@));
    }
    while pos < n
        invariant
            pos <= n,
            n == s@.len(),
            scan.text() == s@,
            chars@ == s@,
            tokens(s@) == views(out@) + tokens(s@.skip(pos as int)),
        decreases n - pos,
    {
        let ghost rest = s@.skip(pos as int);
        let ghost before = out@;
        if char_is_whitespace(chars[pos]) {
            proof {
                assert(rest.drop_first() =~= s@.skip(pos + 1));
            }
            pos += 1;
        } else {
            let mut end: usize = pos + 1;
            while end < n && !char_is_whitespace(chars[end])
                invariant
                    pos < end <= n,
                    n == s@.len(),
                    chars@ == s@,
                    forall|i: int| pos <= i < end ==> !is_whitespace(#[trigger] s@[i]),
                decreases n - end,
            {
                end += 1;
            }
            proof {
                lemma_word_len_is(rest, end - pos);
                assert(rest.take(end - pos) =~= s@.subrange(pos as int, end as int));
                assert(rest.skip(end - pos) =~= s@.skip(end as int));
            }
            out.push(scan.slice(pos, end));
            proof {
                assert(views(out@) =~= views(before) + seq![rest.take(end - pos)]);
            }
            pos = end;
        }
    }
    proof {
        assert(s@.skip(n as int) =~= Seq::<char>::empty());
        assert(views(out@) + Seq::<Seq<char>>::empty() =~= views(out@));
    }
    out
}

} // verus!
