//! Character-sequence primitives shared by the parser and the book
//! converters, each specified over `Seq<char>`.

use vstd::prelude::*;

verus! {

/// The views of a sequence of character vectors.
pub open spec fn views(v: Seq<Vec<char>>) -> Seq<Seq<char>> {
    v.map_values(|t: Vec<char>| t@)
}

/// The views of a sequence of strings.
pub open spec fn strs(v: Seq<String>) -> Seq<Seq<char>> {
    v.map_values(|t: String| t@)
}

pub proof fn lemma_views_push(v: Seq<Vec<char>>, x: Vec<char>)
    ensures
        views(v.push(x)) == views(v).push(x@),
{
    assert(views(v.push(x)) =~= views(v).push(x@));
}

pub proof fn lemma_take_succ<A>(s: Seq<A>, i: int)
    requires
        0 <= i < s.len(),
    ensures
        s.take(i + 1).drop_last() == s.take(i),
        s.take(i + 1).last() == s[i],
        s.take(i + 1).len() == i + 1,
{
    assert(s.take(i + 1).drop_last() =~= s.take(i));
}

pub proof fn lemma_take_full<A>(s: Seq<A>)
    ensures
        s.take(s.len() as int) == s,
{
    assert(s.take(s.len() as int) =~= s);
}

/// The Unicode `White_Space` property, which `char::is_whitespace` and
/// `str::trim` follow.
pub open spec fn is_ws(c: char) -> bool {
    let u = c as u32;
    (0x9 <= u && u <= 0xd) || u == 0x20 || u == 0x85 || u == 0xa0 || u == 0x1680 || (0x2000 <= u
        && u <= 0x200a) || u == 0x2028 || u == 0x2029 || u == 0x202f || u == 0x205f || u == 0x3000
}

pub fn char_is_ws(c: char) -> (r: bool)
    ensures
        r == is_ws(c),
{
    let u = c as u32;
    (0x9 <= u && u <= 0xd) || u == 0x20 || u == 0x85 || u == 0xa0 || u == 0x1680 || (0x2000 <= u
        && u <= 0x200a) || u == 0x2028 || u == 0x2029 || u == 0x202f || u == 0x205f || u == 0x3000
}

/// `s` without its leading whitespace.
pub open spec fn trim_start(s: Seq<char>) -> Seq<char>
    decreases s.len(),
{
    if s.len() > 0 && is_ws(s[0]) {
        trim_start(s.drop_first())
    } else {
        s
    }
}

/// `s` without its trailing whitespace.
pub open spec fn trim_end(s: Seq<char>) -> Seq<char>
    decreases s.len(),
{
    if s.len() > 0 && is_ws(s.last()) {
        trim_end(s.drop_last())
    } else {
        s
    }
}

/// `s` without leading or trailing whitespace, as `str::trim` gives it.
pub open spec fn trim(s: Seq<char>) -> Seq<char> {
    trim_end(trim_start(s))
}

/// The characters of `s`, in order.
pub fn chars_of(s: &str) -> (r: Vec<char>)
    ensures
        r@ == s@,
{
    broadcast use vstd::string::group_string_axioms;

    let mut r: Vec<char> = Vec::new();
    for c in it: s.chars()
        invariant
            r@ == it.seq().take(it.index() as int),
            it.seq() == s@,
    {
        r.push(c);
    }
    r
}

/// A string holding exactly the characters of `v`: `String`'s
/// `FromIterator<&char>`.
#[verifier::external_body]
pub(crate) fn string_of(v: &Vec<char>) -> (r: String)
    ensures
        r@ == v@,
{
    v.iter().collect()
}

/// The characters `s[lo..hi]`.
pub fn slice(s: &Vec<char>, lo: usize, hi: usize) -> (r: Vec<char>)
    requires
        lo <= hi <= s.len(),
    ensures
        r@ == s@.subrange(lo as int, hi as int),
{
    let mut r: Vec<char> = Vec::new();
    let mut i: usize = lo;
    while i < hi
        invariant
            lo <= i <= hi <= s.len(),
            r@ == s@.subrange(lo as int, i as int),
        decreases hi - i,
    {
        r.push(s[i]);
        proof {
            assert(r@ =~= s@.subrange(lo as int, i + 1));
        }
        i = i + 1;
    }
    r
}

/// Appends `t` to `v`.
pub fn append(v: &mut Vec<char>, t: &Vec<char>)
    ensures
        final(v)@ == old(v)@ + t@,
{
    let mut i: usize = 0;
    while i < t.len()
        invariant
            i <= t.len(),
            v@ == old(v)@ + t@.take(i as int),
        decreases t.len() - i,
    {
        v.push(t[i]);
        proof {
            assert(v@ =~= old(v)@ + t@.take(i + 1));
        }
        i = i + 1;
    }
    proof {
        lemma_take_full(t@);
    }
}

/// Appends the characters of `t` to `v`.
pub fn append_str(v: &mut Vec<char>, t: &str)
    ensures
        final(v)@ == old(v)@ + t@,
{
    let c = chars_of(t);
    append(v, &c);
}

/// Whether `a` and `b` hold the same characters.
pub fn same(a: &Vec<char>, b: &Vec<char>) -> (r: bool)
    ensures
        r == (a@ == b@),
{
    if a.len() != b.len() {
        return false;
    }
    let mut i: usize = 0;
    while i < a.len()
        invariant
            a.len() == b.len(),
            i <= a.len(),
            forall|k: int| 0 <= k < i ==> a@[k] == b@[k],
        decreases a.len() - i,
    {
        if a[i] != b[i] {
            return false;
        }
        i = i + 1;
    }
    assert(a@ =~= b@);
    true
}

/// Whether `a` holds exactly the characters of `b`.
pub fn same_as(a: &Vec<char>, b: &str) -> (r: bool)
    ensures
        r == (a@ == b@),
{
    let c = chars_of(b);
    same(a, &c)
}

/// `trim` as an executable function.
pub fn trimmed(s: &Vec<char>) -> (r: Vec<char>)
    ensures
        r@ == trim(s@),
{
    let n: usize = s.len();
    let mut i: usize = 0;
    assert(s@.subrange(0, n as int) =~= s@);
    while i < n && char_is_ws(s[i])
        invariant
            n == s.len(),
            i <= n,
            trim_start(s@) == trim_start(s@.subrange(i as int, n as int)),
        decreases n - i,
    {
        proof {
            assert(s@.subrange(i as int, n as int).drop_first() =~= s@.subrange(i + 1, n as int));
        }
        i = i + 1;
    }
    proof {
        if i < n {
            assert(s@.subrange(i as int, n as int)[0] == s@[i as int]);
        }
    }
    let mut j: usize = n;
    while j > i && char_is_ws(s[j - 1])
        invariant
            n == s.len(),
            i <= j <= n,
            trim(s@) == trim_end(s@.subrange(i as int, j as int)),
        decreases j,
    {
        proof {
            assert(s@.subrange(i as int, j as int).drop_last() =~= s@.subrange(i as int, j - 1));
        }
        j = j - 1;
    }
    proof {
        if j > i {
            assert(s@.subrange(i as int, j as int).last() == s@[j - 1]);
        }
    }
    slice(s, i, j)
}


/// One line of `str::lines` with its `\r` (before a `\n`) removed.
pub open spec fn strip_cr(t: Seq<char>) -> Seq<char> {
    if t.len() > 0 && t.last() == '\r' {
        t.drop_last()
    } else {
        t
    }
}

/// The finished lines of `s` and the line still being read, scanning
/// left to right.
pub open spec fn lines_acc(s: Seq<char>) -> (Seq<Seq<char>>, Seq<char>)
    decreases s.len(),
{
    if s.len() == 0 {
        (seq![], seq![])
    } else {
        let prev = lines_acc(s.drop_last());
        if s.last() == '\n' {
            (prev.0.push(strip_cr(prev.1)), seq![])
        } else {
            (prev.0, prev.1.push(s.last()))
        }
    }
}

/// The lines of `s`, as `str::lines` gives them: split after each `\n`,
/// the line ending (`\n` or `\r\n`) removed, and no empty line after a
/// final `\n`.
pub open spec fn lines(s: Seq<char>) -> Seq<Seq<char>> {
    let a = lines_acc(s);
    if a.1.len() > 0 {
        a.0.push(a.1)
    } else {
        a.0
    }
}

pub fn lines_of(s: &Vec<char>) -> (r: Vec<Vec<char>>)
    ensures
        views(r@) == lines(s@),
{
    let mut done: Vec<Vec<char>> = Vec::new();
    let mut cur: Vec<char> = Vec::new();
    let mut i: usize = 0;
    while i < s.len()
        invariant
            i <= s.len(),
            (views(done@), cur@) == lines_acc(s@.take(i as int)),
        decreases s.len() - i,
    {
        proof {
            lemma_take_succ(s@, i as int);
        }
        let c = s[i];
        if c == '\n' {
            if cur.len() > 0 && cur[cur.len() - 1] == '\r' {
                cur.pop();
            }
            proof {
                lemma_views_push(done@, cur);
            }
            done.push(cur);
            cur = Vec::new();
        } else {
            cur.push(c);
        }
        i = i + 1;
    }
    proof {
        lemma_take_full(s@);
    }
    if cur.len() > 0 {
        proof {
            lemma_views_push(done@, cur);
        }
        done.push(cur);
    }
    done
}

/// The pieces of `s` between occurrences of `sep`, and the piece still
/// being read, scanning left to right.
pub open spec fn split_acc(s: Seq<char>, sep: char) -> (Seq<Seq<char>>, Seq<char>)
    decreases s.len(),
{
    if s.len() == 0 {
        (seq![], seq![])
    } else {
        let prev = split_acc(s.drop_last(), sep);
        if s.last() == sep {
            (prev.0.push(prev.1), seq![])
        } else {
            (prev.0, prev.1.push(s.last()))
        }
    }
}

/// `str::split` on one character: every piece, empty ones included.
pub open spec fn split_char(s: Seq<char>, sep: char) -> Seq<Seq<char>> {
    let a = split_acc(s, sep);
    a.0.push(a.1)
}

pub fn split_on_char(s: &Vec<char>, sep: char) -> (r: Vec<Vec<char>>)
    ensures
        views(r@) == split_char(s@, sep),
{
    let mut done: Vec<Vec<char>> = Vec::new();
    let mut cur: Vec<char> = Vec::new();
    let mut i: usize = 0;
    while i < s.len()
        invariant
            i <= s.len(),
            (views(done@), cur@) == split_acc(s@.take(i as int), sep),
        decreases s.len() - i,
    {
        proof {
            lemma_take_succ(s@, i as int);
        }
        let c = s[i];
        if c == sep {
            proof {
                lemma_views_push(done@, cur);
            }
            done.push(cur);
            cur = Vec::new();
        } else {
            cur.push(c);
        }
        i = i + 1;
    }
    proof {
        lemma_take_full(s@);
        lemma_views_push(done@, cur);
    }
    done.push(cur);
    done
}

/// The words of `s` and the word still being read, scanning left to
/// right.
pub open spec fn words_acc(s: Seq<char>) -> (Seq<Seq<char>>, Seq<char>)
    decreases s.len(),
{
    if s.len() == 0 {
        (seq![], seq![])
    } else {
        let prev = words_acc(s.drop_last());
        if is_ws(s.last()) {
            if prev.1.len() > 0 {
                (prev.0.push(prev.1), seq![])
            } else {
                prev
            }
        } else {
            (prev.0, prev.1.push(s.last()))
        }
    }
}

/// `str::split_whitespace`: the maximal runs of non-whitespace.
pub open spec fn words(s: Seq<char>) -> Seq<Seq<char>> {
    let a = words_acc(s);
    if a.1.len() > 0 {
        a.0.push(a.1)
    } else {
        a.0
    }
}

pub fn words_of(s: &Vec<char>) -> (r: Vec<Vec<char>>)
    ensures
        views(r@) == words(s@),
{
    let mut done: Vec<Vec<char>> = Vec::new();
    let mut cur: Vec<char> = Vec::new();
    let mut i: usize = 0;
    while i < s.len()
        invariant
            i <= s.len(),
            (views(done@), cur@) == words_acc(s@.take(i as int)),
        decreases s.len() - i,
    {
        proof {
            lemma_take_succ(s@, i as int);
        }
        let c = s[i];
        if char_is_ws(c) {
            if cur.len() > 0 {
                proof {
                    lemma_views_push(done@, cur);
                }
                done.push(cur);
                cur = Vec::new();
            }
        } else {
            cur.push(c);
        }
        i = i + 1;
    }
    proof {
        lemma_take_full(s@);
    }
    if cur.len() > 0 {
        proof {
            lemma_views_push(done@, cur);
        }
        done.push(cur);
    }
    done
}

/// Whether `p` occurs in `s` starting at index `i`.
pub open spec fn occurs_at(s: Seq<char>, p: Seq<char>, i: int) -> bool {
    0 <= i && i + p.len() <= s.len() && s.subrange(i, i + p.len()) == p
}

/// The first index at or after `i` where `p` occurs in `s`.
pub open spec fn find_from(s: Seq<char>, p: Seq<char>, i: int) -> Option<int>
    decreases s.len() + 1 - i,
{
    if i < 0 || i + p.len() > s.len() {
        None
    } else if occurs_at(s, p, i) {
        Some(i)
    } else {
        find_from(s, p, i + 1)
    }
}

/// `str::find` with a string pattern: the first index where `p` occurs.
pub open spec fn find(s: Seq<char>, p: Seq<char>) -> Option<int> {
    find_from(s, p, 0)
}

pub proof fn lemma_find_from(s: Seq<char>, p: Seq<char>, i: int)
    requires
        0 <= i,
    ensures
        find_from(s, p, i) matches Some(k) ==> i <= k && occurs_at(s, p, k) && forall|j: int|
            i <= j < k ==> !occurs_at(s, p, j),
        find_from(s, p, i) is None ==> forall|j: int| i <= j ==> !occurs_at(s, p, j),
    decreases s.len() + 1 - i,
{
    if i < 0 || i + p.len() > s.len() {
    } else if occurs_at(s, p, i) {
    } else {
        lemma_find_from(s, p, i + 1);
    }
}

pub fn find_in(s: &Vec<char>, p: &Vec<char>, start: usize) -> (r: Option<usize>)
    requires
        start <= s.len(),
    ensures
        r matches Some(k) ==> find_from(s@, p@, start as int) == Some(k as int),
        r is None ==> find_from(s@, p@, start as int) is None,
{
    let mut i: usize = start;
    while p.len() <= s.len() - i
        invariant
            start <= i <= s.len(),
            find_from(s@, p@, start as int) == find_from(s@, p@, i as int),
        decreases s.len() - i,
    {
        let mut k: usize = 0;
        let mut ok: bool = true;
        while k < p.len()
            invariant
                i + p.len() <= s.len(),
                k <= p.len(),
                ok == (forall|m: int| 0 <= m < k ==> s@[i + m] == p@[m]),
            decreases p.len() - k,
        {
            if s[i + k] != p[k] {
                ok = false;
            }
            k = k + 1;
        }
        if ok {
            assert(s@.subrange(i as int, i + p.len()) =~= p@);
            return Some(i);
        } else {
            proof {
                if occurs_at(s@, p@, i as int) {
                    assert forall|m: int| 0 <= m < p.len() implies s@[i + m] == p@[m] by {
                        assert(s@.subrange(i as int, i + p.len())[m] == s@[i + m]);
                    }
                }
            }
        }
        i = i + 1;
    }
    None
}




/// `s` with the prefix `p` removed, if it has it.
pub open spec fn strip_prefix(s: Seq<char>, p: Seq<char>) -> Option<Seq<char>> {
    if p.len() <= s.len() && s.take(p.len() as int) == p {
        Some(s.skip(p.len() as int))
    } else {
        None
    }
}

/// `s` with the suffix `p` removed, if it has it.
pub open spec fn strip_suffix(s: Seq<char>, p: Seq<char>) -> Option<Seq<char>> {
    if p.len() <= s.len() && s.skip(s.len() - p.len()) == p {
        Some(s.take(s.len() - p.len()))
    } else {
        None
    }
}

pub fn starts_with(s: &Vec<char>, p: &Vec<char>) -> (r: bool)
    ensures
        r == (p.len() <= s.len() && s@.take(p.len() as int) == p@),
{
    if p.len() > s.len() {
        return false;
    }
    let head = slice(s, 0, p.len());
    same(&head, p)
}

pub fn ends_with(s: &Vec<char>, p: &Vec<char>) -> (r: bool)
    ensures
        r == (p.len() <= s.len() && s@.skip(s.len() - p.len()) == p@),
{
    if p.len() > s.len() {
        return false;
    }
    let tail = slice(s, s.len() - p.len(), s.len());
    assert(tail@ =~= s@.skip(s.len() - p.len()));
    same(&tail, p)
}

pub fn strip_prefix_of(s: &Vec<char>, p: &Vec<char>) -> (r: Option<Vec<char>>)
    ensures
        r matches Some(t) ==> strip_prefix(s@, p@) == Some(t@),
        r is None ==> strip_prefix(s@, p@) is None,
{
    if starts_with(s, p) {
        let t = slice(s, p.len(), s.len());
        Some(t)
    } else {
        None
    }
}

pub fn strip_suffix_of(s: &Vec<char>, p: &Vec<char>) -> (r: Option<Vec<char>>)
    ensures
        r matches Some(t) ==> strip_suffix(s@, p@) == Some(t@),
        r is None ==> strip_suffix(s@, p@) is None,
{
    if ends_with(s, p) {
        let t = slice(s, 0, s.len() - p.len());
        Some(t)
    } else {
        None
    }
}

/// The pieces joined with `sep` between each two.
pub open spec fn join(ps: Seq<Seq<char>>, sep: Seq<char>) -> Seq<char>
    decreases ps.len(),
{
    if ps.len() == 0 {
        seq![]
    } else if ps.len() == 1 {
        ps[0]
    } else {
        join(ps.drop_last(), sep) + sep + ps.last()
    }
}

pub fn join_with(ps: &Vec<Vec<char>>, sep: &Vec<char>) -> (r: Vec<char>)
    ensures
        r@ == join(views(ps@), sep@),
{
    let mut r: Vec<char> = Vec::new();
    let mut i: usize = 0;
    while i < ps.len()
        invariant
            i <= ps.len(),
            r@ == join(views(ps@).take(i as int), sep@),
        decreases ps.len() - i,
    {
        proof {
            lemma_take_succ(views(ps@), i as int);
        }
        if i > 0 {
            append(&mut r, sep);
        }
        append(&mut r, &ps[i]);
        i = i + 1;
    }
    proof {
        lemma_take_full(views(ps@));
    }
    r
}

pub fn join_str(ps: &Vec<Vec<char>>, sep: &str) -> (r: Vec<char>)
    ensures
        r@ == join(views(ps@), sep@),
{
    let s = chars_of(sep);
    join_with(ps, &s)
}


/// What `str::to_lowercase` gives for the string of the characters `s`
/// (Unicode lowercase mapping, with its context-dependent final sigma).
pub uninterp spec fn lower(s: Seq<char>) -> Seq<char>;

/// What `char::to_uppercase` yields for `c`.
pub uninterp spec fn upper_of(c: char) -> Seq<char>;

/// What `char::is_alphabetic` says of `c` (the Unicode `Alphabetic`
/// property).
pub uninterp spec fn alphabetic(c: char) -> bool;

/// What `char::is_uppercase` says of `c` (the Unicode `Uppercase`
/// property).
pub uninterp spec fn uppercase(c: char) -> bool;

/// What `char::is_lowercase` says of `c` (the Unicode `Lowercase`
/// property).
pub uninterp spec fn lowercase(c: char) -> bool;

/// An ASCII character.
pub open spec fn is_ascii_char(c: char) -> bool {
    (c as u32) < 128
}

pub open spec fn is_ascii_upper(c: char) -> bool {
    'A' <= c && c <= 'Z'
}

pub open spec fn is_ascii_lower(c: char) -> bool {
    'a' <= c && c <= 'z'
}

/// `c` with `A` to `Z` made `a` to `z`.
pub open spec fn ascii_lower(c: char) -> char {
    if is_ascii_upper(c) {
        ((c as u32) + 32) as char
    } else {
        c
    }
}

/// `c` with `a` to `z` made `A` to `Z`.
pub open spec fn ascii_upper(c: char) -> char {
    if is_ascii_lower(c) {
        ((c as u32) - 32) as char
    } else {
        c
    }
}

/// Text of ASCII characters only.
pub open spec fn all_ascii(s: Seq<char>) -> bool {
    forall|i: int| 0 <= i < s.len() ==> is_ascii_char(#[trigger] s[i])
}

/// The lowercase of `s` as `str::to_lowercase` gives it: on ASCII text,
/// `A` to `Z` become `a` to `z` and nothing else changes (the Unicode
/// lowercase mapping of the ASCII characters); beyond ASCII, named.
pub open spec fn lowercase_of(s: Seq<char>) -> Seq<char> {
    if all_ascii(s) {
        s.map_values(|c: char| ascii_lower(c))
    } else {
        lower(s)
    }
}

/// What `char::to_uppercase` yields for `c`: for an ASCII character its
/// ASCII uppercase alone; beyond ASCII, named.
pub open spec fn uppercase_of(c: char) -> Seq<char> {
    if is_ascii_char(c) {
        seq![ascii_upper(c)]
    } else {
        upper_of(c)
    }
}

/// `char::is_alphabetic`: among ASCII characters exactly the letters.
pub open spec fn is_letter(c: char) -> bool {
    if is_ascii_char(c) {
        is_ascii_upper(c) || is_ascii_lower(c)
    } else {
        alphabetic(c)
    }
}

/// `char::is_uppercase`: among ASCII characters exactly `A` to `Z`.
pub open spec fn is_upper(c: char) -> bool {
    if is_ascii_char(c) {
        is_ascii_upper(c)
    } else {
        uppercase(c)
    }
}

/// `char::is_lowercase`: among ASCII characters exactly `a` to `z`.
pub open spec fn is_lower(c: char) -> bool {
    if is_ascii_char(c) {
        is_ascii_lower(c)
    } else {
        lowercase(c)
    }
}

/// Calls `str::to_lowercase` on the string of the characters of `v`. On
/// ASCII text the Unicode lowercase mapping is ASCII's; beyond ASCII the
/// result is named by `lower` and not spelled out here.
#[verifier::external_body]
pub(crate) fn to_lower(v: &Vec<char>) -> (r: Vec<char>)
    ensures
        r@ == lowercase_of(v@),
        !all_ascii(v@) ==> r@ == lower(v@),
{
    let s: String = v.iter().collect();
    s.to_lowercase().chars().collect()
}

/// Calls `char::to_uppercase` and collects what it yields: the ASCII
/// uppercase for an ASCII character, otherwise named by `upper_of`.
#[verifier::external_body]
pub(crate) fn char_to_upper(c: char) -> (r: Vec<char>)
    ensures
        r@ == uppercase_of(c),
        !is_ascii_char(c) ==> r@ == upper_of(c),
{
    c.to_uppercase().collect()
}

/// Calls `char::is_alphabetic`: true of the ASCII letters and no other
/// ASCII character; beyond ASCII named by `alphabetic`.
#[verifier::external_body]
pub(crate) fn is_alphabetic(c: char) -> (r: bool)
    ensures
        r == is_letter(c),
        !is_ascii_char(c) ==> r == alphabetic(c),
{
    c.is_alphabetic()
}

/// Calls `char::is_uppercase`: among ASCII characters true of `A` to `Z`
/// only; beyond ASCII named by `uppercase`.
#[verifier::external_body]
pub(crate) fn is_uppercase(c: char) -> (r: bool)
    ensures
        r == is_upper(c),
        !is_ascii_char(c) ==> r == uppercase(c),
{
    c.is_uppercase()
}

/// Calls `char::is_lowercase`: among ASCII characters true of `a` to `z`
/// only; beyond ASCII named by `lowercase`.
#[verifier::external_body]
pub(crate) fn is_lowercase(c: char) -> (r: bool)
    ensures
        r == is_lower(c),
        !is_ascii_char(c) ==> r == lowercase(c),
{
    c.is_lowercase()
}

/// Whether `c` is one of `0` to `9`.
pub open spec fn is_digit(c: char) -> bool {
    '0' <= c && c <= '9'
}

/// The code point of `c` with `A` to `Z` mapped to `a` to `z`, as
/// `char::to_ascii_lowercase`.
pub open spec fn ascii_fold(c: char) -> int {
    let u = c as u32;
    if 65 <= u && u <= 90 {
        u + 32
    } else {
        u as int
    }
}

/// `str::eq_ignore_ascii_case`.
pub open spec fn eq_ignore_ascii_case(a: Seq<char>, b: Seq<char>) -> bool {
    a.len() == b.len() && forall|i: int| 0 <= i < a.len() ==> ascii_fold(a[i]) == ascii_fold(b[i])
}

pub fn same_ignoring_ascii_case(a: &Vec<char>, b: &str) -> (r: bool)
    ensures
        r == eq_ignore_ascii_case(a@, b@),
{
    let w = chars_of(b);
    if a.len() != w.len() {
        return false;
    }
    let mut i: usize = 0;
    while i < a.len()
        invariant
            a.len() == w.len(),
            w@ == b@,
            i <= a.len(),
            forall|k: int| 0 <= k < i ==> ascii_fold(a@[k]) == ascii_fold(w@[k]),
        decreases a.len() - i,
    {
        let ux: u32 = a[i] as u32;
        let uy: u32 = w[i] as u32;
        let fx: u32 = if 65 <= ux && ux <= 90 {
            ux + 32
        } else {
            ux
        };
        let fy: u32 = if 65 <= uy && uy <= 90 {
            uy + 32
        } else {
            uy
        };
        if fx != fy {
            assert(ascii_fold(a@[i as int]) != ascii_fold(w@[i as int]));
            return false;
        }
        i = i + 1;
    }
    true
}

/// The decimal digit character for `d < 10`.
pub open spec fn digit_char(d: nat) -> char {
    ((48 + d) as u32) as char
}

/// The decimal numeral of `n`, without leading zeros.
pub open spec fn decimal(n: nat) -> Seq<char>
    decreases n,
{
    if n < 10 {
        seq![digit_char(n)]
    } else {
        decimal(n / 10).push(digit_char(n % 10))
    }
}

/// The decimal numeral of `n` with a leading `-` when negative, as an
/// integer's `Display` writes it.
pub open spec fn signed_decimal(n: int) -> Seq<char> {
    if n < 0 {
        seq!['-'] + decimal((-n) as nat)
    } else {
        decimal(n as nat)
    }
}

/// The decimal digit character for `d < 10`.
pub(crate) fn digit_of(d: u64) -> (c: char)
    requires
        d < 10,
    ensures
        c == digit_char(d as nat),
{
    let b: u8 = 48u8 + (d as u8);
    b as char
}

/// The decimal numeral of `n`, without leading zeros.
pub(crate) fn u64_text(n: u64) -> (r: Vec<char>)
    ensures
        r@ == decimal(n as nat),
    decreases n,
{
    if n < 10 {
        vec![digit_of(n)]
    } else {
        let mut r = u64_text(n / 10);
        r.push(digit_of(n % 10));
        r
    }
}

/// The decimal numeral of `n`, as `usize`'s `Display` writes it.
pub(crate) fn usize_text(n: usize) -> (r: Vec<char>)
    ensures
        r@ == decimal(n as nat),
{
    u64_text(n as u64)
}

/// The decimal numeral of `n` with a leading `-` when negative, as
/// `i64`'s `Display` writes it.
pub(crate) fn i64_text(n: i64) -> (r: Vec<char>)
    ensures
        r@ == signed_decimal(n as int),
{
    if n < 0 {
        let m: u64 = if n == i64::MIN {
            9223372036854775808u64
        } else {
            (-n) as u64
        };
        let digits = u64_text(m);
        let mut r = vec!['-'];
        append(&mut r, &digits);
        assert(r@ =~= seq!['-'] + decimal((-n) as nat));
        r
    } else {
        u64_text(n as u64)
    }
}


/// Each piece trimmed, the empty ones dropped, order kept.
pub open spec fn trimmed_nonempty(ps: Seq<Seq<char>>) -> Seq<Seq<char>>
    decreases ps.len(),
{
    if ps.len() == 0 {
        seq![]
    } else {
        let prev = trimmed_nonempty(ps.drop_last());
        let t = trim(ps.last());
        if t.len() > 0 {
            prev.push(t)
        } else {
            prev
        }
    }
}

pub fn keep_trimmed_nonempty(ps: &Vec<Vec<char>>) -> (r: Vec<Vec<char>>)
    ensures
        views(r@) == trimmed_nonempty(views(ps@)),
{
    let mut r: Vec<Vec<char>> = Vec::new();
    let mut i: usize = 0;
    while i < ps.len()
        invariant
            i <= ps.len(),
            views(r@) == trimmed_nonempty(views(ps@).take(i as int)),
        decreases ps.len() - i,
    {
        proof {
            lemma_take_succ(views(ps@), i as int);
        }
        let t = trimmed(&ps[i]);
        if t.len() > 0 {
            proof {
                lemma_views_push(r@, t);
            }
            r.push(t);
        }
        i = i + 1;
    }
    proof {
        lemma_take_full(views(ps@));
    }
    r
}

/// Converts character vectors to strings, one for one.
pub fn strings_of(v: &Vec<Vec<char>>) -> (r: Vec<String>)
    ensures
        strs(r@) == views(v@),
{
    let mut r: Vec<String> = Vec::new();
    let mut i: usize = 0;
    while i < v.len()
        invariant
            i <= v.len(),
            strs(r@) == views(v@).take(i as int),
        decreases v.len() - i,
    {
        let s = string_of(&v[i]);
        proof {
            lemma_take_succ(views(v@), i as int);
            assert(strs(r@.push(s)) =~= strs(r@).push(s@));
        }
        r.push(s);
        i = i + 1;
    }
    proof {
        lemma_take_full(views(v@));
    }
    r
}

/// The view of an optional character vector.
pub open spec fn opt_chars(o: Option<Vec<char>>) -> Option<Seq<char>> {
    match o {
        Some(v) => Some(v@),
        None => None,
    }
}

/// Appends every vector of `t` to `v`.
pub fn extend_all(v: &mut Vec<Vec<char>>, t: Vec<Vec<char>>)
    ensures
        views(final(v)@) == views(old(v)@) + views(t@),
{
    let mut t = t;
    let ghost t0 = t@;
    v.append(&mut t);
    assert(views(v@) =~= views(old(v)@) + views(t0));
}


/// The value of a run of decimal digits.
pub open spec fn digits_value(s: Seq<char>) -> nat
    decreases s.len(),
{
    if s.len() == 0 {
        0
    } else {
        digits_value(s.drop_last()) * 10 + ((s.last() as u32) - 48) as nat
    }
}

/// One or more ASCII digits.
pub open spec fn all_digits(s: Seq<char>) -> bool {
    s.len() > 0 && forall|i: int| 0 <= i < s.len() ==> is_digit(s[i])
}

/// The integer an optional `+` or `-` followed by digits denotes.
pub open spec fn int_value(s: Seq<char>) -> Option<int> {
    if s.len() > 0 && s[0] == '-' && all_digits(s.skip(1)) {
        Some(-(digits_value(s.skip(1)) as int))
    } else if s.len() > 0 && s[0] == '+' && all_digits(s.skip(1)) {
        Some(digits_value(s.skip(1)) as int)
    } else if all_digits(s) {
        Some(digits_value(s) as int)
    } else {
        None
    }
}

/// What `str::parse::<i64>` accepts: an optional sign, then only ASCII
/// digits, the value within `i64`'s range.
pub open spec fn i64_value(s: Seq<char>) -> Option<i64> {
    match int_value(s) {
        Some(v) => if i64::MIN <= v <= i64::MAX {
            Some(v as i64)
        } else {
            None
        },
        None => None,
    }
}

proof fn lemma_decimal_reads_back(n: nat)
    ensures
        all_digits(decimal(n)),
        digits_value(decimal(n)) == n,
    decreases n,
{
    let d = digit_char(n % 10);
    assert((d as u32) == 48 + n % 10);
    if n >= 10 {
        lemma_decimal_reads_back(n / 10);
        let s = decimal(n / 10).push(d);
        assert(s.drop_last() =~= decimal(n / 10));
        assert(s.last() == d);
        assert(digits_value(s) == digits_value(decimal(n / 10)) * 10 + n % 10);
        assert((n / 10) * 10 + n % 10 == n) by (nonlinear_arith);
        assert forall|i: int| 0 <= i < s.len() implies is_digit(s[i]) by {
            if i < s.len() - 1 {
                assert(s[i] == decimal(n / 10)[i]);
            }
        }
    } else {
        assert(decimal(n).drop_last() =~= Seq::<char>::empty());
        assert(digits_value(decimal(n)) == digits_value(Seq::<char>::empty()) * 10 + n % 10);
    }
}

/// An integer's decimal numeral, as `i64`'s `Display` writes it, reads
/// back as that integer with `str::parse::<i64>`.
pub proof fn law_integer_text_reads_back(v: i64)
    ensures
        i64_value(signed_decimal(v as int)) == Some(v),
{
    if v < 0 {
        let m = (-v) as nat;
        lemma_decimal_reads_back(m);
        let s = signed_decimal(v as int);
        assert(s.skip(1) =~= decimal(m));
        assert(s[0] == '-');
    } else {
        lemma_decimal_reads_back(v as nat);
        let s = decimal(v as nat);
        assert(s[0] != '-' && s[0] != '+');
    }
}

proof fn lemma_digits_value_grows(s: Seq<char>, j: int)
    requires
        0 <= j <= s.len(),
        forall|i: int| 0 <= i < s.len() ==> is_digit(s[i]),
    ensures
        digits_value(s.take(j)) <= digits_value(s),
    decreases s.len(),
{
    if j < s.len() {
        let t = s.drop_last();
        assert(t.take(j) =~= s.take(j));
        lemma_digits_value_grows(t, j);
    } else {
        assert(s.take(j) =~= s);
    }
}

/// Reads an `i64` as `str::parse::<i64>` does: an optional sign, then one
/// or more ASCII digits, the value within range; anything else is `None`.
pub(crate) fn parse_i64(s: &Vec<char>) -> (r: Option<i64>)
    ensures
        r == i64_value(s@),
{
    let n: usize = s.len();
    if n == 0 {
        return None;
    }
    let negative: bool = s[0] == '-';
    let start: usize = if s[0] == '-' || s[0] == '+' {
        1
    } else {
        0
    };
    if start == n {
        proof {
            assert(s@.skip(1).len() == 0);
            assert(!all_digits(s@));
        }
        return None;
    }
    let ghost body = s@.skip(start as int);
    let limit: u64 = if negative {
        0x8000_0000_0000_0000
    } else {
        0x7fff_ffff_ffff_ffff
    };
    let mut value: u64 = 0;
    let mut i: usize = start;
    while i < n
        invariant
            start <= i <= n,
            n == s.len(),
            start <= 1,
            (start == 1) == (s@[0] == '-' || s@[0] == '+'),
            negative == (s@[0] == '-'),
            limit == (if negative {
                0x8000_0000_0000_0000u64
            } else {
                0x7fff_ffff_ffff_ffffu64
            }),
            body == s@.skip(start as int),
            forall|k: int| start <= k < i ==> is_digit(s@[k]),
            value == digits_value(body.take(i - start)),
            value <= limit,
        decreases n - i,
    {
        let c = s[i];
        if !('0' <= c && c <= '9') {
            proof {
                assert(!is_digit(body[i - start]));
                assert(!all_digits(body));
                if start == 1 {
                    assert(!is_digit(s@[0]));
                    assert(!all_digits(s@));
                }
            }
            return None;
        }
        let d: u64 = ((c as u32) - 48) as u64;
        proof {
            let t = body.take(i - start + 1);
            assert(t.drop_last() =~= body.take(i - start));
            assert(t.last() == c);
        }
        if value > (limit - d) / 10 {
            proof {
                assert(value * 10 + d > limit) by (nonlinear_arith)
                    requires
                        value > (limit - d) / 10,
                        d <= limit,
                ;
                let t = body.take(i - start + 1);
                assert(digits_value(t) == value * 10 + d);
                if all_digits(body) {
                    lemma_digits_value_grows(body, i - start + 1);
                }
                if start == 1 {
                    assert(!is_digit(s@[0]));
                    assert(s@.skip(1) =~= body);
                } else {
                    assert(body =~= s@);
                }
            }
            return None;
        }
        value = value * 10 + d;
        i = i + 1;
    }
    proof {
        assert(body.take(n - start) =~= body);
        assert(all_digits(body));
        if start == 1 {
            assert(s@.skip(1) =~= body);
        } else {
            assert(body =~= s@);
        }
    }
    if negative {
        if value == 0x8000_0000_0000_0000 {
            Some(i64::MIN)
        } else {
            Some(-(value as i64))
        }
    } else {
        Some(value as i64)
    }
}

/// `str::split_once` on a character: the text before and after its first
/// occurrence.
pub open spec fn split_once(s: Seq<char>, c: char) -> Option<(Seq<char>, Seq<char>)> {
    match find(s, seq![c]) {
        Some(i) => Some((s.take(i), s.skip(i + 1))),
        None => None,
    }
}

pub fn split_once_of(s: &Vec<char>, c: char) -> (r: Option<(Vec<char>, Vec<char>)>)
    ensures
        r matches Some((a, b)) ==> split_once(s@, c) == Some((a@, b@)),
        r is None ==> split_once(s@, c) is None,
{
    let p = vec![c];
    assert(p@ =~= seq![c]);
    match find_in(s, &p, 0) {
        Some(i) => {
            proof {
                lemma_find_from(s@, p@, 0);
            }
            let a = slice(s, 0, i);
            let b = slice(s, i + 1, s.len());
            assert(a@ =~= s@.take(i as int));
            assert(b@ =~= s@.skip(i + 1));
            Some((a, b))
        },
        None => None,
    }
}


/// Splitting `a`, `c`, `b` at the first `c` gives back `a` and `b` when
/// `a` holds no `c`.
pub proof fn lemma_split_once_concat(a: Seq<char>, c: char, b: Seq<char>)
    requires
        !a.contains(c),
    ensures
        split_once(a + seq![c] + b, c) == Some((a, b)),
{
    let s = a + seq![c] + b;
    let p = seq![c];
    assert forall|i: int| 0 <= i < a.len() implies !occurs_at(s, p, i) by {
        if occurs_at(s, p, i) {
            assert(s.subrange(i, i + 1)[0] == s[i]);
            assert(a[i] == c);
        }
    }
    assert(s.subrange(a.len() as int, a.len() as int + 1) =~= p);
    lemma_find_first(s, p, a.len() as int, 0);
    assert(s.take(a.len() as int) =~= a);
    assert(s.skip(a.len() as int + 1) =~= b);
}

pub proof fn lemma_find_first(s: Seq<char>, p: Seq<char>, k: int, i: int)
    requires
        0 <= i <= k,
        occurs_at(s, p, k),
        forall|j: int| i <= j < k ==> !occurs_at(s, p, j),
    ensures
        find_from(s, p, i) == Some(k),
    decreases k - i,
{
    if i < k {
        lemma_find_first(s, p, k, i + 1);
    }
}


/// Text that neither starts nor ends with whitespace, and is not empty.
pub open spec fn is_trimmed_text(s: Seq<char>) -> bool {
    s.len() > 0 && !is_ws(s[0]) && !is_ws(s.last())
}

pub proof fn lemma_trim_of_trimmed(s: Seq<char>)
    requires
        is_trimmed_text(s),
    ensures
        trim(s) == s,
{
}

/// A space before trimmed text is trimmed away.
pub proof fn lemma_trim_after_space(s: Seq<char>)
    requires
        is_trimmed_text(s),
    ensures
        trim(seq![' '] + s) == s,
{
    let t = seq![' '] + s;
    assert(is_ws(t[0]));
    assert(t.drop_first() =~= s);
    assert(trim_start(s) == s);
    assert(trim_start(t) == trim_start(s));
    assert(trim_end(s) == s);
}

proof fn lemma_trim_start_parts(s: Seq<char>, c: char)
    ensures
        !s.contains(c) ==> !trim_start(s).contains(c),
        trim_start(s).len() > 0 ==> !is_ws(trim_start(s)[0]),
        trim_start(s) =~= s.skip(s.len() - trim_start(s).len()),
        trim_start(s).len() <= s.len(),
    decreases s.len(),
{
    if s.len() > 0 && is_ws(s[0]) {
        lemma_trim_start_parts(s.drop_first(), c);
        if !s.contains(c) {
            assert forall|i: int| 0 <= i < s.drop_first().len() implies s.drop_first()[i] != c by {
                assert(s.drop_first()[i] == s[i + 1]);
            }
        }
    }
}

proof fn lemma_trim_end_parts(s: Seq<char>, c: char)
    ensures
        !s.contains(c) ==> !trim_end(s).contains(c),
        trim_end(s).len() > 0 ==> !is_ws(trim_end(s).last()),
        trim_end(s) =~= s.take(trim_end(s).len() as int),
        trim_end(s).len() <= s.len(),
    decreases s.len(),
{
    if s.len() > 0 && is_ws(s.last()) {
        lemma_trim_end_parts(s.drop_last(), c);
        if !s.contains(c) {
            assert forall|i: int| 0 <= i < s.drop_last().len() implies s.drop_last()[i] != c by {
                assert(s.drop_last()[i] == s[i]);
            }
        }
    }
}

/// Trimming removes characters only from the ends, and leaves trimmed
/// text or nothing.
pub proof fn lemma_trim_parts(s: Seq<char>, c: char)
    ensures
        !s.contains(c) ==> !trim(s).contains(c),
        trim(s).len() > 0 ==> is_trimmed_text(trim(s)),
{
    lemma_trim_start_parts(s, c);
    let t = trim_start(s);
    lemma_trim_end_parts(t, c);
    if trim(s).len() > 0 {
        assert(trim(s)[0] == t[0]);
    }
}

/// Joining pieces that lack `c` with a separator that lacks it gives text
/// without `c`.
pub proof fn lemma_join_lacks(ps: Seq<Seq<char>>, sep: Seq<char>, c: char)
    requires
        !sep.contains(c),
        forall|i: int| 0 <= i < ps.len() ==> !(#[trigger] ps[i]).contains(c),
    ensures
        !join(ps, sep).contains(c),
    decreases ps.len(),
{
    if ps.len() > 1 {
        let prev = ps.drop_last();
        assert forall|i: int| 0 <= i < prev.len() implies !(#[trigger] prev[i]).contains(c) by {
            assert(prev[i] == ps[i]);
        }
        lemma_join_lacks(prev, sep, c);
        let j = join(prev, sep) + sep + ps.last();
        assert(!ps.last().contains(c)) by {
            assert(ps.last() == ps[ps.len() - 1]);
        }
        assert forall|i: int| 0 <= i < j.len() implies j[i] != c by {
            if i < join(prev, sep).len() {
                assert(j[i] == join(prev, sep)[i]);
            } else if i < join(prev, sep).len() + sep.len() {
                assert(j[i] == sep[i - join(prev, sep).len()]);
            } else {
                assert(j[i] == ps.last()[i - join(prev, sep).len() - sep.len()]);
            }
        }
    } else if ps.len() == 1 {
        assert(!ps[0].contains(c));
    }
}

proof fn lemma_lines_acc_append(s: Seq<char>, t: Seq<char>)
    requires
        !t.contains('\n'),
    ensures
        lines_acc(s + t) == (lines_acc(s).0, lines_acc(s).1 + t),
    decreases t.len(),
{
    if t.len() == 0 {
        assert(s + t =~= s);
        assert(lines_acc(s).1 + t =~= lines_acc(s).1);
    } else {
        let u = s + t;
        let td = t.drop_last();
        assert(!td.contains('\n')) by {
            assert forall|i: int| 0 <= i < td.len() implies td[i] != '\n' by {
                assert(td[i] == t[i]);
            }
        }
        lemma_lines_acc_append(s, td);
        assert(u.drop_last() =~= s + td);
        assert(u.last() == t.last());
        assert(t.last() != '\n') by {
            assert(t.last() == t[t.len() - 1]);
        }
        assert((lines_acc(s).1 + td).push(t.last()) =~= lines_acc(s).1 + t);
    }
}

proof fn lemma_lines_acc_join(ls: Seq<Seq<char>>, sep: Seq<char>)
    requires
        sep == seq!['\n'],
        ls.len() > 0,
        forall|i: int| 0 <= i < ls.len() ==> !(#[trigger] ls[i]).contains('\n'),
        forall|i: int| 0 <= i < ls.len() - 1 ==> strip_cr(#[trigger] ls[i]) == ls[i],
    ensures
        lines_acc(join(ls, sep)) == (ls.drop_last(), ls.last()),
    decreases ls.len(),
{
    if ls.len() == 1 {
        assert(seq![] + ls[0] =~= ls[0]);
        lemma_lines_acc_append(seq![], ls[0]);
        assert(lines_acc(seq![]) == (Seq::<Seq<char>>::empty(), Seq::<char>::empty()));
        assert(ls.drop_last() =~= seq![]);
        assert(Seq::<char>::empty() + ls[0] =~= ls[0]);
    } else {
        let prev = ls.drop_last();
        assert forall|i: int| 0 <= i < prev.len() implies !(#[trigger] prev[i]).contains('\n') by {
            assert(prev[i] == ls[i]);
        }
        assert forall|i: int| 0 <= i < prev.len() - 1 implies strip_cr(#[trigger] prev[i])
            == prev[i] by {
            assert(prev[i] == ls[i]);
        }
        lemma_lines_acc_join(prev, sep);
        let a = join(prev, sep) + sep;
        assert(a.drop_last() =~= join(prev, sep));
        assert(a.last() == '\n');
        assert(prev.last() == ls[ls.len() - 2]);
        assert(prev.drop_last().push(prev.last()) =~= prev);
        assert(lines_acc(a) == (prev, Seq::<char>::empty()));
        assert(!ls.last().contains('\n')) by {
            assert(ls.last() == ls[ls.len() - 1]);
        }
        lemma_lines_acc_append(a, ls.last());
        assert(Seq::<char>::empty() + ls.last() =~= ls.last());
    }
}

/// Lines joined with `\n` read back as those lines, when none holds a
/// `\n`, none but the last ends in `\r`, and the last is not empty.
pub proof fn lemma_lines_of_join(ls: Seq<Seq<char>>, sep: Seq<char>)
    requires
        sep == seq!['\n'],
        ls.len() > 0,
        ls.last().len() > 0,
        forall|i: int| 0 <= i < ls.len() ==> !(#[trigger] ls[i]).contains('\n'),
        forall|i: int| 0 <= i < ls.len() - 1 ==> strip_cr(#[trigger] ls[i]) == ls[i],
    ensures
        lines(join(ls, sep)) == ls,
{
    lemma_lines_acc_join(ls, sep);
    assert(ls.drop_last().push(ls.last()) =~= ls);
}

/// Pieces that are already trimmed and not empty are kept as they are.
pub proof fn lemma_trimmed_nonempty_of_trimmed(ps: Seq<Seq<char>>)
    requires
        forall|i: int| 0 <= i < ps.len() ==> is_trimmed_text(#[trigger] ps[i]),
    ensures
        trimmed_nonempty(ps) == ps,
    decreases ps.len(),
{
    if ps.len() > 0 {
        let prev = ps.drop_last();
        assert forall|i: int| 0 <= i < prev.len() implies is_trimmed_text(#[trigger] prev[i]) by {
            assert(prev[i] == ps[i]);
        }
        lemma_trimmed_nonempty_of_trimmed(prev);
        assert(is_trimmed_text(ps.last())) by {
            assert(ps.last() == ps[ps.len() - 1]);
        }
        lemma_trim_of_trimmed(ps.last());
        assert(prev.push(ps.last()) =~= ps);
    }
}


/// Trimming each piece gives `qs`, with no piece trimmed away entirely.
pub proof fn lemma_trimmed_nonempty_map(ps: Seq<Seq<char>>, qs: Seq<Seq<char>>)
    requires
        ps.len() == qs.len(),
        forall|i: int| 0 <= i < ps.len() ==> trim(#[trigger] ps[i]) == qs[i] && qs[i].len() > 0,
    ensures
        trimmed_nonempty(ps) == qs,
    decreases ps.len(),
{
    if ps.len() > 0 {
        let pp = ps.drop_last();
        let qp = qs.drop_last();
        assert forall|i: int| 0 <= i < pp.len() implies trim(#[trigger] pp[i]) == qp[i]
            && qp[i].len() > 0 by {
            assert(pp[i] == ps[i]);
        }
        lemma_trimmed_nonempty_map(pp, qp);
        assert(trim(ps.last()) == qs.last()) by {
            assert(ps.last() == ps[ps.len() - 1]);
        }
        assert(qp.push(qs.last()) =~= qs);
    }
}

proof fn lemma_split_acc_append(s: Seq<char>, t: Seq<char>, c: char)
    requires
        !t.contains(c),
    ensures
        split_acc(s + t, c) == (split_acc(s, c).0, split_acc(s, c).1 + t),
    decreases t.len(),
{
    if t.len() == 0 {
        assert(s + t =~= s);
        assert(split_acc(s, c).1 + t =~= split_acc(s, c).1);
    } else {
        let u = s + t;
        let td = t.drop_last();
        assert(!td.contains(c)) by {
            assert forall|i: int| 0 <= i < td.len() implies td[i] != c by {
                assert(td[i] == t[i]);
            }
        }
        lemma_split_acc_append(s, td, c);
        assert(u.drop_last() =~= s + td);
        assert(t.last() != c) by {
            assert(t.last() == t[t.len() - 1]);
        }
        assert((split_acc(s, c).1 + td).push(t.last()) =~= split_acc(s, c).1 + t);
    }
}

/// The pieces `c`-separated text splits into when the items were joined
/// with `c` and a space: the first item, then each later one after a
/// space.
pub open spec fn spaced_items(ts: Seq<Seq<char>>) -> Seq<Seq<char>> {
    Seq::new(
        ts.len(),
        |i: int|
            if i == 0 {
                ts[0]
            } else {
                seq![' '] + ts[i]
            },
    )
}

proof fn lemma_split_acc_join(ts: Seq<Seq<char>>, sep: Seq<char>, c: char)
    requires
        sep == seq![c, ' '],
        c != ' ',
        ts.len() > 0,
        forall|i: int| 0 <= i < ts.len() ==> !(#[trigger] ts[i]).contains(c),
    ensures
        split_acc(join(ts, sep), c) == (spaced_items(ts).drop_last(), spaced_items(ts).last()),
    decreases ts.len(),
{
    if ts.len() == 1 {
        assert(seq![] + ts[0] =~= ts[0]);
        lemma_split_acc_append(seq![], ts[0], c);
        assert(split_acc(seq![], c) == (Seq::<Seq<char>>::empty(), Seq::<char>::empty()));
        assert(spaced_items(ts).drop_last() =~= seq![]);
        assert(Seq::<char>::empty() + ts[0] =~= ts[0]);
    } else {
        let prev = ts.drop_last();
        assert forall|i: int| 0 <= i < prev.len() implies !(#[trigger] prev[i]).contains(c) by {
            assert(prev[i] == ts[i]);
        }
        lemma_split_acc_join(prev, sep, c);
        let a = join(prev, sep).push(c);
        assert(a.drop_last() =~= join(prev, sep));
        assert(split_acc(a, c) == (spaced_items(prev), Seq::<char>::empty())) by {
            assert(spaced_items(prev).drop_last().push(spaced_items(prev).last()) =~= spaced_items(
                prev,
            ));
        }
        let last = seq![' '] + ts.last();
        assert(!last.contains(c)) by {
            assert(!ts.last().contains(c)) by {
                assert(ts.last() == ts[ts.len() - 1]);
            }
            assert forall|i: int| 0 <= i < last.len() implies last[i] != c by {
                if i > 0 {
                    assert(last[i] == ts.last()[i - 1]);
                }
            }
        }
        lemma_split_acc_append(a, last, c);
        assert(join(ts, sep) =~= a + last);
        assert(Seq::<char>::empty() + last =~= last);
        assert(spaced_items(ts).drop_last() =~= spaced_items(prev));
        assert(spaced_items(ts).last() == last);
    }
}

/// Trimmed items without `c`, joined with `c` and a space, split on `c`
/// and trimmed back into those items.
pub proof fn lemma_items_of_join(ts: Seq<Seq<char>>, sep: Seq<char>, c: char)
    requires
        sep == seq![c, ' '],
        c != ' ',
        forall|i: int| 0 <= i < ts.len() ==> is_trimmed_text(#[trigger] ts[i]),
        forall|i: int| 0 <= i < ts.len() ==> !(#[trigger] ts[i]).contains(c),
    ensures
        trimmed_nonempty(split_char(join(ts, sep), c)) == ts,
{
    if ts.len() == 0 {
        assert(split_acc(Seq::<char>::empty(), c) == (Seq::<Seq<char>>::empty(), Seq::<char>::empty()));
        assert(split_char(join(ts, sep), c) =~= seq![Seq::<char>::empty()]);
        assert(trimmed_nonempty(seq![Seq::<char>::empty()]) == trimmed_nonempty(Seq::<Seq<char>>::empty())) by {
            assert(seq![Seq::<char>::empty()].drop_last() =~= Seq::<Seq<char>>::empty());
            assert(trim(Seq::<char>::empty()) =~= Seq::<char>::empty());
        }
    } else {
        lemma_split_acc_join(ts, sep, c);
        let p = spaced_items(ts);
        assert(split_char(join(ts, sep), c) =~= p);
        assert forall|i: int| 0 <= i < p.len() implies trim(#[trigger] p[i]) == ts[i] && ts[i].len()
            > 0 by {
            if i == 0 {
                lemma_trim_of_trimmed(ts[0]);
            } else {
                lemma_trim_after_space(ts[i]);
            }
        }
        lemma_trimmed_nonempty_map(p, ts);
    }
}

/// Trimmed pieces joined with any separator give trimmed text.
pub proof fn lemma_join_trimmed(ps: Seq<Seq<char>>, sep: Seq<char>)
    requires
        ps.len() > 0,
        forall|i: int| 0 <= i < ps.len() ==> is_trimmed_text(#[trigger] ps[i]),
    ensures
        is_trimmed_text(join(ps, sep)),
    decreases ps.len(),
{
    if ps.len() == 1 {
        assert(is_trimmed_text(ps[0]));
    } else {
        let prev = ps.drop_last();
        assert forall|i: int| 0 <= i < prev.len() implies is_trimmed_text(#[trigger] prev[i]) by {
            assert(prev[i] == ps[i]);
        }
        lemma_join_trimmed(prev, sep);
        let j = join(prev, sep) + sep + ps.last();
        assert(is_trimmed_text(ps.last())) by {
            assert(ps.last() == ps[ps.len() - 1]);
        }
        assert(j[0] == join(prev, sep)[0]);
        assert(j.last() == ps.last().last());
    }
}


/// Text that is trimmed, not empty, and holds no line break.
pub open spec fn one_line(s: Seq<char>) -> bool {
    is_trimmed_text(s) && !s.contains('\n')
}

/// A label in front of one trimmed line still makes one trimmed line.
pub proof fn lemma_prefixed_one_line(a: Seq<char>, b: Seq<char>)
    requires
        a.len() > 0,
        !is_ws(a[0]),
        !a.contains('\n'),
        one_line(b),
    ensures
        one_line(a + b),
{
    let t = a + b;
    assert(t[0] == a[0]);
    assert(t.last() == b.last());
    assert forall|i: int| 0 <= i < t.len() implies t[i] != '\n' by {
        if i < a.len() {
            assert(t[i] == a[i]);
        } else {
            assert(t[i] == b[i - a.len()]);
        }
    }
}


/// Text that ends in a non-whitespace character does not trim to nothing.
pub proof fn lemma_trim_nonempty(s: Seq<char>)
    requires
        s.len() > 0,
        !is_ws(s.last()),
    ensures
        trim(s).len() > 0,
    decreases s.len(),
{
    if is_ws(s[0]) {
        assert(s.len() > 1);
        assert(s.drop_first().last() == s.last());
        lemma_trim_nonempty(s.drop_first());
        assert(trim_start(s) == trim_start(s.drop_first()));
    }
}

/// A part of text without `c` holds no `c`.
pub proof fn lemma_subrange_lacks(s: Seq<char>, lo: int, hi: int, c: char)
    requires
        0 <= lo <= hi <= s.len(),
        !s.contains(c),
    ensures
        !s.subrange(lo, hi).contains(c),
{
    assert forall|i: int| 0 <= i < hi - lo implies s.subrange(lo, hi)[i] != c by {
        assert(s.subrange(lo, hi)[i] == s[lo + i]);
    }
}

/// Trimming a part of text without a line break, that keeps something,
/// gives one line.
pub proof fn lemma_trimmed_part_one_line(s: Seq<char>)
    requires
        !s.contains('\n'),
        trim(s).len() > 0,
    ensures
        one_line(trim(s)),
{
    lemma_trim_parts(s, '\n');
}

















proof fn lemma_lines_acc_lack_newline(s: Seq<char>)
    ensures
        forall|i: int|
            0 <= i < lines_acc(s).0.len() ==> !(#[trigger] lines_acc(s).0[i]).contains('\n'),
        !lines_acc(s).1.contains('\n'),
    decreases s.len(),
{
    if s.len() > 0 {
        lemma_lines_acc_lack_newline(s.drop_last());
        let prev = lines_acc(s.drop_last());
        if s.last() == '\n' {
            let t = strip_cr(prev.1);
            assert(!t.contains('\n')) by {
                assert forall|k: int| 0 <= k < t.len() implies t[k] != '\n' by {
                    assert(t[k] == prev.1[k]);
                }
            }
            let d = prev.0.push(t);
            assert forall|i: int| 0 <= i < d.len() implies !(#[trigger] d[i]).contains('\n') by {
                if i < prev.0.len() {
                    assert(d[i] == prev.0[i]);
                }
            }
        } else {
            let c = prev.1.push(s.last());
            assert forall|k: int| 0 <= k < c.len() implies c[k] != '\n' by {
                if k < prev.1.len() {
                    assert(c[k] == prev.1[k]);
                }
            }
        }
    }
}

/// No line of a text holds a line break.
pub proof fn lemma_lines_lack_newline(s: Seq<char>)
    ensures
        forall|i: int| 0 <= i < lines(s).len() ==> !(#[trigger] lines(s)[i]).contains('\n'),
{
    lemma_lines_acc_lack_newline(s);
    let a = lines_acc(s);
    if a.1.len() > 0 {
        let d = a.0.push(a.1);
        assert forall|i: int| 0 <= i < d.len() implies !(#[trigger] d[i]).contains('\n') by {
            if i < a.0.len() {
                assert(d[i] == a.0[i]);
            }
        }
    }
}


proof fn lemma_join_push_char(ps: Seq<Seq<char>>, p: Seq<char>, x: char, sep: Seq<char>)
    ensures
        join(ps.push(p.push(x)), sep) == join(ps.push(p), sep).push(x),
{
    if ps.len() == 0 {
        assert(ps.push(p.push(x)) =~= seq![p.push(x)]);
        assert(ps.push(p) =~= seq![p]);
    } else {
        assert(ps.push(p.push(x)).drop_last() =~= ps);
        assert(ps.push(p).drop_last() =~= ps);
        assert(join(ps, sep) + sep + p.push(x) =~= (join(ps, sep) + sep + p).push(x));
    }
}

proof fn lemma_join_split_acc(s: Seq<char>, c: char)
    ensures
        join(split_acc(s, c).0.push(split_acc(s, c).1), seq![c]) == s,
    decreases s.len(),
{
    if s.len() == 0 {
        assert(split_acc(s, c).0.push(split_acc(s, c).1) =~= seq![Seq::<char>::empty()]);
        assert(s =~= Seq::<char>::empty());
    } else {
        let t = s.drop_last();
        let x = s.last();
        lemma_join_split_acc(t, c);
        let a = split_acc(t, c);
        if x == c {
            let ps = a.0.push(a.1).push(Seq::<char>::empty());
            assert(ps.drop_last() =~= a.0.push(a.1));
            assert(join(ps, seq![c]) == join(a.0.push(a.1), seq![c]) + seq![c] + Seq::<char>::empty());
            assert(t + seq![c] + Seq::<char>::empty() =~= s);
        } else {
            lemma_join_push_char(a.0, a.1, x, seq![c]);
            assert(t.push(x) =~= s);
        }
    }
}

/// Splitting at `c` and joining back with `c` gives the text again.
pub proof fn lemma_join_split_char(s: Seq<char>, c: char)
    ensures
        join(split_char(s, c), seq![c]) == s,
{
    lemma_join_split_acc(s, c);
}

proof fn lemma_split_acc_concat(a: Seq<char>, c: char, b: Seq<char>)
    ensures
        split_acc(a + seq![c] + b, c) == (split_char(a, c) + split_acc(b, c).0, split_acc(b, c).1),
    decreases b.len(),
{
    if b.len() == 0 {
        assert(a + seq![c] + b =~= a.push(c));
        assert(a.push(c).drop_last() =~= a);
        assert(split_char(a, c) + Seq::<Seq<char>>::empty() =~= split_char(a, c));
    } else {
        let bd = b.drop_last();
        lemma_split_acc_concat(a, c, bd);
        let u = a + seq![c] + b;
        assert(u.drop_last() =~= a + seq![c] + bd);
        assert(u.last() == b.last());
        let pb = split_acc(bd, c);
        assert((split_char(a, c) + pb.0).push(pb.1) =~= split_char(a, c) + pb.0.push(pb.1));
    }
}

/// Splitting text joined at one `c` gives the pieces of each side.
pub proof fn lemma_split_char_concat(a: Seq<char>, c: char, b: Seq<char>)
    ensures
        split_char(a + seq![c] + b, c) == split_char(a, c) + split_char(b, c),
{
    lemma_split_acc_concat(a, c, b);
    let pb = split_acc(b, c);
    assert((split_char(a, c) + pb.0).push(pb.1) =~= split_char(a, c) + pb.0.push(pb.1));
}

/// Text without `c` splits into itself alone.
pub proof fn lemma_split_char_single(s: Seq<char>, c: char)
    requires
        !s.contains(c),
    ensures
        split_char(s, c) == seq![s],
{
    lemma_split_acc_append(Seq::<char>::empty(), s, c);
    assert(Seq::<char>::empty() + s =~= s);
    assert(Seq::<char>::empty() + s =~= s);
    assert(split_acc(Seq::<char>::empty(), c) == (Seq::<Seq<char>>::empty(), Seq::<char>::empty()));
    assert(Seq::<Seq<char>>::empty().push(s) =~= seq![s]);
}

/// Pieces without `c`, joined with `c`, split back into those pieces.
pub proof fn lemma_split_char_of_join(ls: Seq<Seq<char>>, c: char)
    requires
        ls.len() > 0,
        forall|i: int| 0 <= i < ls.len() ==> !(#[trigger] ls[i]).contains(c),
    ensures
        split_char(join(ls, seq![c]), c) == ls,
    decreases ls.len(),
{
    if ls.len() == 1 {
        lemma_split_char_single(ls[0], c);
        assert(ls =~= seq![ls[0]]);
    } else {
        let prev = ls.drop_last();
        assert forall|i: int| 0 <= i < prev.len() implies !(#[trigger] prev[i]).contains(c) by {
            assert(prev[i] == ls[i]);
        }
        lemma_split_char_of_join(prev, c);
        assert(!ls.last().contains(c)) by {
            assert(ls.last() == ls[ls.len() - 1]);
        }
        lemma_split_char_concat(join(prev, seq![c]), c, ls.last());
        lemma_split_char_single(ls.last(), c);
        assert(prev + seq![ls.last()] =~= ls);
    }
}

} // verus!
