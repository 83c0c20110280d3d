//! Character-level text primitives: the model of `str` operations that the
//! configuration parser uses (whitespace trimming, ASCII case folding,
//! splitting on a separator, line splitting, decimal numbers), each with an
//! executable counterpart proved against it.
use vstd::prelude::*;

verus! {

// ---------------------------------------------------------------------------
// Characters
// ---------------------------------------------------------------------------

/// `char::is_whitespace`: the characters with the Unicode `White_Space` property.
pub open spec fn is_white_space(c: char) -> bool {
    ||| ('\t' <= c && c <= '\r')
    ||| c == ' '
    ||| c == '\u{85}'
    ||| c == '\u{a0}'
    ||| c == '\u{1680}'
    ||| ('\u{2000}' <= c && c <= '\u{200a}')
    ||| c == '\u{2028}'
    ||| c == '\u{2029}'
    ||| c == '\u{202f}'
    ||| c == '\u{205f}'
    ||| c == '\u{3000}'
}

/// `char::is_ascii_alphabetic`.
pub open spec fn is_ascii_alpha(c: char) -> bool {
    ('A' <= c && c <= 'Z') || ('a' <= c && c <= 'z')
}

/// `char::is_ascii_digit`.
pub open spec fn is_ascii_digit(c: char) -> bool {
    '0' <= c && c <= '9'
}

/// `char::is_ascii_alphanumeric`.
pub open spec fn is_ascii_alnum(c: char) -> bool {
    is_ascii_alpha(c) || is_ascii_digit(c)
}

/// `char::to_ascii_lowercase`: `A`..=`Z` become `a`..=`z`, all else is unchanged.
pub open spec fn ascii_lower(c: char) -> char {
    if 'A' <= c && c <= 'Z' {
        ((c as u32) + 32) as char
    } else {
        c
    }
}

/// `str::to_ascii_lowercase`, character by character.
pub open spec fn ascii_lower_text(s: Seq<char>) -> Seq<char> {
    s.map_values(|c: char| ascii_lower(c))
}

/// Every character of `s` is an ASCII letter.
pub open spec fn all_ascii_alpha(s: Seq<char>) -> bool {
    forall|i: int| 0 <= i < s.len() ==> #[trigger] is_ascii_alpha(s[i])
}

/// Every character of `s` is an ASCII letter or digit.
pub open spec fn all_ascii_alnum(s: Seq<char>) -> bool {
    forall|i: int| 0 <= i < s.len() ==> #[trigger] is_ascii_alnum(s[i])
}

/// `str::eq_ignore_ascii_case`.
pub open spec fn eq_ignore_ascii_case(a: Seq<char>, b: Seq<char>) -> bool {
    ascii_lower_text(a) == ascii_lower_text(b)
}

pub fn white_space(c: char) -> (r: bool)
    ensures
        r == is_white_space(c),
{
    ('\t' <= c && c <= '\r') || c == ' ' || c == '\u{85}' || c == '\u{a0}' || c == '\u{1680}'
        || ('\u{2000}' <= c && c <= '\u{200a}') || c == '\u{2028}' || c == '\u{2029}' || c
        == '\u{202f}' || c == '\u{205f}' || c == '\u{3000}'
}

pub fn ascii_alpha(c: char) -> (r: bool)
    ensures
        r == is_ascii_alpha(c),
{
    ('A' <= c && c <= 'Z') || ('a' <= c && c <= 'z')
}

pub fn ascii_digit(c: char) -> (r: bool)
    ensures
        r == is_ascii_digit(c),
{
    '0' <= c && c <= '9'
}

pub fn ascii_alnum(c: char) -> (r: bool)
    ensures
        r == is_ascii_alnum(c),
{
    ascii_alpha(c) || ascii_digit(c)
}

pub fn lower_char(c: char) -> (r: char)
    ensures
        r == ascii_lower(c),
{
    if 'A' <= c && c <= 'Z' {
        ((c as u8) + 32) as char
    } else {
        c
    }
}

// ---------------------------------------------------------------------------
// Conversions between `str`/`String` and character vectors
// ---------------------------------------------------------------------------

/// The characters of `s`, in order.
pub fn chars_of(s: &str) -> (r: Vec<char>)
    ensures
        r@ == s@,
{
    let mut r: Vec<char> = Vec::new();
    for c in it: s.chars()
        invariant
            r@ == it.seq().take(it.index() as int),
    {
        r.push(c);
    }
    r
}

/// Appends one character to a `String` (`String::push`).
#[verifier::external_body]
fn push_char(s: &mut String, c: char)
    ensures
        final(s)@ == old(s)@.push(c),
{
    s.push(c);
}

/// A `String` holding exactly the characters of `v`.
pub fn string_of(v: &[char]) -> (r: String)
    ensures
        r@ == v@,
{
    let mut r = String::new();
    let mut i: usize = 0;
    while i < v.len()
        invariant
            i <= v@.len(),
            r@ == v@.take(i as int),
        decreases v@.len() - i,
    {
        push_char(&mut r, v[i]);
        i = i + 1;
        assert(r@ =~= v@.take(i as int));
    }
    assert(r@ =~= v@);
    r
}

/// The characters `v[lo..hi]`, copied.
pub fn sub_chars(v: &[char], lo: usize, hi: usize) -> (r: Vec<char>)
    requires
        lo <= hi <= v@.len(),
    ensures
        r@ == v@.subrange(lo as int, hi as int),
{
    let mut r: Vec<char> = Vec::new();
    let mut i: usize = lo;
    while i < hi
        invariant
            lo <= i <= hi <= v@.len(),
            r@ == v@.subrange(lo as int, i as int),
        decreases hi - i,
    {
        r.push(v[i]);
        i = i + 1;
        assert(r@ =~= v@.subrange(lo as int, i as int));
    }
    r
}

/// Character-wise equality of two character sequences.
pub fn chars_eq(a: &[char], b: &[char]) -> (r: bool)
    ensures
        r == (a@ == b@),
{
    if a.len() != b.len() {
        return false;
    }
    let mut i: usize = 0;
    while i < a.len()
        invariant
            a@.len() == b@.len(),
            i <= a@.len(),
            forall|j: int| 0 <= j < i ==> a@[j] == b@[j],
        decreases a@.len() - i,
    {
        if a[i] != b[i] {
            return false;
        }
        i = i + 1;
    }
    assert(a@ =~= b@);
    true
}

// ---------------------------------------------------------------------------
// Trimming
// ---------------------------------------------------------------------------

/// `str::trim_start`: drops leading white space.
pub open spec fn trim_start(s: Seq<char>) -> Seq<char>
    decreases s.len(),
{
    if s.len() > 0 && is_white_space(s[0]) {
        trim_start(s.drop_first())
    } else {
        s
    }
}

/// `str::trim_end`: drops trailing white space.
pub open spec fn trim_end(s: Seq<char>) -> Seq<char>
    decreases s.len(),
{
    if s.len() > 0 && is_white_space(s.last()) {
        trim_end(s.drop_last())
    } else {
        s
    }
}

/// `str::trim`: drops white space at both ends.
pub open spec fn trim(s: Seq<char>) -> Seq<char> {
    trim_end(trim_start(s))
}

pub proof fn lemma_trim_start_at(s: Seq<char>, i: int)
    requires
        0 <= i <= s.len(),
        forall|j: int| 0 <= j < i ==> is_white_space(#[trigger] s[j]),
        i == s.len() || !is_white_space(s[i]),
    ensures
        trim_start(s) == s.subrange(i, s.len() as int),
    decreases i,
{
    if i == 0 {
        assert(s.subrange(0, s.len() as int) =~= s);
    } else {
        let t = s.drop_first();
        assert forall|j: int| 0 <= j < i - 1 implies is_white_space(#[trigger] t[j]) by {
            assert(t[j] == s[j + 1]);
        }
        lemma_trim_start_at(t, i - 1);
        assert(t.subrange(i - 1, t.len() as int) =~= s.subrange(i, s.len() as int));
    }
}

pub proof fn lemma_trim_end_at(s: Seq<char>, k: int)
    requires
        0 <= k <= s.len(),
        forall|j: int| k <= j < s.len() ==> is_white_space(#[trigger] s[j]),
        k == 0 || !is_white_space(s[k - 1]),
    ensures
        trim_end(s) == s.subrange(0, k),
    decreases s.len() - k,
{
    if k == s.len() {
        assert(s.subrange(0, s.len() as int) =~= s);
    } else {
        let t = s.drop_last();
        assert forall|j: int| k <= j < t.len() implies is_white_space(#[trigger] t[j]) by {
            assert(t[j] == s[j]);
        }
        lemma_trim_end_at(t, k);
        assert(t.subrange(0, k) =~= s.subrange(0, k));
    }
}

/// Trimming leaves a result that begins and ends with non-white-space
/// characters; trimming twice changes nothing.
pub proof fn lemma_trim_idempotent(s: Seq<char>)
    ensures
        trim(trim(s)) == trim(s),
        trim(s).len() > 0 ==> !is_white_space(trim(s)[0]) && !is_white_space(trim(s).last()),
{
    let t = trim(s);
    lemma_trim_shape(s);
    if t.len() > 0 {
        lemma_trim_start_at(t, 0);
        lemma_trim_end_at(t, t.len() as int);
        assert(t.subrange(0, t.len() as int) =~= t);
    } else {
        assert(trim_start(t) == t);
        assert(trim_end(t) == t);
    }
}

/// A text without white space at its ends is its own trim.
pub proof fn lemma_trim_noop(s: Seq<char>)
    requires
        s.len() > 0 ==> !is_white_space(s[0]) && !is_white_space(s.last()),
    ensures
        trim(s) == s,
{
    lemma_trim_start_at(s, 0);
    assert(s.subrange(0, s.len() as int) =~= s);
    lemma_trim_end_at(s, s.len() as int);
}

/// A text that starts with a non-white-space character keeps it first when
/// trimmed.
pub proof fn lemma_trim_first(s: Seq<char>)
    requires
        s.len() > 0,
        !is_white_space(s[0]),
    ensures
        trim(s).len() > 0,
        trim(s)[0] == s[0],
{
    assert(trim_start(s) == s);
    lemma_trim_end_shape(s);
}

/// White space added at the end of a text is trimmed away.
pub proof fn lemma_trim_push_white_space(s: Seq<char>, c: char)
    requires
        is_white_space(c),
    ensures
        trim(s.push(c)) == trim(s),
    decreases s.len(),
{
    if s.len() == 0 {
        let t = s.push(c);
        assert(t.drop_first() =~= Seq::<char>::empty());
        assert(trim_start(t) == trim_start(t.drop_first()));
    } else if is_white_space(s[0]) {
        let t = s.push(c);
        assert(t.drop_first() =~= s.drop_first().push(c));
        lemma_trim_push_white_space(s.drop_first(), c);
    } else {
        let t = s.push(c);
        assert(trim_start(t) == t);
        assert(trim_start(s) == s);
        assert(t.drop_last() =~= s);
    }
}

/// Dropping a final carriage return does not change the trimmed text.
pub proof fn lemma_trim_strip_cr(s: Seq<char>)
    ensures
        trim(strip_cr(s)) == trim(s),
{
    if s.len() > 0 && s.last() == '\r' {
        assert(s.drop_last().push('\r') =~= s);
        lemma_trim_push_white_space(s.drop_last(), '\r');
    }
}

/// White space on both sides of a text without white space at its ends is
/// trimmed away.
pub proof fn lemma_trim_padded(a: Seq<char>, s: Seq<char>, b: Seq<char>)
    requires
        forall|i: int| 0 <= i < a.len() ==> is_white_space(#[trigger] a[i]),
        forall|i: int| 0 <= i < b.len() ==> is_white_space(#[trigger] b[i]),
        s.len() > 0,
        !is_white_space(s[0]),
        !is_white_space(s.last()),
    ensures
        trim(a + s + b) == s,
{
    let t = a + s + b;
    assert forall|j: int| 0 <= j < a.len() implies is_white_space(#[trigger] t[j]) by {
        assert(t[j] == a[j]);
    }
    assert(t[a.len() as int] == s[0]);
    lemma_trim_start_at(t, a.len() as int);
    let u = t.subrange(a.len() as int, t.len() as int);
    assert(u =~= s + b);
    assert forall|j: int| s.len() <= j < u.len() implies is_white_space(#[trigger] u[j]) by {
        assert(u[j] == b[j - s.len()]);
    }
    assert(u[s.len() - 1] == s.last());
    lemma_trim_end_at(u, s.len() as int);
    assert(u.subrange(0, s.len() as int) =~= s);
}

/// Trimming keeps a stretch of the text, takes away only white space on
/// either side of it, and keeps no white space at the stretch's ends.
pub proof fn law_trim_is_inner_stretch(s: Seq<char>)
    ensures
        exists|i: int, j: int|
            #![trigger s.subrange(i, j)]
            0 <= i <= j <= s.len() && trim(s) == s.subrange(i, j) && (forall|k: int|
                0 <= k < i ==> is_white_space(#[trigger] s[k])) && (forall|k: int|
                j <= k < s.len() ==> is_white_space(#[trigger] s[k])),
        trim(s).len() > 0 ==> !is_white_space(trim(s)[0]) && !is_white_space(trim(s).last()),
{
    lemma_trim_shape(s);
    lemma_trim_start_shape(s);
    lemma_trim_start_drops(s);
    let a = trim_start(s);
    let i = s.len() - a.len();
    lemma_trim_end_shape(a);
    lemma_trim_end_drops(a);
    let t = trim_end(a);
    let j = i + t.len();
    assert(t =~= s.subrange(i, j));
    assert forall|k: int| j <= k < s.len() implies is_white_space(#[trigger] s[k]) by {
        assert(s[k] == a[k - i]);
    }
}

proof fn lemma_trim_start_drops(s: Seq<char>)
    ensures
        forall|k: int| 0 <= k < s.len() - trim_start(s).len() ==> is_white_space(#[trigger] s[k]),
    decreases s.len(),
{
    if s.len() > 0 && is_white_space(s[0]) {
        let t = s.drop_first();
        lemma_trim_start_drops(t);
        assert forall|k: int| 0 <= k < s.len() - trim_start(s).len() implies is_white_space(
            #[trigger] s[k],
        ) by {
            if k > 0 {
                assert(s[k] == t[k - 1]);
            }
        }
    }
}

proof fn lemma_trim_end_drops(s: Seq<char>)
    ensures
        forall|k: int| trim_end(s).len() <= k < s.len() ==> is_white_space(#[trigger] s[k]),
    decreases s.len(),
{
    if s.len() > 0 && is_white_space(s.last()) {
        let t = s.drop_last();
        lemma_trim_end_drops(t);
        assert forall|k: int| trim_end(s).len() <= k < s.len() implies is_white_space(
            #[trigger] s[k],
        ) by {
            if k < t.len() {
                assert(s[k] == t[k]);
            }
        }
    }
}

proof fn lemma_trim_start_shape(s: Seq<char>)
    ensures
        trim_start(s).len() <= s.len(),
        trim_start(s).len() > 0 ==> !is_white_space(trim_start(s)[0]),
        trim_start(s) == s.subrange(s.len() - trim_start(s).len(), s.len() as int),
    decreases s.len(),
{
    if s.len() > 0 && is_white_space(s[0]) {
        lemma_trim_start_shape(s.drop_first());
        let t = trim_start(s.drop_first());
        assert(s.drop_first().subrange(s.drop_first().len() - t.len(), s.drop_first().len() as int)
            =~= s.subrange(s.len() - t.len(), s.len() as int));
    } else {
        assert(s.subrange(0, s.len() as int) =~= s);
    }
}

proof fn lemma_trim_end_shape(s: Seq<char>)
    ensures
        trim_end(s).len() <= s.len(),
        trim_end(s).len() > 0 ==> !is_white_space(trim_end(s).last()),
        trim_end(s) == s.subrange(0, trim_end(s).len() as int),
        s.len() > 0 && !is_white_space(s[0]) ==> trim_end(s).len() > 0,
    decreases s.len(),
{
    if s.len() > 0 && is_white_space(s.last()) {
        lemma_trim_end_shape(s.drop_last());
        let t = trim_end(s.drop_last());
        assert(s.drop_last().subrange(0, t.len() as int) =~= s.subrange(0, t.len() as int));
        if s.len() > 0 && !is_white_space(s[0]) {
            assert(s.len() > 1);
            assert(s.drop_last()[0] == s[0]);
        }
    } else {
        assert(s.subrange(0, s.len() as int) =~= s);
    }
}

proof fn lemma_trim_shape(s: Seq<char>)
    ensures
        trim(s).len() > 0 ==> !is_white_space(trim(s)[0]) && !is_white_space(trim(s).last()),
{
    lemma_trim_start_shape(s);
    lemma_trim_end_shape(trim_start(s));
    let a = trim_start(s);
    let t = trim_end(a);
    if t.len() > 0 {
        assert(t[0] == a[0]);
    }
}

/// The characters of `v` with white space at both ends removed (`str::trim`).
pub fn trim_chars(v: &[char]) -> (r: Vec<char>)
    ensures
        r@ == trim(v@),
{
    let n = v.len();
    let mut lo: usize = 0;
    while lo < n && white_space(v[lo])
        invariant
            lo <= n == v@.len(),
            forall|j: int| 0 <= j < lo ==> is_white_space(#[trigger] v@[j]),
        decreases n - lo,
    {
        lo = lo + 1;
    }
    proof {
        lemma_trim_start_at(v@, lo as int);
    }
    let ghost a = v@.subrange(lo as int, n as int);
    let mut hi: usize = n;
    while hi > lo && white_space(v[hi - 1])
        invariant
            lo <= hi <= n == v@.len(),
            a == v@.subrange(lo as int, n as int),
            forall|j: int| hi <= j < n ==> is_white_space(#[trigger] v@[j]),
        decreases hi - lo,
    {
        hi = hi - 1;
    }
    proof {
        assert forall|j: int| hi - lo <= j < a.len() implies is_white_space(#[trigger] a[j]) by {
            assert(a[j] == v@[lo + j]);
        }
        if hi > lo {
            assert(a[hi - lo - 1] == v@[hi - 1]);
        }
        lemma_trim_end_at(a, hi - lo);
        assert(a.subrange(0, hi - lo) =~= v@.subrange(lo as int, hi as int));
    }
    sub_chars(v, lo, hi)
}

/// `str::to_ascii_lowercase` on a character vector.
pub fn lower_chars(v: &[char]) -> (r: Vec<char>)
    ensures
        r@ == ascii_lower_text(v@),
{
    let mut r: Vec<char> = Vec::new();
    let mut i: usize = 0;
    while i < v.len()
        invariant
            i <= v@.len(),
            r@ == ascii_lower_text(v@.take(i as int)),
        decreases v@.len() - i,
    {
        r.push(lower_char(v[i]));
        i = i + 1;
        assert(r@ =~= ascii_lower_text(v@.take(i as int)));
    }
    assert(v@.take(v@.len() as int) =~= v@);
    r
}

/// Whether every character of `v` is an ASCII letter.
pub fn chars_all_alpha(v: &[char]) -> (r: bool)
    ensures
        r == all_ascii_alpha(v@),
{
    let mut i: usize = 0;
    while i < v.len()
        invariant
            i <= v@.len(),
            forall|j: int| 0 <= j < i ==> #[trigger] is_ascii_alpha(v@[j]),
        decreases v@.len() - i,
    {
        if !ascii_alpha(v[i]) {
            return false;
        }
        i = i + 1;
    }
    true
}

/// Whether every character of `v` is an ASCII letter or digit.
pub fn chars_all_alnum(v: &[char]) -> (r: bool)
    ensures
        r == all_ascii_alnum(v@),
{
    let mut i: usize = 0;
    while i < v.len()
        invariant
            i <= v@.len(),
            forall|j: int| 0 <= j < i ==> #[trigger] is_ascii_alnum(v@[j]),
        decreases v@.len() - i,
    {
        if !ascii_alnum(v[i]) {
            return false;
        }
        i = i + 1;
    }
    true
}

/// `str::eq_ignore_ascii_case` on character vectors.


pub fn chars_eq_ignore_case(a: &[char], b: &[char]) -> (r: bool)
    ensures
        r == eq_ignore_ascii_case(a@, b@),
{
    let la = lower_chars(a);
    let lb = lower_chars(b);
    chars_eq(la.as_slice(), lb.as_slice())
}

// ---------------------------------------------------------------------------
// Splitting
// ---------------------------------------------------------------------------

/// `str::split(sep)` for a character separator: the pieces between
/// occurrences of `sep`, empty pieces included; there is always at least one.
pub open spec fn split_on(s: Seq<char>, sep: char) -> Seq<Seq<char>>
    decreases s.len(),
{
    if s.len() == 0 {
        seq![Seq::empty()]
    } else {
        let p = split_on(s.drop_last(), sep);
        if s.last() == sep {
            p.push(Seq::empty())
        } else {
            p.update(p.len() - 1, p.last().push(s.last()))
        }
    }
}

pub proof fn lemma_split_on_nonempty(s: Seq<char>, sep: char)
    ensures
        split_on(s, sep).len() >= 1,
    decreases s.len(),
{
    if s.len() > 0 {
        lemma_split_on_nonempty(s.drop_last(), sep);
    }
}

/// The pieces `ps` put back together with `sep` between them.
pub open spec fn join_with(ps: Seq<Seq<char>>, sep: char) -> Seq<char>
    decreases ps.len(),
{
    if ps.len() <= 1 {
        if ps.len() == 1 {
            ps[0]
        } else {
            Seq::empty()
        }
    } else {
        join_with(ps.drop_last(), sep) + seq![sep] + ps.last()
    }
}

proof fn lemma_join_push_last(ps: Seq<Seq<char>>, sep: char, c: char)
    requires
        ps.len() >= 1,
    ensures
        join_with(ps.update(ps.len() - 1, ps.last().push(c)), sep) == join_with(ps, sep).push(c),
{
    let qs = ps.update(ps.len() - 1, ps.last().push(c));
    if ps.len() > 1 {
        assert(qs.drop_last() =~= ps.drop_last());
        assert(join_with(qs, sep) =~= join_with(ps, sep).push(c));
    }
}

/// Splitting takes nothing away and adds nothing: the pieces hold no
/// separator, and put back together with the separator between them they
/// give the text again.
pub proof fn law_split_on_rejoins(s: Seq<char>, sep: char)
    ensures
        join_with(split_on(s, sep), sep) == s,
        forall|i: int|
            0 <= i < split_on(s, sep).len() ==> !(#[trigger] split_on(s, sep)[i]).contains(sep),
    decreases s.len(),
{
    lemma_split_on_nonempty(s, sep);
    if s.len() > 0 {
        let t = s.drop_last();
        law_split_on_rejoins(t, sep);
        lemma_split_on_nonempty(t, sep);
        let p = split_on(t, sep);
        if s.last() == sep {
            let q = p.push(Seq::empty());
            assert(q.drop_last() =~= p);
            assert(join_with(q, sep) =~= t + seq![sep] + Seq::empty());
            assert(t.push(sep) =~= s);
            assert(forall|i: int| 0 <= i < q.len() - 1 ==> q[i] == p[i]);
        } else {
            lemma_join_push_last(p, sep, s.last());
            assert(t.push(s.last()) =~= s);
            let q = p.update(p.len() - 1, p.last().push(s.last()));
            assert forall|i: int| 0 <= i < q.len() implies !(#[trigger] q[i]).contains(sep) by {
                if i == q.len() - 1 {
                    if q[i].contains(sep) {
                        let k = choose|k: int| 0 <= k < q[i].len() && q[i][k] == sep;
                        if k < p.last().len() {
                            assert(p[p.len() - 1][k] == sep);
                        }
                    }
                } else {
                    assert(q[i] == p[i]);
                }
            }
        }
    } else {
        assert(split_on(s, sep) =~= seq![Seq::<char>::empty()]);
        assert(s =~= Seq::<char>::empty());
    }
}

/// The views of a vector of character vectors.
pub open spec fn pieces_view(v: Seq<Vec<char>>) -> Seq<Seq<char>> {
    v.map_values(|p: Vec<char>| p@)
}

/// The pieces of `v` between occurrences of `sep` (`str::split`).
pub fn split_chars(v: &[char], sep: char) -> (r: Vec<Vec<char>>)
    ensures
        pieces_view(r@) == split_on(v@, sep),
{
    let mut done: Vec<Vec<char>> = Vec::new();
    let mut cur: Vec<char> = Vec::new();
    let mut i: usize = 0;
    assert(v@.take(0) =~= Seq::<char>::empty());
    assert(pieces_view(done@).push(cur@) =~= split_on(v@.take(0), sep));
    while i < v.len()
        invariant
            i <= v@.len(),
            pieces_view(done@).push(cur@) == split_on(v@.take(i as int), sep),
        decreases v@.len() - i,
    {
        let ghost before = v@.take(i as int);
        let ghost after = v@.take(i + 1);
        assert(after.drop_last() =~= before);
        assert(after.last() == v@[i as int]);
        proof {
            lemma_split_on_nonempty(before, sep);
        }
        if v[i] == sep {
            let piece = cur;
            done.push(piece);
            cur = Vec::new();
            assert(pieces_view(done@).push(cur@) =~= split_on(after, sep));
        } else {
            cur.push(v[i]);
            assert(pieces_view(done@).push(cur@) =~= split_on(after, sep));
        }
        i = i + 1;
    }
    assert(v@.take(v@.len() as int) =~= v@);
    done.push(cur);
    assert(pieces_view(done@) =~= split_on(v@, sep));
    done
}

/// Drops one carriage return at the end of a line.
pub open spec fn strip_cr(l: Seq<char>) -> Seq<char> {
    if l.len() > 0 && l.last() == '\r' {
        l.drop_last()
    } else {
        l
    }
}

/// `str::lines`: pieces split at `\n` or `\r\n`; a final line ending is
/// optional and produces no extra empty line.
pub open spec fn lines(s: Seq<char>) -> Seq<Seq<char>> {
    if s.len() == 0 {
        Seq::empty()
    } else {
        let p = split_on(s, '\n');
        let body = p.drop_last().map_values(|l: Seq<char>| strip_cr(l));
        if s.last() == '\n' {
            body
        } else {
            body.push(p.last())
        }
    }
}

fn strip_cr_chars(v: Vec<char>) -> (r: Vec<char>)
    ensures
        r@ == strip_cr(v@),
{
    let mut v = v;
    if v.len() > 0 && v[v.len() - 1] == '\r' {
        v.pop();
    }
    v
}

/// The lines of `v` (`str::lines`).
pub fn lines_of(v: &[char]) -> (r: Vec<Vec<char>>)
    ensures
        pieces_view(r@) == lines(v@),
{
    if v.len() == 0 {
        let r: Vec<Vec<char>> = Vec::new();
        assert(pieces_view(r@) =~= lines(v@));
        return r;
    }
    let mut parts = split_chars(v, '\n');
    proof {
        lemma_split_on_nonempty(v@, '\n');
    }
    let ghost p = pieces_view(parts@);
    let last = parts.pop().unwrap();
    assert(pieces_view(parts@) =~= p.drop_last());
    let mut r: Vec<Vec<char>> = Vec::new();
    let mut i: usize = 0;
    while i < parts.len()
        invariant
            i <= parts@.len(),
            p.len() >= 1,
            pieces_view(parts@) == p.drop_last(),
            pieces_view(r@) == p.drop_last().take(i as int).map_values(|l: Seq<char>| strip_cr(l)),
        decreases parts@.len() - i,
    {
        let piece = parts[i].clone();
        assert(piece@ =~= parts@[i as int]@);
        let line = strip_cr_chars(piece);
        let ghost old_r = pieces_view(r@);
        r.push(line);
        assert(pieces_view(r@) =~= old_r.push(line@));
        i = i + 1;
        assert(pieces_view(r@) =~= p.drop_last().take(i as int).map_values(
            |l: Seq<char>| strip_cr(l),
        ));
    }
    assert(p.drop_last().take(parts@.len() as int) =~= p.drop_last());
    if v[v.len() - 1] != '\n' {
        r.push(last);
    }
    assert(pieces_view(r@) =~= lines(v@));
    r
}

// ---------------------------------------------------------------------------
// Searching
// ---------------------------------------------------------------------------

/// The first index at or after `i` where `s` holds `c`.
pub open spec fn find_from(s: Seq<char>, c: char, i: int) -> Option<int>
    decreases s.len() - i,
{
    if i < 0 || i >= s.len() {
        None
    } else if s[i] == c {
        Some(i)
    } else {
        find_from(s, c, i + 1)
    }
}

/// The last index before `j` where `s` holds `c`.
pub open spec fn rfind_before(s: Seq<char>, c: char, j: int) -> Option<int>
    decreases j,
{
    if j <= 0 || j > s.len() {
        None
    } else if s[j - 1] == c {
        Some(j - 1)
    } else {
        rfind_before(s, c, j - 1)
    }
}

/// The first index at or after `i` where `s` holds `a` followed by `b`.
pub open spec fn find_pair_from(s: Seq<char>, a: char, b: char, i: int) -> Option<int>
    decreases s.len() - i,
{
    if i < 0 || i + 1 >= s.len() {
        None
    } else if s[i] == a && s[i + 1] == b {
        Some(i)
    } else {
        find_pair_from(s, a, b, i + 1)
    }
}

pub proof fn lemma_find_from(s: Seq<char>, c: char, k: int)
    requires
        0 <= k,
    ensures
        find_from(s, c, k) matches Some(i) ==> k <= i < s.len() && s[i] == c && forall|j: int|
            k <= j < i ==> s[j] != c,
        find_from(s, c, k) is None ==> forall|j: int| k <= j < s.len() ==> s[j] != c,
    decreases s.len() - k,
{
    if k < s.len() && s[k] != c {
        lemma_find_from(s, c, k + 1);
    }
}

pub proof fn lemma_rfind_before(s: Seq<char>, c: char, k: int)
    requires
        k <= s.len(),
    ensures
        rfind_before(s, c, k) matches Some(i) ==> 0 <= i < k && s[i] == c && forall|j: int|
            i < j < k ==> s[j] != c,
        rfind_before(s, c, k) is None ==> forall|j: int| 0 <= j < k ==> s[j] != c,
    decreases k,
{
    if k > 0 && s[k - 1] != c {
        lemma_rfind_before(s, c, k - 1);
    }
}

pub proof fn lemma_find_pair_from(s: Seq<char>, a: char, b: char, k: int)
    requires
        0 <= k,
    ensures
        find_pair_from(s, a, b, k) matches Some(i) ==> k <= i && i + 1 < s.len() && s[i] == a
            && s[i + 1] == b,
    decreases s.len() - k,
{
    if k + 1 < s.len() && !(s[k] == a && s[k + 1] == b) {
        lemma_find_pair_from(s, a, b, k + 1);
    }
}

/// The index of the first `c` in `v` (`str::find`).
pub fn find_char(v: &[char], c: char) -> (r: Option<usize>)
    ensures
        r matches Some(i) ==> find_from(v@, c, 0) == Some(i as int) && i < v@.len(),
        r is None ==> find_from(v@, c, 0) is None,
{
    proof {
        lemma_find_from(v@, c, 0);
    }
    let mut i: usize = 0;
    while i < v.len()
        invariant
            i <= v@.len(),
            find_from(v@, c, 0) == find_from(v@, c, i as int),
        decreases v@.len() - i,
    {
        if v[i] == c {
            return Some(i);
        }
        i = i + 1;
    }
    None
}

/// The index of the last `c` in `v` (`str::rfind`).
pub fn rfind_char(v: &[char], c: char) -> (r: Option<usize>)
    ensures
        r matches Some(i) ==> rfind_before(v@, c, v@.len() as int) == Some(i as int) && i
            < v@.len(),
        r is None ==> rfind_before(v@, c, v@.len() as int) is None,
{
    proof {
        lemma_rfind_before(v@, c, v@.len() as int);
    }
    let mut j: usize = v.len();
    while j > 0
        invariant
            j <= v@.len(),
            rfind_before(v@, c, v@.len() as int) == rfind_before(v@, c, j as int),
        decreases j,
    {
        if v[j - 1] == c {
            return Some(j - 1);
        }
        j = j - 1;
    }
    None
}

/// The index of the first `a` immediately followed by `b` in `v`.
pub fn find_pair(v: &[char], a: char, b: char) -> (r: Option<usize>)
    ensures
        r matches Some(i) ==> find_pair_from(v@, a, b, 0) == Some(i as int) && i + 1 < v@.len(),
        r is None ==> find_pair_from(v@, a, b, 0) is None,
{
    proof {
        lemma_find_pair_from(v@, a, b, 0);
    }
    let mut i: usize = 0;
    while v.len() > 1 && i < v.len() - 1
        invariant
            i <= v@.len(),
            find_pair_from(v@, a, b, 0) == find_pair_from(v@, a, b, i as int),
        decreases v@.len() - i,
    {
        if v[i] == a && v[i + 1] == b {
            return Some(i);
        }
        i = i + 1;
    }
    None
}

// ---------------------------------------------------------------------------
// Decimal numbers
// ---------------------------------------------------------------------------

/// The value of an ASCII digit.
pub open spec fn digit_value(c: char) -> int {
    (c as u32) - ('0' as u32)
}

/// Every character of `s` is an ASCII digit.
pub open spec fn all_digits(s: Seq<char>) -> bool {
    forall|i: int| 0 <= i < s.len() ==> #[trigger] is_ascii_digit(s[i])
}

/// The value of a string of decimal digits.
pub open spec fn decimal_value(s: Seq<char>) -> int
    decreases s.len(),
{
    if s.len() == 0 {
        0
    } else {
        decimal_value(s.drop_last()) * 10 + digit_value(s.last())
    }
}

/// `u16::from_str`: an optional `+` followed by at least one ASCII digit,
/// with a value that fits in a `u16`; anything else (white space included)
/// is refused.
pub open spec fn parse_u16_text(s: Seq<char>) -> Option<u16> {
    let digits = if s.len() > 0 && s[0] == '+' {
        s.drop_first()
    } else {
        s
    };
    if digits.len() > 0 && all_digits(digits) && decimal_value(digits) <= 0xffff {
        Some(decimal_value(digits) as u16)
    } else {
        None
    }
}

pub proof fn lemma_decimal_value_nonneg(s: Seq<char>)
    requires
        all_digits(s),
    ensures
        decimal_value(s) >= 0,
    decreases s.len(),
{
    if s.len() > 0 {
        assert(is_ascii_digit(s[s.len() - 1]));
        lemma_decimal_value_nonneg(s.drop_last());
    }
}

/// The largest value of `n` decimal digits.
pub open spec fn decimal_limit(n: nat) -> int
    decreases n,
{
    if n == 0 {
        0
    } else {
        decimal_limit((n - 1) as nat) * 10 + 9
    }
}

pub proof fn lemma_decimal_value_bound(s: Seq<char>)
    requires
        all_digits(s),
    ensures
        0 <= decimal_value(s) <= decimal_limit(s.len()),
    decreases s.len(),
{
    if s.len() > 0 {
        assert(is_ascii_digit(s[s.len() - 1]));
        assert(all_digits(s.drop_last())) by {
            assert forall|i: int| 0 <= i < s.drop_last().len() implies #[trigger] is_ascii_digit(
                s.drop_last()[i],
            ) by {
                assert(s.drop_last()[i] == s[i]);
            }
        }
        lemma_decimal_value_bound(s.drop_last());
    }
}

/// The number that `v[lo..hi]` spells in decimal, if it is all digits and
/// at most `u16::MAX`.
pub fn digits_to_u16(v: &[char], lo: usize) -> (r: Option<u16>)
    requires
        lo <= v@.len(),
    ensures
        r == (if v@.len() - lo > 0 && all_digits(v@.subrange(lo as int, v@.len() as int))
            && decimal_value(v@.subrange(lo as int, v@.len() as int)) <= 0xffff {
            Some(decimal_value(v@.subrange(lo as int, v@.len() as int)) as u16)
        } else {
            None
        }),
{
    let ghost d = v@.subrange(lo as int, v@.len() as int);
    if lo == v.len() {
        return None;
    }
    let mut acc: u32 = 0;
    let mut too_big = false;
    let mut i: usize = lo;
    while i < v.len()
        invariant
            lo <= i <= v@.len(),
            d == v@.subrange(lo as int, v@.len() as int),
            all_digits(v@.subrange(lo as int, i as int)),
            !too_big ==> acc == decimal_value(v@.subrange(lo as int, i as int)),
            !too_big ==> acc <= 0xffff,
            too_big ==> decimal_value(v@.subrange(lo as int, i as int)) > 0xffff,
        decreases v@.len() - i,
    {
        let c = v[i];
        if !ascii_digit(c) {
            assert(!is_ascii_digit(d[i - lo]));
            return None;
        }
        let ghost before = v@.subrange(lo as int, i as int);
        let ghost after = v@.subrange(lo as int, i + 1);
        assert(after.drop_last() =~= before);
        assert(after.last() == c);
        proof {
            lemma_decimal_value_nonneg(before);
        }
        if !too_big {
            acc = acc * 10 + ((c as u32) - ('0' as u32));
            if acc > 0xffff {
                too_big = true;
            }
        }
        i = i + 1;
        assert(all_digits(after)) by {
            assert forall|j: int| 0 <= j < after.len() implies #[trigger] is_ascii_digit(after[j]) by {
                if j < before.len() {
                    assert(after[j] == before[j]);
                }
            }
        }
    }
    if too_big {
        None
    } else {
        Some(acc as u16)
    }
}

/// `u16::from_str` on a character vector.
pub fn parse_u16_chars(v: &[char]) -> (r: Option<u16>)
    ensures
        r == parse_u16_text(v@),
{
    if v.len() > 0 && v[0] == '+' {
        assert(v@.drop_first() =~= v@.subrange(1, v@.len() as int));
        digits_to_u16(v, 1)
    } else {
        assert(v@ =~= v@.subrange(0, v@.len() as int));
        digits_to_u16(v, 0)
    }
}

} // verus!
