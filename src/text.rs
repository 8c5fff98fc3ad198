//! Character-level helpers over `Seq<char>` shared by the chunkers and the
//! ingestion filters.

use vstd::prelude::*;

verus! {

/// The Unicode White_Space characters, which `char::is_whitespace` accepts.
pub open spec fn is_white(c: char) -> bool {
    ('\u{9}' <= c && c <= '\u{d}') || c == ' ' || c == '\u{85}' || c == '\u{a0}' || c
        == '\u{1680}' || ('\u{2000}' <= c && c <= '\u{200a}') || c == '\u{2028}' || c
        == '\u{2029}' || c == '\u{202f}' || c == '\u{205f}' || c == '\u{3000}'
}

/// Relies on `char::is_whitespace`: true exactly for the characters with
/// the Unicode White_Space property.
#[verifier::external_body]
pub(crate) fn char_is_white(c: char) -> (r: bool)
    ensures
        r == is_white(c),
{
    c.is_whitespace()
}

/// Relies on `String::push`: appends one character.
#[verifier::external_body]
pub(crate) fn push_char(s: &mut String, c: char)
    ensures
        final(s)@ == old(s)@.push(c),
{
    s.push(c)
}

/// The characters of `s`, in order.
pub fn chars_of(s: &str) -> (r: Vec<char>)
    ensures
        r@ == s@,
{
    let mut v: Vec<char> = Vec::new();
    for c in it: s.chars()
        invariant
            v@ == it.seq().take(it.index() as int),
    {
        v.push(c);
    }
    v
}


/// `s` with leading whitespace removed.
pub open spec fn trim_start(s: Seq<char>) -> Seq<char>
    decreases s.len(),
{
    if s.len() > 0 && is_white(s[0]) {
        trim_start(s.drop_first())
    } else {
        s
    }
}

/// `s` with trailing whitespace removed.
pub open spec fn trim_end(s: Seq<char>) -> Seq<char>
    decreases s.len(),
{
    if s.len() > 0 && is_white(s.last()) {
        trim_end(s.drop_last())
    } else {
        s
    }
}

/// `s` with whitespace removed from both ends, as `str::trim` does.
pub open spec fn trim(s: Seq<char>) -> Seq<char> {
    trim_end(trim_start(s))
}

/// The characters of `s` that are not whitespace, in order.
pub open spec fn non_white(s: Seq<char>) -> Seq<char>
    decreases s.len(),
{
    if s.len() == 0 {
        Seq::empty()
    } else if is_white(s[0]) {
        non_white(s.drop_first())
    } else {
        seq![s[0]] + non_white(s.drop_first())
    }
}

/// Dropping whitespace distributes over joining.
pub proof fn lemma_non_white_add(a: Seq<char>, b: Seq<char>)
    ensures
        non_white(a + b) == non_white(a) + non_white(b),
    decreases a.len(),
{
    if a.len() == 0 {
        assert(a + b =~= b);
        assert(non_white(a) + non_white(b) =~= non_white(b));
    } else {
        assert((a + b).drop_first() =~= a.drop_first() + b);
        assert((a + b)[0] == a[0]);
        lemma_non_white_add(a.drop_first(), b);
        if !is_white(a[0]) {
            assert(seq![a[0]] + (non_white(a.drop_first()) + non_white(b)) =~= seq![a[0]]
                + non_white(a.drop_first()) + non_white(b));
        }
    }
}

/// A run without whitespace is kept whole.
pub proof fn lemma_non_white_solid(w: Seq<char>)
    requires
        forall|m: int| 0 <= m < w.len() ==> !is_white(#[trigger] w[m]),
    ensures
        non_white(w) == w,
    decreases w.len(),
{
    if w.len() > 0 {
        let t = w.drop_first();
        assert forall|m: int| 0 <= m < t.len() implies !is_white(#[trigger] t[m]) by {
            assert(t[m] == w[m + 1]);
        }
        lemma_non_white_solid(t);
        assert(seq![w[0]] + t =~= w);
    }
}

/// Whitespace alone leaves nothing.
pub proof fn lemma_non_white_blank(w: Seq<char>)
    requires
        forall|m: int| 0 <= m < w.len() ==> is_white(#[trigger] w[m]),
    ensures
        non_white(w) == Seq::<char>::empty(),
    decreases w.len(),
{
    if w.len() > 0 {
        let t = w.drop_first();
        assert forall|m: int| 0 <= m < t.len() implies is_white(#[trigger] t[m]) by {
            assert(t[m] == w[m + 1]);
        }
        lemma_non_white_blank(t);
    }
}

/// Trimming removes whitespace only.
pub proof fn lemma_non_white_trim(s: Seq<char>)
    ensures
        non_white(trim(s)) == non_white(s),
{
    lemma_non_white_trim_start(s);
    lemma_non_white_trim_end(trim_start(s));
}

proof fn lemma_non_white_trim_start(s: Seq<char>)
    ensures
        non_white(trim_start(s)) == non_white(s),
    decreases s.len(),
{
    if s.len() > 0 && is_white(s[0]) {
        lemma_non_white_trim_start(s.drop_first());
    }
}

proof fn lemma_non_white_trim_end(s: Seq<char>)
    ensures
        non_white(trim_end(s)) == non_white(s),
    decreases s.len(),
{
    if s.len() > 0 && is_white(s.last()) {
        lemma_non_white_trim_end(s.drop_last());
        assert(s.drop_last() + seq![s.last()] =~= s);
        lemma_non_white_add(s.drop_last(), seq![s.last()]);
        let one = seq![s.last()];
        assert(one[0] == s.last());
        assert(one.drop_first() =~= Seq::<char>::empty());
        assert(non_white(one.drop_first()) == Seq::<char>::empty());
        assert(non_white(one) == Seq::<char>::empty());
        assert(non_white(s.drop_last()) + Seq::<char>::empty() =~= non_white(s.drop_last()));
    }
}

/// Trimmed text that is not empty starts and ends with non-whitespace.
pub proof fn lemma_trim_ends(s: Seq<char>)
    ensures
        trim(s).len() <= s.len(),
        trim(s).len() > 0 ==> !is_white(trim(s)[0]) && !is_white(trim(s).last()),
{
    lemma_trim_start_shape(s);
    lemma_trim_end_shape(trim_start(s));
}

proof fn lemma_trim_start_shape(s: Seq<char>)
    ensures
        trim_start(s).len() <= s.len(),
        trim_start(s).len() > 0 ==> !is_white(trim_start(s)[0]),
        exists|k: int| 0 <= k <= s.len() && trim_start(s) == s.skip(k),
    decreases s.len(),
{
    if s.len() > 0 && is_white(s[0]) {
        lemma_trim_start_shape(s.drop_first());
        let k = choose|k: int| 0 <= k <= s.drop_first().len() && trim_start(s.drop_first()) == s.drop_first().skip(k);
        assert(s.drop_first().skip(k) =~= s.skip(k + 1));
    } else {
        assert(s.skip(0) =~= s);
    }
}

proof fn lemma_trim_end_shape(s: Seq<char>)
    ensures
        trim_end(s).len() <= s.len(),
        trim_end(s).len() > 0 ==> !is_white(trim_end(s).last()),
        trim_end(s).len() > 0 && s.len() > 0 && !is_white(s[0]) ==> trim_end(s)[0] == s[0],
        s.len() > 0 && !is_white(s[0]) ==> trim_end(s).len() > 0,
    decreases s.len(),
{
    if s.len() > 0 && is_white(s.last()) {
        lemma_trim_end_shape(s.drop_last());
    }
}

/// All pieces of `parts` joined end to end.
pub open spec fn concat(parts: Seq<Seq<char>>) -> Seq<char>
    decreases parts.len(),
{
    if parts.len() == 0 {
        Seq::<char>::empty()
    } else {
        parts[0] + concat(parts.drop_first())
    }
}

/// Joining two runs of pieces is joining their joins.
pub proof fn lemma_concat_append(a: Seq<Seq<char>>, b: Seq<Seq<char>>)
    ensures
        concat(a + b) == concat(a) + concat(b),
    decreases a.len(),
{
    if a.len() == 0 {
        assert(a + b =~= b);
        assert(concat(a) + concat(b) =~= concat(b));
    } else {
        assert((a + b).drop_first() =~= a.drop_first() + b);
        lemma_concat_append(a.drop_first(), b);
        assert(concat(a) + concat(b) =~= a[0] + (concat(a.drop_first()) + concat(b)));
    }
}

/// A single piece joins to itself.
pub proof fn lemma_concat_single(x: Seq<char>)
    ensures
        concat(seq![x]) == x,
{
    let p = seq![x];
    assert(p.drop_first() =~= Seq::<Seq<char>>::empty());
    assert(concat(p.drop_first()) == Seq::<char>::empty());
    assert(concat(p) == p[0] + concat(p.drop_first()));
    assert(x + Seq::<char>::empty() =~= x);
}

/// The views of a vector of strings.
pub open spec fn views(v: Seq<String>) -> Seq<Seq<char>> {
    v.map_values(|s: String| s@)
}

/// Index of the first character of `s[lo..hi]` that is not whitespace, or `hi`.
fn first_non_white(s: &Vec<char>, lo: usize, hi: usize) -> (r: usize)
    requires
        lo <= hi <= s.len(),
    ensures
        lo <= r <= hi,
        s@.subrange(r as int, hi as int) == trim_start(s@.subrange(lo as int, hi as int)),
{
    let mut i = lo;
    while i < hi && char_is_white(s[i])
        invariant
            lo <= i <= hi <= s.len(),
            trim_start(s@.subrange(i as int, hi as int)) == trim_start(
                s@.subrange(lo as int, hi as int),
            ),
        decreases hi - i,
    {
        assert(s@.subrange(i as int, hi as int).drop_first() =~= s@.subrange(
            i + 1,
            hi as int,
        ));
        i = i + 1;
    }
    i
}

/// End of `s[lo..hi]` once trailing whitespace is dropped.
fn last_non_white(s: &Vec<char>, lo: usize, hi: usize) -> (r: usize)
    requires
        lo <= hi <= s.len(),
    ensures
        lo <= r <= hi,
        s@.subrange(lo as int, r as int) == trim_end(s@.subrange(lo as int, hi as int)),
{
    let mut j = hi;
    while j > lo && char_is_white(s[j - 1])
        invariant
            lo <= j <= hi <= s.len(),
            trim_end(s@.subrange(lo as int, j as int)) == trim_end(
                s@.subrange(lo as int, hi as int),
            ),
        decreases j,
    {
        assert(s@.subrange(lo as int, j as int).drop_last() =~= s@.subrange(
            lo as int,
            j - 1,
        ));
        j = j - 1;
    }
    j
}

/// Bounds `(a, b)` such that `s[a..b]` is `s[lo..hi]` trimmed.
pub fn trim_bounds(s: &Vec<char>, lo: usize, hi: usize) -> (r: (usize, usize))
    requires
        lo <= hi <= s.len(),
    ensures
        lo <= r.0 <= r.1 <= hi,
        s@.subrange(r.0 as int, r.1 as int) == trim(s@.subrange(lo as int, hi as int)),
{
    let a = first_non_white(s, lo, hi);
    let b = last_non_white(s, a, hi);
    (a, b)
}

/// A new string holding `s[lo..hi]`.
pub fn string_of(s: &Vec<char>, lo: usize, hi: usize) -> (r: String)
    requires
        lo <= hi <= s.len(),
    ensures
        r@ == s@.subrange(lo as int, hi as int),
{
    let mut out = String::new();
    let mut i = lo;
    while i < hi
        invariant
            lo <= i <= hi <= s.len(),
            out@ == s@.subrange(lo as int, i as int),
        decreases hi - i,
    {
        push_char(&mut out, s[i]);
        assert(s@.subrange(lo as int, i + 1) =~= s@.subrange(lo as int, i as int).push(s@[i as int]));
        i = i + 1;
    }
    out
}


/// Whether two texts hold the same characters.
pub fn text_eq(a: &str, b: &str) -> (r: bool)
    ensures
        r == (a@ == b@),
{
    let x = chars_of(a);
    let y = chars_of(b);
    if x.len() != y.len() {
        return false;
    }
    let mut i: usize = 0;
    while i < x.len()
        invariant
            i <= x.len() == y.len(),
            x@ == a@,
            y@ == b@,
            forall|k: int| 0 <= k < i ==> x@[k] == y@[k],
        decreases x.len() - i,
    {
        if x[i] != y[i] {
            assert(x@[i as int] != y@[i as int]);
            return false;
        }
        i = i + 1;
    }
    assert(x@ =~= y@);
    true
}


/// Appends the characters of `t` to `out`.
pub fn push_all(out: &mut String, t: &str)
    ensures
        final(out)@ == old(out)@ + t@,
{
    let cs = chars_of(t);
    let mut i: usize = 0;
    while i < cs.len()
        invariant
            i <= cs.len(),
            cs@ == t@,
            out@ == old(out)@ + cs@.take(i as int),
        decreases cs.len() - i,
    {
        push_char(out, cs[i]);
        assert(cs@.take(i + 1) =~= cs@.take(i as int).push(cs@[i as int]));
        i = i + 1;
    }
    assert(cs@.take(i as int) =~= cs@);
}

/// Length of the run of characters other than `sep` that starts `s`.
pub open spec fn run_until(s: Seq<char>, sep: char) -> nat
    decreases s.len(),
{
    if s.len() == 0 || s[0] == sep {
        0
    } else {
        1 + run_until(s.drop_first(), sep)
    }
}

pub proof fn lemma_run_until(s: Seq<char>, sep: char)
    ensures
        run_until(s, sep) <= s.len(),
        s.len() > 0 && s[0] != sep ==> run_until(s, sep) >= 1,
    decreases s.len(),
{
    if s.len() > 0 && s[0] != sep {
        lemma_run_until(s.drop_first(), sep);
    }
}

pub proof fn lemma_run_until_is(s: Seq<char>, sep: char, k: nat)
    requires
        k <= s.len(),
        forall|m: int| 0 <= m < k ==> #[trigger] s[m] != sep,
        k == s.len() || s[k as int] == sep,
    ensures
        run_until(s, sep) == k,
    decreases k,
{
    if k > 0 {
        let t = s.drop_first();
        assert forall|m: int| 0 <= m < k - 1 implies #[trigger] t[m] != sep by {
            assert(t[m] == s[m + 1]);
        }
        if k < s.len() {
            assert(t[(k - 1) as int] == s[k as int]);
        }
        lemma_run_until_is(t, sep, (k - 1) as nat);
    }
}

/// The maximal runs of characters other than `sep` in `s`, in order (the
/// nonempty pieces of `s` split at `sep`).
pub open spec fn runs(s: Seq<char>, sep: char) -> Seq<Seq<char>>
    decreases s.len(),
    via runs_decreases
{
    if s.len() == 0 {
        Seq::empty()
    } else if s[0] == sep {
        runs(s.drop_first(), sep)
    } else {
        seq![s.take(run_until(s, sep) as int)] + runs(s.skip(run_until(s, sep) as int), sep)
    }
}

#[via_fn]
proof fn runs_decreases(s: Seq<char>, sep: char) {
    lemma_run_until(s, sep);
}

/// The nonempty pieces of `s` split at `sep`.
pub fn split_runs(s: &str, sep: char) -> (r: Vec<String>)
    ensures
        views(r@) == runs(s@, sep),
{
    let chars = chars_of(s);
    let n = chars.len();
    let mut out: Vec<String> = Vec::new();
    let mut i: usize = 0;
    assert(chars@.subrange(0, n as int) =~= s@);
    assert(views(out@) + runs(s@, sep) =~= runs(s@, sep));
    while i < n
        invariant
            i <= n == chars.len(),
            chars@ == s@,
            views(out@) + runs(chars@.subrange(i as int, n as int), sep) == runs(s@, sep),
        decreases n - i,
    {
        let ghost rest = chars@.subrange(i as int, n as int);
        assert(rest[0] == chars@[i as int]);
        if chars[i] == sep {
            assert(rest.drop_first() =~= chars@.subrange(i + 1, n as int));
            i = i + 1;
        } else {
            let mut j = i;
            while j < n && chars[j] != sep
                invariant
                    i <= j <= n == chars.len(),
                    forall|m: int| i <= m < j ==> #[trigger] chars@[m] != sep,
                decreases n - j,
            {
                j = j + 1;
            }
            proof {
                assert forall|m: int| 0 <= m < j - i implies #[trigger] rest[m] != sep by {
                    assert(rest[m] == chars@[i + m]);
                }
                if j < n {
                    assert(rest[j - i] == chars@[j as int]);
                }
                lemma_run_until_is(rest, sep, (j - i) as nat);
                assert(rest.take((j - i) as int) =~= chars@.subrange(i as int, j as int));
                assert(rest.skip((j - i) as int) =~= chars@.subrange(j as int, n as int));
            }
            let ghost before = views(out@);
            out.push(string_of(&chars, i, j));
            assert(views(out@) =~= before.push(chars@.subrange(i as int, j as int)));
            assert(views(out@) + runs(chars@.subrange(j as int, n as int), sep) =~= before
                + runs(rest, sep));
            i = j;
        }
    }
    assert(chars@.subrange(i as int, n as int) =~= Seq::<char>::empty());
    assert(views(out@) + Seq::<Seq<char>>::empty() =~= views(out@));
    out
}

/// `xs` joined with `sep` between neighbours.
pub open spec fn join(xs: Seq<Seq<char>>, sep: Seq<char>) -> Seq<char>
    decreases xs.len(),
{
    if xs.len() == 0 {
        Seq::empty()
    } else if xs.len() == 1 {
        xs[0]
    } else {
        join(xs.drop_last(), sep) + sep + xs.last()
    }
}

/// `parts` joined with `sep` between neighbours.
pub fn join_all(parts: &Vec<String>, sep: &str) -> (r: String)
    ensures
        r@ == join(views(parts@), sep@),
{
    let mut out = String::new();
    let mut i: usize = 0;
    assert(views(parts@).take(0) =~= Seq::<Seq<char>>::empty());
    while i < parts.len()
        invariant
            i <= parts.len(),
            out@ == join(views(parts@).take(i as int), sep@),
        decreases parts.len() - i,
    {
        let ghost v = views(parts@);
        assert(v.take(i + 1).drop_last() =~= v.take(i as int));
        assert(v.take(i + 1).last() == parts@[i as int]@);
        if i > 0 {
            push_all(&mut out, sep);
        }
        push_all(&mut out, parts[i].as_str());
        proof {
            if i == 0 {
                assert(out@ =~= v.take(1)[0]);
            }
        }
        i = i + 1;
    }
    assert(views(parts@).take(i as int) =~= views(parts@));
    out
}

} // verus!
