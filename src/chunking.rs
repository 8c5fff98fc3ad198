//! Splitting text into bounded-length chunks under three policies: fixed
//! size, word preserving, and semantic (paragraphs, then sentences).

use vstd::prelude::*;
use crate::text::{
    char_is_white, chars_of, concat, is_white, lemma_concat_append, lemma_concat_single,
    lemma_non_white_add, lemma_non_white_blank, lemma_non_white_solid, lemma_non_white_trim,
    lemma_trim_ends, non_white, string_of, trim, trim_bounds, views,
};

verus! {

/// Size used by the semantic policy, both as its ceiling and for its
/// word-preserving fallback.
pub const SEMANTIC_CHUNK_SIZE: usize = 250;

/// Size of the fixed-size policy in the default options.
pub const DEFAULT_CHUNK_SIZE: usize = 250;

/// How text is cut into chunks.
#[derive(Debug, Clone)]
pub enum ChunkingStrategy {
    /// Cut at exact character counts; the value is the maximum size.
    Size(usize),
    /// Keep whole words together; the value is the target (and maximum) size.
    Character(usize),
    /// Prefer paragraph breaks, then sentence ends.
    Semantic,
}

/// Options of the chunker.
#[derive(Debug, Clone)]
pub struct ChunkerOptions {
    /// The policy.
    pub strategy: ChunkingStrategy,
    /// Keep the text's leading and trailing whitespace.
    pub preserve_whitespace: bool,
    /// Delimiter shown between chunks by a front end.
    pub delimiter: Option<String>,
    /// Whether a front end prints diagnostics.
    pub debug: bool,
}

impl ChunkingStrategy {
    /// A size policy needs a positive size.
    pub open spec fn valid(&self) -> bool {
        match *self {
            ChunkingStrategy::Size(n) => n > 0,
            ChunkingStrategy::Character(n) => n > 0,
            ChunkingStrategy::Semantic => true,
        }
    }

    /// The largest chunk length this policy allows.
    pub open spec fn ceiling(&self) -> nat {
        match *self {
            ChunkingStrategy::Size(n) => n as nat,
            ChunkingStrategy::Character(n) => n as nat,
            ChunkingStrategy::Semantic => SEMANTIC_CHUNK_SIZE as nat,
        }
    }
}

impl Default for ChunkerOptions {
    /// Fixed-size chunks of at most 250 characters, text trimmed first.
    fn default() -> (r: ChunkerOptions)
        ensures
            r.strategy == ChunkingStrategy::Size(DEFAULT_CHUNK_SIZE),
            !r.preserve_whitespace,
            r.delimiter.is_none(),
            !r.debug,
    {
        ChunkerOptions {
            strategy: ChunkingStrategy::Size(DEFAULT_CHUNK_SIZE),
            preserve_whitespace: false,
            delimiter: None,
            debug: false,
        }
    }
}

/// The text a policy works on: trimmed unless whitespace is preserved.
pub open spec fn prepared(s: Seq<char>, preserve: bool) -> Seq<char> {
    if preserve {
        s
    } else {
        trim(s)
    }
}

/// `s` cut every `n` characters; the last piece may be shorter.
pub open spec fn fixed_pieces(s: Seq<char>, n: nat) -> Seq<Seq<char>>
    decreases s.len(),
{
    if n == 0 || s.len() == 0 {
        Seq::empty()
    } else if s.len() <= n {
        seq![s]
    } else {
        seq![s.take(n as int)] + fixed_pieces(s.skip(n as int), n)
    }
}

/// Every piece is nonempty and at most `n` long, and the pieces rebuild `s`.
pub proof fn lemma_fixed_pieces(s: Seq<char>, n: nat)
    requires
        n > 0,
    ensures
        forall|i: int|
            0 <= i < fixed_pieces(s, n).len() ==> 0 < #[trigger] fixed_pieces(s, n)[i].len()
                <= n,
        concat(fixed_pieces(s, n)) == s,
    decreases s.len(),
{
    if s.len() == 0 {
        assert(concat(fixed_pieces(s, n)) =~= s);
    } else if s.len() <= n {
        lemma_concat_single(s);
    } else {
        lemma_fixed_pieces(s.skip(n as int), n);
        let p = fixed_pieces(s, n);
        assert(p.drop_first() =~= fixed_pieces(s.skip(n as int), n));
        assert(s.take(n as int) + s.skip(n as int) =~= s);
        assert forall|i: int| 0 <= i < p.len() implies 0 < #[trigger] p[i].len() <= n by {
            if i > 0 {
                assert(p[i] == fixed_pieces(s.skip(n as int), n)[i - 1]);
            }
        }
    }
}

/// Appends the fixed pieces of `s[lo..hi]` to `out`.
fn push_fixed_pieces(s: &Vec<char>, lo: usize, hi: usize, n: usize, out: &mut Vec<String>)
    requires
        lo <= hi <= s.len(),
        n > 0,
    ensures
        views(final(out)@) == views(old(out)@) + fixed_pieces(
            s@.subrange(lo as int, hi as int),
            n as nat,
        ),
{
    let ghost whole = s@.subrange(lo as int, hi as int);
    let mut i = lo;
    while i < hi
        invariant
            lo <= i <= hi <= s.len(),
            n > 0,
            views(out@) + fixed_pieces(s@.subrange(i as int, hi as int), n as nat) == views(
                old(out)@,
            ) + fixed_pieces(whole, n as nat),
        decreases hi - i,
    {
        let ghost rest = s@.subrange(i as int, hi as int);
        let end = if hi - i <= n {
            hi
        } else {
            i + n
        };
        let piece = string_of(s, i, end);
        let ghost before = views(out@);
        out.push(piece);
        assert(views(out@) =~= before.push(piece@));
        if hi - i <= n {
            assert(rest =~= s@.subrange(i as int, end as int));
            assert(s@.subrange(end as int, hi as int) =~= Seq::<char>::empty());
            assert(fixed_pieces(s@.subrange(end as int, hi as int), n as nat) =~= Seq::<
                Seq<char>,
            >::empty());
            assert(before.push(piece@) + Seq::<Seq<char>>::empty() =~= before + seq![rest]);
        } else {
            assert(rest.take(n as int) =~= s@.subrange(i as int, end as int));
            assert(rest.skip(n as int) =~= s@.subrange(end as int, hi as int));
            assert(before.push(piece@) + fixed_pieces(s@.subrange(end as int, hi as int), n as nat)
                =~= before + fixed_pieces(rest, n as nat));
        }
        i = end;
    }
    assert(s@.subrange(i as int, hi as int) =~= Seq::<char>::empty());
    assert(views(out@) + Seq::<Seq<char>>::empty() =~= views(out@));
}

/// Bounds of the text a policy works on, inside `chars`.
fn prepared_bounds(chars: &Vec<char>, preserve: bool) -> (r: (usize, usize))
    ensures
        r.0 <= r.1 <= chars.len(),
        chars@.subrange(r.0 as int, r.1 as int) == prepared(chars@, preserve),
{
    if preserve {
        assert(chars@.subrange(0, chars.len() as int) =~= chars@);
        (0, chars.len())
    } else {
        assert(chars@.subrange(0, chars.len() as int) =~= chars@);
        trim_bounds(chars, 0, chars.len())
    }
}

/// Splits text at exact character positions, regardless of word boundaries.
pub fn size_based_chunking(text: &str, max_size: usize, preserve_whitespace: bool) -> (r: Vec<
    String,
>)
    requires
        max_size > 0,
    ensures
        views(r@) == fixed_pieces(prepared(text@, preserve_whitespace), max_size as nat),
{
    let chars = chars_of(text);
    let (a, b) = prepared_bounds(&chars, preserve_whitespace);
    let mut out: Vec<String> = Vec::new();
    push_fixed_pieces(&chars, a, b, max_size, &mut out);
    assert(views(Seq::<String>::empty()) =~= Seq::<Seq<char>>::empty());
    assert(Seq::<Seq<char>>::empty() + fixed_pieces(prepared(text@, preserve_whitespace), max_size as nat)
        =~= fixed_pieces(prepared(text@, preserve_whitespace), max_size as nat));
    out
}


/// Length of the run of non-whitespace characters that starts `s`.
pub open spec fn run_len(s: Seq<char>) -> nat
    decreases s.len(),
{
    if s.len() == 0 || is_white(s[0]) {
        0
    } else {
        1 + run_len(s.drop_first())
    }
}

proof fn lemma_run_len_bound(s: Seq<char>)
    ensures
        run_len(s) <= s.len(),
        s.len() > 0 && !is_white(s[0]) ==> run_len(s) >= 1,
    decreases s.len(),
{
    if s.len() > 0 && !is_white(s[0]) {
        lemma_run_len_bound(s.drop_first());
    }
}

/// A run of `k` non-whitespace characters ended by whitespace or by the end.
proof fn lemma_run_len_is(s: Seq<char>, k: nat)
    requires
        k <= s.len(),
        forall|m: int| 0 <= m < k ==> !is_white(#[trigger] s[m]),
        k == s.len() || is_white(s[k as int]),
    ensures
        run_len(s) == k,
    decreases k,
{
    if k > 0 {
        let t = s.drop_first();
        assert forall|m: int| 0 <= m < k - 1 implies !is_white(#[trigger] t[m]) by {
            assert(t[m] == s[m + 1]);
        }
        if k < s.len() {
            assert(t[(k - 1) as int] == s[k as int]);
        }
        lemma_run_len_is(t, (k - 1) as nat);
    }
}

/// The words of `s`: its maximal runs of non-whitespace characters, in order
/// (what `str::split_whitespace` yields).
pub open spec fn words_of(s: Seq<char>) -> Seq<Seq<char>>
    decreases s.len(),
    via words_of_decreases
{
    if s.len() == 0 {
        Seq::empty()
    } else if is_white(s[0]) {
        words_of(s.drop_first())
    } else {
        seq![s.take(run_len(s) as int)] + words_of(s.skip(run_len(s) as int))
    }
}

#[via_fn]
proof fn words_of_decreases(s: Seq<char>) {
    lemma_run_len_bound(s);
}

/// `cur` as a finished chunk, if it holds anything.
pub open spec fn flushed(cur: Seq<char>) -> Seq<Seq<char>> {
    if cur.len() > 0 {
        seq![cur]
    } else {
        Seq::empty()
    }
}

/// Greedy packing of `words` into chunks of at most `n` characters, words
/// separated by one space; `cur` is the chunk being filled. A word longer
/// than `n` closes the current chunk and is cut into fixed pieces.
pub open spec fn pack(words: Seq<Seq<char>>, n: nat, cur: Seq<char>) -> Seq<Seq<char>>
    decreases words.len(),
{
    if words.len() == 0 {
        flushed(cur)
    } else {
        let w = words[0];
        let rest = words.drop_first();
        if w.len() > n {
            flushed(cur) + fixed_pieces(w, n) + pack(rest, n, Seq::empty())
        } else if cur.len() > 0 && cur.len() + w.len() + 1 > n {
            seq![cur] + pack(rest, n, w)
        } else if cur.len() > 0 {
            pack(rest, n, cur + seq![' '] + w)
        } else {
            pack(rest, n, w)
        }
    }
}

/// The word-preserving policy on already prepared text `t`.
pub open spec fn word_chunks(t: Seq<char>, n: nat) -> Seq<Seq<char>> {
    if t.len() == 0 {
        Seq::empty()
    } else if t.len() <= n {
        seq![t]
    } else {
        pack(words_of(t), n, Seq::empty())
    }
}

/// Appends `s[lo..hi]` to `out`.
fn push_range(out: &mut String, s: &Vec<char>, lo: usize, hi: usize)
    requires
        lo <= hi <= s.len(),
    ensures
        final(out)@ == old(out)@ + s@.subrange(lo as int, hi as int),
{
    let mut i = lo;
    while i < hi
        invariant
            lo <= i <= hi <= s.len(),
            out@ == old(out)@ + s@.subrange(lo as int, i as int),
        decreases hi - i,
    {
        crate::text::push_char(out, s[i]);
        assert(s@.subrange(lo as int, i + 1) =~= s@.subrange(lo as int, i as int).push(s@[i as int]));
        i = i + 1;
    }
}

/// Word-preserving packing of `chars[a..b]` into chunks of at most `n`.
fn pack_words(chars: &Vec<char>, a: usize, b: usize, n: usize) -> (r: Vec<String>)
    requires
        a <= b <= chars.len(),
        n > 0,
    ensures
        views(r@) == pack(words_of(chars@.subrange(a as int, b as int)), n as nat, Seq::empty()),
{
    let ghost goal = pack(words_of(chars@.subrange(a as int, b as int)), n as nat, Seq::empty());
    let mut out: Vec<String> = Vec::new();
    let mut cur = String::new();
    let mut cur_len: usize = 0;
    let mut i = a;
    assert(views(out@) =~= Seq::<Seq<char>>::empty());
    assert(Seq::<Seq<char>>::empty() + goal =~= goal);
    while i < b
        invariant
            a <= i <= b <= chars.len(),
            n > 0,
            cur_len == cur@.len(),
            cur_len <= n,
            views(out@) + pack(words_of(chars@.subrange(i as int, b as int)), n as nat, cur@)
                == goal,
        decreases b - i,
    {
        let ghost rest = chars@.subrange(i as int, b as int);
        if char_is_white(chars[i]) {
            assert(rest[0] == chars@[i as int]);
            assert(rest.drop_first() =~= chars@.subrange(i + 1, b as int));
            i = i + 1;
        } else {
            let mut j = i;
            while j < b && !char_is_white(chars[j])
                invariant
                    i <= j <= b <= chars.len(),
                    forall|m: int| i <= m < j ==> !is_white(#[trigger] chars@[m]),
                decreases b - j,
            {
                j = j + 1;
            }
            proof {
                assert forall|m: int| 0 <= m < j - i implies !is_white(#[trigger] rest[m]) by {
                    assert(rest[m] == chars@[i + m]);
                }
                if j < b {
                    assert(rest[j - i] == chars@[j as int]);
                }
                lemma_run_len_is(rest, (j - i) as nat);
                assert(rest.take((j - i) as int) =~= chars@.subrange(i as int, j as int));
                assert(rest.skip((j - i) as int) =~= chars@.subrange(j as int, b as int));
                assert(words_of(rest).drop_first() =~= words_of(chars@.subrange(j as int, b as int)));
            }
            let ghost w = chars@.subrange(i as int, j as int);
            let ghost rw = words_of(chars@.subrange(j as int, b as int));
            let ghost ws = words_of(rest);
            let ghost c0 = cur@;
            let ghost before = views(out@);
            assert(ws.len() > 0 && ws[0] == w && ws.drop_first() == rw);
            assert(before + pack(ws, n as nat, c0) == goal);
            let wl = j - i;
            if wl > n {
                if cur_len > 0 {
                    out.push(cur);
                }
                assert(views(out@) =~= before + flushed(c0));
                push_fixed_pieces(chars, i, j, n, &mut out);
                cur = String::new();
                cur_len = 0;
                assert(views(out@) + pack(rw, n as nat, cur@) =~= before + pack(ws, n as nat, c0));
            } else {
                if cur_len > 0 && cur_len >= n - wl {
                    out.push(cur);
                    cur = String::new();
                    cur_len = 0;
                    assert(views(out@) =~= before.push(c0));
                    assert(views(out@) + pack(rw, n as nat, w) =~= before + pack(ws, n as nat, c0));
                } else if cur_len > 0 {
                    crate::text::push_char(&mut cur, ' ');
                    cur_len = cur_len + 1;
                } else {
                    assert(c0 + w =~= w);
                }
                push_range(&mut cur, chars, i, j);
                cur_len = cur_len + wl;
                proof {
                    if c0.len() > 0 && c0.len() + w.len() + 1 <= n {
                        assert(cur@ =~= c0 + seq![' '] + w);
                    } else {
                        assert(cur@ =~= w);
                    }
                    assert(views(out@) + pack(rw, n as nat, cur@) == before + pack(ws, n as nat, c0));
                }
            }
            i = j;
        }
    }
    assert(chars@.subrange(i as int, b as int) =~= Seq::<char>::empty());
    let ghost c0 = cur@;
    let ghost before = views(out@);
    if cur_len > 0 {
        out.push(cur);
    }
    assert(views(out@) =~= before + flushed(c0));
    out
}


/// Splits text at word boundaries; a word longer than the target is cut
/// into fixed-size pieces.
pub fn character_based_chunking(text: &str, target_size: usize, preserve_whitespace: bool) -> (r:
    Vec<String>)
    requires
        target_size > 0,
    ensures
        views(r@) == word_chunks(prepared(text@, preserve_whitespace), target_size as nat),
{
    let chars = chars_of(text);
    let (a, b) = prepared_bounds(&chars, preserve_whitespace);
    word_chunks_of(&chars, a, b, target_size)
}

/// The word-preserving policy on `chars[a..b]`.
fn word_chunks_of(chars: &Vec<char>, a: usize, b: usize, n: usize) -> (r: Vec<String>)
    requires
        a <= b <= chars.len(),
        n > 0,
    ensures
        views(r@) == word_chunks(chars@.subrange(a as int, b as int), n as nat),
{
    if a == b {
        let r: Vec<String> = Vec::new();
        assert(views(r@) =~= Seq::<Seq<char>>::empty());
        r
    } else if b - a <= n {
        let mut r: Vec<String> = Vec::new();
        r.push(string_of(chars, a, b));
        assert(views(r@) =~= seq![chars@.subrange(a as int, b as int)]);
        r
    } else {
        pack_words(chars, a, b, n)
    }
}

/// A sentence ends at one of these characters when whitespace follows.
pub open spec fn is_stop(c: char) -> bool {
    c == '.' || c == '!' || c == '?'
}

/// Start of the first blank-line break (two line feeds) in `s` at or
/// after `i`, or `s.len()` when there is none.
pub open spec fn next_break(s: Seq<char>, i: int) -> int
    decreases s.len() - i,
{
    if i < 0 || i + 1 >= s.len() {
        s.len() as int
    } else if s[i] == '\n' && s[i + 1] == '\n' {
        i
    } else {
        next_break(s, i + 1)
    }
}

/// Index of the first sentence-ending character in `s` at or after `i`
/// that whitespace follows, or `s.len()` when there is none.
pub open spec fn next_stop(s: Seq<char>, i: int) -> int
    decreases s.len() - i,
{
    if i < 0 || i + 1 >= s.len() {
        s.len() as int
    } else if is_stop(s[i]) && is_white(s[i + 1]) {
        i
    } else {
        next_stop(s, i + 1)
    }
}

proof fn lemma_next_break(s: Seq<char>, i: int)
    requires
        0 <= i,
    ensures
        next_break(s, i) == s.len() || (i <= next_break(s, i) && next_break(s, i) + 1 < s.len()
            && s[next_break(s, i)] == '\n' && s[next_break(s, i) + 1] == '\n'),
    decreases s.len() - i,
{
    if i + 1 < s.len() && !(s[i] == '\n' && s[i + 1] == '\n') {
        lemma_next_break(s, i + 1);
    }
}

proof fn lemma_next_stop(s: Seq<char>, i: int)
    requires
        0 <= i,
    ensures
        next_stop(s, i) == s.len() || (i <= next_stop(s, i) && next_stop(s, i) + 1 < s.len()),
    decreases s.len() - i,
{
    if i + 1 < s.len() && !(is_stop(s[i]) && is_white(s[i + 1])) {
        lemma_next_stop(s, i + 1);
    }
}

/// The paragraphs of `s`: the pieces between blank-line breaks, as
/// `str::split("\n\n")` yields them (at least one piece, maybe empty).
pub open spec fn paragraphs(s: Seq<char>) -> Seq<Seq<char>>
    decreases s.len(),
    via paragraphs_decreases
{
    let k = next_break(s, 0);
    if k >= s.len() {
        seq![s]
    } else {
        seq![s.take(k)] + paragraphs(s.skip(k + 2))
    }
}

#[via_fn]
proof fn paragraphs_decreases(s: Seq<char>) {
    lemma_next_break(s, 0);
}

/// The sentences of `s`: each ends after a sentence-ending character that
/// whitespace follows; the rest of the text is the last sentence.
pub open spec fn sentences(s: Seq<char>) -> Seq<Seq<char>>
    decreases s.len(),
    via sentences_decreases
{
    if s.len() == 0 {
        Seq::empty()
    } else {
        let k = next_stop(s, 0);
        if k >= s.len() {
            seq![s]
        } else {
            seq![s.take(k + 1)] + sentences(s.skip(k + 1))
        }
    }
}

#[via_fn]
proof fn sentences_decreases(s: Seq<char>) {
    lemma_next_stop(s, 0);
}

/// One semantic piece as chunks: trimmed, dropped when empty, and
/// word-packed when longer than the semantic ceiling.
pub open spec fn piece_chunks(p: Seq<char>) -> Seq<Seq<char>> {
    let q = trim(p);
    if q.len() == 0 {
        Seq::empty()
    } else {
        word_chunks(q, SEMANTIC_CHUNK_SIZE as nat)
    }
}

/// The chunks of all `pieces`, in order.
pub open spec fn refine(pieces: Seq<Seq<char>>) -> Seq<Seq<char>>
    decreases pieces.len(),
{
    if pieces.len() == 0 {
        Seq::empty()
    } else {
        piece_chunks(pieces[0]) + refine(pieces.drop_first())
    }
}

/// The semantic policy on prepared text `t`: paragraphs when there are
/// several, else sentences when there are several, else word-preserving
/// chunks of the semantic size.
pub open spec fn semantic_chunks(t: Seq<char>) -> Seq<Seq<char>> {
    let ps = paragraphs(t);
    if ps.len() > 1 {
        refine(ps)
    } else {
        let ss = refine(sentences(t));
        if ss.len() <= 1 {
            word_chunks(t, SEMANTIC_CHUNK_SIZE as nat)
        } else {
            ss
        }
    }
}

/// The pieces of `chars` that `ranges` delimit.
pub open spec fn range_views(chars: Seq<char>, ranges: Seq<(usize, usize)>) -> Seq<Seq<char>> {
    ranges.map_values(|r: (usize, usize)| chars.subrange(r.0 as int, r.1 as int))
}

/// Every range lies inside `[a, b]`.
pub open spec fn ranges_within(ranges: Seq<(usize, usize)>, a: int, b: int) -> bool {
    forall|i: int| 0 <= i < ranges.len() ==> a <= (#[trigger] ranges[i]).0 <= ranges[i].1 <= b
}

/// Ranges of the paragraphs of `chars[a..b]`.
fn paragraph_ranges(chars: &Vec<char>, a: usize, b: usize) -> (r: Vec<(usize, usize)>)
    requires
        a <= b <= chars.len(),
    ensures
        ranges_within(r@, a as int, b as int),
        range_views(chars@, r@) == paragraphs(chars@.subrange(a as int, b as int)),
{
    let ghost goal = paragraphs(chars@.subrange(a as int, b as int));
    let mut out: Vec<(usize, usize)> = Vec::new();
    let mut p = a;
    assert(range_views(chars@, out@) + goal =~= goal);
    loop
        invariant
            a <= p <= b <= chars.len(),
            ranges_within(out@, a as int, b as int),
            goal == paragraphs(chars@.subrange(a as int, b as int)),
            range_views(chars@, out@) + paragraphs(chars@.subrange(p as int, b as int)) == goal,
        decreases b - p,
    {
        let ghost sub = chars@.subrange(p as int, b as int);
        let mut i = p;
        while b - i > 1 && !(chars[i] == '\n' && chars[i + 1] == '\n')
            invariant
                p <= i <= b <= chars.len(),
                sub == chars@.subrange(p as int, b as int),
                next_break(sub, 0) == next_break(sub, i - p),
            decreases b - i,
        {
            assert(sub[i - p] == chars@[i as int] && sub[i - p + 1] == chars@[i + 1]);
            i = i + 1;
        }
        let ghost before = range_views(chars@, out@);
        if b - i > 1 {
            assert(sub[i - p] == chars@[i as int] && sub[i - p + 1] == chars@[i + 1]);
            assert(next_break(sub, 0) == i - p);
            assert(sub.take(i - p) =~= chars@.subrange(p as int, i as int));
            out.push((p, i));
            assert(range_views(chars@, out@) =~= before.push(sub.take(i - p)));
            assert(sub.skip(i - p + 2) =~= chars@.subrange(i + 2, b as int));
            assert(range_views(chars@, out@) + paragraphs(chars@.subrange(i + 2, b as int)) =~= before
                + paragraphs(sub));
            p = i + 2;
        } else {
            assert(next_break(sub, 0) == sub.len());
            out.push((p, b));
            assert(range_views(chars@, out@) =~= before.push(sub));
            assert(range_views(chars@, out@) =~= before + paragraphs(sub));
            assert(range_views(chars@, out@) == goal);
            assert(ranges_within(out@, a as int, b as int));
            return out;
        }
    }
}

/// Ranges of the sentences of `chars[a..b]`.
fn sentence_ranges(chars: &Vec<char>, a: usize, b: usize) -> (r: Vec<(usize, usize)>)
    requires
        a <= b <= chars.len(),
    ensures
        ranges_within(r@, a as int, b as int),
        range_views(chars@, r@) == sentences(chars@.subrange(a as int, b as int)),
{
    let ghost goal = sentences(chars@.subrange(a as int, b as int));
    let mut out: Vec<(usize, usize)> = Vec::new();
    let mut p = a;
    assert(range_views(chars@, out@) + goal =~= goal);
    while p < b
        invariant
            a <= p <= b <= chars.len(),
            ranges_within(out@, a as int, b as int),
            range_views(chars@, out@) + sentences(chars@.subrange(p as int, b as int)) == goal,
        decreases b - p,
    {
        let ghost sub = chars@.subrange(p as int, b as int);
        let mut i = p;
        while b - i > 1 && !((chars[i] == '.' || chars[i] == '!' || chars[i] == '?')
            && char_is_white(chars[i + 1]))
            invariant
                p <= i <= b <= chars.len(),
                sub == chars@.subrange(p as int, b as int),
                next_stop(sub, 0) == next_stop(sub, i - p),
            decreases b - i,
        {
            assert(sub[i - p] == chars@[i as int] && sub[i - p + 1] == chars@[i + 1]);
            i = i + 1;
        }
        let ghost before = range_views(chars@, out@);
        if b - i > 1 {
            assert(sub[i - p] == chars@[i as int] && sub[i - p + 1] == chars@[i + 1]);
            assert(next_stop(sub, 0) == i - p);
            assert(sub.take(i - p + 1) =~= chars@.subrange(p as int, i + 1));
            out.push((p, i + 1));
            assert(range_views(chars@, out@) =~= before.push(sub.take(i - p + 1)));
            assert(sub.skip(i - p + 1) =~= chars@.subrange(i + 1, b as int));
            assert(range_views(chars@, out@) + sentences(chars@.subrange(i + 1, b as int)) =~= before
                + sentences(sub));
            p = i + 1;
        } else {
            assert(next_stop(sub, 0) == sub.len());
            out.push((p, b));
            assert(range_views(chars@, out@) =~= before.push(sub));
            assert(chars@.subrange(b as int, b as int) =~= Seq::<char>::empty());
            assert(range_views(chars@, out@) + sentences(chars@.subrange(b as int, b as int)) =~= before
                + sentences(sub));
            p = b;
        }
    }
    assert(chars@.subrange(p as int, b as int) =~= Seq::<char>::empty());
    assert(range_views(chars@, out@) + Seq::<Seq<char>>::empty() =~= range_views(chars@, out@));
    out
}

/// The chunks of the pieces that `ranges` delimit.
fn refine_ranges(chars: &Vec<char>, ranges: &Vec<(usize, usize)>) -> (r: Vec<String>)
    requires
        ranges_within(ranges@, 0, chars.len() as int),
    ensures
        views(r@) == refine(range_views(chars@, ranges@)),
{
    let ghost all = range_views(chars@, ranges@);
    let mut out: Vec<String> = Vec::new();
    let mut k: usize = 0;
    assert(all.skip(0) =~= all);
    assert(views(out@) + refine(all) =~= refine(all));
    while k < ranges.len()
        invariant
            k <= ranges.len(),
            ranges_within(ranges@, 0, chars.len() as int),
            all == range_views(chars@, ranges@),
            views(out@) + refine(all.skip(k as int)) == refine(all),
        decreases ranges.len() - k,
    {
        let (lo, hi) = ranges[k];
        let (x, y) = trim_bounds(chars, lo, hi);
        let ghost before = views(out@);
        let ghost rest = all.skip(k as int);
        assert(rest[0] == chars@.subrange(lo as int, hi as int));
        assert(rest.drop_first() =~= all.skip(k + 1));
        if x < y {
            let piece = word_chunks_of(chars, x, y, SEMANTIC_CHUNK_SIZE);
            let mut m: usize = 0;
            assert(piece@.take(0) =~= Seq::<String>::empty());
            while m < piece.len()
                invariant
                    m <= piece.len(),
                    views(out@) == before + views(piece@.take(m as int)),
                decreases piece.len() - m,
            {
                let c = piece[m].clone();
                assert(c@ == piece@[m as int]@);
                let ghost o = views(out@);
                out.push(c);
                assert(views(out@) =~= o.push(c@));
                assert(piece@.take(m + 1) =~= piece@.take(m as int).push(piece@[m as int]));
                assert(views(piece@.take(m + 1)) =~= views(piece@.take(m as int)).push(c@));
                assert(views(out@) =~= before + views(piece@.take(m + 1)));
                m = m + 1;
            }
            assert(piece@.take(m as int) =~= piece@);
        } else {
            assert(views(out@) =~= before + piece_chunks(rest[0]));
        }
        assert(views(out@) + refine(all.skip(k + 1)) =~= before + refine(rest));
        k = k + 1;
    }
    assert(all.skip(k as int) =~= Seq::<Seq<char>>::empty());
    assert(views(out@) + Seq::<Seq<char>>::empty() =~= views(out@));
    out
}


/// Splits text at paragraph breaks, else at sentence ends, else at word
/// boundaries, with no chunk longer than the semantic size.
pub fn semantic_chunking(text: &str, preserve_whitespace: bool) -> (r: Vec<String>)
    ensures
        views(r@) == semantic_chunks(prepared(text@, preserve_whitespace)),
{
    let chars = chars_of(text);
    let (a, b) = prepared_bounds(&chars, preserve_whitespace);
    let paras = paragraph_ranges(&chars, a, b);
    if paras.len() > 1 {
        refine_ranges(&chars, &paras)
    } else {
        let sents = sentence_ranges(&chars, a, b);
        let pieces = refine_ranges(&chars, &sents);
        if pieces.len() <= 1 {
            word_chunks_of(&chars, a, b, SEMANTIC_CHUNK_SIZE)
        } else {
            pieces
        }
    }
}

/// The chunks that `strategy` makes of `text`.
pub open spec fn chunks_for(text: Seq<char>, strategy: ChunkingStrategy, preserve: bool) -> Seq<
    Seq<char>,
> {
    let t = prepared(text, preserve);
    match strategy {
        ChunkingStrategy::Size(n) => fixed_pieces(t, n as nat),
        ChunkingStrategy::Character(n) => word_chunks(t, n as nat),
        ChunkingStrategy::Semantic => semantic_chunks(t),
    }
}

/// Chunks text under the policy of `options`.
pub fn chunk_text(text: &str, options: ChunkerOptions) -> (r: Vec<String>)
    requires
        options.strategy.valid(),
    ensures
        views(r@) == chunks_for(text@, options.strategy, options.preserve_whitespace),
{
    match options.strategy {
        ChunkingStrategy::Size(max_size) => size_based_chunking(
            text,
            max_size,
            options.preserve_whitespace,
        ),
        ChunkingStrategy::Character(target_size) => character_based_chunking(
            text,
            target_size,
            options.preserve_whitespace,
        ),
        ChunkingStrategy::Semantic => semantic_chunking(text, options.preserve_whitespace),
    }
}

/// Largest chunk of one record field.
pub const FIELD_CHUNK_CEILING: usize = 250;

/// The size a field is cut at: the requested size, capped by the ceiling.
pub open spec fn field_size(max_len: usize) -> nat {
    if max_len < FIELD_CHUNK_CEILING {
        max_len as nat
    } else {
        FIELD_CHUNK_CEILING as nat
    }
}

/// Cuts a record field into fixed pieces of at most `max_len` (and never
/// more than 250) characters; an empty field gives no chunk.
pub fn chunk_field(text: &str, max_len: usize) -> (r: Vec<String>)
    requires
        max_len > 0,
    ensures
        views(r@) == fixed_pieces(text@, field_size(max_len)),
{
    let chars = chars_of(text);
    let size = if max_len < FIELD_CHUNK_CEILING {
        max_len
    } else {
        FIELD_CHUNK_CEILING
    };
    let mut out: Vec<String> = Vec::new();
    push_fixed_pieces(&chars, 0, chars.len(), size, &mut out);
    assert(chars@.subrange(0, chars.len() as int) =~= text@);
    assert(views(Seq::<String>::empty()) =~= Seq::<Seq<char>>::empty());
    assert(Seq::<Seq<char>>::empty() + fixed_pieces(text@, field_size(max_len)) =~= fixed_pieces(
        text@,
        field_size(max_len),
    ));
    out
}


/// Every chunk is nonempty and at most `n` characters long.
pub open spec fn bounded(cs: Seq<Seq<char>>, n: nat) -> bool {
    forall|i: int| 0 <= i < cs.len() ==> 0 < #[trigger] cs[i].len() <= n
}

/// Every word is nonempty and holds no whitespace.
pub open spec fn solid_words(ws: Seq<Seq<char>>) -> bool {
    forall|i: int|
        0 <= i < ws.len() ==> ws[i].len() > 0 && forall|m: int|
            0 <= m < ws[i].len() ==> !is_white(#[trigger] ws[i][m])
}

proof fn lemma_bounded_add(a: Seq<Seq<char>>, b: Seq<Seq<char>>, n: nat)
    requires
        bounded(a, n),
        bounded(b, n),
    ensures
        bounded(a + b, n),
{
    assert forall|i: int| 0 <= i < (a + b).len() implies 0 < #[trigger] (a + b)[i].len() <= n by {
        if i >= a.len() {
            assert((a + b)[i] == b[i - a.len()]);
        }
    }
}

proof fn lemma_run_len_solid(s: Seq<char>)
    ensures
        forall|m: int| 0 <= m < run_len(s) ==> !is_white(#[trigger] s[m]),
    decreases s.len(),
{
    if s.len() > 0 && !is_white(s[0]) {
        lemma_run_len_bound(s);
        lemma_run_len_solid(s.drop_first());
        assert forall|m: int| 0 <= m < run_len(s) implies !is_white(#[trigger] s[m]) by {
            if m > 0 {
                assert(s[m] == s.drop_first()[m - 1]);
            }
        }
    }
}

/// The words of `s` are solid, and joined they are `s` without whitespace.
pub proof fn lemma_words_of(s: Seq<char>)
    ensures
        solid_words(words_of(s)),
        concat(words_of(s)) == non_white(s),
    decreases s.len(),
{
    if s.len() == 0 {
    } else if is_white(s[0]) {
        lemma_words_of(s.drop_first());
    } else {
        let k = run_len(s) as int;
        lemma_run_len_bound(s);
        lemma_run_len_solid(s);
        lemma_words_of(s.skip(k));
        let w = s.take(k);
        let ws = words_of(s);
        assert(ws.drop_first() == words_of(s.skip(k)));
        assert forall|m: int| 0 <= m < w.len() implies !is_white(#[trigger] w[m]) by {
            assert(w[m] == s[m]);
        }
        lemma_non_white_solid(w);
        assert(w + s.skip(k) =~= s);
        lemma_non_white_add(w, s.skip(k));
        assert forall|i: int| 0 <= i < ws.len() implies ws[i].len() > 0 && forall|m: int|
            0 <= m < ws[i].len() ==> !is_white(#[trigger] ws[i][m]) by {
            if i > 0 {
                assert(ws[i] == words_of(s.skip(k))[i - 1]);
            }
        }
    }
}

/// Packing keeps every chunk within `n` and loses no word character.
pub proof fn lemma_pack(ws: Seq<Seq<char>>, n: nat, cur: Seq<char>)
    requires
        n > 0,
        cur.len() <= n,
        solid_words(ws),
    ensures
        bounded(pack(ws, n, cur), n),
        non_white(concat(pack(ws, n, cur))) == non_white(cur) + concat(ws),
    decreases ws.len(),
{
    let empty = Seq::<char>::empty();
    if ws.len() == 0 {
        if cur.len() > 0 {
            lemma_concat_single(cur);
        }
        assert(non_white(cur) + concat(ws) =~= non_white(cur));
        if cur.len() == 0 {
            assert(non_white(cur) == empty);
        }
    } else {
        let w = ws[0];
        let rest = ws.drop_first();
        assert(solid_words(rest)) by {
            assert forall|i: int| 0 <= i < rest.len() implies rest[i].len() > 0 && forall|m: int|
                0 <= m < rest[i].len() ==> !is_white(#[trigger] rest[i][m]) by {
                assert(rest[i] == ws[i + 1]);
            }
        }
        assert forall|m: int| 0 <= m < w.len() implies !is_white(#[trigger] w[m]) by {
            assert(ws[0] == w);
        }
        lemma_non_white_solid(w);
        if w.len() > n {
            lemma_pack(rest, n, empty);
            lemma_fixed_pieces(w, n);
            let f = flushed(cur);
            let fp = fixed_pieces(w, n);
            let pr = pack(rest, n, empty);
            if cur.len() > 0 {
                lemma_concat_single(cur);
            } else {
                assert(non_white(cur) == empty);
            }
            assert(non_white(concat(f)) == non_white(cur));
            lemma_bounded_add(f, fp, n);
            lemma_bounded_add(f + fp, pr, n);
            lemma_concat_append(f + fp, pr);
            lemma_concat_append(f, fp);
            lemma_non_white_add(concat(f) + concat(fp), concat(pr));
            lemma_non_white_add(concat(f), concat(fp));
            assert(non_white(empty) == empty);
            assert(non_white(cur) + w + (empty + concat(rest)) =~= non_white(cur) + concat(ws));
        } else if cur.len() > 0 && cur.len() + w.len() + 1 > n {
            lemma_pack(rest, n, w);
            lemma_concat_single(cur);
            lemma_bounded_add(seq![cur], pack(rest, n, w), n);
            lemma_concat_append(seq![cur], pack(rest, n, w));
            lemma_non_white_add(cur, concat(pack(rest, n, w)));
            assert(non_white(cur) + (w + concat(rest)) =~= non_white(cur) + concat(ws));
        } else if cur.len() > 0 {
            let next = cur + seq![' '] + w;
            lemma_pack(rest, n, next);
            lemma_non_white_add(cur + seq![' '], w);
            lemma_non_white_add(cur, seq![' ']);
            let sp = seq![' '];
            assert(sp[0] == ' ');
            assert(sp.drop_first() =~= empty);
            assert(non_white(sp.drop_first()) == empty);
            assert(non_white(sp) == empty);
            assert(non_white(next) + concat(rest) =~= non_white(cur) + concat(ws));
        } else {
            lemma_pack(rest, n, w);
            assert(non_white(cur) == empty);
            assert(w + concat(rest) =~= non_white(cur) + concat(ws));
        }
    }
}

/// The word-preserving policy keeps chunks within `n` and loses no
/// non-whitespace character.
pub proof fn lemma_word_chunks(t: Seq<char>, n: nat)
    requires
        n > 0,
    ensures
        bounded(word_chunks(t, n), n),
        non_white(concat(word_chunks(t, n))) == non_white(t),
{
    if t.len() == 0 {
        assert(non_white(t) == Seq::<char>::empty());
    } else if t.len() <= n {
        lemma_concat_single(t);
    } else {
        lemma_words_of(t);
        lemma_pack(words_of(t), n, Seq::<char>::empty());
        assert(non_white(Seq::<char>::empty()) == Seq::<char>::empty());
        assert(Seq::<char>::empty() + concat(words_of(t)) =~= concat(words_of(t)));
    }
}

/// Joined sentences are the text itself.
pub proof fn lemma_sentences(s: Seq<char>)
    ensures
        concat(sentences(s)) == s,
    decreases s.len(),
{
    if s.len() > 0 {
        let k = next_stop(s, 0);
        lemma_next_stop(s, 0);
        if k >= s.len() {
            lemma_concat_single(s);
        } else {
            lemma_sentences(s.skip(k + 1));
            lemma_concat_append(seq![s.take(k + 1)], sentences(s.skip(k + 1)));
            lemma_concat_single(s.take(k + 1));
            assert(s.take(k + 1) + s.skip(k + 1) =~= s);
        }
    }
}

/// Joined paragraphs are the text without the breaks, which are whitespace.
pub proof fn lemma_paragraphs(s: Seq<char>)
    ensures
        non_white(concat(paragraphs(s))) == non_white(s),
    decreases s.len(),
{
    let k = next_break(s, 0);
    lemma_next_break(s, 0);
    if k >= s.len() {
        lemma_concat_single(s);
    } else {
        let rest = s.skip(k + 2);
        lemma_paragraphs(rest);
        lemma_concat_append(seq![s.take(k)], paragraphs(rest));
        lemma_concat_single(s.take(k));
        let br = s.subrange(k, k + 2);
        assert(s.take(k) + br + rest =~= s);
        assert forall|m: int| 0 <= m < br.len() implies is_white(#[trigger] br[m]) by {
            assert(br[m] == '\n');
        }
        lemma_non_white_blank(br);
        lemma_non_white_add(s.take(k) + br, rest);
        lemma_non_white_add(s.take(k), br);
        lemma_non_white_add(s.take(k), concat(paragraphs(rest)));
        assert(non_white(s.take(k)) + Seq::<char>::empty() =~= non_white(s.take(k)));
    }
}

/// Refined pieces stay within the semantic size and keep every
/// non-whitespace character of the pieces.
pub proof fn lemma_refine(ps: Seq<Seq<char>>)
    ensures
        bounded(refine(ps), SEMANTIC_CHUNK_SIZE as nat),
        non_white(concat(refine(ps))) == non_white(concat(ps)),
    decreases ps.len(),
{
    if ps.len() > 0 {
        let p = ps[0];
        let q = trim(p);
        lemma_refine(ps.drop_first());
        lemma_non_white_trim(p);
        let pc = piece_chunks(p);
        if q.len() == 0 {
            assert(non_white(q) == Seq::<char>::empty());
            assert(non_white(concat(pc)) == Seq::<char>::empty());
        } else {
            lemma_word_chunks(q, SEMANTIC_CHUNK_SIZE as nat);
        }
        lemma_bounded_add(pc, refine(ps.drop_first()), SEMANTIC_CHUNK_SIZE as nat);
        lemma_concat_append(pc, refine(ps.drop_first()));
        lemma_non_white_add(concat(pc), concat(refine(ps.drop_first())));
        lemma_non_white_add(p, concat(ps.drop_first()));
    }
}

/// Every chunk that any policy makes is nonempty and no longer than the
/// policy's ceiling.
pub proof fn lemma_chunk_size_bound(text: Seq<char>, strategy: ChunkingStrategy, preserve: bool)
    requires
        strategy.valid(),
    ensures
        bounded(chunks_for(text, strategy, preserve), strategy.ceiling()),
{
    let t = prepared(text, preserve);
    match strategy {
        ChunkingStrategy::Size(n) => {
            lemma_fixed_pieces(t, n as nat);
        },
        ChunkingStrategy::Character(n) => {
            lemma_word_chunks(t, n as nat);
        },
        ChunkingStrategy::Semantic => {
            lemma_word_chunks(t, SEMANTIC_CHUNK_SIZE as nat);
            lemma_refine(paragraphs(t));
            lemma_refine(sentences(t));
        },
    }
}

/// Under every policy the chunks, joined in order, hold exactly the
/// non-whitespace characters of the text, in order.
pub proof fn lemma_chunk_coverage(text: Seq<char>, strategy: ChunkingStrategy, preserve: bool)
    requires
        strategy.valid(),
    ensures
        non_white(concat(chunks_for(text, strategy, preserve))) == non_white(text),
{
    let t = prepared(text, preserve);
    if !preserve {
        lemma_non_white_trim(text);
    }
    assert(non_white(t) == non_white(text));
    match strategy {
        ChunkingStrategy::Size(n) => {
            lemma_fixed_pieces(t, n as nat);
        },
        ChunkingStrategy::Character(n) => {
            lemma_word_chunks(t, n as nat);
        },
        ChunkingStrategy::Semantic => {
            lemma_word_chunks(t, SEMANTIC_CHUNK_SIZE as nat);
            lemma_refine(paragraphs(t));
            lemma_paragraphs(t);
            lemma_refine(sentences(t));
            lemma_sentences(t);
        },
    }
}

/// No policy makes a chunk of empty text.
pub proof fn lemma_chunk_empty(strategy: ChunkingStrategy, preserve: bool)
    requires
        strategy.valid(),
    ensures
        chunks_for(Seq::<char>::empty(), strategy, preserve).len() == 0,
{
    let e = Seq::<char>::empty();
    lemma_trim_ends(e);
    assert(prepared(e, preserve).len() == 0);
    assert(prepared(e, preserve) =~= e);
    assert(next_break(e, 0) == 0);
    assert(paragraphs(e).len() == 1);
    assert(sentences(e).len() == 0);
    assert(refine(sentences(e)).len() == 0);
}

} // verus!
