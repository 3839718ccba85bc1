//! Text utilities: Unicode-aware tokenization, trigram extraction and a
//! bounded edit distance over grapheme clusters.

use vstd::prelude::*;
use crate::unicode::{
    nfd_of, is_nonspacing_mark, graphemes_of, lower_of, is_unicode_white,
    nfd_chars, char_is_nonspacing_mark, grapheme_clusters, to_lower, char_is_white,
    chars_of, string_from_chars,
};
use crate::levenshtein::{lev, lev_distance, lemma_lev_self, lemma_lev_symmetric};

verus! {

/// The fixed separator class on which phrases are split into tokens.
pub open spec fn is_separator(c: char) -> bool {
    ||| c == '-'
    ||| c == ' '
    ||| c == '\t'
    ||| c == '\n'
    ||| c == '\''
    ||| c == '\u{2019}'
    ||| c == '`'
    ||| c == '\u{201e}'
    ||| c == '"'
    ||| c == '_'
    ||| c == '.'
    ||| c == ','
    ||| c == ';'
    ||| c == ':'
    ||| c == '='
}

fn is_separator_char(c: char) -> (r: bool)
    ensures
        r == is_separator(c),
{
    c == '-' || c == ' ' || c == '\t' || c == '\n' || c == '\'' || c == '\u{2019}' || c == '`'
        || c == '\u{201e}' || c == '"' || c == '_' || c == '.' || c == ',' || c == ';' || c == ':'
        || c == '='
}

/// The longest separator-free prefix of `s`.
pub open spec fn first_piece(s: Seq<char>) -> Seq<char>
    decreases s.len(),
{
    if s.len() > 0 && !is_separator(s[0]) {
        seq![s[0]] + first_piece(s.drop_first())
    } else {
        Seq::empty()
    }
}

/// The length of the separator run at the start of `s`.
pub open spec fn sep_run_len(s: Seq<char>) -> nat
    decreases s.len(),
{
    if s.len() > 0 && is_separator(s[0]) {
        1 + sep_run_len(s.drop_first())
    } else {
        0
    }
}

proof fn lemma_first_piece(s: Seq<char>)
    ensures
        first_piece(s).len() <= s.len(),
        first_piece(s) == s.take(first_piece(s).len() as int),
        forall|k: int| 0 <= k < first_piece(s).len() ==> !is_separator(s[k]),
        first_piece(s).len() < s.len() ==> is_separator(s[first_piece(s).len() as int]),
    decreases s.len(),
{
    if s.len() > 0 && !is_separator(s[0]) {
        lemma_first_piece(s.drop_first());
        let p = first_piece(s);
        let q = first_piece(s.drop_first());
        assert(p == seq![s[0]] + q);
        assert(q == s.drop_first().take(q.len() as int));
        assert forall|k: int| 0 <= k < p.len() implies p[k] == s[k] && !is_separator(s[k]) by {
            if k > 0 {
                assert(p[k] == q[k - 1]);
                assert(q[k - 1] == s.drop_first().take(q.len() as int)[k - 1]);
                assert(q[k - 1] == s.drop_first()[k - 1]);
                assert(s.drop_first()[k - 1] == s[k]);
                assert(!is_separator(s.drop_first()[k - 1]));
            }
        }
        assert(p =~= s.take(p.len() as int));
        if p.len() < s.len() {
            assert(is_separator(s.drop_first()[q.len() as int]));
        }
    }
}

proof fn lemma_sep_run(s: Seq<char>)
    ensures
        sep_run_len(s) <= s.len(),
        forall|k: int| 0 <= k < sep_run_len(s) ==> is_separator(s[k]),
        sep_run_len(s) < s.len() ==> !is_separator(s[sep_run_len(s) as int]),
    decreases s.len(),
{
    if s.len() > 0 && is_separator(s[0]) {
        lemma_sep_run(s.drop_first());
        assert forall|k: int| 0 <= k < sep_run_len(s) implies is_separator(s[k]) by {
            if k > 0 {
                assert(is_separator(s.drop_first()[k - 1]));
            }
        }
        if sep_run_len(s) < s.len() {
            assert(!is_separator(s.drop_first()[sep_run_len(s.drop_first()) as int]));
        }
    }
}

/// The pieces of `s` between maximal separator runs, in order.  A leading or
/// trailing run yields an empty leading or trailing piece, and the empty
/// string yields one empty piece.
pub open spec fn split_tokens(s: Seq<char>) -> Seq<Seq<char>>
    decreases s.len(),
    via split_tokens_decreases
{
    let p = first_piece(s);
    if p.len() == s.len() {
        seq![p]
    } else {
        seq![p] + split_tokens(s.skip(p.len() + sep_run_len(s.skip(p.len() as int)) as int))
    }
}

#[via_fn]
proof fn split_tokens_decreases(s: Seq<char>) {
    let p = first_piece(s);
    lemma_first_piece(s);
    if p.len() != s.len() {
        let r = s.skip(p.len() as int);
        lemma_sep_run(r);
        assert(r[0] == s[p.len() as int]);
        assert(is_separator(r[0]));
        assert(sep_run_len(r) >= 1);
    }
}

/// One unfolding of `split_tokens`, in the shape the iterative splitter
/// produces at each step: a separator-free stretch up to `a`, then a
/// separator run up to `b`.
proof fn lemma_split_step(s: Seq<char>, a: int, b: int)
    requires
        0 <= a <= b <= s.len(),
        forall|k: int| 0 <= k < a ==> !is_separator(s[k]),
        a < s.len() ==> is_separator(s[a]),
        forall|k: int| a <= k < b ==> is_separator(s[k]),
        b < s.len() ==> !is_separator(s[b]),
    ensures
        a == s.len() ==> split_tokens(s) == seq![s.take(a)],
        a < s.len() ==> split_tokens(s) == seq![s.take(a)] + split_tokens(s.skip(b)),
{
    lemma_first_piece(s);
    let p = first_piece(s);
    assert(p.len() == a) by {
        if p.len() < a {
            assert(is_separator(s[p.len() as int]));
            assert(!is_separator(s[p.len() as int]));
        }
        if p.len() > a {
            assert(a < s.len());
            assert(!is_separator(s[a]));
        }
    }
    assert(p == s.take(a));
    if a < s.len() {
        let r = s.skip(a);
        lemma_sep_run(r);
        assert(sep_run_len(r) == b - a) by {
            let m = sep_run_len(r) as int;
            assert(forall|k: int| 0 <= k < r.len() ==> r[k] == s[a + k]);
            if m < b - a {
                assert(!is_separator(r[m]));
                assert(is_separator(s[a + m]));
            }
            if m > b - a {
                assert(b < s.len());
                assert(is_separator(r[b - a]));
                assert(!is_separator(s[b]));
            }
        }
        assert(s.skip(a).skip(b - a) =~= s.skip(b));
        assert(split_tokens(s) == seq![p] + split_tokens(s.skip(b)));
    }
}

/// Split a character sequence on separator runs.
fn split_chars(s: &Vec<char>) -> (r: Vec<Vec<char>>)
    ensures
        r.deep_view() == split_tokens(s@),
{
    let n = s.len();
    let mut out: Vec<Vec<char>> = Vec::new();
    let mut i: usize = 0;
    proof {
        assert(s@.skip(0) =~= s@);
        assert(out.deep_view() =~= Seq::<Seq<char>>::empty());
        assert(Seq::<Seq<char>>::empty() + split_tokens(s@) =~= split_tokens(s@));
    }
    loop
        invariant_except_break
            split_tokens(s@) =~= out.deep_view() + split_tokens(s@.skip(i as int)),
        invariant
            0 <= i <= n,
            n == s@.len(),
        ensures
            out.deep_view() == split_tokens(s@),
        decreases n - i,
    {
        // scan one piece
        let start: usize = i;
        while i < n && !is_separator_char(s[i])
            invariant
                start <= i <= n,
                n == s@.len(),
                forall|k: int| start <= k < i ==> !is_separator(s@[k]),
            decreases n - i,
        {
            i = i + 1;
        }
        let mut piece: Vec<char> = Vec::new();
        let mut k: usize = start;
        while k < i
            invariant
                start <= k <= i <= n,
                n == s@.len(),
                piece@ =~= s@.subrange(start as int, k as int),
            decreases i - k,
        {
            piece.push(s[k]);
            k = k + 1;
        }
        let piece_end: usize = i;
        // skip the separator run that follows it
        while i < n && is_separator_char(s[i])
            invariant
                piece_end <= i <= n,
                n == s@.len(),
                forall|k2: int| piece_end <= k2 < i ==> is_separator(s@[k2]),
            decreases n - i,
        {
            i = i + 1;
        }
        let ghost tail = s@.skip(start as int);
        let ghost pv = piece@;
        proof {
            assert(forall|k2: int| 0 <= k2 < tail.len() ==> tail[k2] == s@[start + k2]);
            lemma_split_step(tail, piece_end - start, i - start);
            assert(tail.take(piece_end - start) =~= s@.subrange(start as int, piece_end as int));
            assert(tail.skip(i - start) =~= s@.skip(i as int));
            assert(pv =~= tail.take(piece_end - start));
        }
        let ghost out0 = out.deep_view();
        out.push(piece);
        proof {
            assert(out.deep_view() =~= out0.push(pv)) by {
                assert(out@.len() == out0.len() + 1);
                assert(forall|k2: int|
                    0 <= k2 < out@.len() ==> out.deep_view()[k2] == out@[k2]@);
            }
        }
        if piece_end == n {
            proof {
                assert(split_tokens(tail) == seq![pv]);
                assert(out.deep_view() =~= out0 + seq![pv]);
                assert(split_tokens(s@) =~= out.deep_view());
            }
            break;
        }
        proof {
            assert(split_tokens(tail) == seq![pv] + split_tokens(s@.skip(i as int)));
            assert(split_tokens(s@) =~= out.deep_view() + split_tokens(s@.skip(i as int)));
        }
        if i == n {
            // trailing separator run: one trailing empty piece
            let ghost out1 = out.deep_view();
            let empty_piece: Vec<char> = Vec::new();
            out.push(empty_piece);
            proof {
                assert(s@.skip(i as int) =~= Seq::<char>::empty());
                assert(first_piece(Seq::<char>::empty()) =~= Seq::<char>::empty());
                assert(split_tokens(Seq::<char>::empty()) =~= seq![Seq::<char>::empty()]);
                assert(out.deep_view() =~= out1.push(Seq::<char>::empty())) by {
                    assert(out@.len() == out1.len() + 1);
                    assert(forall|k2: int|
                        0 <= k2 < out@.len() ==> out.deep_view()[k2] == out@[k2]@);
                }
                assert(split_tokens(s@) =~= out.deep_view());
            }
            break;
        }
    }
    out
}

/// `s` with leading white space removed.
pub open spec fn trim_front(s: Seq<char>) -> Seq<char>
    decreases s.len(),
{
    if s.len() > 0 && is_unicode_white(s[0]) {
        trim_front(s.drop_first())
    } else {
        s
    }
}

/// `s` with trailing white space removed.
pub open spec fn trim_back(s: Seq<char>) -> Seq<char>
    decreases s.len(),
{
    if s.len() > 0 && is_unicode_white(s.last()) {
        trim_back(s.drop_last())
    } else {
        s
    }
}

/// `s` with white space removed from both ends.
pub open spec fn trim_spec(s: Seq<char>) -> Seq<char> {
    trim_back(trim_front(s))
}

proof fn lemma_trim_front_range(s: Seq<char>, a: int)
    requires
        0 <= a <= s.len(),
        forall|k: int| 0 <= k < a ==> is_unicode_white(s[k]),
        a < s.len() ==> !is_unicode_white(s[a]),
    ensures
        trim_front(s) == s.skip(a),
    decreases a,
{
    if a == 0 {
        assert(s.skip(0) =~= s);
    } else {
        assert(is_unicode_white(s[0]));
        lemma_trim_front_range(s.drop_first(), a - 1);
        assert(s.drop_first().skip(a - 1) =~= s.skip(a));
    }
}

proof fn lemma_trim_back_range(s: Seq<char>, b: int)
    requires
        0 <= b <= s.len(),
        forall|k: int| b <= k < s.len() ==> is_unicode_white(s[k]),
        b > 0 ==> !is_unicode_white(s[b - 1]),
    ensures
        trim_back(s) == s.take(b),
    decreases s.len(),
{
    if b == s.len() {
        if s.len() > 0 {
            assert(!is_unicode_white(s.last()));
        }
        assert(s.take(b) =~= s);
    } else {
        assert(is_unicode_white(s.last()));
        lemma_trim_back_range(s.drop_last(), b);
        assert(s.drop_last().take(b) =~= s.take(b));
    }
}

/// Remove white space from both ends of a character sequence.
fn trim_chars(v: &Vec<char>) -> (r: Vec<char>)
    ensures
        r@ == trim_spec(v@),
{
    let n = v.len();
    let mut a: usize = 0;
    while a < n && char_is_white(v[a])
        invariant
            0 <= a <= n,
            n == v@.len(),
            forall|k: int| 0 <= k < a ==> is_unicode_white(v@[k]),
        decreases n - a,
    {
        a = a + 1;
    }
    let mut b: usize = n;
    while b > a && char_is_white(v[b - 1])
        invariant
            a <= b <= n,
            n == v@.len(),
            forall|k: int| b <= k < n ==> is_unicode_white(v@[k]),
        decreases b,
    {
        b = b - 1;
    }
    let mut r: Vec<char> = Vec::new();
    let mut k: usize = a;
    while k < b
        invariant
            a <= k <= b <= n,
            n == v@.len(),
            r@ =~= v@.subrange(a as int, k as int),
        decreases b - k,
    {
        r.push(v[k]);
        k = k + 1;
    }
    proof {
        lemma_trim_front_range(v@, a as int);
        let t = v@.skip(a as int);
        lemma_trim_back_range(t, b - a);
        assert(b - a > 0 ==> t[b - a - 1] == v@[b - 1]);
        assert(forall|k2: int| b - a <= k2 < t.len() ==> t[k2] == v@[a + k2]);
        assert(t.take(b - a) =~= v@.subrange(a as int, b as int));
        assert(r@ =~= trim_spec(v@));
    }
    r
}

/// The UTF-8 byte length of a character sequence.
pub open spec fn byte_len(s: Seq<char>) -> nat {
    vstd::utf8::encode_utf8(s).len()
}

proof fn lemma_filter_push<A>(s: Seq<A>, x: A, pred: spec_fn(A) -> bool)
    ensures
        s.push(x).filter(pred) == if pred(x) {
            s.filter(pred).push(x)
        } else {
            s.filter(pred)
        },
{
    reveal(Seq::filter);
    assert(s.push(x).drop_last() =~= s);
    assert(s.push(x).last() == x);
}

/// The tokens of a phrase: the pieces between separator runs, trimmed and
/// lowercased, keeping those whose UTF-8 byte length is at least
/// `min_length`, in source order and with duplicates retained.
pub open spec fn spec_tokenize(s: Seq<char>, min_length: int) -> Seq<Seq<char>> {
    split_tokens(s).map_values(|p: Seq<char>| lower_of(trim_spec(p))).filter(
        |t: Seq<char>| byte_len(t) >= min_length,
    )
}

/// Split a phrase on the separator class, trim and lowercase each piece, and
/// keep the pieces of byte length at least `min_length`.
pub fn tokenize(phrase: &str, min_length: usize) -> (r: Vec<String>)
    ensures
        r.deep_view() == spec_tokenize(phrase@, min_length as int),
{
    let cv = chars_of(phrase);
    let pieces = split_chars(&cv);
    let ghost mapped = split_tokens(phrase@).map_values(|p: Seq<char>| lower_of(trim_spec(p)));
    let ghost pred = |t: Seq<char>| byte_len(t) >= min_length as int;
    let mut out: Vec<String> = Vec::new();
    let np = pieces.len();
    proof {
        assert(pieces.deep_view().len() == np);
        assert(mapped.len() == np);
        assert(mapped.take(0) =~= Seq::<Seq<char>>::empty());
        assert(Seq::<Seq<char>>::empty().filter(pred) =~= Seq::<Seq<char>>::empty()) by {
            reveal(Seq::filter);
        }
    }
    let mut idx: usize = 0;
    while idx < np
        invariant
            0 <= idx <= np,
            np == pieces@.len(),
            pieces.deep_view() == split_tokens(phrase@),
            mapped == split_tokens(phrase@).map_values(|p: Seq<char>| lower_of(trim_spec(p))),
            pred == (|t: Seq<char>| byte_len(t) >= min_length as int),
            out.deep_view() =~= mapped.take(idx as int).filter(pred),
        decreases np - idx,
    {
        let trimmed = trim_chars(&pieces[idx]);
        let st = string_from_chars(&trimmed);
        let lowered = to_lower(st.as_str());
        proof {
            assert(pieces.deep_view()[idx as int] == pieces@[idx as int]@);
            assert(lowered@ == mapped[idx as int]);
            assert(mapped.take(idx + 1) =~= mapped.take(idx as int).push(mapped[idx as int]));
            lemma_filter_push(mapped.take(idx as int), mapped[idx as int], pred);
        }
        let ghost out0 = out.deep_view();
        if lowered.as_str().as_bytes().len() >= min_length {
            proof {
                assert(pred(mapped[idx as int]));
            }
            out.push(lowered);
            proof {
                assert(out.deep_view() =~= out0.push(mapped[idx as int])) by {
                    assert(out@.len() == out0.len() + 1);
                    assert(forall|k2: int|
                        0 <= k2 < out@.len() ==> out.deep_view()[k2] == out@[k2]@);
                }
            }
        } else {
            proof {
                assert(!pred(mapped[idx as int]));
            }
        }
        idx = idx + 1;
    }
    proof {
        assert(mapped.take(np as int) =~= mapped);
    }
    out
}

/// The replacement table applied after decomposition: l-with-stroke becomes
/// plain "l" and sharp s becomes "ss"; decomposition alone misses both.
pub open spec fn replace_special(s: Seq<char>) -> Seq<char>
    decreases s.len(),
{
    if s.len() == 0 {
        Seq::empty()
    } else {
        let head = if s[0] == '\u{142}' {
            seq!['l']
        } else if s[0] == '\u{df}' {
            seq!['s', 's']
        } else {
            seq![s[0]]
        };
        head + replace_special(s.drop_first())
    }
}

proof fn lemma_replace_append(x: Seq<char>, y: Seq<char>)
    ensures
        replace_special(x + y) == replace_special(x) + replace_special(y),
    decreases x.len(),
{
    if x.len() == 0 {
        assert(x + y =~= y);
        assert(replace_special(x) + replace_special(y) =~= replace_special(y));
    } else {
        assert((x + y)[0] == x[0]);
        assert((x + y).len() > 0);
        assert((x + y).drop_first() =~= x.drop_first() + y);
        lemma_replace_append(x.drop_first(), y);
        assert(replace_special(x + y) =~= replace_special(x) + replace_special(y));
    }
}

/// The sliding trigrams of a grapheme sequence, with the short-token pseudo
/// trigrams (padding with spaces for 1 and 2 graphemes) and the two
/// augmentations for 4 and 5 graphemes.
pub open spec fn spec_trigrams(g: Seq<Seq<char>>) -> Seq<Seq<char>> {
    let base = if g.len() >= 3 {
        Seq::new((g.len() - 2) as nat, |i: int| g[i] + g[i + 1] + g[i + 2])
    } else {
        Seq::empty()
    };
    if g.len() == 1 {
        base.push(g[0] + seq![' ', ' '])
    } else if g.len() == 2 {
        base.push(g[0] + g[1] + seq![' '])
    } else if g.len() == 4 || g.len() == 5 {
        base.push(g[0] + g[1] + g[g.len() - 1]).push(g[0] + g[g.len() - 2] + g[g.len() - 1])
    } else {
        base
    }
}

/// Law: a token of n graphemes yields n-2 sliding trigrams; with 4 or 5
/// graphemes the two augmentations come on top, and 1 or 2 graphemes yield
/// exactly the one padded pseudo trigram.
pub proof fn lemma_trigram_counts(g: Seq<Seq<char>>)
    ensures
        g.len() == 0 ==> spec_trigrams(g).len() == 0,
        g.len() == 1 || g.len() == 2 ==> spec_trigrams(g).len() == 1,
        g.len() == 4 || g.len() == 5 ==> spec_trigrams(g).len() == g.len() - 2 + 2,
        g.len() == 3 || g.len() >= 6 ==> spec_trigrams(g).len() == g.len() - 2,
{
}

/// The trigrams of a token: canonical decomposition, non-spacing marks
/// dropped, the fixed replacement table applied, then trigrams over the
/// grapheme clusters of the result.
pub open spec fn spec_trigramize(t: Seq<char>) -> Seq<Seq<char>> {
    spec_trigrams(
        graphemes_of(replace_special(nfd_of(t).filter(|c: char| !is_nonspacing_mark(c)))),
    )
}

/// Extract the trigrams of a token, normalized as `spec_trigramize` states.
pub fn trigramize(token: &str) -> (r: Vec<String>)
    ensures
        r.deep_view() == spec_trigramize(token@),
{
    let nf = nfd_chars(token);
    let ghost pred_m = |c: char| !is_nonspacing_mark(c);
    let nn = nf.len();
    let mut filtered: Vec<char> = Vec::new();
    proof {
        assert(nf@.take(0) =~= Seq::<char>::empty());
        assert(Seq::<char>::empty().filter(pred_m) =~= Seq::<char>::empty()) by {
            reveal(Seq::filter);
        }
    }
    let mut i: usize = 0;
    while i < nn
        invariant
            0 <= i <= nn,
            nn == nf@.len(),
            pred_m == (|c: char| !is_nonspacing_mark(c)),
            filtered@ =~= nf@.take(i as int).filter(pred_m),
        decreases nn - i,
    {
        proof {
            assert(nf@.take(i + 1) =~= nf@.take(i as int).push(nf@[i as int]));
            lemma_filter_push(nf@.take(i as int), nf@[i as int], pred_m);
        }
        if !char_is_nonspacing_mark(nf[i]) {
            filtered.push(nf[i]);
        }
        i = i + 1;
    }
    proof {
        assert(nf@.take(nn as int) =~= nf@);
    }
    let fn_len = filtered.len();
    let mut replaced: Vec<char> = Vec::new();
    proof {
        assert(filtered@.take(0) =~= Seq::<char>::empty());
        assert(replace_special(Seq::<char>::empty()) == Seq::<char>::empty());
    }
    let mut j: usize = 0;
    while j < fn_len
        invariant
            0 <= j <= fn_len,
            fn_len == filtered@.len(),
            replaced@ =~= replace_special(filtered@.take(j as int)),
        decreases fn_len - j,
    {
        let c = filtered[j];
        proof {
            assert(filtered@.take(j + 1) =~= filtered@.take(j as int) + seq![filtered@[j as int]]);
            lemma_replace_append(filtered@.take(j as int), seq![filtered@[j as int]]);
            assert(seq![c].drop_first() =~= Seq::<char>::empty());
            assert(replace_special(Seq::<char>::empty()) == Seq::<char>::empty());
        }
        if c == '\u{142}' {
            replaced.push('l');
            proof {
                assert(replace_special(seq![c]) =~= seq!['l']);
            }
        } else if c == '\u{df}' {
            replaced.push('s');
            replaced.push('s');
            proof {
                assert(replace_special(seq![c]) =~= seq!['s', 's']);
            }
        } else {
            replaced.push(c);
            proof {
                assert(replace_special(seq![c]) =~= seq![c]);
            }
        }
        j = j + 1;
    }
    proof {
        assert(filtered@.take(fn_len as int) =~= filtered@);
    }
    let s = string_from_chars(&replaced);
    let g = grapheme_clusters(s.as_str());
    let ghost gd = g.deep_view();
    proof {
        assert(gd == graphemes_of(replace_special(nfd_of(token@).filter(pred_m))));
    }
    let n = g.len();
    proof {
        assert(gd.len() == n);
    }
    let ghost base = if gd.len() >= 3 {
        Seq::new((gd.len() - 2) as nat, |k: int| gd[k] + gd[k + 1] + gd[k + 2])
    } else {
        Seq::<Seq<char>>::empty()
    };
    let mut out: Vec<String> = Vec::new();
    if n >= 3 {
        let mut k: usize = 0;
        while k < n - 2
            invariant
                0 <= k <= n - 2,
                3 <= n,
                n == g@.len(),
                gd == g.deep_view(),
                base == Seq::new((gd.len() - 2) as nat, |k2: int| gd[k2] + gd[k2 + 1] + gd[k2 + 2]),
                gd.len() == n,
                out.deep_view() =~= base.take(k as int),
            decreases n - 2 - k,
        {
            let mut t = g[k].clone();
            t.append(g[k + 1].as_str());
            t.append(g[k + 2].as_str());
            let ghost o0 = out.deep_view();
            out.push(t);
            proof {
                assert(t@ == gd[k as int] + gd[k + 1] + gd[k + 2]);
                assert(out.deep_view() =~= o0.push(t@));
                assert(base.take(k + 1) =~= base.take(k as int).push(base[k as int]));
            }
            k = k + 1;
        }
        proof {
            assert(base.take((n - 2) as int) =~= base);
        }
    }
    proof {
        assert(n < 3 ==> out.deep_view() =~= Seq::<Seq<char>>::empty());
        assert(n >= 3 ==> out.deep_view() =~= base);
    }
    if n == 1 {
        let mut t = g[0].clone();
        t.append("  ");
        let ghost o0 = out.deep_view();
        out.push(t);
        proof {
            reveal_strlit("  ");
            assert("  "@ =~= seq![' ', ' ']);
            assert(t@ == gd[0] + seq![' ', ' ']);
            assert(out.deep_view() =~= o0.push(t@));
        }
    } else if n == 2 {
        let mut t = g[0].clone();
        t.append(g[1].as_str());
        t.append(" ");
        let ghost o0 = out.deep_view();
        out.push(t);
        proof {
            reveal_strlit(" ");
            assert(" "@ =~= seq![' ']);
            assert(t@ == gd[0] + gd[1] + seq![' ']);
            assert(out.deep_view() =~= o0.push(t@));
        }
    } else if n == 4 || n == 5 {
        let mut t = g[0].clone();
        t.append(g[1].as_str());
        t.append(g[n - 1].as_str());
        let ghost o0 = out.deep_view();
        out.push(t);
        proof {
            assert(t@ == gd[0] + gd[1] + gd[n - 1]);
            assert(out.deep_view() =~= o0.push(t@));
        }
        let mut t2 = g[0].clone();
        t2.append(g[n - 2].as_str());
        t2.append(g[n - 1].as_str());
        let ghost o1 = out.deep_view();
        out.push(t2);
        proof {
            assert(t2@ == gd[0] + gd[n - 2] + gd[n - 1]);
            assert(out.deep_view() =~= o1.push(t2@));
        }
    }
    proof {
        assert(out.deep_view() =~= spec_trigrams(gd));
    }
    out
}

/// At most the first 500 grapheme clusters take part in the distance.
pub open spec fn cap500(g: Seq<Seq<char>>) -> Seq<Seq<char>> {
    if g.len() > 500 {
        g.take(500)
    } else {
        g
    }
}

/// The Levenshtein distance between the grapheme clusters of two strings,
/// each capped to its first 500 clusters.
pub open spec fn spec_distance(a: Seq<char>, b: Seq<char>) -> nat {
    lev(cap500(graphemes_of(a)), cap500(graphemes_of(b)))
}

/// Compare the first 500 graphemes of two strings and return their
/// Levenshtein distance.
pub fn distance(side_a: &str, side_b: &str) -> (d: usize)
    ensures
        d == spec_distance(side_a@, side_b@),
{
    let mut ga = grapheme_clusters(side_a);
    let mut gb = grapheme_clusters(side_b);
    let ghost ga0 = ga.deep_view();
    let ghost gb0 = gb.deep_view();
    ga.truncate(500);
    gb.truncate(500);
    proof {
        assert(ga.deep_view() =~= cap500(ga0));
        assert(gb.deep_view() =~= cap500(gb0));
    }
    lev_distance(&ga, &gb)
}

/// A string is at distance zero from itself.
pub proof fn lemma_distance_self(a: Seq<char>)
    ensures
        spec_distance(a, a) == 0,
{
    lemma_lev_self(cap500(graphemes_of(a)));
}

/// The distance is symmetric in its two arguments.
pub proof fn lemma_distance_symmetric(a: Seq<char>, b: Seq<char>)
    ensures
        spec_distance(a, b) == spec_distance(b, a),
{
    lemma_lev_symmetric(cap500(graphemes_of(a)), cap500(graphemes_of(b)));
}

/// The tokens joined with single spaces.
pub open spec fn join_tokens(toks: Seq<Seq<char>>) -> Seq<char>
    decreases toks.len(),
{
    if toks.len() == 0 {
        Seq::empty()
    } else if toks.len() == 1 {
        toks[0]
    } else {
        toks[0] + seq![' '] + join_tokens(toks.drop_first())
    }
}

/// Law (round trip of tokenization, at the splitting layer): splitting the
/// space-joined tokens gives the tokens back, for non-empty separator-free
/// tokens — which is what the splitter itself produces.  The full round
/// trip through `tokenize` also trims and lowercases each piece, which are
/// outside calls, so it is checked by tests rather than proved.
pub proof fn lemma_split_join_round_trip(toks: Seq<Seq<char>>)
    requires
        toks.len() > 0,
        forall|i: int| 0 <= i < toks.len() ==> (#[trigger] toks[i]).len() > 0,
        forall|i: int, k: int|
            0 <= i < toks.len() && 0 <= k < toks[i].len() ==> !is_separator(
                #[trigger] toks[i][k],
            ),
    ensures
        split_tokens(join_tokens(toks)) == toks,
    decreases toks.len(),
{
    let s = join_tokens(toks);
    if toks.len() == 1 {
        assert(forall|k: int| 0 <= k < s.len() ==> !is_separator(s[k])) by {
            assert(forall|k: int| 0 <= k < toks[0].len() ==> !is_separator(toks[0][k]));
        }
        lemma_split_step(s, s.len() as int, s.len() as int);
        assert(s.take(s.len() as int) =~= s);
        assert(split_tokens(s) =~= toks);
    } else {
        let rest = toks.drop_first();
        assert forall|i: int| 0 <= i < rest.len() implies (#[trigger] rest[i]).len() > 0 by {
            assert(rest[i] == toks[i + 1]);
        }
        assert forall|i: int, k: int|
            0 <= i < rest.len() && 0 <= k < rest[i].len() implies !is_separator(
            #[trigger] rest[i][k],
        ) by {
            assert(rest[i] == toks[i + 1]);
            assert(!is_separator(toks[i + 1][k]));
        }
        lemma_split_join_round_trip(rest);
        let tail = join_tokens(rest);
        assert(tail[0] == rest[0][0]) by {
            if rest.len() == 1 {
            } else {
                assert(tail == rest[0] + seq![' '] + join_tokens(rest.drop_first()));
            }
        }
        assert(tail.len() > 0);
        let a = toks[0].len() as int;
        assert(s == toks[0] + seq![' '] + tail);
        assert(forall|k: int| 0 <= k < a ==> s[k] == toks[0][k]);
        assert(s[a] == ' ');
        assert(s[a + 1] == tail[0]);
        assert(!is_separator(s[a + 1])) by {
            assert(!is_separator(rest[0][0]));
        }
        lemma_split_step(s, a, a + 1);
        assert(s.take(a) =~= toks[0]);
        assert(s.skip(a + 1) =~= tail);
        assert(split_tokens(s) == seq![toks[0]] + split_tokens(tail));
        assert(seq![toks[0]] + rest =~= toks);
    }
}

} // verus!
