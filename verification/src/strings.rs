//! Verified string utilities: substring search, token replacement, joining
//! and splitting.  These are the primitives the command templater and the
//! output parser are built on.

use vstd::prelude::*;

verus! {

/// The views of a sequence of strings, as sequences of characters.
pub open spec fn views_of(items: Seq<String>) -> Seq<Seq<char>> {
    items.map_values(|s: String| s@)
}

/// The token `tok` occurs in `s` at position `i`.
pub open spec fn token_at(s: Seq<char>, tok: Seq<char>, i: int) -> bool {
    0 <= i && i + tok.len() <= s.len() && s.subrange(i, i + tok.len() as int) == tok
}

/// The token `tok` occurs somewhere in `s`.
pub open spec fn contains_token(s: Seq<char>, tok: Seq<char>) -> bool {
    exists|i: int| token_at(s, tok, i)
}

/// `s` with every occurrence of `tok` replaced by `rep`, scanning left to
/// right without overlap, exactly as `str::replace` does.  An empty token
/// leaves `s` unchanged.
pub open spec fn replace_seq(s: Seq<char>, tok: Seq<char>, rep: Seq<char>) -> Seq<char>
    decreases s.len(),
{
    if tok.len() == 0 || s.len() < tok.len() {
        s
    } else if s.subrange(0, tok.len() as int) == tok {
        rep + replace_seq(s.skip(tok.len() as int), tok, rep)
    } else {
        seq![s[0]] + replace_seq(s.skip(1), tok, rep)
    }
}

/// `items` joined into one sequence with `sep` between adjacent entries.
pub open spec fn join_seq(items: Seq<Seq<char>>, sep: Seq<char>) -> Seq<char>
    decreases items.len(),
{
    if items.len() == 0 {
        Seq::empty()
    } else if items.len() == 1 {
        items[0]
    } else {
        items[0] + sep + join_seq(items.drop_first(), sep)
    }
}

/// The non-empty segments of `s` delimited by `c`, collected left to right;
/// `cur` is the segment accumulated so far.
pub open spec fn split_acc(s: Seq<char>, c: char, cur: Seq<char>) -> Seq<Seq<char>>
    decreases s.len(),
{
    if s.len() == 0 {
        if cur.len() > 0 {
            seq![cur]
        } else {
            Seq::empty()
        }
    } else if s[0] == c {
        if cur.len() > 0 {
            seq![cur] + split_acc(s.drop_first(), c, Seq::empty())
        } else {
            split_acc(s.drop_first(), c, Seq::empty())
        }
    } else {
        split_acc(s.drop_first(), c, cur.push(s[0]))
    }
}

/// The non-empty segments of `s` delimited by `c`.
pub open spec fn split_nonempty_seq(s: Seq<char>, c: char) -> Seq<Seq<char>> {
    split_acc(s, c, Seq::empty())
}

/// The number of occurrences of the character `c` in `s`.
pub open spec fn count_char(s: Seq<char>, c: char) -> nat
    decreases s.len(),
{
    if s.len() == 0 {
        0
    } else {
        (if s[0] == c {
            1nat
        } else {
            0nat
        }) + count_char(s.drop_first(), c)
    }
}

/// Character counts add up over concatenation.
pub proof fn lemma_count_char_concat(a: Seq<char>, b: Seq<char>, c: char)
    ensures
        count_char(a + b, c) == count_char(a, c) + count_char(b, c),
    decreases a.len(),
{
    if a.len() == 0 {
        assert(a + b =~= b);
    } else {
        assert((a + b).drop_first() =~= a.drop_first() + b);
        assert((a + b)[0] == a[0]);
        lemma_count_char_concat(a.drop_first(), b, c);
    }
}

/// A character is absent exactly when its count is zero.
pub proof fn lemma_count_char_zero(s: Seq<char>, c: char)
    ensures
        (count_char(s, c) == 0) <==> !s.contains(c),
    decreases s.len(),
{
    if s.len() == 0 {
    } else {
        lemma_count_char_zero(s.drop_first(), c);
        if s.contains(c) {
            let i = choose|i: int| 0 <= i < s.len() && s[i] == c;
            if i > 0 {
                assert(s.drop_first()[i - 1] == c);
                assert(s.drop_first().contains(c));
            }
        }
        if s.drop_first().contains(c) {
            let i = choose|i: int| 0 <= i < s.drop_first().len() && s.drop_first()[i] == c;
            assert(s[i + 1] == c);
        }
    }
}

/// Replacing in a string free of the marker character, with a replacement
/// also free of it, yields a string free of it.
proof fn lemma_replace_no_marker(s: Seq<char>, tok: Seq<char>, rep: Seq<char>, c: char)
    requires
        tok.len() > 0,
        tok[0] == c,
        count_char(s, c) == 0,
        count_char(rep, c) == 0,
    ensures
        count_char(replace_seq(s, tok, rep), c) == 0,
    decreases s.len(),
{
    if s.len() < tok.len() {
    } else if s.subrange(0, tok.len() as int) == tok {
        assert(s[0] == tok[0]);
        assert(count_char(s, c) >= 1);
    } else {
        assert(s.skip(1) =~= s.drop_first());
        lemma_replace_no_marker(s.skip(1), tok, rep, c);
        lemma_count_char_concat(seq![s[0]], replace_seq(s.skip(1), tok, rep), c);
        assert(s[0] != c);
        assert(count_char(seq![s[0]], c) == 0) by {
            let single = seq![s[0]];
            assert(single.len() == 1 && single[0] == s[0]);
            assert(single.drop_first() =~= Seq::<char>::empty());
            assert(count_char(single, c) == (if single[0] == c { 1nat } else { 0nat }) + count_char(
                single.drop_first(),
                c,
            ));
        }
    }
}

/// Replacing in a string free of the token's marker character changes
/// nothing: the token cannot occur.
proof fn lemma_replace_no_marker_identity(s: Seq<char>, tok: Seq<char>, rep: Seq<char>, c: char)
    requires
        tok.len() > 0,
        tok[0] == c,
        count_char(s, c) == 0,
    ensures
        replace_seq(s, tok, rep) == s,
    decreases s.len(),
{
    if s.len() < tok.len() {
    } else if s.subrange(0, tok.len() as int) == tok {
        assert(s[0] == tok[0]);
        assert(count_char(s, c) >= 1);
    } else {
        assert(s.skip(1) =~= s.drop_first());
        lemma_replace_no_marker_identity(s.skip(1), tok, rep, c);
        assert(seq![s[0]] + s.skip(1) =~= s);
    }
}

/// When the token's marker character occurs exactly once, the string splits
/// around a single token occurrence, and replacement substitutes exactly
/// there: the result is the same split with the replacement in the token's
/// place.
pub proof fn lemma_replace_single_occurrence(s: Seq<char>, tok: Seq<char>, rep: Seq<char>, c: char)
    requires
        tok.len() > 0,
        tok[0] == c,
        count_char(s, c) == 1,
        contains_token(s, tok),
    ensures
        exists|i: int|
            #[trigger] token_at(s, tok, i) && replace_seq(s, tok, rep) == s.take(i) + rep + s.skip(
                i + tok.len(),
            ),
    decreases s.len(),
{
    if s.len() < tok.len() {
        let i = choose|i: int| token_at(s, tok, i);
        assert(false);
    } else if s.subrange(0, tok.len() as int) == tok {
        let tl = tok.len() as int;
        assert(token_at(s, tok, 0));
        assert(s =~= s.take(tl) + s.skip(tl));
        lemma_count_char_concat(s.take(tl), s.skip(tl), c);
        assert(s.take(tl) =~= s.subrange(0, tl));
        assert(count_char(tok, c) >= 1) by {
            assert(tok[0] == c);
        }
        lemma_replace_no_marker_identity(s.skip(tl), tok, rep, c);
        assert(replace_seq(s, tok, rep) == rep + s.skip(tl));
        assert(s.take(0) =~= Seq::<char>::empty());
        assert(Seq::<char>::empty() + rep + s.skip(tl) =~= rep + s.skip(tl));
    } else {
        let i = choose|i: int| token_at(s, tok, i);
        assert(s.subrange(i, i + tok.len() as int)[0] == s[i]);
        assert(s[i] == tok[0]);
        assert(i != 0) by {
            if i == 0 {
                assert(s.subrange(0, tok.len() as int) == tok);
            }
        }
        assert(s[0] != c) by {
            if s[0] == c {
                assert(count_char(s.drop_first(), c) == 0);
                lemma_count_char_zero(s.drop_first(), c);
                assert(s.drop_first()[i - 1] == c);
                assert(s.drop_first().contains(c));
            }
        }
        assert(s.skip(1) =~= s.drop_first());
        assert(count_char(s.skip(1), c) == 1);
        assert(token_at(s.skip(1), tok, i - 1)) by {
            assert(s.skip(1).subrange(i - 1, i - 1 + tok.len() as int) =~= s.subrange(
                i,
                i + tok.len() as int,
            ));
        }
        lemma_replace_single_occurrence(s.skip(1), tok, rep, c);
        let j = choose|j: int|
            #[trigger] token_at(s.skip(1), tok, j) && replace_seq(s.skip(1), tok, rep) == s.skip(
                1,
            ).take(j) + rep + s.skip(1).skip(j + tok.len());
        assert(token_at(s, tok, j + 1)) by {
            assert(s.subrange(j + 1, j + 1 + tok.len() as int) =~= s.skip(1).subrange(
                j,
                j + tok.len() as int,
            ));
        }
        assert(replace_seq(s, tok, rep) == seq![s[0]] + (s.skip(1).take(j) + rep + s.skip(1).skip(
            j + tok.len(),
        )));
        assert(seq![s[0]] + (s.skip(1).take(j) + rep + s.skip(1).skip(j + tok.len())) =~= s.take(
            j + 1,
        ) + rep + s.skip(j + 1 + tok.len()));
    }
}

/// Replacing a token that starts with a marker character occurring exactly
/// once in the string, by a replacement free of that character, removes the
/// character altogether.
pub proof fn lemma_replace_single_marker(s: Seq<char>, tok: Seq<char>, rep: Seq<char>, c: char)
    requires
        tok.len() > 0,
        tok[0] == c,
        count_char(s, c) == 1,
        contains_token(s, tok),
        count_char(rep, c) == 0,
    ensures
        count_char(replace_seq(s, tok, rep), c) == 0,
    decreases s.len(),
{
    if s.len() < tok.len() {
        let i = choose|i: int| token_at(s, tok, i);
        assert(false);
    } else if s.subrange(0, tok.len() as int) == tok {
        let tl = tok.len() as int;
        assert(s =~= s.take(tl) + s.skip(tl));
        lemma_count_char_concat(s.take(tl), s.skip(tl), c);
        assert(s.take(tl) =~= s.subrange(0, tl));
        assert(count_char(tok, c) >= 1) by {
            assert(tok[0] == c);
        }
        assert(count_char(s.skip(tl), c) == 0);
        lemma_replace_no_marker(s.skip(tl), tok, rep, c);
        lemma_count_char_concat(rep, replace_seq(s.skip(tl), tok, rep), c);
    } else {
        let i = choose|i: int| token_at(s, tok, i);
        assert(s.subrange(i, i + tok.len() as int)[0] == s[i]);
        assert(s[i] == tok[0]);
        assert(i != 0) by {
            if i == 0 {
                assert(s.subrange(0, tok.len() as int) == tok);
            }
        }
        assert(s[0] != c) by {
            if s[0] == c {
                assert(count_char(s.drop_first(), c) == 0);
                lemma_count_char_zero(s.drop_first(), c);
                assert(s.drop_first()[i - 1] == c);
                assert(s.drop_first().contains(c));
            }
        }
        assert(s.skip(1) =~= s.drop_first());
        assert(count_char(s.skip(1), c) == 1);
        assert(token_at(s.skip(1), tok, i - 1)) by {
            assert(s.skip(1).subrange(i - 1, i - 1 + tok.len() as int) =~= s.subrange(
                i,
                i + tok.len() as int,
            ));
        }
        lemma_replace_single_marker(s.skip(1), tok, rep, c);
        lemma_count_char_concat(seq![s[0]], replace_seq(s.skip(1), tok, rep), c);
        assert(s[0] != c);
        assert(count_char(seq![s[0]], c) == 0) by {
            let single = seq![s[0]];
            assert(single.len() == 1 && single[0] == s[0]);
            assert(single.drop_first() =~= Seq::<char>::empty());
            assert(count_char(single, c) == (if single[0] == c { 1nat } else { 0nat }) + count_char(
                single.drop_first(),
                c,
            ));
        }
    }
}

/// Whether `tok` occurs in `s` at position `i`, decided by comparing
/// characters.
pub fn token_match_at(s: &str, tok: &str, i: usize, s_len: usize, tok_len: usize) -> (r: bool)
    requires
        s_len == s@.len(),
        tok_len == tok@.len(),
        i + tok_len <= s_len,
    ensures
        r == token_at(s@, tok@, i as int),
{
    let mut j: usize = 0;
    while j < tok_len
        invariant
            j <= tok_len,
            s_len == s@.len(),
            tok_len == tok@.len(),
            i + tok_len <= s_len,
            forall|k: int| 0 <= k < j ==> s@[i + k] == tok@[k],
        decreases tok_len - j,
    {
        if s.get_char(i + j) != tok.get_char(j) {
            assert(s@.subrange(i as int, i + tok@.len() as int)[j as int] != tok@[j as int]);
            return false;
        }
        j = j + 1;
    }
    assert(s@.subrange(i as int, i + tok@.len() as int) =~= tok@);
    true
}

/// Whether `tok` occurs anywhere in `s`.
pub fn contains_str(s: &str, tok: &str) -> (r: bool)
    ensures
        r == contains_token(s@, tok@),
{
    let s_len = s.unicode_len();
    let tok_len = tok.unicode_len();
    if tok_len > s_len {
        assert(forall|i: int| !token_at(s@, tok@, i));
        return false;
    }
    if tok_len == 0 {
        assert(token_at(s@, tok@, 0)) by {
            assert(s@.subrange(0, 0) =~= tok@);
        }
        return true;
    }
    let mut i: usize = 0;
    while i <= s_len - tok_len
        invariant
            s_len == s@.len(),
            tok_len == tok@.len(),
            1 <= tok_len <= s_len,
            i <= s_len - tok_len + 1,
            forall|k: int| 0 <= k < i ==> !token_at(s@, tok@, k),
        decreases s_len - tok_len + 1 - i,
    {
        if token_match_at(s, tok, i, s_len, tok_len) {
            return true;
        }
        i = i + 1;
    }
    assert(forall|k: int| token_at(s@, tok@, k) ==> 0 <= k <= s_len - tok_len);
    false
}

/// Whether two string slices hold the same characters.
pub fn str_eq(a: &str, b: &str) -> (r: bool)
    ensures
        r == (a@ == b@),
{
    let a_len = a.unicode_len();
    let b_len = b.unicode_len();
    if a_len != b_len {
        return false;
    }
    let mut i: usize = 0;
    while i < a_len
        invariant
            i <= a_len,
            a_len == a@.len(),
            b_len == b@.len(),
            a_len == b_len,
            forall|k: int| 0 <= k < i ==> a@[k] == b@[k],
        decreases a_len - i,
    {
        if a.get_char(i) != b.get_char(i) {
            return false;
        }
        i = i + 1;
    }
    proof {
        assert(a@ =~= b@);
    }
    true
}

/// Whether some entry of `v` has the same characters as `s`.
pub fn contains_string(v: &Vec<String>, s: &String) -> (r: bool)
    ensures
        r == views_of(v@).contains(s@),
{
    let mut k: usize = 0;
    while k < v.len()
        invariant
            k <= v@.len(),
            forall|i: int| 0 <= i < k ==> views_of(v@)[i] != s@,
        decreases v@.len() - k,
    {
        if v[k].eq(s) {
            assert(views_of(v@)[k as int] == s@);
            return true;
        }
        k = k + 1;
    }
    false
}

/// Concatenation of two strings.
pub fn concat_str(a: &str, b: &str) -> (r: String)
    ensures
        r@ == a@ + b@,
{
    let owned: String = String::from_str(a);
    owned.concat(b)
}

/// `s` with every occurrence of `tok` replaced by `rep`.
pub fn replace_all(s: &str, tok: &str, rep: &str) -> (r: String)
    requires
        tok@.len() >= 1,
    ensures
        r@ == replace_seq(s@, tok@, rep@),
{
    let s_len = s.unicode_len();
    let tok_len = tok.unicode_len();
    let mut out = String::new();
    let mut i: usize = 0;
    proof {
        assert(s@.skip(0) =~= s@);
        assert(Seq::<char>::empty() + replace_seq(s@, tok@, rep@) =~= replace_seq(s@, tok@, rep@));
    }
    while i < s_len
        invariant
            i <= s_len,
            s_len == s@.len(),
            tok_len == tok@.len(),
            tok_len >= 1,
            out@ + replace_seq(s@.skip(i as int), tok@, rep@) == replace_seq(s@, tok@, rep@),
        decreases s_len - i,
    {
        if tok_len <= s_len - i && token_match_at(s, tok, i, s_len, tok_len) {
            proof {
                let suf = s@.skip(i as int);
                assert(suf.subrange(0, tok@.len() as int) =~= s@.subrange(
                    i as int,
                    i + tok@.len(),
                ));
                assert(suf.skip(tok@.len() as int) =~= s@.skip(i + tok@.len()));
                assert(replace_seq(suf, tok@, rep@) == rep@ + replace_seq(
                    s@.skip(i + tok@.len()),
                    tok@,
                    rep@,
                ));
                assert((out@ + rep@) + replace_seq(s@.skip(i + tok@.len()), tok@, rep@) =~= out@
                    + (rep@ + replace_seq(s@.skip(i + tok@.len()), tok@, rep@)));
            }
            out.append(rep);
            i = i + tok_len;
        } else {
            let ch = s.substring_char(i, i + 1);
            proof {
                let suf = s@.skip(i as int);
                assert(suf.len() >= 1);
                if suf.len() >= tok@.len() {
                    assert(suf.subrange(0, tok@.len() as int) =~= s@.subrange(
                        i as int,
                        i + tok@.len(),
                    ));
                    assert(suf.subrange(0, tok@.len() as int) != tok@);
                }
                assert(suf.skip(1) =~= s@.skip(i + 1));
                assert(seq![suf[0]] =~= ch@);
                assert(replace_seq(suf, tok@, rep@) == ch@ + replace_seq(
                    s@.skip(i + 1),
                    tok@,
                    rep@,
                ));
                assert((out@ + ch@) + replace_seq(s@.skip(i + 1), tok@, rep@) =~= out@ + (ch@
                    + replace_seq(s@.skip(i + 1), tok@, rep@)));
            }
            out.append(ch);
            i = i + 1;
        }
    }
    proof {
        assert(s@.skip(s_len as int) =~= Seq::empty());
        assert(out@ + Seq::<char>::empty() =~= out@);
    }
    out
}

/// Joining a pushed element extends the join by a separator and the element.
pub proof fn lemma_join_push(items: Seq<Seq<char>>, sep: Seq<char>, x: Seq<char>)
    ensures
        join_seq(items.push(x), sep) == if items.len() == 0 {
            x
        } else {
            join_seq(items, sep) + sep + x
        },
    decreases items.len(),
{
    let pushed = items.push(x);
    if items.len() == 0 {
        assert(pushed.len() == 1);
        assert(pushed[0] == x);
    } else if items.len() == 1 {
        assert(pushed.drop_first() =~= Seq::empty().push(x));
        lemma_join_push(Seq::empty(), sep, x);
        assert(join_seq(pushed, sep) == items[0] + sep + x);
    } else {
        assert(pushed.drop_first() =~= items.drop_first().push(x));
        lemma_join_push(items.drop_first(), sep, x);
        assert(join_seq(pushed, sep) == pushed[0] + sep + (join_seq(items.drop_first(), sep) + sep
            + x));
        assert(pushed[0] + sep + (join_seq(items.drop_first(), sep) + sep + x) =~= (items[0] + sep
            + join_seq(items.drop_first(), sep)) + sep + x);
    }
}

/// `items` joined into one string with `sep` between adjacent entries.
pub fn join_strings(items: &Vec<String>, sep: &str) -> (r: String)
    ensures
        r@ == join_seq(views_of(items@), sep@),
{
    let mut out = String::new();
    let mut k: usize = 0;
    while k < items.len()
        invariant
            k <= items@.len(),
            out@ == join_seq(views_of(items@).take(k as int), sep@),
        decreases items@.len() - k,
    {
        if k > 0 {
            out.append(sep);
        }
        out.append(items[k].as_str());
        proof {
            let vs = views_of(items@);
            assert(vs.take(k + 1) =~= vs.take(k as int).push(vs[k as int]));
            lemma_join_push(vs.take(k as int), sep@, vs[k as int]);
        }
        k = k + 1;
    }
    proof {
        assert(views_of(items@).take(items@.len() as int) =~= views_of(items@));
    }
    out
}

/// The non-empty segments of `s` delimited by `c`, as owned strings.
pub fn split_nonempty(s: &str, c: char) -> (r: Vec<String>)
    ensures
        views_of(r@) == split_nonempty_seq(s@, c),
{
    let s_len = s.unicode_len();
    let mut out: Vec<String> = Vec::new();
    let mut start: usize = 0;
    let mut i: usize = 0;
    proof {
        assert(s@.skip(0) =~= s@);
        assert(s@.subrange(0, 0) =~= Seq::empty());
        assert(views_of(out@) + split_acc(s@, c, Seq::empty()) =~= split_acc(s@, c, Seq::empty()));
    }
    while i < s_len
        invariant
            start <= i <= s_len,
            s_len == s@.len(),
            views_of(out@) + split_acc(s@.skip(i as int), c, s@.subrange(start as int, i as int))
                == split_nonempty_seq(s@, c),
        decreases s_len - i,
    {
        proof {
            let suf = s@.skip(i as int);
            assert(suf[0] == s@[i as int]);
            assert(suf.skip(1) =~= s@.skip(i + 1));
        }
        if s.get_char(i) == c {
            let ghost cur = s@.subrange(start as int, i as int);
            if i > start {
                let seg = s.substring_char(start, i).to_owned();
                proof {
                    assert(seg@ == cur);
                    assert(views_of(out@.push(seg)) =~= views_of(out@).push(cur));
                    assert(views_of(out@).push(cur) =~= views_of(out@) + seq![cur]);
                    assert(split_acc(s@.skip(i as int), c, cur) == seq![cur] + split_acc(
                        s@.skip(i + 1),
                        c,
                        Seq::empty(),
                    ));
                    assert((views_of(out@) + seq![cur]) + split_acc(s@.skip(i + 1), c, Seq::empty())
                        =~= views_of(out@) + (seq![cur] + split_acc(s@.skip(i + 1), c, Seq::empty())));
                }
                out.push(seg);
            } else {
                proof {
                    assert(cur.len() == 0);
                }
            }
            start = i + 1;
            proof {
                assert(s@.subrange(start as int, start as int) =~= Seq::empty());
            }
        } else {
            proof {
                let cur = s@.subrange(start as int, i as int);
                assert(cur.push(s@[i as int]) =~= s@.subrange(start as int, i + 1));
            }
        }
        i = i + 1;
    }
    proof {
        assert(s@.skip(s_len as int) =~= Seq::empty());
        let cur = s@.subrange(start as int, s_len as int);
        if cur.len() == 0 {
            assert(views_of(out@) + split_acc(Seq::empty(), c, cur) =~= views_of(out@));
        }
    }
    if start < s_len {
        let seg = s.substring_char(start, s_len).to_owned();
        proof {
            let cur = s@.subrange(start as int, s_len as int);
            assert(views_of(out@.push(seg)) =~= views_of(out@) + seq![cur]);
            assert(split_acc(Seq::empty(), c, cur) == seq![cur]);
        }
        out.push(seg);
    }
    out
}

} // verus!
