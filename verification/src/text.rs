use vstd::prelude::*;

verus! {

// ---------------------------------------------------------------------------
// Characters
// ---------------------------------------------------------------------------

/// An ASCII lower-case letter.
pub open spec fn is_lower(c: char) -> bool {
    97 <= c as u32 && c as u32 <= 122
}

/// An ASCII upper-case letter.
pub open spec fn is_upper(c: char) -> bool {
    65 <= c as u32 && c as u32 <= 90
}

/// The alphabet of the tokenizer: every character outside of it acts as a
/// separator between words.
pub open spec fn is_letter(c: char) -> bool {
    is_lower(c) || is_upper(c)
}

/// An ASCII upper-case letter mapped to lower case; any other character is
/// left unchanged.
pub open spec fn to_lower(c: char) -> char {
    if is_upper(c) {
        (c as u32 + 32) as char
    } else {
        c
    }
}

fn letter(c: char) -> (b: bool)
    ensures
        b == is_letter(c),
{
    let u = c as u32;
    (97 <= u && u <= 122) || (65 <= u && u <= 90)
}

fn lower_char(c: char) -> (r: char)
    ensures
        r == to_lower(c),
{
    match c {
        'A' => 'a',
        'B' => 'b',
        'C' => 'c',
        'D' => 'd',
        'E' => 'e',
        'F' => 'f',
        'G' => 'g',
        'H' => 'h',
        'I' => 'i',
        'J' => 'j',
        'K' => 'k',
        'L' => 'l',
        'M' => 'm',
        'N' => 'n',
        'O' => 'o',
        'P' => 'p',
        'Q' => 'q',
        'R' => 'r',
        'S' => 's',
        'T' => 't',
        'U' => 'u',
        'V' => 'v',
        'W' => 'w',
        'X' => 'x',
        'Y' => 'y',
        'Z' => 'z',
        _ => c,
    }
}

// ---------------------------------------------------------------------------
// Cleaning: every run of non-letters becomes a single separating space,
// outer runs disappear, and letters are lower-cased.
// ---------------------------------------------------------------------------

/// The maximal runs of letters of `s`, in order, each lower-cased.
pub open spec fn words_of(s: Seq<char>) -> Seq<Seq<char>>
    decreases s.len(),
{
    if s.len() == 0 {
        Seq::empty()
    } else {
        let prev = words_of(s.drop_last());
        let c = s.last();
        if is_letter(c) {
            if s.len() >= 2 && is_letter(s[s.len() - 2]) {
                prev.update(prev.len() - 1, prev.last().push(to_lower(c)))
            } else {
                prev.push(seq![to_lower(c)])
            }
        } else {
            prev
        }
    }
}

/// A sequence of words joined by single spaces.
pub open spec fn join_words(ws: Seq<Seq<char>>) -> Seq<char>
    decreases ws.len(),
{
    if ws.len() == 0 {
        Seq::empty()
    } else if ws.len() == 1 {
        ws[0]
    } else {
        join_words(ws.drop_last()) + seq![' '] + ws.last()
    }
}

/// The cleaned form of a text: its lower-cased words joined by single
/// spaces.
pub open spec fn clean_spec(s: Seq<char>) -> Seq<char> {
    join_words(words_of(s))
}

/// Every word of `words_of` holds at least one character.
proof fn lemma_words_nonempty(s: Seq<char>)
    ensures
        forall|i: int| 0 <= i < words_of(s).len() ==> #[trigger] words_of(s)[i].len() >= 1,
    decreases s.len(),
{
    if s.len() > 0 {
        lemma_words_nonempty(s.drop_last());
        let prev = words_of(s.drop_last());
        let c = s.last();
        let ws = words_of(s);
        if is_letter(c) {
            if s.len() >= 2 && is_letter(s[s.len() - 2]) {
                assert(s.drop_last().last() == s[s.len() - 2]);
                lemma_words_last_letter(s.drop_last());
                assert forall|i: int| 0 <= i < ws.len() implies #[trigger] ws[i].len() >= 1 by {
                    if i != prev.len() - 1 {
                        assert(ws[i] == prev[i]);
                    }
                }
            }
        }
    }
}

/// A text ending in a letter has at least one word.
proof fn lemma_words_last_letter(s: Seq<char>)
    requires
        s.len() > 0,
        is_letter(s.last()),
    ensures
        words_of(s).len() > 0,
    decreases s.len(),
{
    if s.len() >= 2 && is_letter(s[s.len() - 2]) {
        assert(s.drop_last().last() == s[s.len() - 2]);
        lemma_words_last_letter(s.drop_last());
    }
}

/// Extending the last word of a non-empty word list extends the join by
/// exactly that character.
proof fn lemma_join_extend_last(ws: Seq<Seq<char>>, c: char)
    requires
        ws.len() > 0,
    ensures
        join_words(ws.update(ws.len() - 1, ws.last().push(c))) == join_words(ws).push(c),
{
    let ws2 = ws.update(ws.len() - 1, ws.last().push(c));
    if ws.len() == 1 {
        assert(join_words(ws2) =~= join_words(ws).push(c));
    } else {
        assert(ws2.drop_last() =~= ws.drop_last());
        assert(join_words(ws2) =~= join_words(ws).push(c));
    }
}

/// Appending a new word to a non-empty word list appends a space and the
/// word to the join.
proof fn lemma_join_push(ws: Seq<Seq<char>>, w: Seq<char>)
    requires
        ws.len() > 0,
    ensures
        join_words(ws.push(w)) == join_words(ws) + seq![' '] + w,
{
    assert(ws.push(w).drop_last() =~= ws);
    assert(ws.push(w).last() == w);
}

/// The join of a word list is empty exactly when the list is empty,
/// provided every word is non-empty.
proof fn lemma_join_empty(ws: Seq<Seq<char>>)
    requires
        forall|i: int| 0 <= i < ws.len() ==> #[trigger] ws[i].len() >= 1,
    ensures
        (join_words(ws).len() == 0) == (ws.len() == 0),
{
    if ws.len() == 1 {
        assert(join_words(ws) == ws[0]);
    }
}

/// Replace every run of characters outside the tokenizer's alphabet by a
/// single space, remove leading and trailing separators, and lower-case
/// the remaining letters.
pub fn clean_text(text: &str) -> (r: String)
    ensures
        r@ == clean_spec(text@),
{
    let n = text.unicode_len();
    let mut out = String::new();
    let mut prev_letter = false;
    let mut i: usize = 0;
    while i < n
        invariant
            n == text@.len(),
            0 <= i <= n,
            prev_letter == (i > 0 && is_letter(text@[i - 1])),
            out@ == clean_spec(text@.subrange(0, i as int)),
        decreases n - i,
    {
        let c = text.get_char(i);
        let ghost pre = text@.subrange(0, i as int);
        let ghost cur = text@.subrange(0, i + 1 as int);
        proof {
            assert(cur.drop_last() =~= pre);
            assert(cur.last() == text@[i as int]);
            lemma_words_nonempty(pre);
        }
        if letter(c) {
            let lc = lower_char(c);
            if prev_letter {
                proof {
                    assert(pre.len() > 0 && is_letter(pre.last()));
                    lemma_words_last_letter(pre);
                    lemma_join_extend_last(words_of(pre), to_lower(cur.last()));
                }
                push_char(&mut out, lc);
            } else if out.as_str().is_empty() {
                proof {
                    lemma_join_empty(words_of(pre));
                    assert(words_of(cur) =~= words_of(pre).push(seq![to_lower(cur.last())]));
                    assert(join_words(words_of(cur)) =~= seq![to_lower(cur.last())]);
                }
                push_char(&mut out, lc);
            } else {
                proof {
                    lemma_join_empty(words_of(pre));
                    lemma_join_push(words_of(pre), seq![to_lower(cur.last())]);
                    assert(clean_spec(cur) =~= clean_spec(pre).push(' ').push(to_lower(
                        cur.last(),
                    )));
                }
                push_char(&mut out, ' ');
                push_char(&mut out, lc);
            }
            prev_letter = true;
        } else {
            proof {
                assert(words_of(cur) == words_of(pre));
            }
            prev_letter = false;
        }
        i = i + 1;
    }
    proof {
        assert(text@.subrange(0, n as int) =~= text@);
    }
    out
}

/// Relies on `String::push`: it appends exactly the given character to the
/// end of the string.
#[verifier::external_body]
fn push_char(s: &mut String, c: char)
    ensures
        final(s)@ == old(s)@.push(c),
{
    s.push(c);
}

// ---------------------------------------------------------------------------
// Splitting a text on single spaces
// ---------------------------------------------------------------------------

/// The pieces of `s` between its space characters.  Every space separates
/// two (possibly empty) pieces, so an empty text yields one empty piece.
pub open spec fn split_spaces(s: Seq<char>) -> Seq<Seq<char>>
    decreases s.len(),
{
    if s.len() == 0 {
        seq![Seq::<char>::empty()]
    } else {
        let prev = split_spaces(s.drop_last());
        if s.last() == ' ' {
            prev.push(Seq::empty())
        } else {
            prev.update(prev.len() - 1, prev.last().push(s.last()))
        }
    }
}

// ---------------------------------------------------------------------------
// Counting tokens
// ---------------------------------------------------------------------------

/// A counter increment that saturates at the largest value a stored
/// counter can hold.
pub open spec fn sat_inc(n: nat) -> nat {
    if n + 1 <= u64::MAX {
        n + 1
    } else {
        n
    }
}

/// The position of the first pair with token `t`, or -1 if there is none.
pub open spec fn pair_index(ps: Seq<(Seq<char>, nat)>, t: Seq<char>) -> int
    decreases ps.len(),
{
    if ps.len() == 0 {
        -1
    } else if ps[0].0 == t {
        0
    } else {
        let r = pair_index(ps.drop_first(), t);
        if r == -1 {
            -1
        } else {
            r + 1
        }
    }
}

/// No two pairs name the same token.
pub open spec fn distinct_keys(ps: Seq<(Seq<char>, nat)>) -> bool {
    forall|i: int, j: int|
        #![trigger ps[i], ps[j]]
        0 <= i < j < ps.len() ==> ps[i].0 != ps[j].0
}

/// One token folded into a pair list: dropped if it is a stop word,
/// otherwise counted under its (unique) pair.
pub open spec fn pairs_step(
    prev: Seq<(Seq<char>, nat)>,
    t: Seq<char>,
    stop: Set<Seq<char>>,
) -> Seq<(Seq<char>, nat)> {
    if stop.contains(t) {
        prev
    } else {
        let i = pair_index(prev, t);
        if i == -1 {
            prev.push((t, 1nat))
        } else {
            prev.update(i, (t, sat_inc(prev[i].1)))
        }
    }
}

/// The occurrence counts of the tokens `ts`, without the stop words, as a
/// list of pairs in order of first appearance.
pub open spec fn token_pairs(ts: Seq<Seq<char>>, stop: Set<Seq<char>>) -> Seq<(Seq<char>, nat)>
    decreases ts.len(),
{
    if ts.len() == 0 {
        Seq::empty()
    } else {
        pairs_step(token_pairs(ts.drop_last(), stop), ts.last(), stop)
    }
}

proof fn lemma_pair_index_props(ps: Seq<(Seq<char>, nat)>, t: Seq<char>)
    ensures
        pair_index(ps, t) == -1 ==> forall|j: int| 0 <= j < ps.len() ==> (#[trigger] ps[j]).0 != t,
        pair_index(ps, t) != -1 ==> 0 <= pair_index(ps, t) < ps.len() && ps[pair_index(ps, t)].0
            == t,
    decreases ps.len(),
{
    if ps.len() > 0 && ps[0].0 != t {
        lemma_pair_index_props(ps.drop_first(), t);
        if pair_index(ps, t) == -1 {
            assert forall|j: int| 0 <= j < ps.len() implies (#[trigger] ps[j]).0 != t by {
                if j >= 1 {
                    assert(ps.drop_first()[j - 1] == ps[j]);
                }
            }
        } else {
            assert(ps.drop_first()[pair_index(ps, t) - 1] == ps[pair_index(ps, t)]);
        }
    }
}

proof fn lemma_pair_index_none(ps: Seq<(Seq<char>, nat)>, t: Seq<char>)
    requires
        forall|j: int| 0 <= j < ps.len() ==> (#[trigger] ps[j]).0 != t,
    ensures
        pair_index(ps, t) == -1,
    decreases ps.len(),
{
    if ps.len() > 0 {
        assert forall|j: int| 0 <= j < ps.drop_first().len() implies (#[trigger] ps.drop_first()[j]).0
            != t by {
            assert(ps.drop_first()[j] == ps[j + 1]);
        }
        lemma_pair_index_none(ps.drop_first(), t);
    }
}

proof fn lemma_pair_index_first(ps: Seq<(Seq<char>, nat)>, t: Seq<char>, k: int)
    requires
        0 <= k < ps.len(),
        ps[k].0 == t,
        forall|j: int| 0 <= j < k ==> (#[trigger] ps[j]).0 != t,
    ensures
        pair_index(ps, t) == k,
    decreases ps.len(),
{
    if k == 0 {
    } else {
        assert(ps[0].0 != t);
        assert(ps.drop_first()[k - 1] == ps[k]);
        assert forall|j: int| 0 <= j < k - 1 implies (#[trigger] ps.drop_first()[j]).0 != t by {
            assert(ps.drop_first()[j] == ps[j + 1]);
        }
        lemma_pair_index_first(ps.drop_first(), t, k - 1);
    }
}

proof fn lemma_token_pairs_distinct(ts: Seq<Seq<char>>, stop: Set<Seq<char>>)
    ensures
        distinct_keys(token_pairs(ts, stop)),
    decreases ts.len(),
{
    if ts.len() > 0 {
        lemma_token_pairs_distinct(ts.drop_last(), stop);
        let prev = token_pairs(ts.drop_last(), stop);
        let t = ts.last();
        if !stop.contains(t) {
            lemma_pair_index_props(prev, t);
            let i = pair_index(prev, t);
            if i == -1 {
                let cur = prev.push((t, 1nat));
                assert forall|a: int, b: int|
                    #![trigger cur[a], cur[b]]
                    0 <= a < b < cur.len() implies cur[a].0 != cur[b].0 by {
                    if b < cur.len() - 1 {
                        assert(cur[a] == prev[a] && cur[b] == prev[b]);
                    } else {
                        assert(cur[a] == prev[a] && cur[b].0 == t);
                    }
                }
            } else {
                let cur = prev.update(i, (t, sat_inc(prev[i].1)));
                assert forall|a: int, b: int|
                    #![trigger cur[a], cur[b]]
                    0 <= a < b < cur.len() implies cur[a].0 != cur[b].0 by {
                    assert(cur[a].0 == prev[a].0 && cur[b].0 == prev[b].0);
                }
            }
        }
    }
}

/// The pair list seen as a mathematical list of (token, count) pairs.
pub open spec fn pairs_model(ps: Seq<(String, u64)>) -> Seq<(Seq<char>, nat)> {
    ps.map(|i: int, p: (String, u64)| (p.0@, p.1 as nat))
}

/// The set of stop words to be dropped during tokenization; no words are
/// dropped when none were configured.
pub open spec fn stop_set(sw: Option<Vec<String>>) -> Set<Seq<char>> {
    Set::new(
        |t: Seq<char>| sw is Some && exists|i: int|
            0 <= i < (sw->0)@.len() && (#[trigger] (sw->0)@[i])@ == t,
    )
}

fn is_stop(stop_words: &Option<Vec<String>>, t: &String) -> (b: bool)
    ensures
        b == stop_set(*stop_words).contains(t@),
{
    match stop_words {
        Option::None => false,
        Option::Some(v) => {
            let n = v.len();
            let mut k: usize = 0;
            while k < n
                invariant
                    n == v@.len(),
                    0 <= k <= n,
                    forall|j: int| 0 <= j < k ==> (#[trigger] v@[j])@ != t@,
                decreases n - k,
            {
                if v[k] == *t {
                    proof {
                        assert((*stop_words)->0 == *v);
                        assert(((*stop_words)->0)@[k as int]@ == t@);
                    }
                    return true;
                }
                k = k + 1;
            }
            false
        },
    }
}

/// Fold one token into the running pair list, as `pairs_step` does.
fn add_token(r: &mut Vec<(String, u64)>, token: &String, stop_words: &Option<Vec<String>>)
    requires
        distinct_keys(pairs_model(old(r)@)),
    ensures
        pairs_model(final(r)@) == pairs_step(
            pairs_model(old(r)@),
            token@,
            stop_set(*stop_words),
        ),
{
    if is_stop(stop_words, token) {
        return ;
    }
    let n = r.len();
    let mut j: usize = 0;
    while j < n
        invariant
            n == r@.len(),
            0 <= j <= n,
            r@ == old(r)@,
            forall|k: int| 0 <= k < j ==> (#[trigger] r@[k]).0@ != token@,
        decreases n - j,
    {
        if r[j].0 == *token {
            let key = r[j].0.clone();
            let v = r[j].1;
            proof {
                assert(pairs_model(r@)[j as int].0 == token@);
                assert forall|k: int| 0 <= k < j implies (#[trigger] pairs_model(r@)[k]).0
                    != token@ by {
                    assert(pairs_model(r@)[k].0 == r@[k].0@);
                }
                lemma_pair_index_first(pairs_model(r@), token@, j as int);
            }
            r.set(j, (key, v.saturating_add(1)));
            proof {
                assert(pairs_model(r@) =~= pairs_step(
                    pairs_model(old(r)@),
                    token@,
                    stop_set(*stop_words),
                ));
            }
            return ;
        }
        j = j + 1;
    }
    proof {
        assert forall|k: int| 0 <= k < pairs_model(r@).len() implies (#[trigger] pairs_model(
            r@,
        )[k]).0 != token@ by {
            assert(pairs_model(r@)[k].0 == r@[k].0@);
        }
        lemma_pair_index_none(pairs_model(r@), token@);
    }
    let key = token.clone();
    r.push((key, 1));
    proof {
        assert(pairs_model(r@) =~= pairs_step(
            pairs_model(old(r)@),
            token@,
            stop_set(*stop_words),
        ));
    }
}

/// Split a text on its spaces and count how often each piece occurs,
/// dropping the configured stop words.  Pairs come in order of first
/// appearance and no token is listed twice.
pub fn count(text: &str, stop_words: &Option<Vec<String>>) -> (r: Vec<(String, u64)>)
    ensures
        pairs_model(r@) == token_pairs(split_spaces(text@), stop_set(*stop_words)),
        distinct_keys(pairs_model(r@)),
{
    let ghost stop = stop_set(*stop_words);
    let n = text.unicode_len();
    let mut r: Vec<(String, u64)> = Vec::new();
    let mut cur = String::new();
    let ghost mut toks: Seq<Seq<char>> = Seq::empty();
    proof {
        assert(split_spaces(text@.subrange(0, 0)) =~= toks.push(cur@));
        assert(pairs_model(r@) =~= token_pairs(toks, stop));
    }
    let mut i: usize = 0;
    while i < n
        invariant
            n == text@.len(),
            0 <= i <= n,
            stop == stop_set(*stop_words),
            split_spaces(text@.subrange(0, i as int)) == toks.push(cur@),
            pairs_model(r@) == token_pairs(toks, stop),
        decreases n - i,
    {
        let c = text.get_char(i);
        let ghost pre = text@.subrange(0, i as int);
        let ghost ext = text@.subrange(0, i + 1 as int);
        proof {
            assert(ext.drop_last() =~= pre);
            assert(ext.last() == text@[i as int]);
        }
        if c == ' ' {
            proof {
                lemma_token_pairs_distinct(toks, stop);
                assert((toks.push(cur@)).drop_last() =~= toks);
            }
            add_token(&mut r, &cur, stop_words);
            proof {
                toks = toks.push(cur@);
            }
            cur = String::new();
            proof {
                assert(split_spaces(ext) =~= toks.push(cur@));
            }
        } else {
            push_char(&mut cur, c);
            proof {
                let old_parts = split_spaces(pre);
                assert(split_spaces(ext) == old_parts.update(
                    old_parts.len() - 1,
                    old_parts.last().push(ext.last()),
                ));
                assert(split_spaces(ext) =~= toks.push(cur@));
            }
        }
        i = i + 1;
    }
    proof {
        assert(text@.subrange(0, n as int) =~= text@);
        lemma_token_pairs_distinct(toks, stop);
        assert((toks.push(cur@)).drop_last() =~= toks);
    }
    add_token(&mut r, &cur, stop_words);
    proof {
        lemma_token_pairs_distinct(toks.push(cur@), stop);
    }
    r
}

/// The count recorded for `token`, or 0 if the list holds no pair for it.
pub fn pair_count(pairs: &Vec<(String, u64)>, token: &str) -> (n: u64)
    ensures
        ({
            let ps = pairs_model(pairs@);
            let i = pair_index(ps, token@);
            n == if i == -1 {
                0nat
            } else {
                ps[i].1
            }
        }),
{
    let len = pairs.len();
    let tok = token.to_owned();
    let mut j: usize = 0;
    while j < len
        invariant
            len == pairs@.len(),
            tok@ == token@,
            0 <= j <= len,
            forall|k: int| 0 <= k < j ==> (#[trigger] pairs@[k]).0@ != token@,
        decreases len - j,
    {
        if pairs[j].0 == tok {
            proof {
                assert forall|k: int| 0 <= k < j implies (#[trigger] pairs_model(pairs@)[k]).0
                    != token@ by {
                    assert(pairs_model(pairs@)[k].0 == pairs@[k].0@);
                }
                lemma_pair_index_first(pairs_model(pairs@), token@, j as int);
            }
            return pairs[j].1;
        }
        j = j + 1;
    }
    proof {
        assert forall|k: int| 0 <= k < pairs_model(pairs@).len() implies (#[trigger] pairs_model(
            pairs@,
        )[k]).0 != token@ by {
            assert(pairs_model(pairs@)[k].0 == pairs@[k].0@);
        }
        lemma_pair_index_none(pairs_model(pairs@), token@);
    }
    0
}

// ---------------------------------------------------------------------------
// Trimming categorical values
// ---------------------------------------------------------------------------

/// A whitespace character that trimming removes from the ends of a
/// categorical value.
pub open spec fn is_space_char(c: char) -> bool {
    c == ' ' || c == '\t' || c == '\n' || c == '\r'
}

/// `s` without its leading whitespace.
pub open spec fn drop_leading(s: Seq<char>) -> Seq<char>
    decreases s.len(),
{
    if s.len() > 0 && is_space_char(s[0]) {
        drop_leading(s.drop_first())
    } else {
        s
    }
}

/// `s` without its trailing whitespace.
pub open spec fn drop_trailing(s: Seq<char>) -> Seq<char>
    decreases s.len(),
{
    if s.len() > 0 && is_space_char(s.last()) {
        drop_trailing(s.drop_last())
    } else {
        s
    }
}

/// `s` without leading and trailing whitespace.
pub open spec fn trim_spec(s: Seq<char>) -> Seq<char> {
    drop_trailing(drop_leading(s))
}

fn space(c: char) -> (b: bool)
    ensures
        b == is_space_char(c),
{
    c == ' ' || c == '\t' || c == '\n' || c == '\r'
}

/// The value with leading and trailing whitespace removed: the single
/// token that a categorical feature contributes.
pub fn trim_value(text: &str) -> (r: String)
    ensures
        r@ == trim_spec(text@),
{
    let n = text.unicode_len();
    proof {
        assert(text@.subrange(0, n as int) =~= text@);
    }
    let mut a: usize = 0;
    #[verifier::loop_isolation(true)]
    loop
        invariant
            n == text@.len(),
            0 <= a <= n,
            drop_leading(text@.subrange(a as int, n as int)) == drop_leading(text@),
        ensures
            0 <= a <= n,
            drop_leading(text@) == text@.subrange(a as int, n as int),
            a == n || !is_space_char(text@[a as int]),
        decreases n - a,
    {
        if a < n {
            let c = text.get_char(a);
            if space(c) {
                proof {
                    assert(text@.subrange(a as int, n as int).drop_first() =~= text@.subrange(
                        a + 1 as int,
                        n as int,
                    ));
                }
                a = a + 1;
            } else {
                break ;
            }
        } else {
            break ;
        }
    }
    let mut b: usize = n;
    #[verifier::loop_isolation(true)]
    loop
        invariant
            n == text@.len(),
            a <= b <= n,
            drop_leading(text@) == text@.subrange(a as int, n as int),
            a == n || !is_space_char(text@[a as int]),
            drop_trailing(text@.subrange(a as int, b as int)) == drop_trailing(
                text@.subrange(a as int, n as int),
            ),
        ensures
            a <= b <= n,
            trim_spec(text@) == text@.subrange(a as int, b as int),
        decreases b - a,
    {
        if b > a {
            let c = text.get_char(b - 1);
            if space(c) {
                proof {
                    assert(text@.subrange(a as int, b as int).drop_last() =~= text@.subrange(
                        a as int,
                        b - 1 as int,
                    ));
                }
                b = b - 1;
            } else {
                proof {
                    assert(text@.subrange(a as int, b as int).last() == text@[b - 1 as int]);
                }
                break ;
            }
        } else {
            break ;
        }
    }
    let piece = text.substring_char(a, b);
    piece.to_owned()
}

} // verus!
