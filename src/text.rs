//! Character-level helpers: reading a `&str`, building a `String`, and the
//! whitespace tokenizer of the line protocol.
use vstd::prelude::*;

verus! {

broadcast use vstd::string::axiom_spec_iter;

/// Whitespace, the token separator of the line protocol: the characters
/// with the Unicode property White_Space.
pub open spec fn is_space(c: char) -> bool {
    ('\t' <= c && c <= '\r') || c == ' ' || c == '\u{85}' || c == '\u{a0}' || c == '\u{1680}' || (
    '\u{2000}' <= c && c <= '\u{200a}') || c == '\u{2028}' || c == '\u{2029}' || c == '\u{202f}'
        || c == '\u{205f}' || c == '\u{3000}'
}

/// The tokens of `s` from position `i`, where `st` is the start of the token
/// being read, if any.
pub open spec fn scan(s: Seq<char>, i: int, st: Option<int>) -> Seq<Seq<char>>
    decreases s.len() - i,
{
    if i >= s.len() {
        match st {
            Some(a) => seq![s.subrange(a, s.len() as int)],
            None => Seq::empty(),
        }
    } else if is_space(s[i]) {
        match st {
            Some(a) => seq![s.subrange(a, i)] + scan(s, i + 1, None),
            None => scan(s, i + 1, None),
        }
    } else {
        match st {
            Some(a) => scan(s, i + 1, Some(a)),
            None => scan(s, i + 1, Some(i)),
        }
    }
}

/// The maximal runs of non-whitespace characters of `s`, in order.
pub open spec fn words(s: Seq<char>) -> Seq<Seq<char>> {
    scan(s, 0, None)
}

/// A token as the protocol writes it: non-empty, without whitespace.
pub open spec fn is_token(t: Seq<char>) -> bool {
    t.len() > 0 && forall|i: int| 0 <= i < t.len() ==> !is_space(#[trigger] t[i])
}

/// Tokens separated by single spaces, the line ended by a newline.
pub open spec fn joined(ts: Seq<Seq<char>>) -> Seq<char>
    decreases ts.len(),
{
    if ts.len() == 0 {
        Seq::empty()
    } else {
        ts[0] + seq![if ts.len() == 1 { '\n' } else { ' ' }] + joined(ts.drop_first())
    }
}

/// The character sequences of a list of character vectors.
pub open spec fn views(v: Seq<Vec<char>>) -> Seq<Seq<char>> {
    v.map_values(|t: Vec<char>| t@)
}

/// Relies on `String::push`: it appends one character.
#[verifier::external_body]
pub(crate) fn push_char(s: &mut String, c: char)
    ensures
        final(s)@ == old(s)@.push(c),
{
    s.push(c);
}

/// The characters of `s`, in order.
pub fn chars_of(s: &str) -> (r: Vec<char>)
    ensures
        r@ == s@,
{
    let mut out: Vec<char> = Vec::new();
    for c in it: s.chars()
        invariant
            out@ == it.seq().take(it.index() as int),
            it.seq() == s@,
    {
        out.push(c);
        proof {
            assert(out@ =~= it.seq().take(it.index() as int + 1));
        }
    }
    proof {
        assert(out@ =~= s@);
    }
    out
}

/// A `String` holding the characters of `v`.
pub fn string_of(v: &Vec<char>) -> (r: String)
    ensures
        r@ == v@,
{
    let mut s = String::new();
    let mut i: usize = 0;
    while i < v.len()
        invariant
            i <= v.len(),
            s@ == v@.take(i as int),
        decreases v.len() - i,
    {
        push_char(&mut s, v[i]);
        i += 1;
        proof {
            assert(s@ =~= v@.take(i as int));
        }
    }
    proof {
        assert(s@ =~= v@);
    }
    s
}

pub fn is_space_char(c: char) -> (r: bool)
    ensures
        r == is_space(c),
{
    ('\t' <= c && c <= '\r') || c == ' ' || c == '\u{85}' || c == '\u{a0}' || c == '\u{1680}' || (
    '\u{2000}' <= c && c <= '\u{200a}') || c == '\u{2028}' || c == '\u{2029}' || c == '\u{202f}'
        || c == '\u{205f}' || c == '\u{3000}'
}

/// Splits `s` into its whitespace-separated tokens.
pub fn split_tokens(s: &Vec<char>) -> (r: Vec<Vec<char>>)
    ensures
        views(r@) == words(s@),
{
    let mut out: Vec<Vec<char>> = Vec::new();
    let mut cur: Vec<char> = Vec::new();
    let mut open: bool = false;
    let ghost mut st: Option<int> = None;
    let mut i: usize = 0;
    while i < s.len()
        invariant
            i <= s.len(),
            open <==> st is Some,
            !open ==> cur@.len() == 0,
            open ==> 0 <= st->0 <= i && cur@ == s@.subrange(st->0, i as int),
            views(out@) + scan(s@, i as int, st) == words(s@),
        decreases s.len() - i,
    {
        let c = s[i];
        if is_space_char(c) {
            if open {
                proof {
                    assert(views(out@).push(cur@) =~= views(out@) + seq![cur@]);
                    assert(views(out@) + scan(s@, i as int, st) =~= views(out@).push(cur@)
                        + scan(s@, i as int + 1, None));
                }
                let ghost old_out = views(out@);
                let ghost cv = cur@;
                out.push(cur);
                proof {
                    assert(views(out@) =~= old_out.push(cv));
                }
                cur = Vec::new();
                open = false;
            }
            proof {
                st = None;
            }
        } else {
            if !open {
                open = true;
                proof {
                    st = Some(i as int);
                }
            }
            cur.push(c);
            proof {
                assert(cur@ =~= s@.subrange(st->0, i as int + 1));
            }
        }
        i += 1;
    }
    if open {
        let ghost old_out = views(out@);
                let ghost cv = cur@;
        proof {
            assert(views(out@).push(cur@) =~= views(out@) + scan(s@, i as int, st));
        }
        out.push(cur);
        proof {
            assert(views(out@) =~= old_out.push(cv));
        }
    } else {
        proof {
            assert(views(out@) =~= views(out@) + scan(s@, i as int, st));
        }
    }
    out
}

/// Writes `ts` as one line: tokens separated by single spaces, then a newline.
pub fn join_tokens(ts: &Vec<Vec<char>>) -> (r: String)
    ensures
        r@ == joined(views(ts@)),
{
    let mut s = String::new();
    let mut i: usize = 0;
    proof {
        assert(views(ts@).skip(0) =~= views(ts@));
        assert(s@ + joined(views(ts@)) =~= joined(views(ts@)));
    }
    while i < ts.len()
        invariant
            i <= ts.len(),
            s@ + joined(views(ts@).skip(i as int)) == joined(views(ts@)),
        decreases ts.len() - i,
    {
        let ghost rest = views(ts@).skip(i as int);
        proof {
            assert(rest.drop_first() =~= views(ts@).skip(i as int + 1));
            assert(rest[0] == ts[i as int]@);
        }
        let t = &ts[i];
        let mut j: usize = 0;
        let ghost s0 = s@;
        while j < t.len()
            invariant
                j <= t.len(),
                s@ == s0 + t@.take(j as int),
            decreases t.len() - j,
        {
            push_char(&mut s, t[j]);
            j += 1;
            proof {
                assert(s@ =~= s0 + t@.take(j as int));
            }
        }
        let sep = if i + 1 == ts.len() { '\n' } else { ' ' };
        push_char(&mut s, sep);
        i += 1;
        proof {
            assert(t@.take(j as int) =~= t@);
            assert(s@ + joined(views(ts@).skip(i as int)) =~= s0 + joined(rest));
        }
    }
    proof {
        assert(s@ =~= s@ + joined(views(ts@).skip(i as int)));
    }
    s
}

/// Reading a token that starts at `a` runs to its end `e`.
pub proof fn lemma_scan_word(s: Seq<char>, a: int, j: int, e: int)
    requires
        0 <= a <= j <= e <= s.len(),
        forall|m: int| a <= m < e ==> !is_space(#[trigger] s[m]),
        e == s.len() || is_space(s[e]),
    ensures
        scan(s, j, Some(a)) == seq![s.subrange(a, e)] + (if e == s.len() {
            Seq::<Seq<char>>::empty()
        } else {
            scan(s, e + 1, None)
        }),
    decreases e - j,
{
    if j < e {
        lemma_scan_word(s, a, j + 1, e);
    } else if e == s.len() {
        assert(seq![s.subrange(a, e)] + Seq::<Seq<char>>::empty() =~= seq![s.subrange(a, e)]);
    }
}

/// Tokens written by `joined` after any prefix ending in whitespace are read back.
pub proof fn lemma_scan_joined(pre: Seq<char>, ts: Seq<Seq<char>>)
    requires
        forall|i: int| 0 <= i < ts.len() ==> is_token(#[trigger] ts[i]),
    ensures
        scan(pre + joined(ts), pre.len() as int, None) == ts,
    decreases ts.len(),
{
    let s = pre + joined(ts);
    if ts.len() == 0 {
        assert(s =~= pre);
        assert(ts =~= Seq::<Seq<char>>::empty());
    } else {
        let t = ts[0];
        let c = if ts.len() == 1 { '\n' } else { ' ' };
        let pre2 = pre + t + seq![c];
        assert(s =~= pre2 + joined(ts.drop_first()));
        let a = pre.len() as int;
        let e = a + t.len();
        assert(is_token(t));
        assert forall|m: int| a <= m < e implies !is_space(#[trigger] s[m]) by {
            assert(s[m] == t[m - a]);
        }
        assert(s[e] == c);
        assert(!is_space(s[a])) by {
            assert(s[a] == t[0]);
        }
        lemma_scan_word(s, a, a + 1, e);
        assert(s.subrange(a, e) =~= t);
        lemma_scan_joined(pre2, ts.drop_first());
        assert(pre2.len() == e + 1);
        assert(ts =~= seq![t] + ts.drop_first());
    }
}

/// `words` undoes `joined` on tokens.
pub proof fn lemma_words_joined(ts: Seq<Seq<char>>)
    requires
        forall|i: int| 0 <= i < ts.len() ==> is_token(#[trigger] ts[i]),
    ensures
        words(joined(ts)) == ts,
{
    lemma_scan_joined(Seq::empty(), ts);
    assert(Seq::<char>::empty() + joined(ts) =~= joined(ts));
}

proof fn lemma_scan_tokens(s: Seq<char>, i: int, st: Option<int>)
    requires
        0 <= i <= s.len(),
        st matches Some(a) ==> 0 <= a < i && forall|m: int| a <= m < i ==> !is_space(#[trigger] s[m]),
    ensures
        forall|j: int| 0 <= j < scan(s, i, st).len() ==> is_token(#[trigger] scan(s, i, st)[j]),
    decreases s.len() - i,
{
    if i < s.len() {
        if is_space(s[i]) {
            lemma_scan_tokens(s, i + 1, None);
            if st is None {
                assert(scan(s, i, st) == scan(s, i + 1, None));
            }
            if let Some(a) = st {
                let t = s.subrange(a, i);
                assert forall|m: int| 0 <= m < t.len() implies !is_space(#[trigger] t[m]) by {
                    assert(t[m] == s[a + m]);
                }
                assert(is_token(t));
                let r = scan(s, i, st);
                assert(r == seq![t] + scan(s, i + 1, None));
                assert forall|j: int| 0 <= j < r.len() implies is_token(#[trigger] r[j]) by {
                    if j > 0 {
                        assert(r[j] == scan(s, i + 1, None)[j - 1]);
                    }
                }
            }
        } else {
            match st {
                Some(a) => {
                    lemma_scan_tokens(s, i + 1, Some(a));
                    assert(scan(s, i, st) == scan(s, i + 1, Some(a)));
                },
                None => {
                    lemma_scan_tokens(s, i + 1, Some(i));
                    assert(scan(s, i, st) == scan(s, i + 1, Some(i)));
                },
            }
        }
    } else {
        if let Some(a) = st {
            let t = s.subrange(a, s.len() as int);
            assert forall|m: int| 0 <= m < t.len() implies !is_space(#[trigger] t[m]) by {
                assert(t[m] == s[a + m]);
            }
            assert(is_token(t));
            assert(scan(s, i, st) == seq![t]);
        }
    }
}

/// Every word is a token.
pub proof fn lemma_words_are_tokens(s: Seq<char>)
    ensures
        forall|j: int| 0 <= j < words(s).len() ==> is_token(#[trigger] words(s)[j]),
{
    lemma_scan_tokens(s, 0, None);
}

/// A written line ends in its only newline.
pub proof fn lemma_joined_newline(ts: Seq<Seq<char>>)
    requires
        ts.len() >= 1,
        forall|i: int| 0 <= i < ts.len() ==> is_token(#[trigger] ts[i]),
    ensures
        joined(ts).len() >= 1,
        joined(ts).last() == '\n',
        forall|i: int| 0 <= i < joined(ts).len() - 1 ==> #[trigger] joined(ts)[i] != '\n',
    decreases ts.len(),
{
    let t = ts[0];
    assert(is_token(t));
    let rest = ts.drop_first();
    let j = joined(ts);
    if ts.len() == 1 {
        assert(rest.len() == 0);
        assert(joined(rest) == Seq::<char>::empty());
        assert(j =~= t + seq!['\n']);
        assert forall|i: int| 0 <= i < j.len() - 1 implies #[trigger] j[i] != '\n' by {
            assert(j[i] == t[i]);
        }
    } else {
        assert forall|i: int| 0 <= i < rest.len() implies is_token(#[trigger] rest[i]) by {
            assert(rest[i] == ts[i + 1]);
        }
        lemma_joined_newline(rest);
        let jr = joined(rest);
        assert(j =~= t + seq![' '] + jr);
        assert forall|i: int| 0 <= i < j.len() - 1 implies #[trigger] j[i] != '\n' by {
            if i < t.len() {
                assert(j[i] == t[i]);
            } else if i == t.len() {
                assert(j[i] == ' ');
            } else {
                assert(j[i] == jr[i - t.len() - 1]);
            }
        }
        assert(j.last() == jr.last());
    }
}

} // verus!
