use vstd::prelude::*;

verus! {

/// Characters dropped from every input line: the letters of the `min` label
/// and the punctuation `;` and `:`.
pub open spec fn is_unwanted(c: char) -> bool {
    c == 'm' || c == 'i' || c == 'n' || c == ';' || c == ':'
}

/// `s` without its unwanted characters.
pub open spec fn strip(s: Seq<char>) -> Seq<char>
    decreases s.len(),
{
    if s.len() == 0 {
        s
    } else if is_unwanted(s.last()) {
        strip(s.drop_last())
    } else {
        strip(s.drop_last()).push(s.last())
    }
}

/// `" >= "` starts at position `i` of `s`.
pub open spec fn ge_at(s: Seq<char>, i: int) -> bool {
    &&& 0 <= i
    &&& i + 4 <= s.len()
    &&& s[i] == ' '
    &&& s[i + 1] == '>'
    &&& s[i + 2] == '='
    &&& s[i + 3] == ' '
}

/// `" + "` starts at position `i` of `s`.
pub open spec fn plus_at(s: Seq<char>, i: int) -> bool {
    &&& 0 <= i
    &&& i + 3 <= s.len()
    &&& s[i] == ' '
    &&& s[i + 1] == '+'
    &&& s[i + 2] == ' '
}

pub open spec fn plus_sep() -> Seq<char> {
    seq![' ', '+', ' ']
}

/// Every `" >= "` of `s`, taken left to right without overlap, replaced by
/// `" + "`.
pub open spec fn replace_ge(s: Seq<char>) -> Seq<char>
    decreases s.len(),
{
    if s.len() == 0 {
        s
    } else if ge_at(s, 0) {
        plus_sep() + replace_ge(s.skip(4))
    } else {
        seq![s[0]] + replace_ge(s.skip(1))
    }
}

/// `s` split at every `" + "`, taken left to right without overlap; always
/// at least one piece.
pub open spec fn split_terms(s: Seq<char>) -> Seq<Seq<char>>
    decreases s.len(),
{
    if s.len() == 0 {
        seq![Seq::<char>::empty()]
    } else if plus_at(s, 0) {
        seq![Seq::<char>::empty()] + split_terms(s.skip(3))
    } else {
        let rest = split_terms(s.skip(1));
        rest.update(0, seq![s[0]] + rest[0])
    }
}

/// `ts` with `p` put in front of its first piece.
pub open spec fn prepend(p: Seq<char>, ts: Seq<Seq<char>>) -> Seq<Seq<char>> {
    ts.update(0, p + ts[0])
}

/// The part of `t` before its first `*` (all of `t` when it has none).
pub open spec fn before_star(t: Seq<char>) -> Seq<char>
    decreases t.len(),
{
    if t.len() == 0 {
        t
    } else if t[0] == '*' {
        Seq::<char>::empty()
    } else {
        seq![t[0]] + before_star(t.skip(1))
    }
}

pub proof fn lemma_split_terms_nonempty(s: Seq<char>)
    ensures
        split_terms(s).len() >= 1,
    decreases s.len(),
{
    if s.len() > 0 && !plus_at(s, 0) {
        lemma_split_terms_nonempty(s.skip(1));
    }
}

/// The characters of `s`, in order.
pub fn chars_of(s: &str) -> (r: Vec<char>)
    ensures
        r@ == s@,
{
    let len = s.unicode_len();
    let mut r: Vec<char> = Vec::new();
    let mut i: usize = 0;
    while i < len
        invariant
            len == s@.len(),
            i <= len,
            r@ == s@.subrange(0, i as int),
        decreases len - i,
    {
        r.push(s.get_char(i));
        i += 1;
        assert(r@ =~= s@.subrange(0, i as int));
    }
    assert(r@ =~= s@);
    r
}

/// Drops every `m`, `i`, `n`, `;` and `:` from `text`.
pub fn remove_unwanted_chars(text: &mut Vec<char>)
    ensures
        final(text)@ == strip(old(text)@),
{
    let s = text.clone();
    proof { assert(s@ =~= old(text)@); }
    let mut out: Vec<char> = Vec::new();
    let mut i: usize = 0;
    while i < s.len()
        invariant
            i <= s@.len(),
            out@ == strip(s@.subrange(0, i as int)),
        decreases s.len() - i,
    {
        let c = s[i];
        assert(s@.subrange(0, i + 1).drop_last() =~= s@.subrange(0, i as int));
        if !(c == 'm' || c == 'i' || c == 'n' || c == ';' || c == ':') {
            out.push(c);
        }
        i += 1;
    }
    assert(s@.subrange(0, s@.len() as int) =~= s@);
    *text = out;
}

/// `s` with every `" >= "` replaced by `" + "`.
pub fn replace_ge_with_plus(s: &Vec<char>) -> (r: Vec<char>)
    ensures
        r@ == replace_ge(s@),
{
    let mut out: Vec<char> = Vec::new();
    let mut i: usize = 0;
    let n = s.len();
    assert(out@ + replace_ge(s@.skip(0)) =~= replace_ge(s@)) by {
        assert(s@.skip(0) =~= s@);
    }
    while i < n
        invariant
            n == s@.len(),
            i <= n,
            out@ + replace_ge(s@.skip(i as int)) == replace_ge(s@),
        decreases n - i,
    {
        let ghost rest = s@.skip(i as int);
        if n - i >= 4 && s[i] == ' ' && s[i + 1] == '>' && s[i + 2] == '=' && s[i + 3] == ' ' {
            assert(ge_at(rest, 0));
            assert(rest.skip(4) =~= s@.skip(i + 4));
            out.push(' ');
            out.push('+');
            out.push(' ');
            assert(out@ + replace_ge(s@.skip(i + 4)) =~= replace_ge(s@));
            i += 4;
        } else {
            assert(!ge_at(rest, 0));
            assert(rest.skip(1) =~= s@.skip(i + 1));
            out.push(s[i]);
            assert(out@ + replace_ge(s@.skip(i + 1)) =~= replace_ge(s@));
            i += 1;
        }
    }
    assert(s@.skip(n as int) =~= Seq::<char>::empty());
    assert(out@ =~= replace_ge(s@));
    out
}

pub open spec fn views(ts: Seq<Vec<char>>) -> Seq<Seq<char>> {
    ts.map_values(|v: Vec<char>| v@)
}

/// `s` split at every `" + "`.
pub fn split_on_plus(s: &Vec<char>) -> (r: Vec<Vec<char>>)
    ensures
        views(r@) == split_terms(s@),
{
    let mut terms: Vec<Vec<char>> = Vec::new();
    let mut cur: Vec<char> = Vec::new();
    let mut i: usize = 0;
    let n = s.len();
    proof { lemma_split_terms_nonempty(s@); }
    assert(prepend(cur@, split_terms(s@.skip(0))) =~= split_terms(s@)) by {
        assert(s@.skip(0) =~= s@);
    }
    while i < n
        invariant
            n == s@.len(),
            i <= n,
            views(terms@) + prepend(cur@, split_terms(s@.skip(i as int))) == split_terms(s@),
        decreases n - i,
    {
        let ghost rest = s@.skip(i as int);
        proof { lemma_split_terms_nonempty(rest); }
        if n - i >= 3 && s[i] == ' ' && s[i + 1] == '+' && s[i + 2] == ' ' {
            assert(plus_at(rest, 0));
            assert(rest.skip(3) =~= s@.skip(i + 3));
            let ghost old_terms = views(terms@);
            let ghost old_cur = cur@;
            let ghost tail = split_terms(s@.skip(i + 3));
            proof { lemma_split_terms_nonempty(s@.skip(i + 3)); }
            terms.push(cur);
            cur = Vec::new();
            assert(views(terms@) =~= old_terms.push(old_cur));
            assert(prepend(cur@, tail) =~= tail);
            assert(prepend(old_cur, seq![Seq::<char>::empty()] + tail) =~= seq![old_cur] + tail);
            assert(views(terms@) + prepend(cur@, tail) =~= old_terms + prepend(old_cur, split_terms(rest)));
            i += 3;
        } else {
            assert(!plus_at(rest, 0));
            assert(rest.skip(1) =~= s@.skip(i + 1));
            let ghost old_cur = cur@;
            let ghost tail = split_terms(s@.skip(i + 1));
            proof { lemma_split_terms_nonempty(s@.skip(i + 1)); }
            cur.push(s[i]);
            assert(rest[0] == s@[i as int]);
            assert(old_cur + (seq![rest[0]] + tail[0]) =~= cur@ + tail[0]);
            assert(prepend(old_cur, tail.update(0, seq![rest[0]] + tail[0])) =~= prepend(cur@, tail));
            i += 1;
        }
    }
    assert(s@.skip(n as int) =~= Seq::<char>::empty());
    terms.push(cur);
    assert(views(terms@) =~= split_terms(s@));
    terms
}

/// The part of `t` before its first `*`.
pub fn cut_at_star(t: &Vec<char>) -> (r: Vec<char>)
    ensures
        r@ == before_star(t@),
{
    let mut out: Vec<char> = Vec::new();
    let mut i: usize = 0;
    let n = t.len();
    assert(out@ + before_star(t@.skip(0)) =~= before_star(t@)) by {
        assert(t@.skip(0) =~= t@);
    }
    while i < n && t[i] != '*'
        invariant
            n == t@.len(),
            i <= n,
            out@ + before_star(t@.skip(i as int)) == before_star(t@),
        decreases n - i,
    {
        let ghost rest = t@.skip(i as int);
        assert(rest.skip(1) =~= t@.skip(i + 1));
        out.push(t[i]);
        assert(out@ + before_star(t@.skip(i + 1)) =~= before_star(t@));
        i += 1;
    }
    assert(before_star(t@.skip(i as int)) =~= Seq::<char>::empty()) by {
        if i == n {
            assert(t@.skip(i as int) =~= Seq::<char>::empty());
        }
    }
    assert(out@ =~= before_star(t@));
    out
}


/// `t` without its leading spaces.
pub open spec fn trim_front(t: Seq<char>) -> Seq<char>
    decreases t.len(),
{
    if t.len() > 0 && t[0] == ' ' {
        trim_front(t.skip(1))
    } else {
        t
    }
}

/// `t` without its trailing spaces.
pub open spec fn trim_back(t: Seq<char>) -> Seq<char>
    decreases t.len(),
{
    if t.len() > 0 && t.last() == ' ' {
        trim_back(t.drop_last())
    } else {
        t
    }
}

pub open spec fn trim_spaces(t: Seq<char>) -> Seq<char> {
    trim_back(trim_front(t))
}

/// `t` without its leading and trailing spaces.
pub fn trim_spaces_of(t: &Vec<char>) -> (r: Vec<char>)
    ensures
        r@ == trim_spaces(t@),
{
    let n = t.len();
    let mut lo: usize = 0;
    assert(t@.skip(0) =~= t@);
    while lo < n && t[lo] == ' '
        invariant
            n == t@.len(),
            lo <= n,
            trim_front(t@.skip(lo as int)) == trim_front(t@),
        decreases n - lo,
    {
        assert(t@.skip(lo as int).skip(1) =~= t@.skip(lo + 1));
        lo += 1;
    }
    let ghost f = t@.skip(lo as int);
    assert(trim_front(f) == f);
    let mut hi: usize = n;
    assert(t@.subrange(lo as int, n as int) =~= f);
    while hi > lo && t[hi - 1] == ' '
        invariant
            n == t@.len(),
            lo <= hi <= n,
            f == trim_front(t@),
            trim_back(t@.subrange(lo as int, hi as int)) == trim_back(f),
        decreases hi - lo,
    {
        assert(t@.subrange(lo as int, hi as int).drop_last() =~= t@.subrange(lo as int, hi - 1));
        hi -= 1;
    }
    let mut r: Vec<char> = Vec::new();
    let mut k: usize = lo;
    while k < hi
        invariant
            lo <= k <= hi <= n,
            n == t@.len(),
            r@ == t@.subrange(lo as int, k as int),
        decreases hi - k,
    {
        r.push(t[k]);
        k += 1;
        assert(r@ =~= t@.subrange(lo as int, k as int));
    }
    r
}

} // verus!
