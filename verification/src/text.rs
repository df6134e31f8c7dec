//! Character-sequence utilities: trimming, splitting on a separator,
//! decimal numbers, joining, and lexicographic order.  The descriptor
//! grammar in the codec modules is stated over these spec functions.
use vstd::prelude::*;
use vstd::std_specs::iter::{IteratorSpec, VerusForLoopWrapper};
use vstd::string::StringExecFns;

verus! {

broadcast use vstd::string::group_string_axioms;

/// Whether a character counts as whitespace when a token is trimmed:
/// the Unicode `White_Space` set, which is what `str::trim` removes.
pub open spec fn is_ws(c: char) -> bool {
    c == ' ' || c == '\t' || c == '\n' || c == '\r' || c == '\u{000b}' || c == '\u{000c}'
        || c == '\u{0085}' || c == '\u{00a0}' || c == '\u{1680}' || c == '\u{2000}'
        || c == '\u{2001}' || c == '\u{2002}' || c == '\u{2003}' || c == '\u{2004}'
        || c == '\u{2005}' || c == '\u{2006}' || c == '\u{2007}' || c == '\u{2008}'
        || c == '\u{2009}' || c == '\u{200a}' || c == '\u{2028}' || c == '\u{2029}'
        || c == '\u{202f}' || c == '\u{205f}' || c == '\u{3000}'
}

pub fn char_is_ws(c: char) -> (r: bool)
    ensures
        r == is_ws(c),
{
    c == ' ' || c == '\t' || c == '\n' || c == '\r' || c == '\u{000b}' || c == '\u{000c}'
        || c == '\u{0085}' || c == '\u{00a0}' || c == '\u{1680}' || c == '\u{2000}'
        || c == '\u{2001}' || c == '\u{2002}' || c == '\u{2003}' || c == '\u{2004}'
        || c == '\u{2005}' || c == '\u{2006}' || c == '\u{2007}' || c == '\u{2008}'
        || c == '\u{2009}' || c == '\u{200a}' || c == '\u{2028}' || c == '\u{2029}'
        || c == '\u{202f}' || c == '\u{205f}' || c == '\u{3000}'
}

pub open spec fn trim_start_v(s: Seq<char>) -> Seq<char>
    decreases s.len(),
{
    if s.len() > 0 && is_ws(s[0]) {
        trim_start_v(s.drop_first())
    } else {
        s
    }
}

pub open spec fn trim_end_v(s: Seq<char>) -> Seq<char>
    decreases s.len(),
{
    if s.len() > 0 && is_ws(s.last()) {
        trim_end_v(s.drop_last())
    } else {
        s
    }
}

/// What `str::trim` leaves: the sequence with leading and trailing
/// whitespace removed.
pub open spec fn trim_v(s: Seq<char>) -> Seq<char> {
    trim_end_v(trim_start_v(s))
}

/// A sequence that trimming leaves unchanged.
pub open spec fn trimmed(s: Seq<char>) -> bool {
    trim_v(s) == s
}

proof fn lemma_trim_start_skip(s: Seq<char>, i: int)
    requires
        0 <= i <= s.len(),
        forall|k: int| 0 <= k < i ==> is_ws(s[k]),
        i < s.len() ==> !is_ws(s[i]),
    ensures
        trim_start_v(s) == s.skip(i),
    decreases i,
{
    if i == 0 {
        assert(s.skip(0) =~= s);
    } else {
        assert(s.drop_first() =~= s.skip(1));
        lemma_trim_start_skip(s.skip(1), i - 1);
        assert(s.skip(1).skip(i - 1) =~= s.skip(i));
    }
}

proof fn lemma_trim_end_take(s: Seq<char>, j: int)
    requires
        0 <= j <= s.len(),
        forall|k: int| j <= k < s.len() ==> is_ws(s[k]),
        j > 0 ==> !is_ws(s[j - 1]),
    ensures
        trim_end_v(s) == s.take(j),
    decreases s.len(),
{
    if j == s.len() {
        assert(s.take(j) =~= s);
    } else {
        assert(is_ws(s.last()));
        lemma_trim_end_take(s.drop_last(), j);
        assert(s.drop_last().take(j) =~= s.take(j));
    }
}

/// `str::trim` over a character vector.
pub fn trim_chars(s: &Vec<char>) -> (r: Vec<char>)
    ensures
        r@ == trim_v(s@),
{
    let n = s.len();
    let mut lo: usize = 0;
    while lo < n && char_is_ws(s[lo])
        invariant
            0 <= lo <= n == s.len(),
            forall|k: int| 0 <= k < lo ==> is_ws(s@[k]),
        decreases n - lo,
    {
        lo = lo + 1;
    }
    let mut hi: usize = n;
    while hi > lo && char_is_ws(s[hi - 1])
        invariant
            lo <= hi <= n == s.len(),
            forall|k: int| hi <= k < n ==> is_ws(s@[k]),
        decreases hi,
    {
        hi = hi - 1;
    }
    let mut r: Vec<char> = Vec::new();
    let mut i = lo;
    while i < hi
        invariant
            lo <= i <= hi <= s.len(),
            r@ == s@.subrange(lo as int, i as int),
        decreases hi - i,
    {
        r.push(s[i]);
        proof {
            assert(r@ =~= s@.subrange(lo as int, i + 1));
        }
        i = i + 1;
    }
    proof {
        lemma_trim_start_skip(s@, lo as int);
        if hi > lo {
            assert(!is_ws(s@.skip(lo as int)[hi - lo - 1]));
        }
        lemma_trim_end_take(s@.skip(lo as int), hi - lo);
        assert(s@.skip(lo as int).take(hi - lo) =~= s@.subrange(lo as int, hi as int));
    }
    r
}

proof fn lemma_trim_start_len(s: Seq<char>)
    ensures
        trim_start_v(s).len() <= s.len(),
    decreases s.len(),
{
    if s.len() > 0 && is_ws(s[0]) {
        lemma_trim_start_len(s.drop_first());
    }
}

proof fn lemma_trim_end_len(s: Seq<char>)
    ensures
        trim_end_v(s).len() <= s.len(),
    decreases s.len(),
{
    if s.len() > 0 && is_ws(s.last()) {
        lemma_trim_end_len(s.drop_last());
    }
}

/// A non-empty trimmed sequence neither starts nor ends with
/// whitespace.
pub proof fn lemma_trimmed_ends(x: Seq<char>)
    requires
        trimmed(x),
        x.len() > 0,
    ensures
        !is_ws(x[0]),
        !is_ws(x.last()),
        trim_start_v(x) == x,
        trim_end_v(x) == x,
{
    lemma_trim_start_len(x);
    lemma_trim_end_len(trim_start_v(x));
    if is_ws(x[0]) {
        lemma_trim_start_len(x.drop_first());
        assert(trim_start_v(x) == trim_start_v(x.drop_first()));
        assert(trim_start_v(x).len() < x.len());
    }
    assert(trim_start_v(x) == x);
    if is_ws(x.last()) {
        lemma_trim_end_len(x.drop_last());
        assert(trim_end_v(x).len() < x.len());
    }
}

/// A sequence that neither starts nor ends with whitespace is already
/// trimmed.
pub proof fn lemma_trim_id(x: Seq<char>)
    requires
        x.len() > 0 ==> !is_ws(x[0]) && !is_ws(x.last()),
    ensures
        trim_v(x) == x,
{
}

/// Trimming removes one space added on the left of a trimmed sequence.
pub proof fn lemma_trim_pad_left(x: Seq<char>)
    requires
        trimmed(x),
    ensures
        trim_v(seq![' '] + x) == x,
{
    let s = seq![' '] + x;
    assert(is_ws(s[0]));
    assert(s.drop_first() =~= x);
    if x.len() == 0 {
        assert(trim_start_v(s) == trim_start_v(x));
        assert(trim_start_v(Seq::<char>::empty()) =~= Seq::<char>::empty());
    } else {
        lemma_trimmed_ends(x);
        assert(trim_start_v(s) == trim_start_v(x));
        assert(trim_start_v(x) == x);
        assert(trim_end_v(x) == x);
    }
}

/// Trimming removes one space added on the right of a trimmed
/// sequence.
pub proof fn lemma_trim_pad_right(x: Seq<char>)
    requires
        trimmed(x),
    ensures
        trim_v(x + seq![' ']) == x,
{
    let s = x + seq![' '];
    assert(s.last() == ' ');
    assert(s.drop_last() =~= x);
    if x.len() == 0 {
        assert(s[0] == ' ');
        assert(is_ws(s[0]));
        assert(trim_start_v(s) == trim_start_v(s.drop_first()));
        assert(s.drop_first() =~= Seq::<char>::empty());
        assert(trim_start_v(Seq::<char>::empty()) =~= Seq::<char>::empty());
    } else {
        lemma_trimmed_ends(x);
        assert(!is_ws(s[0]));
        assert(trim_start_v(s) == s);
        assert(is_ws(s.last()));
        assert(trim_end_v(s) == trim_end_v(x));
    }
}

proof fn lemma_trim_start_head(s: Seq<char>)
    ensures
        trim_start_v(s).len() > 0 ==> !is_ws(trim_start_v(s)[0]),
    decreases s.len(),
{
    if s.len() > 0 && is_ws(s[0]) {
        lemma_trim_start_head(s.drop_first());
    }
}

proof fn lemma_trim_end_last(s: Seq<char>)
    ensures
        trim_end_v(s).len() > 0 ==> !is_ws(trim_end_v(s).last()),
    decreases s.len(),
{
    if s.len() > 0 && is_ws(s.last()) {
        lemma_trim_end_last(s.drop_last());
    }
}

proof fn lemma_trim_end_head(s: Seq<char>)
    ensures
        trim_end_v(s).len() > 0 ==> trim_end_v(s)[0] == s[0],
    decreases s.len(),
{
    if s.len() > 0 && is_ws(s.last()) {
        lemma_trim_end_head(s.drop_last());
    }
}

/// The result of a trim is itself trimmed.
pub proof fn lemma_trim_trimmed(s: Seq<char>)
    ensures
        trimmed(trim_v(s)),
{
    let t = trim_v(s);
    if t.len() > 0 {
        lemma_trim_start_head(s);
        lemma_trim_end_head(trim_start_v(s));
        lemma_trim_end_last(trim_start_v(s));
        assert(!is_ws(t[0]));
        assert(!is_ws(t.last()));
        lemma_trim_id(t);
    } else {
        assert(t =~= Seq::<char>::empty());
        lemma_trim_id(t);
    }
}

proof fn lemma_trim_start_subset(s: Seq<char>, c: char)
    requires
        !s.contains(c),
    ensures
        !trim_start_v(s).contains(c),
    decreases s.len(),
{
    if s.len() > 0 && is_ws(s[0]) {
        assert(forall|i: int|
            0 <= i < s.drop_first().len() ==> s.drop_first()[i] == s[i + 1]);
        lemma_trim_start_subset(s.drop_first(), c);
    }
}

proof fn lemma_trim_end_subset(s: Seq<char>, c: char)
    requires
        !s.contains(c),
    ensures
        !trim_end_v(s).contains(c),
    decreases s.len(),
{
    if s.len() > 0 && is_ws(s.last()) {
        assert(forall|i: int| 0 <= i < s.drop_last().len() ==> s.drop_last()[i] == s[i]);
        lemma_trim_end_subset(s.drop_last(), c);
    }
}

/// A character absent from a sequence is absent from its trim.
pub proof fn lemma_trim_subset(s: Seq<char>, c: char)
    requires
        !s.contains(c),
    ensures
        !trim_v(s).contains(c),
{
    lemma_trim_start_subset(s, c);
    lemma_trim_end_subset(trim_start_v(s), c);
}

/// A digit character is none of the grammar's special characters.
pub proof fn lemma_digit_not_special(c: char)
    requires
        is_digit(c),
    ensures
        !is_ws(c),
        c != ',',
        c != '=',
        c != '+',
        c != '[',
{
    assert(',' as u32 == 44 && '=' as u32 == 61 && '+' as u32 == 43 && '[' as u32 == 91);
    if is_ws(c) {
        assert(' ' as u32 == 32 && '\t' as u32 == 9 && '\n' as u32 == 10 && '\r' as u32
            == 13);
    }
}

/// A character absent from both sides and different from the middle
/// one is absent from the whole concatenation.
pub proof fn lemma_concat3_no_char(x: Seq<char>, c: char, y: Seq<char>, d: char)
    requires
        !x.contains(d),
        !y.contains(d),
        c != d,
    ensures
        !(x + seq![c] + y).contains(d),
{
    let s = x + seq![c] + y;
    if s.contains(d) {
        let i = choose|i: int| 0 <= i < s.len() && s[i] == d;
        if i < x.len() {
            assert(x[i] == d);
        } else if i == x.len() {
            assert(s[i] == c);
        } else {
            assert(y[i - x.len() - 1] == d);
        }
    }
}

/// The decimal rendering of a number contains none of the grammar's
/// special characters and is already trimmed.
pub proof fn lemma_digits_plain(n: u32)
    ensures
        !u32_digits_v(n).contains(','),
        !u32_digits_v(n).contains('='),
        trimmed(u32_digits_v(n)),
{
    let s = u32_digits_v(n);
    lemma_u32_digits_are_digits(n);
    if s.contains(',') {
        let i = choose|i: int| 0 <= i < s.len() && s[i] == ',';
        lemma_digit_not_special(s[i]);
    }
    if s.contains('=') {
        let i = choose|i: int| 0 <= i < s.len() && s[i] == '=';
        lemma_digit_not_special(s[i]);
    }
    lemma_digit_not_special(s[0]);
    lemma_digit_not_special(s.last());
    lemma_trim_id(s);
}

/// What `str::split(sep)` yields: the pieces between occurrences of
/// `sep`, in order.  Always at least one piece.
pub open spec fn split_v(s: Seq<char>, sep: char) -> Seq<Seq<char>>
    decreases s.len(),
{
    if s.len() == 0 {
        seq![Seq::<char>::empty()]
    } else if s[0] == sep {
        seq![Seq::<char>::empty()] + split_v(s.drop_first(), sep)
    } else {
        let r = split_v(s.drop_first(), sep);
        seq![seq![s[0]] + r[0]] + r.drop_first()
    }
}

pub proof fn lemma_split_len(s: Seq<char>, sep: char)
    ensures
        split_v(s, sep).len() >= 1,
    decreases s.len(),
{
    if s.len() > 0 {
        lemma_split_len(s.drop_first(), sep);
    }
}

/// A sequence free of the separator splits into itself alone.
pub proof fn lemma_split_no_sep(s: Seq<char>, sep: char)
    requires
        !s.contains(sep),
    ensures
        split_v(s, sep) == seq![s],
    decreases s.len(),
{
    if s.len() == 0 {
        assert(s =~= Seq::<char>::empty());
        assert(split_v(s, sep) =~= seq![s]);
    } else {
        assert(s[0] != sep);
        assert(forall|i: int| 0 <= i < s.drop_first().len() ==> s.drop_first()[i] == s[i + 1]);
        assert(!s.drop_first().contains(sep));
        lemma_split_no_sep(s.drop_first(), sep);
        let r = split_v(s.drop_first(), sep);
        assert(r == seq![s.drop_first()]);
        assert(split_v(s, sep) == seq![seq![s[0]] + r[0]] + r.drop_first());
        assert(seq![s[0]] + r[0] =~= s);
        assert(r.drop_first() =~= Seq::<Seq<char>>::empty());
        assert(seq![seq![s[0]] + r[0]] + r.drop_first() =~= seq![s]);
    }
}

/// Splitting `a ++ sep ++ b` where `a` is free of the separator yields
/// `a` first and then the split of `b`.
pub proof fn lemma_split_concat(a: Seq<char>, b: Seq<char>, sep: char)
    requires
        !a.contains(sep),
    ensures
        split_v(a + seq![sep] + b, sep) == seq![a] + split_v(b, sep),
    decreases a.len(),
{
    let s = a + seq![sep] + b;
    if a.len() == 0 {
        assert(s[0] == sep);
        assert(s.drop_first() =~= b);
        assert(a =~= Seq::<char>::empty());
        assert(split_v(s, sep) == seq![Seq::<char>::empty()] + split_v(b, sep));
        assert(seq![Seq::<char>::empty()] + split_v(b, sep) =~= seq![a] + split_v(b, sep));
    } else {
        assert(s[0] == a[0]);
        assert(s[0] != sep);
        assert(!a.drop_first().contains(sep)) by {
            assert(forall|i: int|
                0 <= i < a.drop_first().len() ==> a.drop_first()[i] == a[i + 1]);
        }
        lemma_split_concat(a.drop_first(), b, sep);
        assert(s.drop_first() =~= a.drop_first() + seq![sep] + b);
        let r = split_v(s.drop_first(), sep);
        assert(r == seq![a.drop_first()] + split_v(b, sep));
        lemma_split_len(b, sep);
        assert(r[0] == a.drop_first());
        assert(seq![a[0]] + r[0] =~= a);
        assert(r.drop_first() =~= split_v(b, sep));
        assert(split_v(s, sep) == seq![seq![s[0]] + r[0]] + r.drop_first());
        assert(seq![seq![s[0]] + r[0]] + r.drop_first() =~= seq![a] + split_v(b, sep));
    }
}

/// `str::split(sep)` over a character vector.
pub fn split_chars(s: &Vec<char>, sep: char) -> (r: Vec<Vec<char>>)
    ensures
        r.deep_view() == split_v(s@, sep),
        r.len() >= 1,
{
    let n = s.len();
    let mut out: Vec<Vec<char>> = Vec::new();
    let mut cur: Vec<char> = Vec::new();
    let mut i: usize = 0;
    proof {
        lemma_split_len(s@, sep);
        assert(s@.skip(0) =~= s@);
        assert(cur@ + split_v(s@, sep)[0] =~= split_v(s@, sep)[0]);
        assert(out.deep_view() + seq![cur@ + split_v(s@, sep)[0]] + split_v(
            s@,
            sep,
        ).drop_first() =~= split_v(s@, sep));
    }
    while i < n
        invariant
            0 <= i <= n == s.len(),
            split_v(s@.skip(i as int), sep).len() >= 1,
            split_v(s@, sep) == out.deep_view() + seq![
                cur@ + split_v(s@.skip(i as int), sep)[0],
            ] + split_v(s@.skip(i as int), sep).drop_first(),
        decreases n - i,
    {
        let ghost rest = s@.skip(i as int);
        proof {
            assert(rest.len() > 0);
            assert(rest[0] == s@[i as int]);
            assert(rest.drop_first() =~= s@.skip(i + 1));
            lemma_split_len(s@.skip(i + 1), sep);
        }
        let ghost x = split_v(s@.skip(i + 1), sep);
        let c = s[i];
        if c == sep {
            let ghost old_out = out.deep_view();
            let ghost old_cur = cur@;
            out.push(cur);
            cur = Vec::new();
            proof {
                assert(out.deep_view() =~~= old_out.push(old_cur));
                assert(split_v(rest, sep) == seq![Seq::<char>::empty()] + x);
                assert(split_v(rest, sep)[0] == Seq::<char>::empty());
                assert(old_cur + split_v(rest, sep)[0] =~= old_cur);
                assert(split_v(rest, sep).drop_first() =~= x);
                assert(cur@ + x[0] =~= x[0]);
                assert(old_out + seq![old_cur + split_v(rest, sep)[0]] + split_v(
                    rest,
                    sep,
                ).drop_first() =~= old_out.push(old_cur) + seq![cur@ + x[0]] + x.drop_first());
            }
        } else {
            let ghost old_cur = cur@;
            cur.push(c);
            proof {
                assert(split_v(rest, sep) == seq![seq![rest[0]] + x[0]] + x.drop_first());
                assert(split_v(rest, sep)[0] == seq![rest[0]] + x[0]);
                assert(split_v(rest, sep).drop_first() =~= x.drop_first());
                assert(cur@ + x[0] =~= old_cur + split_v(rest, sep)[0]);
                assert(out.deep_view() + seq![old_cur + split_v(rest, sep)[0]] + split_v(
                    rest,
                    sep,
                ).drop_first() =~= out.deep_view() + seq![cur@ + x[0]] + x.drop_first());
            }
        }
        i = i + 1;
    }
    proof {
        assert(s@.skip(n as int) =~= Seq::<char>::empty());
        assert(split_v(s@.skip(n as int), sep) == seq![Seq::<char>::empty()]);
        assert(cur@ + split_v(s@.skip(n as int), sep)[0] =~= cur@);
    }
    let ghost old_out = out.deep_view();
    let ghost old_cur = cur@;
    out.push(cur);
    proof {
        assert(out.deep_view() =~~= old_out.push(old_cur));
        assert(old_out + seq![old_cur + split_v(s@.skip(n as int), sep)[0]] + split_v(
            s@.skip(n as int),
            sep,
        ).drop_first() =~= old_out.push(old_cur));
    }
    out
}

/// What `str::splitn(2, sep)` yields when the separator occurs: the
/// part before its first occurrence and everything after it.
pub open spec fn split_once_v(s: Seq<char>, sep: char) -> Option<(Seq<char>, Seq<char>)>
    decreases s.len(),
{
    if s.len() == 0 {
        None
    } else if s[0] == sep {
        Some((Seq::<char>::empty(), s.drop_first()))
    } else {
        match split_once_v(s.drop_first(), sep) {
            None => None,
            Some((a, b)) => Some((seq![s[0]] + a, b)),
        }
    }
}

/// Splitting `a ++ sep ++ b` once, where `a` is free of the separator,
/// yields exactly `(a, b)`.
pub proof fn lemma_split_once_concat(a: Seq<char>, b: Seq<char>, sep: char)
    requires
        !a.contains(sep),
    ensures
        split_once_v(a + seq![sep] + b, sep) == Some((a, b)),
    decreases a.len(),
{
    let s = a + seq![sep] + b;
    if a.len() == 0 {
        assert(s[0] == sep);
        assert(s.drop_first() =~= b);
        assert(Seq::<char>::empty() =~= a);
    } else {
        assert(s[0] == a[0]);
        assert(s[0] != sep);
        assert(!a.drop_first().contains(sep)) by {
            assert(forall|i: int|
                0 <= i < a.drop_first().len() ==> a.drop_first()[i] == a[i + 1]);
        }
        lemma_split_once_concat(a.drop_first(), b, sep);
        assert(s.drop_first() =~= a.drop_first() + seq![sep] + b);
        assert(seq![a[0]] + a.drop_first() =~= a);
    }
}

/// `str::splitn(2, sep)` over a character vector: the part before the
/// first separator and the rest, or nothing when the separator is
/// absent.
pub fn split_once_chars(s: &Vec<char>, sep: char) -> (r: Option<(Vec<char>, Vec<char>)>)
    ensures
        match r {
            Some(p) => split_once_v(s@, sep) == Some((p.0@, p.1@)),
            None => split_once_v(s@, sep) is None,
        },
{
    let n = s.len();
    let mut i: usize = 0;
    while i < n && s[i] != sep
        invariant
            0 <= i <= n == s.len(),
            forall|k: int| 0 <= k < i ==> s@[k] != sep,
        decreases n - i,
    {
        i = i + 1;
    }
    if i == n {
        proof {
            assert(!s@.contains(sep));
            lemma_split_once_no_sep(s@, sep);
        }
        None
    } else {
        let mut before: Vec<char> = Vec::new();
        let mut k: usize = 0;
        while k < i
            invariant
                0 <= k <= i < s.len(),
                before@ == s@.subrange(0, k as int),
            decreases i - k,
        {
            before.push(s[k]);
            proof {
                assert(before@ =~= s@.subrange(0, k + 1));
            }
            k = k + 1;
        }
        let mut after: Vec<char> = Vec::new();
        let mut j: usize = i + 1;
        while j < n
            invariant
                i < j <= n == s.len(),
                after@ == s@.subrange(i + 1, j as int),
            decreases n - j,
        {
            after.push(s[j]);
            proof {
                assert(after@ =~= s@.subrange(i + 1, j + 1));
            }
            j = j + 1;
        }
        proof {
            assert(!before@.contains(sep)) by {
                assert(forall|k: int| 0 <= k < i ==> s@.subrange(0, i as int)[k] == s@[k]);
            }
            assert(before@ + seq![sep] + after@ =~= s@);
            lemma_split_once_concat(before@, after@, sep);
        }
        Some((before, after))
    }
}

/// A successful single split decomposes the sequence around the first
/// separator; the part before it is free of the separator.
pub proof fn lemma_split_once_parts(s: Seq<char>, sep: char)
    requires
        split_once_v(s, sep) is Some,
    ensures
        s == split_once_v(s, sep)->Some_0.0 + seq![sep] + split_once_v(s, sep)->Some_0.1,
        !(split_once_v(s, sep)->Some_0.0).contains(sep),
    decreases s.len(),
{
    let (a, b) = split_once_v(s, sep)->Some_0;
    if s[0] == sep {
        assert(a =~= Seq::<char>::empty());
        assert(s =~= a + seq![sep] + b);
    } else {
        lemma_split_once_parts(s.drop_first(), sep);
        let (a2, b2) = split_once_v(s.drop_first(), sep)->Some_0;
        assert(a == seq![s[0]] + a2);
        assert(b == b2);
        assert(s.drop_first() == a2 + seq![sep] + b2);
        assert(s =~= seq![s[0]] + s.drop_first());
        assert(seq![s[0]] + (a2 + seq![sep] + b2) =~= (seq![s[0]] + a2) + seq![sep] + b2);
        assert(s =~= a + seq![sep] + b);
        assert(forall|i: int| 0 <= i < a2.len() ==> a[i + 1] == a2[i]);
        assert(a[0] == s[0]);
        assert(!a.contains(sep));
    }
}

/// No piece of a split contains the separator.
pub proof fn lemma_split_pieces(s: Seq<char>, sep: char)
    ensures
        forall|i: int|
            0 <= i < split_v(s, sep).len() ==> !(#[trigger] split_v(s, sep)[i]).contains(sep),
    decreases s.len(),
{
    let r = split_v(s, sep);
    if s.len() == 0 {
        assert(r[0].len() == 0);
        assert(!r[0].contains(sep));
    } else if s[0] == sep {
        lemma_split_pieces(s.drop_first(), sep);
        let r2 = split_v(s.drop_first(), sep);
        assert(forall|i: int| 0 <= i < r2.len() ==> r[i + 1] == r2[i]);
        assert(r[0].len() == 0);
        assert(!r[0].contains(sep));
        assert(forall|i: int| 1 <= i < r.len() ==> !(#[trigger] r[i]).contains(sep));
    } else {
        lemma_split_pieces(s.drop_first(), sep);
        let r2 = split_v(s.drop_first(), sep);
        lemma_split_len(s.drop_first(), sep);
        assert(r[0] == seq![s[0]] + r2[0]);
        assert(!r[0].contains(sep)) by {
            assert(r[0][0] == s[0]);
            assert(forall|i: int| 0 <= i < r2[0].len() ==> r[0][i + 1] == r2[0][i]);
        }
        let r2tail = r2.drop_first();
        assert(forall|i: int| 0 <= i < r2tail.len() ==> #[trigger] r2tail[i] == r2[i + 1]);
        assert(forall|i: int| 1 <= i < r.len() ==> r[i] == r2tail[i - 1]);
    }
}

/// Splitting a join of separator-free pieces yields the pieces back.
pub proof fn lemma_split_join(pieces: Seq<Seq<char>>, sep: char)
    requires
        pieces.len() >= 1,
        forall|i: int| 0 <= i < pieces.len() ==> !(#[trigger] pieces[i]).contains(sep),
    ensures
        split_v(join_v(pieces, seq![sep]), sep) == pieces,
    decreases pieces.len(),
{
    if pieces.len() == 1 {
        lemma_split_no_sep(pieces[0], sep);
        assert(seq![pieces[0]] =~= pieces);
    } else {
        let rest = pieces.drop_first();
        assert(forall|i: int| 0 <= i < rest.len() ==> rest[i] == pieces[i + 1]);
        lemma_split_join(rest, sep);
        assert(join_v(pieces, seq![sep]) == pieces[0] + seq![sep] + join_v(rest, seq![sep]));
        lemma_split_concat(pieces[0], join_v(rest, seq![sep]), sep);
        assert(seq![pieces[0]] + rest =~= pieces);
    }
}

proof fn lemma_split_once_no_sep(s: Seq<char>, sep: char)
    requires
        !s.contains(sep),
    ensures
        split_once_v(s, sep) is None,
    decreases s.len(),
{
    if s.len() > 0 {
        assert(s[0] != sep);
        assert(forall|i: int| 0 <= i < s.drop_first().len() ==> s.drop_first()[i] == s[i + 1]);
        assert(!s.drop_first().contains(sep));
        lemma_split_once_no_sep(s.drop_first(), sep);
    }
}

/// Equality of two character vectors.
pub fn chars_eq(a: &Vec<char>, b: &Vec<char>) -> (r: bool)
    ensures
        r == (a@ == b@),
{
    let na = a.len();
    if na != b.len() {
        return false;
    }
    let mut i: usize = 0;
    while i < na
        invariant
            0 <= i <= na == a.len(),
            na == b.len(),
            forall|k: int| 0 <= k < i ==> a@[k] == b@[k],
        decreases na - i,
    {
        if a[i] != b[i] {
            return false;
        }
        i = i + 1;
    }
    proof {
        assert(a@ =~= b@);
    }
    true
}

/// `str::contains(c)` over a character vector.
pub fn contains_char(s: &Vec<char>, c: char) -> (r: bool)
    ensures
        r == s@.contains(c),
{
    let n = s.len();
    let mut i: usize = 0;
    while i < n
        invariant
            0 <= i <= n == s.len(),
            forall|k: int| 0 <= k < i ==> s@[k] != c,
        decreases n - i,
    {
        if s[i] == c {
            return true;
        }
        i = i + 1;
    }
    false
}

/// The characters of a string slice, in order.
pub fn chars_of(s: &str) -> (r: Vec<char>)
    ensures
        r@ == s@,
{
    let mut r: Vec<char> = Vec::new();
    let mut w = VerusForLoopWrapper::new(s.chars(), Ghost(None));
    loop
        invariant
            w.wf(),
            r@ == w.history(),
            w.seq() == s@,
            w.iter.decrease() is Some,
        ensures
            r@ == s@,
        decreases w.iter.decrease()->0,
    {
        match w.next() {
            Some(c) => {
                r.push(c);
            },
            None => {
                proof {
                    assert(w.history() =~= w.seq());
                }
                break ;
            },
        }
    }
    r
}

/// A string with exactly the given characters.
///
/// Relies on `String: FromIterator<char>`: collecting characters yields
/// the string of those characters, in order.
#[verifier::external_body]
pub fn string_from_chars(cs: &Vec<char>) -> (r: String)
    ensures
        r@ == cs@,
{
    cs.iter().collect()
}

pub open spec fn is_digit(c: char) -> bool {
    48 <= c as u32 <= 57
}

pub open spec fn digit_val(c: char) -> int {
    c as u32 - 48
}

pub open spec fn all_digits(s: Seq<char>) -> bool {
    forall|i: int| 0 <= i < s.len() ==> is_digit(s[i])
}

/// The number denoted by a sequence of decimal digits.
pub open spec fn digits_val(s: Seq<char>) -> int
    decreases s.len(),
{
    if s.len() == 0 {
        0
    } else {
        digits_val(s.drop_last()) * 10 + digit_val(s.last())
    }
}

/// What `u32::from_str` accepts and returns: an optional leading `+`,
/// then at least one decimal digit, and a value that fits in a `u32`.
pub open spec fn parse_u32_v(s: Seq<char>) -> Option<u32> {
    let t = if s.len() > 0 && s[0] == '+' {
        s.drop_first()
    } else {
        s
    };
    if t.len() > 0 && all_digits(t) && digits_val(t) <= u32::MAX {
        Some(digits_val(t) as u32)
    } else {
        None
    }
}

pub proof fn lemma_digits_val_nonneg(s: Seq<char>)
    requires
        all_digits(s),
    ensures
        digits_val(s) >= 0,
    decreases s.len(),
{
    if s.len() > 0 {
        assert(forall|i: int|
            0 <= i < s.drop_last().len() ==> s.drop_last()[i] == s[i]);
        lemma_digits_val_nonneg(s.drop_last());
    }
}

proof fn lemma_digits_val_prefix_le(s: Seq<char>, j: int)
    requires
        all_digits(s),
        0 <= j <= s.len(),
    ensures
        digits_val(s.take(j)) <= digits_val(s),
    decreases s.len() - j,
{
    if j == s.len() {
        assert(s.take(j) =~= s);
    } else {
        assert(forall|i: int|
            0 <= i < s.take(j + 1).len() ==> s.take(j + 1)[i] == s[i]);
        assert(s.take(j + 1).drop_last() =~= s.take(j));
        lemma_digits_val_nonneg(s.take(j + 1));
        lemma_digits_val_nonneg(s.take(j));
        assert(digits_val(s.take(j + 1)) == digits_val(s.take(j)) * 10 + digit_val(s[j]));
        lemma_digits_val_prefix_le(s, j + 1);
    }
}

/// `u32::from_str` over a character vector.
pub fn parse_u32_chars(s: &Vec<char>) -> (r: Option<u32>)
    ensures
        r == parse_u32_v(s@),
{
    let n = s.len();
    let start: usize = if n > 0 && s[0] == '+' {
        1
    } else {
        0
    };
    let ghost t = if start == 1 {
        s@.drop_first()
    } else {
        s@
    };
    proof {
        if start == 1 {
            assert(t =~= s@.skip(1));
        } else {
            assert(t =~= s@.skip(0));
        }
    }
    if start == n {
        return None;
    }
    let mut val: u64 = 0;
    let mut j = start;
    while j < n
        invariant
            start <= j <= n == s.len(),
            start == if s@.len() > 0 && s@[0] == '+' { 1int } else { 0int },
            t == if s@.len() > 0 && s@[0] == '+' { s@.drop_first() } else { s@ },
            t == s@.skip(start as int),
            n - start == t.len(),
            all_digits(t.take(j - start)),
            val <= u32::MAX,
            val == digits_val(t.take(j - start)),
        decreases n - j,
    {
        let cu = s[j] as u32;
        if cu < 48 || cu > 57 {
            assert(!is_digit(s@[j as int]));
            assert(t[j - start] == s@[j as int]);
            return None;
        }
        let d = (cu - 48) as u64;
        proof {
            assert(t.take(j - start + 1).drop_last() =~= t.take(j - start));
            assert(t.take(j - start + 1).last() == s@[j as int]);
        }
        let next = val * 10 + d;
        if next > u32::MAX as u64 {
            proof {
                let k = j - start + 1;
                assert(digits_val(t.take(k)) > u32::MAX);
                if all_digits(t) {
                    lemma_digits_val_prefix_le(t, k);
                }
            }
            return None;
        }
        val = next;
        j = j + 1;
    }
    proof {
        assert(t.take(n - start) =~= t);
    }
    Some(val as u32)
}

pub open spec fn digit_char(d: int) -> char {
    if d == 0 {
        '0'
    } else if d == 1 {
        '1'
    } else if d == 2 {
        '2'
    } else if d == 3 {
        '3'
    } else if d == 4 {
        '4'
    } else if d == 5 {
        '5'
    } else if d == 6 {
        '6'
    } else if d == 7 {
        '7'
    } else if d == 8 {
        '8'
    } else {
        '9'
    }
}

/// The canonical decimal rendering of a `u32`, as `u32`'s `Display`
/// writes it: no sign, no leading zeros.
pub open spec fn u32_digits_v(n: u32) -> Seq<char>
    decreases n,
{
    if n < 10 {
        seq![digit_char(n as int)]
    } else {
        u32_digits_v(n / 10) + seq![digit_char((n % 10) as int)]
    }
}

pub proof fn lemma_u32_digits_are_digits(n: u32)
    ensures
        all_digits(u32_digits_v(n)),
        u32_digits_v(n).len() >= 1,
    decreases n,
{
    if n < 10 {
        assert(is_digit(digit_char(n as int)));
    } else {
        lemma_u32_digits_are_digits(n / 10);
        assert(is_digit(digit_char((n % 10) as int)));
    }
}

/// Parsing the canonical decimal rendering of a number yields the
/// number back.
pub proof fn lemma_u32_digits_val(n: u32)
    ensures
        digits_val(u32_digits_v(n)) == n,
    decreases n,
{
    assert('0' as u32 == 48 && '1' as u32 == 49 && '2' as u32 == 50 && '3' as u32 == 51
        && '4' as u32 == 52 && '5' as u32 == 53 && '6' as u32 == 54 && '7' as u32 == 55
        && '8' as u32 == 56 && '9' as u32 == 57);
    if n < 10 {
        assert(u32_digits_v(n).drop_last() =~= Seq::<char>::empty());
        assert(digits_val(Seq::<char>::empty()) == 0);
        assert(u32_digits_v(n).last() == digit_char(n as int));
        assert(digit_val(digit_char(n as int)) == n);
    } else {
        lemma_u32_digits_val(n / 10);
        let s = u32_digits_v(n);
        assert(s.drop_last() =~= u32_digits_v(n / 10));
        assert(s.last() == digit_char((n % 10) as int));
        assert(digit_val(digit_char((n % 10) as int)) == n % 10);
    }
}

pub proof fn lemma_parse_u32_round_trip(n: u32)
    ensures
        parse_u32_v(u32_digits_v(n)) == Some(n),
{
    lemma_u32_digits_are_digits(n);
    lemma_u32_digits_val(n);
    let s = u32_digits_v(n);
    assert(is_digit(s[0]));
    assert(s[0] != '+') by {
        assert('+' as u32 == 43);
    }
}

/// `u32`'s `Display` over a character vector.
pub fn u32_to_chars(n: u32) -> (r: Vec<char>)
    ensures
        r@ == u32_digits_v(n),
    decreases n,
{
    let d = n % 10;
    let c: char = if d == 0 {
        '0'
    } else if d == 1 {
        '1'
    } else if d == 2 {
        '2'
    } else if d == 3 {
        '3'
    } else if d == 4 {
        '4'
    } else if d == 5 {
        '5'
    } else if d == 6 {
        '6'
    } else if d == 7 {
        '7'
    } else if d == 8 {
        '8'
    } else {
        '9'
    };
    if n < 10 {
        let mut r: Vec<char> = Vec::new();
        r.push(c);
        proof {
            assert(r@ =~= u32_digits_v(n));
        }
        r
    } else {
        let mut r = u32_to_chars(n / 10);
        r.push(c);
        proof {
            assert(r@ =~= u32_digits_v(n));
        }
        r
    }
}

/// The pieces joined with the separator between adjacent pieces, as
/// `[T]::join` builds it.
pub open spec fn join_v(pieces: Seq<Seq<char>>, sep: Seq<char>) -> Seq<char>
    decreases pieces.len(),
{
    if pieces.len() == 0 {
        Seq::<char>::empty()
    } else if pieces.len() == 1 {
        pieces[0]
    } else {
        pieces[0] + sep + join_v(pieces.drop_first(), sep)
    }
}

pub proof fn lemma_join_push(pieces: Seq<Seq<char>>, x: Seq<char>, sep: Seq<char>)
    ensures
        join_v(pieces.push(x), sep) == if pieces.len() == 0 {
            x
        } else {
            join_v(pieces, sep) + sep + x
        },
    decreases pieces.len(),
{
    let p = pieces.push(x);
    if pieces.len() == 0 {
        assert(p.len() == 1);
        assert(p[0] == x);
    } else {
        assert(p.len() >= 2);
        assert(p[0] == pieces[0]);
        assert(p.drop_first() =~= pieces.drop_first().push(x));
        lemma_join_push(pieces.drop_first(), x, sep);
        if pieces.len() == 1 {
            assert(pieces.drop_first().len() == 0);
            assert(join_v(p, sep) == p[0] + sep + x);
            assert(join_v(pieces, sep) == pieces[0]);
        } else {
            assert(join_v(p, sep) == p[0] + sep + (join_v(pieces.drop_first(), sep) + sep
                + x));
            assert(p[0] + sep + (join_v(pieces.drop_first(), sep) + sep + x) =~= (pieces[0]
                + sep + join_v(pieces.drop_first(), sep)) + sep + x);
        }
    }
}

/// `Vec<String>::join(sep)`: the items with the separator between
/// adjacent items.
pub fn join_strings(items: &Vec<String>, sep: &str) -> (r: String)
    ensures
        r@ == join_v(items.deep_view(), sep@),
{
    let mut r = String::new();
    let n = items.len();
    let mut i: usize = 0;
    proof {
        assert(items.deep_view().take(0) =~= Seq::<Seq<char>>::empty());
    }
    while i < n
        invariant
            0 <= i <= n == items.len(),
            n == items.deep_view().len(),
            r@ == join_v(items.deep_view().take(i as int), sep@),
        decreases n - i,
    {
        let ghost dv = items.deep_view();
        if i > 0 {
            r.append(sep);
        }
        r.append(items[i].as_str());
        proof {
            assert(items[i as int]@ == dv[i as int]);
            assert(dv.take(i + 1) =~= dv.take(i as int).push(dv[i as int]));
            lemma_join_push(dv.take(i as int), dv[i as int], sep@);
        }
        i = i + 1;
    }
    proof {
        assert(items.deep_view().take(n as int) =~= items.deep_view());
    }
    r
}

/// Strict lexicographic order on character sequences by code point:
/// the order `str`'s `Ord` gives.
pub open spec fn lex_lt(a: Seq<char>, b: Seq<char>) -> bool
    decreases a.len(),
{
    if b.len() == 0 {
        false
    } else if a.len() == 0 {
        true
    } else if (a[0] as u32) != (b[0] as u32) {
        (a[0] as u32) < (b[0] as u32)
    } else {
        lex_lt(a.drop_first(), b.drop_first())
    }
}

/// Two sequences that neither order strictly below the other are equal.
pub proof fn lemma_lex_connex(a: Seq<char>, b: Seq<char>)
    requires
        !lex_lt(a, b),
        !lex_lt(b, a),
    ensures
        a == b,
    decreases a.len(),
{
    if b.len() == 0 {
        assert(a =~= b);
    } else if a.len() == 0 {
        assert(lex_lt(a, b));
    } else {
        if (a[0] as u32) == (b[0] as u32) {
            assert(a[0] == b[0]) by {
                vstd::utf8::char_u32_cast(a[0], a[0] as u32);
                vstd::utf8::char_u32_cast(b[0], b[0] as u32);
            }
            lemma_lex_connex(a.drop_first(), b.drop_first());
            assert(a =~= seq![a[0]] + a.drop_first());
            assert(seq![a[0]] + a.drop_first() =~= seq![b[0]] + b.drop_first());
            assert(a =~= b);
        }
    }
}

/// Strict lexicographic comparison of two character vectors.
pub fn chars_lt(a: &Vec<char>, b: &Vec<char>) -> (r: bool)
    ensures
        r == lex_lt(a@, b@),
{
    let na = a.len();
    let nb = b.len();
    let mut i: usize = 0;
    proof {
        assert(a@.skip(0) =~= a@);
        assert(b@.skip(0) =~= b@);
    }
    loop
        invariant
            0 <= i <= na == a.len(),
            i <= nb == b.len(),
            lex_lt(a@, b@) == lex_lt(a@.skip(i as int), b@.skip(i as int)),
        ensures
            (i == na || i == nb || a[i as int] as u32 != b[i as int] as u32),
            lex_lt(a@, b@) == lex_lt(a@.skip(i as int), b@.skip(i as int)),
        decreases na - i,
    {
        if i == na || i == nb {
            break;
        }
        let ca = a[i] as u32;
        let cb = b[i] as u32;
        if ca != cb {
            break;
        }
        proof {
            let sa = a@.skip(i as int);
            let sb = b@.skip(i as int);
            assert(sa[0] == a@[i as int]);
            assert(sb[0] == b@[i as int]);
            assert(sa.drop_first() =~= a@.skip(i + 1));
            assert(sb.drop_first() =~= b@.skip(i + 1));
        }
        i = i + 1;
    }
    proof {
        let sa = a@.skip(i as int);
        let sb = b@.skip(i as int);
        if i == na {
            assert(sa =~= Seq::<char>::empty());
        } else if i == nb {
            assert(sb =~= Seq::<char>::empty());
        } else {
            assert(sa[0] == a@[i as int]);
            assert(sb[0] == b@[i as int]);
        }
    }
    if i == na {
        i < nb
    } else if i == nb {
        false
    } else {
        (a[i] as u32) < (b[i] as u32)
    }
}

} // verus!
