//! Token utilities: splitting a comma-delimited field list into a
//! key-to-value mapping (for `key=value` tokens) and an ordered list of
//! bare tokens.  The mapping is kept as an association list sorted
//! strictly ascending by key, so iteration order is lexicographic by
//! key and keys are unique.
use vstd::prelude::*;

use crate::text::{
    chars_lt, chars_of, contains_char, lemma_lex_connex, lemma_split_once_parts,
    lemma_trim_subset, lemma_trim_trimmed, lex_lt, split_once_chars, split_once_v,
    string_from_chars, trim_chars, trim_v, trimmed,
};

verus! {

/// The key/value pair a token denotes, when the token holds exactly
/// one `=`: both sides of the `=`, trimmed.  Tokens without `=` or
/// with more than one `=` denote no pair.
pub open spec fn param_of_token(tok: Seq<char>) -> Option<(Seq<char>, Seq<char>)> {
    match split_once_v(tok, '=') {
        None => None,
        Some((a, b)) => if b.contains('=') {
            None
        } else {
            Some((trim_v(a), trim_v(b)))
        },
    }
}

/// The mapping with `k` bound to `v`: an existing binding of `k` is
/// replaced in place, a new key is inserted at its sorted position.
pub open spec fn upsert_param(
    ps: Seq<(Seq<char>, Seq<char>)>,
    k: Seq<char>,
    v: Seq<char>,
) -> Seq<(Seq<char>, Seq<char>)>
    decreases ps.len(),
{
    if ps.len() == 0 {
        seq![(k, v)]
    } else if k == ps[0].0 {
        seq![(k, v)] + ps.drop_first()
    } else if lex_lt(k, ps[0].0) {
        seq![(k, v)] + ps
    } else {
        seq![ps[0]] + upsert_param(ps.drop_first(), k, v)
    }
}

/// The mapping the tokens denote: each `key=value` token inserted in
/// order, so a later binding of a duplicate key wins.
pub open spec fn params_fold(tokens: Seq<Seq<char>>) -> Seq<(Seq<char>, Seq<char>)>
    decreases tokens.len(),
{
    if tokens.len() == 0 {
        Seq::<(Seq<char>, Seq<char>)>::empty()
    } else {
        let prev = params_fold(tokens.drop_last());
        match param_of_token(tokens.last()) {
            Some(kv) => upsert_param(prev, kv.0, kv.1),
            None => prev,
        }
    }
}

/// The ordered list of bare tokens: those without `=`, trimmed.
pub open spec fn bare_tokens_v(tokens: Seq<Seq<char>>) -> Seq<Seq<char>>
    decreases tokens.len(),
{
    if tokens.len() == 0 {
        Seq::<Seq<char>>::empty()
    } else {
        let prev = bare_tokens_v(tokens.drop_last());
        if tokens.last().contains('=') {
            prev
        } else {
            prev + seq![trim_v(tokens.last())]
        }
    }
}

/// The value bound to `k` in the association list, if any.
pub open spec fn assoc_get(ps: Seq<(Seq<char>, Seq<char>)>, k: Seq<char>) -> Option<Seq<char>>
    decreases ps.len(),
{
    if ps.len() == 0 {
        None
    } else if ps[0].0 == k {
        Some(ps[0].1)
    } else {
        assoc_get(ps.drop_first(), k)
    }
}

/// Keys strictly ascending: sorted, hence unique.
pub open spec fn params_sorted(ps: Seq<(Seq<char>, Seq<char>)>) -> bool {
    forall|i: int| 0 <= i && i + 1 < ps.len() ==> lex_lt(ps[i].0, #[trigger] ps[i + 1].0)
}

proof fn lemma_upsert_skip(ps: Seq<(Seq<char>, Seq<char>)>, k: Seq<char>, v: Seq<char>, j: int)
    requires
        0 <= j <= ps.len(),
        forall|m: int| 0 <= m < j ==> lex_lt(#[trigger] ps[m].0, k),
    ensures
        upsert_param(ps, k, v) == ps.take(j) + upsert_param(ps.skip(j), k, v),
    decreases j,
{
    if j == 0 {
        assert(ps.skip(0) =~= ps);
        assert(ps.take(0) + upsert_param(ps, k, v) =~= upsert_param(ps, k, v));
    } else {
        assert(lex_lt(ps[0].0, k));
        assert(k != ps[0].0) by {
            if k == ps[0].0 {
                lemma_lex_irrefl(ps[0].0);
            }
        }
        assert(!lex_lt(k, ps[0].0)) by {
            lemma_lex_asym(ps[0].0, k);
        }
        assert(upsert_param(ps, k, v) == seq![ps[0]] + upsert_param(ps.drop_first(), k, v));
        assert(forall|m: int|
            0 <= m < j - 1 ==> lex_lt(#[trigger] ps.drop_first()[m].0, k));
        lemma_upsert_skip(ps.drop_first(), k, v, j - 1);
        assert(ps.drop_first().take(j - 1) =~= ps.take(j).drop_first());
        assert(ps.drop_first().skip(j - 1) =~= ps.skip(j));
        assert(seq![ps[0]] + (ps.take(j).drop_first() + upsert_param(ps.skip(j), k, v))
            =~= ps.take(j) + upsert_param(ps.skip(j), k, v));
    }
}

pub proof fn lemma_lex_irrefl(a: Seq<char>)
    ensures
        !lex_lt(a, a),
    decreases a.len(),
{
    if a.len() > 0 {
        lemma_lex_irrefl(a.drop_first());
    }
}

pub proof fn lemma_lex_asym(a: Seq<char>, b: Seq<char>)
    requires
        lex_lt(a, b),
    ensures
        !lex_lt(b, a),
    decreases a.len(),
{
    if a.len() > 0 && b.len() > 0 && (a[0] as u32) == (b[0] as u32) {
        lemma_lex_asym(a.drop_first(), b.drop_first());
    }
}

/// Replacing or inserting a binding keeps the keys strictly sorted.
pub proof fn lemma_upsert_sorted(ps: Seq<(Seq<char>, Seq<char>)>, k: Seq<char>, v: Seq<char>)
    requires
        params_sorted(ps),
    ensures
        params_sorted(upsert_param(ps, k, v)),
        forall|m: int|
            0 <= m < upsert_param(ps, k, v).len() ==> (#[trigger] upsert_param(ps, k, v)[m].0
                == k || exists|n: int|
                0 <= n < ps.len() && upsert_param(ps, k, v)[m].0 == #[trigger] ps[n].0),
    decreases ps.len(),
{
    let r = upsert_param(ps, k, v);
    if ps.len() == 0 {
    } else if k == ps[0].0 {
        assert(r =~= seq![(k, v)] + ps.drop_first());
        assert(forall|i: int| 0 <= i && i + 1 < ps.len() ==> lex_lt(ps[i].0, #[trigger] ps[i
            + 1].0));
        assert(forall|m: int|
            0 <= m < ps.drop_first().len() ==> #[trigger] ps.drop_first()[m] == ps[m + 1]);
    } else if lex_lt(k, ps[0].0) {
        let rr = seq![(k, v)] + ps;
        assert(r == rr);
        assert forall|i: int| 0 <= i && i + 1 < rr.len() implies lex_lt(rr[i].0, #[trigger] rr[i
            + 1].0) by {
            if i == 0 {
                assert(rr[0].0 == k);
                assert(rr[1].0 == ps[0].0);
            } else {
                assert(rr[i] == ps[i - 1]);
                assert(rr[i + 1] == ps[i]);
                assert(lex_lt(ps[i - 1].0, ps[(i - 1) + 1].0));
            }
        }
    } else {
        assert(lex_lt(ps[0].0, k)) by {
            if !lex_lt(ps[0].0, k) {
                lemma_lex_connex(k, ps[0].0);
            }
        }
        assert(forall|m: int|
            0 <= m < ps.drop_first().len() ==> #[trigger] ps.drop_first()[m] == ps[m + 1]);
        lemma_upsert_sorted(ps.drop_first(), k, v);
        let r2 = upsert_param(ps.drop_first(), k, v);
        assert(r == seq![ps[0]] + r2);
        assert(r2.len() > 0 ==> (r2[0].0 == k || exists|n: int|
            0 <= n < ps.drop_first().len() && r2[0].0 == #[trigger] ps.drop_first()[n].0));
        assert(lex_lt(ps[0].0, r2[0].0)) by {
            lemma_upsert_len(ps.drop_first(), k, v);
            if r2[0].0 != k {
                let tail = ps.drop_first();
                let n = choose|n: int| 0 <= n < tail.len() && r2[0].0 == #[trigger] tail[n].0;
                if n > 0 {
                    lemma_sorted_chain(ps, 0, n + 1);
                }
            }
        }
        assert(forall|i: int| 0 <= i < r2.len() ==> #[trigger] r[i + 1] == r2[i]);
        assert forall|i: int| 0 <= i && i + 1 < r.len() implies lex_lt(
            r[i].0,
            #[trigger] r[i + 1].0,
        ) by {
            assert(r[i + 1] == r2[i]);
            if i == 0 {
                assert(r[0] == ps[0]);
            } else {
                assert(r[i] == r2[i - 1]);
                assert(lex_lt(r2[i - 1].0, r2[(i - 1) + 1].0));
            }
        }
    }
}

pub proof fn lemma_upsert_len(ps: Seq<(Seq<char>, Seq<char>)>, k: Seq<char>, v: Seq<char>)
    ensures
        upsert_param(ps, k, v).len() >= 1,
        upsert_param(ps, k, v).len() <= ps.len() + 1,
    decreases ps.len(),
{
    if ps.len() > 0 && k != ps[0].0 && !lex_lt(k, ps[0].0) {
        lemma_upsert_len(ps.drop_first(), k, v);
    }
}

/// In a sorted list every later key is above every earlier one.
pub proof fn lemma_sorted_chain(ps: Seq<(Seq<char>, Seq<char>)>, i: int, j: int)
    requires
        params_sorted(ps),
        0 <= i < j < ps.len(),
    ensures
        lex_lt(ps[i].0, ps[j].0),
    decreases j - i,
{
    if j > i + 1 {
        lemma_sorted_chain(ps, i, j - 1);
        assert(lex_lt(ps[j - 1].0, ps[j].0)) by {
            assert(ps[j].0 == ps[(j - 1) + 1].0);
        }
        lemma_lex_trans(ps[i].0, ps[j - 1].0, ps[j].0);
    }
}

pub proof fn lemma_lex_trans(a: Seq<char>, b: Seq<char>, c: Seq<char>)
    requires
        lex_lt(a, b),
        lex_lt(b, c),
    ensures
        lex_lt(a, c),
    decreases a.len() + b.len() + c.len(),
{
    if b.len() > 0 && c.len() > 0 {
        if a.len() > 0 {
            if (a[0] as u32) == (b[0] as u32) && (b[0] as u32) == (c[0] as u32) {
                lemma_lex_trans(a.drop_first(), b.drop_first(), c.drop_first());
            }
        }
    }
}

/// The mapping of any token list has strictly sorted, unique keys.
pub proof fn lemma_params_fold_sorted(tokens: Seq<Seq<char>>)
    ensures
        params_sorted(params_fold(tokens)),
    decreases tokens.len(),
{
    if tokens.len() > 0 {
        lemma_params_fold_sorted(tokens.drop_last());
        match param_of_token(tokens.last()) {
            Some(kv) => {
                lemma_upsert_sorted(params_fold(tokens.drop_last()), kv.0, kv.1);
            },
            None => {},
        }
    }
}

/// A parameter pair as the grammar can reproduce it: no separator
/// characters inside, both sides trimmed.
pub open spec fn param_wf(kv: (Seq<char>, Seq<char>)) -> bool {
    &&& !kv.0.contains(',')
    &&& !kv.0.contains('=')
    &&& trimmed(kv.0)
    &&& !kv.1.contains(',')
    &&& !kv.1.contains('=')
    &&& trimmed(kv.1)
}

/// Every entry of an upsert is the new pair or one of the old ones.
pub proof fn lemma_upsert_members(ps: Seq<(Seq<char>, Seq<char>)>, k: Seq<char>, v: Seq<char>)
    ensures
        forall|m: int|
            0 <= m < upsert_param(ps, k, v).len() ==> (#[trigger] upsert_param(ps, k, v)[m]
                == (k, v) || ps.contains(upsert_param(ps, k, v)[m])),
    decreases ps.len(),
{
    let r = upsert_param(ps, k, v);
    if ps.len() == 0 {
    } else if k == ps[0].0 {
        assert(forall|m: int|
            0 <= m < ps.drop_first().len() ==> #[trigger] ps.drop_first()[m] == ps[m + 1]);
        assert(forall|m: int| 1 <= m < r.len() ==> r[m] == ps[m]);
    } else if lex_lt(k, ps[0].0) {
        assert(forall|m: int| 1 <= m < r.len() ==> r[m] == ps[m - 1]);
    } else {
        lemma_upsert_members(ps.drop_first(), k, v);
        let r2 = upsert_param(ps.drop_first(), k, v);
        assert(r == seq![ps[0]] + r2);
        assert(forall|m: int| 0 <= m < r2.len() ==> #[trigger] r2[m] == r[m + 1]);
        assert(forall|m: int|
            0 <= m < ps.drop_first().len() ==> #[trigger] ps.drop_first()[m] == ps[m + 1]);
        assert(r[0] == ps[0]);
        assert(ps.contains(r[0]));
        assert forall|m: int| 1 <= m < r.len() implies (r[m] == (k, v) || ps.contains(
            r[m],
        )) by {
            assert(r[m] == r2[m - 1]);
            if r2[m - 1] != (k, v) {
                let n = choose|n: int|
                    0 <= n < ps.drop_first().len() && ps.drop_first()[n] == r2[m - 1];
                assert(ps[n + 1] == r2[m - 1]);
            }
        }
    }
}

/// Every entry of the mapping of comma-free tokens is well formed.
pub proof fn lemma_params_fold_wf(tokens: Seq<Seq<char>>)
    requires
        forall|i: int| 0 <= i < tokens.len() ==> !(#[trigger] tokens[i]).contains(','),
    ensures
        forall|m: int|
            0 <= m < params_fold(tokens).len() ==> param_wf(#[trigger] params_fold(tokens)[m]),
    decreases tokens.len(),
{
    if tokens.len() > 0 {
        assert(forall|i: int|
            0 <= i < tokens.drop_last().len() ==> #[trigger] tokens.drop_last()[i]
                == tokens[i]);
        lemma_params_fold_wf(tokens.drop_last());
        let prev = params_fold(tokens.drop_last());
        let t = tokens.last();
        match param_of_token(t) {
            Some(kv) => {
                let (a, b) = split_once_v(t, '=')->Some_0;
                lemma_split_once_parts(t, '=');
                assert(t == a + seq!['='] + b);
                assert(!a.contains(',')) by {
                    if a.contains(',') {
                        let i = choose|i: int| 0 <= i < a.len() && a[i] == ',';
                        assert(t[i] == ',');
                    }
                }
                assert(!b.contains(',')) by {
                    if b.contains(',') {
                        let i = choose|i: int| 0 <= i < b.len() && b[i] == ',';
                        assert(t[i + a.len() + 1] == ',');
                    }
                }
                lemma_trim_subset(a, ',');
                lemma_trim_subset(a, '=');
                lemma_trim_subset(b, ',');
                lemma_trim_subset(b, '=');
                lemma_trim_trimmed(a);
                lemma_trim_trimmed(b);
                assert(param_wf(kv));
                lemma_upsert_members(prev, kv.0, kv.1);
                assert forall|m: int|
                    0 <= m < params_fold(tokens).len() implies param_wf(
                    #[trigger] params_fold(tokens)[m],
                ) by {
                    let r = params_fold(tokens);
                    if r[m] != kv {
                        assert(prev.contains(r[m]));
                        let n = choose|n: int| 0 <= n < prev.len() && prev[n] == r[m];
                        assert(param_wf(prev[n]));
                    }
                }
            },
            None => {},
        }
    }
}

/// Inserting a key above every present key appends at the end.
pub proof fn lemma_upsert_append(ps: Seq<(Seq<char>, Seq<char>)>, k: Seq<char>, v: Seq<char>)
    requires
        forall|i: int| 0 <= i < ps.len() ==> lex_lt((#[trigger] ps[i]).0, k),
    ensures
        upsert_param(ps, k, v) == ps.push((k, v)),
    decreases ps.len(),
{
    if ps.len() == 0 {
        assert(upsert_param(ps, k, v) =~= ps.push((k, v)));
    } else {
        assert(lex_lt(ps[0].0, k));
        assert(k != ps[0].0) by {
            if k == ps[0].0 {
                lemma_lex_irrefl(ps[0].0);
            }
        }
        assert(!lex_lt(k, ps[0].0)) by {
            lemma_lex_asym(ps[0].0, k);
        }
        assert(forall|i: int|
            0 <= i < ps.drop_first().len() ==> #[trigger] ps.drop_first()[i] == ps[i + 1]);
        lemma_upsert_append(ps.drop_first(), k, v);
        assert(seq![ps[0]] + ps.drop_first().push((k, v)) =~= ps.push((k, v)));
    }
}

/// The mapping holding the given pairs, inserted in order: a later
/// duplicate key wins, keys end up sorted ascending.
pub open spec fn insert_pairs_v(ps: Seq<(Seq<char>, Seq<char>)>) -> Seq<(Seq<char>, Seq<char>)>
    decreases ps.len(),
{
    if ps.len() == 0 {
        Seq::<(Seq<char>, Seq<char>)>::empty()
    } else {
        upsert_param(insert_pairs_v(ps.drop_last()), ps.last().0, ps.last().1)
    }
}

/// The mapping built from any list of pairs has strictly sorted,
/// unique keys: iteration order is lexicographic by key however the
/// mapping was produced.
pub proof fn lemma_insert_pairs_sorted(ps: Seq<(Seq<char>, Seq<char>)>)
    ensures
        params_sorted(insert_pairs_v(ps)),
    decreases ps.len(),
{
    if ps.len() > 0 {
        lemma_insert_pairs_sorted(ps.drop_last());
        lemma_upsert_sorted(insert_pairs_v(ps.drop_last()), ps.last().0, ps.last().1);
    }
}

/// `upsert_param` over an owned vector of string pairs.
pub(crate) fn upsert_param_vec(ps: &mut Vec<(String, String)>, k: String, v: String)
    ensures
        final(ps).deep_view() == upsert_param(old(ps).deep_view(), k@, v@),
{
    let kc = chars_of(k.as_str());
    let n = ps.len();
    let mut j: usize = 0;
    while j < n
        invariant
            0 <= j <= n == ps.len(),
            kc@ == k@,
            forall|m: int| 0 <= m < j ==> lex_lt(#[trigger] ps.deep_view()[m].0, k@),
        ensures
            0 <= j <= n,
            forall|m: int| 0 <= m < j ==> lex_lt(#[trigger] ps.deep_view()[m].0, k@),
            j < n ==> !lex_lt(ps.deep_view()[j as int].0, k@),
        decreases n - j,
    {
        let pc = chars_of(ps[j].0.as_str());
        proof {
            assert(ps.deep_view()[j as int].0 == ps@[j as int].0@);
        }
        if !chars_lt(&pc, &kc) {
            break ;
        }
        j = j + 1;
    }
    let ghost dv = ps.deep_view();
    proof {
        lemma_upsert_skip(dv, k@, v@, j as int);
    }
    if j == n {
        ps.push((k, v));
        proof {
            assert(dv.skip(n as int) =~= Seq::<(Seq<char>, Seq<char>)>::empty());
            assert(dv.take(n as int) =~= dv);
            assert(ps.deep_view() =~~= dv + seq![(k@, v@)]);
        }
    } else {
        proof {
            assert(ps.deep_view()[j as int].0 == ps@[j as int].0@);
            assert(dv.skip(j as int)[0] == dv[j as int]);
        }
        if ps[j].0 == k {
            let ghost old_view = ps@;
            ps.remove(j);
            ps.insert(j, (k, v));
            proof {
                assert(dv.skip(j as int).drop_first() =~= dv.skip(j + 1));
                assert(upsert_param(dv.skip(j as int), k@, v@) == seq![(k@, v@)] + dv.skip(
                    j + 1,
                ));
                assert(ps.deep_view() =~~= dv.take(j as int) + (seq![(k@, v@)] + dv.skip(
                    j + 1,
                )));
            }
        } else {
            proof {
                let pk = dv[j as int].0;
                assert(ps@[j as int].0@ != k@);
                if !lex_lt(k@, pk) {
                    lemma_lex_connex(k@, pk);
                }
                assert(lex_lt(k@, pk));
            }
            ps.insert(j, (k, v));
            proof {
                assert(upsert_param(dv.skip(j as int), k@, v@) == seq![(k@, v@)] + dv.skip(
                    j as int,
                ));
                assert(ps.deep_view() =~~= dv.take(j as int) + (seq![(k@, v@)] + dv.skip(
                    j as int,
                )));
            }
        }
    }
}

/// The key-to-value mapping of a token list, over character vectors.
pub fn params_from_tokens(tokens: &Vec<Vec<char>>) -> (r: Vec<(String, String)>)
    ensures
        r.deep_view() == params_fold(tokens.deep_view()),
{
    let n = tokens.len();
    let mut r: Vec<(String, String)> = Vec::new();
    let mut i: usize = 0;
    proof {
        assert(tokens.deep_view().take(0) =~= Seq::<Seq<char>>::empty());
        assert(r.deep_view() =~= params_fold(tokens.deep_view().take(0)));
    }
    while i < n
        invariant
            0 <= i <= n == tokens.len(),
            n == tokens.deep_view().len(),
            r.deep_view() == params_fold(tokens.deep_view().take(i as int)),
        decreases n - i,
    {
        let ghost dv = tokens.deep_view();
        proof {
            assert(dv.take(i + 1).drop_last() =~= dv.take(i as int));
            assert(dv.take(i + 1).last() == dv[i as int]);
            assert(tokens@[i as int]@ == dv[i as int]);
        }
        match split_once_chars(&tokens[i], '=') {
            Some((a, b)) => {
                if !contains_char(&b, '=') {
                    let kt = trim_chars(&a);
                    let vt = trim_chars(&b);
                    let ks = string_from_chars(&kt);
                    let vs = string_from_chars(&vt);
                    upsert_param_vec(&mut r, ks, vs);
                }
            },
            None => {},
        }
        i = i + 1;
    }
    proof {
        assert(tokens.deep_view().take(n as int) =~= tokens.deep_view());
    }
    r
}

/// The ordered bare tokens of a token list, over character vectors.
pub fn bare_from_tokens(tokens: &Vec<Vec<char>>) -> (r: Vec<String>)
    ensures
        r.deep_view() == bare_tokens_v(tokens.deep_view()),
{
    let n = tokens.len();
    let mut r: Vec<String> = Vec::new();
    let mut i: usize = 0;
    proof {
        assert(tokens.deep_view().take(0) =~= Seq::<Seq<char>>::empty());
        assert(r.deep_view() =~= bare_tokens_v(tokens.deep_view().take(0)));
    }
    while i < n
        invariant
            0 <= i <= n == tokens.len(),
            n == tokens.deep_view().len(),
            r.deep_view() == bare_tokens_v(tokens.deep_view().take(i as int)),
        decreases n - i,
    {
        let ghost dv = tokens.deep_view();
        let ghost old_r = r.deep_view();
        proof {
            assert(dv.take(i + 1).drop_last() =~= dv.take(i as int));
            assert(dv.take(i + 1).last() == dv[i as int]);
            assert(tokens@[i as int]@ == dv[i as int]);
        }
        if !contains_char(&tokens[i], '=') {
            let t = trim_chars(&tokens[i]);
            let s = string_from_chars(&t);
            r.push(s);
            proof {
                assert(r.deep_view() =~~= old_r + seq![trim_v(dv[i as int])]);
            }
        }
        i = i + 1;
    }
    proof {
        assert(tokens.deep_view().take(n as int) =~= tokens.deep_view());
    }
    r
}

/// The key-to-value mapping of `key=value` tokens: both sides trimmed,
/// a later duplicate key replacing an earlier one, keys kept in
/// ascending order.
pub fn params_map_from_strs(entries: &Vec<String>) -> (r: Vec<(String, String)>)
    ensures
        r.deep_view() == params_fold(entries.deep_view()),
{
    let mut tokens: Vec<Vec<char>> = Vec::new();
    let n = entries.len();
    let mut i: usize = 0;
    proof {
        assert(tokens.deep_view() =~= entries.deep_view().take(0));
    }
    while i < n
        invariant
            0 <= i <= n == entries.len(),
            tokens.deep_view() == entries.deep_view().take(i as int),
        decreases n - i,
    {
        let ghost old_dv = tokens.deep_view();
        tokens.push(chars_of(entries[i].as_str()));
        proof {
            assert(tokens.deep_view() =~~= old_dv.push(entries.deep_view()[i as int]));
            assert(old_dv.push(entries.deep_view()[i as int]) =~= entries.deep_view().take(
                i + 1,
            ));
        }
        i = i + 1;
    }
    proof {
        assert(entries.deep_view().take(n as int) =~= entries.deep_view());
    }
    params_from_tokens(&tokens)
}

/// The bare tokens among the entries: those without `=`, trimmed, in
/// the order they arrived in.
pub fn string_vec_from_strs(entries: &Vec<String>) -> (r: Vec<String>)
    ensures
        r.deep_view() == bare_tokens_v(entries.deep_view()),
{
    let mut tokens: Vec<Vec<char>> = Vec::new();
    let n = entries.len();
    let mut i: usize = 0;
    proof {
        assert(tokens.deep_view() =~= entries.deep_view().take(0));
    }
    while i < n
        invariant
            0 <= i <= n == entries.len(),
            tokens.deep_view() == entries.deep_view().take(i as int),
        decreases n - i,
    {
        let ghost old_dv = tokens.deep_view();
        tokens.push(chars_of(entries[i].as_str()));
        proof {
            assert(tokens.deep_view() =~~= old_dv.push(entries.deep_view()[i as int]));
            assert(old_dv.push(entries.deep_view()[i as int]) =~= entries.deep_view().take(
                i + 1,
            ));
        }
        i = i + 1;
    }
    proof {
        assert(entries.deep_view().take(n as int) =~= entries.deep_view());
    }
    bare_from_tokens(&tokens)
}

} // verus!
