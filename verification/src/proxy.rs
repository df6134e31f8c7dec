//! The proxy codec: one textual proxy definition line parsed into a
//! structured entry, and a structured entry serialized back to text.
//!
//! Grammar of a line: `name = protocol,host,port[,username,password]
//! [,key=value]...`.  The first three fields after the `=` are
//! positional; a fourth field without `=` is a username whose password
//! must follow; the remaining `key=value` fields become the parameter
//! mapping, emitted in ascending key order when serialized.
use vstd::prelude::*;
use vstd::string::StringExecFns;

use crate::params::{
    lemma_params_fold_sorted, lemma_params_fold_wf, lemma_sorted_chain,
    lemma_upsert_append, param_of_token, param_wf, params_fold, params_from_tokens,
    params_sorted, upsert_param,
};
use crate::text::{
    chars_of, contains_char, join_strings, join_v, lemma_concat3_no_char, lex_lt,
    lemma_digits_plain, lemma_parse_u32_round_trip, lemma_split_join,
    lemma_split_once_concat, lemma_split_once_parts, lemma_split_pieces,
    lemma_trim_pad_left, lemma_trim_pad_right, lemma_trim_subset, lemma_trim_trimmed,
    parse_u32_chars, parse_u32_v, split_chars, split_once_chars, split_once_v, split_v,
    string_from_chars, trim_chars, trim_v, trimmed, u32_digits_v, u32_to_chars,
};

verus! {

broadcast use vstd::string::group_string_axioms;

/// The mathematical model of a proxy entry.
#[verifier::ext_equal]
pub ghost struct ProxyV {
    pub name: Seq<char>,
    pub proto: Seq<char>,
    pub host: Seq<char>,
    pub port: u32,
    pub username: Option<Seq<char>>,
    pub password: Option<Seq<char>>,
    pub params: Seq<(Seq<char>, Seq<char>)>,
}

/// The credential and parameter fields denoted by the fields that
/// follow the port: an initial field without `=` is a username and
/// unconditionally consumes the next field as its password; a missing
/// password fails the entry; everything after is the parameter list.
pub open spec fn proxy_tail_v(rest: Seq<Seq<char>>) -> Option<
    (Option<Seq<char>>, Option<Seq<char>>, Seq<(Seq<char>, Seq<char>)>),
> {
    if rest.len() == 0 {
        Some((None, None, Seq::<(Seq<char>, Seq<char>)>::empty()))
    } else if !rest[0].contains('=') {
        if rest.len() < 2 {
            None
        } else {
            Some((Some(trim_v(rest[0])), Some(trim_v(rest[1])), params_fold(rest.skip(2))))
        }
    } else {
        Some((None, None, params_fold(rest)))
    }
}

/// The entry denoted by a name and the positional fields of its
/// definition.  The port must be an unsigned integer or the whole
/// entry is rejected.
pub open spec fn proxy_from_strs_v(
    name: Seq<char>,
    proto: Seq<char>,
    host: Seq<char>,
    port_str: Seq<char>,
    rest: Seq<Seq<char>>,
) -> Option<ProxyV> {
    match proxy_tail_v(rest) {
        None => None,
        Some(tail) => match parse_u32_v(trim_v(port_str)) {
            None => None,
            Some(port) => Some(
                ProxyV {
                    name: trim_v(name),
                    proto: trim_v(proto),
                    host: trim_v(host),
                    port,
                    username: tail.0,
                    password: tail.1,
                    params: tail.2,
                },
            ),
        },
    }
}

/// The entry denoted by a name and a comma-delimited definition:
/// fewer than three fields reject the line.
pub open spec fn proxy_from_def_v(name: Seq<char>, def: Seq<char>) -> Option<ProxyV> {
    let fields = split_v(def, ',');
    if fields.len() < 3 {
        None
    } else {
        proxy_from_strs_v(name, fields[0], fields[1], fields[2], fields.skip(3))
    }
}

/// The entry denoted by a whole line: the part before the first `=`
/// is the name, the rest the definition; a line without `=` is
/// rejected.
pub open spec fn parse_proxy_v(line: Seq<char>) -> Option<ProxyV> {
    match split_once_v(line, '=') {
        None => None,
        Some((name, def)) => proxy_from_def_v(name, def),
    }
}

/// The parameter pairs rendered as `key=value` tokens.
pub open spec fn param_tokens_v(ps: Seq<(Seq<char>, Seq<char>)>) -> Seq<Seq<char>> {
    ps.map_values(|kv: (Seq<char>, Seq<char>)| kv.0 + seq!['='] + kv.1)
}

/// The comma-joined fields of a serialized entry, in order: protocol,
/// host, port, the credentials when present, then the parameters in
/// ascending key order.
pub open spec fn proxy_pieces_v(p: ProxyV) -> Seq<Seq<char>> {
    seq![p.proto, p.host, u32_digits_v(p.port)] + (match p.username {
        Some(u) => seq![u],
        None => Seq::<Seq<char>>::empty(),
    }) + (match p.password {
        Some(w) => seq![w],
        None => Seq::<Seq<char>>::empty(),
    }) + param_tokens_v(p.params)
}

/// The serialized text of an entry: `name = field,field,...`.
pub open spec fn proxy_text_v(p: ProxyV) -> Seq<char> {
    p.name + seq![' ', '=', ' '] + join_v(proxy_pieces_v(p), seq![','])
}

/// An entry as the decoder can produce it: no separator characters
/// where the grammar forbids them, every part trimmed, a username
/// exactly when there is a password, and parameters well formed with
/// strictly ascending keys.
pub open spec fn proxy_wf(p: ProxyV) -> bool {
    &&& !p.name.contains('=')
    &&& trimmed(p.name)
    &&& !p.proto.contains(',')
    &&& trimmed(p.proto)
    &&& !p.host.contains(',')
    &&& trimmed(p.host)
    &&& (match p.username {
        Some(u) => !u.contains(',') && !u.contains('=') && trimmed(u) && p.password is Some,
        None => p.password is None,
    })
    &&& (match p.password {
        Some(w) => !w.contains(',') && trimmed(w),
        None => true,
    })
    &&& params_sorted(p.params)
    &&& (forall|i: int| 0 <= i < p.params.len() ==> param_wf(#[trigger] p.params[i]))
}

/// Every entry the decoder produces is well formed.
pub proof fn lemma_parse_proxy_wf(line: Seq<char>)
    ensures
        parse_proxy_v(line) matches Some(p) ==> proxy_wf(p),
{
    if parse_proxy_v(line) is Some {
        let (name, def) = split_once_v(line, '=')->Some_0;
        lemma_split_once_parts(line, '=');
        lemma_trim_subset(name, '=');
        lemma_trim_trimmed(name);
        let fields = split_v(def, ',');
        lemma_split_pieces(def, ',');
        lemma_trim_subset(fields[0], ',');
        lemma_trim_trimmed(fields[0]);
        lemma_trim_subset(fields[1], ',');
        lemma_trim_trimmed(fields[1]);
        let rest = fields.skip(3);
        assert(forall|i: int| 0 <= i < rest.len() ==> rest[i] == fields[i + 3]);
        assert(forall|i: int| 0 <= i < rest.len() ==> !(#[trigger] rest[i]).contains(','));
        if rest.len() > 0 && !rest[0].contains('=') {
            lemma_trim_subset(rest[0], ',');
            lemma_trim_subset(rest[0], '=');
            lemma_trim_trimmed(rest[0]);
            lemma_trim_subset(rest[1], ',');
            lemma_trim_trimmed(rest[1]);
            let toks = rest.skip(2);
            assert(forall|i: int| 0 <= i < toks.len() ==> toks[i] == rest[i + 2]);
            assert(forall|i: int|
                0 <= i < toks.len() ==> !(#[trigger] toks[i]).contains(','));
            lemma_params_fold_sorted(toks);
            lemma_params_fold_wf(toks);
        } else {
            lemma_params_fold_sorted(rest);
            lemma_params_fold_wf(rest);
        }
    }
}

/// The `key=value` tokens of a well-formed sorted mapping fold back
/// to the mapping itself.
proof fn lemma_params_fold_of_tokens(ps: Seq<(Seq<char>, Seq<char>)>)
    requires
        params_sorted(ps),
        forall|i: int| 0 <= i < ps.len() ==> param_wf(#[trigger] ps[i]),
    ensures
        params_fold(param_tokens_v(ps)) == ps,
    decreases ps.len(),
{
    let tokens = param_tokens_v(ps);
    if ps.len() == 0 {
        assert(tokens =~= Seq::<Seq<char>>::empty());
        assert(params_fold(tokens) =~= ps);
    } else {
        let (k, v) = ps.last();
        assert(forall|i: int|
            0 <= i < ps.drop_last().len() ==> #[trigger] ps.drop_last()[i] == ps[i]);
        lemma_params_fold_of_tokens(ps.drop_last());
        assert(tokens.drop_last() =~= param_tokens_v(ps.drop_last()));
        assert(tokens.last() == k + seq!['='] + v);
        lemma_split_once_concat(k, v, '=');
        assert(param_of_token(tokens.last()) == Some((trim_v(k), trim_v(v))));
        assert(param_wf(ps[ps.len() - 1]));
        assert(trim_v(k) == k && trim_v(v) == v);
        assert(params_fold(tokens) == upsert_param(ps.drop_last(), k, v));
        assert(forall|i: int|
            0 <= i < ps.drop_last().len() ==> lex_lt((#[trigger] ps.drop_last()[i]).0, k))
            by {
            assert forall|i: int| 0 <= i < ps.len() - 1 implies lex_lt(
                (#[trigger] ps[i]).0,
                k,
            ) by {
                lemma_sorted_chain(ps, i, ps.len() - 1);
            }
        }
        lemma_upsert_append(ps.drop_last(), k, v);
        assert(ps.drop_last().push((k, v)) =~= ps);
    }
}

/// Decoding the serialization of any well-formed entry yields the
/// entry back: parameter order is already canonical, so equality is
/// exact.  Entries produced by the decoder are well formed, so for
/// any decoded entry the decode-encode-decode round trip is the
/// identity.
pub proof fn lemma_proxy_round_trip(p: ProxyV)
    requires
        proxy_wf(p),
    ensures
        parse_proxy_v(proxy_text_v(p)) == Some(p),
{
    let text = proxy_text_v(p);
    let pieces = proxy_pieces_v(p);
    let joined = join_v(pieces, seq![',']);
    let a = p.name + seq![' '];
    let b = seq![' '] + joined;

    // The first `=` of the line is the one between name and definition.
    assert(!a.contains('=')) by {
        if a.contains('=') {
            let i = choose|i: int| 0 <= i < a.len() && a[i] == '=';
            if i < p.name.len() {
                assert(p.name[i] == '=');
            } else {
                assert(a[i] == ' ');
            }
        }
    }
    assert(text =~= a + seq!['='] + b);
    lemma_split_once_concat(a, b, '=');
    assert(split_once_v(text, '=') == Some((a, b)));
    lemma_trim_pad_right(p.name);
    assert(trim_v(a) == p.name);

    // Every serialized field is free of commas.
    lemma_digits_plain(p.port);
    assert(forall|i: int|
        0 <= i < p.params.len() ==> param_wf(#[trigger] p.params[i]));
    let ptoks = param_tokens_v(p.params);
    assert forall|i: int| 0 <= i < ptoks.len() implies !(#[trigger] ptoks[i]).contains(
        ',',
    ) by {
        assert(ptoks[i] == p.params[i].0 + seq!['='] + p.params[i].1);
        lemma_concat3_no_char(p.params[i].0, '=', p.params[i].1, ',');
    }
    assert(forall|i: int|
        0 <= i < pieces.len() ==> !(#[trigger] pieces[i]).contains(','));
    assert(pieces.len() >= 3);

    // Splitting the definition on commas recovers the fields, the
    // first padded with the space after the `=`.
    let pieces2 = pieces.update(0, seq![' '] + pieces[0]);
    assert(!pieces2[0].contains(',')) by {
        if pieces2[0].contains(',') {
            let i = choose|i: int| 0 <= i < pieces2[0].len() && pieces2[0][i] == ',';
            if i == 0 {
                assert(pieces2[0][0] == ' ');
            } else {
                assert(pieces[0][i - 1] == ',');
            }
        }
    }
    assert(forall|i: int|
        0 <= i < pieces2.len() ==> !(#[trigger] pieces2[i]).contains(','));
    assert(b == join_v(pieces2, seq![','])) by {
        assert(pieces.drop_first() =~= pieces2.drop_first());
        assert(join_v(pieces, seq![',']) == pieces[0] + seq![','] + join_v(
            pieces.drop_first(),
            seq![','],
        ));
        assert(join_v(pieces2, seq![',']) == pieces2[0] + seq![','] + join_v(
            pieces2.drop_first(),
            seq![','],
        ));
        assert(seq![' '] + (pieces[0] + seq![','] + join_v(pieces.drop_first(), seq![',']))
            =~= (seq![' '] + pieces[0]) + seq![','] + join_v(pieces.drop_first(), seq![',']));
    }
    lemma_split_join(pieces2, ',');
    let fields = split_v(b, ',');
    assert(fields == pieces2);

    // The three positional fields.
    lemma_trim_pad_left(p.proto);
    assert(trim_v(fields[0]) == p.proto);
    assert(fields[1] == p.host);
    assert(trim_v(fields[1]) == p.host);
    assert(fields[2] == u32_digits_v(p.port));
    assert(trim_v(fields[2]) == fields[2]);
    lemma_parse_u32_round_trip(p.port);
    assert(parse_u32_v(trim_v(fields[2])) == Some(p.port));

    // The tail: credentials, then parameters.
    let rest = fields.skip(3);
    let tokens = param_tokens_v(p.params);
    lemma_params_fold_of_tokens(p.params);
    match p.username {
        Some(u) => {
            let w = p.password->Some_0;
            assert(rest =~= seq![u, w] + tokens);
            assert(rest[0] == u);
            assert(rest.len() >= 2);
            assert(rest[1] == w);
            assert(trim_v(u) == u && trim_v(w) == w);
            assert(rest.skip(2) =~= tokens);
            assert(proxy_tail_v(rest) == Some(
                (Some(u), Some(w), params_fold(tokens)),
            ));
        },
        None => {
            assert(p.password is None);
            assert(rest =~= tokens);
            if p.params.len() == 0 {
                assert(rest.len() == 0);
                assert(p.params =~= Seq::<(Seq<char>, Seq<char>)>::empty());
            } else {
                assert(rest[0] == p.params[0].0 + seq!['='] + p.params[0].1);
                assert(rest[0].contains('=')) by {
                    assert(rest[0][p.params[0].0.len() as int] == '=');
                }
            }
        },
    }
    assert(parse_proxy_v(text) matches Some(q) && q =~= p);
}

/// Round trip: any entry the decoder produced decodes back from its
/// own serialization, exactly — parameter iteration order is already
/// canonical in a decoded entry.
pub proof fn lemma_decode_encode_decode(line: Seq<char>, p: ProxyV)
    requires
        parse_proxy_v(line) == Some(p),
    ensures
        parse_proxy_v(proxy_text_v(p)) == Some(p),
{
    lemma_parse_proxy_wf(line);
    lemma_proxy_round_trip(p);
}

/// One upstream relay definition: protocol, address, optional
/// credential, and tunable parameters with unique keys kept in
/// ascending order.
#[derive(Debug, Clone)]
pub struct Proxy {
    name: String,
    proto: String,
    host: String,
    port: u32,
    username: Option<String>,
    password: Option<String>,
    parameters: Vec<(String, String)>,
}

impl View for Proxy {
    type V = ProxyV;

    closed spec fn view(&self) -> ProxyV {
        ProxyV {
            name: self.name@,
            proto: self.proto@,
            host: self.host@,
            port: self.port,
            username: self.username.deep_view(),
            password: self.password.deep_view(),
            params: self.parameters.deep_view(),
        }
    }
}

impl DeepView for Proxy {
    type V = ProxyV;

    open spec fn deep_view(&self) -> ProxyV {
        self.view()
    }
}

impl Proxy {
    /// An entry built directly from its parts; the parameter pairs
    /// are inserted in order, so a later duplicate key wins and
    /// iteration order is ascending by key.
    pub fn new(
        name: &str,
        proto: &str,
        host: &str,
        port: u32,
        username: Option<String>,
        password: Option<String>,
        parameters: Vec<(String, String)>,
    ) -> (r: Proxy)
        ensures
            r@ == (ProxyV {
                name: name@,
                proto: proto@,
                host: host@,
                port,
                username: username.deep_view(),
                password: password.deep_view(),
                params: crate::params::insert_pairs_v(parameters.deep_view()),
            }),
    {
        let ghost pdv = parameters.deep_view();
        let ghost uv = username.deep_view();
        let ghost wv = password.deep_view();
        let mut params: Vec<(String, String)> = Vec::new();
        let n = parameters.len();
        let mut i: usize = 0;
        proof {
            assert(pdv.take(0) =~= Seq::<(Seq<char>, Seq<char>)>::empty());
            assert(params.deep_view() =~= crate::params::insert_pairs_v(pdv.take(0)));
        }
        while i < n
            invariant
                0 <= i <= n == parameters@.len(),
                pdv == parameters.deep_view(),
                n == pdv.len(),
                params.deep_view() == crate::params::insert_pairs_v(pdv.take(i as int)),
            decreases n - i,
        {
            proof {
                assert(parameters@[i as int].0@ == pdv[i as int].0);
                assert(parameters@[i as int].1@ == pdv[i as int].1);
                assert(pdv.take(i + 1).drop_last() =~= pdv.take(i as int));
                assert(pdv.take(i + 1).last() == pdv[i as int]);
            }
            crate::params::upsert_param_vec(
                &mut params,
                parameters[i].0.clone(),
                parameters[i].1.clone(),
            );
            i = i + 1;
        }
        proof {
            assert(pdv.take(n as int) =~= pdv);
        }
        let r = Proxy {
            name: String::from_str(name),
            proto: String::from_str(proto),
            host: String::from_str(host),
            port,
            username,
            password,
            parameters: params,
        };
        proof {
            assert(r@ =~~= (ProxyV {
                name: name@,
                proto: proto@,
                host: host@,
                port,
                username: uv,
                password: wv,
                params: crate::params::insert_pairs_v(pdv),
            }));
        }
        r
    }

    /// An entry built from already-separated parts; the parameter
    /// pairs are inserted as `key=value` tokens denote them, so
    /// duplicate keys keep the last value and iteration order is
    /// ascending by key.
    pub fn from_strs(
        name: &str,
        proto: &str,
        host: &str,
        port_str: &str,
        param_strs: &Vec<String>,
    ) -> (r: Option<Proxy>)
        ensures
            r.deep_view() == proxy_from_strs_v(
                name@,
                proto@,
                host@,
                port_str@,
                param_strs.deep_view(),
            ),
    {
        let ghost rest = param_strs.deep_view();
        let n_rest = param_strs.len();
        let mut username: Option<String> = None;
        let mut password: Option<String> = None;
        let mut param_start: usize = 0;
        if n_rest > 0 {
            let c0 = chars_of(param_strs[0].as_str());
            proof {
                assert(param_strs@[0]@ == rest[0]);
            }
            if !contains_char(&c0, '=') {
                if n_rest < 2 {
                    return None;
                }
                let tu = trim_chars(&c0);
                username = Some(string_from_chars(&tu));
                let c1 = chars_of(param_strs[1].as_str());
                proof {
                    assert(param_strs@[1]@ == rest[1]);
                }
                let tw = trim_chars(&c1);
                password = Some(string_from_chars(&tw));
                param_start = 2;
            }
        }
        let mut toks: Vec<Vec<char>> = Vec::new();
        let mut i = param_start;
        proof {
            assert(toks.deep_view() =~= rest.subrange(param_start as int, param_start as int));
        }
        while i < n_rest
            invariant
                param_start <= i <= n_rest == param_strs.len(),
                rest == param_strs.deep_view(),
                toks.deep_view() == rest.subrange(param_start as int, i as int),
            decreases n_rest - i,
        {
            let ghost old_dv = toks.deep_view();
            toks.push(chars_of(param_strs[i].as_str()));
            proof {
                assert(param_strs@[i as int]@ == rest[i as int]);
                assert(toks.deep_view() =~~= old_dv.push(rest[i as int]));
                assert(old_dv.push(rest[i as int]) =~= rest.subrange(
                    param_start as int,
                    i + 1,
                ));
            }
            i = i + 1;
        }
        proof {
            if param_start == 2 {
                assert(rest.subrange(2, n_rest as int) =~= rest.skip(2));
            } else {
                assert(rest.subrange(0, n_rest as int) =~= rest);
            }
        }
        let parameters = params_from_tokens(&toks);
        let pc = chars_of(port_str);
        let pt = trim_chars(&pc);
        match parse_u32_chars(&pt) {
            None => None,
            Some(port) => {
                let nc = chars_of(name);
                let hc = chars_of(host);
                let prc = chars_of(proto);
                let tn = trim_chars(&nc);
                let tp = trim_chars(&prc);
                let th = trim_chars(&hc);
                Some(
                    Proxy {
                        name: string_from_chars(&tn),
                        proto: string_from_chars(&tp),
                        host: string_from_chars(&th),
                        port,
                        username,
                        password,
                        parameters,
                    },
                )
            },
        }
    }

    /// An entry built from its name and its comma-delimited
    /// definition.
    pub fn from_name_definition(name: &str, definition: &str) -> (r: Option<Proxy>)
        ensures
            r.deep_view() == proxy_from_def_v(name@, definition@),
    {
        let dc = chars_of(definition);
        let fields = split_chars(&dc, ',');
        if fields.len() < 3 {
            return None;
        }
        let proto = string_from_chars(&fields[0]);
        let host = string_from_chars(&fields[1]);
        let port_str = string_from_chars(&fields[2]);
        let mut rest: Vec<String> = Vec::new();
        let n = fields.len();
        let mut i: usize = 3;
        proof {
            assert(rest.deep_view() =~= fields.deep_view().subrange(3, 3));
        }
        while i < n
            invariant
                3 <= i <= n == fields.len(),
                n == fields.deep_view().len(),
                rest.deep_view() == fields.deep_view().subrange(3, i as int),
            decreases n - i,
        {
            let ghost old_dv = rest.deep_view();
            rest.push(string_from_chars(&fields[i]));
            proof {
                assert(fields@[i as int]@ == fields.deep_view()[i as int]);
                assert(rest.deep_view() =~~= old_dv.push(fields.deep_view()[i as int]));
                assert(old_dv.push(fields.deep_view()[i as int]) =~= fields.deep_view()
                    .subrange(3, i + 1));
            }
            i = i + 1;
        }
        proof {
            assert(fields.deep_view().subrange(3, n as int) =~= fields.deep_view().skip(3));
            assert(fields@[0]@ == fields.deep_view()[0]);
            assert(fields@[1]@ == fields.deep_view()[1]);
            assert(fields@[2]@ == fields.deep_view()[2]);
        }
        Proxy::from_strs(name, proto.as_str(), host.as_str(), port_str.as_str(), &rest)
    }

    /// An entry parsed from one whole line of a `[Proxy]` section.
    pub fn from_str(proxy_str: &str) -> (r: Option<Proxy>)
        ensures
            r.deep_view() == parse_proxy_v(proxy_str@),
    {
        let sc = chars_of(proxy_str);
        match split_once_chars(&sc, '=') {
            None => None,
            Some((name, def)) => {
                let ns = string_from_chars(&name);
                let ds = string_from_chars(&def);
                Proxy::from_name_definition(ns.as_str(), ds.as_str())
            },
        }
    }

    pub fn get_name(&self) -> (r: &str)
        ensures
            r@ == self@.name,
    {
        self.name.as_str()
    }

    /// A copy of this entry denoting the same model value.
    pub fn duplicate(&self) -> (r: Proxy)
        ensures
            r@ == self@,
    {
        let mut parameters: Vec<(String, String)> = Vec::new();
        let n = self.parameters.len();
        let mut i: usize = 0;
        proof {
            assert(parameters.deep_view() =~= self@.params.take(0));
        }
        while i < n
            invariant
                0 <= i <= n == self.parameters.len(),
                n == self@.params.len(),
                parameters.deep_view() == self@.params.take(i as int),
            decreases n - i,
        {
            let ghost old_dv = parameters.deep_view();
            parameters.push((self.parameters[i].0.clone(), self.parameters[i].1.clone()));
            proof {
                assert(self.parameters@[i as int].0@ == self@.params[i as int].0);
                assert(self.parameters@[i as int].1@ == self@.params[i as int].1);
                assert(parameters.deep_view() =~~= old_dv.push(self@.params[i as int]));
                assert(old_dv.push(self@.params[i as int]) =~= self@.params.take(i + 1));
            }
            i = i + 1;
        }
        proof {
            assert(self@.params.take(n as int) =~= self@.params);
        }
        let username = match &self.username {
            Some(u) => Some(u.clone()),
            None => None,
        };
        let password = match &self.password {
            Some(w) => Some(w.clone()),
            None => None,
        };
        let r = Proxy {
            name: self.name.clone(),
            proto: self.proto.clone(),
            host: self.host.clone(),
            port: self.port,
            username,
            password,
            parameters,
        };
        proof {
            assert(r@ =~~= self@);
        }
        r
    }

    pub fn get_proto(&self) -> (r: &str)
        ensures
            r@ == self@.proto,
    {
        self.proto.as_str()
    }

    pub fn get_host(&self) -> (r: &str)
        ensures
            r@ == self@.host,
    {
        self.host.as_str()
    }

    pub fn get_port(&self) -> (r: u32)
        ensures
            r == self@.port,
    {
        self.port
    }

    pub fn get_username(&self) -> (r: &Option<String>)
        ensures
            r.deep_view() == self@.username,
    {
        &self.username
    }

    pub fn get_password(&self) -> (r: &Option<String>)
        ensures
            r.deep_view() == self@.password,
    {
        &self.password
    }

    pub fn get_parameters(&self) -> (r: &Vec<(String, String)>)
        ensures
            r.deep_view() == self@.params,
    {
        &self.parameters
    }

    /// The serialized line of this entry: `name = field,field,...`,
    /// parameters in ascending key order.
    pub fn to_string(&self) -> (r: String)
        ensures
            r@ == proxy_text_v(self@),
    {
        let mut pieces: Vec<String> = Vec::new();
        pieces.push(self.proto.clone());
        pieces.push(self.host.clone());
        let pd = u32_to_chars(self.port);
        pieces.push(string_from_chars(&pd));
        match &self.username {
            Some(u) => pieces.push(u.clone()),
            None => (),
        }
        match &self.password {
            Some(w) => pieces.push(w.clone()),
            None => (),
        }
        let ghost head_pieces = pieces.deep_view();
        proof {
            assert(head_pieces =~= seq![self@.proto, self@.host, u32_digits_v(self@.port)]
                + (match self@.username {
                Some(u) => seq![u],
                None => Seq::<Seq<char>>::empty(),
            }) + (match self@.password {
                Some(w) => seq![w],
                None => Seq::<Seq<char>>::empty(),
            }));
        }
        let np = self.parameters.len();
        let mut i: usize = 0;
        proof {
            assert(param_tokens_v(self@.params.take(0)) =~= Seq::<Seq<char>>::empty());
            assert(pieces.deep_view() =~= head_pieces + param_tokens_v(self@.params.take(0)));
        }
        while i < np
            invariant
                0 <= i <= np == self.parameters.len(),
                np == self@.params.len(),
                head_pieces == proxy_pieces_v(self@).take(head_pieces.len() as int),
                pieces.deep_view() == head_pieces + param_tokens_v(self@.params.take(i as int)),
            decreases np - i,
        {
            let ghost old_dv = pieces.deep_view();
            let mut tok = String::new();
            tok.append(self.parameters[i].0.as_str());
            tok.append("=");
            tok.append(self.parameters[i].1.as_str());
            proof {
                reveal_strlit("=");
                assert("="@ =~= seq!['=']);
                assert(self.parameters@[i as int].0@ == self@.params[i as int].0);
                assert(self.parameters@[i as int].1@ == self@.params[i as int].1);
            }
            pieces.push(tok);
            proof {
                assert(pieces.deep_view() =~~= old_dv.push(
                    self@.params[i as int].0 + seq!['='] + self@.params[i as int].1,
                ));
                assert(param_tokens_v(self@.params.take(i + 1)) =~= param_tokens_v(
                    self@.params.take(i as int),
                ).push(self@.params[i as int].0 + seq!['='] + self@.params[i as int].1));
                assert(old_dv.push(self@.params[i as int].0 + seq!['='] + self@.params[
                    i as int
                ].1) =~= head_pieces + param_tokens_v(self@.params.take(i + 1)));
            }
            i = i + 1;
        }
        proof {
            assert(self@.params.take(np as int) =~= self@.params);
            assert(pieces.deep_view() =~= proxy_pieces_v(self@));
        }
        let joined = join_strings(&pieces, ",");
        let mut r = String::new();
        r.append(self.name.as_str());
        r.append(" = ");
        r.append(joined.as_str());
        proof {
            reveal_strlit(" = ");
            reveal_strlit(",");
            assert(" = "@ =~= seq![' ', '=', ' ']);
            assert(","@ =~= seq![',']);
            assert(r@ =~= proxy_text_v(self@));
        }
        r
    }
}

} // verus!
