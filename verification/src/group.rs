//! The proxy-group codec: one textual group definition line parsed
//! into a structured entry, and a structured entry serialized back.
//!
//! Grammar of a line: `name = kind,member,...[,key=value]...` where
//! the kind tag is `select` or `url-test`.  A `url-test` group reads
//! its probe parameters from the `key=value` fields, substituting a
//! default for a missing or unparsable field; a freshly constructed
//! group uses a different, longer-interval default set than a parsed
//! one, which is kept distinct on purpose.
use vstd::prelude::*;
use vstd::string::StringExecFns;

use crate::params::{assoc_get, bare_tokens_v, params_fold, params_from_tokens};
use crate::text::{
    chars_eq, chars_of, join_strings, join_v, parse_u32_chars,
    parse_u32_v, split_chars, split_once_chars, split_once_v, split_v, string_from_chars,
    trim_chars, trim_v, u32_digits_v, u32_to_chars,
};

verus! {

broadcast use vstd::string::group_string_axioms;

/// The mathematical model of a group's kind.
#[verifier::ext_equal]
pub ghost enum GroupKindV {
    Select,
    UrlTest { url: Seq<char>, interval: u32, tolerance: u32, timeout: u32 },
}

/// The mathematical model of a proxy group: a named, ordered list of
/// proxy names with a selection policy.
#[verifier::ext_equal]
pub ghost struct GroupV {
    pub name: Seq<char>,
    pub kind: GroupKindV,
    pub members: Seq<Seq<char>>,
}

/// The default kind of a freshly constructed group, distinct from the
/// per-field defaults substituted while parsing.
pub open spec fn fresh_default_kind() -> GroupKindV {
    GroupKindV::UrlTest {
        url: "http://www.qualcomm.cn/generate_204"@,
        interval: 1800,
        tolerance: 200,
        timeout: 5,
    }
}

/// A numeric probe parameter: the value under the key when it parses
/// as a `u32`, the default otherwise.
pub open spec fn num_param_v(
    params: Seq<(Seq<char>, Seq<char>)>,
    key: Seq<char>,
    dflt: u32,
) -> u32 {
    match assoc_get(params, key) {
        Some(s) => match parse_u32_v(s) {
            Some(n) => n,
            None => dflt,
        },
        None => dflt,
    }
}

/// The kind a trimmed tag and the parameter mapping denote: `select`,
/// or `url-test` with each probe field read from the mapping and a
/// fixed default substituted when it is absent or unparsable.
pub open spec fn group_kind_v(tag: Seq<char>, params: Seq<(Seq<char>, Seq<char>)>) -> Option<
    GroupKindV,
> {
    if tag == "select"@ {
        Some(GroupKindV::Select)
    } else if tag == "url-test"@ {
        Some(
            GroupKindV::UrlTest {
                url: match assoc_get(params, "url"@) {
                    Some(u) => u,
                    None => "www.google.com"@,
                },
                interval: num_param_v(params, "interval"@, 600),
                tolerance: num_param_v(params, "tolerance"@, 100),
                timeout: num_param_v(params, "timeout"@, 5),
            },
        )
    } else {
        None
    }
}

/// The group denoted by a name and a comma-delimited definition: the
/// first field is the kind tag; the members are the bare fields after
/// it, the kind tag itself excluded.
pub open spec fn group_from_def_v(name: Seq<char>, def: Seq<char>) -> Option<GroupV> {
    let fields = split_v(def, ',');
    let params = params_fold(fields);
    match group_kind_v(trim_v(fields[0]), params) {
        None => None,
        Some(kind) => Some(
            GroupV { name: trim_v(name), kind, members: bare_tokens_v(fields.drop_first()) },
        ),
    }
}

/// The group denoted by a whole line: name before the first `=`,
/// definition after it; a line without `=` is rejected.
pub open spec fn parse_group_v(line: Seq<char>) -> Option<GroupV> {
    match split_once_v(line, '=') {
        None => None,
        Some((name, def)) => group_from_def_v(trim_v(name), def),
    }
}

/// The serialized probe parameters of a `url-test` group, fully
/// spelled out even when they equal the defaults.
pub open spec fn url_test_params_v(url: Seq<char>, interval: u32, tolerance: u32, timeout: u32)
    -> Seq<char> {
    "url="@ + url + ",interval="@ + u32_digits_v(interval) + ",tolerance="@ + u32_digits_v(
        tolerance,
    ) + ",timeout="@ + u32_digits_v(timeout)
}

/// The serialized text of a group.
pub open spec fn group_text_v(g: GroupV) -> Seq<char> {
    match g.kind {
        GroupKindV::Select => g.name + " = select,"@ + join_v(g.members, seq![',']),
        GroupKindV::UrlTest { url, interval, tolerance, timeout } => g.name + " = url-test,"@
            + join_v(g.members, seq![',']) + seq![','] + url_test_params_v(
            url,
            interval,
            tolerance,
            timeout,
        ),
    }
}

/// A group's selection policy: manually selectable, or automatically
/// chosen by latency probing against a probe endpoint.
#[derive(Debug, Clone)]
pub enum ProxyGroupType {
    Select,
    UrlTest { url: String, interval: u32, tolerance: u32, timeout: u32 },
}

impl View for ProxyGroupType {
    type V = GroupKindV;

    open spec fn view(&self) -> GroupKindV {
        match self {
            ProxyGroupType::Select => GroupKindV::Select,
            ProxyGroupType::UrlTest { url, interval, tolerance, timeout } => {
                GroupKindV::UrlTest {
                    url: url@,
                    interval: *interval,
                    tolerance: *tolerance,
                    timeout: *timeout,
                }
            },
        }
    }
}

impl DeepView for ProxyGroupType {
    type V = GroupKindV;

    open spec fn deep_view(&self) -> GroupKindV {
        self.view()
    }
}

impl PartialEq for ProxyGroupType {
    fn eq(&self, other: &ProxyGroupType) -> (r: bool) {
        match (self, other) {
            (ProxyGroupType::Select, ProxyGroupType::Select) => true,
            (
                ProxyGroupType::UrlTest { url, interval, tolerance, timeout },
                ProxyGroupType::UrlTest {
                    url: url2,
                    interval: interval2,
                    tolerance: tolerance2,
                    timeout: timeout2,
                },
            ) => *url == *url2 && *interval == *interval2 && *tolerance == *tolerance2
                && *timeout == *timeout2,
            _ => false,
        }
    }
}

impl vstd::std_specs::cmp::PartialEqSpecImpl for ProxyGroupType {
    open spec fn obeys_eq_spec() -> bool {
        true
    }

    open spec fn eq_spec(&self, other: &ProxyGroupType) -> bool {
        self@ == other@
    }
}

impl Eq for ProxyGroupType {

}

impl Default for ProxyGroupType {
    /// The fresh-construction default: a latency probe with a longer
    /// interval and higher tolerance than the parse-time defaults.
    fn default() -> (r: ProxyGroupType)
        ensures
            r@ == fresh_default_kind(),
    {
        ProxyGroupType::UrlTest {
            url: String::from_str("http://www.qualcomm.cn/generate_204"),
            interval: 1800,
            tolerance: 200,
            timeout: 5,
        }
    }
}

impl ProxyGroupType {
    /// The kind denoted by a tag and the parameter mapping of the
    /// definition's fields.
    pub fn from_str(type_str: &str, params_map: &Vec<(String, String)>) -> (r: Option<
        ProxyGroupType,
    >)
        ensures
            r.deep_view() == group_kind_v(trim_v(type_str@), params_map.deep_view()),
    {
        let tc = chars_of(type_str);
        let tag = trim_chars(&tc);
        let select_c = chars_of("select");
        let url_test_c = chars_of("url-test");
        if chars_eq(&tag, &select_c) {
            Some(ProxyGroupType::Select)
        } else if chars_eq(&tag, &url_test_c) {
            let url = match Self::find_param(params_map, "url") {
                Some(u) => u,
                None => String::from_str("www.google.com"),
            };
            let interval = Self::num_param(params_map, "interval", 600);
            let tolerance = Self::num_param(params_map, "tolerance", 100);
            let timeout = Self::num_param(params_map, "timeout", 5);
            Some(ProxyGroupType::UrlTest { url, interval, tolerance, timeout })
        } else {
            None
        }
    }

    /// The value bound to the key in the parameter mapping, if any.
    fn find_param(params_map: &Vec<(String, String)>, key: &str) -> (r: Option<String>)
        ensures
            r.deep_view() == assoc_get(params_map.deep_view(), key@),
    {
        let kc = chars_of(key);
        let n = params_map.len();
        let mut i: usize = 0;
        proof {
            assert(params_map.deep_view().skip(0) =~= params_map.deep_view());
        }
        while i < n
            invariant
                0 <= i <= n == params_map.len(),
                kc@ == key@,
                assoc_get(params_map.deep_view(), key@) == assoc_get(
                    params_map.deep_view().skip(i as int),
                    key@,
                ),
            decreases n - i,
        {
            let ghost dv = params_map.deep_view();
            let pc = chars_of(params_map[i].0.as_str());
            proof {
                assert(dv.skip(i as int)[0] == dv[i as int]);
                assert(dv[i as int].0 == params_map@[i as int].0@);
                assert(dv.skip(i as int).drop_first() =~= dv.skip(i + 1));
            }
            if chars_eq(&pc, &kc) {
                return Some(params_map[i].1.clone());
            }
            i = i + 1;
        }
        proof {
            assert(params_map.deep_view().skip(n as int) =~= Seq::<(
                Seq<char>,
                Seq<char>,
            )>::empty());
        }
        None
    }

    /// A numeric probe parameter: the bound value when it parses as a
    /// `u32`, the given default otherwise.
    fn num_param(params_map: &Vec<(String, String)>, key: &str, dflt: u32) -> (r: u32)
        ensures
            r == num_param_v(params_map.deep_view(), key@, dflt),
    {
        match Self::find_param(params_map, key) {
            Some(s) => {
                let sc = chars_of(s.as_str());
                match parse_u32_chars(&sc) {
                    Some(n) => n,
                    None => dflt,
                }
            },
            None => dflt,
        }
    }

    /// The serialized probe parameters; a `select` kind serializes to
    /// nothing.
    pub fn to_string(&self) -> (r: String)
        ensures
            r@ == match self@ {
                GroupKindV::Select => Seq::<char>::empty(),
                GroupKindV::UrlTest { url, interval, tolerance, timeout } => url_test_params_v(
                    url,
                    interval,
                    tolerance,
                    timeout,
                ),
            },
    {
        let mut r = String::new();
        match self {
            ProxyGroupType::Select => (),
            ProxyGroupType::UrlTest { url, interval, tolerance, timeout } => {
                r.append("url=");
                r.append(url.as_str());
                r.append(",interval=");
                let ic = u32_to_chars(*interval);
                let is = string_from_chars(&ic);
                r.append(is.as_str());
                r.append(",tolerance=");
                let tc = u32_to_chars(*tolerance);
                let ts = string_from_chars(&tc);
                r.append(ts.as_str());
                r.append(",timeout=");
                let oc = u32_to_chars(*timeout);
                let os = string_from_chars(&oc);
                r.append(os.as_str());
                proof {
                    assert(r@ =~= url_test_params_v(
                        url@,
                        *interval,
                        *tolerance,
                        *timeout,
                    ));
                }
            },
        }
        r
    }
}

/// A named, ordered collection of proxy names exposed to a client as
/// one selectable unit.
#[derive(Debug, Clone)]
pub struct ProxyGroup {
    name: String,
    group_type: ProxyGroupType,
    proxy_names: Vec<String>,
}

impl View for ProxyGroup {
    type V = GroupV;

    closed spec fn view(&self) -> GroupV {
        GroupV {
            name: self.name@,
            kind: self.group_type@,
            members: self.proxy_names.deep_view(),
        }
    }
}

impl DeepView for ProxyGroup {
    type V = GroupV;

    open spec fn deep_view(&self) -> GroupV {
        self.view()
    }
}

impl ProxyGroup {
    /// A freshly constructed group with the given name, no members,
    /// and the fresh-construction default kind.
    pub fn with_name(name: &str) -> (r: ProxyGroup)
        ensures
            r@.name == name@,
            r@.kind == fresh_default_kind(),
            r@.members == Seq::<Seq<char>>::empty(),
    {
        let r = ProxyGroup {
            name: String::from_str(name),
            group_type: ProxyGroupType::default(),
            proxy_names: Vec::new(),
        };
        proof {
            assert(r@.members =~= Seq::<Seq<char>>::empty());
        }
        r
    }

    pub fn set_type(&mut self, group_type: ProxyGroupType)
        ensures
            final(self)@ == (GroupV { kind: group_type@, ..old(self)@ }),
    {
        self.group_type = group_type;
    }

    /// Appends one proxy name to the members, keeping their order.
    pub fn add_proxy(&mut self, name: &str)
        ensures
            final(self)@ == (GroupV {
                members: old(self)@.members.push(name@),
                ..old(self)@
            }),
    {
        let ghost old_members = self@.members;
        self.proxy_names.push(String::from_str(name));
        proof {
            assert(self@.members =~~= old_members.push(name@));
        }
    }

    pub fn get_name(&self) -> (r: &str)
        ensures
            r@ == self@.name,
    {
        self.name.as_str()
    }

    pub fn get_group_type(&self) -> (r: &ProxyGroupType)
        ensures
            r@ == self@.kind,
    {
        &self.group_type
    }

    pub fn get_proxies(&self) -> (r: &Vec<String>)
        ensures
            r.deep_view() == self@.members,
    {
        &self.proxy_names
    }

    /// A group built from its name and its comma-delimited definition.
    pub fn from_name_definition(name: &str, definition: &str) -> (r: Option<ProxyGroup>)
        ensures
            r.deep_view() == group_from_def_v(name@, definition@),
    {
        let dc = chars_of(definition);
        let fields = split_chars(&dc, ',');
        let params_map = params_from_tokens(&fields);
        let tag = string_from_chars(&fields[0]);
        proof {
            assert(fields@[0]@ == fields.deep_view()[0]);
        }
        match ProxyGroupType::from_str(tag.as_str(), &params_map) {
            None => None,
            Some(group_type) => {
                let n = fields.len();
                let mut rest: Vec<Vec<char>> = Vec::new();
                let mut i: usize = 1;
                proof {
                    assert(rest.deep_view() =~= fields.deep_view().subrange(1, 1));
                }
                while i < n
                    invariant
                        1 <= i <= n == fields.len(),
                        n == fields.deep_view().len(),
                        rest.deep_view() == fields.deep_view().subrange(1, i as int),
                    decreases n - i,
                {
                    let ghost old_dv = rest.deep_view();
                    let mut piece: Vec<char> = Vec::new();
                    let m = fields[i].len();
                    let mut j: usize = 0;
                    while j < m
                        invariant
                            0 <= j <= m,
                            i < fields.len(),
                            m == fields@[i as int]@.len(),
                            piece@ == fields@[i as int]@.subrange(0, j as int),
                        decreases m - j,
                    {
                        piece.push(fields[i][j]);
                        proof {
                            assert(piece@ =~= fields@[i as int]@.subrange(0, j + 1));
                        }
                        j = j + 1;
                    }
                    proof {
                        assert(piece@ =~= fields@[i as int]@);
                    }
                    rest.push(piece);
                    proof {
                        assert(fields@[i as int]@ == fields.deep_view()[i as int]);
                        assert(rest.deep_view() =~~= old_dv.push(fields.deep_view()[
                            i as int
                        ]));
                        assert(old_dv.push(fields.deep_view()[i as int]) =~= fields
                            .deep_view().subrange(1, i + 1));
                    }
                    i = i + 1;
                }
                proof {
                    assert(fields.deep_view().subrange(1, n as int) =~= fields.deep_view()
                        .drop_first());
                }
                let proxy_names = crate::params::bare_from_tokens(&rest);
                let nc = chars_of(name);
                let tn = trim_chars(&nc);
                Some(
                    ProxyGroup {
                        name: string_from_chars(&tn),
                        group_type,
                        proxy_names,
                    },
                )
            },
        }
    }

    /// A group parsed from one whole line of a `[Proxy Group]`
    /// section.
    pub fn from_str(proxy_group: &str) -> (r: Option<ProxyGroup>)
        ensures
            r.deep_view() == parse_group_v(proxy_group@),
    {
        let sc = chars_of(proxy_group);
        match split_once_chars(&sc, '=') {
            None => None,
            Some((name, def)) => {
                let tn = trim_chars(&name);
                let ns = string_from_chars(&tn);
                let ds = string_from_chars(&def);
                ProxyGroup::from_name_definition(ns.as_str(), ds.as_str())
            },
        }
    }

    /// The serialized line of this group.
    pub fn to_string(&self) -> (r: String)
        ensures
            r@ == group_text_v(self@),
    {
        let mut r = String::new();
        r.append(self.name.as_str());
        r.append(" = ");
        let members = join_strings(&self.proxy_names, ",");
        match &self.group_type {
            ProxyGroupType::Select => {
                r.append("select,");
                r.append(members.as_str());
                proof {
                    reveal_strlit(" = ");
                    reveal_strlit("select,");
                    reveal_strlit(" = select,");
                    reveal_strlit(",");
                    assert(","@ =~= seq![',']);
                    assert(" = "@ + "select,"@ =~= " = select,"@);
                    assert(r@ =~= group_text_v(self@));
                }
            },
            ProxyGroupType::UrlTest { .. } => {
                r.append("url-test,");
                r.append(members.as_str());
                r.append(",");
                let ps = self.group_type.to_string();
                r.append(ps.as_str());
                proof {
                    reveal_strlit(" = ");
                    reveal_strlit("url-test,");
                    reveal_strlit(" = url-test,");
                    reveal_strlit(",");
                    assert(","@ =~= seq![',']);
                    assert(" = "@ + "url-test,"@ =~= " = url-test,"@);
                    assert(r@ =~= group_text_v(self@));
                }
            },
        }
        r
    }
}

} // verus!
