//! The configuration record and the aggregation engine: N decoded
//! sub-documents plus locally configured directives merged into one
//! output document with synthesized groups.
//!
//! The record's remote sources and custom groups are kept as
//! association lists sorted strictly ascending by id, so every
//! iteration that affects the output is deterministic.  Fetching the
//! sub-documents is the caller's concern: the engine consumes the
//! decoded documents, in source order, and fails only when there is
//! none.
use vstd::prelude::*;
use vstd::string::StringExecFns;

use crate::document::{empty_doc, parse_proxies_v, DocV, SurgeConfiguration};
use crate::group::{fresh_default_kind, GroupKindV, GroupV, ProxyGroup, ProxyGroupType};
use crate::params::{lemma_lex_asym, lemma_lex_irrefl};
use crate::proxy::ProxyV;
use crate::text::{
    chars_lt, chars_of, lemma_lex_connex, lex_lt, split_chars, split_v, string_from_chars,
    trim_chars, trim_v,
};

verus! {

broadcast use vstd::string::group_string_axioms;

/// The mathematical model of one remote-source descriptor.
#[verifier::ext_equal]
pub ghost struct AirportV {
    pub id: Seq<char>,
    pub name: Seq<char>,
    pub url: Seq<char>,
}

/// The mathematical model of one custom-group descriptor.
#[verifier::ext_equal]
pub ghost struct GroupConfV {
    pub id: Seq<char>,
    pub name: Seq<char>,
    pub pattern: Seq<char>,
}

/// The mathematical model of a configuration record.
#[verifier::ext_equal]
pub ghost struct ConfigV {
    pub name: Seq<char>,
    pub generals: Seq<char>,
    pub airports: Seq<AirportV>,
    pub rules: Seq<char>,
    pub url_rewrites: Seq<char>,
    pub group_configurations: Seq<GroupConfV>,
    pub proxies: Seq<Seq<char>>,
}

/// The source list with one source bound to its id: an existing id is
/// replaced in place, a new id inserted at its sorted position.
pub open spec fn upsert_airport_v(s: Seq<AirportV>, c: AirportV) -> Seq<AirportV>
    decreases s.len(),
{
    if s.len() == 0 {
        seq![c]
    } else if c.id == s[0].id {
        seq![c] + s.drop_first()
    } else if lex_lt(c.id, s[0].id) {
        seq![c] + s
    } else {
        seq![s[0]] + upsert_airport_v(s.drop_first(), c)
    }
}

/// The custom-group list with one group bound to its id, kept sorted
/// the same way.
pub open spec fn upsert_group_conf_v(s: Seq<GroupConfV>, c: GroupConfV) -> Seq<GroupConfV>
    decreases s.len(),
{
    if s.len() == 0 {
        seq![c]
    } else if c.id == s[0].id {
        seq![c] + s.drop_first()
    } else if lex_lt(c.id, s[0].id) {
        seq![c] + s
    } else {
        seq![s[0]] + upsert_group_conf_v(s.drop_first(), c)
    }
}

proof fn lemma_upsert_airport_skip(s: Seq<AirportV>, c: AirportV, j: int)
    requires
        0 <= j <= s.len(),
        forall|m: int| 0 <= m < j ==> lex_lt((#[trigger] s[m]).id, c.id),
    ensures
        upsert_airport_v(s, c) == s.take(j) + upsert_airport_v(s.skip(j), c),
    decreases j,
{
    if j == 0 {
        assert(s.skip(0) =~= s);
        assert(s.take(0) + upsert_airport_v(s, c) =~= upsert_airport_v(s, c));
    } else {
        assert(lex_lt(s[0].id, c.id));
        assert(c.id != s[0].id) by {
            if c.id == s[0].id {
                lemma_lex_irrefl(s[0].id);
            }
        }
        assert(!lex_lt(c.id, s[0].id)) by {
            lemma_lex_asym(s[0].id, c.id);
        }
        assert(forall|m: int| 0 <= m < j - 1 ==> lex_lt((#[trigger] s.drop_first()[m]).id, c.id));
        lemma_upsert_airport_skip(s.drop_first(), c, j - 1);
        assert(s.drop_first().take(j - 1) =~= s.take(j).drop_first());
        assert(s.drop_first().skip(j - 1) =~= s.skip(j));
        assert(seq![s[0]] + (s.take(j).drop_first() + upsert_airport_v(s.skip(j), c)) =~= s.take(
            j,
        ) + upsert_airport_v(s.skip(j), c));
    }
}

proof fn lemma_upsert_group_conf_skip(s: Seq<GroupConfV>, c: GroupConfV, j: int)
    requires
        0 <= j <= s.len(),
        forall|m: int| 0 <= m < j ==> lex_lt((#[trigger] s[m]).id, c.id),
    ensures
        upsert_group_conf_v(s, c) == s.take(j) + upsert_group_conf_v(s.skip(j), c),
    decreases j,
{
    if j == 0 {
        assert(s.skip(0) =~= s);
        assert(s.take(0) + upsert_group_conf_v(s, c) =~= upsert_group_conf_v(s, c));
    } else {
        assert(lex_lt(s[0].id, c.id));
        assert(c.id != s[0].id) by {
            if c.id == s[0].id {
                lemma_lex_irrefl(s[0].id);
            }
        }
        assert(!lex_lt(c.id, s[0].id)) by {
            lemma_lex_asym(s[0].id, c.id);
        }
        assert(forall|m: int| 0 <= m < j - 1 ==> lex_lt((#[trigger] s.drop_first()[m]).id, c.id));
        lemma_upsert_group_conf_skip(s.drop_first(), c, j - 1);
        assert(s.drop_first().take(j - 1) =~= s.take(j).drop_first());
        assert(s.drop_first().skip(j - 1) =~= s.skip(j));
        assert(seq![s[0]] + (s.take(j).drop_first() + upsert_group_conf_v(s.skip(j), c))
            =~= s.take(j) + upsert_group_conf_v(s.skip(j), c));
    }
}

/// One remote source of a descriptor document.
#[derive(Debug, Clone)]
pub struct AirportConfiguration {
    airport_id: String,
    airport_name: String,
    url: String,
}

impl View for AirportConfiguration {
    type V = AirportV;

    closed spec fn view(&self) -> AirportV {
        AirportV { id: self.airport_id@, name: self.airport_name@, url: self.url@ }
    }
}

impl DeepView for AirportConfiguration {
    type V = AirportV;

    open spec fn deep_view(&self) -> AirportV {
        self.view()
    }
}

impl AirportConfiguration {
    pub fn new(id: &str, name: &str, url: &str) -> (r: AirportConfiguration)
        ensures
            r@ == (AirportV { id: id@, name: name@, url: url@ }),
    {
        AirportConfiguration {
            airport_id: String::from_str(id),
            airport_name: String::from_str(name),
            url: String::from_str(url),
        }
    }

    pub fn get_id(&self) -> (r: &str)
        ensures
            r@ == self@.id,
    {
        self.airport_id.as_str()
    }

    pub fn get_airport_name(&self) -> (r: &str)
        ensures
            r@ == self@.name,
    {
        self.airport_name.as_str()
    }

    pub fn get_url(&self) -> (r: &str)
        ensures
            r@ == self@.url,
    {
        self.url.as_str()
    }
}

/// One custom group: a name and the pattern its members must match.
#[derive(Debug, Clone)]
pub struct GroupConfiguration {
    group_id: String,
    group_name: String,
    pattern: String,
}

impl View for GroupConfiguration {
    type V = GroupConfV;

    closed spec fn view(&self) -> GroupConfV {
        GroupConfV { id: self.group_id@, name: self.group_name@, pattern: self.pattern@ }
    }
}

impl DeepView for GroupConfiguration {
    type V = GroupConfV;

    open spec fn deep_view(&self) -> GroupConfV {
        self.view()
    }
}

impl GroupConfiguration {
    pub fn new(id: &str, name: &str, pattern: &str) -> (r: GroupConfiguration)
        ensures
            r@ == (GroupConfV { id: id@, name: name@, pattern: pattern@ }),
    {
        GroupConfiguration {
            group_id: String::from_str(id),
            group_name: String::from_str(name),
            pattern: String::from_str(pattern),
        }
    }

    pub fn get_id(&self) -> (r: &str)
        ensures
            r@ == self@.id,
    {
        self.group_id.as_str()
    }

    pub fn get_group_name(&self) -> (r: &str)
        ensures
            r@ == self@.name,
    {
        self.group_name.as_str()
    }

    pub fn get_pattern(&self) -> (r: &str)
        ensures
            r@ == self@.pattern,
    {
        self.pattern.as_str()
    }
}

/// The configuration record an aggregation consumes: remote sources,
/// custom group patterns, free-text directive blocks, and literal
/// inline proxy definitions.
#[derive(Debug, Clone)]
pub struct Configuration {
    name: String,
    generals: String,
    airports: Vec<AirportConfiguration>,
    rules: String,
    url_rewrites: String,
    group_configurations: Vec<GroupConfiguration>,
    proxies: Vec<String>,
}

impl View for Configuration {
    type V = ConfigV;

    closed spec fn view(&self) -> ConfigV {
        ConfigV {
            name: self.name@,
            generals: self.generals@,
            airports: self.airports.deep_view(),
            rules: self.rules@,
            url_rewrites: self.url_rewrites@,
            group_configurations: self.group_configurations.deep_view(),
            proxies: self.proxies.deep_view(),
        }
    }
}

impl DeepView for Configuration {
    type V = ConfigV;

    open spec fn deep_view(&self) -> ConfigV {
        self.view()
    }
}

impl Configuration {
    /// A record with the given name and every other field empty.
    pub fn empty(name: &str) -> (r: Configuration)
        ensures
            r@ == (ConfigV {
                name: name@,
                generals: Seq::<char>::empty(),
                airports: Seq::<AirportV>::empty(),
                rules: Seq::<char>::empty(),
                url_rewrites: Seq::<char>::empty(),
                group_configurations: Seq::<GroupConfV>::empty(),
                proxies: Seq::<Seq<char>>::empty(),
            }),
    {
        let r = Configuration {
            name: String::from_str(name),
            generals: String::new(),
            airports: Vec::new(),
            rules: String::new(),
            url_rewrites: String::new(),
            group_configurations: Vec::new(),
            proxies: Vec::new(),
        };
        proof {
            assert(r@ =~~= (ConfigV {
                name: name@,
                generals: Seq::<char>::empty(),
                airports: Seq::<AirportV>::empty(),
                rules: Seq::<char>::empty(),
                url_rewrites: Seq::<char>::empty(),
                group_configurations: Seq::<GroupConfV>::empty(),
                proxies: Seq::<Seq<char>>::empty(),
            }));
        }
        r
    }

    pub fn get_name(&self) -> (r: &str)
        ensures
            r@ == self@.name,
    {
        self.name.as_str()
    }

    pub fn get_airports(&self) -> (r: &Vec<AirportConfiguration>)
        ensures
            r.deep_view() == self@.airports,
    {
        &self.airports
    }

    pub fn get_group_configurations(&self) -> (r: &Vec<GroupConfiguration>)
        ensures
            r.deep_view() == self@.group_configurations,
    {
        &self.group_configurations
    }

    pub fn get_proxies(&self) -> (r: &Vec<String>)
        ensures
            r.deep_view() == self@.proxies,
    {
        &self.proxies
    }

    pub fn get_generals(&self) -> (r: &str)
        ensures
            r@ == self@.generals,
    {
        self.generals.as_str()
    }

    pub fn get_rules(&self) -> (r: &str)
        ensures
            r@ == self@.rules,
    {
        self.rules.as_str()
    }

    pub fn get_url_rewrites(&self) -> (r: &str)
        ensures
            r@ == self@.url_rewrites,
    {
        self.url_rewrites.as_str()
    }

    pub fn update_rules(&mut self, rules: &str)
        ensures
            final(self)@ == (ConfigV { rules: rules@, ..old(self)@ }),
    {
        self.rules = String::from_str(rules);
    }

    pub fn update_generals(&mut self, generals: &str)
        ensures
            final(self)@ == (ConfigV { generals: generals@, ..old(self)@ }),
    {
        self.generals = String::from_str(generals);
    }

    pub fn update_url_rewrites(&mut self, url_rewrites: &str)
        ensures
            final(self)@ == (ConfigV { url_rewrites: url_rewrites@, ..old(self)@ }),
    {
        self.url_rewrites = String::from_str(url_rewrites);
    }

    /// Appends one literal inline proxy-definition line to the
    /// record.
    pub fn add_proxy_line(&mut self, proxy: String)
        ensures
            final(self)@ == (ConfigV {
                proxies: old(self)@.proxies.push(proxy@),
                ..old(self)@
            }),
    {
        let ghost old_v = self@.proxies;
        self.proxies.push(proxy);
        proof {
            assert(self@.proxies =~~= old_v.push(self@.proxies.last()));
        }
    }

    /// Binds a remote source to its id: replaces the source with the
    /// same id or inserts the new one at its sorted position.
    pub fn upsert_airport_configuration(&mut self, config: AirportConfiguration)
        ensures
            final(self)@ == (ConfigV {
                airports: upsert_airport_v(old(self)@.airports, config@),
                ..old(self)@
            }),
    {
        let kc = chars_of(config.airport_id.as_str());
        let ghost cv = config@;
        let ghost dv = self@.airports;
        let n = self.airports.len();
        let mut j: usize = 0;
        while j < n
            invariant
                0 <= j <= n == self.airports.len(),
                kc@ == cv.id,
                dv == self@.airports,
                self@ == old(self)@,
                forall|m: int| 0 <= m < j ==> lex_lt((#[trigger] dv[m]).id, cv.id),
            ensures
                0 <= j <= n,
                self@ == old(self)@,
                forall|m: int| 0 <= m < j ==> lex_lt((#[trigger] dv[m]).id, cv.id),
                j < n ==> !lex_lt(dv[j as int].id, cv.id),
            decreases n - j,
        {
            let pc = chars_of(self.airports[j].airport_id.as_str());
            proof {
                assert(self.airports@[j as int]@ == dv[j as int]);
            }
            if !chars_lt(&pc, &kc) {
                break ;
            }
            j = j + 1;
        }
        proof {
            lemma_upsert_airport_skip(dv, cv, j as int);
        }
        if j == n {
            self.airports.push(config);
            proof {
                assert(dv.skip(n as int) =~= Seq::<AirportV>::empty());
                assert(dv.take(n as int) =~= dv);
                assert(self@.airports =~~= dv + seq![cv]);
                assert(self@ =~~= (ConfigV {
                    airports: upsert_airport_v(old(self)@.airports, cv),
                    ..old(self)@
                }));
            }
        } else {
            proof {
                assert(self.airports@[j as int]@ == dv[j as int]);
                assert(dv.skip(j as int)[0] == dv[j as int]);
            }
            if self.airports[j].airport_id == config.airport_id {
                self.airports.remove(j);
                self.airports.insert(j, config);
                proof {
                    assert(dv.skip(j as int).drop_first() =~= dv.skip(j + 1));
                    assert(upsert_airport_v(dv.skip(j as int), cv) == seq![cv] + dv.skip(j + 1));
                    assert(self@.airports =~~= dv.take(j as int) + (seq![cv] + dv.skip(j + 1)));
                    assert(self@ =~~= (ConfigV {
                        airports: upsert_airport_v(old(self)@.airports, cv),
                        ..old(self)@
                    }));
                }
            } else {
                proof {
                    assert(dv[j as int].id != cv.id);
                    if !lex_lt(cv.id, dv[j as int].id) {
                        lemma_lex_connex(cv.id, dv[j as int].id);
                    }
                    assert(lex_lt(cv.id, dv[j as int].id));
                }
                self.airports.insert(j, config);
                proof {
                    assert(upsert_airport_v(dv.skip(j as int), cv) == seq![cv] + dv.skip(
                        j as int,
                    ));
                    assert(self@.airports =~~= dv.take(j as int) + (seq![cv] + dv.skip(
                        j as int,
                    )));
                    assert(self@ =~~= (ConfigV {
                        airports: upsert_airport_v(old(self)@.airports, cv),
                        ..old(self)@
                    }));
                }
            }
        }
    }

    /// Binds a custom group to its id, the same way.
    pub fn upsert_group_configuration(&mut self, config: GroupConfiguration)
        ensures
            final(self)@ == (ConfigV {
                group_configurations: upsert_group_conf_v(
                    old(self)@.group_configurations,
                    config@,
                ),
                ..old(self)@
            }),
    {
        let kc = chars_of(config.group_id.as_str());
        let ghost cv = config@;
        let ghost dv = self@.group_configurations;
        let n = self.group_configurations.len();
        let mut j: usize = 0;
        while j < n
            invariant
                0 <= j <= n == self.group_configurations.len(),
                kc@ == cv.id,
                dv == self@.group_configurations,
                self@ == old(self)@,
                forall|m: int| 0 <= m < j ==> lex_lt((#[trigger] dv[m]).id, cv.id),
            ensures
                0 <= j <= n,
                self@ == old(self)@,
                forall|m: int| 0 <= m < j ==> lex_lt((#[trigger] dv[m]).id, cv.id),
                j < n ==> !lex_lt(dv[j as int].id, cv.id),
            decreases n - j,
        {
            let pc = chars_of(self.group_configurations[j].group_id.as_str());
            proof {
                assert(self.group_configurations@[j as int]@ == dv[j as int]);
            }
            if !chars_lt(&pc, &kc) {
                break ;
            }
            j = j + 1;
        }
        proof {
            lemma_upsert_group_conf_skip(dv, cv, j as int);
        }
        if j == n {
            self.group_configurations.push(config);
            proof {
                assert(dv.skip(n as int) =~= Seq::<GroupConfV>::empty());
                assert(dv.take(n as int) =~= dv);
                assert(self@.group_configurations =~~= dv + seq![cv]);
                assert(self@ =~~= (ConfigV {
                    group_configurations: upsert_group_conf_v(
                        old(self)@.group_configurations,
                        cv,
                    ),
                    ..old(self)@
                }));
            }
        } else {
            proof {
                assert(self.group_configurations@[j as int]@ == dv[j as int]);
                assert(dv.skip(j as int)[0] == dv[j as int]);
            }
            if self.group_configurations[j].group_id == config.group_id {
                self.group_configurations.remove(j);
                self.group_configurations.insert(j, config);
                proof {
                    assert(dv.skip(j as int).drop_first() =~= dv.skip(j + 1));
                    assert(upsert_group_conf_v(dv.skip(j as int), cv) == seq![cv] + dv.skip(
                        j + 1,
                    ));
                    assert(self@.group_configurations =~~= dv.take(j as int) + (seq![cv]
                        + dv.skip(j + 1)));
                    assert(self@ =~~= (ConfigV {
                        group_configurations: upsert_group_conf_v(
                            old(self)@.group_configurations,
                            cv,
                        ),
                        ..old(self)@
                    }));
                }
            } else {
                proof {
                    assert(dv[j as int].id != cv.id);
                    if !lex_lt(cv.id, dv[j as int].id) {
                        lemma_lex_connex(cv.id, dv[j as int].id);
                    }
                    assert(lex_lt(cv.id, dv[j as int].id));
                }
                self.group_configurations.insert(j, config);
                proof {
                    assert(upsert_group_conf_v(dv.skip(j as int), cv) == seq![cv] + dv.skip(
                        j as int,
                    ));
                    assert(self@.group_configurations =~~= dv.take(j as int) + (seq![cv]
                        + dv.skip(j as int)));
                    assert(self@ =~~= (ConfigV {
                        group_configurations: upsert_group_conf_v(
                            old(self)@.group_configurations,
                            cv,
                        ),
                        ..old(self)@
                    }));
                }
            }
        }
    }
}

/// Whether a pattern is a valid regular expression.  The result of
/// `regex::Regex::new` depends on the pattern alone.
pub uninterp spec fn regex_ok(pattern: Seq<char>) -> bool;

/// Whether a text contains a match for a pattern (substring search,
/// case sensitive).  The result of `regex::Regex::is_match` depends
/// on the pattern and the text alone.
pub uninterp spec fn regex_matches(pattern: Seq<char>, text: Seq<char>) -> bool;

/// Relies on `regex::Regex::new` and `regex::Regex::is_match`: the
/// pattern compiles or not regardless of the text, and a compiled
/// pattern matches somewhere in the text as a pure function of
/// pattern and text.
#[verifier::external_body]
fn regex_is_match(pattern: &str, text: &str) -> (r: Option<bool>)
    ensures
        r is Some <==> regex_ok(pattern@),
        r matches Some(b) ==> b == regex_matches(pattern@, text@),
{
    match regex::Regex::new(pattern) {
        Ok(re) => Some(re.is_match(text)),
        Err(_) => None,
    }
}

/// The proxies of the sub-documents concatenated in source order.
pub open spec fn concat_proxies_v(docs: Seq<DocV>) -> Seq<ProxyV>
    decreases docs.len(),
{
    if docs.len() == 0 {
        Seq::<ProxyV>::empty()
    } else {
        concat_proxies_v(docs.drop_last()) + docs.last().proxies
    }
}

/// The display names of the entries, in order.
pub open spec fn proxy_names_v(ps: Seq<ProxyV>) -> Seq<Seq<char>> {
    ps.map_values(|p: ProxyV| p.name)
}

/// The non-empty trimmed lines of a free-text block, in order.
pub open spec fn nonblank_lines_v(ls: Seq<Seq<char>>) -> Seq<Seq<char>>
    decreases ls.len(),
{
    if ls.len() == 0 {
        Seq::<Seq<char>>::empty()
    } else {
        let prev = nonblank_lines_v(ls.drop_last());
        let t = trim_v(ls.last());
        if t.len() > 0 {
            prev + seq![t]
        } else {
            prev
        }
    }
}

/// The managed-config head built for a record: the serving host and
/// the record name embedded in a fixed template.
pub open spec fn head_line_v(name: Seq<char>, host: Seq<char>) -> Seq<char> {
    "#!MANAGED-CONFIG "@ + host + "/api/v1/configurations/"@ + name
        + "/surge interval=43200 strict=false"@
}

/// The names whose text contains a match for the pattern, in order;
/// none when the pattern does not compile.
pub open spec fn matching_members_v(pattern: Seq<char>, names: Seq<Seq<char>>) -> Seq<
    Seq<char>,
>
    decreases names.len(),
{
    if names.len() == 0 {
        Seq::<Seq<char>>::empty()
    } else {
        let prev = matching_members_v(pattern, names.drop_last());
        if regex_ok(pattern) && regex_matches(pattern, names.last()) {
            prev + seq![names.last()]
        } else {
            prev
        }
    }
}

/// One synthesized selection group per custom group, in the record's
/// sorted id order: named after the group id, its members the merged
/// proxy names matching the group's pattern.
pub open spec fn custom_groups_v(gcs: Seq<GroupConfV>, names: Seq<Seq<char>>) -> Seq<GroupV>
    decreases gcs.len(),
{
    if gcs.len() == 0 {
        Seq::<GroupV>::empty()
    } else {
        custom_groups_v(gcs.drop_last(), names) + seq![
            GroupV {
                name: gcs.last().id,
                kind: GroupKindV::Select,
                members: matching_members_v(gcs.last().pattern, names),
            },
        ]
    }
}

/// The ids of the custom groups, in order.
pub open spec fn group_ids_v(gcs: Seq<GroupConfV>) -> Seq<Seq<char>> {
    gcs.map_values(|g: GroupConfV| g.id)
}

/// The synthesized group list, in fixed order: the `Auto` latency
/// probe over every merged proxy name; one selection group per custom
/// group; and the catch-all `Proxy` selection group over `Auto`,
/// `DIRECT`, the custom group ids, and every merged proxy name.
pub open spec fn synth_groups_v(gcs: Seq<GroupConfV>, names: Seq<Seq<char>>) -> Seq<GroupV> {
    seq![GroupV { name: "Auto"@, kind: fresh_default_kind(), members: names }]
        + custom_groups_v(gcs, names) + seq![
        GroupV {
            name: "Proxy"@,
            kind: GroupKindV::Select,
            members: seq!["Auto"@, "DIRECT"@] + group_ids_v(gcs) + names,
        },
    ]
}

/// The output document of an aggregation: the merged proxies of the
/// sub-documents in source order with the record's inline proxies
/// appended at the back, the record's directive blocks split into
/// lines, the managed-config head, and the synthesized groups.
pub open spec fn aggregate_v(c: ConfigV, docs: Seq<DocV>, host: Seq<char>) -> DocV {
    let merged = concat_proxies_v(docs) + parse_proxies_v(c.proxies);
    DocV {
        head: head_line_v(c.name, host),
        general: nonblank_lines_v(split_v(c.generals, '\n')),
        proxies: merged,
        groups: synth_groups_v(c.group_configurations, proxy_names_v(merged)),
        rules: nonblank_lines_v(split_v(c.rules, '\n')),
        url_rewrites: nonblank_lines_v(split_v(c.url_rewrites, '\n')),
    }
}

/// Group synthesis order: with no custom groups the synthesized list
/// is exactly the `Auto` probe group over the merged names followed
/// by the catch-all `Proxy` group over `Auto`, `DIRECT`, and the
/// names.
pub proof fn lemma_group_synthesis_order(names: Seq<Seq<char>>)
    ensures
        synth_groups_v(Seq::<GroupConfV>::empty(), names) == seq![
            GroupV { name: "Auto"@, kind: fresh_default_kind(), members: names },
            GroupV {
                name: "Proxy"@,
                kind: GroupKindV::Select,
                members: seq!["Auto"@, "DIRECT"@] + names,
            },
        ],
{
    assert(custom_groups_v(Seq::<GroupConfV>::empty(), names) =~= Seq::<GroupV>::empty());
    assert(group_ids_v(Seq::<GroupConfV>::empty()) =~= Seq::<Seq<char>>::empty());
    assert(seq!["Auto"@, "DIRECT"@] + group_ids_v(Seq::<GroupConfV>::empty()) + names
        =~= seq!["Auto"@, "DIRECT"@] + names);
    assert(synth_groups_v(Seq::<GroupConfV>::empty(), names) =~= seq![
        GroupV { name: "Auto"@, kind: fresh_default_kind(), members: names },
        GroupV {
            name: "Proxy"@,
            kind: GroupKindV::Select,
            members: seq!["Auto"@, "DIRECT"@] + names,
        },
    ]);
}

impl Configuration {
    /// The merge of the sub-documents: their proxies concatenated in
    /// source order, every other section empty.  Fails exactly when
    /// there is no sub-document at all — the sole fatal condition of
    /// an aggregation.
    pub fn merge_surge_configurations(surge_configurations: &Vec<SurgeConfiguration>) -> (r:
        Option<SurgeConfiguration>)
        ensures
            r is Some <==> surge_configurations@.len() > 0,
            r matches Some(c) ==> c@ == (DocV {
                proxies: concat_proxies_v(surge_configurations.deep_view()),
                ..empty_doc()
            }),
    {
        if surge_configurations.len() == 0 {
            return None;
        }
        let ghost dv = surge_configurations.deep_view();
        let mut ret = SurgeConfiguration::default();
        let n = surge_configurations.len();
        let mut i: usize = 0;
        proof {
            assert(concat_proxies_v(dv.take(0)) =~= Seq::<ProxyV>::empty());
            assert(ret@ =~~= (DocV { proxies: concat_proxies_v(dv.take(0)), ..empty_doc() }));
        }
        while i < n
            invariant
                0 <= i <= n == surge_configurations@.len(),
                dv == surge_configurations.deep_view(),
                n == dv.len(),
                ret@ == (DocV { proxies: concat_proxies_v(dv.take(i as int)), ..empty_doc() }),
            decreases n - i,
        {
            let ghost pre = ret@;
            ret.merge(&surge_configurations[i]);
            proof {
                assert(surge_configurations@[i as int]@ == dv[i as int]);
                assert(dv.take(i + 1).drop_last() =~= dv.take(i as int));
                assert(dv.take(i + 1).last() == dv[i as int]);
                assert(ret@ =~~= (DocV {
                    proxies: concat_proxies_v(dv.take(i + 1)),
                    ..empty_doc()
                }));
            }
            i = i + 1;
        }
        proof {
            assert(dv.take(n as int) =~= dv);
        }
        Some(ret)
    }

    /// Decodes the record's literal inline proxy definitions and
    /// appends them, in order, to the back of the document's
    /// proxies; malformed lines are silently dropped.
    pub fn add_proxies(&self, surge_configuration: &mut SurgeConfiguration)
        ensures
            final(surge_configuration)@ == (DocV {
                proxies: old(surge_configuration)@.proxies + parse_proxies_v(self@.proxies),
                ..old(surge_configuration)@
            }),
    {
        let ghost dv = self@.proxies;
        let n = self.proxies.len();
        let mut i: usize = 0;
        proof {
            assert(parse_proxies_v(dv.take(0)) =~= Seq::<ProxyV>::empty());
            assert(old(surge_configuration)@.proxies + parse_proxies_v(dv.take(0))
                =~= old(surge_configuration)@.proxies);
        }
        while i < n
            invariant
                0 <= i <= n == self.proxies@.len(),
                dv == self@.proxies,
                n == dv.len(),
                surge_configuration@ == (DocV {
                    proxies: old(surge_configuration)@.proxies + parse_proxies_v(dv.take(
                        i as int,
                    )),
                    ..old(surge_configuration)@
                }),
            decreases n - i,
        {
            proof {
                assert(self.proxies@[i as int]@ == dv[i as int]);
                assert(dv.take(i + 1).drop_last() =~= dv.take(i as int));
                assert(dv.take(i + 1).last() == dv[i as int]);
            }
            let ghost pre = surge_configuration@.proxies;
            surge_configuration.add_proxy(self.proxies[i].as_str());
            proof {
                assert(surge_configuration@.proxies =~= old(surge_configuration)@.proxies
                    + parse_proxies_v(dv.take(i + 1)));
                assert(surge_configuration@ =~~= (DocV {
                    proxies: old(surge_configuration)@.proxies + parse_proxies_v(dv.take(
                        i + 1,
                    )),
                    ..old(surge_configuration)@
                }));
            }
            i = i + 1;
        }
        proof {
            assert(dv.take(n as int) =~= dv);
        }
    }

    /// Sets the managed-config head from the fixed template, the
    /// serving host and the record name embedded.
    pub fn populate_surge_head(&self, surge_configuration: &mut SurgeConfiguration, host: &str)
        ensures
            final(surge_configuration)@ == (DocV {
                head: head_line_v(self@.name, host@),
                ..old(surge_configuration)@
            }),
    {
        let mut head = String::new();
        head.append("#!MANAGED-CONFIG ");
        head.append(host);
        head.append("/api/v1/configurations/");
        head.append(self.name.as_str());
        head.append("/surge interval=43200 strict=false");
        proof {
            assert(head@ =~= head_line_v(self@.name, host@));
        }
        surge_configuration.set_head(head);
    }

    /// Appends the non-empty trimmed lines of the record's generals
    /// block, in order.
    pub fn populate_surge_generals(&self, surge_configuration: &mut SurgeConfiguration)
        ensures
            final(surge_configuration)@ == (DocV {
                general: old(surge_configuration)@.general + nonblank_lines_v(
                    split_v(self@.generals, '\n'),
                ),
                ..old(surge_configuration)@
            }),
    {
        let cc = chars_of(self.generals.as_str());
        let lines = split_chars(&cc, '\n');
        let ghost dv = lines.deep_view();
        let n = lines.len();
        let mut i: usize = 0;
        proof {
            assert(nonblank_lines_v(dv.take(0)) =~= Seq::<Seq<char>>::empty());
            assert(old(surge_configuration)@.general + nonblank_lines_v(dv.take(0))
                =~= old(surge_configuration)@.general);
        }
        while i < n
            invariant
                0 <= i <= n == lines@.len(),
                dv == lines.deep_view(),
                n == dv.len(),
                surge_configuration@ == (DocV {
                    general: old(surge_configuration)@.general + nonblank_lines_v(dv.take(
                        i as int,
                    )),
                    ..old(surge_configuration)@
                }),
            decreases n - i,
        {
            proof {
                assert(lines@[i as int]@ == dv[i as int]);
                assert(dv.take(i + 1).drop_last() =~= dv.take(i as int));
                assert(dv.take(i + 1).last() == dv[i as int]);
            }
            let t = trim_chars(&lines[i]);
            if t.len() > 0 {
                let ghost pre = surge_configuration@.general;
                surge_configuration.add_general(string_from_chars(&t));
                proof {
                    assert(pre.push(trim_v(dv[i as int])) =~= old(
                        surge_configuration,
                    )@.general + nonblank_lines_v(dv.take(i + 1)));
                    assert(surge_configuration@ =~~= (DocV {
                        general: old(surge_configuration)@.general + nonblank_lines_v(
                            dv.take(i + 1),
                        ),
                        ..old(surge_configuration)@
                    }));
                }
            } else {
                proof {
                    assert(nonblank_lines_v(dv.take(i + 1)) =~= nonblank_lines_v(dv.take(
                        i as int,
                    )));
                    assert(surge_configuration@ =~~= (DocV {
                        general: old(surge_configuration)@.general + nonblank_lines_v(
                            dv.take(i + 1),
                        ),
                        ..old(surge_configuration)@
                    }));
                }
            }
            i = i + 1;
        }
        proof {
            assert(dv.take(n as int) =~= dv);
            assert(dv == split_v(self@.generals, '\n'));
        }
    }

    /// Appends the non-empty trimmed lines of the record's rules
    /// block, in order.
    pub fn populate_surge_rules(&self, surge_configuration: &mut SurgeConfiguration)
        ensures
            final(surge_configuration)@ == (DocV {
                rules: old(surge_configuration)@.rules + nonblank_lines_v(
                    split_v(self@.rules, '\n'),
                ),
                ..old(surge_configuration)@
            }),
    {
        let cc = chars_of(self.rules.as_str());
        let lines = split_chars(&cc, '\n');
        let ghost dv = lines.deep_view();
        let n = lines.len();
        let mut i: usize = 0;
        proof {
            assert(nonblank_lines_v(dv.take(0)) =~= Seq::<Seq<char>>::empty());
            assert(old(surge_configuration)@.rules + nonblank_lines_v(dv.take(0)) =~= old(
                surge_configuration,
            )@.rules);
        }
        while i < n
            invariant
                0 <= i <= n == lines@.len(),
                dv == lines.deep_view(),
                n == dv.len(),
                surge_configuration@ == (DocV {
                    rules: old(surge_configuration)@.rules + nonblank_lines_v(dv.take(
                        i as int,
                    )),
                    ..old(surge_configuration)@
                }),
            decreases n - i,
        {
            proof {
                assert(lines@[i as int]@ == dv[i as int]);
                assert(dv.take(i + 1).drop_last() =~= dv.take(i as int));
                assert(dv.take(i + 1).last() == dv[i as int]);
            }
            let t = trim_chars(&lines[i]);
            if t.len() > 0 {
                let ghost pre = surge_configuration@.rules;
                surge_configuration.add_rule(string_from_chars(&t));
                proof {
                    assert(pre.push(trim_v(dv[i as int])) =~= old(surge_configuration)@.rules
                        + nonblank_lines_v(dv.take(i + 1)));
                    assert(surge_configuration@ =~~= (DocV {
                        rules: old(surge_configuration)@.rules + nonblank_lines_v(dv.take(
                            i + 1,
                        )),
                        ..old(surge_configuration)@
                    }));
                }
            } else {
                proof {
                    assert(nonblank_lines_v(dv.take(i + 1)) =~= nonblank_lines_v(dv.take(
                        i as int,
                    )));
                    assert(surge_configuration@ =~~= (DocV {
                        rules: old(surge_configuration)@.rules + nonblank_lines_v(dv.take(
                            i + 1,
                        )),
                        ..old(surge_configuration)@
                    }));
                }
            }
            i = i + 1;
        }
        proof {
            assert(dv.take(n as int) =~= dv);
            assert(dv == split_v(self@.rules, '\n'));
        }
    }

    /// Appends the non-empty trimmed lines of the record's URL
    /// rewrite block, in order.
    pub fn populate_surge_url_rewrites(&self, surge_configuration: &mut SurgeConfiguration)
        ensures
            final(surge_configuration)@ == (DocV {
                url_rewrites: old(surge_configuration)@.url_rewrites + nonblank_lines_v(
                    split_v(self@.url_rewrites, '\n'),
                ),
                ..old(surge_configuration)@
            }),
    {
        let cc = chars_of(self.url_rewrites.as_str());
        let lines = split_chars(&cc, '\n');
        let ghost dv = lines.deep_view();
        let n = lines.len();
        let mut i: usize = 0;
        proof {
            assert(nonblank_lines_v(dv.take(0)) =~= Seq::<Seq<char>>::empty());
            assert(old(surge_configuration)@.url_rewrites + nonblank_lines_v(dv.take(0))
                =~= old(surge_configuration)@.url_rewrites);
        }
        while i < n
            invariant
                0 <= i <= n == lines@.len(),
                dv == lines.deep_view(),
                n == dv.len(),
                surge_configuration@ == (DocV {
                    url_rewrites: old(surge_configuration)@.url_rewrites + nonblank_lines_v(
                        dv.take(i as int),
                    ),
                    ..old(surge_configuration)@
                }),
            decreases n - i,
        {
            proof {
                assert(lines@[i as int]@ == dv[i as int]);
                assert(dv.take(i + 1).drop_last() =~= dv.take(i as int));
                assert(dv.take(i + 1).last() == dv[i as int]);
            }
            let t = trim_chars(&lines[i]);
            if t.len() > 0 {
                let ghost pre = surge_configuration@.url_rewrites;
                surge_configuration.add_url_rewrite(string_from_chars(&t));
                proof {
                    assert(pre.push(trim_v(dv[i as int])) =~= old(
                        surge_configuration,
                    )@.url_rewrites + nonblank_lines_v(dv.take(i + 1)));
                    assert(surge_configuration@ =~~= (DocV {
                        url_rewrites: old(surge_configuration)@.url_rewrites
                            + nonblank_lines_v(dv.take(i + 1)),
                        ..old(surge_configuration)@
                    }));
                }
            } else {
                proof {
                    assert(nonblank_lines_v(dv.take(i + 1)) =~= nonblank_lines_v(dv.take(
                        i as int,
                    )));
                    assert(surge_configuration@ =~~= (DocV {
                        url_rewrites: old(surge_configuration)@.url_rewrites
                            + nonblank_lines_v(dv.take(i + 1)),
                        ..old(surge_configuration)@
                    }));
                }
            }
            i = i + 1;
        }
        proof {
            assert(dv.take(n as int) =~= dv);
            assert(dv == split_v(self@.url_rewrites, '\n'));
        }
    }

    /// Synthesizes the group hierarchy and appends it to the
    /// document's groups, in fixed order: the `Auto` probe group over
    /// every proxy name; one selection group per custom group, in the
    /// record's sorted id order, holding the names whose text matches
    /// the group's pattern (none when the pattern does not compile);
    /// and the catch-all `Proxy` selection group.
    pub fn populate_surge_proxy_groups(&self, surge_configuration: &mut SurgeConfiguration)
        ensures
            final(surge_configuration)@ == (DocV {
                groups: old(surge_configuration)@.groups + synth_groups_v(
                    self@.group_configurations,
                    proxy_names_v(old(surge_configuration)@.proxies),
                ),
                ..old(surge_configuration)@
            }),
    {
        let ghost names_v = proxy_names_v(surge_configuration@.proxies);
        let mut names: Vec<String> = Vec::new();
        {
            let proxies = surge_configuration.get_proxies();
            let n = proxies.len();
            let mut i: usize = 0;
            proof {
                assert(names.deep_view() =~= names_v.take(0));
            }
            while i < n
                invariant
                    0 <= i <= n == proxies@.len(),
                    proxies.deep_view() == surge_configuration@.proxies,
                    names_v == proxy_names_v(surge_configuration@.proxies),
                    n == names_v.len(),
                    names.deep_view() == names_v.take(i as int),
                decreases n - i,
            {
                let ghost old_dv = names.deep_view();
                names.push(String::from_str(proxies[i].get_name()));
                proof {
                    assert(proxies@[i as int]@ == proxies.deep_view()[i as int]);
                    assert(names.deep_view() =~~= old_dv.push(names_v[i as int]));
                    assert(old_dv.push(names_v[i as int]) =~= names_v.take(i + 1));
                }
                i = i + 1;
            }
            proof {
                assert(names_v.take(n as int) =~= names_v);
            }
        }
        let nn = names.len();

        let mut auto_group = ProxyGroup::with_name("Auto");
        let mut i: usize = 0;
        proof {
            assert(auto_group@.members =~= names_v.take(0));
        }
        while i < nn
            invariant
                0 <= i <= nn == names@.len(),
                names.deep_view() == names_v,
                nn == names_v.len(),
                auto_group@.name == "Auto"@,
                auto_group@.kind == fresh_default_kind(),
                auto_group@.members == names_v.take(i as int),
            decreases nn - i,
        {
            auto_group.add_proxy(names[i].as_str());
            proof {
                assert(names@[i as int]@ == names_v[i as int]);
                assert(names_v.take(i as int).push(names_v[i as int]) =~= names_v.take(i + 1));
            }
            i = i + 1;
        }
        proof {
            assert(names_v.take(nn as int) =~= names_v);
        }

        let mut all_proxy = ProxyGroup::with_name("Proxy");
        all_proxy.set_type(ProxyGroupType::Select);
        all_proxy.add_proxy("Auto");
        all_proxy.add_proxy("DIRECT");
        proof {
            assert(all_proxy@.members =~= seq!["Auto"@, "DIRECT"@]);
        }

        let ghost base_groups = surge_configuration@.groups;
        let ghost gcs = self@.group_configurations;
        surge_configuration.add_proxy_group(auto_group);
        proof {
            let auto_v = GroupV {
                name: "Auto"@,
                kind: fresh_default_kind(),
                members: names_v,
            };
            assert(auto_group@ =~~= auto_v);
            assert(surge_configuration@.groups =~= base_groups + seq![auto_v]
                + custom_groups_v(gcs.take(0), names_v));
        }

        let ng = self.group_configurations.len();
        let mut g: usize = 0;
        while g < ng
            invariant
                0 <= g <= ng == self.group_configurations@.len(),
                gcs == self@.group_configurations,
                ng == gcs.len(),
                names.deep_view() == names_v,
                nn == names_v.len(),
                nn == names@.len(),
                surge_configuration@ == (DocV {
                    groups: base_groups + seq![
                        GroupV { name: "Auto"@, kind: fresh_default_kind(), members: names_v },
                    ] + custom_groups_v(gcs.take(g as int), names_v),
                    ..old(surge_configuration)@
                }),
                all_proxy@.name == "Proxy"@,
                all_proxy@.kind == GroupKindV::Select,
                all_proxy@.members == seq!["Auto"@, "DIRECT"@] + group_ids_v(gcs.take(g as int)),
            decreases ng - g,
        {
            proof {
                assert(self.group_configurations@[g as int]@ == gcs[g as int]);
            }
            let ghost pattern = gcs[g as int].pattern;
            let mut group = ProxyGroup::with_name(self.group_configurations[g].group_id.as_str());
            group.set_type(ProxyGroupType::Select);
            let mut j: usize = 0;
            proof {
                assert(group@.members =~= matching_members_v(pattern, names_v.take(0)));
            }
            while j < nn
                invariant
                    0 <= j <= nn == names@.len(),
                    names.deep_view() == names_v,
                    nn == names_v.len(),
                    g < self.group_configurations@.len(),
                    gcs == self@.group_configurations,
                    pattern == gcs[g as int].pattern,
                    self.group_configurations@[g as int]@ == gcs[g as int],
                    group@.name == gcs[g as int].id,
                    group@.kind == GroupKindV::Select,
                    group@.members == matching_members_v(pattern, names_v.take(j as int)),
                decreases nn - j,
            {
                proof {
                    assert(names@[j as int]@ == names_v[j as int]);
                    assert(names_v.take(j + 1).drop_last() =~= names_v.take(j as int));
                    assert(names_v.take(j + 1).last() == names_v[j as int]);
                }
                let matched = regex_is_match(
                    self.group_configurations[g].get_pattern(),
                    names[j].as_str(),
                );
                let ghost pre_members = group@.members;
                match matched {
                    Some(true) => {
                        group.add_proxy(names[j].as_str());
                        proof {
                            assert(pre_members.push(names_v[j as int]) =~= matching_members_v(
                                pattern,
                                names_v.take(j + 1),
                            ));
                        }
                    },
                    Some(false) => {
                        proof {
                            assert(matching_members_v(pattern, names_v.take(j + 1))
                                =~= matching_members_v(pattern, names_v.take(j as int)));
                        }
                    },
                    None => {
                        proof {
                            assert(!regex_ok(pattern));
                            assert(matching_members_v(pattern, names_v.take(j + 1))
                                =~= matching_members_v(pattern, names_v.take(j as int)));
                        }
                    },
                }
                j = j + 1;
            }
            proof {
                assert(names_v.take(nn as int) =~= names_v);
            }
            let ghost pre_groups = surge_configuration@.groups;
            let ghost group_v = group@;
            surge_configuration.add_proxy_group(group);
            all_proxy.add_proxy(self.group_configurations[g].get_id());
            proof {
                assert(gcs.take(g + 1).drop_last() =~= gcs.take(g as int));
                assert(gcs.take(g + 1).last() == gcs[g as int]);
                assert(group_v =~~= (GroupV {
                    name: gcs[g as int].id,
                    kind: GroupKindV::Select,
                    members: matching_members_v(gcs[g as int].pattern, names_v),
                }));
                assert(pre_groups.push(group_v) =~= base_groups + seq![
                    GroupV { name: "Auto"@, kind: fresh_default_kind(), members: names_v },
                ] + custom_groups_v(gcs.take(g + 1), names_v));
                assert(surge_configuration@ =~~= (DocV {
                    groups: base_groups + seq![
                        GroupV { name: "Auto"@, kind: fresh_default_kind(), members: names_v },
                    ] + custom_groups_v(gcs.take(g + 1), names_v),
                    ..old(surge_configuration)@
                }));
                assert(group_ids_v(gcs.take(g + 1)) =~= group_ids_v(gcs.take(g as int)).push(
                    gcs[g as int].id,
                ));
                assert(all_proxy@.members =~= seq!["Auto"@, "DIRECT"@] + group_ids_v(gcs.take(
                    g + 1,
                )));
            }
            g = g + 1;
        }
        proof {
            assert(gcs.take(ng as int) =~= gcs);
        }

        let mut k: usize = 0;
        while k < nn
            invariant
                0 <= k <= nn == names@.len(),
                names.deep_view() == names_v,
                nn == names_v.len(),
                all_proxy@.name == "Proxy"@,
                all_proxy@.kind == GroupKindV::Select,
                all_proxy@.members == seq!["Auto"@, "DIRECT"@] + group_ids_v(gcs) + names_v.take(
                    k as int,
                ),
            decreases nn - k,
        {
            proof {
                assert((seq!["Auto"@, "DIRECT"@] + group_ids_v(gcs) + names_v.take(0))
                    =~= seq!["Auto"@, "DIRECT"@] + group_ids_v(gcs));
            }
            all_proxy.add_proxy(names[k].as_str());
            proof {
                assert(names@[k as int]@ == names_v[k as int]);
                assert((seq!["Auto"@, "DIRECT"@] + group_ids_v(gcs) + names_v.take(
                    k as int,
                )).push(names_v[k as int]) =~= seq!["Auto"@, "DIRECT"@] + group_ids_v(gcs)
                    + names_v.take(k + 1));
            }
            k = k + 1;
        }
        proof {
            assert(names_v.take(0) =~= Seq::<Seq<char>>::empty());
            assert((seq!["Auto"@, "DIRECT"@] + group_ids_v(gcs) + names_v.take(0))
                =~= seq!["Auto"@, "DIRECT"@] + group_ids_v(gcs));
            assert(names_v.take(nn as int) =~= names_v);
        }
        let ghost pre_groups = surge_configuration@.groups;
        let ghost all_v = all_proxy@;
        surge_configuration.add_proxy_group(all_proxy);
        proof {
            assert(all_v =~~= (GroupV {
                name: "Proxy"@,
                kind: GroupKindV::Select,
                members: seq!["Auto"@, "DIRECT"@] + group_ids_v(gcs) + names_v,
            }));
            assert(pre_groups.push(all_v) =~= base_groups + synth_groups_v(gcs, names_v));
            assert(surge_configuration@ =~~= (DocV {
                groups: base_groups + synth_groups_v(gcs, names_v),
                ..old(surge_configuration)@
            }));
        }
    }

    /// The whole aggregation over already-fetched sub-documents: the
    /// merged proxies (sources in order, then the record's inline
    /// definitions), the record's directive blocks, the
    /// managed-config head for the given serving host, and the
    /// synthesized groups.  Fails exactly when no sub-document was
    /// obtained.
    pub fn build_surge_configuration(
        &self,
        sub_configurations: &Vec<SurgeConfiguration>,
        host: &str,
    ) -> (r: Option<SurgeConfiguration>)
        ensures
            r is Some <==> sub_configurations@.len() > 0,
            r matches Some(c) ==> c@ == aggregate_v(
                self@,
                sub_configurations.deep_view(),
                host@,
            ),
    {
        match Self::merge_surge_configurations(sub_configurations) {
            None => None,
            Some(mut surge_configuration) => {
                self.add_proxies(&mut surge_configuration);
                self.populate_surge_head(&mut surge_configuration, host);
                self.populate_surge_generals(&mut surge_configuration);
                self.populate_surge_rules(&mut surge_configuration);
                self.populate_surge_proxy_groups(&mut surge_configuration);
                self.populate_surge_url_rewrites(&mut surge_configuration);
                proof {
                    assert(Seq::<Seq<char>>::empty() + nonblank_lines_v(
                        split_v(self@.generals, '\n'),
                    ) =~= nonblank_lines_v(split_v(self@.generals, '\n')));
                    assert(Seq::<Seq<char>>::empty() + nonblank_lines_v(
                        split_v(self@.rules, '\n'),
                    ) =~= nonblank_lines_v(split_v(self@.rules, '\n')));
                    assert(Seq::<Seq<char>>::empty() + nonblank_lines_v(
                        split_v(self@.url_rewrites, '\n'),
                    ) =~= nonblank_lines_v(split_v(self@.url_rewrites, '\n')));
                    assert(Seq::<GroupV>::empty() + synth_groups_v(
                        self@.group_configurations,
                        proxy_names_v(
                            concat_proxies_v(sub_configurations.deep_view())
                                + parse_proxies_v(self@.proxies),
                        ),
                    ) =~= synth_groups_v(
                        self@.group_configurations,
                        proxy_names_v(
                            concat_proxies_v(sub_configurations.deep_view())
                                + parse_proxies_v(self@.proxies),
                        ),
                    ));
                    assert(surge_configuration@ =~~= aggregate_v(
                        self@,
                        sub_configurations.deep_view(),
                        host@,
                    ));
                }
                Some(surge_configuration)
            },
        }
    }
}

} // verus!
